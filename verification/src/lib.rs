//! Line classification and message assembly for a relay between a
//! line-oriented bulletin server and WebSocket clients.

pub mod encoding;
pub mod text;
pub mod parser;
pub mod upstream;
