//! What goes from a WebSocket client to the server.

use vstd::prelude::*;

verus! {

/// A frame received from a WebSocket client.
pub enum WsFrame {
    Text(String),
    Binary(Vec<u8>),
    Ping(Vec<u8>),
    Pong(Vec<u8>),
    /// A close frame, with its code and reason when it has them.
    Close(Option<(u16, String)>),
}

/// The command sent to the server first, before anything from the client:
/// it turns off the announcements, so that only the speech and shouts come.
pub open spec fn silence_command_text() -> Seq<char> {
    seq!['n', 'o', 'b', 'o', 'd', 'y', '\n']
}

/// The command that opens every session with the server.
pub fn silence_command() -> (s: &'static str)
    ensures
        s@ == silence_command_text(),
{
    let s = "nobody\n";
    proof {
        reveal_strlit("nobody\n");
    }
    assert(s@ =~= silence_command_text());
    s
}

/// The text to pass on to the server for a frame from the client: the text of
/// a text frame, as it is; nothing for any other frame.
pub fn forwarded_text(frame: WsFrame) -> (r: Option<String>)
    ensures
        r == (match frame {
            WsFrame::Text(s) => Some(s),
            _ => None,
        }),
{
    match frame {
        WsFrame::Text(s) => Some(s),
        _ => None,
    }
}

} // verus!
