# koukoku-ws-proxy

A WebSocket proxy for the koukoku bulletin server. From the server it takes
the speech and the shouts (`>> ... <<`, possibly over several lines) and hands
each on to the WebSocket client as a JSON message `{"kind":..,"payload":..}`;
what a client sends as text goes to the server.

- `src/` is the verified library (Verus):
  - `text.rs`: what a line is (header, opening or closing of a shout), stated
    over the line's UTF-8 bytes, and the joining of lines with CR LF removed;
  - `parser.rs`: the parser as a state machine (`parse_step`), the executable
    `Parser` proved against it, and the laws of the parser;
  - `upstream.rs`: what goes from a client to the server.
- `app/` is the program: the TLS connection, the WebSocket endpoint, the JSON
  encoding and the two relay loops, which leave every decision to the library.
- `tests/` runs the library on concrete lines.
