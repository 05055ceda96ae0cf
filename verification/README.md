# weechat

A client for the WeeChat relay protocol.

- `src/` is the verified library: the binary message grammar as spec
  functions (`grammar.rs`), byte-level primitives and string splitting
  (`bytes.rs`), the parsers with contracts that tie each of them to the
  grammar (`parser.rs`), the per-message reading of the websocket client
  (`client.rs`), and properties of the grammar (`laws.rs`).
- `app/` is the program around it: the ncurses front end, the websocket
  connection, the session through the C library `libweechatrelay`, and a
  GTK window.
- `tests/` runs the parsers on concrete messages.
