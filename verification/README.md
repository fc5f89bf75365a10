# wasd

WASD (Web As Secondary Display) turns an Android phone's browser into a
secondary X11 monitor: it configures a VKMS virtual output with `xrandr`,
moves an i3 workspace onto it, captures it over MIT-SHM and streams it as
JPEG frames over a WebSocket.

Layout:

- `src/` — the library, verified with Verus:
  - `text.rs`: line and word splitting, searching, `i16` parsing, decimal
    formatting and replacement, each specified over `Seq<char>`;
  - `display.rs`: reading `xrandr --query` reports (virtual output, primary
    output, output position) and building the `xrandr` / `i3-msg` commands;
  - `capture.rs`: the frame buffer of the capture rectangle and the cursor
    composited onto it by alpha blending;
  - `config.rs`: the configuration and its validation;
  - `server.rs`: the served page, the capture loop's pacing and the
    WebSocket connection's steps;
  - `error.rs`: the library's errors and their messages.
- `app/` — the program: configuration file, processes, X11, JPEG encoding
  and the HTTP server.
- `tests/` — tests of the library.
