# dsweb

The verified core of a screen-sharing service: the capturing side cuts each
captured I420 frame into tiles, sends the tiles that changed, compressed, to
the browser, and replays the keyboard and mouse input the browser sends back;
the browser side decodes each tile to RGBA and draws it where it was cut.

- `src/` — the library, verified with Verus:
  - `imop` — tiling of frames (`split_meta_info`, `split_i420_into_subimages`);
  - `convert` — I420 to RGBA (`i420_to_rgba`);
  - `codec` — tile messages (DEFLATE through flate2) and their decoding;
  - `stream` — changed tiles and blocks, frame messages, stream headers;
  - `dscom` — control tags and block buffers (`get_rgb_block`);
  - `ctrl`, `bitmap` — the control protocol and the held-keys set;
  - `transfer`, `http` — the clipboard / file-list protocol and file routes;
  - `capture` — the grabber's retry policy.
- `tests/` — tests of the library.
- `app/` — the program around it: HTTP and websocket servers, screen
  capture, input injection, clipboard, and the browser (WebAssembly) side.
