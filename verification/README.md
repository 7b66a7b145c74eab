# webview-capture

A Tauri plugin that captures a webview's own rendering (DOM + WebGL) as PNG, even
while the window is occluded, records bursts of frames, and measures recorded frames
(mean luma per region, share of changed pixels per region).

The decisions are a verified Verus library (`src/`):

- `session` — the `snapshot` / `record` commands as a state machine: arm, capture each
  frame (at most 600), pause between frames, always disarm, finish with the count or
  the first failure.
- `region` — the `snapshot_region` command: all-or-none crop rectangle, and a session
  that hands back the grabbed PNG base64-encoded (the `base64` crate).
- `frames` — frame file names `f0000.png`, `f0001.png`, ...
- `luma` — 8-bit grayscale frames, decoded with the `image` crate.
- `analysis` — exact region statistics (luma sums, changed-pixel counts).
- `scan` — the frame analyses as a state machine that probes frames in order and stops
  at the first missing one.
- `error` — the commands' error type.

`app/` wires the library to Tauri, the file system, floating point and each platform's
native capture API (ScreenCaptureKit, WebView2, WebKitGTK).
