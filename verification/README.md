# audio_cascade

A system-audio spectrum visualizer: it captures the audio that macOS plays
(ScreenCaptureKit), runs an FFT over overlapping frames, groups the bins into
logarithmically spaced bands and draws them as bars with falling caps.

`src/` is the verified core, checked with Verus:

- `bands` — grouping FFT bins into bands (clamping and sweeping the band
  edges) and the bin range each band averages over;
- `framing` — cutting the sample stream into overlapping analysis frames;
- `capture` — routing captured buffers, cutting PCM bytes into sample words,
  pairing stereo samples, gathering the buffers received between redraws;
- `renderer` — the display's layout and the drawing of a frame into an RGBA
  framebuffer;
- `event_loop` — what the window's event loop does with each event.

`app/` is the program around it: audio capture, the FFT and every other
floating-point computation (window, band placement, magnitudes, smoothing,
cap motion), the window and the event loop.
