# spectrum

A live audio spectrum analyser. Audio is captured from an input device,
transformed with an FFT, grouped into logarithmically spaced frequency
bars and shown as text or in a terminal interface.

- `src/` is the verified library (Verus): the integer layout of the
  frequency bars (`bins`), the scheduling of overlapping analysis frames
  (`frames`), the geometry and text of the display (`display`), the bar
  count rule and the screens (`state`), and the device list (`devices`).
- `app/` is the program around it: audio capture (cpal), the FFT
  (rustfft), all floating-point work, shared state behind locks, and
  drawing with ratatui.
- `tests/` exercises the library.
