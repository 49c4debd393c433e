# phonopaper

PhonoPaper prints audio as a camera-readable grayscale spectrogram: time runs
left to right, 384 logarithmic frequency bins run top (high) to bottom (low),
and two bands of black and white stripes above and below the data area let a
reader find it again.

This crate is the integer core of the format, with contracts proved by Verus:

| Module | What it holds |
|---|---|
| `format` | bin counts and the sample rate |
| `spectrogram` | the time × bin matrix (`Spectrogram<T>`, ink levels as `u8`) |
| `raster` | the RGBA pixel raster that the decoder reads |
| `render` | marker-band geometry and rendering of ink levels to pixels |
| `markers` | run-length marker detection, column sampling and cluster selection |
| `calibration` | proof that the detector finds the bands that the renderer draws |
| `decode` | reading ink levels back from an image |
| `vector` | the SVG writer and the SVG / PDF raster readers |
| `bytes` | byte search, UTF-8 whitespace and number parsing used by the readers |
| `wav` | the bytes of a 16-bit PCM WAV file |
| `rng` | the `xoshiro256**` generator of the training-sheet generator |
| `nn` | input preparation for the neural sheet detector |
| `cli` | option types and path rules of the command-line tool |

Ink levels are integers: `0` is white paper (silence) and `255` black ink
(full amplitude); an amplitude is `ink / 255`.

`app/` is the `phonopaper` command-line program around the library: argument
parsing, audio and image file I/O, the FFT analysis, additive synthesis, PDF
drawing, the synthetic training-frame generator (`phonopaper dataset`) and
the other floating-point stages.  `tests/` exercises the library
on concrete values.
