# st7789v

Drawing logic for the ST7789V 240x320 TFT controller (RGB565 over SPI),
proved with Verus.

- `src/` is the verified library:
  - `color`: RGB565 colours and their big-endian bytes;
  - `font`: the 5x7 bitmap font and the byte-to-glyph table;
  - `digits`: decimal digits of the numbers the driver prints;
  - `canvas`: the model of a frame (two bytes per pixel, row by row) and
    what painting a set of pixels does to it;
  - `buffered`: `St7789vBuffered`, a full frame in RAM with the drawing
    primitives (pixels, rectangles, glyphs, text, numbers, scaled text);
  - `bus`: the steps of a transfer (data/command line, SPI writes, reset
    line, waits) and what they put on the wire;
  - `plan`: for each operation of the panel driver, the exact list of steps
    it performs, including the initialisation sequence and the frame flush.
- `app/` is the async driver on top: it owns the SPI device and the pins,
  performs the steps computed by the library with `embedded-hal-async` and
  `embassy-time`, and converts floats to the digits that the library lays out.
- `tests/` exercises the library on concrete values.
