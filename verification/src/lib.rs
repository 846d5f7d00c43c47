//! Driver logic for the ST7789V 240x320 TFT controller: RGB565 colours, the
//! built-in 5x7 bitmap font, a full-frame RAM buffer and the exact SPI
//! transfer sequences that each drawing operation puts on the bus.
use vstd::prelude::*;

pub mod buffered;
pub mod bus;
pub mod canvas;
pub mod cmd;
pub mod color;
pub mod digits;
pub mod font;
pub mod nopin;
pub mod plan;

pub use buffered::St7789vBuffered;
pub use color::Color;
pub use nopin::NoPin;

verus! {

/// Screen width in pixels.
pub const SCREEN_W: u16 = 240;

/// Screen height in pixels.
pub const SCREEN_H: u16 = 320;

} // verus!
