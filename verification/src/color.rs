//! RGB565 colour values.
use vstd::prelude::*;

verus! {

/// An RGB565 colour, stored as the 16-bit word `RRRRR GGGGGG BBBBB`.
///
/// The word is sent to the panel most significant byte first.
#[derive(Clone, Copy, PartialEq, Eq, Debug, Structural)]
pub struct Color(pub u16);

/// The RGB565 word built from raw channel values; only the low 5, 6 and 5
/// bits of red, green and blue are kept.
pub open spec fn rgb565(r: int, g: int, b: int) -> int {
    (r % 32) * 2048 + (g % 64) * 32 + (b % 32)
}

/// The red channel (0-31) of an RGB565 word.
pub open spec fn red_of(v: int) -> int {
    v / 2048
}

/// The green channel (0-63) of an RGB565 word.
pub open spec fn green_of(v: int) -> int {
    (v / 32) % 64
}

/// The blue channel (0-31) of an RGB565 word.
pub open spec fn blue_of(v: int) -> int {
    v % 32
}

/// The high (first sent) byte of a 16-bit word.
pub open spec fn hi_byte(v: u16) -> u8 {
    (v / 256) as u8
}

/// The low (second sent) byte of a 16-bit word.
pub open spec fn lo_byte(v: u16) -> u8 {
    (v % 256) as u8
}

impl Color {
    /// Builds a colour from raw RGB565 channels (red 0-31, green 0-63,
    /// blue 0-31); bits above each channel's width are dropped.
    pub fn rgb(r: u8, g: u8, b: u8) -> (c: Self)
        ensures
            c.0 == rgb565(r as int, g as int, b as int),
    {
        let r16: u16 = r as u16;
        let g16: u16 = g as u16;
        let b16: u16 = b as u16;
        let v: u16 = ((r16 & 0x1F) << 11) | ((g16 & 0x3F) << 5) | (b16 & 0x1F);
        assert(((r16 & 0x1F) << 11) | ((g16 & 0x3F) << 5) | (b16 & 0x1F)
            == (r16 % 32) * 2048 + (g16 % 64) * 32 + (b16 % 32)) by (bit_vector)
            requires
                r16 < 256,
                g16 < 256,
                b16 < 256,
        ;
        Color(v)
    }

    /// Builds a colour from 8-bit channels (0-255), keeping the top 5 bits of
    /// red and blue and the top 6 bits of green.
    pub fn rgb8(r: u8, g: u8, b: u8) -> (c: Self)
        ensures
            c.0 == rgb565(r as int / 8, g as int / 4, b as int / 8),
    {
        assert(r >> 3 == r / 8 && g >> 2 == g / 4 && b >> 3 == b / 8) by (bit_vector);
        Self::rgb(r >> 3, g >> 2, b >> 3)
    }

    /// The colour as two bytes, most significant first, ready for the SPI bus.
    pub fn to_be_bytes(self) -> (bytes: [u8; 2])
        ensures
            bytes[0] == hi_byte(self.0),
            bytes[1] == lo_byte(self.0),
    {
        let v: u16 = self.0;
        let hi: u8 = (v >> 8) as u8;
        let lo: u8 = (v & 0xFF) as u8;
        assert((v >> 8) as u8 == (v / 256) as u8 && (v & 0xFF) as u8 == (v % 256) as u8)
            by (bit_vector);
        [hi, lo]
    }

    /// Pure black, `#000000`.
    pub fn black() -> (c: Color)
        ensures
            c.0 == rgb565(0, 0, 0),
    {
        Color(0x0000)
    }

    /// Pure white, `#FFFFFF`.
    pub fn white() -> (c: Color)
        ensures
            c.0 == rgb565(31, 63, 31),
    {
        Color(0xFFFF)
    }

    /// Pure red, `#F80000`.
    pub fn red() -> (c: Color)
        ensures
            c.0 == rgb565(31, 0, 0),
    {
        Color(0xF800)
    }

    /// Pure green, `#07E000`.
    pub fn green() -> (c: Color)
        ensures
            c.0 == rgb565(0, 63, 0),
    {
        Color(0x07E0)
    }

    /// Pure blue, `#0000F8`.
    pub fn blue() -> (c: Color)
        ensures
            c.0 == rgb565(0, 0, 31),
    {
        Color(0x001F)
    }

    /// Yellow, `#F8FC00`.
    pub fn yellow() -> (c: Color)
        ensures
            c.0 == rgb565(31, 63, 0),
    {
        Color(0xFFE0)
    }

    /// Cyan, `#00FCF8`.
    pub fn cyan() -> (c: Color)
        ensures
            c.0 == rgb565(0, 63, 31),
    {
        Color(0x07FF)
    }

    /// Magenta, `#F800F8`.
    pub fn magenta() -> (c: Color)
        ensures
            c.0 == rgb565(31, 0, 31),
    {
        Color(0xF81F)
    }

    /// Orange, `#F85000`.
    pub fn orange() -> (c: Color)
        ensures
            c.0 == rgb565(31, 40, 0),
    {
        Color(0xFD00)
    }

    /// Mid grey, `#787C78`.
    pub fn gray() -> (c: Color)
        ensures
            c.0 == rgb565(15, 31, 15),
    {
        Color(0x7BEF)
    }
}

/// Channels in range survive packing: the red, green and blue channels read
/// back from `rgb565(r, g, b)` are `r`, `g` and `b`.
pub proof fn lemma_rgb_channels_round_trip(r: int, g: int, b: int)
    requires
        0 <= r < 32,
        0 <= g < 64,
        0 <= b < 32,
    ensures
        red_of(rgb565(r, g, b)) == r,
        green_of(rgb565(r, g, b)) == g,
        blue_of(rgb565(r, g, b)) == b,
{
    let v = rgb565(r, g, b);
    assert(v == r * 2048 + g * 32 + b);
    assert(v / 2048 == r) by (nonlinear_arith)
        requires v == r * 2048 + g * 32 + b, 0 <= r < 32, 0 <= g < 64, 0 <= b < 32;
    assert(v / 32 == r * 64 + g) by (nonlinear_arith)
        requires v == r * 2048 + g * 32 + b, 0 <= r < 32, 0 <= g < 64, 0 <= b < 32;
    assert((r * 64 + g) % 64 == g) by (nonlinear_arith)
        requires 0 <= r < 32, 0 <= g < 64;
    assert(v % 32 == b) by (nonlinear_arith)
        requires v == r * 2048 + g * 32 + b, 0 <= r < 32, 0 <= g < 64, 0 <= b < 32;
}

/// Every 16-bit word is a colour: packing the channels read from it gives
/// the word back.
pub proof fn lemma_rgb_channels_complete(v: u16)
    ensures
        rgb565(red_of(v as int), green_of(v as int), blue_of(v as int)) == v,
{
    let w = v as int;
    assert(rgb565(w / 2048, (w / 32) % 64, w % 32) == w) by (nonlinear_arith)
        requires 0 <= w < 65536;
}

/// Reducing 8-bit channels keeps their top bits: the channels of `rgb8(r, g, b)`
/// are `r / 8`, `g / 4` and `b / 8`.
pub proof fn lemma_rgb8_keeps_top_bits(r: u8, g: u8, b: u8)
    ensures
        red_of(rgb565(r as int / 8, g as int / 4, b as int / 8)) == r as int / 8,
        green_of(rgb565(r as int / 8, g as int / 4, b as int / 8)) == g as int / 4,
        blue_of(rgb565(r as int / 8, g as int / 4, b as int / 8)) == b as int / 8,
{
    lemma_rgb_channels_round_trip(r as int / 8, g as int / 4, b as int / 8);
}

/// The two bytes sent for a word, high byte first, decode back to the word.
pub proof fn lemma_be_bytes_round_trip(v: u16)
    ensures
        hi_byte(v) as int * 256 + lo_byte(v) as int == v as int,
{
}

} // verus!
