//! The built-in 5x7 bitmap font.
//!
//! - glyphs 0-9: digits `0`-`9`
//! - glyph 10: `-`, glyph 11: space
//! - glyphs 12-37: letters `A`-`Z` (lower case maps to the same glyphs)
//! - glyphs 38-59: punctuation (see [`glyph_of`])
//! - glyphs 60-72: Greek and mathematical symbols, reached through the
//!   extended codes `0x80`-`0x8C` ([`LAMBDA`] to [`GE`]), which never collide
//!   with ASCII.
use vstd::prelude::*;

verus! {

/// Number of glyphs in [`FONT`].
pub const GLYPH_COUNT: usize = 73;

/// Glyph table: five column bytes per glyph; bit `r` of a column byte is
/// the pixel of row `r` (row 0 at the top).
pub const FONT: [[u8; 5]; 73] = [
    [0x3E, 0x51, 0x49, 0x45, 0x3E], // 0
    [0x00, 0x42, 0x7F, 0x40, 0x00], // 1
    [0x42, 0x61, 0x51, 0x49, 0x46], // 2
    [0x21, 0x41, 0x45, 0x4B, 0x31], // 3
    [0x18, 0x14, 0x12, 0x7F, 0x10], // 4
    [0x27, 0x45, 0x45, 0x45, 0x39], // 5
    [0x3C, 0x4A, 0x49, 0x49, 0x30], // 6
    [0x01, 0x71, 0x09, 0x05, 0x03], // 7
    [0x36, 0x49, 0x49, 0x49, 0x36], // 8
    [0x06, 0x49, 0x49, 0x29, 0x1E], // 9
    [0x08, 0x08, 0x08, 0x08, 0x08], // 10 = '-'
    [0x00, 0x00, 0x00, 0x00, 0x00], // 11 = ' '
    [0x7E, 0x11, 0x11, 0x11, 0x7E], // 12 = 'A'
    [0x7F, 0x49, 0x49, 0x49, 0x36], // 13 = 'B'
    [0x3E, 0x41, 0x41, 0x41, 0x22], // 14 = 'C'
    [0x7F, 0x41, 0x41, 0x22, 0x1C], // 15 = 'D'
    [0x7F, 0x49, 0x49, 0x49, 0x41], // 16 = 'E'
    [0x7F, 0x09, 0x09, 0x09, 0x01], // 17 = 'F'
    [0x3E, 0x41, 0x49, 0x49, 0x7A], // 18 = 'G'
    [0x7F, 0x08, 0x08, 0x08, 0x7F], // 19 = 'H'
    [0x00, 0x41, 0x7F, 0x41, 0x00], // 20 = 'I'
    [0x20, 0x40, 0x41, 0x3F, 0x01], // 21 = 'J'
    [0x7F, 0x08, 0x14, 0x22, 0x41], // 22 = 'K'
    [0x7F, 0x40, 0x40, 0x40, 0x40], // 23 = 'L'
    [0x7F, 0x02, 0x0C, 0x02, 0x7F], // 24 = 'M'
    [0x7F, 0x04, 0x08, 0x10, 0x7F], // 25 = 'N'
    [0x3E, 0x41, 0x41, 0x41, 0x3E], // 26 = 'O'
    [0x7F, 0x09, 0x09, 0x09, 0x06], // 27 = 'P'
    [0x3E, 0x41, 0x51, 0x21, 0x5E], // 28 = 'Q'
    [0x7F, 0x09, 0x19, 0x29, 0x46], // 29 = 'R'
    [0x46, 0x49, 0x49, 0x49, 0x31], // 30 = 'S'
    [0x01, 0x01, 0x7F, 0x01, 0x01], // 31 = 'T'
    [0x3F, 0x40, 0x40, 0x40, 0x3F], // 32 = 'U'
    [0x1F, 0x20, 0x40, 0x20, 0x1F], // 33 = 'V'
    [0x3F, 0x40, 0x38, 0x40, 0x3F], // 34 = 'W'
    [0x63, 0x14, 0x08, 0x14, 0x63], // 35 = 'X'
    [0x07, 0x08, 0x70, 0x08, 0x07], // 36 = 'Y'
    [0x61, 0x51, 0x49, 0x45, 0x43], // 37 = 'Z'
    [0x00, 0x00, 0x60, 0x60, 0x00], // 38 = '.'
    [0x00, 0x3E, 0x41, 0x41, 0x00], // 39 = '('
    [0x00, 0x41, 0x41, 0x3E, 0x00], // 40 = ')'
    [0x00, 0x40, 0x50, 0x30, 0x00], // 41 = ','
    [0x00, 0x7F, 0x41, 0x41, 0x00], // 42 = '['
    [0x00, 0x41, 0x41, 0x7F, 0x00], // 43 = ']'
    [0x23, 0x13, 0x08, 0x64, 0x62], // 44 = '%'
    [0x08, 0x14, 0x22, 0x41, 0x00], // 45 = '<'
    [0x00, 0x41, 0x22, 0x14, 0x08], // 46 = '>'
    [0x00, 0x24, 0x24, 0x24, 0x00], // 47 = '='
    [0x02, 0x01, 0x51, 0x09, 0x06], // 48 = '?'
    [0x00, 0x00, 0x5F, 0x00, 0x00], // 49 = '!'
    [0x00, 0x36, 0x36, 0x00, 0x00], // 50 = ':'
    [0x08, 0x08, 0x3E, 0x08, 0x08], // 51 = '+'
    [0x20, 0x10, 0x08, 0x04, 0x02], // 52 = '/'
    [0x00, 0x00, 0x7F, 0x00, 0x00], // 53 = '|'
    [0x40, 0x40, 0x40, 0x40, 0x40], // 54 = '_'
    [0x04, 0x02, 0x01, 0x02, 0x04], // 55 = '^'
    [0x14, 0x7F, 0x14, 0x7F, 0x14], // 56 = '#'
    [0x3E, 0x41, 0x5D, 0x55, 0x1E], // 57 = '@'
    [0x32, 0x49, 0x55, 0x22, 0x50], // 58 = '&'
    [0x00, 0x07, 0x00, 0x07, 0x00], // 59 = '"'
    [0x60, 0x10, 0x0F, 0x10, 0x60], // 60 = lambda
    [0x3E, 0x49, 0x49, 0x49, 0x3E], // 61 = theta
    [0x01, 0x7D, 0x01, 0x7D, 0x01], // 62 = pi
    [0x78, 0x46, 0x41, 0x46, 0x78], // 63 = capital delta
    [0x06, 0x09, 0x09, 0x06, 0x00], // 64 = degree
    [0x48, 0x48, 0x5E, 0x48, 0x48], // 65 = plus-minus
    [0x22, 0x14, 0x08, 0x14, 0x22], // 66 = times
    [0x08, 0x08, 0x49, 0x08, 0x08], // 67 = divide
    [0x70, 0x4C, 0x03, 0x01, 0x01], // 68 = square root
    [0x1C, 0x22, 0x1C, 0x22, 0x1C], // 69 = infinity
    [0x00, 0x24, 0x12, 0x12, 0x24], // 70 = approximately equal
    [0x60, 0x68, 0x64, 0x62, 0x61], // 71 = less or equal
    [0x61, 0x62, 0x64, 0x68, 0x60], // 72 = greater or equal
];

/// Extended code for lambda.
pub const LAMBDA: u8 = 0x80;
/// Extended code for theta.
pub const THETA: u8 = 0x81;
/// Extended code for pi.
pub const PI: u8 = 0x82;
/// Extended code for capital delta.
pub const DELTA: u8 = 0x83;
/// Extended code for the degree sign.
pub const DEGREE: u8 = 0x84;
/// Extended code for plus-minus.
pub const PLUS_MINUS: u8 = 0x85;
/// Extended code for the multiplication sign.
pub const TIMES: u8 = 0x86;
/// Extended code for the division sign.
pub const DIVIDE: u8 = 0x87;
/// Extended code for the square root sign.
pub const SQRT: u8 = 0x88;
/// Extended code for infinity.
pub const INFINITY: u8 = 0x89;
/// Extended code for "approximately equal".
pub const APPROX: u8 = 0x8A;
/// Extended code for "less or equal".
pub const LE: u8 = 0x8B;
/// Extended code for "greater or equal".
pub const GE: u8 = 0x8C;

/// Glyph of the minus sign.
pub const GLYPH_MINUS: usize = 10;

/// Glyph of the decimal point.
pub const GLYPH_POINT: usize = 38;

/// The glyph drawn for a byte of text, `None` for a byte the font lacks.
pub open spec fn glyph_of(c: u8) -> Option<usize> {
    if 0x30 <= c <= 0x39 {
        Some((c - 0x30) as usize)
    } else if 0x41 <= c <= 0x5A {
        Some((c - 0x41 + 12) as usize)
    } else if 0x61 <= c <= 0x7A {
        Some((c - 0x61 + 12) as usize)
    } else if 0x80 <= c <= 0x8C {
        Some((c - 0x80 + 60) as usize)
    } else if c == 0x2D { Some(10usize)  // '-'
    } else if c == 0x20 { Some(11usize)  // ' '
    } else if c == 0x2E { Some(38usize)  // '.'
    } else if c == 0x28 { Some(39usize)  // '('
    } else if c == 0x29 { Some(40usize)  // ')'
    } else if c == 0x2C { Some(41usize)  // ','
    } else if c == 0x5B { Some(42usize)  // '['
    } else if c == 0x5D { Some(43usize)  // ']'
    } else if c == 0x25 { Some(44usize)  // '%'
    } else if c == 0x3C { Some(45usize)  // '<'
    } else if c == 0x3E { Some(46usize)  // '>'
    } else if c == 0x3D { Some(47usize)  // '='
    } else if c == 0x3F { Some(48usize)  // '?'
    } else if c == 0x21 { Some(49usize)  // '!'
    } else if c == 0x3A { Some(50usize)  // ':'
    } else if c == 0x2B { Some(51usize)  // '+'
    } else if c == 0x2F { Some(52usize)  // '/'
    } else if c == 0x7C { Some(53usize)  // '|'
    } else if c == 0x5F { Some(54usize)  // '_'
    } else if c == 0x5E { Some(55usize)  // '^'
    } else if c == 0x23 { Some(56usize)  // '#'
    } else if c == 0x40 { Some(57usize)  // '@'
    } else if c == 0x26 { Some(58usize)  // '&'
    } else if c == 0x22 { Some(59usize)  // '"'
    } else {
        None
    }
}

/// Whether pixel (`col`, `row`) of glyph `g` is lit.
pub open spec fn glyph_pixel(g: int, col: int, row: int) -> bool {
    (FONT[g][col] >> (row as u8)) & 1u8 == 1u8
}

/// The glyph index for a byte of text or extended code, `None` where the
/// font has no glyph for it.
pub fn char_to_glyph(c: u8) -> (g: Option<usize>)
    ensures
        g == glyph_of(c),
        g matches Some(i) ==> i < GLYPH_COUNT,
{
    match c {
        0x30..=0x39 => Some((c - 0x30) as usize),
        0x2D => Some(10),  // '-'
        0x20 => Some(11),  // ' '
        0x41..=0x5A => Some((c - 0x41) as usize + 12),
        0x61..=0x7A => Some((c - 0x61) as usize + 12),
        0x2E => Some(38),  // '.'
        0x28 => Some(39),  // '('
        0x29 => Some(40),  // ')'
        0x2C => Some(41),  // ','
        0x5B => Some(42),  // '['
        0x5D => Some(43),  // ']'
        0x25 => Some(44),  // '%'
        0x3C => Some(45),  // '<'
        0x3E => Some(46),  // '>'
        0x3D => Some(47),  // '='
        0x3F => Some(48),  // '?'
        0x21 => Some(49),  // '!'
        0x3A => Some(50),  // ':'
        0x2B => Some(51),  // '+'
        0x2F => Some(52),  // '/'
        0x7C => Some(53),  // '|'
        0x5F => Some(54),  // '_'
        0x5E => Some(55),  // '^'
        0x23 => Some(56),  // '#'
        0x40 => Some(57),  // '@'
        0x26 => Some(58),  // '&'
        0x22 => Some(59),  // '"'
        LAMBDA => Some(60),
        THETA => Some(61),
        PI => Some(62),
        DELTA => Some(63),
        DEGREE => Some(64),
        PLUS_MINUS => Some(65),
        TIMES => Some(66),
        DIVIDE => Some(67),
        SQRT => Some(68),
        INFINITY => Some(69),
        APPROX => Some(70),
        LE => Some(71),
        GE => Some(72),
        _ => None,
    }
}

/// Whether pixel (`col`, `row`) of glyph `g` is lit.
pub(crate) fn glyph_on(g: usize, col: usize, row: usize) -> (on: bool)
    requires
        g < GLYPH_COUNT,
        col < 5,
        row < 7,
    ensures
        on == glyph_pixel(g as int, col as int, row as int),
{
    let r: u8 = row as u8;
    (FONT[g][col] >> r) & 1 == 1
}

/// The byte with letters folded to upper case.
pub open spec fn fold_case(c: u8) -> u8 {
    if 0x61 <= c <= 0x7A {
        (c - 32) as u8
    } else {
        c
    }
}

/// A text with its letters folded to upper case.
pub open spec fn fold_text(t: Seq<u8>) -> Seq<u8> {
    t.map_values(|c: u8| fold_case(c))
}

/// The font ignores case: a byte and its upper-case form get the same glyph.
pub proof fn lemma_font_case_insensitive(c: u8)
    ensures
        glyph_of(c) == glyph_of(fold_case(c)),
{
}

/// Only case is forgotten: two bytes that get the same glyph are the same
/// byte up to the case of a letter.
pub proof fn lemma_glyph_identifies_char(a: u8, b: u8)
    requires
        glyph_of(a) is Some,
        glyph_of(a) == glyph_of(b),
    ensures
        fold_case(a) == fold_case(b),
{
}

/// The extended codes never collide with ASCII: exactly the bytes from
/// `0x80` up get the Greek and mathematical glyphs (60 and above).
pub proof fn lemma_extended_codes_apart(c: u8)
    requires
        glyph_of(c) is Some,
    ensures
        (glyph_of(c).unwrap() >= 60) == (c >= 0x80),
        glyph_of(c).unwrap() < GLYPH_COUNT,
{
}

/// Every glyph of the table is drawn for some byte.
pub proof fn lemma_every_glyph_reachable(g: usize)
    requires
        g < GLYPH_COUNT,
    ensures
        exists|c: u8| glyph_of(c) == Some(g),
{
    let c: u8 = if g < 10 {
        (g + 0x30) as u8
    } else if 12 <= g < 38 {
        (g - 12 + 0x41) as u8
    } else if g >= 60 {
        (g - 60 + 0x80) as u8
    } else if g == 10 { 0x2D } else if g == 11 { 0x20 } else if g == 38 { 0x2E }
    else if g == 39 { 0x28 } else if g == 40 { 0x29 } else if g == 41 { 0x2C }
    else if g == 42 { 0x5B } else if g == 43 { 0x5D } else if g == 44 { 0x25 }
    else if g == 45 { 0x3C } else if g == 46 { 0x3E } else if g == 47 { 0x3D }
    else if g == 48 { 0x3F } else if g == 49 { 0x21 } else if g == 50 { 0x3A }
    else if g == 51 { 0x2B } else if g == 52 { 0x2F } else if g == 53 { 0x7C }
    else if g == 54 { 0x5F } else if g == 55 { 0x5E } else if g == 56 { 0x23 }
    else if g == 57 { 0x40 } else if g == 58 { 0x26 } else { 0x22 };
    assert(glyph_of(c) == Some(g));
}

} // verus!
