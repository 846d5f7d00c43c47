use st7789v::font::{char_to_glyph, DEGREE, GE, GLYPH_COUNT, LAMBDA, PI};
use st7789v::Color;

#[test]
fn rgb_packs_channels() {
    assert_eq!(Color::rgb(31, 0, 0), Color(0xF800));
    assert_eq!(Color::rgb(0, 63, 0), Color(0x07E0));
    assert_eq!(Color::rgb(0, 0, 31), Color(0x001F));
    assert_eq!(Color::rgb(31, 40, 0), Color(0xFD00));
    assert_eq!(Color::rgb(1, 2, 3), Color((1 << 11) | (2 << 5) | 3));
}

#[test]
fn rgb_drops_bits_above_each_channel() {
    assert_eq!(Color::rgb(0xFF, 0xFF, 0xFF), Color(0xFFFF));
    assert_eq!(Color::rgb(32, 64, 32), Color(0x0000));
    assert_eq!(Color::rgb(33, 65, 33), Color::rgb(1, 1, 1));
}

#[test]
fn rgb8_keeps_top_bits() {
    assert_eq!(Color::rgb8(255, 255, 255), Color::white());
    assert_eq!(Color::rgb8(0, 0, 0), Color::black());
    assert_eq!(Color::rgb8(0xFF, 0x80, 0x00), Color::rgb(31, 32, 0));
    assert_eq!(Color::rgb8(0x1A, 0x8C, 0xFF), Color::rgb(0x1A >> 3, 0x8C >> 2, 31));
    assert_eq!(Color::rgb8(7, 3, 7), Color::black());
}

#[test]
fn to_be_bytes_high_byte_first() {
    assert_eq!(Color(0xF81F).to_be_bytes(), [0xF8, 0x1F]);
    assert_eq!(Color(0x0001).to_be_bytes(), [0x00, 0x01]);
    for v in [0u16, 1, 0x1234, 0xFFFF, 0x8000] {
        let b = Color(v).to_be_bytes();
        assert_eq!((b[0] as u16) << 8 | b[1] as u16, v);
    }
}

#[test]
fn named_colors_match_their_channels() {
    assert_eq!(Color::black(), Color::rgb(0, 0, 0));
    assert_eq!(Color::white(), Color::rgb(31, 63, 31));
    assert_eq!(Color::red(), Color::rgb(31, 0, 0));
    assert_eq!(Color::green(), Color::rgb(0, 63, 0));
    assert_eq!(Color::blue(), Color::rgb(0, 0, 31));
    assert_eq!(Color::yellow(), Color::rgb(31, 63, 0));
    assert_eq!(Color::cyan(), Color::rgb(0, 63, 31));
    assert_eq!(Color::magenta(), Color::rgb(31, 0, 31));
    assert_eq!(Color::orange(), Color::rgb(31, 40, 0));
    assert_eq!(Color::gray(), Color::rgb(15, 31, 15));
}

#[test]
fn channels_round_trip() {
    for r in 0u8..32 {
        for g in [0u8, 1, 31, 32, 63] {
            for b in [0u8, 5, 31] {
                let c = Color::rgb(r, g, b).0;
                assert_eq!((c >> 11) as u8, r);
                assert_eq!(((c >> 5) & 0x3F) as u8, g);
                assert_eq!((c & 0x1F) as u8, b);
            }
        }
    }
}

#[test]
fn glyphs_of_digits_and_letters() {
    for d in 0u8..10 {
        assert_eq!(char_to_glyph(b'0' + d), Some(d as usize));
    }
    assert_eq!(char_to_glyph(b'-'), Some(10));
    assert_eq!(char_to_glyph(b' '), Some(11));
    assert_eq!(char_to_glyph(b'A'), Some(12));
    assert_eq!(char_to_glyph(b'Z'), Some(37));
    assert_eq!(char_to_glyph(b'a'), Some(12));
    assert_eq!(char_to_glyph(b'z'), Some(37));
}

#[test]
fn glyphs_of_punctuation() {
    let punct = b".(),[]%<>=?!:+/|_^#@&\"";
    for (k, &c) in punct.iter().enumerate() {
        assert_eq!(char_to_glyph(c), Some(38 + k));
    }
}

#[test]
fn glyphs_of_extended_codes() {
    assert_eq!(char_to_glyph(LAMBDA), Some(60));
    assert_eq!(char_to_glyph(PI), Some(62));
    assert_eq!(char_to_glyph(DEGREE), Some(64));
    assert_eq!(char_to_glyph(GE), Some(72));
    for c in 0x80u8..=0x8C {
        assert_eq!(char_to_glyph(c), Some(60 + (c - 0x80) as usize));
    }
}

#[test]
fn unsupported_bytes_have_no_glyph() {
    for c in [b'{', b'}', b'~', b'$', b'\'', b'*', b';', b'`', b'\\', 0u8, 0x7F, 0x8D, 0xFF] {
        assert_eq!(char_to_glyph(c), None, "byte {c:#x}");
    }
}

#[test]
fn font_ignores_case_and_stays_in_table() {
    for c in 0u8..=255 {
        if let Some(g) = char_to_glyph(c) {
            assert!(g < GLYPH_COUNT);
            assert_eq!(g >= 60, c >= 0x80);
        }
        if c.is_ascii_lowercase() {
            assert_eq!(char_to_glyph(c), char_to_glyph(c.to_ascii_uppercase()));
        }
    }
}

#[test]
fn distinct_glyphs_for_distinct_characters() {
    let mut seen = vec![None; GLYPH_COUNT];
    for c in 0u8..=255 {
        if let Some(g) = char_to_glyph(c) {
            let up = c.to_ascii_uppercase();
            match seen[g] {
                None => seen[g] = Some(up),
                Some(prev) => assert_eq!(prev, up),
            }
        }
    }
    assert!(seen.iter().all(|s| s.is_some()));
}
