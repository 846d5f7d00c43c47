use st7789v::buffered::draws_glyph;
use st7789v::bus::BusOp;
use st7789v::digits::digit_count;
use st7789v::cmd::{CASET, INVOFF, INVON, MADCTL, RAMWR, RASET};
use st7789v::font::FONT;
use st7789v::plan::{
    draw_bitmap_ops, draw_char_ops, draw_char_scaled_ops, draw_decimal_ops, draw_hline_ops,
    draw_i16_ops, draw_pixel_ops, draw_rect_ops, draw_str_ops, draw_str_scaled_ops, draw_u32_ops,
    draw_vline_ops, fill_rect_ops, fill_screen_ops, flush_ops, init_ops, set_invert_ops,
    set_orientation_ops,
};
use st7789v::{Color, St7789vBuffered};

/// What reaches the panel: each byte with the data/command level (true: data).
fn stream(ops: &[BusOp]) -> Vec<(bool, u8)> {
    let mut dc = false;
    let mut out = Vec::new();
    for op in ops {
        match op {
            BusOp::DcLow => dc = false,
            BusOp::DcHigh => dc = true,
            BusOp::Write(b) => out.extend(b.iter().map(|&v| (dc, v))),
            _ => {}
        }
    }
    out
}

fn cmd(c: u8) -> Vec<BusOp> {
    vec![BusOp::DcLow, BusOp::Write(vec![c])]
}

fn data(d: &[u8]) -> Vec<BusOp> {
    vec![BusOp::DcHigh, BusOp::Write(d.to_vec())]
}

fn window(x0: u16, y0: u16, x1: u16, y1: u16) -> Vec<BusOp> {
    let mut v = cmd(CASET);
    v.extend(data(&[(x0 >> 8) as u8, x0 as u8, (x1 >> 8) as u8, x1 as u8]));
    v.extend(cmd(RASET));
    v.extend(data(&[(y0 >> 8) as u8, y0 as u8, (y1 >> 8) as u8, y1 as u8]));
    v
}

fn pixel_data(ops: &[BusOp]) -> Vec<u8> {
    let s = stream(ops);
    let start = s.iter().position(|&(dc, b)| !dc && b == RAMWR).expect("memory write") + 1;
    s[start..].iter().map(|&(dc, b)| {
        assert!(dc);
        b
    }).collect()
}

#[test]
fn init_sequence_resets_then_configures() {
    let ops = init_ops();
    assert_eq!(&ops[..4], &[BusOp::RstLow, BusOp::DelayMs(10), BusOp::RstHigh, BusOp::DelayMs(120)]);
    let mut expected = vec![BusOp::RstLow, BusOp::DelayMs(10), BusOp::RstHigh, BusOp::DelayMs(120)];
    expected.extend(cmd(0x01));
    expected.push(BusOp::DelayMs(150));
    expected.extend(cmd(0x11));
    expected.push(BusOp::DelayMs(10));
    for (c, d) in [
        (0x3Au8, &[0x55u8][..]),
        (0xB2, &[0x0C, 0x0C, 0x00, 0x33, 0x33][..]),
        (0xB7, &[0x35][..]),
        (0xBB, &[0x19][..]),
        (0xC0, &[0x2C][..]),
        (0xC2, &[0x01, 0xFF][..]),
        (0xC3, &[0x12][..]),
        (0xC4, &[0x20][..]),
        (0xC6, &[0x0F][..]),
        (0xD0, &[0xA4, 0xA1][..]),
        (0x36, &[0x00][..]),
        (0xE0, &[0xD0, 0x04, 0x0D, 0x11, 0x13, 0x2B, 0x3F, 0x54, 0x4C, 0x18, 0x0D, 0x0B, 0x1F, 0x23][..]),
        (0xE1, &[0xD0, 0x04, 0x0C, 0x11, 0x13, 0x2C, 0x3F, 0x44, 0x51, 0x2F, 0x1F, 0x1F, 0x20, 0x23][..]),
    ] {
        expected.extend(cmd(c));
        expected.extend(data(d));
    }
    expected.extend(cmd(0x13));
    expected.extend(cmd(0x21));
    expected.extend(cmd(0x29));
    expected.push(BusOp::DelayMs(10));
    assert_eq!(ops, expected);
}

#[test]
fn init_leaves_inversion_on_and_portrait() {
    let s = stream(&init_ops());
    let inv = s.iter().rposition(|&x| x == (false, INVON)).unwrap();
    assert!(!s.contains(&(false, INVOFF)));
    let mad = s.iter().position(|&x| x == (false, MADCTL)).unwrap();
    assert_eq!(s[mad + 1], (true, 0x00));
    assert!(inv > mad);
}

#[test]
fn fill_rect_sends_window_and_pixels() {
    let ops = fill_rect_ops(0, 0, 79, 79, Color::red());
    let mut head = window(0, 0, 79, 79);
    head.extend(cmd(RAMWR));
    assert_eq!(&ops[..head.len()], &head[..]);
    assert_eq!(ops.len(), head.len() + 2 * 100);
    for chunk in ops[head.len()..].chunks(2) {
        assert_eq!(chunk[0], BusOp::DcHigh);
        match &chunk[1] {
            BusOp::Write(b) => assert_eq!(b.len(), 128),
            other => panic!("{other:?}"),
        }
    }
    let px = pixel_data(&ops);
    assert_eq!(px.len(), 80 * 80 * 2);
    assert!(px.chunks(2).all(|p| p == [0xF8, 0x00]));
}

#[test]
fn fill_rect_last_chunk_is_partial_and_corners_clip() {
    let ops = fill_rect_ops(230, 300, 1000, 1000, Color(0x1234));
    let mut head = window(230, 300, 239, 319);
    head.extend(cmd(RAMWR));
    assert_eq!(&ops[..head.len()], &head[..]);
    let px = pixel_data(&ops);
    assert_eq!(px.len(), 10 * 20 * 2);
    match ops.last().unwrap() {
        BusOp::Write(b) => assert_eq!(b.len(), (200 - 3 * 64) * 2),
        other => panic!("{other:?}"),
    }
    let single = fill_rect_ops(5, 5, 5, 5, Color(0xABCD));
    assert_eq!(pixel_data(&single), vec![0xAB, 0xCD]);
}

#[test]
fn fill_screen_is_full_rectangle() {
    assert_eq!(fill_screen_ops(Color::blue()), fill_rect_ops(0, 0, 239, 319, Color::blue()));
    assert_eq!(pixel_data(&fill_screen_ops(Color::blue())).len(), 153600);
}

#[test]
fn draw_pixel_one_pixel_window() {
    let mut expected = window(120, 160, 120, 160);
    expected.extend(cmd(RAMWR));
    expected.extend(data(&[0xFF, 0xE0]));
    assert_eq!(draw_pixel_ops(120, 160, Color::yellow()), expected);
    assert!(draw_pixel_ops(240, 0, Color::yellow()).is_empty());
    assert!(draw_pixel_ops(0, 320, Color::yellow()).is_empty());
}

#[test]
fn lines_are_clipped_rectangles() {
    assert_eq!(draw_hline_ops(0, 160, 240, Color::cyan()), fill_rect_ops(0, 160, 239, 160, Color::cyan()));
    assert_eq!(draw_hline_ops(200, 10, 100, Color::cyan()), fill_rect_ops(200, 10, 239, 10, Color::cyan()));
    assert_eq!(draw_vline_ops(120, 0, 320, Color::magenta()), fill_rect_ops(120, 0, 120, 319, Color::magenta()));
    assert!(draw_hline_ops(240, 0, 5, Color::cyan()).is_empty());
    assert!(draw_vline_ops(0, 320, 5, Color::cyan()).is_empty());
}

#[test]
fn draw_rect_is_four_lines() {
    let c = Color::white();
    let mut expected = draw_hline_ops(10, 10, 221, c);
    expected.extend(draw_hline_ops(10, 310, 221, c));
    expected.extend(draw_vline_ops(10, 10, 301, c));
    expected.extend(draw_vline_ops(230, 10, 301, c));
    assert_eq!(draw_rect_ops(10, 10, 230, 310, c), expected);
}

#[test]
fn draw_bitmap_sends_every_pixel() {
    let data_bytes = [0b1010_0000u8, 0b0100_0000];
    let ops = draw_bitmap_ops(5, 6, 3, 2, &data_bytes, Color(0xFFFF), Color(0x0000));
    let mut head = window(5, 6, 7, 7);
    head.extend(cmd(RAMWR));
    assert_eq!(&ops[..head.len()], &head[..]);
    let px = pixel_data(&ops);
    let expect: Vec<u8> = [1, 0, 1, 0, 1, 0].iter().flat_map(|&b| if b == 1 { [0xFF, 0xFF] } else { [0, 0] }).collect();
    assert_eq!(px, expect);
    assert_eq!(ops.len(), head.len() + 2 * 6);
}

#[test]
fn draw_bitmap_missing_bytes_are_background_and_window_clips() {
    let ops = draw_bitmap_ops(236, 0, 9, 2, &[0xFF], Color(0x1111), Color(0x2222));
    let mut head = window(236, 0, 239, 1);
    head.extend(cmd(RAMWR));
    assert_eq!(&ops[..head.len()], &head[..]);
    let px = pixel_data(&ops);
    assert_eq!(px.len(), 18 * 2);
    let lit: Vec<bool> = px.chunks(2).map(|p| p == [0x11, 0x11]).collect();
    assert_eq!(lit, [true, true, true, true, true, true, true, true, false, false, false, false, false, false, false, false, false, false]);
    assert!(draw_bitmap_ops(240, 0, 8, 8, &[0xFF; 8], Color(1), Color(2)).is_empty());
}

#[test]
fn draw_char_one_write_of_seventy_bytes() {
    let (ops, x) = draw_char_ops(8, 10, 0, Color::white(), Color::black());
    assert_eq!(x, 14);
    let mut head = window(8, 10, 12, 16);
    head.extend(cmd(RAMWR));
    assert_eq!(&ops[..head.len()], &head[..]);
    assert_eq!(ops.len(), head.len() + 2);
    let px = pixel_data(&ops);
    assert_eq!(px.len(), 70);
    for row in 0..7 {
        for col in 0..5 {
            let lit = (FONT[0][col] >> row) & 1 == 1;
            let i = (row * 5 + col) * 2;
            assert_eq!(&px[i..i + 2], if lit { &[0xFF, 0xFF] } else { &[0, 0] });
        }
    }
}

#[test]
fn draw_char_near_edge_clips_window() {
    let (ops, x) = draw_char_ops(237, 316, 3, Color::white(), Color::black());
    assert_eq!(x, 243);
    let mut head = window(237, 316, 239, 319);
    head.extend(cmd(RAMWR));
    assert_eq!(&ops[..head.len()], &head[..]);
}

#[test]
fn draw_str_glyph_by_glyph() {
    let (ops, x) = draw_str_ops(8, 10, b"Hi!", Color::white(), Color::black());
    assert_eq!(x, 26);
    let mut expected = draw_char_ops(8, 10, 19, Color::white(), Color::black()).0;
    expected.extend(draw_char_ops(14, 10, 20, Color::white(), Color::black()).0);
    expected.extend(draw_char_ops(20, 10, 49, Color::white(), Color::black()).0);
    assert_eq!(ops, expected);
    let (ops, x) = draw_str_ops(225, 0, b"ABCD", Color::white(), Color::black());
    assert_eq!(x, 237);
    assert_eq!(ops.len(), 2 * draw_char_ops(0, 0, 0, Color::white(), Color::black()).0.len());
    let (ops, x) = draw_str_ops(0, 0, b"{}", Color::white(), Color::black());
    assert!(ops.is_empty());
    assert_eq!(x, 12);
}

#[test]
fn draw_u32_and_i16_match_text() {
    let w = Color::white();
    let b = Color::black();
    assert_eq!(draw_u32_ops(74, 30, 123456, w, b), draw_str_ops(74, 30, b"123456", w, b));
    assert_eq!(draw_u32_ops(0, 0, 0, w, b), draw_str_ops(0, 0, b"0", w, b));
    assert_eq!(draw_i16_ops(56, 20, -42, w, b), draw_str_ops(56, 20, b"-42", w, b));
    assert_eq!(draw_i16_ops(0, 0, i16::MIN, w, b), draw_str_ops(0, 0, b"-32768", w, b));
    assert_eq!(draw_i16_ops(0, 0, i16::MAX, w, b), draw_str_ops(0, 0, b"32767", w, b));
    let (ops, x) = draw_u32_ops(200, 0, u32::MAX, w, b);
    assert_eq!(x, 260);
    assert_eq!(ops.len(), 10 * draw_char_ops(0, 0, 0, w, b).0.len());
}

#[test]
fn draw_decimal_matches_text() {
    let w = Color::yellow();
    let b = Color::black();
    assert_eq!(draw_decimal_ops(8, 100, true, 3, &[1, 4], w, b), draw_str_ops(8, 100, b"-3.14", w, b));
    assert_eq!(draw_decimal_ops(8, 110, false, 23, &[5], w, b), draw_str_ops(8, 110, b"23.5", w, b));
    assert_eq!(draw_decimal_ops(8, 120, false, 100, &[], w, b), draw_str_ops(8, 120, b"100", w, b));
}

#[test]
fn draw_char_scaled_rows_repeated() {
    let (ops, x) = draw_char_scaled_ops(10, 10, 12, Color::white(), Color::black(), 2);
    assert_eq!(x, 22);
    let mut head = window(10, 10, 19, 23);
    head.extend(cmd(RAMWR));
    assert_eq!(&ops[..head.len()], &head[..]);
    assert_eq!(ops.len(), head.len() + 2 * 14);
    let px = pixel_data(&ops);
    assert_eq!(px.len(), 10 * 14 * 2);
    for py in 0..14 {
        for pxl in 0..10 {
            let lit = (FONT[12][pxl / 2] >> (py / 2)) & 1 == 1;
            let i = (py * 10 + pxl) * 2;
            assert_eq!(&px[i..i + 2], if lit { &[0xFF, 0xFF] } else { &[0, 0] });
        }
    }
    let (ops, x) = draw_char_scaled_ops(10, 10, 12, Color::white(), Color::black(), 0);
    assert!(ops.is_empty());
    assert_eq!(x, 10);
}

#[test]
fn scale_one_puts_same_bytes_on_bus() {
    for g in [0usize, 12, 44, 72] {
        let (a, xa) = draw_char_scaled_ops(33, 44, g, Color::cyan(), Color::gray(), 1);
        let (b, xb) = draw_char_ops(33, 44, g, Color::cyan(), Color::gray());
        assert_eq!(xa, xb);
        assert_eq!(stream(&a), stream(&b));
        assert_ne!(a, b);
    }
    let (a, xa) = draw_str_scaled_ops(8, 80, b"details", Color::white(), Color::black(), 1);
    let (b, xb) = draw_str_ops(8, 80, b"details", Color::white(), Color::black());
    assert_eq!(xa, xb);
    assert_eq!(stream(&a), stream(&b));
}

#[test]
fn draw_str_scaled_examples() {
    let (ops, x) = draw_str_scaled_ops(8, 10, b"ERREUR", Color::red(), Color::black(), 2);
    assert_eq!(x, 80);
    assert!(!ops.is_empty());
    let (_, x) = draw_str_scaled_ops(8, 40, b"OK", Color::green(), Color::black(), 3);
    assert_eq!(x, 44);
    let (ops, x) = draw_str_scaled_ops(8, 40, b"OK", Color::green(), Color::black(), 0);
    assert!(ops.is_empty());
    assert_eq!(x, 8);
    let (ops, x) = draw_str_scaled_ops(230, 40, b"OK", Color::green(), Color::black(), 2);
    assert!(ops.is_empty());
    assert_eq!(x, 230);
}

#[test]
fn orientation_and_inversion_commands() {
    let mut expected = cmd(MADCTL);
    expected.extend(data(&[0x60]));
    assert_eq!(set_orientation_ops(0x60), expected);
    assert_eq!(set_invert_ops(true), cmd(INVON));
    assert_eq!(set_invert_ops(false), cmd(INVOFF));
}

#[test]
fn flush_sends_the_frame() {
    let mut s = Box::new(St7789vBuffered::new(()));
    s.fill_rect_buf(0, 0, 0, 0, Color(0x0102));
    s.set_pixel(239, 319, Color(0x0304));
    let ops = flush_ops(&s);
    let mut head = window(0, 0, 239, 319);
    head.extend(cmd(RAMWR));
    head.push(BusOp::DcHigh);
    assert_eq!(&ops[..head.len()], &head[..]);
    assert_eq!(ops.len(), head.len() + 300);
    let px = pixel_data(&ops);
    assert_eq!(px.len(), 153600);
    assert_eq!(&px[..2], &[1, 2]);
    assert_eq!(&px[153598..], &[3, 4]);
    assert!(px[2..153598].iter().all(|&b| b == 0));
}

#[test]
fn buffered_fill_matches_direct_fill() {
    let mut s = Box::new(St7789vBuffered::new(()));
    s.set_pixel(3, 3, Color::red());
    s.fill_screen_buf(Color::orange());
    assert_eq!(stream(&flush_ops(&s)), stream(&fill_screen_ops(Color::orange())));
}

#[test]
fn buffered_glyph_matches_direct_glyph() {
    let mut s = Box::new(St7789vBuffered::new(()));
    s.draw_char_buf(50, 60, 57, Color(0x1234), Color(0xFEDC));
    let frame = pixel_data(&flush_ops(&s));
    let (ops, _) = draw_char_ops(50, 60, 57, Color(0x1234), Color(0xFEDC));
    let direct = pixel_data(&ops);
    for row in 0..7 {
        for col in 0..5 {
            let f = ((60 + row) * 240 + 50 + col) * 2;
            let d = (row * 5 + col) * 2;
            assert_eq!(&frame[f..f + 2], &direct[d..d + 2]);
        }
    }
}

#[test]
fn draws_glyph_and_digit_count() {
    assert!(draws_glyph(0, b"A", 1));
    assert!(!draws_glyph(0, b"~~", 1));
    assert!(draws_glyph(0, b"~~A", 1));
    assert!(!draws_glyph(235, b"A", 1));
    assert!(!draws_glyph(0, b"", 1));
    assert!(!draws_glyph(220, b"~~A", 3));
    assert!(draws_glyph(0, b"AB", 0));
    assert_eq!(digit_count(0), 1);
    assert_eq!(digit_count(9), 1);
    assert_eq!(digit_count(10), 2);
    assert_eq!(digit_count(123456), 6);
    assert_eq!(digit_count(u32::MAX), 10);
}

#[test]
fn zero_length_lines_draw_nothing() {
    assert!(draw_hline_ops(10, 10, 0, Color::white()).is_empty());
    assert!(draw_hline_ops(0, 0, 0, Color::white()).is_empty());
    assert!(draw_vline_ops(10, 10, 0, Color::white()).is_empty());
    assert!(draw_vline_ops(0, 0, 0, Color::white()).is_empty());
}

#[test]
fn scale_zero_ignores_glyph_index() {
    let (ops, x) = draw_char_scaled_ops(40, 50, 500, Color::white(), Color::black(), 0);
    assert!(ops.is_empty());
    assert_eq!(x, 40);
}

#[test]
fn text_ignores_case_on_bus() {
    let w = Color::white();
    let b = Color::black();
    assert_eq!(draw_str_ops(8, 10, b"Bonjour st7789v", w, b), draw_str_ops(8, 10, b"BONJOUR ST7789V", w, b));
}

#[test]
fn text_concat_is_text_then_text() {
    let w = Color::white();
    let b = Color::black();
    for (a, rest) in [(&b"Temp: "[..], &b"-42"[..]), (&b"ABCDEFGHIJKLMNOPQRSTUVWXYZ0123456789"[..], &b"xyz"[..]), (&b""[..], &b"ok"[..])] {
        let mut ab = a.to_vec();
        ab.extend_from_slice(rest);
        let (ops_a, xa) = draw_str_ops(100, 20, a, w, b);
        let (ops_b, xb) = draw_str_ops(xa, 20, rest, w, b);
        let (ops_ab, xab) = draw_str_ops(100, 20, &ab, w, b);
        let mut joined = ops_a;
        joined.extend(ops_b);
        assert_eq!(ops_ab, joined);
        assert_eq!(xab, xb);
    }
}

#[test]
fn buffered_text_matches_direct_text() {
    let w = Color(0x1357);
    let b = Color(0x2468);
    let mut s = Box::new(St7789vBuffered::new(()));
    let xs = s.draw_str_buf(200, 100, b"Hi~there", w, b);
    let (ops, xd) = draw_str_ops(200, 100, b"Hi~there", w, b);
    assert_eq!(xs, xd);
    let frame = pixel_data(&flush_ops(&s));
    let per_glyph = draw_char_ops(0, 0, 0, w, b).0.len();
    let mut cell_x = Vec::new();
    let mut x = 200usize;
    for &c in b"Hi~there" {
        if x + 5 >= 240 {
            break;
        }
        if st7789v::font::char_to_glyph(c).is_some() {
            cell_x.push(x);
        }
        x += 6;
    }
    assert_eq!(ops.len(), per_glyph * cell_x.len());
    for (k, cx) in cell_x.iter().enumerate() {
        let glyph_ops = &ops[k * per_glyph..(k + 1) * per_glyph];
        let direct = pixel_data(glyph_ops);
        for row in 0..7 {
            for col in 0..5 {
                let f = ((100 + row) * 240 + cx + col) * 2;
                let d = (row * 5 + col) * 2;
                assert_eq!(&frame[f..f + 2], &direct[d..d + 2]);
            }
        }
    }
}
