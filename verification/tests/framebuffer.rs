use st7789v::bus::BusOp;
use st7789v::font::FONT;
use st7789v::plan::flush_ops;
use st7789v::{Color, St7789vBuffered};

fn frame(s: &St7789vBuffered<()>) -> Vec<u8> {
    let ops = flush_ops(s);
    let mut out = Vec::new();
    for op in &ops[ops.len() - 300..] {
        match op {
            BusOp::Write(b) => out.extend_from_slice(b),
            other => panic!("unexpected step {other:?}"),
        }
    }
    assert_eq!(out.len(), 153600);
    out
}

fn pixel(f: &[u8], x: usize, y: usize) -> u16 {
    let i = (y * 240 + x) * 2;
    (f[i] as u16) << 8 | f[i + 1] as u16
}

fn screen() -> Box<St7789vBuffered<()>> {
    Box::new(St7789vBuffered::new(()))
}

#[test]
fn new_frame_is_black() {
    let s = screen();
    assert!(frame(&s).iter().all(|&b| b == 0));
}

#[test]
fn driver_gives_back_the_driver() {
    let mut s = Box::new(St7789vBuffered::new(7u32));
    *s.driver() += 1;
    assert_eq!(*s.driver(), 8);
}

#[test]
fn set_pixel_writes_two_bytes_big_endian() {
    let mut s = screen();
    s.set_pixel(3, 2, Color(0xABCD));
    let f = frame(&s);
    let i = (2 * 240 + 3) * 2;
    assert_eq!(f[i], 0xAB);
    assert_eq!(f[i + 1], 0xCD);
    assert_eq!(f.iter().filter(|&&b| b != 0).count(), 2);
}

#[test]
fn set_pixel_off_screen_is_ignored() {
    let mut s = screen();
    s.set_pixel(240, 0, Color::white());
    s.set_pixel(0, 320, Color::white());
    s.set_pixel(u16::MAX, u16::MAX, Color::white());
    assert!(frame(&s).iter().all(|&b| b == 0));
}

#[test]
fn fill_screen_buf_sets_every_pixel() {
    let mut s = screen();
    s.fill_screen_buf(Color::red());
    let f = frame(&s);
    for k in 0..76800 {
        assert_eq!(f[2 * k], 0xF8);
        assert_eq!(f[2 * k + 1], 0x00);
    }
}

#[test]
fn fill_rect_buf_fills_inclusive_rectangle() {
    let mut s = screen();
    s.fill_rect_buf(10, 20, 12, 21, Color::green());
    let f = frame(&s);
    for y in 0..320 {
        for x in 0..240 {
            let inside = (10..=12).contains(&x) && (20..=21).contains(&y);
            assert_eq!(pixel(&f, x, y), if inside { 0x07E0 } else { 0 }, "({x}, {y})");
        }
    }
}

#[test]
fn fill_rect_buf_clips_to_screen() {
    let mut s = screen();
    s.fill_rect_buf(238, 318, 1000, 5000, Color::blue());
    let f = frame(&s);
    assert_eq!(pixel(&f, 238, 318), 0x001F);
    assert_eq!(pixel(&f, 239, 319), 0x001F);
    assert_eq!(pixel(&f, 237, 319), 0);
    assert_eq!(f.iter().filter(|&&b| b != 0).count(), 4);
}

#[test]
fn fill_rect_buf_reversed_or_off_screen_draws_nothing() {
    let mut s = screen();
    s.fill_rect_buf(20, 20, 10, 30, Color::white());
    s.fill_rect_buf(10, 30, 20, 20, Color::white());
    s.fill_rect_buf(300, 0, 400, 10, Color::white());
    assert!(frame(&s).iter().all(|&b| b == 0));
}

#[test]
fn later_drawing_wins() {
    let mut s = screen();
    s.fill_rect_buf(0, 0, 9, 9, Color::red());
    s.fill_rect_buf(5, 5, 14, 14, Color::blue());
    let f = frame(&s);
    assert_eq!(pixel(&f, 0, 0), 0xF800);
    assert_eq!(pixel(&f, 5, 5), 0x001F);
    assert_eq!(pixel(&f, 9, 9), 0x001F);
    assert_eq!(pixel(&f, 14, 14), 0x001F);
    assert_eq!(pixel(&f, 4, 9), 0xF800);
}

#[test]
fn draw_rect_buf_draws_outline_only() {
    let mut s = screen();
    s.draw_rect_buf(10, 10, 14, 13, Color::white());
    let f = frame(&s);
    for y in 8..16 {
        for x in 8..17 {
            let on = ((10..=14).contains(&x) && (y == 10 || y == 13))
                || ((10..=13).contains(&y) && (x == 10 || x == 14));
            assert_eq!(pixel(&f, x, y), if on { 0xFFFF } else { 0 }, "({x}, {y})");
        }
    }
}

#[test]
fn draw_rect_buf_clips_outline() {
    let mut s = screen();
    s.draw_rect_buf(230, 310, 250, 330, Color::white());
    let f = frame(&s);
    assert_eq!(pixel(&f, 230, 310), 0xFFFF);
    assert_eq!(pixel(&f, 239, 310), 0xFFFF);
    assert_eq!(pixel(&f, 230, 319), 0xFFFF);
    assert_eq!(pixel(&f, 235, 315), 0);
}

#[test]
fn draw_char_buf_draws_glyph_cell() {
    let mut s = screen();
    let next = s.draw_char_buf(20, 30, 0, Color::white(), Color::red());
    assert_eq!(next, 26);
    let f = frame(&s);
    for row in 0..7 {
        for col in 0..5 {
            let lit = (FONT[0][col] >> row) & 1 == 1;
            assert_eq!(pixel(&f, 20 + col, 30 + row), if lit { 0xFFFF } else { 0xF800 });
        }
        assert_eq!(pixel(&f, 25, 30 + row), 0);
    }
    assert_eq!(pixel(&f, 20, 30), 0xF800);
    assert_eq!(pixel(&f, 21, 30), 0xFFFF);
    assert_eq!(pixel(&f, 20, 31), 0xFFFF);
}

#[test]
fn draw_char_buf_clips_at_edge() {
    let mut s = screen();
    assert_eq!(s.draw_char_buf(238, 318, 8, Color::white(), Color::blue()), 244);
    let f = frame(&s);
    assert_eq!(pixel(&f, 238, 318), 0x001F);
    assert_eq!(pixel(&f, 238, 319), 0xFFFF);
}

#[test]
fn draw_str_buf_advances_six_per_byte() {
    let mut s = screen();
    let x = s.draw_str_buf(8, 10, b"AB", Color::white(), Color::black());
    assert_eq!(x, 20);
    let x = s.draw_str_buf(8, 20, b"a{b", Color::white(), Color::black());
    assert_eq!(x, 26);
    let f = frame(&s);
    for row in 0..7 {
        for col in 0..5 {
            assert_eq!(pixel(&f, 8 + col, 10 + row), pixel(&f, 8 + col, 20 + row));
            assert_eq!(pixel(&f, 14 + col, 20 + row), 0);
            assert_eq!(pixel(&f, 14 + col, 10 + row), pixel(&f, 20 + col, 20 + row));
        }
    }
}

#[test]
fn draw_str_buf_stops_at_right_edge() {
    let mut s = screen();
    let x = s.draw_str_buf(220, 0, b"ABCDEFG", Color::white(), Color::black());
    assert_eq!(x, 238);
    let x = s.draw_str_buf(235, 50, b"A", Color::white(), Color::red());
    assert_eq!(x, 235);
    assert_eq!(s.draw_str_buf(500, 0, b"", Color::white(), Color::black()), 500);
    let f = frame(&s);
    assert_eq!(pixel(&f, 235, 50), 0);
}

#[test]
fn draw_u32_buf_draws_decimal_digits() {
    let mut s = screen();
    assert_eq!(s.draw_u32_buf(0, 0, 123456, Color::white(), Color::black()), 36);
    assert_eq!(s.draw_u32_buf(0, 10, 0, Color::white(), Color::black()), 6);
    assert_eq!(s.draw_u32_buf(0, 20, u32::MAX, Color::white(), Color::black()), 60);
    let mut t = screen();
    t.draw_str_buf(0, 0, b"123456", Color::white(), Color::black());
    t.draw_str_buf(0, 10, b"0", Color::white(), Color::black());
    t.draw_str_buf(0, 20, b"4294967295", Color::white(), Color::black());
    assert_eq!(frame(&s), frame(&t));
}

#[test]
fn draw_i16_buf_draws_sign_and_digits() {
    let mut s = screen();
    assert_eq!(s.draw_i16_buf(56, 20, -42, Color::yellow(), Color::black()), 74);
    assert_eq!(s.draw_i16_buf(0, 40, i16::MIN, Color::yellow(), Color::black()), 36);
    assert_eq!(s.draw_i16_buf(0, 60, 7, Color::yellow(), Color::black()), 6);
    let mut t = screen();
    t.draw_str_buf(56, 20, b"-42", Color::yellow(), Color::black());
    t.draw_str_buf(0, 40, b"-32768", Color::yellow(), Color::black());
    t.draw_str_buf(0, 60, b"7", Color::yellow(), Color::black());
    assert_eq!(frame(&s), frame(&t));
}

#[test]
fn draw_char_scaled_buf_enlarges_each_pixel() {
    let mut s = screen();
    assert_eq!(s.draw_char_scaled_buf(10, 10, 13, Color::white(), Color::blue(), 3), 28);
    let f = frame(&s);
    for py in 10..31 {
        for px in 10..25 {
            let lit = (FONT[13][(px - 10) / 3] >> ((py - 10) / 3)) & 1 == 1;
            assert_eq!(pixel(&f, px, py), if lit { 0xFFFF } else { 0x001F });
        }
    }
    assert_eq!(pixel(&f, 25, 10), 0);
    assert_eq!(pixel(&f, 10, 31), 0);
}

#[test]
fn scale_one_is_plain_in_frame() {
    let mut a = screen();
    let mut b = screen();
    assert_eq!(a.draw_char_scaled_buf(7, 9, 44, Color::cyan(), Color::gray(), 1), b.draw_char_buf(7, 9, 44, Color::cyan(), Color::gray()));
    assert_eq!(
        a.draw_str_scaled_buf(8, 80, b"details", Color::cyan(), Color::black(), 1),
        b.draw_str_buf(8, 80, b"details", Color::cyan(), Color::black())
    );
    assert_eq!(frame(&a), frame(&b));
}

#[test]
fn scale_zero_draws_nothing() {
    let mut s = screen();
    assert_eq!(s.draw_char_scaled_buf(5, 5, 0, Color::white(), Color::white(), 0), 5);
    assert_eq!(s.draw_str_scaled_buf(5, 5, b"HELLO", Color::white(), Color::white(), 0), 5);
    assert!(frame(&s).iter().all(|&b| b == 0));
}

#[test]
fn draw_str_scaled_buf_stops_at_right_edge() {
    let mut s = screen();
    assert_eq!(s.draw_str_scaled_buf(8, 10, b"BONJOUR", Color::white(), Color::black(), 2), 92);
    assert_eq!(s.draw_str_scaled_buf(8, 40, b"OK", Color::green(), Color::black(), 3), 44);
    assert_eq!(s.draw_str_scaled_buf(200, 100, b"ABCDEF", Color::green(), Color::black(), 3), 236);
    assert_eq!(s.draw_str_scaled_buf(100, 200, b"A~B", Color::green(), Color::black(), 2), 136);
}

#[test]
fn drawing_twice_is_drawing_once() {
    let mut a = screen();
    let mut b = screen();
    a.set_pixel(1, 1, Color::red());
    b.set_pixel(1, 1, Color::red());
    a.fill_rect_buf(0, 0, 20, 20, Color::cyan());
    a.draw_str_buf(0, 0, b"ab", Color::white(), Color::blue());
    a.draw_str_buf(0, 0, b"ab", Color::white(), Color::blue());
    b.fill_rect_buf(0, 0, 20, 20, Color::cyan());
    b.fill_rect_buf(0, 0, 20, 20, Color::cyan());
    b.draw_str_buf(0, 0, b"ab", Color::white(), Color::blue());
    assert_eq!(frame(&a), frame(&b));
}
