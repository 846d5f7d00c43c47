//! A full frame held in RAM: drawing only writes memory, and the whole frame
//! goes to the panel in one pass.
use vstd::prelude::*;
use crate::canvas::{
    byte_index, lemma_cell_bounds, lemma_cell_of, lemma_paint_agree, lemma_paint_nothing,
    lemma_paint_over, lemma_paint_point, nothing, on_screen, over, paint, point, rect, FB_LEN,
};
use crate::color::Color;
use crate::digits::{decimal_digits, digits_lsb, digits_of, i16_glyphs, lemma_digits_u32};
use crate::font::{
    char_to_glyph, fold_text, glyph_of, glyph_on, glyph_pixel, lemma_font_case_insensitive, GLYPH_COUNT,
    GLYPH_MINUS,
};
use vstd::arithmetic::div_mod::lemma_fundamental_div_mod;

verus! {

/// A drawing surface with a full 240x320 RGB565 frame in RAM (153 600
/// bytes) beside the panel driver `D`.
///
/// Every drawing method writes the frame only; the frame is then sent to
/// the panel in a single pass (see [`crate::plan::flush_ops`]), so the
/// screen never shows a half-drawn picture.
pub struct St7789vBuffered<D> {
    inner: D,
    fb: [u8; FB_LEN],
}

impl<D> View for St7789vBuffered<D> {
    type V = Seq<u8>;

    /// The frame bytes, in the order the panel receives them.
    closed spec fn view(&self) -> Seq<u8> {
        self.fb@
    }
}

/// Partly filled rectangle: rows `y0..y` of columns `x0..=xe`, then columns
/// `x0..x` of row `y`.
spec fn rect_progress(x0: int, xe: int, y0: int, y: int, x: int, c: u16) -> spec_fn(
    int,
    int,
) -> Option<u16> {
    |px: int, py: int|
        if (y0 <= py < y && x0 <= px <= xe) || (py == y && x0 <= px < x) {
            Some(c)
        } else {
            None
        }
}

/// Glyph `g` drawn with its top-left corner at (`x`, `y`), each font pixel
/// widened to an `s` x `s` block: lit font pixels in `fg`, the others in `bg`.
/// The glyph covers `5 * s` columns and `7 * s` rows.
pub open spec fn glyph_cells(x: int, y: int, g: int, fg: u16, bg: u16, s: int) -> spec_fn(
    int,
    int,
) -> Option<u16> {
    |px: int, py: int|
        if x <= px < x + 5 * s && y <= py < y + 7 * s {
            Some(
                if glyph_pixel(g, (px - x) / s, (py - y) / s) {
                    fg
                } else {
                    bg
                },
            )
        } else {
            None
        }
}

/// Glyph `g` of the 5x7 font drawn with its top-left corner at (`x`, `y`):
/// lit pixels in `fg`, the rest of the cell in `bg`.
pub open spec fn glyph_cell(x: int, y: int, g: int, fg: u16, bg: u16) -> spec_fn(int, int) -> Option<u16> {
    |px: int, py: int|
        if x <= px < x + 5 && y <= py < y + 7 {
            Some(
                if glyph_pixel(g, px - x, py - y) {
                    fg
                } else {
                    bg
                },
            )
        } else {
            None
        }
}

/// Scale one is the plain font: a glyph enlarged once covers the same
/// pixels with the same colours as the plain glyph.
pub proof fn lemma_scale_one_is_plain(x: int, y: int, g: int, fg: u16, bg: u16)
    ensures
        forall|px: int, py: int| #[trigger] glyph_cells(x, y, g, fg, bg, 1)(px, py) == glyph_cell(x, y, g, fg, bg)(px, py),
{
}

/// Lexicographic order on (font row, font column, block row, block column).
spec fn lex_before(a: (int, int, int, int), b: (int, int, int, int)) -> bool {
    a.0 < b.0 || (a.0 == b.0 && (a.1 < b.1 || (a.1 == b.1 && (a.2 < b.2 || (a.2 == b.2 && a.3
        < b.3)))))
}

/// The cells of a glyph drawn before step `k` of the glyph loops.
spec fn glyph_progress(
    x: int,
    y: int,
    g: int,
    fg: u16,
    bg: u16,
    s: int,
    k: (int, int, int, int),
) -> spec_fn(int, int) -> Option<u16> {
    |px: int, py: int|
        if x <= px < x + 5 * s && y <= py < y + 7 * s && lex_before(
            ((py - y) / s, (px - x) / s, (py - y) % s, (px - x) % s),
            k,
        ) {
            glyph_cells(x, y, g, fg, bg, s)(px, py)
        } else {
            None
        }
}

/// Drawing the pixel of step `k` extends the drawn part to the next step.
proof fn lemma_glyph_step(
    fb0: Seq<u8>,
    x: int,
    y: int,
    g: int,
    fg: u16,
    bg: u16,
    s: int,
    l: int,
    c: int,
    sy: int,
    sx: int,
    color: u16,
)
    requires
        fb0.len() == FB_LEN,
        0 <= l < 7,
        0 <= c < 5,
        0 <= sy < s,
        0 <= sx < s,
        color == (if glyph_pixel(g, c, l) { fg } else { bg }),
    ensures
        paint(
            paint(fb0, glyph_progress(x, y, g, fg, bg, s, (l, c, sy, sx))),
            point(x + c * s + sx, y + l * s + sy, color),
        ) == paint(fb0, glyph_progress(x, y, g, fg, bg, s, (l, c, sy, sx + 1))),
{
    let f = glyph_progress(x, y, g, fg, bg, s, (l, c, sy, sx));
    let h = glyph_progress(x, y, g, fg, bg, s, (l, c, sy, sx + 1));
    let pt = point(x + c * s + sx, y + l * s + sy, color);
    lemma_paint_over(fb0, f, pt);
    assert(c * s + sx < 5 * s && l * s + sy < 7 * s) by (nonlinear_arith)
        requires
            0 <= l < 7,
            0 <= c < 5,
            0 <= sy < s,
            0 <= sx < s,
    ;
    lemma_cell_of(c * s + sx, s, c, sx);
    lemma_cell_of(l * s + sy, s, l, sy);
    assert forall|px: int, py: int| on_screen(px, py) implies #[trigger] over(pt, f)(px, py) == h(
        px,
        py,
    ) by {
        let dx = px - x;
        let dy = py - y;
        if x <= px < x + 5 * s && y <= py < y + 7 * s {
            lemma_cell_bounds(dx, s, 5);
            lemma_cell_bounds(dy, s, 7);
            lemma_fundamental_div_mod(dx, s);
            lemma_fundamental_div_mod(dy, s);
            if px == x + c * s + sx && py == y + l * s + sy {
                lemma_cell_of(dx, s, c, sx);
                lemma_cell_of(dy, s, l, sy);
                assert(pt(px, py) == Some(color));
                assert(h(px, py) == glyph_cells(x, y, g, fg, bg, s)(px, py));
            } else {
                assert(pt(px, py) is None);
                if dx / s == c && dx % s == sx && dy / s == l && dy % s == sy {
                    assert(dx == s * c + sx);
                    assert(dy == s * l + sy);
                    assert(s * c == c * s && s * l == l * s) by (nonlinear_arith);
                    assert(false);
                }
                assert(over(pt, f)(px, py) == f(px, py));
            }
        } else {
            assert(pt(px, py) is None);
        }
    }
    lemma_paint_agree(fb0, over(pt, f), h);
}

/// Ends of the glyph loops: step counters that wrap around name the same
/// drawn part, nothing is drawn before the first step and the whole glyph
/// after the last.
proof fn lemma_glyph_carry(
    fb0: Seq<u8>,
    x: int,
    y: int,
    g: int,
    fg: u16,
    bg: u16,
    s: int,
    l: int,
    c: int,
    sy: int,
)
    requires
        fb0.len() == FB_LEN,
        s >= 0,
    ensures
        paint(fb0, glyph_progress(x, y, g, fg, bg, s, (l, c, sy, s))) == paint(
            fb0,
            glyph_progress(x, y, g, fg, bg, s, (l, c, sy + 1, 0)),
        ),
        paint(fb0, glyph_progress(x, y, g, fg, bg, s, (l, c, s, 0))) == paint(
            fb0,
            glyph_progress(x, y, g, fg, bg, s, (l, c + 1, 0, 0)),
        ),
        paint(fb0, glyph_progress(x, y, g, fg, bg, s, (l, 5, 0, 0))) == paint(
            fb0,
            glyph_progress(x, y, g, fg, bg, s, (l + 1, 0, 0, 0)),
        ),
        paint(fb0, glyph_progress(x, y, g, fg, bg, s, (0, 0, 0, 0))) == fb0,
        paint(fb0, glyph_progress(x, y, g, fg, bg, s, (7, 0, 0, 0))) == paint(
            fb0,
            glyph_cells(x, y, g, fg, bg, s),
        ),
{
    let p0 = glyph_progress(x, y, g, fg, bg, s, (l, c, sy, s));
    let p1 = glyph_progress(x, y, g, fg, bg, s, (l, c, sy + 1, 0));
    assert forall|px: int, py: int| on_screen(px, py) implies #[trigger] p0(px, py) == p1(px, py) by {
        if x <= px < x + 5 * s && y <= py < y + 7 * s {
            lemma_cell_bounds(px - x, s, 5);
            lemma_cell_bounds(py - y, s, 7);
        }
    }
    lemma_paint_agree(fb0, p0, p1);
    let p2 = glyph_progress(x, y, g, fg, bg, s, (l, c, s, 0));
    let p3 = glyph_progress(x, y, g, fg, bg, s, (l, c + 1, 0, 0));
    assert forall|px: int, py: int| on_screen(px, py) implies #[trigger] p2(px, py) == p3(px, py) by {
        if x <= px < x + 5 * s && y <= py < y + 7 * s {
            lemma_cell_bounds(px - x, s, 5);
            lemma_cell_bounds(py - y, s, 7);
        }
    }
    lemma_paint_agree(fb0, p2, p3);
    let p4 = glyph_progress(x, y, g, fg, bg, s, (l, 5, 0, 0));
    let p5 = glyph_progress(x, y, g, fg, bg, s, (l + 1, 0, 0, 0));
    assert forall|px: int, py: int| on_screen(px, py) implies #[trigger] p4(px, py) == p5(px, py) by {
        if x <= px < x + 5 * s && y <= py < y + 7 * s {
            lemma_cell_bounds(px - x, s, 5);
            lemma_cell_bounds(py - y, s, 7);
        }
    }
    lemma_paint_agree(fb0, p4, p5);
    let p6 = glyph_progress(x, y, g, fg, bg, s, (0, 0, 0, 0));
    assert forall|px: int, py: int| on_screen(px, py) implies #[trigger] p6(px, py) == nothing()(
        px,
        py,
    ) by {
        if x <= px < x + 5 * s && y <= py < y + 7 * s {
            lemma_cell_bounds(px - x, s, 5);
            lemma_cell_bounds(py - y, s, 7);
        }
    }
    lemma_paint_agree(fb0, p6, nothing());
    lemma_paint_nothing(fb0);
    let p7 = glyph_progress(x, y, g, fg, bg, s, (7, 0, 0, 0));
    assert forall|px: int, py: int| on_screen(px, py) implies #[trigger] p7(px, py) == glyph_cells(
        x,
        y,
        g,
        fg,
        bg,
        s,
    )(px, py) by {
        if x <= px < x + 5 * s && y <= py < y + 7 * s {
            lemma_cell_bounds(px - x, s, 5);
            lemma_cell_bounds(py - y, s, 7);
        }
    }
    lemma_paint_agree(fb0, p7, glyph_cells(x, y, g, fg, bg, s));
}

/// Text drawn at (`x`, `y`) with glyphs scaled by `s`: the frame afterwards
/// and the x after the last character. Each byte takes a cell `6 * s` wide;
/// bytes without a glyph leave their cell untouched; drawing stops before a
/// character whose glyph would reach the right edge (`x + 5 * s >= 240`).
pub open spec fn render_text(
    fb: Seq<u8>,
    x: int,
    y: int,
    text: Seq<u8>,
    fg: u16,
    bg: u16,
    s: int,
) -> (Seq<u8>, int)
    decreases text.len(),
{
    if text.len() == 0 || x + 5 * s >= 240 {
        (fb, x)
    } else {
        let fb2 = match glyph_of(text[0]) {
            Some(g) => paint(fb, glyph_cells(x, y, g as int, fg, bg, s)),
            None => fb,
        };
        render_text(fb2, x + 6 * s, y, text.drop_first(), fg, bg, s)
    }
}

/// Whether drawing `text` from `x` with scale `s` draws at least one glyph.
pub open spec fn text_draws_glyph(x: int, text: Seq<u8>, s: int) -> bool
    decreases text.len(),
{
    if text.len() == 0 || x + 5 * s >= 240 {
        false
    } else {
        glyph_of(text[0]) is Some || text_draws_glyph(x + 6 * s, text.drop_first(), s)
    }
}

/// Glyphs `gs` drawn one after the other from (`x`, `y`), six columns apart,
/// whether or not they fit on the screen.
pub open spec fn render_glyphs(fb: Seq<u8>, x: int, y: int, gs: Seq<int>, fg: u16, bg: u16) -> Seq<u8>
    decreases gs.len(),
{
    if gs.len() == 0 {
        fb
    } else {
        render_glyphs(paint(fb, glyph_cell(x, y, gs[0], fg, bg)), x + 6, y, gs.drop_first(), fg, bg)
    }
}

/// The outline of the rectangle with corners (`x0`, `y0`) and (`x1`, `y1`):
/// its top and bottom rows and its left and right columns.
pub open spec fn outline(x0: int, y0: int, x1: int, y1: int, c: u16) -> spec_fn(int, int) -> Option<
    u16,
> {
    |px: int, py: int|
        if (x0 <= px <= x1 && (py == y0 || py == y1)) || (y0 <= py <= y1 && (px == x0 || px == x1)) {
            Some(c)
        } else {
            None
        }
}

/// Part of the outline drawn so far: columns `x0..xa` of the top and
/// bottom rows, rows `y0..yb` of the side columns.
spec fn outline_progress(x0: int, y0: int, x1: int, y1: int, c: u16, xa: int, yb: int) -> spec_fn(
    int,
    int,
) -> Option<u16> {
    |px: int, py: int|
        if (x0 <= px < xa && (py == y0 || py == y1)) || (y0 <= py < yb && (px == x0 || px == x1)) {
            Some(c)
        } else {
            None
        }
}

/// Column of the start of cell `k` when cells of `6 * s` columns start at `x`.
pub open spec fn cell_x(x: int, s: int, k: nat) -> int {
    x + 6 * s * k
}

/// Text stops at the right edge: the cursor moves forward by whole cells
/// of `6 * s` columns, and when it moved, the glyph of the last cell ends
/// on the screen (`x_end - 6 * s + 5 * s < 240`).
pub proof fn lemma_text_stops_at_edge(fb: Seq<u8>, x: int, y: int, text: Seq<u8>, fg: u16, bg: u16, s: int)
    requires
        s > 0,
    ensures
        exists|k: nat| render_text(fb, x, y, text, fg, bg, s).1 == #[trigger] cell_x(x, s, k),
        render_text(fb, x, y, text, fg, bg, s).1 == x || render_text(fb, x, y, text, fg, bg, s).1 - s < 240,
    decreases text.len(),
{
    let r = render_text(fb, x, y, text, fg, bg, s).1;
    if text.len() == 0 || x + 5 * s >= 240 {
        assert(r == cell_x(x, s, 0));
    } else {
        let fb2 = match glyph_of(text[0]) {
            Some(g) => paint(fb, glyph_cells(x, y, g as int, fg, bg, s)),
            None => fb,
        };
        lemma_text_stops_at_edge(fb2, x + 6 * s, y, text.drop_first(), fg, bg, s);
        let k = choose|k: nat| render_text(fb2, x + 6 * s, y, text.drop_first(), fg, bg, s).1 == #[trigger] cell_x(x + 6 * s, s, k);
        assert(x + 6 * s + 6 * s * k == x + 6 * s * (k + 1)) by (nonlinear_arith);
        assert(r == cell_x(x, s, (k + 1) as nat));
    }
}

/// Text ignores case in the frame: drawing a text and drawing it with its
/// letters in upper case paint the same frame, end at the same x, and draw a
/// glyph alike.
pub proof fn lemma_render_text_case_insensitive(
    fb: Seq<u8>,
    x: int,
    y: int,
    t: Seq<u8>,
    fg: u16,
    bg: u16,
    s: int,
)
    ensures
        render_text(fb, x, y, t, fg, bg, s) == render_text(fb, x, y, fold_text(t), fg, bg, s),
        text_draws_glyph(x, t, s) == text_draws_glyph(x, fold_text(t), s),
    decreases t.len(),
{
    let u = fold_text(t);
    if t.len() > 0 && x + 5 * s < 240 {
        assert(u[0] == crate::font::fold_case(t[0]));
        lemma_font_case_insensitive(t[0]);
        assert(u.drop_first() =~= fold_text(t.drop_first()));
        let fb2 = match glyph_of(t[0]) {
            Some(g) => paint(fb, glyph_cells(x, y, g as int, fg, bg, s)),
            None => fb,
        };
        lemma_render_text_case_insensitive(fb2, x + 6 * s, y, t.drop_first(), fg, bg, s);
    }
}

/// Drawing `a` followed by `b` is drawing `a`, then drawing `b` from the
/// frame and the x that `a` left.
pub proof fn lemma_render_text_concat(
    fb: Seq<u8>,
    x: int,
    y: int,
    a: Seq<u8>,
    b: Seq<u8>,
    fg: u16,
    bg: u16,
    s: int,
)
    ensures
        render_text(fb, x, y, a + b, fg, bg, s) == render_text(
            render_text(fb, x, y, a, fg, bg, s).0,
            render_text(fb, x, y, a, fg, bg, s).1,
            y,
            b,
            fg,
            bg,
            s,
        ),
    decreases a.len(),
{
    if a.len() == 0 {
        assert(a + b =~= b);
    } else if x + 5 * s >= 240 {
        assert((a + b).len() > 0);
    } else {
        assert((a + b)[0] == a[0]);
        assert((a + b).drop_first() =~= a.drop_first() + b);
        let fb2 = match glyph_of(a[0]) {
            Some(g) => paint(fb, glyph_cells(x, y, g as int, fg, bg, s)),
            None => fb,
        };
        lemma_render_text_concat(fb2, x + 6 * s, y, a.drop_first(), b, fg, bg, s);
    }
}

/// Text leaves every byte of the frame left of its start column as it was.
pub proof fn lemma_render_text_keeps_left(fb: Seq<u8>, x: int, y: int, t: Seq<u8>, fg: u16, bg: u16, s: int)
    requires
        fb.len() == FB_LEN,
        s >= 0,
    ensures
        render_text(fb, x, y, t, fg, bg, s).0.len() == FB_LEN,
        forall|i: int|
            0 <= i < FB_LEN && crate::canvas::pixel_x(i) < x ==> #[trigger] render_text(fb, x, y, t, fg, bg, s).0[i]
                == fb[i],
    decreases t.len(),
{
    if t.len() > 0 && x + 5 * s < 240 {
        let fb2 = match glyph_of(t[0]) {
            Some(g) => paint(fb, glyph_cells(x, y, g as int, fg, bg, s)),
            None => fb,
        };
        lemma_render_text_keeps_left(fb2, x + 6 * s, y, t.drop_first(), fg, bg, s);
        assert forall|i: int| 0 <= i < FB_LEN && crate::canvas::pixel_x(i) < x implies #[trigger] render_text(
            fb,
            x,
            y,
            t,
            fg,
            bg,
            s,
        ).0[i] == fb[i] by {
            assert(render_text(fb2, x + 6 * s, y, t.drop_first(), fg, bg, s).0[i] == fb2[i]);
        }
    }
}

/// Whether drawing `text` from `x` at scale `scale` draws at least one glyph
/// (see [`text_draws_glyph`]).
pub fn draws_glyph(x: u16, text: &[u8], scale: u8) -> (b: bool)
    ensures
        b == text_draws_glyph(x as int, text@, scale as int),
{
    let s: u32 = scale as u32;
    let mut cx: u32 = x as u32;
    let mut i: usize = 0;
    assert(text@.subrange(0, text@.len() as int) =~= text@);
    while i < text.len()
        invariant
            0 <= i <= text@.len(),
            s == scale,
            cx <= 65535 + 1530,
            text_draws_glyph(x as int, text@, s as int) == text_draws_glyph(
                cx as int,
                text@.subrange(i as int, text@.len() as int),
                s as int,
            ),
        decreases text@.len() - i,
    {
        let ghost rest = text@.subrange(i as int, text@.len() as int);
        assert(rest[0] == text@[i as int]);
        assert(rest.drop_first() =~= text@.subrange(i + 1, text@.len() as int));
        if cx + 5 * s >= 240 {
            return false;
        }
        if char_to_glyph(text[i]).is_some() {
            return true;
        }
        cx = cx + 6 * s;
        i = i + 1;
    }
    false
}

impl<D> St7789vBuffered<D> {
    /// The panel driver held beside the frame.
    pub closed spec fn driver_state(&self) -> D {
        self.inner
    }

    /// The frame has the size of the screen.
    pub proof fn lemma_frame_len(&self)
        ensures
            self@.len() == FB_LEN,
    {
    }

    /// Wraps a driver; the frame starts all zero (black).
    pub fn new(driver: D) -> (s: Self)
        ensures
            s@ == Seq::new(FB_LEN as nat, |i: int| 0u8),
            s.driver_state() == driver,
    {
        let s = St7789vBuffered { inner: driver, fb: [0u8; FB_LEN] };
        assert(s@ =~= Seq::new(FB_LEN as nat, |i: int| 0u8));
        s
    }

    /// The underlying driver (for initialisation, orientation and so on).
    pub fn driver(&mut self) -> (d: &mut D)
        ensures
            *d == old(self).driver_state(),
            final(self).driver_state() == *final(d),
            final(self)@ == old(self)@,
    {
        &mut self.inner
    }

    /// Writes one pixel of the frame; off-screen coordinates are ignored.
    pub fn set_pixel(&mut self, x: u16, y: u16, color: Color)
        ensures
            final(self)@ == paint(old(self)@, point(x as int, y as int, color.0)),
            final(self).driver_state() == old(self).driver_state(),
    {
        proof {
            lemma_paint_point(self@, x as int, y as int, color.0);
        }
        if x >= crate::SCREEN_W || y >= crate::SCREEN_H {
            return;
        }
        let idx: usize = (y as usize * 240 + x as usize) * 2;
        let bytes = color.to_be_bytes();
        self.fb[idx] = bytes[0];
        self.fb[idx + 1] = bytes[1];
        assert(self@ =~= old(self)@.update(byte_index(x as int, y as int), crate::color::hi_byte(color.0)).update(
            byte_index(x as int, y as int) + 1,
            crate::color::lo_byte(color.0),
        ));
    }

    /// Fills the rectangle with corners (`x0`, `y0`) and (`x1`, `y1`),
    /// both included, clipped to the screen.
    pub fn fill_rect_buf(&mut self, x0: u16, y0: u16, x1: u16, y1: u16, color: Color)
        ensures
            final(self)@ == paint(old(self)@, rect(x0 as int, y0 as int, x1 as int, y1 as int, color.0)),
            final(self).driver_state() == old(self).driver_state(),
    {
        let bytes = color.to_be_bytes();
        let hi: u8 = bytes[0];
        let lo: u8 = bytes[1];
        let xe: u32 = if x1 < 239 { x1 as u32 } else { 239 };
        let ye: u32 = if y1 < 319 { y1 as u32 } else { 319 };
        let ghost c = color.0;
        let ghost fb0 = self@;
        proof {
            lemma_paint_nothing(fb0);
            lemma_paint_agree(fb0, nothing(), rect_progress(x0 as int, xe as int, y0 as int, y0 as int, x0 as int, c));
        }
        let mut y: u32 = y0 as u32;
        while y <= ye
            invariant
                y0 <= y,
                y <= ye + 1 || y == y0,
                ye <= 319,
                xe <= 239,
                xe == (if x1 < 239 { x1 as u32 } else { 239 }),
                ye == (if y1 < 319 { y1 as u32 } else { 319 }),
                hi == crate::color::hi_byte(c),
                lo == crate::color::lo_byte(c),
                fb0.len() == FB_LEN,
                self@ == paint(fb0, rect_progress(x0 as int, xe as int, y0 as int, y as int, x0 as int, c)),
                self.driver_state() == old(self).driver_state(),
                fb0 == old(self)@,
                c == color.0,
            decreases ye + 1 - y,
        {
            let row: usize = y as usize * 240;
            let mut x: u32 = x0 as u32;
            while x <= xe
                invariant
                    x0 <= x,
                    x <= xe + 1 || x == x0,
                    y <= ye,
                    ye <= 319,
                    xe <= 239,
                    row == y * 240,
                    hi == crate::color::hi_byte(c),
                    lo == crate::color::lo_byte(c),
                    fb0.len() == FB_LEN,
                    self@ == paint(fb0, rect_progress(x0 as int, xe as int, y0 as int, y as int, x as int, c)),
                    self.driver_state() == old(self).driver_state(),
                decreases xe + 1 - x,
            {
                let idx: usize = (row + x as usize) * 2;
                let ghost before = self@;
                self.fb[idx] = hi;
                self.fb[idx + 1] = lo;
                proof {
                    let f = rect_progress(x0 as int, xe as int, y0 as int, y as int, x as int, c);
                    let g = rect_progress(x0 as int, xe as int, y0 as int, y as int, x + 1, c);
                    lemma_paint_point(before, x as int, y as int, c);
                    assert(self@ =~= paint(before, point(x as int, y as int, c)));
                    lemma_paint_over(fb0, f, point(x as int, y as int, c));
                    lemma_paint_agree(fb0, over(point(x as int, y as int, c), f), g);
                }
                x = x + 1;
            }
            proof {
                lemma_paint_agree(
                    fb0,
                    rect_progress(x0 as int, xe as int, y0 as int, y as int, x as int, c),
                    rect_progress(x0 as int, xe as int, y0 as int, y + 1, x0 as int, c),
                );
            }
            y = y + 1;
        }
        proof {
            lemma_paint_agree(
                fb0,
                rect_progress(x0 as int, xe as int, y0 as int, y as int, x0 as int, c),
                rect(x0 as int, y0 as int, x1 as int, y1 as int, c),
            );
        }
    }

    /// Fills the whole frame with `color`.
    pub fn fill_screen_buf(&mut self, color: Color)
        ensures
            final(self)@ == paint(old(self)@, rect(0, 0, 239, 319, color.0)),
            final(self).driver_state() == old(self).driver_state(),
    {
        self.fill_rect_buf(0, 0, crate::SCREEN_W - 1, crate::SCREEN_H - 1, color);
    }
    /// Draws glyph `glyph_idx` of the font with its top-left corner at
    /// (`x`, `y`): lit pixels in `fg`, the rest of the 5x7 cell in `bg`,
    /// clipped to the screen. Returns the x of the next character cell,
    /// one blank column further (`x + 6`).
    pub fn draw_char_buf(&mut self, x: u16, y: u16, glyph_idx: usize, fg: Color, bg: Color) -> (x_next: u16)
        requires
            glyph_idx < GLYPH_COUNT,
            x + 6 <= u16::MAX,
            y + 6 <= u16::MAX,
        ensures
            final(self)@ == paint(old(self)@, glyph_cell(x as int, y as int, glyph_idx as int, fg.0, bg.0)),
            x_next == x + 6,
            final(self).driver_state() == old(self).driver_state(),
    {
        let ghost fb0 = self@;
        let ghost g = glyph_idx as int;
        proof {
            lemma_glyph_carry(fb0, x as int, y as int, g, fg.0, bg.0, 1, 0, 0, 0);
        }
        let mut ligne: u16 = 0;
        while ligne < 7
            invariant
                0 <= ligne <= 7,
                glyph_idx < GLYPH_COUNT,
                x + 6 <= u16::MAX,
                y + 6 <= u16::MAX,
                fb0.len() == FB_LEN,
                fb0 == old(self)@,
                g == glyph_idx,
                self@ == paint(fb0, glyph_progress(x as int, y as int, g, fg.0, bg.0, 1, (ligne as int, 0, 0, 0))),
                self.driver_state() == old(self).driver_state(),
            decreases 7 - ligne,
        {
            let mut col: u16 = 0;
            while col < 5
                invariant
                    0 <= ligne < 7,
                    0 <= col <= 5,
                    glyph_idx < GLYPH_COUNT,
                    x + 6 <= u16::MAX,
                    y + 6 <= u16::MAX,
                    fb0.len() == FB_LEN,
                    g == glyph_idx,
                    self@ == paint(fb0, glyph_progress(x as int, y as int, g, fg.0, bg.0, 1, (ligne as int, col as int, 0, 0))),
                    self.driver_state() == old(self).driver_state(),
                decreases 5 - col,
            {
                let allume = glyph_on(glyph_idx, col as usize, ligne as usize);
                let c = if allume { fg } else { bg };
                self.set_pixel(x + col, y + ligne, c);
                proof {
                    lemma_glyph_step(fb0, x as int, y as int, g, fg.0, bg.0, 1, ligne as int, col as int, 0, 0, c.0);
                    lemma_glyph_carry(fb0, x as int, y as int, g, fg.0, bg.0, 1, ligne as int, col as int, 0);
                    lemma_glyph_carry(fb0, x as int, y as int, g, fg.0, bg.0, 1, ligne as int, col as int, 1);
                }
                col = col + 1;
            }
            proof {
                lemma_glyph_carry(fb0, x as int, y as int, g, fg.0, bg.0, 1, ligne as int, 5, 0);
            }
            ligne = ligne + 1;
        }
        proof {
            lemma_glyph_carry(fb0, x as int, y as int, g, fg.0, bg.0, 1, 7, 0, 0);
            lemma_scale_one_is_plain(x as int, y as int, g, fg.0, bg.0);
            lemma_paint_agree(fb0, glyph_cells(x as int, y as int, g, fg.0, bg.0, 1), glyph_cell(x as int, y as int, g, fg.0, bg.0));
        }
        x + 6
    }

    /// Draws glyph `glyph_idx` enlarged `scale` times: every font pixel
    /// becomes a `scale` x `scale` block (`fg` where lit, `bg` elsewhere),
    /// clipped to the screen. Returns `x + 6 * scale`, the x of the next
    /// character cell. A zero scale draws nothing.
    pub fn draw_char_scaled_buf(
        &mut self,
        x: u16,
        y: u16,
        glyph_idx: usize,
        fg: Color,
        bg: Color,
        scale: u8,
    ) -> (x_next: u16)
        requires
            glyph_idx < GLYPH_COUNT,
            x + 6 * scale <= u16::MAX,
            scale > 0 ==> y + 7 * scale - 1 <= u16::MAX,
        ensures
            final(self)@ == paint(
                old(self)@,
                glyph_cells(x as int, y as int, glyph_idx as int, fg.0, bg.0, scale as int),
            ),
            x_next == x + 6 * scale,
            final(self).driver_state() == old(self).driver_state(),
    {
        let s: u16 = scale as u16;
        let ghost fb0 = self@;
        let ghost g = glyph_idx as int;
        let ghost si = s as int;
        proof {
            lemma_glyph_carry(fb0, x as int, y as int, g, fg.0, bg.0, si, 0, 0, 0);
        }
        let mut ligne: u16 = 0;
        while ligne < 7
            invariant
                0 <= ligne <= 7,
                glyph_idx < GLYPH_COUNT,
                s == scale,
                si == s,
                x + 6 * s <= u16::MAX,
                s > 0 ==> y + 7 * s - 1 <= u16::MAX,
                fb0.len() == FB_LEN,
                fb0 == old(self)@,
                g == glyph_idx,
                self@ == paint(fb0, glyph_progress(x as int, y as int, g, fg.0, bg.0, si, (ligne as int, 0, 0, 0))),
                self.driver_state() == old(self).driver_state(),
            decreases 7 - ligne,
        {
            let mut col: u16 = 0;
            while col < 5
                invariant
                    0 <= ligne < 7,
                    0 <= col <= 5,
                    glyph_idx < GLYPH_COUNT,
                    si == s,
                    s <= 255,
                    x + 6 * s <= u16::MAX,
                    s > 0 ==> y + 7 * s - 1 <= u16::MAX,
                    fb0.len() == FB_LEN,
                    g == glyph_idx,
                    self@ == paint(fb0, glyph_progress(x as int, y as int, g, fg.0, bg.0, si, (ligne as int, col as int, 0, 0))),
                    self.driver_state() == old(self).driver_state(),
                decreases 5 - col,
            {
                let allume = glyph_on(glyph_idx, col as usize, ligne as usize);
                let c = if allume { fg } else { bg };
                let mut sy: u16 = 0;
                while sy < s
                    invariant
                        0 <= ligne < 7,
                        0 <= col < 5,
                        0 <= sy <= s,
                        glyph_idx < GLYPH_COUNT,
                        si == s,
                        s <= 255,
                        x + 6 * s <= u16::MAX,
                        s > 0 ==> y + 7 * s - 1 <= u16::MAX,
                        fb0.len() == FB_LEN,
                        g == glyph_idx,
                        c.0 == (if glyph_pixel(g, col as int, ligne as int) { fg.0 } else { bg.0 }),
                        self@ == paint(fb0, glyph_progress(x as int, y as int, g, fg.0, bg.0, si, (ligne as int, col as int, sy as int, 0))),
                        self.driver_state() == old(self).driver_state(),
                    decreases s - sy,
                {
                    let mut sx: u16 = 0;
                    while sx < s
                        invariant
                            0 <= ligne < 7,
                            0 <= col < 5,
                            0 <= sy < s,
                            0 <= sx <= s,
                            glyph_idx < GLYPH_COUNT,
                            si == s,
                            s <= 255,
                            x + 6 * s <= u16::MAX,
                            y + 7 * s - 1 <= u16::MAX,
                            fb0.len() == FB_LEN,
                            g == glyph_idx,
                            c.0 == (if glyph_pixel(g, col as int, ligne as int) { fg.0 } else { bg.0 }),
                            self@ == paint(fb0, glyph_progress(x as int, y as int, g, fg.0, bg.0, si, (ligne as int, col as int, sy as int, sx as int))),
                            self.driver_state() == old(self).driver_state(),
                        decreases s - sx,
                    {
                        assert(col * s + sx < 5 * s && ligne * s + sy < 7 * s) by (nonlinear_arith)
                            requires
                                0 <= ligne < 7,
                                0 <= col < 5,
                                0 <= sy < s,
                                0 <= sx < s,
                        ;
                        assert(col * s <= 4 * 255 && ligne * s <= 6 * 255) by (nonlinear_arith)
                            requires
                                0 <= ligne < 7,
                                0 <= col < 5,
                                s <= 255,
                        ;
                        self.set_pixel(x + col * s + sx, y + ligne * s + sy, c);
                        proof {
                            lemma_glyph_step(fb0, x as int, y as int, g, fg.0, bg.0, si, ligne as int, col as int, sy as int, sx as int, c.0);
                        }
                        sx = sx + 1;
                    }
                    proof {
                        lemma_glyph_carry(fb0, x as int, y as int, g, fg.0, bg.0, si, ligne as int, col as int, sy as int);
                    }
                    sy = sy + 1;
                }
                proof {
                    lemma_glyph_carry(fb0, x as int, y as int, g, fg.0, bg.0, si, ligne as int, col as int, 0);
                }
                col = col + 1;
            }
            proof {
                lemma_glyph_carry(fb0, x as int, y as int, g, fg.0, bg.0, si, ligne as int, 5, 0);
            }
            ligne = ligne + 1;
        }
        proof {
            lemma_glyph_carry(fb0, x as int, y as int, g, fg.0, bg.0, si, 7, 0, 0);
        }
        x + 6 * s
    }
    /// Draws the outline of the rectangle with corners (`x0`, `y0`) and
    /// (`x1`, `y1`), clipped to the screen.
    pub fn draw_rect_buf(&mut self, x0: u16, y0: u16, x1: u16, y1: u16, color: Color)
        ensures
            final(self)@ == paint(old(self)@, outline(x0 as int, y0 as int, x1 as int, y1 as int, color.0)),
            final(self).driver_state() == old(self).driver_state(),
    {
        let ghost fb0 = self@;
        let ghost c = color.0;
        let ghost (a0, b0, a1, b1) = (x0 as int, y0 as int, x1 as int, y1 as int);
        proof {
            lemma_paint_nothing(fb0);
            lemma_paint_agree(fb0, nothing(), outline_progress(a0, b0, a1, b1, c, a0, b0));
        }
        let mut x: u32 = x0 as u32;
        while x <= x1 as u32
            invariant
                x0 <= x <= x1 + 1 || x == x0,
                fb0.len() == FB_LEN,
                fb0 == old(self)@,
                c == color.0,
                a0 == x0 && b0 == y0 && a1 == x1 && b1 == y1,
                self@ == paint(fb0, outline_progress(a0, b0, a1, b1, c, x as int, b0)),
                self.driver_state() == old(self).driver_state(),
            decreases x1 + 1 - x,
        {
            self.set_pixel(x as u16, y0, color);
            self.set_pixel(x as u16, y1, color);
            proof {
                let f = outline_progress(a0, b0, a1, b1, c, x as int, b0);
                let p0 = point(x as int, b0, c);
                let p1 = point(x as int, b1, c);
                lemma_paint_over(fb0, f, p0);
                lemma_paint_over(fb0, over(p0, f), p1);
                lemma_paint_agree(fb0, over(p1, over(p0, f)), outline_progress(a0, b0, a1, b1, c, x + 1, b0));
            }
            x = x + 1;
        }
        let ghost xa = x as int;
        proof {
            lemma_paint_agree(fb0, outline_progress(a0, b0, a1, b1, c, xa, b0), outline_progress(a0, b0, a1, b1, c, a1 + 1, b0));
        }
        let mut y: u32 = y0 as u32;
        while y <= y1 as u32
            invariant
                y0 <= y <= y1 + 1 || y == y0,
                fb0.len() == FB_LEN,
                c == color.0,
                a0 == x0 && b0 == y0 && a1 == x1 && b1 == y1,
                self@ == paint(fb0, outline_progress(a0, b0, a1, b1, c, a1 + 1, y as int)),
                self.driver_state() == old(self).driver_state(),
            decreases y1 + 1 - y,
        {
            self.set_pixel(x0, y as u16, color);
            self.set_pixel(x1, y as u16, color);
            proof {
                let f = outline_progress(a0, b0, a1, b1, c, a1 + 1, y as int);
                let p0 = point(a0, y as int, c);
                let p1 = point(a1, y as int, c);
                lemma_paint_over(fb0, f, p0);
                lemma_paint_over(fb0, over(p0, f), p1);
                lemma_paint_agree(fb0, over(p1, over(p0, f)), outline_progress(a0, b0, a1, b1, c, a1 + 1, y + 1));
            }
            y = y + 1;
        }
        proof {
            lemma_paint_agree(fb0, outline_progress(a0, b0, a1, b1, c, a1 + 1, y as int), outline(a0, b0, a1, b1, c));
        }
    }

    /// Draws `text` from (`x`, `y`), one 6-column cell per byte; bytes with
    /// no glyph only advance the cell. Stops before a character that would
    /// reach the right edge. Returns the x after the last character.
    pub fn draw_str_buf(&mut self, x: u16, y: u16, text: &[u8], fg: Color, bg: Color) -> (x_end: u16)
        requires
            text@.len() > 0 ==> x + 5 <= u16::MAX,
            text_draws_glyph(x as int, text@, 1) ==> y + 6 <= u16::MAX,
        ensures
            final(self)@ == render_text(old(self)@, x as int, y as int, text@, fg.0, bg.0, 1).0,
            x_end == render_text(old(self)@, x as int, y as int, text@, fg.0, bg.0, 1).1,
            final(self).driver_state() == old(self).driver_state(),
    {
        let ghost fb0 = self@;
        let ghost x0 = x as int;
        let mut x = x;
        let mut i: usize = 0;
        assert(text@.subrange(0, text@.len() as int) =~= text@);
        while i < text.len()
            invariant
                0 <= i <= text@.len(),
                x == x0 || x + 5 < 240 + 6,
                i == 0 ==> x == x0,
                text@.len() > 0 ==> x0 + 5 <= u16::MAX,
                text_draws_glyph(x as int, text@.subrange(i as int, text@.len() as int), 1) ==> y + 6 <= u16::MAX,
                render_text(fb0, x0, y as int, text@, fg.0, bg.0, 1) == render_text(
                    self@,
                    x as int,
                    y as int,
                    text@.subrange(i as int, text@.len() as int),
                    fg.0,
                    bg.0,
                    1,
                ),
                self@.len() == FB_LEN,
                self.driver_state() == old(self).driver_state(),
            ensures
                i == text@.len() || x + 5 >= 240,
            decreases text@.len() - i,
        {
            let ghost rest = text@.subrange(i as int, text@.len() as int);
            assert(rest[0] == text@[i as int]);
            assert(rest.drop_first() =~= text@.subrange(i + 1, text@.len() as int));
            if x + 5 >= crate::SCREEN_W {
                break;
            }
            let c = text[i];
            match char_to_glyph(c) {
                Some(idx) => {
                    let ghost fb1 = self@;
                    x = self.draw_char_buf(x, y, idx, fg, bg);
                    proof {
                        lemma_scale_one_is_plain((x - 6) as int, y as int, idx as int, fg.0, bg.0);
                        lemma_paint_agree(
                            fb1,
                            glyph_cells((x - 6) as int, y as int, idx as int, fg.0, bg.0, 1),
                            glyph_cell((x - 6) as int, y as int, idx as int, fg.0, bg.0),
                        );
                    }
                },
                None => {
                    x = x.saturating_add(6);
                },
            }
            i = i + 1;
        }
        assert(text@.subrange(i as int, text@.len() as int).len() == 0 || x + 5 >= 240);
        x
    }

    /// Draws `text` enlarged `scale` times from (`x`, `y`): each byte takes a
    /// cell `6 * scale` columns wide; stops before a character that would
    /// reach the right edge. With scale 1 this is [`Self::draw_str_buf`].
    /// Returns the x after the last character.
    pub fn draw_str_scaled_buf(
        &mut self,
        x: u16,
        y: u16,
        text: &[u8],
        fg: Color,
        bg: Color,
        scale: u8,
    ) -> (x_end: u16)
        requires
            text@.len() > 0 ==> x + 5 * scale <= u16::MAX,
            text_draws_glyph(x as int, text@, scale as int) && scale > 0 ==> y + 7 * scale - 1 <= u16::MAX,
        ensures
            final(self)@ == render_text(old(self)@, x as int, y as int, text@, fg.0, bg.0, scale as int).0,
            x_end == render_text(old(self)@, x as int, y as int, text@, fg.0, bg.0, scale as int).1,
            final(self).driver_state() == old(self).driver_state(),
    {
        let s: u16 = scale as u16;
        let ghost fb0 = self@;
        let ghost x0 = x as int;
        let ghost si = scale as int;
        let mut x = x;
        let mut i: usize = 0;
        assert(text@.subrange(0, text@.len() as int) =~= text@);
        while i < text.len()
            invariant
                0 <= i <= text@.len(),
                s == scale,
                si == s,
                x == x0 || x + 5 * s < 240 + 6 * s,
                i == 0 ==> x == x0,
                text@.len() > 0 ==> x0 + 5 * s <= u16::MAX,
                text_draws_glyph(x as int, text@.subrange(i as int, text@.len() as int), si) && s > 0
                    ==> y + 7 * s - 1 <= u16::MAX,
                render_text(fb0, x0, y as int, text@, fg.0, bg.0, si) == render_text(
                    self@,
                    x as int,
                    y as int,
                    text@.subrange(i as int, text@.len() as int),
                    fg.0,
                    bg.0,
                    si,
                ),
                self@.len() == FB_LEN,
                self.driver_state() == old(self).driver_state(),
            ensures
                i == text@.len() || x + 5 * s >= 240,
            decreases text@.len() - i,
        {
            let ghost rest = text@.subrange(i as int, text@.len() as int);
            assert(rest[0] == text@[i as int]);
            assert(rest.drop_first() =~= text@.subrange(i + 1, text@.len() as int));
            if x + 5 * s >= crate::SCREEN_W {
                break;
            }
            let c = text[i];
            match char_to_glyph(c) {
                Some(idx) => {
                    x = self.draw_char_scaled_buf(x, y, idx, fg, bg, scale);
                },
                None => {
                    x = x.saturating_add(6 * s);
                },
            }
            i = i + 1;
        }
        x
    }

    /// Draws glyphs `digits[count - 1]`, ..., `digits[0]` one after the other
    /// from (`x`, `y`).
    fn draw_digit_run(&mut self, x: u16, y: u16, digits: &[u8; 10], count: usize, fg: Color, bg: Color) -> (x_end: u16)
        requires
            count <= 10,
            forall|i: int| 0 <= i < count ==> #[trigger] digits[i] < 10,
            x + 6 * count <= u16::MAX,
            count > 0 ==> y + 6 <= u16::MAX,
            old(self)@.len() == FB_LEN,
        ensures
            final(self)@ == render_glyphs(
                old(self)@,
                x as int,
                y as int,
                digits@.take(count as int).map_values(|d: u8| d as int).reverse(),
                fg.0,
                bg.0,
            ),
            x_end == x + 6 * count,
            final(self).driver_state() == old(self).driver_state(),
    {
        let ghost gs = digits@.take(count as int).map_values(|d: u8| d as int).reverse();
        let ghost fb0 = self@;
        let ghost x0 = x as int;
        let mut x = x;
        let mut j: usize = 0;
        assert(gs.skip(0) =~= gs);
        while j < count
            invariant
                0 <= j <= count <= 10,
                gs.len() == count,
                gs == digits@.take(count as int).map_values(|d: u8| d as int).reverse(),
                forall|i: int| 0 <= i < count ==> #[trigger] digits[i] < 10,
                x == x0 + 6 * j,
                x0 + 6 * count <= u16::MAX,
                count > 0 ==> y + 6 <= u16::MAX,
                render_glyphs(fb0, x0, y as int, gs, fg.0, bg.0) == render_glyphs(
                    self@,
                    x as int,
                    y as int,
                    gs.skip(j as int),
                    fg.0,
                    bg.0,
                ),
                self@.len() == FB_LEN,
                self.driver_state() == old(self).driver_state(),
            decreases count - j,
        {
            let d = digits[count - 1 - j];
            assert(gs.skip(j as int)[0] == d as int);
            assert(gs.skip(j as int).drop_first() =~= gs.skip(j + 1));
            x = self.draw_char_buf(x, y, d as usize, fg, bg);
            j = j + 1;
        }
        assert(gs.skip(count as int) =~= Seq::<int>::empty());
        x
    }

    /// Draws `val` in decimal from (`x`, `y`), most significant digit first.
    /// Returns the x after the last digit.
    pub fn draw_u32_buf(&mut self, x: u16, y: u16, val: u32, fg: Color, bg: Color) -> (x_end: u16)
        requires
            x + 6 * decimal_digits(val as nat).len() <= u16::MAX,
            y + 6 <= u16::MAX,
        ensures
            final(self)@ == render_glyphs(old(self)@, x as int, y as int, decimal_digits(val as nat), fg.0, bg.0),
            x_end == x + 6 * decimal_digits(val as nat).len(),
            final(self).driver_state() == old(self).driver_state(),
    {
        proof {
            lemma_digits_u32(val);
            self.lemma_frame_len();
        }
        let (chiffres, compte) = digits_of(val);
        assert forall|i: int| 0 <= i < compte implies #[trigger] chiffres[i] < 10 by {
            assert(digits_lsb(val as nat)[i] < 10);
        }
        assert(chiffres@.take(compte as int).map_values(|d: u8| d as int) =~= digits_lsb(val as nat));
        self.draw_digit_run(x, y, &chiffres, compte, fg, bg)
    }

    /// Draws `val` in decimal from (`x`, `y`), with a leading minus sign when
    /// negative. Returns the x after the last digit.
    pub fn draw_i16_buf(&mut self, x: u16, y: u16, val: i16, fg: Color, bg: Color) -> (x_end: u16)
        requires
            x + 6 * i16_glyphs(val).len() <= u16::MAX,
            y + 6 <= u16::MAX,
        ensures
            final(self)@ == render_glyphs(old(self)@, x as int, y as int, i16_glyphs(val), fg.0, bg.0),
            x_end == x + 6 * i16_glyphs(val).len(),
            final(self).driver_state() == old(self).driver_state(),
    {
        let ghost fb0 = self@;
        proof {
            self.lemma_frame_len();
        }
        let mut x = x;
        if val < 0 {
            x = self.draw_char_buf(x, y, GLYPH_MINUS, fg, bg);
        }
        let n: u32 = if val < 0 { (0 - (val as i32)) as u32 } else { val as u32 };
        proof {
            lemma_digits_u32(n);
        }
        let (chiffres, compte) = digits_of(n);
        assert forall|i: int| 0 <= i < compte implies #[trigger] chiffres[i] < 10 by {
            assert(digits_lsb(n as nat)[i] < 10);
        }
        assert(chiffres@.take(compte as int).map_values(|d: u8| d as int) =~= digits_lsb(n as nat));
        let x_end = self.draw_digit_run(x, y, &chiffres, compte, fg, bg);
        proof {
            let ds = decimal_digits(n as nat);
            if val < 0 {
                let gs = i16_glyphs(val);
                assert(gs[0] == GLYPH_MINUS as int);
                assert(gs.drop_first() =~= ds);
            }
        }
        x_end
    }
    /// A copy of `len` frame bytes from `start`.
    pub(crate) fn frame_bytes(&self, start: usize, len: usize) -> (v: Vec<u8>)
        requires
            start + len <= FB_LEN,
        ensures
            v@ == self@.subrange(start as int, start + len),
    {
        let mut v: Vec<u8> = Vec::new();
        let mut i: usize = 0;
        while i < len
            invariant
                i <= len,
                start + len <= FB_LEN,
                v@ =~= self@.subrange(start as int, start + i),
            decreases len - i,
        {
            v.push(self.fb[start + i]);
            i = i + 1;
            assert(v@ =~= self@.subrange(start as int, start + i));
        }
        v
    }
}

} // verus!
