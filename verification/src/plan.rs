//! The exact transfers that each drawing operation of the driver puts on
//! the bus. Each function computes the list of steps; performing them in
//! order (stopping at the first failed SPI write) is the operation.
use vstd::prelude::*;
use crate::bus::{
    as_data, cmd, data, lemma_same_stream_append, lemma_wire_append, lemma_wire_data, lemma_wire_single,
    level_after,
    ops_view, push_cmd, push_data, push_delay, push_op, push_write, same_stream, wire, BusOp, Op,
};
use crate::canvas::{color_byte, color_run, lemma_cell_of};
use crate::cmd::{
    CASET, COLMOD, DISPON, GCTRL, INVOFF, INVON, LCMCTRL, MADCTL, NORON, NVGAMCTRL, PORCTRL,
    PVGAMCTRL, PWCTRL1, RAMWR, RASET, SLPOUT, SWRESET, VCOMS, VDVS, VDVVRHEN, VRHS, FRCTRL2,
};
use crate::buffered::{
    glyph_cell, glyph_cells, lemma_render_text_keeps_left, lemma_scale_one_is_plain, render_text,
    text_draws_glyph, St7789vBuffered,
};
use crate::canvas::{
    byte_index, lemma_fill_screen_uniform, lemma_index_of_coords, lemma_paint_agree, on_screen, paint,
    pixel_x, rect, FB_LEN,
};
use crate::color::{hi_byte, lo_byte, Color};
use crate::digits::{
    decimal_digits, digits_lsb, digits_of, digits_value, i16_glyphs, lemma_decimal_digits_no_leading_zero,
    lemma_decimal_digits_value, lemma_digits_u32,
};
use vstd::arithmetic::power2::{lemma2_to64, pow2};
use crate::font::{
    char_to_glyph, fold_case, fold_text, glyph_of, glyph_on, glyph_pixel, lemma_font_case_insensitive,
    GLYPH_COUNT, GLYPH_MINUS, GLYPH_POINT,
};

verus! {

/// A 16-bit value as two bytes, most significant first.
pub open spec fn be16(v: u16) -> Seq<u8> {
    seq![hi_byte(v), lo_byte(v)]
}

/// Selects the pixel window (`x0`, `y0`) to (`x1`, `y1`) for the next
/// memory write: column range, then row range.
pub open spec fn window(x0: u16, y0: u16, x1: u16, y1: u16) -> Seq<Op> {
    cmd(CASET) + data(be16(x0) + be16(x1)) + cmd(RASET) + data(be16(y0) + be16(y1))
}

/// `v`, or `m` where `v` is larger.
pub open spec fn clamp(v: u16, m: u16) -> u16 {
    if v < m {
        v
    } else {
        m
    }
}

/// `n` pixels of colour `c` sent in blocks of at most 64 pixels.
pub open spec fn fill_chunks(n: nat, c: u16) -> Seq<Op>
    decreases n,
{
    if n == 0 {
        Seq::empty()
    } else {
        let b: nat = if n < 64 {
            n
        } else {
            64
        };
        data(color_run(c, b)) + fill_chunks((n - b) as nat, c)
    }
}

/// Whether the rectangle, once clipped to the screen, is not reversed.
pub open spec fn fill_rect_ok(x0: u16, y0: u16, x1: u16, y1: u16) -> bool {
    clamp(x0, 239) <= clamp(x1, 239) && clamp(y0, 319) <= clamp(y1, 319)
}

/// Filling a rectangle: the corners are clipped to the screen, the window
/// is selected, memory write is started and all its pixels are sent.
pub open spec fn fill_rect_sequence(x0: u16, y0: u16, x1: u16, y1: u16, c: u16) -> Seq<Op> {
    let a0 = clamp(x0, 239);
    let b0 = clamp(y0, 319);
    let a1 = clamp(x1, 239);
    let b1 = clamp(y1, 319);
    window(a0, b0, a1, b1) + cmd(RAMWR) + fill_chunks(((a1 - a0 + 1) * (b1 - b0 + 1)) as nat, c)
}

/// The power-on sequence: hardware reset, software reset, wake-up, pixel
/// format RGB565, porch, gate, VCOM, LCM, VDV/VRH, 60 Hz frame rate, power,
/// portrait orientation, gamma curves, normal mode, inversion on, display on.
pub open spec fn init_sequence() -> Seq<Op> {
    seq![Op::RstLow, Op::DelayMs(10), Op::RstHigh, Op::DelayMs(120)] + cmd(SWRESET) + seq![
        Op::DelayMs(150),
    ] + cmd(SLPOUT) + seq![Op::DelayMs(10)] + cmd(COLMOD) + data(seq![0x55u8]) + cmd(PORCTRL)
        + data(seq![0x0Cu8, 0x0C, 0x00, 0x33, 0x33]) + cmd(GCTRL) + data(seq![0x35u8]) + cmd(VCOMS)
        + data(seq![0x19u8]) + cmd(LCMCTRL) + data(seq![0x2Cu8]) + cmd(VDVVRHEN) + data(
        seq![0x01u8, 0xFF],
    ) + cmd(VRHS) + data(seq![0x12u8]) + cmd(VDVS) + data(seq![0x20u8]) + cmd(FRCTRL2) + data(
        seq![0x0Fu8],
    ) + cmd(PWCTRL1) + data(seq![0xA4u8, 0xA1]) + cmd(MADCTL) + data(seq![0x00u8]) + cmd(
        PVGAMCTRL,
    ) + data(
        seq![0xD0u8, 0x04, 0x0D, 0x11, 0x13, 0x2B, 0x3F, 0x54, 0x4C, 0x18, 0x0D, 0x0B, 0x1F, 0x23],
    ) + cmd(NVGAMCTRL) + data(
        seq![0xD0u8, 0x04, 0x0C, 0x11, 0x13, 0x2C, 0x3F, 0x44, 0x51, 0x2F, 0x1F, 0x1F, 0x20, 0x23],
    ) + cmd(NORON) + cmd(INVON) + cmd(DISPON) + seq![Op::DelayMs(10)]
}

/// Appends the window selection.
fn push_window(ops: &mut Vec<BusOp>, x0: u16, y0: u16, x1: u16, y1: u16)
    ensures
        ops_view(final(ops)@) == ops_view(old(ops)@) + window(x0, y0, x1, y1),
{
    proof {
        assert forall|v: u16| (v >> 8) as u8 == #[trigger] hi_byte(v) && v as u8 == lo_byte(v) by {
            assert((v >> 8) as u8 == (v / 256) as u8 && v as u8 == (v % 256) as u8) by (bit_vector);
        }
    }
    push_cmd(ops, CASET);
    let xs: Vec<u8> = vec![(x0 >> 8) as u8, x0 as u8, (x1 >> 8) as u8, x1 as u8];
    assert(xs@ =~= be16(x0) + be16(x1));
    push_data(ops, xs);
    push_cmd(ops, RASET);
    let ys: Vec<u8> = vec![(y0 >> 8) as u8, y0 as u8, (y1 >> 8) as u8, y1 as u8];
    assert(ys@ =~= be16(y0) + be16(y1));
    push_data(ops, ys);
    assert(ops_view(final(ops)@) =~= ops_view(old(ops)@) + window(x0, y0, x1, y1));
}

/// The power-on initialisation of the panel.
pub fn init_ops() -> (ops: Vec<BusOp>)
    ensures
        ops_view(ops@) == init_sequence(),
{
    let mut ops: Vec<BusOp> = Vec::new();
    push_op(&mut ops, BusOp::RstLow);
    push_delay(&mut ops, 10);
    push_op(&mut ops, BusOp::RstHigh);
    push_delay(&mut ops, 120);
    push_cmd(&mut ops, SWRESET);
    push_delay(&mut ops, 150);
    push_cmd(&mut ops, SLPOUT);
    push_delay(&mut ops, 10);
    push_cmd(&mut ops, COLMOD);
    let d1: Vec<u8> = vec![0x55];
    assert(d1@ =~= seq![0x55u8]);
    push_data(&mut ops, d1);
    push_cmd(&mut ops, PORCTRL);
    let d2: Vec<u8> = vec![0x0C, 0x0C, 0x00, 0x33, 0x33];
    assert(d2@ =~= seq![0x0Cu8, 0x0C, 0x00, 0x33, 0x33]);
    push_data(&mut ops, d2);
    push_cmd(&mut ops, GCTRL);
    let d3: Vec<u8> = vec![0x35];
    assert(d3@ =~= seq![0x35u8]);
    push_data(&mut ops, d3);
    push_cmd(&mut ops, VCOMS);
    let d4: Vec<u8> = vec![0x19];
    assert(d4@ =~= seq![0x19u8]);
    push_data(&mut ops, d4);
    push_cmd(&mut ops, LCMCTRL);
    let d5: Vec<u8> = vec![0x2C];
    assert(d5@ =~= seq![0x2Cu8]);
    push_data(&mut ops, d5);
    push_cmd(&mut ops, VDVVRHEN);
    let d6: Vec<u8> = vec![0x01, 0xFF];
    assert(d6@ =~= seq![0x01u8, 0xFF]);
    push_data(&mut ops, d6);
    push_cmd(&mut ops, VRHS);
    let d7: Vec<u8> = vec![0x12];
    assert(d7@ =~= seq![0x12u8]);
    push_data(&mut ops, d7);
    push_cmd(&mut ops, VDVS);
    let d8: Vec<u8> = vec![0x20];
    assert(d8@ =~= seq![0x20u8]);
    push_data(&mut ops, d8);
    push_cmd(&mut ops, FRCTRL2);
    let d9: Vec<u8> = vec![0x0F];
    assert(d9@ =~= seq![0x0Fu8]);
    push_data(&mut ops, d9);
    push_cmd(&mut ops, PWCTRL1);
    let d10: Vec<u8> = vec![0xA4, 0xA1];
    assert(d10@ =~= seq![0xA4u8, 0xA1]);
    push_data(&mut ops, d10);
    push_cmd(&mut ops, MADCTL);
    let d11: Vec<u8> = vec![0x00];
    assert(d11@ =~= seq![0x00u8]);
    push_data(&mut ops, d11);
    push_cmd(&mut ops, PVGAMCTRL);
    let d12: Vec<u8> = vec![0xD0, 0x04, 0x0D, 0x11, 0x13, 0x2B, 0x3F, 0x54, 0x4C, 0x18, 0x0D, 0x0B, 0x1F, 0x23];
    assert(d12@ =~= seq![0xD0u8, 0x04, 0x0D, 0x11, 0x13, 0x2B, 0x3F, 0x54, 0x4C, 0x18, 0x0D, 0x0B, 0x1F, 0x23]);
    push_data(&mut ops, d12);
    push_cmd(&mut ops, NVGAMCTRL);
    let d13: Vec<u8> = vec![0xD0, 0x04, 0x0C, 0x11, 0x13, 0x2C, 0x3F, 0x44, 0x51, 0x2F, 0x1F, 0x1F, 0x20, 0x23];
    assert(d13@ =~= seq![0xD0u8, 0x04, 0x0C, 0x11, 0x13, 0x2C, 0x3F, 0x44, 0x51, 0x2F, 0x1F, 0x1F, 0x20, 0x23]);
    push_data(&mut ops, d13);
    push_cmd(&mut ops, NORON);
    push_cmd(&mut ops, INVON);
    push_cmd(&mut ops, DISPON);
    push_delay(&mut ops, 10);
    assert(ops_view(ops@) =~= init_sequence());
    ops
}

/// `k` pixels of colour `c`, two bytes each, in a new buffer.
fn color_bytes(c: Color, k: usize) -> (v: Vec<u8>)
    requires
        k <= 64,
    ensures
        v@ == color_run(c.0, k as nat),
{
    let bytes = c.to_be_bytes();
    let mut v: Vec<u8> = Vec::new();
    let mut i: usize = 0;
    while i < k
        invariant
            i <= k <= 64,
            bytes[0] == hi_byte(c.0),
            bytes[1] == lo_byte(c.0),
            v@ =~= color_run(c.0, i as nat),
        decreases k - i,
    {
        v.push(bytes[0]);
        v.push(bytes[1]);
        i = i + 1;
        assert(v@ =~= color_run(c.0, i as nat));
    }
    v
}

/// Appends the filling of a rectangle.
fn push_fill_rect(ops: &mut Vec<BusOp>, x0: u16, y0: u16, x1: u16, y1: u16, color: Color)
    requires
        fill_rect_ok(x0, y0, x1, y1),
    ensures
        ops_view(final(ops)@) == ops_view(old(ops)@) + fill_rect_sequence(x0, y0, x1, y1, color.0),
{
    let x0c: u16 = if x0 < 239 { x0 } else { 239 };
    let y0c: u16 = if y0 < 319 { y0 } else { 319 };
    let x1c: u16 = if x1 < 239 { x1 } else { 239 };
    let y1c: u16 = if y1 < 319 { y1 } else { 319 };
    push_window(ops, x0c, y0c, x1c, y1c);
    push_cmd(ops, RAMWR);
    let w: usize = (x1c - x0c + 1) as usize;
    let h: usize = (y1c - y0c + 1) as usize;
    assert(w * h <= 240 * 320) by (nonlinear_arith)
        requires w <= 240, h <= 320;
    let ghost total: nat = (w * h) as nat;
    let ghost head = ops_view(ops@);
    let mut restant: usize = w * h;
    assert(head =~= head + Seq::<Op>::empty());
    while restant > 0
        invariant
            ops_view(ops@) + fill_chunks(restant as nat, color.0) == head + fill_chunks(total, color.0),
        decreases restant,
    {
        let bloc: usize = if restant < 64 { restant } else { 64 };
        let ghost before = ops_view(ops@);
        let chunk = color_bytes(color, bloc);
        push_data(ops, chunk);
        assert(fill_chunks(restant as nat, color.0) == data(color_run(color.0, bloc as nat)) + fill_chunks(
            (restant - bloc) as nat,
            color.0,
        ));
        assert(ops_view(ops@) + fill_chunks((restant - bloc) as nat, color.0) =~= before + fill_chunks(
            restant as nat,
            color.0,
        ));
        restant = restant - bloc;
    }
    assert(ops_view(ops@) =~= ops_view(ops@) + fill_chunks(0, color.0));
    assert(ops_view(final(ops)@) =~= ops_view(old(ops)@) + fill_rect_sequence(x0, y0, x1, y1, color.0));
}

/// Filling the rectangle with corners (`x0`, `y0`) and (`x1`, `y1`), both
/// included; the corners are first clipped to the screen.
pub fn fill_rect_ops(x0: u16, y0: u16, x1: u16, y1: u16, color: Color) -> (ops: Vec<BusOp>)
    requires
        fill_rect_ok(x0, y0, x1, y1),
    ensures
        ops_view(ops@) == fill_rect_sequence(x0, y0, x1, y1, color.0),
{
    let mut ops: Vec<BusOp> = Vec::new();
    push_fill_rect(&mut ops, x0, y0, x1, y1, color);
    assert(ops_view(ops@) =~= Seq::<Op>::empty() + fill_rect_sequence(x0, y0, x1, y1, color.0));
    ops
}

/// Filling the whole 240x320 screen.
pub fn fill_screen_ops(color: Color) -> (ops: Vec<BusOp>)
    ensures
        ops_view(ops@) == fill_rect_sequence(0, 0, 239, 319, color.0),
{
    fill_rect_ops(0, 0, crate::SCREEN_W - 1, crate::SCREEN_H - 1, color)
}

/// Drawing one pixel: nothing off the screen; else a one-pixel window and
/// the colour's two bytes.
pub open spec fn pixel_sequence(x: u16, y: u16, c: u16) -> Seq<Op> {
    if x >= 240 || y >= 320 {
        Seq::empty()
    } else {
        window(x, y, x, y) + cmd(RAMWR) + data(be16(c))
    }
}

/// Drawing the pixel (`x`, `y`); off-screen coordinates are ignored.
pub fn draw_pixel_ops(x: u16, y: u16, color: Color) -> (ops: Vec<BusOp>)
    ensures
        ops_view(ops@) == pixel_sequence(x, y, color.0),
{
    let mut ops: Vec<BusOp> = Vec::new();
    if x >= crate::SCREEN_W || y >= crate::SCREEN_H {
        assert(ops_view(ops@) =~= Seq::<Op>::empty());
        return ops;
    }
    push_window(&mut ops, x, y, x, y);
    push_cmd(&mut ops, RAMWR);
    let bytes = color.to_be_bytes();
    let d: Vec<u8> = vec![bytes[0], bytes[1]];
    assert(d@ =~= be16(color.0));
    push_data(&mut ops, d);
    assert(ops_view(ops@) =~= pixel_sequence(x, y, color.0));
    ops
}

/// Whether a line of length `len` from `start` on an axis whose last
/// coordinate is `last` can be drawn: off-screen and zero-length lines are
/// skipped, and the far end of an on-screen one stays within `u16`.
pub open spec fn line_ok(start: u16, other_on_screen: bool, len: u16, last: u16) -> bool {
    (start <= last && other_on_screen && len > 0) ==> start + len <= u16::MAX
}

/// Drawing a horizontal line of `w` pixels from (`x`, `y`), clipped at the
/// right edge; nothing when (`x`, `y`) is off the screen or `w` is zero.
pub open spec fn hline_sequence(x: u16, y: u16, w: u16, c: u16) -> Seq<Op> {
    if y >= 320 || x >= 240 || w == 0 {
        Seq::empty()
    } else {
        fill_rect_sequence(x, y, clamp((x + w - 1) as u16, 239), y, c)
    }
}

/// Drawing a vertical line of `h` pixels from (`x`, `y`), clipped at the
/// bottom edge; nothing when (`x`, `y`) is off the screen or `h` is zero.
pub open spec fn vline_sequence(x: u16, y: u16, h: u16, c: u16) -> Seq<Op> {
    if x >= 240 || y >= 320 || h == 0 {
        Seq::empty()
    } else {
        fill_rect_sequence(x, y, x, clamp((y + h - 1) as u16, 319), c)
    }
}

fn push_hline(ops: &mut Vec<BusOp>, x: u16, y: u16, w: u16, color: Color)
    requires
        line_ok(x, y < 320, w, 239),
    ensures
        ops_view(final(ops)@) == ops_view(old(ops)@) + hline_sequence(x, y, w, color.0),
{
    if y >= crate::SCREEN_H || x >= crate::SCREEN_W || w == 0 {
        assert(ops_view(ops@) =~= ops_view(ops@) + Seq::<Op>::empty());
        return;
    }
    let e: u16 = x + w - 1;
    let x1: u16 = if e < 239 { e } else { 239 };
    push_fill_rect(ops, x, y, x1, y, color);
}

fn push_vline(ops: &mut Vec<BusOp>, x: u16, y: u16, h: u16, color: Color)
    requires
        line_ok(y, x < 240, h, 319),
    ensures
        ops_view(final(ops)@) == ops_view(old(ops)@) + vline_sequence(x, y, h, color.0),
{
    if x >= crate::SCREEN_W || y >= crate::SCREEN_H || h == 0 {
        assert(ops_view(ops@) =~= ops_view(ops@) + Seq::<Op>::empty());
        return;
    }
    let e: u16 = y + h - 1;
    let y1: u16 = if e < 319 { e } else { 319 };
    push_fill_rect(ops, x, y, x, y1, color);
}

/// Drawing a horizontal line of `w` pixels from (`x`, `y`).
pub fn draw_hline_ops(x: u16, y: u16, w: u16, color: Color) -> (ops: Vec<BusOp>)
    requires
        line_ok(x, y < 320, w, 239),
    ensures
        ops_view(ops@) == hline_sequence(x, y, w, color.0),
{
    let mut ops: Vec<BusOp> = Vec::new();
    push_hline(&mut ops, x, y, w, color);
    assert(ops_view(ops@) =~= Seq::<Op>::empty() + hline_sequence(x, y, w, color.0));
    ops
}

/// Drawing a vertical line of `h` pixels from (`x`, `y`).
pub fn draw_vline_ops(x: u16, y: u16, h: u16, color: Color) -> (ops: Vec<BusOp>)
    requires
        line_ok(y, x < 240, h, 319),
    ensures
        ops_view(ops@) == vline_sequence(x, y, h, color.0),
{
    let mut ops: Vec<BusOp> = Vec::new();
    push_vline(&mut ops, x, y, h, color);
    assert(ops_view(ops@) =~= Seq::<Op>::empty() + vline_sequence(x, y, h, color.0));
    ops
}

/// `b - a`, or zero when `a` is larger.
pub open spec fn sat_sub(b: u16, a: u16) -> u16 {
    if b >= a {
        (b - a) as u16
    } else {
        0
    }
}

/// Whether the outline with corners (`x0`, `y0`) and (`x1`, `y1`) can be
/// drawn: its side lengths fit in `u16` and each of its four lines can.
pub open spec fn rect_ok(x0: u16, y0: u16, x1: u16, y1: u16) -> bool {
    let w = sat_sub(x1, x0) + 1;
    let h = sat_sub(y1, y0) + 1;
    &&& w <= u16::MAX
    &&& h <= u16::MAX
    &&& line_ok(x0, y0 < 320, w as u16, 239)
    &&& line_ok(x0, y1 < 320, w as u16, 239)
    &&& line_ok(y0, x0 < 240, h as u16, 319)
    &&& line_ok(y0, x1 < 240, h as u16, 319)
}

/// Drawing the outline with corners (`x0`, `y0`) and (`x1`, `y1`): top
/// line, bottom line, left line, right line.
pub open spec fn rect_sequence(x0: u16, y0: u16, x1: u16, y1: u16, c: u16) -> Seq<Op> {
    let w = (sat_sub(x1, x0) + 1) as u16;
    let h = (sat_sub(y1, y0) + 1) as u16;
    hline_sequence(x0, y0, w, c) + hline_sequence(x0, y1, w, c) + vline_sequence(x0, y0, h, c)
        + vline_sequence(x1, y0, h, c)
}

/// Drawing the outline of the rectangle with corners (`x0`, `y0`) and (`x1`, `y1`).
pub fn draw_rect_ops(x0: u16, y0: u16, x1: u16, y1: u16, color: Color) -> (ops: Vec<BusOp>)
    requires
        rect_ok(x0, y0, x1, y1),
    ensures
        ops_view(ops@) == rect_sequence(x0, y0, x1, y1, color.0),
{
    let w: u16 = x1.saturating_sub(x0) + 1;
    let h: u16 = y1.saturating_sub(y0) + 1;
    let mut ops: Vec<BusOp> = Vec::new();
    push_hline(&mut ops, x0, y0, w, color);
    push_hline(&mut ops, x0, y1, w, color);
    push_vline(&mut ops, x0, y0, h, color);
    push_vline(&mut ops, x1, y0, h, color);
    assert(ops_view(ops@) =~= rect_sequence(x0, y0, x1, y1, color.0));
    ops
}

/// Selecting the orientation register (`MADCTL`): 0x00 portrait, 0x60
/// landscape, 0xC0 portrait upside down, 0xA0 landscape upside down.
pub fn set_orientation_ops(madctl: u8) -> (ops: Vec<BusOp>)
    ensures
        ops_view(ops@) == cmd(MADCTL) + data(seq![madctl]),
{
    let mut ops: Vec<BusOp> = Vec::new();
    push_cmd(&mut ops, MADCTL);
    let d: Vec<u8> = vec![madctl];
    assert(d@ =~= seq![madctl]);
    push_data(&mut ops, d);
    assert(ops_view(ops@) =~= cmd(MADCTL) + data(seq![madctl]));
    ops
}

/// Switching colour inversion on or off.
pub fn set_invert_ops(invert: bool) -> (ops: Vec<BusOp>)
    ensures
        ops_view(ops@) == cmd(if invert { INVON } else { INVOFF }),
{
    let mut ops: Vec<BusOp> = Vec::new();
    if invert {
        push_cmd(&mut ops, INVON);
    } else {
        push_cmd(&mut ops, INVOFF);
    }
    assert(ops_view(ops@) =~= cmd(if invert { INVON } else { INVOFF }));
    ops
}

/// The 70 bytes of a 5x7 glyph cell, row by row from the top, each row
/// left to right: `fg` where the glyph is lit, `bg` elsewhere.
pub open spec fn glyph_bytes(g: int, fg: u16, bg: u16) -> Seq<u8> {
    Seq::new(
        70,
        |i: int|
            color_byte(
                if glyph_pixel(g, (i / 2) % 5, (i / 2) / 5) {
                    fg
                } else {
                    bg
                },
                i,
            ),
    )
}

/// Drawing one glyph: a window from (`x`, `y`) over the 5x7 cell (its far
/// corner clipped to the screen) and the cell's 70 bytes in one write.
pub open spec fn char_sequence(x: u16, y: u16, g: int, fg: u16, bg: u16) -> Seq<Op> {
    window(x, y, clamp((x + 4) as u16, 239), clamp((y + 6) as u16, 319)) + cmd(RAMWR) + data(
        glyph_bytes(g, fg, bg),
    )
}

/// Drawing glyphs `gs` one after the other from (`x`, `y`), six columns apart.
pub open spec fn glyphs_sequence(x: u16, y: u16, gs: Seq<int>, fg: u16, bg: u16) -> Seq<Op>
    decreases gs.len(),
{
    if gs.len() == 0 {
        Seq::empty()
    } else {
        char_sequence(x, y, gs[0], fg, bg) + glyphs_sequence((x + 6) as u16, y, gs.drop_first(), fg, bg)
    }
}

fn push_char(ops: &mut Vec<BusOp>, x: u16, y: u16, glyph_idx: usize, fg: Color, bg: Color) -> (x_next: u16)
    requires
        glyph_idx < GLYPH_COUNT,
        x + 6 <= u16::MAX,
        y + 6 <= u16::MAX,
    ensures
        ops_view(final(ops)@) == ops_view(old(ops)@) + char_sequence(x, y, glyph_idx as int, fg.0, bg.0),
        x_next == x + 6,
{
    let e: u16 = x + 4;
    let x1: u16 = if e < 239 { e } else { 239 };
    let f: u16 = y + 6;
    let y1: u16 = if f < 319 { f } else { 319 };
    push_window(ops, x, y, x1, y1);
    push_cmd(ops, RAMWR);
    let fb = fg.to_be_bytes();
    let bb = bg.to_be_bytes();
    let ghost gb = glyph_bytes(glyph_idx as int, fg.0, bg.0);
    let mut buf: Vec<u8> = Vec::new();
    let mut ligne: usize = 0;
    while ligne < 7
        invariant
            ligne <= 7,
            glyph_idx < GLYPH_COUNT,
            fb[0] == hi_byte(fg.0) && fb[1] == lo_byte(fg.0),
            bb[0] == hi_byte(bg.0) && bb[1] == lo_byte(bg.0),
            gb == glyph_bytes(glyph_idx as int, fg.0, bg.0),
            buf@ =~= gb.take(10 * ligne),
        decreases 7 - ligne,
    {
        let mut col: usize = 0;
        while col < 5
            invariant
                ligne < 7,
                col <= 5,
                glyph_idx < GLYPH_COUNT,
                fb[0] == hi_byte(fg.0) && fb[1] == lo_byte(fg.0),
                bb[0] == hi_byte(bg.0) && bb[1] == lo_byte(bg.0),
                gb == glyph_bytes(glyph_idx as int, fg.0, bg.0),
                buf@ =~= gb.take(10 * ligne + 2 * col),
            decreases 5 - col,
        {
            let allume = glyph_on(glyph_idx, col, ligne);
            if allume {
                buf.push(fb[0]);
                buf.push(fb[1]);
            } else {
                buf.push(bb[0]);
                buf.push(bb[1]);
            }
            assert(buf@ =~= gb.take(10 * ligne + 2 * col + 2));
            col = col + 1;
        }
        ligne = ligne + 1;
    }
    assert(buf@ =~= gb);
    push_data(ops, buf);
    assert(ops_view(final(ops)@) =~= ops_view(old(ops)@) + char_sequence(x, y, glyph_idx as int, fg.0, bg.0));
    x + 6
}

/// Drawing glyph `glyph_idx` at (`x`, `y`). Returns `x + 6`, the x of the
/// next character cell.
pub fn draw_char_ops(x: u16, y: u16, glyph_idx: usize, fg: Color, bg: Color) -> (r: (Vec<BusOp>, u16))
    requires
        glyph_idx < GLYPH_COUNT,
        x + 6 <= u16::MAX,
        y + 6 <= u16::MAX,
    ensures
        ops_view(r.0@) == char_sequence(x, y, glyph_idx as int, fg.0, bg.0),
        r.1 == x + 6,
{
    let mut ops: Vec<BusOp> = Vec::new();
    let x_next = push_char(&mut ops, x, y, glyph_idx, fg, bg);
    assert(ops_view(ops@) =~= Seq::<Op>::empty() + char_sequence(x, y, glyph_idx as int, fg.0, bg.0));
    (ops, x_next)
}

/// Drawing text from (`x`, `y`) glyph by glyph, six columns per byte, and
/// the x after the last character; bytes without a glyph only advance, and
/// drawing stops before a character whose glyph would reach the right edge.
pub open spec fn text_sequence(x: u16, y: u16, text: Seq<u8>, fg: u16, bg: u16) -> (Seq<Op>, u16)
    decreases text.len(),
{
    if text.len() == 0 || x + 5 >= 240 {
        (Seq::empty(), x)
    } else {
        let head = match glyph_of(text[0]) {
            Some(g) => char_sequence(x, y, g as int, fg, bg),
            None => Seq::empty(),
        };
        let rest = text_sequence((x + 6) as u16, y, text.drop_first(), fg, bg);
        (head + rest.0, rest.1)
    }
}

/// Drawing `text` from (`x`, `y`). Returns the x after the last character.
pub fn draw_str_ops(x: u16, y: u16, text: &[u8], fg: Color, bg: Color) -> (r: (Vec<BusOp>, u16))
    requires
        text@.len() > 0 ==> x + 5 <= u16::MAX,
        text_draws_glyph(x as int, text@, 1) ==> y + 6 <= u16::MAX,
    ensures
        ops_view(r.0@) == text_sequence(x, y, text@, fg.0, bg.0).0,
        r.1 == text_sequence(x, y, text@, fg.0, bg.0).1,
{
    let mut ops: Vec<BusOp> = Vec::new();
    let ghost x0 = x;
    let mut x = x;
    let mut i: usize = 0;
    assert(text@.subrange(0, text@.len() as int) =~= text@);
    assert(ops_view(ops@) =~= Seq::<Op>::empty());
    while i < text.len()
        invariant
            0 <= i <= text@.len(),
            x == x0 || x + 5 < 240 + 6,
            i == 0 ==> x == x0,
            text@.len() > 0 ==> x0 + 5 <= u16::MAX,
            text_draws_glyph(x as int, text@.subrange(i as int, text@.len() as int), 1) ==> y + 6 <= u16::MAX,
            text_sequence(x0, y, text@, fg.0, bg.0).0 == ops_view(ops@) + text_sequence(
                x,
                y,
                text@.subrange(i as int, text@.len() as int),
                fg.0,
                bg.0,
            ).0,
            text_sequence(x0, y, text@, fg.0, bg.0).1 == text_sequence(
                x,
                y,
                text@.subrange(i as int, text@.len() as int),
                fg.0,
                bg.0,
            ).1,
        ensures
            i == text@.len() || x + 5 >= 240,
        decreases text@.len() - i,
    {
        let ghost rest = text@.subrange(i as int, text@.len() as int);
        let ghost before = ops_view(ops@);
        assert(rest[0] == text@[i as int]);
        assert(rest.drop_first() =~= text@.subrange(i + 1, text@.len() as int));
        if x + 5 >= crate::SCREEN_W {
            break;
        }
        let c = text[i];
        match char_to_glyph(c) {
            Some(idx) => {
                x = push_char(&mut ops, x, y, idx, fg, bg);
            },
            None => {
                x = x.saturating_add(6);
                assert(ops_view(ops@) =~= before + Seq::<Op>::empty());
            },
        }
        let ghost tail = text_sequence(x, y, text@.subrange(i + 1, text@.len() as int), fg.0, bg.0).0;
        assert(before + text_sequence((x - 6) as u16, y, rest, fg.0, bg.0).0 =~= ops_view(ops@) + tail);
        i = i + 1;
    }
    assert(text@.subrange(i as int, text@.len() as int).len() == 0 || x + 5 >= 240);
    assert(ops_view(ops@) =~= ops_view(ops@) + Seq::<Op>::empty());
    (ops, x)
}

/// Appends glyphs `digits[count - 1]`, ..., `digits[0]` from (`x`, `y`).
fn push_digit_run(ops: &mut Vec<BusOp>, x: u16, y: u16, digits: &[u8; 10], count: usize, fg: Color, bg: Color) -> (x_end: u16)
    requires
        count <= 10,
        forall|i: int| 0 <= i < count ==> #[trigger] digits[i] < GLYPH_COUNT,
        x + 6 * count <= u16::MAX,
        count > 0 ==> y + 6 <= u16::MAX,
    ensures
        ops_view(final(ops)@) == ops_view(old(ops)@) + glyphs_sequence(
            x,
            y,
            digits@.take(count as int).map_values(|d: u8| d as int).reverse(),
            fg.0,
            bg.0,
        ),
        x_end == x + 6 * count,
{
    let ghost gs = digits@.take(count as int).map_values(|d: u8| d as int).reverse();
    let ghost head = ops_view(ops@);
    let ghost x0 = x;
    let mut x = x;
    let mut j: usize = 0;
    assert(gs.skip(0) =~= gs);
    assert(head =~= head + Seq::<Op>::empty());
    while j < count
        invariant
            0 <= j <= count <= 10,
            gs.len() == count,
            gs == digits@.take(count as int).map_values(|d: u8| d as int).reverse(),
            forall|i: int| 0 <= i < count ==> #[trigger] digits[i] < GLYPH_COUNT,
            x == x0 + 6 * j,
            x0 + 6 * count <= u16::MAX,
            count > 0 ==> y + 6 <= u16::MAX,
            head + glyphs_sequence(x0, y, gs, fg.0, bg.0) == ops_view(ops@) + glyphs_sequence(
                x,
                y,
                gs.skip(j as int),
                fg.0,
                bg.0,
            ),
        decreases count - j,
    {
        let d = digits[count - 1 - j];
        let ghost before = ops_view(ops@);
        assert(gs.skip(j as int)[0] == d as int);
        assert(gs.skip(j as int).drop_first() =~= gs.skip(j + 1));
        x = push_char(ops, x, y, d as usize, fg, bg);
        assert(before + glyphs_sequence((x - 6) as u16, y, gs.skip(j as int), fg.0, bg.0) =~= ops_view(ops@)
            + glyphs_sequence(x, y, gs.skip(j + 1), fg.0, bg.0));
        j = j + 1;
    }
    assert(gs.skip(count as int) =~= Seq::<int>::empty());
    assert(ops_view(ops@) =~= ops_view(ops@) + Seq::<Op>::empty());
    x
}

/// Appends glyphs `glyphs[0]`, ..., `glyphs[len - 1]` from (`x`, `y`).
fn push_glyphs(ops: &mut Vec<BusOp>, x: u16, y: u16, glyphs: &[u8], fg: Color, bg: Color) -> (x_end: u16)
    requires
        forall|i: int| 0 <= i < glyphs@.len() ==> #[trigger] glyphs@[i] < GLYPH_COUNT,
        x + 6 * glyphs@.len() <= u16::MAX,
        glyphs@.len() > 0 ==> y + 6 <= u16::MAX,
    ensures
        ops_view(final(ops)@) == ops_view(old(ops)@) + glyphs_sequence(
            x,
            y,
            glyphs@.map_values(|d: u8| d as int),
            fg.0,
            bg.0,
        ),
        x_end == x + 6 * glyphs@.len(),
{
    let ghost gs = glyphs@.map_values(|d: u8| d as int);
    let ghost head = ops_view(ops@);
    let ghost x0 = x;
    let mut x = x;
    let mut j: usize = 0;
    assert(gs.skip(0) =~= gs);
    assert(head =~= head + Seq::<Op>::empty());
    while j < glyphs.len()
        invariant
            0 <= j <= glyphs@.len(),
            gs == glyphs@.map_values(|d: u8| d as int),
            forall|i: int| 0 <= i < glyphs@.len() ==> #[trigger] glyphs@[i] < GLYPH_COUNT,
            x == x0 + 6 * j,
            x0 + 6 * glyphs@.len() <= u16::MAX,
            glyphs@.len() > 0 ==> y + 6 <= u16::MAX,
            head + glyphs_sequence(x0, y, gs, fg.0, bg.0) == ops_view(ops@) + glyphs_sequence(
                x,
                y,
                gs.skip(j as int),
                fg.0,
                bg.0,
            ),
        decreases glyphs@.len() - j,
    {
        let d = glyphs[j];
        let ghost before = ops_view(ops@);
        assert(gs.skip(j as int)[0] == d as int);
        assert(gs.skip(j as int).drop_first() =~= gs.skip(j + 1));
        x = push_char(ops, x, y, d as usize, fg, bg);
        assert(before + glyphs_sequence((x - 6) as u16, y, gs.skip(j as int), fg.0, bg.0) =~= ops_view(ops@)
            + glyphs_sequence(x, y, gs.skip(j + 1), fg.0, bg.0));
        j = j + 1;
    }
    assert(gs.skip(glyphs@.len() as int) =~= Seq::<int>::empty());
    assert(ops_view(ops@) =~= ops_view(ops@) + Seq::<Op>::empty());
    x
}

/// Drawing `val` in decimal from (`x`, `y`), most significant digit first.
/// Returns the x after the last digit.
pub fn draw_u32_ops(x: u16, y: u16, val: u32, fg: Color, bg: Color) -> (r: (Vec<BusOp>, u16))
    requires
        x + 6 * decimal_digits(val as nat).len() <= u16::MAX,
        y + 6 <= u16::MAX,
    ensures
        ops_view(r.0@) == glyphs_sequence(x, y, decimal_digits(val as nat), fg.0, bg.0),
        r.1 == x + 6 * decimal_digits(val as nat).len(),
{
    proof {
        lemma_digits_u32(val);
    }
    let (chiffres, compte) = digits_of(val);
    assert forall|i: int| 0 <= i < compte implies #[trigger] chiffres[i] < GLYPH_COUNT by {
        assert(digits_lsb(val as nat)[i] < 10);
    }
    assert(chiffres@.take(compte as int).map_values(|d: u8| d as int) =~= digits_lsb(val as nat));
    let mut ops: Vec<BusOp> = Vec::new();
    let x_end = push_digit_run(&mut ops, x, y, &chiffres, compte, fg, bg);
    assert(ops_view(ops@) =~= Seq::<Op>::empty() + glyphs_sequence(x, y, decimal_digits(val as nat), fg.0, bg.0));
    (ops, x_end)
}

/// Drawing `val` in decimal from (`x`, `y`), with a leading minus sign when
/// negative. Returns the x after the last digit.
pub fn draw_i16_ops(x: u16, y: u16, val: i16, fg: Color, bg: Color) -> (r: (Vec<BusOp>, u16))
    requires
        x + 6 * i16_glyphs(val).len() <= u16::MAX,
        y + 6 <= u16::MAX,
    ensures
        ops_view(r.0@) == glyphs_sequence(x, y, i16_glyphs(val), fg.0, bg.0),
        r.1 == x + 6 * i16_glyphs(val).len(),
{
    let mut ops: Vec<BusOp> = Vec::new();
    let mut x = x;
    let ghost x0 = x;
    if val < 0 {
        x = push_char(&mut ops, x, y, GLYPH_MINUS, fg, bg);
    }
    let n: u32 = if val < 0 { (0 - (val as i32)) as u32 } else { val as u32 };
    proof {
        lemma_digits_u32(n);
    }
    let (chiffres, compte) = digits_of(n);
    assert forall|i: int| 0 <= i < compte implies #[trigger] chiffres[i] < GLYPH_COUNT by {
        assert(digits_lsb(n as nat)[i] < 10);
    }
    assert(chiffres@.take(compte as int).map_values(|d: u8| d as int) =~= digits_lsb(n as nat));
    let x_end = push_digit_run(&mut ops, x, y, &chiffres, compte, fg, bg);
    proof {
        let ds = decimal_digits(n as nat);
        let gs = i16_glyphs(val);
        if val < 0 {
            assert(gs[0] == GLYPH_MINUS as int);
            assert(gs.drop_first() =~= ds);
            assert(ops_view(ops@) =~= glyphs_sequence(x0, y, gs, fg.0, bg.0));
        } else {
            assert(ops_view(ops@) =~= glyphs_sequence(x0, y, gs, fg.0, bg.0));
        }
    }
    (ops, x_end)
}

/// The glyphs that print a decimal number from its parts: a minus sign when
/// `negative`, the digits of `int_part`, then, when `frac` is not empty, a
/// decimal point and the glyphs of `frac`.
pub open spec fn decimal_glyphs(negative: bool, int_part: u32, frac: Seq<u8>) -> Seq<int> {
    (if negative {
        seq![GLYPH_MINUS as int]
    } else {
        Seq::empty()
    }) + decimal_digits(int_part as nat) + (if frac.len() > 0 {
        seq![GLYPH_POINT as int] + frac.map_values(|d: u8| d as int)
    } else {
        Seq::empty()
    })
}

/// Drawing a decimal number given by its parts (see [`decimal_glyphs`]):
/// the sign, the integer part, then the point and the fraction glyphs.
/// Returns the x after the last character.
pub fn draw_decimal_ops(
    x: u16,
    y: u16,
    negative: bool,
    int_part: u32,
    frac: &[u8],
    fg: Color,
    bg: Color,
) -> (r: (Vec<BusOp>, u16))
    requires
        forall|i: int| 0 <= i < frac@.len() ==> #[trigger] frac@[i] < GLYPH_COUNT,
        x + 6 * decimal_glyphs(negative, int_part, frac@).len() <= u16::MAX,
        y + 6 <= u16::MAX,
    ensures
        ops_view(r.0@) == glyphs_sequence(x, y, decimal_glyphs(negative, int_part, frac@), fg.0, bg.0),
        r.1 == x + 6 * decimal_glyphs(negative, int_part, frac@).len(),
{
    let mut ops: Vec<BusOp> = Vec::new();
    let mut x = x;
    let ghost x0 = x;
    let ghost neg_g: Seq<int> = if negative { seq![GLYPH_MINUS as int] } else { Seq::empty() };
    let ghost int_g = decimal_digits(int_part as nat);
    let ghost frac_g: Seq<int> = if frac@.len() > 0 {
        seq![GLYPH_POINT as int] + frac@.map_values(|d: u8| d as int)
    } else {
        Seq::empty()
    };
    proof {
        lemma_glyphs_sequence_append(x0, y, neg_g, int_g + frac_g, fg.0, bg.0);
        lemma_glyphs_sequence_append((x0 + 6 * neg_g.len()) as u16, y, int_g, frac_g, fg.0, bg.0);
        assert(decimal_glyphs(negative, int_part, frac@) =~= neg_g + (int_g + frac_g));
    }
    if negative {
        x = push_char(&mut ops, x, y, GLYPH_MINUS, fg, bg);
        assert(neg_g.drop_first() =~= Seq::<int>::empty());
        assert(glyphs_sequence((x0 + 6) as u16, y, neg_g.drop_first(), fg.0, bg.0) == Seq::<Op>::empty());
        assert(glyphs_sequence(x0, y, neg_g, fg.0, bg.0) =~= char_sequence(x0, y, GLYPH_MINUS as int, fg.0, bg.0) + Seq::<Op>::empty());
    }
    assert(ops_view(ops@) =~= glyphs_sequence(x0, y, neg_g, fg.0, bg.0));
    proof {
        lemma_digits_u32(int_part);
    }
    let (chiffres, compte) = digits_of(int_part);
    assert forall|i: int| 0 <= i < compte implies #[trigger] chiffres[i] < GLYPH_COUNT by {
        assert(digits_lsb(int_part as nat)[i] < 10);
    }
    assert(chiffres@.take(compte as int).map_values(|d: u8| d as int) =~= digits_lsb(int_part as nat));
    x = push_digit_run(&mut ops, x, y, &chiffres, compte, fg, bg);
    let ghost mid = ops_view(ops@);
    if frac.len() > 0 {
        x = push_char(&mut ops, x, y, GLYPH_POINT, fg, bg);
        x = push_glyphs(&mut ops, x, y, frac, fg, bg);
        proof {
            let xp = (x0 + 6 * neg_g.len() + 6 * int_g.len()) as u16;
            assert(frac_g[0] == GLYPH_POINT as int);
            assert(frac_g.drop_first() =~= frac@.map_values(|d: u8| d as int));
            assert(ops_view(ops@) =~= mid + glyphs_sequence(xp, y, frac_g, fg.0, bg.0));
        }
    } else {
        assert(ops_view(ops@) =~= mid + Seq::<Op>::empty());
    }
    (ops, x)
}

/// Drawing glyphs one run after another is drawing the joined run.
pub proof fn lemma_glyphs_sequence_append(x: u16, y: u16, a: Seq<int>, b: Seq<int>, fg: u16, bg: u16)
    requires
        x + 6 * a.len() <= u16::MAX,
    ensures
        glyphs_sequence(x, y, a + b, fg, bg) == glyphs_sequence(x, y, a, fg, bg) + glyphs_sequence(
            (x + 6 * a.len()) as u16,
            y,
            b,
            fg,
            bg,
        ),
    decreases a.len(),
{
    if a.len() == 0 {
        assert(a + b =~= b);
        assert(glyphs_sequence(x, y, a + b, fg, bg) =~= Seq::<Op>::empty() + glyphs_sequence(x, y, b, fg, bg));
    } else {
        assert((a + b).drop_first() =~= a.drop_first() + b);
        assert((a + b)[0] == a[0]);
        lemma_glyphs_sequence_append((x + 6) as u16, y, a.drop_first(), b, fg, bg);
        assert(glyphs_sequence(x, y, a + b, fg, bg) =~= glyphs_sequence(x, y, a, fg, bg) + glyphs_sequence(
            (x + 6 * a.len()) as u16,
            y,
            b,
            fg,
            bg,
        ));
    }
}

/// One row of a glyph enlarged `s` times: the `5 * s` pixels of font row
/// `ligne`, `fg` where lit and `bg` elsewhere, two bytes each.
pub open spec fn row_bytes(g: int, ligne: int, fg: u16, bg: u16, s: int) -> Seq<u8> {
    Seq::new(
        (10 * s) as nat,
        |i: int|
            color_byte(
                if glyph_pixel(g, (i / 2) / s, ligne) {
                    fg
                } else {
                    bg
                },
                i,
            ),
    )
}

/// The same bytes sent `k` times.
pub open spec fn repeat_data(d: Seq<u8>, k: nat) -> Seq<Op>
    decreases k,
{
    if k == 0 {
        Seq::empty()
    } else {
        repeat_data(d, (k - 1) as nat) + data(d)
    }
}

/// The first `n` font rows of a glyph enlarged `s` times, each row sent `s` times.
pub open spec fn scaled_rows(g: int, fg: u16, bg: u16, s: int, n: nat) -> Seq<Op>
    decreases n,
{
    if n == 0 {
        Seq::empty()
    } else {
        scaled_rows(g, fg, bg, s, (n - 1) as nat) + repeat_data(row_bytes(g, n - 1, fg, bg, s), s as nat)
    }
}

/// Drawing a glyph enlarged `s` times: nothing for a zero scale; else a
/// window over the `5s` x `7s` cell (its far corner clipped to the screen)
/// and the seven font rows, each sent `s` times.
pub open spec fn char_scaled_sequence(x: u16, y: u16, g: int, fg: u16, bg: u16, s: u8) -> Seq<Op> {
    if s == 0 {
        Seq::empty()
    } else {
        window(
            x,
            y,
            clamp((x + 5 * s - 1) as u16, 239),
            clamp((y + 7 * s - 1) as u16, 319),
        ) + cmd(RAMWR) + scaled_rows(g, fg, bg, s as int, 7)
    }
}

/// Whether a glyph can be drawn at scale `s` from (`x`, `y`): the row
/// buffer holds at most eight-fold rows, and the cell stays within `u16`.
pub open spec fn char_scaled_ok(x: u16, y: u16, s: u8) -> bool {
    s > 0 ==> (s <= 8 && x + 6 * s <= u16::MAX && y + 7 * s <= u16::MAX)
}

fn push_char_scaled(
    ops: &mut Vec<BusOp>,
    x: u16,
    y: u16,
    glyph_idx: usize,
    fg: Color,
    bg: Color,
    scale: u8,
) -> (x_next: u16)
    requires
        scale > 0 ==> glyph_idx < GLYPH_COUNT,
        char_scaled_ok(x, y, scale),
    ensures
        ops_view(final(ops)@) == ops_view(old(ops)@) + char_scaled_sequence(x, y, glyph_idx as int, fg.0, bg.0, scale),
        x_next == x + 6 * scale,
{
    if scale == 0 {
        assert(ops_view(ops@) =~= ops_view(ops@) + Seq::<Op>::empty());
        return x;
    }
    let s: u16 = scale as u16;
    let ghost si = s as int;
    let e: u16 = x + 5 * s - 1;
    let x1: u16 = if e < 239 { e } else { 239 };
    let f: u16 = y + 7 * s - 1;
    let y1: u16 = if f < 319 { f } else { 319 };
    push_window(ops, x, y, x1, y1);
    push_cmd(ops, RAMWR);
    let ghost head = ops_view(ops@);
    let fb = fg.to_be_bytes();
    let bb = bg.to_be_bytes();
    let mut ligne: usize = 0;
    while ligne < 7
        invariant
            ligne <= 7,
            1 <= s <= 8,
            si == s,
            glyph_idx < GLYPH_COUNT,
            fb[0] == hi_byte(fg.0) && fb[1] == lo_byte(fg.0),
            bb[0] == hi_byte(bg.0) && bb[1] == lo_byte(bg.0),
            ops_view(ops@) == head + scaled_rows(glyph_idx as int, fg.0, bg.0, si, ligne as nat),
        decreases 7 - ligne,
    {
        let ghost rb = row_bytes(glyph_idx as int, ligne as int, fg.0, bg.0, si);
        let mut row: Vec<u8> = Vec::new();
        let mut col: usize = 0;
        while col < 5
            invariant
                ligne < 7,
                col <= 5,
                1 <= s <= 8,
                si == s,
                glyph_idx < GLYPH_COUNT,
                fb[0] == hi_byte(fg.0) && fb[1] == lo_byte(fg.0),
                bb[0] == hi_byte(bg.0) && bb[1] == lo_byte(bg.0),
                rb == row_bytes(glyph_idx as int, ligne as int, fg.0, bg.0, si),
                row@ =~= rb.take(2 * (col * si)),
            decreases 5 - col,
        {
            let allume = glyph_on(glyph_idx, col, ligne);
            let mut sx: u16 = 0;
            while sx < s
                invariant
                    ligne < 7,
                    col < 5,
                    0 <= sx <= s,
                    1 <= s <= 8,
                    si == s,
                    glyph_idx < GLYPH_COUNT,
                    allume == glyph_pixel(glyph_idx as int, col as int, ligne as int),
                    fb[0] == hi_byte(fg.0) && fb[1] == lo_byte(fg.0),
                    bb[0] == hi_byte(bg.0) && bb[1] == lo_byte(bg.0),
                    rb == row_bytes(glyph_idx as int, ligne as int, fg.0, bg.0, si),
                    row@ =~= rb.take(2 * (col * si + sx)),
                decreases s - sx,
            {
                proof {
                    let p = col * si + sx;
                    assert(p < 5 * si) by (nonlinear_arith)
                        requires col < 5, sx < si, p == col * si + sx;
                    lemma_cell_of(p, si, col as int, sx as int);
                    assert((2 * p) / 2 == p && (2 * p + 1) / 2 == p);
                }
                if allume {
                    row.push(fb[0]);
                    row.push(fb[1]);
                } else {
                    row.push(bb[0]);
                    row.push(bb[1]);
                }
                assert(row@ =~= rb.take(2 * (col * si + sx + 1)));
                sx = sx + 1;
            }
            assert(2 * (col * si + si) == 2 * ((col + 1) * si)) by (nonlinear_arith);
            col = col + 1;
        }
        assert(2 * (5 * si) == 10 * si);
        assert(row@ =~= rb);
        let mut k: u16 = 0;
        while k < s
            invariant
                ligne < 7,
                0 <= k <= s,
                1 <= s <= 8,
                si == s,
                row@ == rb,
                rb == row_bytes(glyph_idx as int, ligne as int, fg.0, bg.0, si),
                ops_view(ops@) == head + scaled_rows(glyph_idx as int, fg.0, bg.0, si, ligne as nat)
                    + repeat_data(rb, k as nat),
            decreases s - k,
        {
            let copy = row.clone();
            assert(copy@ =~= row@);
            push_data(ops, copy);
            assert(ops_view(ops@) =~= head + scaled_rows(glyph_idx as int, fg.0, bg.0, si, ligne as nat)
                + repeat_data(rb, (k + 1) as nat));
            k = k + 1;
        }
        assert(ops_view(ops@) =~= head + scaled_rows(glyph_idx as int, fg.0, bg.0, si, (ligne + 1) as nat));
        ligne = ligne + 1;
    }
    assert(ops_view(final(ops)@) =~= ops_view(old(ops)@) + char_scaled_sequence(x, y, glyph_idx as int, fg.0, bg.0, scale));
    x + 6 * s
}

/// Drawing glyph `glyph_idx` enlarged `scale` times at (`x`, `y`). Returns
/// the x of the next character cell, `x + 6 * scale`.
pub fn draw_char_scaled_ops(
    x: u16,
    y: u16,
    glyph_idx: usize,
    fg: Color,
    bg: Color,
    scale: u8,
) -> (r: (Vec<BusOp>, u16))
    requires
        scale > 0 ==> glyph_idx < GLYPH_COUNT,
        char_scaled_ok(x, y, scale),
    ensures
        ops_view(r.0@) == char_scaled_sequence(x, y, glyph_idx as int, fg.0, bg.0, scale),
        r.1 == x + 6 * scale,
{
    let mut ops: Vec<BusOp> = Vec::new();
    let x_next = push_char_scaled(&mut ops, x, y, glyph_idx, fg, bg, scale);
    assert(ops_view(ops@) =~= Seq::<Op>::empty() + char_scaled_sequence(x, y, glyph_idx as int, fg.0, bg.0, scale));
    (ops, x_next)
}

/// Drawing text enlarged `s` times from (`x`, `y`), cells `6 * s` wide, and
/// the x after the last character; stops before a character whose glyph
/// would reach the right edge. A zero scale draws nothing.
pub open spec fn text_scaled_sequence(x: u16, y: u16, text: Seq<u8>, fg: u16, bg: u16, s: u8) -> (Seq<Op>, u16)
    decreases text.len(),
{
    if s == 0 || text.len() == 0 || x + 5 * s >= 240 {
        (Seq::empty(), x)
    } else {
        let head = match glyph_of(text[0]) {
            Some(g) => char_scaled_sequence(x, y, g as int, fg, bg, s),
            None => Seq::empty(),
        };
        let rest = text_scaled_sequence((x + 6 * s) as u16, y, text.drop_first(), fg, bg, s);
        (head + rest.0, rest.1)
    }
}

/// Drawing `text` enlarged `scale` times from (`x`, `y`). Returns the x
/// after the last character.
pub fn draw_str_scaled_ops(x: u16, y: u16, text: &[u8], fg: Color, bg: Color, scale: u8) -> (r: (Vec<BusOp>, u16))
    requires
        scale > 0 && text@.len() > 0 ==> x + 5 * scale <= u16::MAX,
        scale > 0 && text_draws_glyph(x as int, text@, scale as int) ==> scale <= 8 && y + 7 * scale <= u16::MAX,
    ensures
        ops_view(r.0@) == text_scaled_sequence(x, y, text@, fg.0, bg.0, scale).0,
        r.1 == text_scaled_sequence(x, y, text@, fg.0, bg.0, scale).1,
{
    let mut ops: Vec<BusOp> = Vec::new();
    assert(ops_view(ops@) =~= Seq::<Op>::empty());
    if scale == 0 {
        return (ops, x);
    }
    let s: u16 = scale as u16;
    let ghost si = s as int;
    let ghost x0 = x;
    let mut x = x;
    let mut i: usize = 0;
    assert(text@.subrange(0, text@.len() as int) =~= text@);
    while i < text.len()
        invariant
            0 <= i <= text@.len(),
            s == scale,
            si == s,
            1 <= s,
            x == x0 || x + 5 * s < 240 + 6 * s,
            i == 0 ==> x == x0,
            text@.len() > 0 ==> x0 + 5 * s <= u16::MAX,
            text_draws_glyph(x as int, text@.subrange(i as int, text@.len() as int), si) ==> s <= 8 && y + 7 * s
                <= u16::MAX,
            text_scaled_sequence(x0, y, text@, fg.0, bg.0, scale).0 == ops_view(ops@) + text_scaled_sequence(
                x,
                y,
                text@.subrange(i as int, text@.len() as int),
                fg.0,
                bg.0,
                scale,
            ).0,
            text_scaled_sequence(x0, y, text@, fg.0, bg.0, scale).1 == text_scaled_sequence(
                x,
                y,
                text@.subrange(i as int, text@.len() as int),
                fg.0,
                bg.0,
                scale,
            ).1,
        ensures
            i == text@.len() || x + 5 * s >= 240,
        decreases text@.len() - i,
    {
        let ghost rest = text@.subrange(i as int, text@.len() as int);
        let ghost before = ops_view(ops@);
        let ghost xb = x;
        assert(rest[0] == text@[i as int]);
        assert(rest.drop_first() =~= text@.subrange(i + 1, text@.len() as int));
        if x + 5 * s >= crate::SCREEN_W {
            break;
        }
        let c = text[i];
        match char_to_glyph(c) {
            Some(idx) => {
                x = push_char_scaled(&mut ops, x, y, idx, fg, bg, scale);
            },
            None => {
                x = x.saturating_add(6 * s);
                assert(ops_view(ops@) =~= before + Seq::<Op>::empty());
            },
        }
        let ghost tail = text_scaled_sequence(x, y, text@.subrange(i + 1, text@.len() as int), fg.0, bg.0, scale).0;
        assert(before + text_scaled_sequence(xb, y, rest, fg.0, bg.0, scale).0 =~= ops_view(ops@) + tail);
        i = i + 1;
    }
    assert(text@.subrange(i as int, text@.len() as int).len() == 0 || x + 5 * s >= 240);
    assert(ops_view(ops@) =~= ops_view(ops@) + Seq::<Op>::empty());
    (ops, x)
}

/// Whether bit `col` of row `ligne` of a packed bitmap is set: rows take
/// `stride` bytes, bits are packed most significant first, and bits past
/// the end of `data` count as clear.
pub open spec fn bitmap_lit(data: Seq<u8>, stride: int, ligne: int, col: int) -> bool {
    let idx = ligne * stride + col / 8;
    idx < data.len() && (data[idx] >> ((7 - col % 8) as u8)) & 1u8 == 1u8
}

/// The pixels of a `w` x `h` bitmap, row by row: for each pixel the
/// data/command line goes high and its two bytes are sent, `fg` for a set
/// bit and `bg` for a clear one.
pub open spec fn bitmap_pixels(data: Seq<u8>, w: int, h: int, fg: u16, bg: u16) -> Seq<Op> {
    Seq::new(
        (2 * (w * h)) as nat,
        |i: int|
            if i % 2 == 0 {
                Op::DcHigh
            } else {
                Op::Write(
                    be16(
                        if bitmap_lit(data, (w + 7) / 8, (i / 2) / w, (i / 2) % w) {
                            fg
                        } else {
                            bg
                        },
                    ),
                )
            },
    )
}

/// Drawing a packed 1-bit bitmap at (`x`, `y`): nothing when (`x`, `y`) is
/// off the screen; else a window clipped to the screen and every one of the
/// `w * h` pixels.
pub open spec fn bitmap_sequence(x: u16, y: u16, w: u16, h: u16, data: Seq<u8>, fg: u16, bg: u16) -> Seq<Op> {
    if x >= 240 || y >= 320 {
        Seq::empty()
    } else {
        window(x, y, clamp((x + w - 1) as u16, 239), clamp((y + h - 1) as u16, 319)) + cmd(RAMWR)
            + bitmap_pixels(data, w as int, h as int, fg, bg)
    }
}

/// Whether a bitmap can be drawn at (`x`, `y`): on the screen, its far
/// corner and its row length in bytes stay within `u16`.
pub open spec fn bitmap_ok(x: u16, y: u16, w: u16, h: u16) -> bool {
    (x < 240 && y < 320) ==> (1 <= x + w <= u16::MAX && 1 <= y + h <= u16::MAX && w + 7 <= u16::MAX)
}

/// Drawing a `w` x `h` bitmap packed most significant bit first, `ceil(w/8)`
/// bytes per row: set bits in `fg`, clear bits in `bg`.
pub fn draw_bitmap_ops(x: u16, y: u16, w: u16, h: u16, data: &[u8], fg: Color, bg: Color) -> (ops: Vec<BusOp>)
    requires
        bitmap_ok(x, y, w, h),
    ensures
        ops_view(ops@) == bitmap_sequence(x, y, w, h, data@, fg.0, bg.0),
{
    let mut ops: Vec<BusOp> = Vec::new();
    if x >= crate::SCREEN_W || y >= crate::SCREEN_H {
        assert(ops_view(ops@) =~= Seq::<Op>::empty());
        return ops;
    }
    let e: u16 = x + w - 1;
    let x1: u16 = if e < 239 { e } else { 239 };
    let f: u16 = y + h - 1;
    let y1: u16 = if f < 319 { f } else { 319 };
    push_window(&mut ops, x, y, x1, y1);
    push_cmd(&mut ops, RAMWR);
    let ghost head = ops_view(ops@);
    let stride: usize = ((w + 7) / 8) as usize;
    let fb = fg.to_be_bytes();
    let bb = bg.to_be_bytes();
    let ghost px = bitmap_pixels(data@, w as int, h as int, fg.0, bg.0);
    let ghost wi = w as int;
    let mut ligne: usize = 0;
    while ligne < h as usize
        invariant
            ligne <= h,
            wi == w,
            stride == (w + 7) / 8,
            stride <= 8192,
            fb[0] == hi_byte(fg.0) && fb[1] == lo_byte(fg.0),
            bb[0] == hi_byte(bg.0) && bb[1] == lo_byte(bg.0),
            px == bitmap_pixels(data@, w as int, h as int, fg.0, bg.0),
            ops_view(ops@) == head + px.take(2 * (ligne * wi)),
        decreases h - ligne,
    {
        let mut col: usize = 0;
        while col < w as usize
            invariant
                ligne < h,
                col <= w,
                wi == w,
                stride == (w + 7) / 8,
                stride <= 8192,
                fb[0] == hi_byte(fg.0) && fb[1] == lo_byte(fg.0),
                bb[0] == hi_byte(bg.0) && bb[1] == lo_byte(bg.0),
                px == bitmap_pixels(data@, w as int, h as int, fg.0, bg.0),
                ops_view(ops@) == head + px.take(2 * (ligne * wi + col)),
            decreases w - col,
        {
            assert(ligne * stride <= 65535 * 8192) by (nonlinear_arith)
                requires ligne < 65536, stride <= 8192;
            let idx_octet: usize = ligne * stride + col / 8;
            let bit: u8 = (7 - (col % 8)) as u8;
            let allume: bool = idx_octet < data.len() && (data[idx_octet] >> bit) & 1 == 1;
            proof {
                let k = ligne * wi + col;
                assert(k < wi * h) by (nonlinear_arith)
                    requires ligne < h, col < wi, k == ligne * wi + col;
                assert(wi * h == w * h);
                lemma_cell_of(k, wi, ligne as int, col as int);
                assert((2 * k) / 2 == k && (2 * k + 1) / 2 == k && (2 * k) % 2 == 0 && (2 * k + 1) % 2 == 1);
                assert(allume == bitmap_lit(data@, stride as int, ligne as int, col as int));
            }
            push_op(&mut ops, BusOp::DcHigh);
            let d: Vec<u8> = if allume { vec![fb[0], fb[1]] } else { vec![bb[0], bb[1]] };
            assert(d@ =~= be16(if allume { fg.0 } else { bg.0 }));
            push_write(&mut ops, d);
            assert(ops_view(ops@) =~= head + px.take(2 * (ligne * wi + col + 1)));
            col = col + 1;
        }
        assert(ligne * wi + wi == (ligne + 1) * wi) by (nonlinear_arith);
        ligne = ligne + 1;
    }
    assert(h as int * wi == wi * h) by (nonlinear_arith);
    assert(px.take(2 * (h * wi)) =~= px);
    assert(ops_view(ops@) =~= bitmap_sequence(x, y, w, h, data@, fg.0, bg.0));
    ops
}

/// Sending a whole frame: a window over the full screen, memory write, the
/// data/command line high once, then the frame in 300 writes of 512 bytes.
pub open spec fn flush_sequence(frame: Seq<u8>) -> Seq<Op> {
    window(0, 0, 239, 319) + cmd(RAMWR) + seq![Op::DcHigh] + Seq::new(
        300,
        |k: int| Op::Write(frame.subrange(512 * k, 512 * k + 512)),
    )
}

/// Sending the frame of `screen` to the panel in one pass.
pub fn flush_ops<D>(screen: &St7789vBuffered<D>) -> (ops: Vec<BusOp>)
    ensures
        ops_view(ops@) == flush_sequence(screen@),
{
    proof {
        screen.lemma_frame_len();
    }
    let mut ops: Vec<BusOp> = Vec::new();
    push_window(&mut ops, 0, 0, crate::SCREEN_W - 1, crate::SCREEN_H - 1);
    push_cmd(&mut ops, RAMWR);
    push_op(&mut ops, BusOp::DcHigh);
    let ghost head = ops_view(ops@);
    let ghost chunks = Seq::new(300, |k: int| Op::Write(screen@.subrange(512 * k, 512 * k + 512)));
    let mut k: usize = 0;
    while k < 300
        invariant
            k <= 300,
            screen@.len() == FB_LEN,
            chunks == Seq::new(300, |k: int| Op::Write(screen@.subrange(512 * k, 512 * k + 512))),
            ops_view(ops@) == head + chunks.take(k as int),
        decreases 300 - k,
    {
        let chunk = screen.frame_bytes(512 * k, 512);
        push_write(&mut ops, chunk);
        assert(ops_view(ops@) =~= head + chunks.take(k + 1));
        k = k + 1;
    }
    assert(chunks.take(300) =~= chunks);
    assert(ops_view(ops@) =~= flush_sequence(screen@));
    ops
}

/// Runs of a colour join: `a` pixels then `b` pixels are `a + b` pixels.
proof fn lemma_color_run_join(c: u16, a: nat, b: nat)
    ensures
        color_run(c, a) + color_run(c, b) == color_run(c, a + b),
{
    assert forall|i: int| 0 <= i < 2 * (a + b) implies #[trigger] (color_run(c, a) + color_run(c, b))[i]
        == color_run(c, a + b)[i] by {
        if i >= 2 * a {
            assert((i - 2 * a) % 2 == i % 2);
        }
    }
    assert(color_run(c, a) + color_run(c, b) =~= color_run(c, a + b));
}

/// The blocks of a fill send the `n` pixels of the colour as data.
proof fn lemma_wire_fill_chunks(n: nat, c: u16, dc: bool)
    requires
        n > 0,
    ensures
        wire(fill_chunks(n, c), dc) == as_data(color_run(c, n)),
        level_after(fill_chunks(n, c), dc) == true,
    decreases n,
{
    let b: nat = if n < 64 { n } else { 64 };
    let rest = fill_chunks((n - b) as nat, c);
    lemma_wire_append(data(color_run(c, b)), rest, dc);
    lemma_wire_data(color_run(c, b), dc);
    lemma_color_run_join(c, b, (n - b) as nat);
    if n - b > 0 {
        lemma_wire_fill_chunks((n - b) as nat, c, true);
        assert(as_data(color_run(c, b)) + as_data(color_run(c, (n - b) as nat)) =~= as_data(color_run(c, n)));
    } else {
        assert(rest =~= Seq::<Op>::empty());
        assert(color_run(c, b) =~= color_run(c, n));
        assert(as_data(color_run(c, b)) + Seq::<(bool, u8)>::empty() =~= as_data(color_run(c, n)));
    }
}

/// Filling a rectangle sends, after the window and the memory-write
/// command, exactly its clipped width times height pixels of the colour.
pub proof fn lemma_fill_rect_sends_pixels(x0: u16, y0: u16, x1: u16, y1: u16, c: u16, dc: bool)
    requires
        fill_rect_ok(x0, y0, x1, y1),
    ensures
        wire(fill_rect_sequence(x0, y0, x1, y1, c), dc) == wire(
            window(clamp(x0, 239), clamp(y0, 319), clamp(x1, 239), clamp(y1, 319)) + cmd(RAMWR),
            dc,
        ) + as_data(
            color_run(
                c,
                ((clamp(x1, 239) - clamp(x0, 239) + 1) * (clamp(y1, 319) - clamp(y0, 319) + 1)) as nat,
            ),
        ),
{
    let a0 = clamp(x0, 239);
    let b0 = clamp(y0, 319);
    let a1 = clamp(x1, 239);
    let b1 = clamp(y1, 319);
    let n = ((a1 - a0 + 1) * (b1 - b0 + 1)) as nat;
    assert((a1 - a0 + 1) * (b1 - b0 + 1) > 0) by (nonlinear_arith)
        requires a1 - a0 + 1 > 0, b1 - b0 + 1 > 0;
    let head = window(a0, b0, a1, b1) + cmd(RAMWR);
    lemma_wire_append(head, fill_chunks(n, c), dc);
    lemma_wire_fill_chunks(n, c, level_after(head, dc));
}

/// The writes of frame chunks `0..k` send the first `512 * k` frame bytes.
proof fn lemma_wire_frame_chunks(frame: Seq<u8>, k: int, dc: bool)
    requires
        frame.len() == FB_LEN,
        0 <= k <= 300,
    ensures
        wire(Seq::new(300, |j: int| Op::Write(frame.subrange(512 * j, 512 * j + 512))).take(k), dc)
            == frame.take(512 * k).map_values(|v: u8| (dc, v)),
        level_after(Seq::new(300, |j: int| Op::Write(frame.subrange(512 * j, 512 * j + 512))).take(k), dc)
            == dc,
    decreases k,
{
    let chunks = Seq::new(300, |j: int| Op::Write(frame.subrange(512 * j, 512 * j + 512)));
    if k == 0 {
        assert(chunks.take(0) =~= Seq::<Op>::empty());
        assert(frame.take(0).map_values(|v: u8| (dc, v)) =~= Seq::<(bool, u8)>::empty());
    } else {
        lemma_wire_frame_chunks(frame, k - 1, dc);
        let last = seq![chunks[k - 1]];
        assert(chunks.take(k) =~= chunks.take(k - 1) + last);
        lemma_wire_append(chunks.take(k - 1), last, dc);
        lemma_wire_single(chunks[k - 1], dc);
        assert(wire(last, dc) =~= frame.subrange(512 * (k - 1), 512 * k).map_values(|v: u8| (dc, v)));
        assert(frame.take(512 * k).map_values(|v: u8| (dc, v)) =~= frame.take(512 * (k - 1)).map_values(
            |v: u8| (dc, v),
        ) + frame.subrange(512 * (k - 1), 512 * k).map_values(|v: u8| (dc, v)));
    }
}

/// A flush sends, after the full-screen window and the memory-write
/// command, exactly the frame's bytes as data, in order.
pub proof fn lemma_flush_sends_frame(frame: Seq<u8>, dc: bool)
    requires
        frame.len() == FB_LEN,
    ensures
        wire(flush_sequence(frame), dc) == wire(window(0, 0, 239, 319) + cmd(RAMWR), dc) + as_data(frame),
{
    let head = window(0, 0, 239, 319) + cmd(RAMWR);
    let chunks = Seq::new(300, |j: int| Op::Write(frame.subrange(512 * j, 512 * j + 512)));
    let high = seq![Op::DcHigh];
    assert(flush_sequence(frame) =~= head + (high + chunks));
    lemma_wire_append(head, high + chunks, dc);
    lemma_wire_append(high, chunks, level_after(head, dc));
    let l = level_after(head, dc);
    lemma_wire_single(Op::DcHigh, l);
    assert(level_after(high, l) == true);
    assert(wire(high, l) =~= Seq::<(bool, u8)>::empty());
    lemma_wire_frame_chunks(frame, 300, true);
    assert(chunks.take(300) =~= chunks);
    assert(frame.take(512 * 300int) =~= frame);
    assert(wire(high + chunks, l) =~= as_data(frame));
}

/// Filling the frame in RAM with a colour and flushing it puts on the bus
/// exactly what filling the screen directly does.
pub proof fn lemma_buffered_fill_matches_direct(fb: Seq<u8>, c: u16, dc: bool)
    requires
        fb.len() == FB_LEN,
    ensures
        wire(flush_sequence(paint(fb, rect(0, 0, 239, 319, c))), dc) == wire(
            fill_rect_sequence(0, 0, 239, 319, c),
            dc,
        ),
{
    lemma_fill_screen_uniform(fb, c);
    lemma_flush_sends_frame(paint(fb, rect(0, 0, 239, 319, c)), dc);
    lemma_fill_rect_sends_pixels(0, 0, 239, 319, c, dc);
    assert(clamp(0, 239) == 0 && clamp(239, 239) == 239 && clamp(0, 319) == 0 && clamp(319, 319) == 319);
    assert(240int * 320int == 76800int) by (nonlinear_arith);
}

/// Same bytes in one write or two: data `a` then data `b` is data `a + b`.
proof fn lemma_data_join(a: Seq<u8>, b: Seq<u8>)
    ensures
        same_stream(data(a) + data(b), data(a + b)),
{
    assert forall|dc: bool| #[trigger] wire(data(a) + data(b), dc) == wire(data(a + b), dc) && level_after(
        data(a) + data(b),
        dc,
    ) == level_after(data(a + b), dc) by {
        lemma_wire_append(data(a), data(b), dc);
        lemma_wire_data(a, dc);
        lemma_wire_data(b, true);
        lemma_wire_data(a + b, dc);
        assert(as_data(a) + as_data(b) =~= as_data(a + b));
    }
}

/// The first `n` rows of a glyph at scale one send the first `10 * n` bytes
/// of the plain glyph.
proof fn lemma_scaled_rows_one(g: int, fg: u16, bg: u16, n: nat)
    requires
        1 <= n <= 7,
    ensures
        same_stream(scaled_rows(g, fg, bg, 1, n), data(glyph_bytes(g, fg, bg).take(10 * n as int))),
    decreases n,
{
    let gb = glyph_bytes(g, fg, bg);
    let row = row_bytes(g, n - 1, fg, bg, 1);
    assert(row =~= gb.subrange(10 * (n - 1), 10 * n as int)) by {
        assert forall|j: int| 0 <= j < 10 implies #[trigger] row[j] == gb[10 * (n - 1) + j] by {
            assert((10 * (n - 1) + j) / 2 == 5 * (n - 1) + j / 2);
        }
    }
    assert(repeat_data(row, 0) =~= Seq::<Op>::empty());
    assert(repeat_data(row, 1) =~= data(row));
    if n == 1 {
        assert(scaled_rows(g, fg, bg, 1, 0) =~= Seq::<Op>::empty());
        assert(scaled_rows(g, fg, bg, 1, 1) =~= data(row));
        assert(gb.take(10) =~= row);
    } else {
        lemma_scaled_rows_one(g, fg, bg, (n - 1) as nat);
        let prev = gb.take(10 * (n - 1));
        assert(scaled_rows(g, fg, bg, 1, n) =~= scaled_rows(g, fg, bg, 1, (n - 1) as nat) + data(row));
        assert forall|dc: bool| #[trigger] wire(data(row), dc) == wire(data(row), dc) && level_after(data(row), dc)
            == level_after(data(row), dc) by {}
        lemma_same_stream_append(scaled_rows(g, fg, bg, 1, (n - 1) as nat), data(row), data(prev), data(row));
        lemma_data_join(prev, row);
        assert(prev + row =~= gb.take(10 * n as int));
    }
}

/// Scale one is the plain font on the bus: a glyph drawn enlarged once puts
/// the same bytes on the bus, with the same data/command levels, as the
/// plain glyph (only the number of writes differs).
pub proof fn lemma_char_scaled_one_same_stream(x: u16, y: u16, g: int, fg: u16, bg: u16)
    ensures
        same_stream(char_scaled_sequence(x, y, g, fg, bg, 1), char_sequence(x, y, g, fg, bg)),
{
    let head = window(x, y, clamp((x + 4) as u16, 239), clamp((y + 6) as u16, 319)) + cmd(RAMWR);
    lemma_scaled_rows_one(g, fg, bg, 7);
    assert(glyph_bytes(g, fg, bg).take(70) =~= glyph_bytes(g, fg, bg));
    assert(char_scaled_sequence(x, y, g, fg, bg, 1) =~= head + scaled_rows(g, fg, bg, 1, 7));
    assert forall|dc: bool| #[trigger] wire(head, dc) == wire(head, dc) && level_after(head, dc) == level_after(head, dc) by {}
    lemma_same_stream_append(head, scaled_rows(g, fg, bg, 1, 7), head, data(glyph_bytes(g, fg, bg)));
}

/// Scale one is plain text on the bus: text drawn enlarged once puts the
/// same bytes on the bus as plain text and ends at the same x.
pub proof fn lemma_text_scaled_one_same_stream(x: u16, y: u16, text: Seq<u8>, fg: u16, bg: u16)
    ensures
        same_stream(text_scaled_sequence(x, y, text, fg, bg, 1).0, text_sequence(x, y, text, fg, bg).0),
        text_scaled_sequence(x, y, text, fg, bg, 1).1 == text_sequence(x, y, text, fg, bg).1,
    decreases text.len(),
{
    if text.len() == 0 || x + 5 >= 240 {
        assert forall|dc: bool| #[trigger] wire(Seq::<Op>::empty(), dc) == wire(Seq::<Op>::empty(), dc) && level_after(
            Seq::<Op>::empty(),
            dc,
        ) == level_after(Seq::<Op>::empty(), dc) by {}
    } else {
        lemma_text_scaled_one_same_stream((x + 6) as u16, y, text.drop_first(), fg, bg);
        let r1 = text_scaled_sequence((x + 6) as u16, y, text.drop_first(), fg, bg, 1).0;
        let r2 = text_sequence((x + 6) as u16, y, text.drop_first(), fg, bg).0;
        match glyph_of(text[0]) {
            Some(g) => {
                lemma_char_scaled_one_same_stream(x, y, g as int, fg, bg);
                lemma_same_stream_append(
                    char_scaled_sequence(x, y, g as int, fg, bg, 1),
                    r1,
                    char_sequence(x, y, g as int, fg, bg),
                    r2,
                );
            },
            None => {
                assert(Seq::<Op>::empty() + r1 =~= r1);
                assert(Seq::<Op>::empty() + r2 =~= r2);
            },
        }
    }
}

/// A glyph drawn in the frame and a glyph sent to the panel agree: each
/// on-screen pixel of the cell holds in the frame the two bytes that
/// drawing the glyph directly sends for it.
pub proof fn lemma_buffered_glyph_matches_direct(
    fb: Seq<u8>,
    x: int,
    y: int,
    g: int,
    fg: u16,
    bg: u16,
    col: int,
    row: int,
    k: int,
)
    requires
        fb.len() == FB_LEN,
        0 <= col < 5,
        0 <= row < 7,
        0 <= k < 2,
        on_screen(x + col, y + row),
    ensures
        paint(fb, glyph_cell(x, y, g, fg, bg))[byte_index(x + col, y + row) + k] == glyph_bytes(g, fg, bg)[2
            * (5 * row + col) + k],
{
    lemma_index_of_coords(x + col, y + row, k);
    let i = 2 * (5 * row + col) + k;
    assert(i / 2 == 5 * row + col);
    assert((i / 2) % 5 == col && (i / 2) / 5 == row);
    assert(i % 2 == k);
}

/// Text ignores case on the bus: drawing a text and drawing it with its
/// letters in upper case send the same steps and end at the same x.
pub proof fn lemma_text_case_insensitive(x: u16, y: u16, t: Seq<u8>, fg: u16, bg: u16)
    ensures
        text_sequence(x, y, t, fg, bg) == text_sequence(x, y, fold_text(t), fg, bg),
        text_draws_glyph(x as int, t, 1) == text_draws_glyph(x as int, fold_text(t), 1),
    decreases t.len(),
{
    let u = fold_text(t);
    if t.len() > 0 && x + 5 < 240 {
        assert(u[0] == fold_case(t[0]));
        lemma_font_case_insensitive(t[0]);
        assert(u.drop_first() =~= fold_text(t.drop_first()));
        lemma_text_case_insensitive((x + 6) as u16, y, t.drop_first(), fg, bg);
    }
}

/// Drawing `a` followed by `b` is drawing `a`, then drawing `b` from the x
/// that `a` returned: the steps are those of `a` followed by those of `b`.
pub proof fn lemma_text_sequence_concat(x: u16, y: u16, a: Seq<u8>, b: Seq<u8>, fg: u16, bg: u16)
    ensures
        text_sequence(x, y, a + b, fg, bg).0 == text_sequence(x, y, a, fg, bg).0 + text_sequence(
            text_sequence(x, y, a, fg, bg).1,
            y,
            b,
            fg,
            bg,
        ).0,
        text_sequence(x, y, a + b, fg, bg).1 == text_sequence(text_sequence(x, y, a, fg, bg).1, y, b, fg, bg).1,
    decreases a.len(),
{
    if a.len() == 0 {
        assert(a + b =~= b);
        assert(Seq::<Op>::empty() + text_sequence(x, y, b, fg, bg).0 =~= text_sequence(x, y, b, fg, bg).0);
    } else if x + 5 >= 240 {
        assert((a + b).len() > 0);
        assert(text_sequence(x, y, b, fg, bg) == (Seq::<Op>::empty(), x));
        assert(Seq::<Op>::empty() + Seq::<Op>::empty() =~= Seq::<Op>::empty());
    } else {
        assert((a + b)[0] == a[0]);
        assert((a + b).drop_first() =~= a.drop_first() + b);
        let x1 = (x + 6) as u16;
        lemma_text_sequence_concat(x1, y, a.drop_first(), b, fg, bg);
        let head: Seq<Op> = match glyph_of(a[0]) {
            Some(g) => char_sequence(x, y, g as int, fg, bg),
            None => Seq::empty(),
        };
        let ra = text_sequence(x1, y, a.drop_first(), fg, bg);
        let rb = text_sequence(ra.1, y, b, fg, bg);
        assert(head + (ra.0 + rb.0) =~= (head + ra.0) + rb.0);
    }
}

/// The glyph cells that text draws from `x` at scale `s`: for each glyph
/// drawn, its left column and its glyph index, in drawing order.
pub open spec fn text_cells(x: int, t: Seq<u8>, s: int) -> Seq<(int, int)>
    decreases t.len(),
{
    if t.len() == 0 || x + 5 * s >= 240 {
        Seq::empty()
    } else {
        match glyph_of(t[0]) {
            Some(g) => seq![(x, g as int)] + text_cells(x + 6 * s, t.drop_first(), s),
            None => text_cells(x + 6 * s, t.drop_first(), s),
        }
    }
}

/// Drawing the glyphs of `cells` on row `y`, each with its own window and
/// 70-byte write.
pub open spec fn cells_sequence(y: u16, cells: Seq<(int, int)>, fg: u16, bg: u16) -> Seq<Op>
    decreases cells.len(),
{
    if cells.len() == 0 {
        Seq::empty()
    } else {
        char_sequence(cells[0].0 as u16, y, cells[0].1, fg, bg) + cells_sequence(y, cells.drop_first(), fg, bg)
    }
}

/// Byte `k` of pixel (`col`, `row`) of the glyph cell `cell` on row `y` of a frame.
pub open spec fn cell_byte(frame: Seq<u8>, cell: (int, int), y: int, col: int, row: int, k: int) -> u8 {
    frame[byte_index(cell.0 + col, y + row) + k]
}

/// Every glyph cell of `cells` on row `y` shows in `frame` the bytes that
/// drawing its glyph directly sends for it.
pub open spec fn cells_shown(frame: Seq<u8>, y: int, cells: Seq<(int, int)>, fg: u16, bg: u16) -> bool {
    forall|j: int, col: int, row: int, k: int|
        0 <= j < cells.len() && 0 <= col < 5 && 0 <= row < 7 && 0 <= k < 2 ==> #[trigger] cell_byte(
            frame,
            cells[j],
            y,
            col,
            row,
            k,
        ) == glyph_bytes(cells[j].1, fg, bg)[2 * (5 * row + col) + k]
}

/// Text drawn in the frame matches text sent to the panel: both end at the
/// same x; the panel receives one window and one 70-byte write for each
/// glyph cell of the text, in order; and in the frame every pixel of every
/// such cell holds the bytes sent for it (for text whose cells lie above
/// the bottom edge).
pub proof fn lemma_buffered_text_matches_direct(fb: Seq<u8>, x: u16, y: u16, t: Seq<u8>, fg: u16, bg: u16)
    requires
        fb.len() == FB_LEN,
        y + 6 < 320,
    ensures
        render_text(fb, x as int, y as int, t, fg, bg, 1).1 == text_sequence(x, y, t, fg, bg).1,
        text_sequence(x, y, t, fg, bg).0 == cells_sequence(y, text_cells(x as int, t, 1), fg, bg),
        cells_shown(render_text(fb, x as int, y as int, t, fg, bg, 1).0, y as int, text_cells(x as int, t, 1), fg, bg),
    decreases t.len(),
{
    let cells = text_cells(x as int, t, 1);
    let frame = render_text(fb, x as int, y as int, t, fg, bg, 1).0;
    if t.len() == 0 || x + 5 >= 240 {
        assert(cells.len() == 0);
    } else {
        let x1 = (x + 6) as u16;
        let rest = t.drop_first();
        let rc = text_cells(x1 as int, rest, 1);
        match glyph_of(t[0]) {
            Some(g) => {
                let fb2 = paint(fb, glyph_cells(x as int, y as int, g as int, fg, bg, 1));
                lemma_buffered_text_matches_direct(fb2, x1, y, rest, fg, bg);
                lemma_render_text_keeps_left(fb2, x1 as int, y as int, rest, fg, bg, 1);
                lemma_scale_one_is_plain(x as int, y as int, g as int, fg, bg);
                lemma_paint_agree(
                    fb,
                    glyph_cells(x as int, y as int, g as int, fg, bg, 1),
                    glyph_cell(x as int, y as int, g as int, fg, bg),
                );
                assert(cells == seq![(x as int, g as int)] + rc);
                assert(cells[0] == (x as int, g as int));
                assert(cells.drop_first() =~= rc);
                assert(text_sequence(x, y, t, fg, bg).0 == char_sequence(x, y, g as int, fg, bg) + text_sequence(
                    x1,
                    y,
                    rest,
                    fg,
                    bg,
                ).0);
                assert(cells_sequence(y, cells, fg, bg) == char_sequence(x, y, g as int, fg, bg) + cells_sequence(
                    y,
                    rc,
                    fg,
                    bg,
                ));
                assert forall|j: int, col: int, row: int, k: int|
                    0 <= j < cells.len() && 0 <= col < 5 && 0 <= row < 7 && 0 <= k < 2 implies #[trigger] cell_byte(
                    frame,
                    cells[j],
                    y as int,
                    col,
                    row,
                    k,
                ) == glyph_bytes(cells[j].1, fg, bg)[2 * (5 * row + col) + k] by {
                    if j == 0 {
                        let i = byte_index(x + col, y + row) + k;
                        lemma_index_of_coords(x + col, y + row, k);
                        assert(pixel_x(i) < x1);
                        assert(frame[i] == fb2[i]);
                        lemma_buffered_glyph_matches_direct(fb, x as int, y as int, g as int, fg, bg, col, row, k);
                    } else {
                        assert(cells[j] == rc[j - 1]);
                        assert(cell_byte(frame, rc[j - 1], y as int, col, row, k) == glyph_bytes(rc[j - 1].1, fg, bg)[2
                            * (5 * row + col) + k]);
                    }
                }
            },
            None => {
                lemma_buffered_text_matches_direct(fb, x1, y, rest, fg, bg);
                assert(cells == rc);
                assert(text_sequence(x, y, t, fg, bg).0 =~= text_sequence(x1, y, rest, fg, bg).0);
            },
        }
    }
}

/// Bit `b` of a byte, counted from the least significant bit.
pub open spec fn byte_bit(v: u8, b: int) -> bool {
    (v as int / pow2(b as nat) as int) % 2 == 1
}

/// Shifting right and masking reads bit `b`.
proof fn lemma_shift_reads_bit(v: u8, b: int)
    requires
        0 <= b < 8,
    ensures
        ((v >> (b as u8)) & 1u8 == 1u8) == byte_bit(v, b),
{
    lemma2_to64();
    if b == 0 {
        assert(((v >> 0u8) & 1u8 == 1u8) == ((v / 1u8) % 2u8 == 1u8)) by (bit_vector);
    } else if b == 1 {
        assert(((v >> 1u8) & 1u8 == 1u8) == ((v / 2u8) % 2u8 == 1u8)) by (bit_vector);
    } else if b == 2 {
        assert(((v >> 2u8) & 1u8 == 1u8) == ((v / 4u8) % 2u8 == 1u8)) by (bit_vector);
    } else if b == 3 {
        assert(((v >> 3u8) & 1u8 == 1u8) == ((v / 8u8) % 2u8 == 1u8)) by (bit_vector);
    } else if b == 4 {
        assert(((v >> 4u8) & 1u8 == 1u8) == ((v / 16u8) % 2u8 == 1u8)) by (bit_vector);
    } else if b == 5 {
        assert(((v >> 5u8) & 1u8 == 1u8) == ((v / 32u8) % 2u8 == 1u8)) by (bit_vector);
    } else if b == 6 {
        assert(((v >> 6u8) & 1u8 == 1u8) == ((v / 64u8) % 2u8 == 1u8)) by (bit_vector);
    } else {
        assert(((v >> 7u8) & 1u8 == 1u8) == ((v / 128u8) % 2u8 == 1u8)) by (bit_vector);
    }
}

/// What a bitmap puts on the bus, pixel by pixel: after the window and the
/// memory-write command come the `w * h` pixels row by row, each as the
/// data/command line going high and two bytes. Rows are `stride` bytes apart
/// in `data`, where `stride` is `w / 8` rounded up (`w <= 8 * stride < w + 8`),
/// and pixel (`r`, `c`) is `fg` exactly when byte `r * stride + c / 8` exists
/// and its bit `7 - c % 8` is set.
pub proof fn lemma_bitmap_pixel(
    x: u16,
    y: u16,
    w: u16,
    h: u16,
    data: Seq<u8>,
    fg: u16,
    bg: u16,
    stride: int,
    r: int,
    c: int,
)
    requires
        x < 240,
        y < 320,
        w <= 8 * stride < w + 8,
        0 <= r < h,
        0 <= c < w,
    ensures
        bitmap_sequence(x, y, w, h, data, fg, bg).len() == 10 + 2 * (w * h),
        bitmap_sequence(x, y, w, h, data, fg, bg)[10 + 2 * (r * w + c)] == Op::DcHigh,
        bitmap_sequence(x, y, w, h, data, fg, bg)[10 + 2 * (r * w + c) + 1] == Op::Write(
            be16(
                if r * stride + c / 8 < data.len() && byte_bit(data[r * stride + c / 8], 7 - c % 8) {
                    fg
                } else {
                    bg
                },
            ),
        ),
{
    let wi = w as int;
    let k = r * wi + c;
    assert(k < wi * h) by (nonlinear_arith)
        requires 0 <= r < h, 0 <= c < wi, k == r * wi + c;
    lemma_cell_of(k, wi, r, c);
    lemma_cell_of(wi + 7, 8, stride, wi + 7 - 8 * stride);
    let head = window(x, y, clamp((x + w - 1) as u16, 239), clamp((y + h - 1) as u16, 319)) + cmd(RAMWR);
    assert(head.len() == 10);
    let px = bitmap_pixels(data, wi, h as int, fg, bg);
    assert(bitmap_sequence(x, y, w, h, data, fg, bg) == head + px);
    assert((2 * k) / 2 == k && (2 * k + 1) / 2 == k && (2 * k) % 2 == 0 && (2 * k + 1) % 2 == 1);
    let idx = r * stride + c / 8;
    if idx < data.len() {
        lemma_shift_reads_bit(data[idx], 7 - c % 8);
    }
}

/// The length of a line: `len` pixels from `start`, cut at the screen edge
/// `last + 1`.
pub open spec fn line_span(start: int, len: int, last: int) -> int {
    if len < last + 1 - start {
        len
    } else {
        last + 1 - start
    }
}

/// An on-screen horizontal line of `w > 0` pixels covers columns `x` to
/// `x + n - 1` of row `y`, with `n = min(w, 240 - x)`, and sends exactly `n`
/// pixels of its colour after the window and the memory-write command.
pub proof fn lemma_hline_length(x: u16, y: u16, w: u16, c: u16, dc: bool)
    requires
        x < 240,
        y < 320,
        0 < w,
        x + w <= u16::MAX,
    ensures
        wire(hline_sequence(x, y, w, c), dc) == wire(
            window(x, y, (x + line_span(x as int, w as int, 239) - 1) as u16, y) + cmd(RAMWR),
            dc,
        ) + as_data(color_run(c, line_span(x as int, w as int, 239) as nat)),
{
    let x1 = clamp((x + w - 1) as u16, 239);
    assert(fill_rect_ok(x, y, x1, y));
    lemma_fill_rect_sends_pixels(x, y, x1, y, c, dc);
    assert((x1 - x + 1) * (y - y + 1) == x1 - x + 1) by (nonlinear_arith);
}

/// An on-screen vertical line of `h > 0` pixels covers rows `y` to
/// `y + n - 1` of column `x`, with `n = min(h, 320 - y)`, and sends exactly
/// `n` pixels of its colour after the window and the memory-write command.
pub proof fn lemma_vline_length(x: u16, y: u16, h: u16, c: u16, dc: bool)
    requires
        x < 240,
        y < 320,
        0 < h,
        y + h <= u16::MAX,
    ensures
        wire(vline_sequence(x, y, h, c), dc) == wire(
            window(x, y, x, (y + line_span(y as int, h as int, 319) - 1) as u16) + cmd(RAMWR),
            dc,
        ) + as_data(color_run(c, line_span(y as int, h as int, 319) as nat)),
{
    let y1 = clamp((y + h - 1) as u16, 319);
    assert(fill_rect_ok(x, y, x, y1));
    lemma_fill_rect_sends_pixels(x, y, x, y1, c, dc);
    assert((x - x + 1) * (y1 - y + 1) == y1 - y + 1) by (nonlinear_arith);
}

/// A signed number prints as its decimal text: the first glyph is the minus
/// sign exactly when the number is negative (digit glyphs are below 10, the
/// minus sign is 10); after it come the digits of the magnitude, which read
/// back as the magnitude, without a leading zero unless it is zero. A number
/// that is not negative prints, and is drawn, exactly as the same unsigned
/// number; a negative one as a minus sign followed by its magnitude.
pub proof fn lemma_i16_prints_decimal(v: i16, x: u16, y: u16, fg: u16, bg: u16, fb: Seq<u8>)
    ensures
        (i16_glyphs(v)[0] == GLYPH_MINUS as int) == (v < 0),
        v >= 0 ==> i16_glyphs(v) == decimal_digits(v as nat),
        v >= 0 ==> glyphs_sequence(x, y, i16_glyphs(v), fg, bg) == glyphs_sequence(
            x,
            y,
            decimal_digits(v as u32 as nat),
            fg,
            bg,
        ),
        v >= 0 ==> crate::buffered::render_glyphs(fb, x as int, y as int, i16_glyphs(v), fg, bg)
            == crate::buffered::render_glyphs(fb, x as int, y as int, decimal_digits(v as u32 as nat), fg, bg),
        v < 0 ==> i16_glyphs(v).drop_first() == decimal_digits(-v as nat),
        digits_value(i16_glyphs(v).skip(if v < 0 { 1int } else { 0int })) == (if v < 0 { -v } else { v as int }),
{
    let m: nat = if v < 0 { (-v) as nat } else { v as nat };
    lemma_decimal_digits_value(m);
    lemma_decimal_digits_no_leading_zero(m);
    lemma_digits_u32(m as u32);
    let ds = decimal_digits(m);
    assert(ds[0] == digits_lsb(m)[digits_lsb(m).len() - 1]);
    assert(0 <= ds[0] < 10);
    if v < 0 {
        assert(i16_glyphs(v) == seq![GLYPH_MINUS as int] + ds);
        assert(i16_glyphs(v).drop_first() =~= ds);
        assert(i16_glyphs(v).skip(1) =~= ds);
    } else {
        assert(i16_glyphs(v).skip(0) =~= ds);
    }
}

/// A decimal number prints as sign, integer part, point and fraction: the
/// first glyph is the minus sign exactly when `negative`, whatever the
/// integer part; then come the digits of the integer part, which read back
/// as it; then, when there is a fraction, the point and the fraction glyphs.
/// A negative whole number prints as the same negative `i16` does.
pub proof fn lemma_decimal_prints_sign_and_parts(negative: bool, int_part: u32, frac: Seq<u8>)
    ensures
        (decimal_glyphs(negative, int_part, frac)[0] == GLYPH_MINUS as int) == negative,
        decimal_glyphs(negative, int_part, frac).len() == (if negative { 1int } else { 0int }) + decimal_digits(
            int_part as nat,
        ).len() + (if frac.len() > 0 { 1 + frac.len() as int } else { 0int }),
        decimal_glyphs(negative, int_part, frac).subrange(
            if negative { 1int } else { 0int },
            (if negative { 1int } else { 0int }) + decimal_digits(int_part as nat).len(),
        ) == decimal_digits(int_part as nat),
        digits_value(decimal_digits(int_part as nat)) == int_part,
        frac.len() > 0 ==> decimal_glyphs(negative, int_part, frac)[(if negative { 1int } else { 0int })
            + decimal_digits(int_part as nat).len()] == GLYPH_POINT as int,
        forall|i: int|
            0 <= i < frac.len() ==> decimal_glyphs(negative, int_part, frac)[(if negative { 1int } else { 0int })
                + decimal_digits(int_part as nat).len() + 1 + i] == #[trigger] frac[i] as int,
{
    let s: int = if negative { 1 } else { 0 };
    let ds = decimal_digits(int_part as nat);
    let gs = decimal_glyphs(negative, int_part, frac);
    lemma_decimal_digits_value(int_part as nat);
    lemma_decimal_digits_no_leading_zero(int_part as nat);
    lemma_digits_u32(int_part);
    assert(ds[0] == digits_lsb(int_part as nat)[digits_lsb(int_part as nat).len() - 1]);
    let sign: Seq<int> = if negative { seq![GLYPH_MINUS as int] } else { Seq::empty() };
    let tail: Seq<int> = if frac.len() > 0 {
        seq![GLYPH_POINT as int] + frac.map_values(|d: u8| d as int)
    } else {
        Seq::empty()
    };
    assert(gs == sign + ds + tail);
    assert(gs.subrange(s, s + ds.len()) =~= ds);
    if frac.len() > 0 {
        assert(gs[s + ds.len()] == tail[0]);
        assert forall|i: int| 0 <= i < frac.len() implies gs[s + ds.len() + 1 + i] == #[trigger] frac[i] as int by {
            assert(gs[s + ds.len() + 1 + i] == tail[1 + i]);
        }
    }
}

/// Drawing a negative whole number as a decimal with no fraction draws it
/// exactly as the same `i16`.
pub proof fn lemma_decimal_matches_i16(v: i16)
    ensures
        decimal_glyphs(v < 0, (if v < 0 { -v } else { v as int }) as u32, Seq::empty()) == i16_glyphs(v),
{
    let m = (if v < 0 { -v } else { v as int }) as u32;
    assert(m as nat == (if v < 0 { (-v) as nat } else { v as nat }));
    if v < 0 {
        assert(decimal_glyphs(true, m, Seq::empty()) =~= seq![GLYPH_MINUS as int] + decimal_digits(m as nat));
    } else {
        assert(decimal_glyphs(false, m, Seq::empty()) =~= decimal_digits(m as nat));
    }
}

} // verus!
