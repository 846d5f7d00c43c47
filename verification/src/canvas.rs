//! The mathematical model of a frame: the byte image that the panel receives
//! for a full 240x320 window, two big-endian bytes per pixel, row by row.
use vstd::prelude::*;
use crate::color::{hi_byte, lo_byte};

verus! {

/// Bytes in a full frame: 240 x 320 pixels, two bytes each.
pub const FB_LEN: usize = 153600;

/// Column of the pixel that byte `i` of a frame belongs to.
pub open spec fn pixel_x(i: int) -> int {
    (i / 2) % 240
}

/// Row of the pixel that byte `i` of a frame belongs to.
pub open spec fn pixel_y(i: int) -> int {
    (i / 2) / 240
}

/// Index of the first (high) byte of pixel (`x`, `y`) in a frame.
pub open spec fn byte_index(x: int, y: int) -> int {
    (y * 240 + x) * 2
}

/// Byte `k` (0: high, 1: low) of colour word `c`.
pub open spec fn color_byte(c: u16, k: int) -> u8 {
    if k % 2 == 0 {
        hi_byte(c)
    } else {
        lo_byte(c)
    }
}

/// `k` pixels of colour `c`, two bytes each.
pub open spec fn color_run(c: u16, k: nat) -> Seq<u8> {
    Seq::new(2 * k, |i: int| color_byte(c, i))
}

/// The frame `fb` after each pixel (`x`, `y`) for which `f` gives a colour
/// has been set to that colour; other pixels keep their bytes.
pub open spec fn paint(fb: Seq<u8>, f: spec_fn(int, int) -> Option<u16>) -> Seq<u8> {
    Seq::new(
        fb.len(),
        |i: int|
            match f(pixel_x(i), pixel_y(i)) {
                Some(c) => color_byte(c, i),
                None => fb[i],
            },
    )
}

/// The colour word of pixel (`x`, `y`) of frame `fb`.
pub open spec fn pixel_at(fb: Seq<u8>, x: int, y: int) -> int {
    fb[byte_index(x, y)] as int * 256 + fb[byte_index(x, y) + 1] as int
}

/// Whether (`x`, `y`) lies on the screen.
pub open spec fn on_screen(x: int, y: int) -> bool {
    0 <= x < 240 && 0 <= y < 320
}

/// Paints `g` where it gives a colour and `f` elsewhere.
pub open spec fn over(
    g: spec_fn(int, int) -> Option<u16>,
    f: spec_fn(int, int) -> Option<u16>,
) -> spec_fn(int, int) -> Option<u16> {
    |x: int, y: int|
        match g(x, y) {
            Some(c) => Some(c),
            None => f(x, y),
        }
}

/// A single pixel of colour `c`.
pub open spec fn point(x: int, y: int, c: u16) -> spec_fn(int, int) -> Option<u16> {
    |px: int, py: int|
        if px == x && py == y {
            Some(c)
        } else {
            None
        }
}

/// The filled rectangle with corners (`x0`, `y0`) and (`x1`, `y1`), both included.
pub open spec fn rect(x0: int, y0: int, x1: int, y1: int, c: u16) -> spec_fn(
    int,
    int,
) -> Option<u16> {
    |px: int, py: int|
        if x0 <= px <= x1 && y0 <= py <= y1 {
            Some(c)
        } else {
            None
        }
}

/// Byte `i` of a frame belongs to the pixel at its coordinates.
pub proof fn lemma_coords_of_index(i: int)
    requires
        0 <= i < FB_LEN,
    ensures
        on_screen(pixel_x(i), pixel_y(i)),
        i == byte_index(pixel_x(i), pixel_y(i)) + i % 2,
        0 <= i % 2 < 2,
{
}

/// The coordinates of the bytes of pixel (`x`, `y`).
pub proof fn lemma_index_of_coords(x: int, y: int, k: int)
    requires
        on_screen(x, y),
        0 <= k < 2,
    ensures
        pixel_x(byte_index(x, y) + k) == x,
        pixel_y(byte_index(x, y) + k) == y,
        (byte_index(x, y) + k) % 2 == k,
        0 <= byte_index(x, y) + k < FB_LEN,
{
}

/// The empty drawing.
pub open spec fn nothing() -> spec_fn(int, int) -> Option<u16> {
    |x: int, y: int| None::<u16>
}

/// Later drawing wins: painting `f` and then `g` is painting `g` over `f`.
pub proof fn lemma_paint_over(
    fb: Seq<u8>,
    f: spec_fn(int, int) -> Option<u16>,
    g: spec_fn(int, int) -> Option<u16>,
)
    ensures
        paint(paint(fb, f), g) == paint(fb, over(g, f)),
{
    assert(paint(paint(fb, f), g) =~= paint(fb, over(g, f)));
}

/// Only the screen matters: two drawings that agree on every on-screen
/// pixel paint a frame alike.
pub proof fn lemma_paint_agree(
    fb: Seq<u8>,
    f: spec_fn(int, int) -> Option<u16>,
    g: spec_fn(int, int) -> Option<u16>,
)
    requires
        fb.len() == FB_LEN,
        forall|x: int, y: int| on_screen(x, y) ==> #[trigger] f(x, y) == g(x, y),
    ensures
        paint(fb, f) == paint(fb, g),
{
    assert forall|i: int| 0 <= i < fb.len() implies #[trigger] paint(fb, f)[i] == paint(fb, g)[i] by {
        lemma_coords_of_index(i);
    }
    assert(paint(fb, f) =~= paint(fb, g));
}

/// Painting nothing leaves the frame as it was.
pub proof fn lemma_paint_nothing(fb: Seq<u8>)
    ensures
        paint(fb, nothing()) == fb,
{
    assert(paint(fb, nothing()) =~= fb);
}

/// A single on-screen pixel changes exactly its two bytes, high byte first;
/// an off-screen pixel changes nothing.
pub proof fn lemma_paint_point(fb: Seq<u8>, x: int, y: int, c: u16)
    requires
        fb.len() == FB_LEN,
    ensures
        paint(fb, point(x, y, c)) == (if on_screen(x, y) {
            fb.update(byte_index(x, y), hi_byte(c)).update(byte_index(x, y) + 1, lo_byte(c))
        } else {
            fb
        }),
{
    if on_screen(x, y) {
        lemma_index_of_coords(x, y, 0);
        lemma_index_of_coords(x, y, 1);
        let fb2 = fb.update(byte_index(x, y), hi_byte(c)).update(byte_index(x, y) + 1, lo_byte(c));
        assert forall|i: int| 0 <= i < fb.len() implies #[trigger] paint(fb, point(x, y, c))[i] == fb2[i] by {
            lemma_coords_of_index(i);
        }
        assert(paint(fb, point(x, y, c)) =~= fb2);
    } else {
        assert forall|i: int| 0 <= i < fb.len() implies #[trigger] paint(fb, point(x, y, c))[i] == fb[i] by {
            lemma_coords_of_index(i);
        }
        assert(paint(fb, point(x, y, c)) =~= fb);
    }
}

/// Reading a pixel back gives the colour last painted there.
pub proof fn lemma_pixel_read_back(fb: Seq<u8>, f: spec_fn(int, int) -> Option<u16>, x: int, y: int)
    requires
        fb.len() == FB_LEN,
        on_screen(x, y),
    ensures
        pixel_at(paint(fb, f), x, y) == (match f(x, y) {
            Some(c) => c as int,
            None => pixel_at(fb, x, y),
        }),
{
    lemma_index_of_coords(x, y, 0);
    lemma_index_of_coords(x, y, 1);
}

/// The quotient and remainder of `d = q * s + r` by `s`.
pub(crate) proof fn lemma_cell_of(d: int, s: int, q: int, r: int)
    requires
        s > 0,
        0 <= r < s,
        d == q * s + r,
    ensures
        d / s == q,
        d % s == r,
{
    vstd::arithmetic::div_mod::lemma_fundamental_div_mod_converse_div(d, s, q, r);
    vstd::arithmetic::div_mod::lemma_fundamental_div_mod_converse_mod(d, s, q, r);
}

/// Bounds of the quotient and remainder of `d < n * s` by `s`.
pub(crate) proof fn lemma_cell_bounds(d: int, s: int, n: int)
    requires
        s > 0,
        n > 0,
        0 <= d < n * s,
    ensures
        0 <= d / s < n,
        0 <= d % s < s,
{
    assert(0 <= d / s < n) by (nonlinear_arith)
        requires
            s > 0,
            n > 0,
            0 <= d < n * s,
    ;
}

/// Filling the screen gives every pixel the colour: the frame becomes
/// 76 800 copies of the colour's two bytes.
pub proof fn lemma_fill_screen_uniform(fb: Seq<u8>, c: u16)
    requires
        fb.len() == FB_LEN,
    ensures
        paint(fb, rect(0, 0, 239, 319, c)) == color_run(c, 76800),
{
    assert forall|i: int| 0 <= i < FB_LEN implies #[trigger] paint(fb, rect(0, 0, 239, 319, c))[i] == color_run(c, 76800)[i] by {
        lemma_coords_of_index(i);
    }
    assert(paint(fb, rect(0, 0, 239, 319, c)) =~= color_run(c, 76800));
}

/// Drawing the same thing twice is drawing it once.
pub proof fn lemma_paint_idempotent(fb: Seq<u8>, f: spec_fn(int, int) -> Option<u16>)
    ensures
        paint(paint(fb, f), f) == paint(fb, f),
{
    assert(paint(paint(fb, f), f) =~= paint(fb, f));
}

/// A frame is its pixels: two frames whose on-screen pixels all hold the
/// same colour words are the same bytes.
pub proof fn lemma_frame_determined_by_pixels(a: Seq<u8>, b: Seq<u8>)
    requires
        a.len() == FB_LEN,
        b.len() == FB_LEN,
        forall|x: int, y: int| on_screen(x, y) ==> #[trigger] pixel_at(a, x, y) == pixel_at(b, x, y),
    ensures
        a == b,
{
    assert forall|i: int| 0 <= i < FB_LEN implies a[i] == b[i] by {
        lemma_coords_of_index(i);
        let x = pixel_x(i);
        let y = pixel_y(i);
        lemma_index_of_coords(x, y, 0);
        lemma_index_of_coords(x, y, 1);
        assert(pixel_at(a, x, y) == pixel_at(b, x, y));
        let j = byte_index(x, y);
        assert(a[j] as int * 256 + a[j + 1] as int == b[j] as int * 256 + b[j + 1] as int);
    }
    assert(a =~= b);
}

} // verus!
