//! The frame buffer: two fixed-size bit planes matching the panel's pixel
//! geometry, one achromatic and one chromatic, with bounds-checked drawing
//! and diff-free plane extraction. Text is drawn on a fixed monospace glyph
//! grid; the glyph shapes come from the embedded-graphics font and everything
//! around them is verified.

use vstd::prelude::*;
use vstd::string::StrSliceExecFns;

use embedded_graphics::geometry::Point;
use embedded_graphics::mock_display::MockDisplay;
use embedded_graphics::mono_font::ascii::FONT_10X20;
use embedded_graphics::mono_font::MonoTextStyle;
use embedded_graphics::pixelcolor::BinaryColor;
use embedded_graphics::text::{Baseline, Text};
use embedded_graphics::Drawable;

verus! {

/// Panel width in pixels.
pub const PANEL_WIDTH: usize = 800;

/// Panel height in pixels.
pub const PANEL_HEIGHT: usize = 480;

/// Bytes per pixel row: eight pixels per byte.
pub const BYTES_PER_ROW: usize = PANEL_WIDTH / 8;

/// Bytes in one whole plane.
pub const PLANE_BYTES: usize = BYTES_PER_ROW * PANEL_HEIGHT;

/// Width of one character cell of the glyph grid.
pub const GLYPH_WIDTH: usize = 10;

/// Height of one character cell of the glyph grid.
pub const GLYPH_HEIGHT: usize = 20;

/// Bit `k` of a byte, bit 0 the least significant.
pub open spec fn bit_get(b: u8, k: u8) -> bool {
    b & (1u8 << k) != 0
}

/// Writes bit `k` of a byte, leaving every other bit as it was.
fn set_bit(b: u8, k: u8, v: bool) -> (r: u8)
    requires
        k < 8,
    ensures
        forall|j: u8| j < 8 ==> bit_get(r, j) == (if j == k {
            v
        } else {
            bit_get(b, j)
        }),
{
    let r: u8 = if v {
        b | (1u8 << k)
    } else {
        b & !(1u8 << k)
    };
    proof {
        assert forall|j: u8| j < 8 implies bit_get(r, j) == (if j == k {
            v
        } else {
            bit_get(b, j)
        }) by {
            if v {
                assert(((b | (1u8 << k)) & (1u8 << j) != 0) == (if j == k {
                    true
                } else {
                    b & (1u8 << j) != 0
                })) by (bit_vector)
                    requires
                        j < 8,
                        k < 8,
                ;
            } else {
                assert(((b & !(1u8 << k)) & (1u8 << j) != 0) == (if j == k {
                    false
                } else {
                    b & (1u8 << j) != 0
                })) by (bit_vector)
                    requires
                        j < 8,
                        k < 8,
                ;
            }
        }
    }
    r
}

/// Bits of the constant bytes the planes are filled with.
proof fn lemma_bit_get_fill(k: u8)
    requires
        k < 8,
    ensures
        !bit_get(0u8, k),
        bit_get(0xffu8, k),
{
    assert(0u8 & (1u8 << k) == 0) by (bit_vector);
    assert(0xffu8 & (1u8 << k) != 0) by (bit_vector)
        requires
            k < 8,
    ;
}

/// One plane holds exactly the panel's bytes.
pub open spec fn plane_wf(p: Seq<u8>) -> bool {
    p.len() == PLANE_BYTES
}

/// Byte index of pixel (x, y): row-major, eight pixels per byte.
pub open spec fn byte_index(x: int, y: int) -> int {
    y * (BYTES_PER_ROW as int) + x / 8
}

/// Bit position of pixel x inside its byte: the leftmost pixel sits in the
/// most significant bit, the layout e-paper drivers take their buffers in.
pub open spec fn bit_index(x: int) -> u8 {
    (7 - x % 8) as u8
}

/// Whether pixel (x, y) of a plane is lit.
pub open spec fn pixel_lit(p: Seq<u8>, x: int, y: int) -> bool
    recommends
        plane_wf(p),
        0 <= x < PANEL_WIDTH,
        0 <= y < PANEL_HEIGHT,
{
    bit_get(p[byte_index(x, y)], bit_index(x))
}

/// In-bounds pixels have in-bounds byte indices and bit positions.
proof fn lemma_byte_index_bounds(x: int, y: int)
    requires
        0 <= x < PANEL_WIDTH,
        0 <= y < PANEL_HEIGHT,
    ensures
        0 <= byte_index(x, y) < PLANE_BYTES,
        bit_index(x) < 8,
{
    assert(0 <= x / 8 < BYTES_PER_ROW as int);
    assert(0 <= x % 8 < 8);
}

/// Two distinct in-bounds pixels live in different bytes or at different bit
/// positions: writing one cannot disturb the other.
proof fn lemma_pixel_distinct(x1: int, y1: int, x2: int, y2: int)
    requires
        0 <= x1 < PANEL_WIDTH,
        0 <= y1 < PANEL_HEIGHT,
        0 <= x2 < PANEL_WIDTH,
        0 <= y2 < PANEL_HEIGHT,
        x1 != x2 || y1 != y2,
    ensures
        byte_index(x1, y1) != byte_index(x2, y2) || bit_index(x1) != bit_index(x2),
{
    assert(0 <= x1 / 8 < BYTES_PER_ROW as int);
    assert(0 <= x2 / 8 < BYTES_PER_ROW as int);
    if y1 == y2 {
        if x1 / 8 == x2 / 8 {
            assert(x1 % 8 != x2 % 8);
            assert(bit_index(x1) != bit_index(x2));
        }
    }
}

/// `cur` is `base` with at most the one pixel (x, y) rewritten to `lit`:
/// every in-panel pixel other than (x, y) shows its `base` value. When
/// (x, y) lies outside the panel no pixel differs at all.
pub open spec fn pixel_written(base: Seq<u8>, cur: Seq<u8>, x: int, y: int, lit: bool) -> bool {
    forall|px: int, py: int|
        0 <= px < PANEL_WIDTH && 0 <= py < PANEL_HEIGHT ==> #[trigger] pixel_lit(cur, px, py) == (
        if px == x && py == y {
            lit
        } else {
            pixel_lit(base, px, py)
        })
}

/// Every in-panel pixel of `cur` shows `lit`.
pub open spec fn plane_filled(cur: Seq<u8>, lit: bool) -> bool {
    forall|px: int, py: int|
        0 <= px < PANEL_WIDTH && 0 <= py < PANEL_HEIGHT ==> #[trigger] pixel_lit(cur, px, py) == lit
}

/// Ghost image of the frame buffer: both planes as byte sequences.
pub struct FrameView {
    pub achromatic: Seq<u8>,
    pub chromatic: Seq<u8>,
}

/// Which of the two color planes.
#[derive(Clone, Copy)]
pub enum Plane {
    Achromatic,
    Chromatic,
}

/// The plane an image holds under a selector.
pub open spec fn plane_sel(f: FrameView, p: Plane) -> Seq<u8> {
    match p {
        Plane::Achromatic => f.achromatic,
        Plane::Chromatic => f.chromatic,
    }
}

/// The selector of the other plane.
pub open spec fn other_plane(p: Plane) -> Plane {
    match p {
        Plane::Achromatic => Plane::Chromatic,
        Plane::Chromatic => Plane::Achromatic,
    }
}

/// Two fixed-size bit planes; the plane size is constant for the buffer's
/// lifetime and every drawing operation is bounds-checked against it.
pub struct FrameBuffer {
    achromatic: Vec<u8>,
    chromatic: Vec<u8>,
}

impl View for FrameBuffer {
    type V = FrameView;

    closed spec fn view(&self) -> FrameView {
        FrameView { achromatic: self.achromatic@, chromatic: self.chromatic@ }
    }
}

/// A whole plane filled with one byte.
fn filled_plane(b: u8) -> (v: Vec<u8>)
    ensures
        v@.len() == PLANE_BYTES,
        forall|i: int| 0 <= i < PLANE_BYTES ==> v@[i] == b,
{
    let mut v: Vec<u8> = Vec::new();
    let mut i: usize = 0;
    while i < PLANE_BYTES
        invariant
            i <= PLANE_BYTES,
            v@.len() == i,
            forall|j: int| 0 <= j < i ==> v@[j] == b,
        decreases PLANE_BYTES - i,
    {
        v.push(b);
        i = i + 1;
    }
    v
}

impl FrameBuffer {
    /// Both planes have the panel's fixed size.
    pub open spec fn wf(&self) -> bool {
        plane_wf(self@.achromatic) && plane_wf(self@.chromatic)
    }

    /// A fresh buffer with every pixel of both planes unlit.
    pub fn new() -> (f: FrameBuffer)
        ensures
            f.wf(),
            plane_filled(f@.achromatic, false),
            plane_filled(f@.chromatic, false),
    {
        let f = FrameBuffer { achromatic: filled_plane(0), chromatic: filled_plane(0) };
        proof {
            assert forall|px: int, py: int|
                0 <= px < PANEL_WIDTH && 0 <= py < PANEL_HEIGHT implies #[trigger] pixel_lit(
                f@.achromatic,
                px,
                py,
            ) == false by {
                lemma_byte_index_bounds(px, py);
                lemma_bit_get_fill(bit_index(px));
            }
            assert forall|px: int, py: int|
                0 <= px < PANEL_WIDTH && 0 <= py < PANEL_HEIGHT implies #[trigger] pixel_lit(
                f@.chromatic,
                px,
                py,
            ) == false by {
                lemma_byte_index_bounds(px, py);
                lemma_bit_get_fill(bit_index(px));
            }
        }
        f
    }

    /// Fills one plane: afterwards every pixel of it shows `lit`, and the
    /// other plane is exactly what it was.
    pub fn clear(&mut self, plane: Plane, lit: bool)
        requires
            old(self).wf(),
        ensures
            final(self).wf(),
            plane_sel(final(self)@, other_plane(plane)) == plane_sel(old(self)@, other_plane(plane)),
            plane_filled(plane_sel(final(self)@, plane), lit),
    {
        let b: u8 = if lit {
            0xff
        } else {
            0
        };
        let p = filled_plane(b);
        match plane {
            Plane::Achromatic => self.achromatic = p,
            Plane::Chromatic => self.chromatic = p,
        }
        proof {
            assert forall|px: int, py: int|
                0 <= px < PANEL_WIDTH && 0 <= py < PANEL_HEIGHT implies #[trigger] pixel_lit(
                plane_sel(self@, plane),
                px,
                py,
            ) == lit by {
                lemma_byte_index_bounds(px, py);
                lemma_bit_get_fill(bit_index(px));
            }
        }
    }

    /// Writes one pixel of one plane. Out-of-bounds coordinates change
    /// nothing; in no case is any other pixel or the other plane disturbed.
    pub fn set_pixel(&mut self, plane: Plane, x: usize, y: usize, lit: bool)
        requires
            old(self).wf(),
        ensures
            final(self).wf(),
            plane_sel(final(self)@, other_plane(plane)) == plane_sel(old(self)@, other_plane(plane)),
            pixel_written(
                plane_sel(old(self)@, plane),
                plane_sel(final(self)@, plane),
                x as int,
                y as int,
                lit,
            ),
    {
        if x >= PANEL_WIDTH || y >= PANEL_HEIGHT {
            return ;
        }
        proof {
            lemma_byte_index_bounds(x as int, y as int);
        }
        let idx: usize = y * BYTES_PER_ROW + x / 8;
        let k: u8 = (7 - (x % 8)) as u8;
        let b: u8 = match plane {
            Plane::Achromatic => self.achromatic[idx],
            Plane::Chromatic => self.chromatic[idx],
        };
        let nb = set_bit(b, k, lit);
        match plane {
            Plane::Achromatic => self.achromatic.set(idx, nb),
            Plane::Chromatic => self.chromatic.set(idx, nb),
        }
        proof {
            assert forall|px: int, py: int|
                0 <= px < PANEL_WIDTH && 0 <= py < PANEL_HEIGHT implies #[trigger] pixel_lit(
                plane_sel(self@, plane),
                px,
                py,
            ) == (if px == x && py == y {
                lit
            } else {
                pixel_lit(plane_sel(old(self)@, plane), px, py)
            }) by {
                lemma_byte_index_bounds(px, py);
                if px == x && py == y {
                } else {
                    lemma_pixel_distinct(px, py, x as int, y as int);
                }
            }
        }
    }

    /// Read-only view of one plane, for hand-off to a display driver.
    pub fn plane(&self, plane: Plane) -> (p: &Vec<u8>)
        ensures
            p@ == plane_sel(self@, plane),
    {
        match plane {
            Plane::Achromatic => &self.achromatic,
            Plane::Chromatic => &self.chromatic,
        }
    }

    /// Stamps the glyph of one character with its cell's top-left corner at
    /// (gx, gy) on the achromatic plane: pixels the glyph inks are set to
    /// `lit`, every other pixel keeps its value, parts outside the panel are
    /// clipped, and the chromatic plane is untouched.
    fn stamp_glyph(&mut self, c: char, gx: usize, gy: usize, lit: bool)
        requires
            old(self).wf(),
            gx + GLYPH_WIDTH <= usize::MAX,
            gy + GLYPH_HEIGHT <= usize::MAX,
        ensures
            final(self).wf(),
            final(self)@.chromatic == old(self)@.chromatic,
            glyph_stamped(
                old(self)@.achromatic,
                final(self)@.achromatic,
                c,
                gx as int,
                gy as int,
                lit,
            ),
    {
        let bits = rasterize_glyph(c);
        let ghost orig = self@;
        proof {
            lemma_glyph_stamp_zero(orig.achromatic, c, gx as int, gy as int, lit);
        }
        let mut i: usize = 0;
        while i < GLYPH_WIDTH * GLYPH_HEIGHT
            invariant
                i <= GLYPH_WIDTH * GLYPH_HEIGHT,
                bits@ == glyph_of(c),
                bits@.len() == GLYPH_WIDTH * GLYPH_HEIGHT,
                gx + GLYPH_WIDTH <= usize::MAX,
                gy + GLYPH_HEIGHT <= usize::MAX,
                self.wf(),
                self@.chromatic == orig.chromatic,
                glyph_stamped_upto(
                    orig.achromatic,
                    self@.achromatic,
                    c,
                    gx as int,
                    gy as int,
                    i as int,
                    lit,
                ),
            decreases GLYPH_WIDTH * GLYPH_HEIGHT - i,
        {
            let col: usize = i % GLYPH_WIDTH;
            let row: usize = i / GLYPH_WIDTH;
            let ghost prevp = self@.achromatic;
            proof {
                vstd::arithmetic::div_mod::lemma_fundamental_div_mod(i as int, GLYPH_WIDTH as int);
                assert(glyph_on(c, col as int, row as int) == bits@[i as int]);
            }
            if bits[i] {
                self.set_pixel(Plane::Achromatic, gx + col, gy + row, lit);
                proof {
                    assert(plane_sel(self@, Plane::Achromatic) == self@.achromatic);
                    lemma_glyph_stamp_step_inked(
                        orig.achromatic,
                        prevp,
                        self@.achromatic,
                        c,
                        gx as int,
                        gy as int,
                        i as int,
                        lit,
                    );
                }
            } else {
                proof {
                    lemma_glyph_stamp_step_blank(
                        orig.achromatic,
                        self@.achromatic,
                        c,
                        gx as int,
                        gy as int,
                        i as int,
                        lit,
                    );
                }
            }
            i = i + 1;
        }
        proof {
            lemma_glyph_stamp_full(orig.achromatic, self@.achromatic, c, gx as int, gy as int, lit);
        }
    }

    /// Draws one line of text on the achromatic plane, the first character
    /// cell's top-left corner at (x, y): glyph-inked pixels become `lit`,
    /// every other pixel keeps its value, anything outside the panel is
    /// clipped, and the chromatic plane is untouched.
    pub fn draw_text(&mut self, text: &str, x: usize, y: usize, lit: bool)
        requires
            old(self).wf(),
        ensures
            final(self).wf(),
            final(self)@.chromatic == old(self)@.chromatic,
            text_stamped(
                old(self)@.achromatic,
                final(self)@.achromatic,
                text@,
                x as int,
                y as int,
                lit,
            ),
    {
        let ghost orig = self@;
        if y >= PANEL_HEIGHT {
            proof {
                lemma_text_lit_oob(text@, x as int, y as int);
                lemma_text_stamp_trivial(orig.achromatic, text@, x as int, y as int, lit);
            }
            return ;
        }
        let n = text.unicode_len();
        proof {
            lemma_text_stamp_zero(orig.achromatic, text@, x as int, y as int, lit);
        }
        let mut k: usize = 0;
        let mut cell_x: usize = x;
        while k < n && cell_x < PANEL_WIDTH
            invariant
                k <= n,
                n == text@.len(),
                y < PANEL_HEIGHT,
                cell_x == x + k * GLYPH_WIDTH,
                self.wf(),
                self@.chromatic == orig.chromatic,
                text_stamped(
                    orig.achromatic,
                    self@.achromatic,
                    text@.take(k as int),
                    x as int,
                    y as int,
                    lit,
                ),
            decreases n - k,
        {
            let c = text.get_char(k);
            let ghost prevp = self@.achromatic;
            self.stamp_glyph(c, cell_x, y, lit);
            proof {
                lemma_text_stamp_step(
                    orig.achromatic,
                    prevp,
                    self@.achromatic,
                    text@,
                    x as int,
                    y as int,
                    k as int,
                    lit,
                );
            }
            k = k + 1;
            cell_x = cell_x + GLYPH_WIDTH;
        }
        proof {
            if k == n {
                assert(text@.take(n as int) =~= text@);
            } else {
                lemma_text_lit_clipped(text@, x as int, y as int, k as int);
                lemma_text_stamp_weaken(
                    orig.achromatic,
                    self@.achromatic,
                    text@,
                    x as int,
                    y as int,
                    k as int,
                    lit,
                );
            }
        }
    }
}

/// The glyph grid of the fixed 10-by-20 monospace font, one boolean per cell
/// pixel, row-major: whether the font inks that pixel of the character.
pub uninterp spec fn glyph_of(c: char) -> Seq<bool>;

/// Whether the glyph of `c` inks its cell pixel (col, row).
pub open spec fn glyph_on(c: char, col: int, row: int) -> bool
    recommends
        0 <= col < GLYPH_WIDTH,
        0 <= row < GLYPH_HEIGHT,
{
    glyph_of(c)[row * (GLYPH_WIDTH as int) + col]
}

/// Whether pixel (px, py) lies in the glyph cell whose top-left corner is
/// (gx, gy).
pub open spec fn in_cell(gx: int, gy: int, px: int, py: int) -> bool {
    gx <= px < gx + GLYPH_WIDTH && gy <= py < gy + GLYPH_HEIGHT
}

/// Row-major position of pixel (px, py) inside the cell at (gx, gy).
pub open spec fn cell_pos(gx: int, gy: int, px: int, py: int) -> int {
    (py - gy) * (GLYPH_WIDTH as int) + (px - gx)
}

/// Whether drawing the glyph of `c` in the cell at (gx, gy) inks (px, py).
pub open spec fn glyph_covers(c: char, gx: int, gy: int, px: int, py: int) -> bool {
    in_cell(gx, gy, px, py) && glyph_on(c, px - gx, py - gy)
}

/// `cur` is `base` with the glyph of `c` stamped at (gx, gy): in-panel pixels
/// the glyph inks show `lit`, all others their `base` value.
pub open spec fn glyph_stamped(
    base: Seq<u8>,
    cur: Seq<u8>,
    c: char,
    gx: int,
    gy: int,
    lit: bool,
) -> bool {
    forall|px: int, py: int|
        0 <= px < PANEL_WIDTH && 0 <= py < PANEL_HEIGHT ==> #[trigger] pixel_lit(cur, px, py) == (
        if glyph_covers(c, gx, gy, px, py) {
            lit
        } else {
            pixel_lit(base, px, py)
        })
}

/// `cur` is `base` with the first `n` cell pixels (in row-major cell order)
/// of the glyph of `c` stamped at (gx, gy).
pub open spec fn glyph_stamped_upto(
    base: Seq<u8>,
    cur: Seq<u8>,
    c: char,
    gx: int,
    gy: int,
    n: int,
    lit: bool,
) -> bool {
    forall|px: int, py: int|
        0 <= px < PANEL_WIDTH && 0 <= py < PANEL_HEIGHT ==> #[trigger] pixel_lit(cur, px, py) == (
        if glyph_covers(c, gx, gy, px, py) && cell_pos(gx, gy, px, py) < n {
            lit
        } else {
            pixel_lit(base, px, py)
        })
}

/// Before any cell pixel is written, the plane is stamped up to position 0.
proof fn lemma_glyph_stamp_zero(base: Seq<u8>, c: char, gx: int, gy: int, lit: bool)
    ensures
        glyph_stamped_upto(base, base, c, gx, gy, 0, lit),
{
    assert forall|px: int, py: int|
        0 <= px < PANEL_WIDTH && 0 <= py < PANEL_HEIGHT implies #[trigger] pixel_lit(base, px, py)
        == (if glyph_covers(c, gx, gy, px, py) && cell_pos(gx, gy, px, py) < 0 {
        lit
    } else {
        pixel_lit(base, px, py)
    }) by {
        if in_cell(gx, gy, px, py) {
            assert((py - gy) * (GLYPH_WIDTH as int) >= 0) by {
                vstd::arithmetic::mul::lemma_mul_nonnegative(py - gy, GLYPH_WIDTH as int);
            }
            assert(cell_pos(gx, gy, px, py) >= 0);
        }
    }
}

/// Writing cell pixel `n` (one the glyph inks) extends the stamp to `n + 1`.
proof fn lemma_glyph_stamp_step_inked(
    base: Seq<u8>,
    prev: Seq<u8>,
    cur: Seq<u8>,
    c: char,
    gx: int,
    gy: int,
    n: int,
    lit: bool,
)
    requires
        0 <= n < GLYPH_WIDTH * GLYPH_HEIGHT,
        glyph_stamped_upto(base, prev, c, gx, gy, n, lit),
        glyph_on(c, n % (GLYPH_WIDTH as int), n / (GLYPH_WIDTH as int)),
        pixel_written(
            prev,
            cur,
            gx + n % (GLYPH_WIDTH as int),
            gy + n / (GLYPH_WIDTH as int),
            lit,
        ),
    ensures
        glyph_stamped_upto(base, cur, c, gx, gy, n + 1, lit),
{
    let col = n % (GLYPH_WIDTH as int);
    let row = n / (GLYPH_WIDTH as int);
    vstd::arithmetic::div_mod::lemma_fundamental_div_mod(n, GLYPH_WIDTH as int);
    assert forall|px: int, py: int|
        0 <= px < PANEL_WIDTH && 0 <= py < PANEL_HEIGHT implies #[trigger] pixel_lit(cur, px, py)
        == (if glyph_covers(c, gx, gy, px, py) && cell_pos(gx, gy, px, py) < n + 1 {
        lit
    } else {
        pixel_lit(base, px, py)
    }) by {
        assert(pixel_lit(cur, px, py) == (if px == gx + col && py == gy + row {
            lit
        } else {
            pixel_lit(prev, px, py)
        }));
        assert(pixel_lit(prev, px, py) == (if glyph_covers(c, gx, gy, px, py) && cell_pos(
            gx,
            gy,
            px,
            py,
        ) < n {
            lit
        } else {
            pixel_lit(base, px, py)
        }));
        if px == gx + col && py == gy + row {
            assert(in_cell(gx, gy, px, py));
            assert(cell_pos(gx, gy, px, py) == n);
            assert(glyph_covers(c, gx, gy, px, py));
        } else {
            if in_cell(gx, gy, px, py) && cell_pos(gx, gy, px, py) == n {
                vstd::arithmetic::div_mod::lemma_fundamental_div_mod_converse(
                    n,
                    GLYPH_WIDTH as int,
                    py - gy,
                    px - gx,
                );
                assert(false);
            }
        }
    }
}

/// Skipping cell pixel `n` (one the glyph leaves blank) also extends the
/// stamp to `n + 1`.
proof fn lemma_glyph_stamp_step_blank(
    base: Seq<u8>,
    cur: Seq<u8>,
    c: char,
    gx: int,
    gy: int,
    n: int,
    lit: bool,
)
    requires
        0 <= n < GLYPH_WIDTH * GLYPH_HEIGHT,
        glyph_stamped_upto(base, cur, c, gx, gy, n, lit),
        !glyph_on(c, n % (GLYPH_WIDTH as int), n / (GLYPH_WIDTH as int)),
    ensures
        glyph_stamped_upto(base, cur, c, gx, gy, n + 1, lit),
{
    assert forall|px: int, py: int|
        0 <= px < PANEL_WIDTH && 0 <= py < PANEL_HEIGHT implies #[trigger] pixel_lit(cur, px, py)
        == (if glyph_covers(c, gx, gy, px, py) && cell_pos(gx, gy, px, py) < n + 1 {
        lit
    } else {
        pixel_lit(base, px, py)
    }) by {
        assert(pixel_lit(cur, px, py) == (if glyph_covers(c, gx, gy, px, py) && cell_pos(
            gx,
            gy,
            px,
            py,
        ) < n {
            lit
        } else {
            pixel_lit(base, px, py)
        }));
        if in_cell(gx, gy, px, py) && cell_pos(gx, gy, px, py) == n {
            vstd::arithmetic::div_mod::lemma_fundamental_div_mod_converse(
                n,
                GLYPH_WIDTH as int,
                py - gy,
                px - gx,
            );
            assert(!glyph_covers(c, gx, gy, px, py));
        }
    }
}

/// A stamp of every cell position is the whole glyph stamp.
proof fn lemma_glyph_stamp_full(base: Seq<u8>, cur: Seq<u8>, c: char, gx: int, gy: int, lit: bool)
    requires
        glyph_stamped_upto(base, cur, c, gx, gy, (GLYPH_WIDTH * GLYPH_HEIGHT) as int, lit),
    ensures
        glyph_stamped(base, cur, c, gx, gy, lit),
{
    assert forall|px: int, py: int|
        0 <= px < PANEL_WIDTH && 0 <= py < PANEL_HEIGHT implies #[trigger] pixel_lit(cur, px, py)
        == (if glyph_covers(c, gx, gy, px, py) {
        lit
    } else {
        pixel_lit(base, px, py)
    }) by {
        assert(pixel_lit(cur, px, py) == (if glyph_covers(c, gx, gy, px, py) && cell_pos(
            gx,
            gy,
            px,
            py,
        ) < (GLYPH_WIDTH * GLYPH_HEIGHT) as int {
            lit
        } else {
            pixel_lit(base, px, py)
        }));
        if in_cell(gx, gy, px, py) {
            assert((py - gy) * (GLYPH_WIDTH as int) <= (GLYPH_HEIGHT as int - 1) * (
            GLYPH_WIDTH as int)) by {
                vstd::arithmetic::mul::lemma_mul_inequality(
                    py - gy,
                    GLYPH_HEIGHT as int - 1,
                    GLYPH_WIDTH as int,
                );
            }
            assert(cell_pos(gx, gy, px, py) < (GLYPH_WIDTH * GLYPH_HEIGHT) as int);
        }
    }
}

/// Whether drawing `text` with its first cell's top-left corner at (tx, ty)
/// inks pixel (px, py): character k occupies the cell at
/// (tx + k * GLYPH_WIDTH, ty).
pub open spec fn text_lit_at(text: Seq<char>, tx: int, ty: int, px: int, py: int) -> bool
    decreases text.len(),
{
    if text.len() == 0 {
        false
    } else {
        text_lit_at(text.drop_last(), tx, ty, px, py) || glyph_covers(
            text.last(),
            tx + (text.len() - 1) * (GLYPH_WIDTH as int),
            ty,
            px,
            py,
        )
    }
}

/// `cur` is `base` with the line `text` drawn at (tx, ty): in-panel pixels
/// the text inks show `lit`, all others their `base` value.
pub open spec fn text_stamped(
    base: Seq<u8>,
    cur: Seq<u8>,
    text: Seq<char>,
    tx: int,
    ty: int,
    lit: bool,
) -> bool {
    forall|px: int, py: int|
        0 <= px < PANEL_WIDTH && 0 <= py < PANEL_HEIGHT ==> #[trigger] pixel_lit(cur, px, py) == (
        if text_lit_at(text, tx, ty, px, py) {
            lit
        } else {
            pixel_lit(base, px, py)
        })
}

/// Before any character is drawn, the plane carries the empty prefix.
proof fn lemma_text_stamp_zero(base: Seq<u8>, text: Seq<char>, tx: int, ty: int, lit: bool)
    ensures
        text_stamped(base, base, text.take(0), tx, ty, lit),
{
    assert(text.take(0) =~= Seq::<char>::empty());
    assert forall|px: int, py: int|
        0 <= px < PANEL_WIDTH && 0 <= py < PANEL_HEIGHT implies #[trigger] pixel_lit(base, px, py)
        == (if text_lit_at(text.take(0), tx, ty, px, py) {
        lit
    } else {
        pixel_lit(base, px, py)
    }) by {
        assert(!text_lit_at(text.take(0), tx, ty, px, py));
    }
}

/// A line that inks no in-panel pixel leaves the plane as it was.
proof fn lemma_text_stamp_trivial(base: Seq<u8>, text: Seq<char>, tx: int, ty: int, lit: bool)
    requires
        forall|px: int, py: int|
            0 <= px < PANEL_WIDTH && 0 <= py < PANEL_HEIGHT ==> !text_lit_at(text, tx, ty, px, py),
    ensures
        text_stamped(base, base, text, tx, ty, lit),
{
    assert forall|px: int, py: int|
        0 <= px < PANEL_WIDTH && 0 <= py < PANEL_HEIGHT implies #[trigger] pixel_lit(base, px, py)
        == (if text_lit_at(text, tx, ty, px, py) {
        lit
    } else {
        pixel_lit(base, px, py)
    }) by {
        assert(!text_lit_at(text, tx, ty, px, py));
    }
}

/// Stamping character k's glyph onto a plane that carries the first k
/// characters yields a plane that carries the first k + 1.
proof fn lemma_text_stamp_step(
    base: Seq<u8>,
    prev: Seq<u8>,
    cur: Seq<u8>,
    text: Seq<char>,
    tx: int,
    ty: int,
    k: int,
    lit: bool,
)
    requires
        0 <= k < text.len(),
        text_stamped(base, prev, text.take(k), tx, ty, lit),
        glyph_stamped(prev, cur, text[k], tx + k * (GLYPH_WIDTH as int), ty, lit),
    ensures
        text_stamped(base, cur, text.take(k + 1), tx, ty, lit),
{
    assert(text.take(k + 1).drop_last() =~= text.take(k));
    assert(text.take(k + 1).last() == text[k]);
    assert forall|px: int, py: int|
        0 <= px < PANEL_WIDTH && 0 <= py < PANEL_HEIGHT implies #[trigger] pixel_lit(cur, px, py)
        == (if text_lit_at(text.take(k + 1), tx, ty, px, py) {
        lit
    } else {
        pixel_lit(base, px, py)
    }) by {
        assert(pixel_lit(cur, px, py) == (if glyph_covers(
            text[k],
            tx + k * (GLYPH_WIDTH as int),
            ty,
            px,
            py,
        ) {
            lit
        } else {
            pixel_lit(prev, px, py)
        }));
        assert(pixel_lit(prev, px, py) == (if text_lit_at(text.take(k), tx, ty, px, py) {
            lit
        } else {
            pixel_lit(base, px, py)
        }));
        assert(text_lit_at(text.take(k + 1), tx, ty, px, py) == (text_lit_at(
            text.take(k),
            tx,
            ty,
            px,
            py,
        ) || glyph_covers(text[k], tx + k * (GLYPH_WIDTH as int), ty, px, py)));
    }
}

/// A plane that carries the first k characters carries the whole line when
/// the characters from k on ink no in-panel pixel.
proof fn lemma_text_stamp_weaken(
    base: Seq<u8>,
    cur: Seq<u8>,
    text: Seq<char>,
    tx: int,
    ty: int,
    k: int,
    lit: bool,
)
    requires
        0 <= k <= text.len(),
        text_stamped(base, cur, text.take(k), tx, ty, lit),
        forall|px: int, py: int|
            0 <= px < PANEL_WIDTH && 0 <= py < PANEL_HEIGHT ==> text_lit_at(text, tx, ty, px, py)
                == text_lit_at(text.take(k), tx, ty, px, py),
    ensures
        text_stamped(base, cur, text, tx, ty, lit),
{
    assert forall|px: int, py: int|
        0 <= px < PANEL_WIDTH && 0 <= py < PANEL_HEIGHT implies #[trigger] pixel_lit(cur, px, py)
        == (if text_lit_at(text, tx, ty, px, py) {
        lit
    } else {
        pixel_lit(base, px, py)
    }) by {
        assert(pixel_lit(cur, px, py) == (if text_lit_at(text.take(k), tx, ty, px, py) {
            lit
        } else {
            pixel_lit(base, px, py)
        }));
        assert(text_lit_at(text, tx, ty, px, py) == text_lit_at(text.take(k), tx, ty, px, py));
    }
}

/// A line whose first cell starts at or below the bottom of the panel, or at
/// or beyond its right edge, inks no in-panel pixel.
pub proof fn lemma_text_lit_oob(text: Seq<char>, tx: int, ty: int)
    requires
        ty >= PANEL_HEIGHT || tx >= PANEL_WIDTH,
    ensures
        forall|px: int, py: int|
            0 <= px < PANEL_WIDTH && 0 <= py < PANEL_HEIGHT ==> !text_lit_at(text, tx, ty, px, py),
    decreases text.len(),
{
    if text.len() > 0 {
        lemma_text_lit_oob(text.drop_last(), tx, ty);
        assert forall|px: int, py: int|
            0 <= px < PANEL_WIDTH && 0 <= py < PANEL_HEIGHT implies !text_lit_at(
            text,
            tx,
            ty,
            px,
            py,
        ) by {
            let k = text.len() - 1;
            assert(tx + k * (GLYPH_WIDTH as int) >= tx) by {
                vstd::arithmetic::mul::lemma_mul_nonnegative(k, GLYPH_WIDTH as int);
            }
            assert(!in_cell(tx + k * (GLYPH_WIDTH as int), ty, px, py));
            assert(!text_lit_at(text.drop_last(), tx, ty, px, py));
        }
    }
}

/// Characters from position k on all sit at or beyond the right edge of the
/// panel when character k's cell already does, so they ink no in-panel pixel:
/// the line's effect is the effect of its first k characters.
proof fn lemma_text_lit_clipped(text: Seq<char>, tx: int, ty: int, k: int)
    requires
        0 <= k <= text.len(),
        tx + k * (GLYPH_WIDTH as int) >= PANEL_WIDTH,
    ensures
        forall|px: int, py: int|
            0 <= px < PANEL_WIDTH && 0 <= py < PANEL_HEIGHT ==> text_lit_at(text, tx, ty, px, py)
                == text_lit_at(text.take(k), tx, ty, px, py),
    decreases text.len() - k,
{
    if k == text.len() {
        assert(text.take(k) =~= text);
    } else {
        assert(text.take(k + 1).drop_last() =~= text.take(k));
        assert(text.take(k + 1).last() == text[k]);
        assert((k + 1) * (GLYPH_WIDTH as int) >= k * (GLYPH_WIDTH as int) + (GLYPH_WIDTH as int));
        lemma_text_lit_clipped(text, tx, ty, k + 1);
        assert forall|px: int, py: int|
            0 <= px < PANEL_WIDTH && 0 <= py < PANEL_HEIGHT implies text_lit_at(text, tx, ty, px, py)
            == text_lit_at(text.take(k), tx, ty, px, py) by {
            assert(!in_cell(tx + k * (GLYPH_WIDTH as int), ty, px, py));
            assert(!glyph_covers(text[k], tx + k * (GLYPH_WIDTH as int), ty, px, py));
            assert(text_lit_at(text.take(k + 1), tx, ty, px, py) == (text_lit_at(
                text.take(k),
                tx,
                ty,
                px,
                py,
            ) || glyph_covers(text[k], tx + k * (GLYPH_WIDTH as int), ty, px, py)));
            assert(text_lit_at(text, tx, ty, px, py) == text_lit_at(text.take(k + 1), tx, ty, px, py));
        }
    }
}

/// Relies on embedded_graphics: the fixed 10-by-20 monospace font
/// `FONT_10X20`, drawn one character at a time through `Text` onto a
/// `MockDisplay` and read back pixel by pixel, row-major. The resulting
/// pixels depend on the character alone.
#[verifier::external_body]
fn rasterize_glyph(c: char) -> (bits: Vec<bool>)
    ensures
        bits@ == glyph_of(c),
        bits@.len() == GLYPH_WIDTH * GLYPH_HEIGHT,
{
    let style = MonoTextStyle::new(&FONT_10X20, BinaryColor::On);
    let mut disp: MockDisplay<BinaryColor> = MockDisplay::new();
    disp.set_allow_out_of_bounds_drawing(true);
    disp.set_allow_overdraw(true);
    let mut buf = [0u8; 4];
    let t = Text::with_baseline(c.encode_utf8(&mut buf), Point::zero(), style, Baseline::Top);
    let _ = t.draw(&mut disp);
    let mut bits = Vec::new();
    for row in 0..20i32 {
        for col in 0..10i32 {
            bits.push(disp.get_pixel(Point::new(col, row)) == Some(BinaryColor::On));
        }
    }
    bits
}

} // verus!
