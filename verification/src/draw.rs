//! The rasterizer: converts draw primitives into framebuffer pixel writes
//! with backface culling, screen-space clipping and integer scanline
//! conversion under a bounded row width.

use vstd::prelude::*;

verus! {

use vstd::arithmetic::div_mod::{
    lemma_div_is_ordered,
    lemma_div_multiples_vanish,
    lemma_div_pos_is_pos,
};
use crate::signed_area;
use crate::DrawPrimitive;
use crate::RenderError;
use crate::ScreenPoint;
use crate::target::Pixel;
use crate::target::PixelTarget;

/// The widest scanline span one triangle row may write: the fixed row
/// buffer capacity of the target display class.
pub const MAX_ROW_WIDTH: usize = 100;

/// The largest coordinate magnitude the rasterizer accepts; keeps every
/// intermediate product of the integer interpolation inside 64 bits.
pub const MAX_COORD: i32 = 1_000_000_000;

/// Whether a point's coordinates are within the accepted range.
pub open spec fn coord_ok(p: ScreenPoint) -> bool {
    &&& -MAX_COORD <= p.x <= MAX_COORD
    &&& -MAX_COORD <= p.y <= MAX_COORD
}

/// Division truncated toward zero, for a positive divisor.
pub open spec fn tdiv(a: int, b: int) -> int {
    if a >= 0 {
        a / b
    } else {
        -((-a) / b)
    }
}

/// The remainder matching [`tdiv`]: it carries the sign of the dividend.
pub open spec fn tmod(a: int, b: int) -> int {
    a - b * tdiv(a, b)
}

/// Truncated division on 64-bit values.
fn tdiv64(a: i64, b: i64) -> (r: i64)
    requires
        b > 0,
        a > i64::MIN,
    ensures
        r == tdiv(a as int, b as int),
{
    if a >= 0 {
        proof {
            lemma_div_pos_is_pos(a as int, b as int);
            lemma_div_is_ordered(a as int / b as int, a as int, 1);
            assert(a as int / b as int <= a as int) by {
                vstd::arithmetic::div_mod::lemma_div_nonincreasing(a as int, b as int);
            }
        }
        ((a as u64) / (b as u64)) as i64
    } else {
        let n: u64 = (-a) as u64;
        proof {
            lemma_div_pos_is_pos((-a) as int, b as int);
            assert((-a) as int / b as int <= (-a) as int) by {
                vstd::arithmetic::div_mod::lemma_div_nonincreasing((-a) as int, b as int);
            }
        }
        -((n / (b as u64)) as i64)
    }
}

/// For an interpolation step `0 <= t <= dy`, the truncated quotient
/// `dx * t / dy` lies between zero and `dx`.
pub proof fn lemma_tdiv_in_range(dx: int, t: int, dy: int)
    requires
        dy > 0,
        0 <= t <= dy,
    ensures
        dx >= 0 ==> 0 <= tdiv(dx * t, dy) <= dx,
        dx < 0 ==> dx <= tdiv(dx * t, dy) <= 0,
{
    if dx >= 0 {
        assert(0 <= dx * t <= dx * dy) by (nonlinear_arith)
            requires
                dx >= 0,
                0 <= t <= dy,
        ;
        lemma_div_pos_is_pos(dx * t, dy);
        lemma_div_is_ordered(dx * t, dx * dy, dy);
        lemma_div_multiples_vanish(dx, dy);
        assert(dx * dy == dy * dx) by (nonlinear_arith);
        assert((dx * dy) / dy == dx);
    } else {
        let m = -dx;
        assert(0 <= m * t <= m * dy) by (nonlinear_arith)
            requires
                m >= 0,
                0 <= t <= dy,
        ;
        lemma_div_pos_is_pos(m * t, dy);
        lemma_div_is_ordered(m * t, m * dy, dy);
        lemma_div_multiples_vanish(m, dy);
        assert(m * dy == dy * m) by (nonlinear_arith);
        assert((m * dy) / dy == m);
        assert(-(dx * t) == m * t) by (nonlinear_arith)
            requires
                m == -dx,
        ;
        if dx * t >= 0 {
            assert(dx * t == 0) by (nonlinear_arith)
                requires
                    dx < 0,
                    t >= 0,
                    dx * t >= 0,
            ;
            assert(tdiv(dx * t, dy) == 0) by {
                vstd::arithmetic::div_mod::lemma_div_of0(dy);
            }
        } else {
            assert(tdiv(dx * t, dy) == -((m * t) / dy));
        }
    }
}

/// The x coordinate where the edge from `ps` down to `pe` crosses scanline
/// `y`: linear interpolation with truncating division, exact at both
/// endpoints.
pub open spec fn edge_x(ps: ScreenPoint, pe: ScreenPoint, y: int) -> int {
    ps.x + tdiv((pe.x - ps.x) * (y - ps.y), pe.y - ps.y)
}

/// The interpolated x never leaves the edge's horizontal extent.
pub proof fn lemma_edge_x_in_range(ps: ScreenPoint, pe: ScreenPoint, y: int)
    requires
        ps.y < pe.y,
        ps.y <= y <= pe.y,
    ensures
        ps.x <= pe.x ==> ps.x <= edge_x(ps, pe, y) <= pe.x,
        pe.x <= ps.x ==> pe.x <= edge_x(ps, pe, y) <= ps.x,
{
    lemma_tdiv_in_range(pe.x - ps.x, y - ps.y, pe.y - ps.y);
}

/// Evaluates [`edge_x`].
fn edge_x_at(ps: ScreenPoint, pe: ScreenPoint, y: i32) -> (r: i32)
    requires
        coord_ok(ps),
        coord_ok(pe),
        ps.y < pe.y,
        ps.y <= y <= pe.y,
    ensures
        r as int == edge_x(ps, pe, y as int),
        ps.x <= pe.x ==> ps.x <= r <= pe.x,
        pe.x <= ps.x ==> pe.x <= r <= ps.x,
{
    let dx: i64 = (pe.x as i64) - (ps.x as i64);
    let dy: i64 = (pe.y as i64) - (ps.y as i64);
    let t: i64 = (y as i64) - (ps.y as i64);
    proof {
        assert(dx * t == (pe.x - ps.x) * ((y as int) - ps.y)) by (nonlinear_arith)
            requires
                dx == pe.x - ps.x,
                t == (y as int) - ps.y,
        ;
        assert(-0x4000_0000_0000_0000 < dx * t < 0x4000_0000_0000_0000) by (nonlinear_arith)
            requires
                -2_000_000_001 < dx < 2_000_000_001,
                0 <= t < 2_000_000_001,
        ;
        lemma_tdiv_in_range(dx as int, t as int, dy as int);
    }
    let q: i64 = tdiv64(dx * t, dy);
    ((ps.x as i64) + q) as i32
}

/// One step of the incremental interpolation recurrence: add the truncated
/// per-line quotient, accumulate the truncating remainder in the error
/// term, and pay out one extra unit when the error reaches the
/// denominator.
pub open spec fn interp_step(x: int, error: int, dx: int, dy: int) -> (int, int) {
    let q = tdiv(dx, dy);
    let e1 = error + tmod(dx, dy);
    if e1 >= dy {
        (x + q + 1, e1 - dy)
    } else {
        (x + q, e1)
    }
}

/// The interpolator's x and error after `k` steps from `x0`.
pub open spec fn interp_after(x0: int, dx: int, dy: int, k: nat) -> (int, int)
    decreases k,
{
    if k == 0 {
        (x0, 0)
    } else {
        let (x, e) = interp_after(x0, dx, dy, (k - 1) as nat);
        interp_step(x, e, dx, dy)
    }
}

/// Law: for a rightward edge, the incremental edge-walking interpolator and
/// direct truncating division are the same interpolation: after `k` steps
/// the walked x is exactly `x0 + dx * k / dy`, so both schemes produce the
/// same boundary coordinate at every scanline, and after `dy` steps both
/// land exactly on the far endpoint `x0 + dx`.
pub proof fn lemma_interpolator_matches_division(x0: int, dx: int, dy: int, k: nat)
    requires
        dy > 0,
        dx >= 0,
    ensures
        interp_after(x0, dx, dy, k) == (x0 + tdiv(dx * k, dy), tmod(dx * k, dy)),
        k == dy ==> interp_after(x0, dx, dy, k).0 == x0 + dx,
    decreases k,
{
    lemma_tmod_range(dx, dy);
    if k == 0 {
        assert(dx * k == 0) by (nonlinear_arith)
            requires
                k == 0,
        ;
        vstd::arithmetic::div_mod::lemma_div_of0(dy);
        assert(tdiv(dx * k, dy) == 0 && tmod(dx * k, dy) == 0);
    } else {
        lemma_interpolator_matches_division(x0, dx, dy, (k - 1) as nat);
        let a = dx * (k - 1);
        let prev = interp_after(x0, dx, dy, (k - 1) as nat);
        assert(interp_after(x0, dx, dy, k) == interp_step(prev.0, prev.1, dx, dy));
        assert(prev == (x0 + tdiv(a, dy), tmod(a, dy)));
        assert(a >= 0 && dx * k == a + dx && a + dx >= 0) by (nonlinear_arith)
            requires
                dx >= 0,
                k >= 1,
                a == dx * (k - 1),
        ;
        lemma_tmod_range(a, dy);
        lemma_tmod_range(a + dx, dy);
        // With everything non-negative, the truncating pair is the
        // Euclidean pair, and the step keeps the remainder normalized.
        assert(tdiv(a, dy) == a / dy && tmod(a, dy) == a % dy) by {
            vstd::arithmetic::div_mod::lemma_fundamental_div_mod(a, dy);
        }
        assert(tdiv(dx, dy) == dx / dy && tmod(dx, dy) == dx % dy) by {
            vstd::arithmetic::div_mod::lemma_fundamental_div_mod(dx, dy);
        }
        let e1 = a % dy + dx % dy;
        vstd::arithmetic::div_mod::lemma_fundamental_div_mod(a, dy);
        vstd::arithmetic::div_mod::lemma_fundamental_div_mod(dx, dy);
        vstd::arithmetic::div_mod::lemma_mod_division_less_than_divisor(a, dy);
        vstd::arithmetic::div_mod::lemma_mod_division_less_than_divisor(dx, dy);
        if e1 >= dy {
            assert(a + dx == (a / dy + dx / dy + 1) * dy + (e1 - dy)) by (nonlinear_arith)
                requires
                    a == dy * (a / dy) + a % dy,
                    dx == dy * (dx / dy) + dx % dy,
                    e1 == a % dy + dx % dy,
            ;
            vstd::arithmetic::div_mod::lemma_fundamental_div_mod_converse(
                a + dx,
                dy,
                a / dy + dx / dy + 1,
                e1 - dy,
            );
        } else {
            assert(a + dx == (a / dy + dx / dy) * dy + e1) by (nonlinear_arith)
                requires
                    a == dy * (a / dy) + a % dy,
                    dx == dy * (dx / dy) + dx % dy,
                    e1 == a % dy + dx % dy,
            ;
            vstd::arithmetic::div_mod::lemma_fundamental_div_mod_converse(
                a + dx,
                dy,
                a / dy + dx / dy,
                e1,
            );
        }
        assert(tdiv(a + dx, dy) == (a + dx) / dy && tmod(a + dx, dy) == (a + dx) % dy) by {
            vstd::arithmetic::div_mod::lemma_fundamental_div_mod(a + dx, dy);
        }
        if e1 >= dy {
            assert((a + dx) / dy == a / dy + dx / dy + 1 && (a + dx) % dy == e1 - dy);
            assert(interp_step(prev.0, prev.1, dx, dy) == (
                x0 + tdiv(a + dx, dy),
                tmod(a + dx, dy),
            ));
        } else {
            assert((a + dx) / dy == a / dy + dx / dy && (a + dx) % dy == e1);
            assert(interp_step(prev.0, prev.1, dx, dy) == (
                x0 + tdiv(a + dx, dy),
                tmod(a + dx, dy),
            ));
        }
        if k == dy {
            assert(dx * k == dx * dy) by (nonlinear_arith)
                requires
                    k == dy,
            ;
            lemma_div_multiples_vanish(dx, dy);
            assert(dx * dy == dy * dx) by (nonlinear_arith);
        }
    }
}

/// The incremental edge-walking interpolator: starting at an edge's upper
/// end, each [`Self::next`] call advances one scanline by adding the
/// truncated per-line step and accumulating the remainder in an error term
/// that pays out one extra pixel when it reaches the denominator.
pub struct Interpolator {
    pub x: i32,
    pub dx: i32,
    pub dy: i32,
    pub error: i32,
}

impl Interpolator {
    pub fn new(p_start: ScreenPoint, p_end: ScreenPoint) -> (r: Interpolator)
        requires
            coord_ok(p_start),
            coord_ok(p_end),
        ensures
            r == (Interpolator {
                x: p_start.x,
                dx: (p_end.x - p_start.x) as i32,
                dy: (p_end.y - p_start.y) as i32,
                error: 0,
            }),
    {
        Interpolator {
            x: p_start.x,
            dx: p_end.x - p_start.x,
            dy: p_end.y - p_start.y,
            error: 0,
        }
    }

    /// One interpolation step.
    pub fn next(&mut self) -> (r: i32)
        requires
            old(self).dy > 0,
            i32::MIN <= old(self).x + tdiv(old(self).dx as int, old(self).dy as int),
            old(self).x + tdiv(old(self).dx as int, old(self).dy as int) + 1 <= i32::MAX,
            i32::MIN <= old(self).error + tmod(old(self).dx as int, old(self).dy as int)
                <= i32::MAX,
        ensures
            (final(self).x as int, final(self).error as int) == interp_step(
                old(self).x as int,
                old(self).error as int,
                old(self).dx as int,
                old(self).dy as int,
            ),
            final(self).dx == old(self).dx,
            final(self).dy == old(self).dy,
            r == final(self).x,
    {
        let q64: i64 = tdiv64(self.dx as i64, self.dy as i64);
        proof {
            lemma_tdiv_in_range(self.dx as int, self.dy as int, self.dy as int);
            lemma_div_multiples_vanish(self.dx as int, self.dy as int);
        }
        let q: i32 = q64 as i32;
        let m64: i64 = (self.dx as i64) - (self.dy as i64) * q64;
        proof {
            assert((self.dy as i64) * q64 == self.dy * tdiv(self.dx as int, self.dy as int));
            assert(-(self.dy as int) < tmod(self.dx as int, self.dy as int) < self.dy as int) by {
                lemma_tmod_range(self.dx as int, self.dy as int);
            }
        }
        let m: i32 = m64 as i32;
        self.x = self.x + q;
        self.error = self.error + m;
        if self.error >= self.dy {
            self.x = self.x + 1;
            self.error = self.error - self.dy;
        }
        self.x
    }
}

/// The two active edges of the y-sorted triangle `(p1, p2, p3)` at scanline
/// `y`, as an ordered pair of boundary x coordinates: rows above the middle
/// vertex interpolate the short edge `p1..p2`, rows from it down interpolate
/// `p2..p3`, and every row interpolates the long edge `p1..p3`.
pub open spec fn row_span(p1: ScreenPoint, p2: ScreenPoint, p3: ScreenPoint, y: int) -> (
    int,
    int,
) {
    let a = if y < p2.y {
        edge_x(p1, p2, y)
    } else {
        edge_x(p2, p3, y)
    };
    let b = edge_x(p1, p3, y);
    if a <= b {
        (a, b)
    } else {
        (b, a)
    }
}

/// Whether scanline `y` belongs to the triangle's scan range: the top half
/// covers `p1.y..p2.y`, the bottom half covers `p2.y..=p3.y` and exists
/// only when it has positive height, so the shared row `p2.y` lands in
/// exactly one half and a flat-bottom triangle ends above its last row.
pub open spec fn row_in_tri(p1: ScreenPoint, p2: ScreenPoint, p3: ScreenPoint, y: int) -> bool {
    &&& p1.y <= y <= p3.y
    &&& (y < p2.y || p2.y < p3.y)
}

/// The span clamped to the horizontal extent `0..w`.
pub open spec fn row_clamped(
    p1: ScreenPoint,
    p2: ScreenPoint,
    p3: ScreenPoint,
    w: int,
    y: int,
) -> (int, int) {
    let (lo, hi) = row_span(p1, p2, p3, y);
    let cl = if lo < 0 {
        0
    } else {
        lo
    };
    let ch = if hi > w - 1 {
        w - 1
    } else {
        hi
    };
    (cl, ch)
}

/// Whether scanline `y` writes any pixels: it must lie in the scan range,
/// inside the vertical extent, and its clamped span must be non-empty.
///
/// This is the chosen clamping policy: a row writes one pixel per integer x
/// in the inclusive clamped range when its span intersects the horizontal
/// extent, and nothing when the span lies wholly outside it. The other
/// reading — clamping both ends into the extent unconditionally — would
/// smear a border pixel on every such row; it is deliberately not taken.
pub open spec fn row_emits(
    p1: ScreenPoint,
    p2: ScreenPoint,
    p3: ScreenPoint,
    w: int,
    h: int,
    y: int,
) -> bool {
    &&& row_in_tri(p1, p2, p3, y)
    &&& 0 <= y < h
    &&& ({
        let (cl, ch) = row_clamped(p1, p2, p3, w, y);
        cl <= ch
    })
}

/// How many pixels scanline `y` would write.
pub open spec fn row_width(p1: ScreenPoint, p2: ScreenPoint, p3: ScreenPoint, w: int, y: int) -> int {
    let (cl, ch) = row_clamped(p1, p2, p3, w, y);
    ch - cl + 1
}

/// Whether scanline `y` would overflow the fixed row buffer.
pub open spec fn row_over_cap(
    p1: ScreenPoint,
    p2: ScreenPoint,
    p3: ScreenPoint,
    w: int,
    h: int,
    y: int,
) -> bool {
    row_emits(p1, p2, p3, w, h, y) && row_width(p1, p2, p3, w, y) > MAX_ROW_WIDTH
}

/// The pixels scanline `y` writes, left to right.
pub open spec fn row_pixels(
    p1: ScreenPoint,
    p2: ScreenPoint,
    p3: ScreenPoint,
    w: int,
    color: u16,
    y: int,
) -> Seq<Pixel> {
    let (cl, ch) = row_clamped(p1, p2, p3, w, y);
    Seq::new(
        (ch - cl + 1) as nat,
        |k: int| Pixel { p: ScreenPoint { x: (cl + k) as i32, y: y as i32 }, color },
    )
}

/// All the pixels the triangle's scanlines above row `y` write, top row
/// first, each row left to right.
pub open spec fn tri_writes_upto(
    p1: ScreenPoint,
    p2: ScreenPoint,
    p3: ScreenPoint,
    w: int,
    h: int,
    color: u16,
    y: int,
) -> Seq<Pixel>
    decreases y - p1.y,
{
    if y <= p1.y {
        Seq::empty()
    } else {
        tri_writes_upto(p1, p2, p3, w, h, color, y - 1) + if row_emits(p1, p2, p3, w, h, y - 1) {
            row_pixels(p1, p2, p3, w, color, y - 1)
        } else {
            Seq::empty()
        }
    }
}

/// Every pixel a front-facing y-sorted triangle writes into a `w` by `h`
/// framebuffer.
pub open spec fn tri_writes(
    p1: ScreenPoint,
    p2: ScreenPoint,
    p3: ScreenPoint,
    w: int,
    h: int,
    color: u16,
) -> Seq<Pixel> {
    tri_writes_upto(p1, p2, p3, w, h, color, p3.y + 1)
}

/// The rows written so far are a prefix of the rows written later.
pub proof fn lemma_upto_prefix(
    p1: ScreenPoint,
    p2: ScreenPoint,
    p3: ScreenPoint,
    w: int,
    h: int,
    color: u16,
    y1: int,
    y2: int,
)
    requires
        y1 <= y2,
    ensures
        tri_writes_upto(p1, p2, p3, w, h, color, y1).is_prefix_of(
            tri_writes_upto(p1, p2, p3, w, h, color, y2),
        ),
    decreases y2 - y1,
{
    let s1 = tri_writes_upto(p1, p2, p3, w, h, color, y1);
    if y1 < y2 {
        lemma_upto_prefix(p1, p2, p3, w, h, color, y1, y2 - 1);
        let s = tri_writes_upto(p1, p2, p3, w, h, color, y2 - 1);
        let s2 = tri_writes_upto(p1, p2, p3, w, h, color, y2);
        if y2 <= p1.y {
            assert(s2 == s);
        } else {
            assert(s1.is_prefix_of(s));
            assert(s2.subrange(0, s.len() as int) =~= s);
            assert(s2.subrange(0, s1.len() as int) =~= s1);
        }
    } else {
        assert(s1.subrange(0, s1.len() as int) =~= s1);
    }
}

/// Law: clamping confines a triangle's writes to the framebuffer rectangle.
/// Every pixel a triangle writes lies within `[0, w)` by `[0, h)`, however
/// far outside the rectangle the triangle reaches.
pub proof fn lemma_tri_writes_in_bounds(
    p1: ScreenPoint,
    p2: ScreenPoint,
    p3: ScreenPoint,
    w: int,
    h: int,
    color: u16,
    y: int,
)
    requires
        w <= i32::MAX,
    ensures
        forall|i: int|
            0 <= i < tri_writes_upto(p1, p2, p3, w, h, color, y).len() ==> {
                let px = #[trigger] tri_writes_upto(p1, p2, p3, w, h, color, y)[i];
                &&& 0 <= px.p.x < w
                &&& 0 <= px.p.y < h
            },
    decreases y - p1.y,
{
    if y > p1.y {
        lemma_tri_writes_in_bounds(p1, p2, p3, w, h, color, y - 1);
        let prev = tri_writes_upto(p1, p2, p3, w, h, color, y - 1);
        let cur = tri_writes_upto(p1, p2, p3, w, h, color, y);
        if row_emits(p1, p2, p3, w, h, y - 1) {
            let (cl, ch) = row_clamped(p1, p2, p3, w, y - 1);
            let rp = row_pixels(p1, p2, p3, w, color, y - 1);
            assert forall|i: int| 0 <= i < cur.len() implies {
                let px = #[trigger] cur[i];
                &&& 0 <= px.p.x < w
                &&& 0 <= px.p.y < h
            } by {
                if i >= prev.len() {
                    let k = i - prev.len();
                    assert(rp[k] == Pixel {
                        p: ScreenPoint { x: (cl + k) as i32, y: (y - 1) as i32 },
                        color,
                    });
                    assert(0 <= cl + k <= ch < w);
                }
            }
        }
    }
}

/// Both boundary x coordinates of a row in the scan range lie within the
/// triangle's horizontal extent.
proof fn lemma_row_span_in_bbox(p1: ScreenPoint, p2: ScreenPoint, p3: ScreenPoint, y: int)
    requires
        p1.y <= p2.y <= p3.y,
        row_in_tri(p1, p2, p3, y),
    ensures
        ({
            let (lo, hi) = row_span(p1, p2, p3, y);
            let minx = min3(p1.x as int, p2.x as int, p3.x as int);
            let maxx = max3(p1.x as int, p2.x as int, p3.x as int);
            minx <= lo <= hi <= maxx
        }),
{
    if y < p2.y {
        lemma_edge_x_in_range(p1, p2, y);
    } else {
        lemma_edge_x_in_range(p2, p3, y);
    }
    lemma_edge_x_in_range(p1, p3, y);
}

/// Law: the bounding-box cull is harmless. A y-sorted triangle whose
/// axis-aligned bounding box misses the visible rectangle writes no pixel
/// at all, because every row is off screen or has its whole span clamped
/// away — so discarding it early and scan-converting it agree.
pub proof fn lemma_bbox_miss_no_writes(
    p1: ScreenPoint,
    p2: ScreenPoint,
    p3: ScreenPoint,
    w: int,
    h: int,
    color: u16,
    y: int,
)
    requires
        p1.y <= p2.y <= p3.y,
        bbox_misses(p1, p2, p3, w, h),
    ensures
        tri_writes_upto(p1, p2, p3, w, h, color, y) == Seq::<Pixel>::empty(),
    decreases y - p1.y,
{
    if y > p1.y {
        lemma_bbox_miss_no_writes(p1, p2, p3, w, h, color, y - 1);
        assert(!row_emits(p1, p2, p3, w, h, y - 1)) by {
            if row_in_tri(p1, p2, p3, y - 1) && 0 <= y - 1 < h {
                let minx = min3(p1.x as int, p2.x as int, p3.x as int);
                let maxx = max3(p1.x as int, p2.x as int, p3.x as int);
                let miny = min3(p1.y as int, p2.y as int, p3.y as int);
                let maxy = max3(p1.y as int, p2.y as int, p3.y as int);
                assert(miny == p1.y && maxy == p3.y);
                assert(maxy >= y - 1 >= 0 && miny <= y - 1 <= h - 1);
                assert(maxx < 0 || minx > w - 1);
                lemma_row_span_in_bbox(p1, p2, p3, y - 1);
                let (lo, hi) = row_span(p1, p2, p3, y - 1);
                let (cl, ch) = row_clamped(p1, p2, p3, w, y - 1);
                if maxx < 0 {
                    assert(ch <= hi <= maxx < 0 <= cl);
                } else {
                    assert(cl >= lo >= minx > w - 1 >= ch);
                }
            }
        }
        assert(tri_writes_upto(p1, p2, p3, w, h, color, y) =~= Seq::<Pixel>::empty());
    }
}

/// Law: a triangle never writes the same pixel twice. Every row is owned
/// by exactly one half, each scanline is written once, and a scanline's
/// span holds each column once, so the whole write sequence is free of
/// duplicates — no double write at the split row, and none anywhere else.
pub proof fn lemma_tri_writes_no_duplicates(
    p1: ScreenPoint,
    p2: ScreenPoint,
    p3: ScreenPoint,
    w: int,
    h: int,
    color: u16,
    y: int,
)
    requires
        w <= i32::MAX,
        h <= i32::MAX,
    ensures
        tri_writes_upto(p1, p2, p3, w, h, color, y).no_duplicates(),
        forall|i: int|
            0 <= i < tri_writes_upto(p1, p2, p3, w, h, color, y).len()
                ==> (#[trigger] tri_writes_upto(p1, p2, p3, w, h, color, y)[i]).p.y < y,
    decreases y - p1.y,
{
    if y > p1.y {
        lemma_tri_writes_no_duplicates(p1, p2, p3, w, h, color, y - 1);
        let prev = tri_writes_upto(p1, p2, p3, w, h, color, y - 1);
        let cur = tri_writes_upto(p1, p2, p3, w, h, color, y);
        if row_emits(p1, p2, p3, w, h, y - 1) {
            let (cl, ch) = row_clamped(p1, p2, p3, w, y - 1);
            let rp = row_pixels(p1, p2, p3, w, color, y - 1);
            assert forall|i: int| 0 <= i < cur.len() implies (#[trigger] cur[i]).p.y < y by {
                if i >= prev.len() {
                    assert(cur[i] == rp[i - prev.len()]);
                    assert(rp[i - prev.len()].p.y == y - 1);
                }
            }
            assert forall|i: int, j: int| 0 <= i < j < cur.len() implies cur[i] != cur[j] by {
                if j >= prev.len() {
                    if i >= prev.len() {
                        assert(cur[i] == rp[i - prev.len()]);
                        assert(cur[j] == rp[j - prev.len()]);
                        assert(0 <= cl + (i - prev.len()) <= ch < w <= i32::MAX);
                        assert(0 <= cl + (j - prev.len()) <= ch < w <= i32::MAX);
                        assert(cur[i].p.x == cl + (i - prev.len()));
                        assert(cur[j].p.x == cl + (j - prev.len()));
                    } else {
                        assert(cur[i] == prev[i]);
                        assert(cur[i].p.y < y - 1);
                        assert(cur[j].p.y == y - 1);
                    }
                } else {
                    assert(cur[i] == prev[i] && cur[j] == prev[j]);
                }
            }
        }
    }
}

/// Scan-converts a y-sorted triangle into `fb`, one clamped span per
/// scanline, each flushed as one batched write from a row buffer of fixed
/// capacity [`MAX_ROW_WIDTH`].
///
/// A back-facing or degenerate triangle (signed area at most zero) is
/// discarded. A span wider than the row buffer stops the call with
/// [`RenderError::RowCapacityExceeded`] before anything is written past the
/// buffer's bounds; the rows above it stay written. Against a target that
/// accepts every batch, the call succeeds whenever every span fits the row
/// buffer and fails with `RowCapacityExceeded` exactly when one does not;
/// a discarded triangle, and one none of whose rows writes, always
/// succeed.
#[verifier::rlimit(100)]
pub fn fill_triangle<T: PixelTarget>(
    p1: ScreenPoint,
    p2: ScreenPoint,
    p3: ScreenPoint,
    color: u16,
    fb: &mut T,
) -> (r: Result<(), RenderError>)
    requires
        coord_ok(p1),
        coord_ok(p2),
        coord_ok(p3),
        p1.y <= p2.y,
        p2.y <= p3.y,
    ensures
        final(fb).spec_width() == old(fb).spec_width(),
        final(fb).spec_height() == old(fb).spec_height(),
        old(fb).accepts_all() ==> final(fb).accepts_all(),
        signed_area(p1, p2, p3) <= 0 ==> r == Ok::<(), RenderError>(()) && final(fb).writes()
            == old(fb).writes(),
        signed_area(p1, p2, p3) > 0 && (forall|y: int|
            !#[trigger] row_emits(
                p1,
                p2,
                p3,
                old(fb).spec_width(),
                old(fb).spec_height(),
                y,
            )) ==> r == Ok::<(), RenderError>(()),
        signed_area(p1, p2, p3) > 0 && old(fb).accepts_all() && (forall|y: int|
            !#[trigger] row_over_cap(
                p1,
                p2,
                p3,
                old(fb).spec_width(),
                old(fb).spec_height(),
                y,
            )) ==> r == Ok::<(), RenderError>(()),
        signed_area(p1, p2, p3) > 0 && old(fb).accepts_all() && (exists|y: int|
            #[trigger] row_over_cap(
                p1,
                p2,
                p3,
                old(fb).spec_width(),
                old(fb).spec_height(),
                y,
            )) ==> r == Err::<(), RenderError>(RenderError::RowCapacityExceeded),
        signed_area(p1, p2, p3) > 0 ==> {
            let w = old(fb).spec_width();
            let h = old(fb).spec_height();
            match r {
                Ok(()) => {
                    &&& final(fb).writes() == old(fb).writes() + tri_writes(p1, p2, p3, w, h, color)
                    &&& forall|y: int| !#[trigger] row_over_cap(p1, p2, p3, w, h, y)
                },
                Err(RenderError::RowCapacityExceeded) => exists|y: int|
                    {
                        &&& #[trigger] row_over_cap(p1, p2, p3, w, h, y)
                        &&& forall|y2: int| y2 < y ==> !#[trigger] row_over_cap(p1, p2, p3, w, h, y2)
                        &&& final(fb).writes() == old(fb).writes() + tri_writes_upto(
                            p1,
                            p2,
                            p3,
                            w,
                            h,
                            color,
                            y,
                        )
                    },
                Err(RenderError::TargetWriteFailure) => exists|y: int|
                    {
                        &&& p1.y <= y <= p3.y
                        &&& final(fb).writes() == old(fb).writes() + tri_writes_upto(
                            p1,
                            p2,
                            p3,
                            w,
                            h,
                            color,
                            y,
                        )
                    },
            }
        },
{
    let e1x: i64 = (p2.x as i64) - (p1.x as i64);
    let e1y: i64 = (p2.y as i64) - (p1.y as i64);
    let e2x: i64 = (p3.x as i64) - (p1.x as i64);
    let e2y: i64 = (p3.y as i64) - (p1.y as i64);
    proof {
        assert(e1x * e2y == (p2.x - p1.x) * (p3.y - p1.y) && -0x4000_0000_0000_0000 < e1x * e2y
            < 0x4000_0000_0000_0000) by (nonlinear_arith)
            requires
                e1x == p2.x - p1.x,
                e2y == p3.y - p1.y,
                -2_000_000_001 < e1x < 2_000_000_001,
                -2_000_000_001 < e2y < 2_000_000_001,
        ;
        assert(e1y * e2x == (p2.y - p1.y) * (p3.x - p1.x) && -0x4000_0000_0000_0000 < e1y * e2x
            < 0x4000_0000_0000_0000) by (nonlinear_arith)
            requires
                e1y == p2.y - p1.y,
                e2x == p3.x - p1.x,
                -2_000_000_001 < e1y < 2_000_000_001,
                -2_000_000_001 < e2x < 2_000_000_001,
        ;
    }
    let area: i64 = e1x * e2y - e1y * e2x;
    if area <= 0 {
        return Ok(());
    }
    let w: i32 = fb.width();
    let h: i32 = fb.height();
    let ghost w_s = old(fb).spec_width();
    let ghost h_s = old(fb).spec_height();
    let mut y: i32 = p1.y;
    proof {
        assert(tri_writes_upto(p1, p2, p3, w_s, h_s, color, p1.y as int) == Seq::<Pixel>::empty());
        assert(fb.writes() =~= old(fb).writes() + Seq::<Pixel>::empty());
    }
    while y <= p3.y
        invariant
            coord_ok(p1),
            coord_ok(p2),
            coord_ok(p3),
            p1.y <= p2.y <= p3.y,
            p1.y <= y <= p3.y + 1,
            fb.spec_width() == w_s,
            fb.spec_height() == h_s,
            w_s == old(fb).spec_width(),
            h_s == old(fb).spec_height(),
            w as int == w_s,
            h as int == h_s,
            w >= 0,
            h >= 0,
            signed_area(p1, p2, p3) > 0,
            fb.writes() == old(fb).writes() + tri_writes_upto(p1, p2, p3, w_s, h_s, color, y as int),
            forall|y2: int| y2 < y ==> !#[trigger] row_over_cap(p1, p2, p3, w_s, h_s, y2),
            old(fb).accepts_all() ==> fb.accepts_all(),
        decreases p3.y + 1 - y,
    {
        if 0 <= y && y < h && (y < p2.y || p2.y < p3.y) {
            let a = if y < p2.y {
                edge_x_at(p1, p2, y)
            } else {
                edge_x_at(p2, p3, y)
            };
            let b = edge_x_at(p1, p3, y);
            let (lo, hi) = if a <= b {
                (a, b)
            } else {
                (b, a)
            };
            let cl: i32 = if lo < 0 {
                0
            } else {
                lo
            };
            let ch: i32 = if hi > w - 1 {
                w - 1
            } else {
                hi
            };
            proof {
                assert(row_clamped(p1, p2, p3, w_s, y as int) == (cl as int, ch as int));
            }
            if cl <= ch {
                let span: usize = ((ch - cl) as usize) + 1;
                if span > MAX_ROW_WIDTH {
                    proof {
                        assert(row_over_cap(p1, p2, p3, w_s, h_s, y as int));
                    }
                    return Err(RenderError::RowCapacityExceeded);
                }
                let mut row: Vec<Pixel> = Vec::new();
                for k in 0..span
                    invariant
                        span == ch - cl + 1,
                        0 <= cl <= ch,
                        ch < i32::MAX,
                        row@.len() == k,
                        forall|j: int|
                            0 <= j < k ==> row@[j] == (Pixel {
                                p: ScreenPoint { x: (cl + j) as i32, y: y as i32 },
                                color,
                            }),
                {
                    row.push(Pixel { p: ScreenPoint { x: cl + (k as i32), y }, color });
                }
                proof {
                    assert(row@ =~= row_pixels(p1, p2, p3, w_s, color, y as int));
                }
                match fb.draw_pixels(&row) {
                    Ok(()) => {
                        proof {
                            assert(row_emits(p1, p2, p3, w_s, h_s, y as int));
                            assert(fb.writes() =~= old(fb).writes() + tri_writes_upto(
                                p1,
                                p2,
                                p3,
                                w_s,
                                h_s,
                                color,
                                y + 1,
                            ));
                            assert(!row_over_cap(p1, p2, p3, w_s, h_s, y as int));
                        }
                    },
                    Err(e) => {
                        proof {
                            assert(fb.writes() == old(fb).writes() + tri_writes_upto(
                                p1,
                                p2,
                                p3,
                                w_s,
                                h_s,
                                color,
                                y as int,
                            ));
                        }
                        return Err(e);
                    },
                }
            } else {
                proof {
                    assert(!row_emits(p1, p2, p3, w_s, h_s, y as int));
                    assert(!row_over_cap(p1, p2, p3, w_s, h_s, y as int));
                    assert(fb.writes() =~= old(fb).writes() + tri_writes_upto(
                        p1,
                        p2,
                        p3,
                        w_s,
                        h_s,
                        color,
                        y + 1,
                    ));
                }
            }
        } else {
            proof {
                assert(!row_emits(p1, p2, p3, w_s, h_s, y as int));
                assert(!row_over_cap(p1, p2, p3, w_s, h_s, y as int));
                assert(fb.writes() =~= old(fb).writes() + tri_writes_upto(
                    p1,
                    p2,
                    p3,
                    w_s,
                    h_s,
                    color,
                    y + 1,
                ));
            }
        }
        y = y + 1;
    }
    proof {
        assert forall|y2: int| !#[trigger] row_over_cap(p1, p2, p3, w_s, h_s, y2) by {
            if y2 >= y {
                assert(!row_in_tri(p1, p2, p3, y2));
            }
        }
    }
    Ok(())
}

/// The integer points of the line from `(x0, y0)` to `(x1, y1)`, both ends
/// included, as Bresenham's algorithm walks them.
pub uninterp spec fn bresenham_of(x0: int, y0: int, x1: int, y1: int) -> Seq<(int, int)>;

/// Relies on line_drawing::Bresenham: it yields the points of the line from
/// `a` to `b`, both endpoints included, starting at `a` and ending at `b`,
/// one point per step of the longer coordinate distance, moving at most one
/// unit per coordinate per step and never leaving the endpoints' bounding
/// box.
#[verifier::external_body]
fn bresenham_points(a: ScreenPoint, b: ScreenPoint) -> (r: Vec<ScreenPoint>)
    requires
        coord_ok(a),
        coord_ok(b),
    ensures
        r@.map_values(|p: ScreenPoint| (p.x as int, p.y as int)) == bresenham_of(
            a.x as int,
            a.y as int,
            b.x as int,
            b.y as int,
        ),
        r@.len() == 1 + chebyshev(a, b),
        r@[0] == a,
        r@.last() == b,
        forall|i: int|
            0 < i < r@.len() ==> {
                &&& -1 <= (#[trigger] r@[i]).x - r@[i - 1].x <= 1
                &&& -1 <= r@[i].y - r@[i - 1].y <= 1
            },
        forall|i: int|
            0 <= i < r@.len() ==> {
                let p = #[trigger] r@[i];
                &&& (if a.x <= b.x {
                    a.x <= p.x <= b.x
                } else {
                    b.x <= p.x <= a.x
                })
                &&& (if a.y <= b.y {
                    a.y <= p.y <= b.y
                } else {
                    b.y <= p.y <= a.y
                })
            },
{
    line_drawing::Bresenham::new((a.x, a.y), (b.x, b.y)).map(
        |q: (i32, i32)| ScreenPoint { x: q.0, y: q.1 },
    ).collect()
}

/// The longer of the two coordinate distances between two points: the
/// number of steps a Bresenham walk between them takes.
pub open spec fn chebyshev(a: ScreenPoint, b: ScreenPoint) -> int {
    let dx = if b.x >= a.x {
        b.x - a.x
    } else {
        a.x - b.x
    };
    let dy = if b.y >= a.y {
        b.y - a.y
    } else {
        a.y - b.y
    };
    if dx >= dy {
        dx
    } else {
        dy
    }
}

/// The shape of a line primitive's writes: they start at the first endpoint
/// and end at the second, both included, all carry the line's color, number
/// one more than the longer coordinate distance, and consecutive pixels
/// differ by at most one in each coordinate.
pub open spec fn line_writes_shape(a: ScreenPoint, b: ScreenPoint, color: u16, s: Seq<Pixel>) -> bool {
    &&& s.len() == 1 + chebyshev(a, b)
    &&& s[0].p == a
    &&& s[s.len() - 1].p == b
    &&& forall|i: int| 0 <= i < s.len() ==> (#[trigger] s[i]).color == color
    &&& forall|i: int|
        0 < i < s.len() ==> {
            &&& -1 <= (#[trigger] s[i]).p.x - s[i - 1].p.x <= 1
            &&& -1 <= s[i].p.y - s[i - 1].p.y <= 1
        }
}

/// The pixels a line primitive writes, in walking order.
pub open spec fn line_writes(a: ScreenPoint, b: ScreenPoint, color: u16) -> Seq<Pixel> {
    bresenham_of(a.x as int, a.y as int, b.x as int, b.y as int).map_values(
        |q: (int, int)| Pixel { p: ScreenPoint { x: q.0 as i32, y: q.1 as i32 }, color },
    )
}

/// The three vertices sorted by ascending y, equal keys keeping their
/// original order.
pub open spec fn sort3_by_y(v: [ScreenPoint; 3]) -> (ScreenPoint, ScreenPoint, ScreenPoint) {
    let a = v@[0];
    let b = v@[1];
    let c = v@[2];
    if a.y <= b.y {
        if b.y <= c.y {
            (a, b, c)
        } else if a.y <= c.y {
            (a, c, b)
        } else {
            (c, a, b)
        }
    } else {
        if a.y <= c.y {
            (b, a, c)
        } else if b.y <= c.y {
            (b, c, a)
        } else {
            (c, b, a)
        }
    }
}

/// Whether the triangle's axis-aligned bounding box misses the visible
/// rectangle `[0, w)` by `[0, h)` entirely.
pub open spec fn bbox_misses(
    p1: ScreenPoint,
    p2: ScreenPoint,
    p3: ScreenPoint,
    w: int,
    h: int,
) -> bool {
    ||| max3(p1.x as int, p2.x as int, p3.x as int) < 0
    ||| min3(p1.x as int, p2.x as int, p3.x as int) > w - 1
    ||| max3(p1.y as int, p2.y as int, p3.y as int) < 0
    ||| min3(p1.y as int, p2.y as int, p3.y as int) > h - 1
}

pub open spec fn min3(a: int, b: int, c: int) -> int {
    if a <= b && a <= c {
        a
    } else if b <= c {
        b
    } else {
        c
    }
}

pub open spec fn max3(a: int, b: int, c: int) -> int {
    if a >= b && a >= c {
        a
    } else if b >= c {
        b
    } else {
        c
    }
}

/// Every pixel one draw call writes for a primitive: a point writes itself
/// unchecked, a line writes its Bresenham walk unchecked, and a triangle is
/// y-sorted, culled when back-facing or degenerate or when its bounding box
/// misses the visible rectangle, and otherwise scan-converted with its
/// spans clamped to the rectangle.
pub open spec fn draw_writes(prim: DrawPrimitive, w: int, h: int) -> Seq<Pixel> {
    match prim {
        DrawPrimitive::ColoredPoint(p, c) => seq![Pixel { p, color: c }],
        DrawPrimitive::Line(pts, c) => line_writes(pts@[0], pts@[1], c),
        DrawPrimitive::ColoredTriangle(vs, c) => {
            let (p1, p2, p3) = sort3_by_y(vs);
            if signed_area(p1, p2, p3) <= 0 || bbox_misses(p1, p2, p3, w, h) {
                Seq::empty()
            } else {
                tri_writes(p1, p2, p3, w, h, c)
            }
        },
    }
}

/// Whether a triangle primitive survives culling and holds a scanline too
/// wide for the row buffer.
pub open spec fn tri_over_cap(prim: DrawPrimitive, w: int, h: int) -> bool {
    match prim {
        DrawPrimitive::ColoredTriangle(vs, c) => {
            let (p1, p2, p3) = sort3_by_y(vs);
            &&& signed_area(p1, p2, p3) > 0
            &&& !bbox_misses(p1, p2, p3, w, h)
            &&& exists|y: int| row_over_cap(p1, p2, p3, w, h, y)
        },
        _ => false,
    }
}

/// Whether every point of a primitive is within the accepted coordinate
/// range.
pub open spec fn prim_coords_ok(prim: DrawPrimitive) -> bool {
    match prim {
        DrawPrimitive::ColoredPoint(p, c) => coord_ok(p),
        DrawPrimitive::Line(pts, c) => coord_ok(pts@[0]) && coord_ok(pts@[1]),
        DrawPrimitive::ColoredTriangle(vs, c) => coord_ok(vs@[0]) && coord_ok(vs@[1]) && coord_ok(
            vs@[2],
        ),
    }
}

/// Law: backface culling is deterministic in the winding: swapping two
/// vertices of a triangle negates its signed area, so of a triangle and its
/// reversed-winding mirror at most one is front-facing; the front-facing
/// one is rasterized and the mirror is culled.
pub proof fn lemma_mirrored_culled(a: ScreenPoint, b: ScreenPoint, c: ScreenPoint)
    ensures
        signed_area(a, c, b) == -signed_area(a, b, c),
        signed_area(a, b, c) > 0 ==> signed_area(a, c, b) <= 0,
{
    assert((c.x - a.x) * (b.y - a.y) - (c.y - a.y) * (b.x - a.x) == -((b.x - a.x) * (c.y - a.y) - (
    b.y - a.y) * (c.x - a.x))) by (nonlinear_arith);
}

/// Whether the triangle `(a, b, c)` is back-facing or degenerate: its
/// signed area is at most zero, so the rasterizer discards it.
pub fn is_backfacing(a: ScreenPoint, b: ScreenPoint, c: ScreenPoint) -> (r: bool)
    requires
        coord_ok(a),
        coord_ok(b),
        coord_ok(c),
    ensures
        r == (signed_area(a, b, c) <= 0),
{
    let d1x: i64 = (b.x as i64) - (a.x as i64);
    let d1y: i64 = (b.y as i64) - (a.y as i64);
    let d2x: i64 = (c.x as i64) - (a.x as i64);
    let d2y: i64 = (c.y as i64) - (a.y as i64);
    proof {
        assert(d1x * d2y == (b.x - a.x) * (c.y - a.y) && -0x4000_0000_0000_0000 < d1x * d2y
            < 0x4000_0000_0000_0000) by (nonlinear_arith)
            requires
                d1x == b.x - a.x,
                d2y == c.y - a.y,
                -2_000_000_001 < d1x < 2_000_000_001,
                -2_000_000_001 < d2y < 2_000_000_001,
        ;
        assert(d1y * d2x == (b.y - a.y) * (c.x - a.x) && -0x4000_0000_0000_0000 < d1y * d2x
            < 0x4000_0000_0000_0000) by (nonlinear_arith)
            requires
                d1y == b.y - a.y,
                d2x == c.x - a.x,
                -2_000_000_001 < d1y < 2_000_000_001,
                -2_000_000_001 < d2x < 2_000_000_001,
        ;
    }
    d1x * d2y - d1y * d2x <= 0
}

/// Rasterizes one primitive into `fb`: a point or a line is handed to the
/// target as it stands, a triangle is culled, clipped and scan-converted.
/// A failed batch surfaces as `TargetWriteFailure`; a triangle span wider
/// than the row buffer as `RowCapacityExceeded`, the rows above it staying
/// written. A culled triangle always succeeds, and against a target that
/// accepts every batch the call succeeds exactly when no span overflows
/// the row buffer.
#[verifier::rlimit(100)]
pub fn draw<T: PixelTarget>(primitive: DrawPrimitive, fb: &mut T) -> (r: Result<(), RenderError>)
    requires
        prim_coords_ok(primitive),
    ensures
        final(fb).spec_width() == old(fb).spec_width(),
        final(fb).spec_height() == old(fb).spec_height(),
        old(fb).accepts_all() ==> final(fb).accepts_all(),
        (match primitive {
            DrawPrimitive::ColoredTriangle(vs, c) => ({
                let (p1, p2, p3) = sort3_by_y(vs);
                signed_area(p1, p2, p3) <= 0 || bbox_misses(
                    p1,
                    p2,
                    p3,
                    old(fb).spec_width(),
                    old(fb).spec_height(),
                )
            }),
            _ => false,
        }) ==> r == Ok::<(), RenderError>(()),
        r is Ok ==> !tri_over_cap(primitive, old(fb).spec_width(), old(fb).spec_height()),
        old(fb).accepts_all() && !tri_over_cap(
            primitive,
            old(fb).spec_width(),
            old(fb).spec_height(),
        ) ==> r == Ok::<(), RenderError>(()),
        old(fb).accepts_all() && tri_over_cap(
            primitive,
            old(fb).spec_width(),
            old(fb).spec_height(),
        ) ==> r == Err::<(), RenderError>(RenderError::RowCapacityExceeded),
        (match primitive {
            DrawPrimitive::Line(pts, c) => line_writes_shape(
                pts@[0],
                pts@[1],
                c,
                draw_writes(primitive, old(fb).spec_width(), old(fb).spec_height()),
            ),
            _ => true,
        }),
        ({
            let dw = draw_writes(primitive, old(fb).spec_width(), old(fb).spec_height());
            match r {
                Ok(()) => final(fb).writes() == old(fb).writes() + dw,
                Err(RenderError::RowCapacityExceeded) => {
                    &&& tri_over_cap(primitive, old(fb).spec_width(), old(fb).spec_height())
                    &&& exists|s: Seq<Pixel>|
                        #[trigger] s.is_prefix_of(dw) && final(fb).writes() == old(fb).writes() + s
                },
                Err(RenderError::TargetWriteFailure) => exists|s: Seq<Pixel>|
                    #[trigger] s.is_prefix_of(dw) && final(fb).writes() == old(fb).writes() + s,
            }
        }),
{
    match primitive {
        DrawPrimitive::ColoredPoint(p, c) => {
            let mut batch: Vec<Pixel> = Vec::new();
            batch.push(Pixel { p, color: c });
            proof {
                assert(batch@ =~= seq![Pixel { p, color: c }]);
            }
            match fb.draw_pixels(&batch) {
                Ok(()) => Ok(()),
                Err(e) => {
                    proof {
                        let dw = draw_writes(
                            primitive,
                            old(fb).spec_width(),
                            old(fb).spec_height(),
                        );
                        assert(Seq::<Pixel>::empty().is_prefix_of(dw));
                        assert(fb.writes() =~= old(fb).writes() + Seq::<Pixel>::empty());
                    }
                    Err(e)
                },
            }
        },
        DrawPrimitive::Line(pts, c) => {
            let pa = pts[0];
            let pb = pts[1];
            let points = bresenham_points(pa, pb);
            let mut batch: Vec<Pixel> = Vec::new();
            for i in 0..points.len()
                invariant
                    batch@.len() == i,
                    forall|j: int|
                        0 <= j < i ==> batch@[j] == (Pixel { p: points@[j], color: c }),
            {
                batch.push(Pixel { p: points[i], color: c });
            }
            proof {
                let bres = bresenham_of(pa.x as int, pa.y as int, pb.x as int, pb.y as int);
                assert(points@.map_values(|p: ScreenPoint| (p.x as int, p.y as int)) == bres);
                assert forall|j: int| 0 <= j < batch@.len() implies batch@[j] == line_writes(
                    pa,
                    pb,
                    c,
                )[j] by {
                    assert(bres[j] == (points@[j].x as int, points@[j].y as int));
                }
                assert(batch@ =~= line_writes(pa, pb, c));
                assert forall|j: int| 0 < j < batch@.len() implies {
                    &&& -1 <= (#[trigger] batch@[j]).p.x - batch@[j - 1].p.x <= 1
                    &&& -1 <= batch@[j].p.y - batch@[j - 1].p.y <= 1
                } by {
                    assert(batch@[j].p == points@[j] && batch@[j - 1].p == points@[j - 1]);
                }
                assert(line_writes_shape(pa, pb, c, line_writes(pa, pb, c)));
            }
            match fb.draw_pixels(&batch) {
                Ok(()) => Ok(()),
                Err(e) => {
                    proof {
                        let dw = draw_writes(
                            primitive,
                            old(fb).spec_width(),
                            old(fb).spec_height(),
                        );
                        assert(Seq::<Pixel>::empty().is_prefix_of(dw));
                        assert(fb.writes() =~= old(fb).writes() + Seq::<Pixel>::empty());
                    }
                    Err(e)
                },
            }
        },
        DrawPrimitive::ColoredTriangle(vs, c) => {
            let v0 = vs[0];
            let v1 = vs[1];
            let v2 = vs[2];
            let (p1, p2, p3) = if v0.y <= v1.y {
                if v1.y <= v2.y {
                    (v0, v1, v2)
                } else if v0.y <= v2.y {
                    (v0, v2, v1)
                } else {
                    (v2, v0, v1)
                }
            } else {
                if v0.y <= v2.y {
                    (v1, v0, v2)
                } else if v1.y <= v2.y {
                    (v1, v2, v0)
                } else {
                    (v2, v1, v0)
                }
            };
            proof {
                assert((p1, p2, p3) == sort3_by_y(vs));
            }
            if is_backfacing(p1, p2, p3) {
                proof {
                    assert(fb.writes() =~= old(fb).writes() + Seq::<Pixel>::empty());
                }
                return Ok(());
            }
            let w = fb.width();
            let h = fb.height();
            let minx = if v0.x <= v1.x && v0.x <= v2.x {
                v0.x
            } else if v1.x <= v2.x {
                v1.x
            } else {
                v2.x
            };
            let maxx = if v0.x >= v1.x && v0.x >= v2.x {
                v0.x
            } else if v1.x >= v2.x {
                v1.x
            } else {
                v2.x
            };
            let miny = p1.y;
            let maxy = p3.y;
            proof {
                assert(min3(p1.x as int, p2.x as int, p3.x as int) == min3(
                    v0.x as int,
                    v1.x as int,
                    v2.x as int,
                ));
                assert(max3(p1.x as int, p2.x as int, p3.x as int) == max3(
                    v0.x as int,
                    v1.x as int,
                    v2.x as int,
                ));
                assert(min3(p1.y as int, p2.y as int, p3.y as int) == p1.y);
                assert(max3(p1.y as int, p2.y as int, p3.y as int) == p3.y);
            }
            if maxx < 0 || minx > w - 1 || maxy < 0 || miny > h - 1 {
                proof {
                    assert(bbox_misses(p1, p2, p3, w as int, h as int));
                    assert(fb.writes() =~= old(fb).writes() + Seq::<Pixel>::empty());
                }
                return Ok(());
            }
            proof {
                assert(!bbox_misses(p1, p2, p3, w as int, h as int));
            }
            let ghost dw = draw_writes(primitive, old(fb).spec_width(), old(fb).spec_height());
            let res = fill_triangle(p1, p2, p3, c, fb);
            proof {
                let w_s = old(fb).spec_width();
                let h_s = old(fb).spec_height();
                if signed_area(p1, p2, p3) <= 0 {
                    assert(dw =~= Seq::<Pixel>::empty());
                    assert(fb.writes() =~= old(fb).writes() + dw);
                } else {
                    match res {
                        Ok(()) => {},
                        Err(RenderError::RowCapacityExceeded) => {
                            let y = choose|y: int|
                                {
                                    &&& #[trigger] row_over_cap(p1, p2, p3, w_s, h_s, y)
                                    &&& forall|y2: int|
                                        y2 < y ==> !#[trigger] row_over_cap(p1, p2, p3, w_s, h_s, y2)
                                    &&& fb.writes() == old(fb).writes() + tri_writes_upto(
                                        p1,
                                        p2,
                                        p3,
                                        w_s,
                                        h_s,
                                        c,
                                        y,
                                    )
                                };
                            lemma_upto_prefix(p1, p2, p3, w_s, h_s, c, y, p3.y + 1);
                            assert(tri_writes_upto(p1, p2, p3, w_s, h_s, c, y).is_prefix_of(dw));
                        },
                        Err(RenderError::TargetWriteFailure) => {
                            let y = choose|y: int|
                                p1.y <= y <= p3.y && fb.writes() == old(fb).writes()
                                    + tri_writes_upto(p1, p2, p3, w_s, h_s, c, y);
                            lemma_upto_prefix(p1, p2, p3, w_s, h_s, c, y, p3.y + 1);
                            assert(tri_writes_upto(p1, p2, p3, w_s, h_s, c, y).is_prefix_of(dw));
                        },
                    }
                }
            }
            res
        },
    }
}

/// The truncating remainder is smaller than the divisor in magnitude.
pub proof fn lemma_tmod_range(a: int, b: int)
    requires
        b > 0,
    ensures
        a >= 0 ==> 0 <= tmod(a, b) < b,
        a < 0 ==> -b < tmod(a, b) <= 0,
{
    if a >= 0 {
        vstd::arithmetic::div_mod::lemma_fundamental_div_mod(a, b);
        vstd::arithmetic::div_mod::lemma_mod_division_less_than_divisor(a, b);
        assert(tmod(a, b) == a % b) by {
            assert(a == b * (a / b) + a % b);
        }
    } else {
        let m = -a;
        vstd::arithmetic::div_mod::lemma_fundamental_div_mod(m, b);
        vstd::arithmetic::div_mod::lemma_mod_division_less_than_divisor(m, b);
        assert(tmod(a, b) == -(m % b)) by {
            assert(m == b * (m / b) + m % b);
            assert(b * -(m / b) == -(b * (m / b))) by (nonlinear_arith);
        }
    }
}

} // verus!
