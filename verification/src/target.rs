//! The framebuffer target capability that the rasterizer draws into, and a
//! verified in-memory implementation of it.

use vstd::prelude::*;

verus! {

use crate::RenderError;
use crate::ScreenPoint;

/// One colored pixel write.
#[derive(Clone, Copy, Debug, PartialEq, Eq, Structural)]
pub struct Pixel {
    pub p: ScreenPoint,
    pub color: u16,
}

/// A mutable pixel sink with a size query and a batched write operation.
///
/// The model of a target is the sequence of pixel writes it has accepted so
/// far, oldest first. A batch is all-or-nothing: a target that fails a batch
/// with a device-level error must record none of it.
pub trait PixelTarget {
    /// The horizontal extent of the visible rectangle.
    spec fn spec_width(&self) -> int;

    /// The vertical extent of the visible rectangle.
    spec fn spec_height(&self) -> int;

    /// Every pixel write accepted so far, oldest first.
    spec fn writes(&self) -> Seq<Pixel>;

    /// Whether the target is in a state where it accepts every batch. A
    /// target that can never fail (such as [`Framebuffer`]) is always in
    /// it; for one that can, success is owed only while it lasts.
    spec fn accepts_all(&self) -> bool;

    fn width(&self) -> (r: i32)
        ensures
            r as int == self.spec_width(),
            r >= 0,
    ;

    fn height(&self) -> (r: i32)
        ensures
            r as int == self.spec_height(),
            r >= 0,
    ;

    /// Writes one ordered batch of colored pixels.
    ///
    /// The target is responsible for rejecting or clamping coordinates
    /// outside its rectangle; a batch may carry any coordinates.
    fn draw_pixels(&mut self, batch: &Vec<Pixel>) -> (r: Result<(), RenderError>)
        ensures
            final(self).spec_width() == old(self).spec_width(),
            final(self).spec_height() == old(self).spec_height(),
            old(self).accepts_all() ==> r is Ok && final(self).accepts_all(),
            match r {
                Ok(()) => final(self).writes() == old(self).writes() + batch@,
                Err(e) => {
                    &&& e == RenderError::TargetWriteFailure
                    &&& final(self).writes() == old(self).writes()
                },
            },
    ;
}

/// The color a pixel grid shows at `(x, y)` after a sequence of writes: the
/// color of the last write at that coordinate, or zero where none hit it.
/// Writes outside the grid are ignored by the grid, so they color no
/// in-bounds coordinate.
pub open spec fn render_at(writes: Seq<Pixel>, x: int, y: int) -> u16
    decreases writes.len(),
{
    if writes.len() == 0 {
        0u16
    } else if writes.last().p.x == x && writes.last().p.y == y {
        writes.last().color
    } else {
        render_at(writes.drop_last(), x, y)
    }
}

/// An in-memory framebuffer: a `width` by `height` grid of 16-bit colors,
/// row-major, all zero at creation. It accepts every batch and ignores the
/// writes that fall outside the grid.
pub struct Framebuffer {
    width: i32,
    height: i32,
    data: Vec<u16>,
    log: Ghost<Seq<Pixel>>,
}

impl Framebuffer {
    /// The grid never changes size.
    #[verifier::type_invariant]
    spec fn wf(&self) -> bool {
        &&& self.width >= 0
        &&& self.height >= 0
        &&& self.data@.len() == self.width * self.height
    }

    /// Whether the grid mirrors the write log: every in-bounds cell shows
    /// the color of the last write that hit it, or zero. Established at
    /// creation and preserved by every batch write.
    pub closed spec fn grid_matches(&self) -> bool {
        forall|x: int, y: int|
            0 <= x < self.width && 0 <= y < self.height ==> #[trigger] self.data@[y * self.width
                + x] == render_at(self.log@, x, y)
    }

    /// Creates a zero-filled framebuffer.
    pub fn new(width: i32, height: i32) -> (r: Framebuffer)
        requires
            0 <= width,
            0 <= height,
            width * height <= usize::MAX,
        ensures
            r.spec_width() == width,
            r.spec_height() == height,
            r.writes() == Seq::<Pixel>::empty(),
            r.grid_matches(),
    {
        let n: usize = (width as usize) * (height as usize);
        let mut data: Vec<u16> = Vec::new();
        while data.len() < n
            invariant
                data@.len() <= n,
                forall|i: int| 0 <= i < data@.len() ==> data@[i] == 0u16,
            decreases n - data@.len(),
        {
            data.push(0u16);
        }
        proof {
            assert forall|x: int, y: int|
                0 <= x < width && 0 <= y < height implies #[trigger] data@[y * width + x]
                == render_at(Seq::<Pixel>::empty(), x, y) by {
                lemma_cell_in_grid(width as int, height as int, x, y);
            }
        }
        Framebuffer { width, height, data, log: Ghost(Seq::empty()) }
    }

    /// Reads the color at an in-bounds coordinate.
    pub fn get_pixel(&self, x: i32, y: i32) -> (r: u16)
        requires
            self.grid_matches(),
            0 <= x < self.spec_width(),
            0 <= y < self.spec_height(),
        ensures
            r == render_at(self.writes(), x as int, y as int),
    {
        proof {
            use_type_invariant(self);
            lemma_cell_in_grid(self.width as int, self.height as int, x as int, y as int);
        }
        // Materializes the grid length, whose usize bound caps the index.
        let _len: usize = self.data.len();
        let idx: usize = (y as usize) * (self.width as usize) + (x as usize);
        self.data[idx]
    }
}

/// A cell's row-major index lies inside the grid.
proof fn lemma_cell_in_grid(w: int, h: int, x: int, y: int)
    requires
        0 <= x < w,
        0 <= y < h,
    ensures
        0 <= y * w + x < w * h,
{
    assert(0 <= y * w + x < w * h) by (nonlinear_arith)
        requires
            0 <= x < w,
            0 <= y < h,
    ;
}

/// Distinct in-bounds cells have distinct row-major indices.
proof fn lemma_cell_distinct(w: int, x: int, y: int, x2: int, y2: int)
    requires
        0 <= x < w,
        0 <= x2 < w,
        x2 != x || y2 != y,
    ensures
        y2 * w + x2 != y * w + x,
{
    assert(y2 * w + x2 != y * w + x) by (nonlinear_arith)
        requires
            0 <= x < w,
            0 <= x2 < w,
            x2 != x || y2 != y,
    ;
}

impl PixelTarget for Framebuffer {
    closed spec fn spec_width(&self) -> int {
        self.width as int
    }

    open spec fn accepts_all(&self) -> bool {
        true
    }

    closed spec fn spec_height(&self) -> int {
        self.height as int
    }

    closed spec fn writes(&self) -> Seq<Pixel> {
        self.log@
    }

    fn width(&self) -> (r: i32)
        ensures
            r as int == self.spec_width(),
            r >= 0,
    {
        proof {
            use_type_invariant(self);
        }
        self.width
    }

    fn height(&self) -> (r: i32)
        ensures
            r as int == self.spec_height(),
            r >= 0,
    {
        proof {
            use_type_invariant(self);
        }
        self.height
    }

    /// Accepts every batch: in-bounds writes color their cell, out-of-bounds
    /// writes are ignored.
    fn draw_pixels(&mut self, batch: &Vec<Pixel>) -> (r: Result<(), RenderError>)
        ensures
            final(self).spec_width() == old(self).spec_width(),
            final(self).spec_height() == old(self).spec_height(),
            match r {
                Ok(()) => final(self).writes() == old(self).writes() + batch@,
                Err(e) => {
                    &&& e == RenderError::TargetWriteFailure
                    &&& final(self).writes() == old(self).writes()
                },
            },
            r is Ok,
            old(self).grid_matches() ==> final(self).grid_matches(),
    {
        proof {
            use_type_invariant(&*self);
        }
        let w = self.width;
        let h = self.height;
        for i in 0..batch.len()
            invariant
                self.width == w,
                self.height == h,
                self.wf(),
                self.log@ == old(self).log@ + batch@.take(i as int),
                old(self).grid_matches() ==> self.grid_matches(),
        {
            let px = batch[i];
            let ghost pre = *self;
            if 0 <= px.p.x && px.p.x < w && 0 <= px.p.y && px.p.y < h {
                proof {
                    lemma_cell_in_grid(w as int, h as int, px.p.x as int, px.p.y as int);
                }
                // Materializes the grid length, whose usize bound caps the index.
                let _len: usize = self.data.len();
                let idx: usize = (px.p.y as usize) * (w as usize) + (px.p.x as usize);
                self.data[idx] = px.color;
            }
            proof {
                self.log@ = pre.log@.push(px);
                assert(batch@.take(i + 1) == batch@.take(i as int).push(px));
                if old(self).grid_matches() {
                assert forall|x: int, y: int|
                    0 <= x < w && 0 <= y < h implies #[trigger] self.data@[y * w + x] == render_at(
                    self.log@,
                    x,
                    y,
                ) by {
                    lemma_cell_in_grid(w as int, h as int, x, y);
                    assert(self.log@.drop_last() =~= pre.log@);
                    if px.p.x == x && px.p.y == y {
                    } else {
                        if 0 <= px.p.x < w && 0 <= px.p.y < h {
                            lemma_cell_distinct(w as int, x, y, px.p.x as int, px.p.y as int);
                        }
                        assert(self.data@[y * w + x] == pre.data@[y * w + x]);
                    }
                }
                }
            }
        }
        proof {
            assert(batch@.take(batch@.len() as int) == batch@);
        }
        Ok(())
    }
}

} // verus!
