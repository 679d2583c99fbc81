//! A minimal 3D rendering pipeline for memory-constrained displays.
//!
//! The crate transforms mesh geometry through a similarity transform kept in a
//! [`mesh::K3dMesh`] and rasterizes points, lines and filled triangles onto a
//! pixel framebuffer through the [`target::PixelTarget`] capability, with no
//! dynamic growth of any working buffer.

use vstd::prelude::*;

pub mod draw;
pub mod mesh;
pub mod target;

verus! {

/// An integer 2D screen coordinate.
#[derive(Clone, Copy, Debug, PartialEq, Eq, Structural)]
pub struct ScreenPoint {
    pub x: i32,
    pub y: i32,
}

/// Twice the signed area of the triangle `(a, b, c)`, positive when the
/// vertices wind counter-clockwise in screen coordinates.
pub open spec fn signed_area(a: ScreenPoint, b: ScreenPoint, c: ScreenPoint) -> int {
    (b.x - a.x) * (c.y - a.y) - (b.y - a.y) * (c.x - a.x)
}

/// A renderable shape, consumed by one draw call.
///
/// Colors are 16-bit RGB values carried through unchanged.
#[derive(Clone, Copy, Debug, PartialEq)]
pub enum DrawPrimitive {
    Line([ScreenPoint; 2], u16),
    ColoredPoint(ScreenPoint, u16),
    ColoredTriangle([ScreenPoint; 3], u16),
}

/// A construction-time failure of the geometry buffers.
#[derive(Clone, Copy, Debug, PartialEq, Eq, Structural)]
pub enum GeometryError {
    /// The geometry buffers break an invariant: empty vertices, an
    /// out-of-range face or line index, or a mismatched color count.
    InvalidGeometry,
    /// Edge extraction produced more unique edges than the fixed capacity.
    EdgeCapacityExceeded,
}

/// A failure of one draw call.
#[derive(Clone, Copy, Debug, PartialEq, Eq, Structural)]
pub enum RenderError {
    /// A triangle scanline span is wider than the fixed row buffer.
    RowCapacityExceeded,
    /// The framebuffer target rejected a pixel batch.
    TargetWriteFailure,
}

} // verus!
