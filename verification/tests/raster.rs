use k3d::draw::draw;
use k3d::draw::is_backfacing;
use k3d::draw::fill_triangle;
use k3d::draw::Interpolator;
use k3d::draw::MAX_ROW_WIDTH;
use k3d::target::Framebuffer;
use k3d::target::PixelTarget;
use k3d::DrawPrimitive;
use k3d::RenderError;
use k3d::ScreenPoint;

fn pt(x: i32, y: i32) -> ScreenPoint {
    ScreenPoint { x, y }
}

#[test]
fn point_primitive_writes_one_pixel() {
    let mut fb = Framebuffer::new(5, 5);
    draw(DrawPrimitive::ColoredPoint(pt(2, 3), 9), &mut fb).unwrap();
    for y in 0..5 {
        for x in 0..5 {
            let expected = if (x, y) == (2, 3) { 9 } else { 0 };
            assert_eq!(fb.get_pixel(x, y), expected);
        }
    }
}

#[test]
fn line_endpoints_inclusive() {
    let mut fb = Framebuffer::new(5, 5);
    draw(DrawPrimitive::Line([pt(0, 0), pt(3, 0)], 4), &mut fb).unwrap();
    for y in 0..5 {
        for x in 0..5 {
            let expected = if y == 0 && x <= 3 { 4 } else { 0 };
            assert_eq!(fb.get_pixel(x, y), expected);
        }
    }
}

#[test]
fn diagonal_line_hits_both_endpoints() {
    let mut fb = Framebuffer::new(8, 8);
    draw(DrawPrimitive::Line([pt(1, 1), pt(6, 4)], 2), &mut fb).unwrap();
    assert_eq!(fb.get_pixel(1, 1), 2);
    assert_eq!(fb.get_pixel(6, 4), 2);
}

#[test]
fn scanline_coverage_of_axis_triangle() {
    // The triangle (0,0), (4,0), (0,4) covers exactly x + y <= 4, each row
    // written once including the split row y = 0.
    let mut fb = Framebuffer::new(8, 8);
    let prim = DrawPrimitive::ColoredTriangle([pt(0, 0), pt(4, 0), pt(0, 4)], 7);
    draw(prim, &mut fb).unwrap();
    for y in 0..8 {
        for x in 0..8 {
            let expected = if x + y <= 4 { 7 } else { 0 };
            assert_eq!(fb.get_pixel(x, y), expected, "pixel ({x}, {y})");
        }
    }
}

#[test]
fn reversed_winding_is_culled() {
    let mut fb = Framebuffer::new(8, 8);
    // The same triangle with its vertex list reversed is back-facing.
    let prim = DrawPrimitive::ColoredTriangle([pt(0, 4), pt(4, 0), pt(0, 0)], 7);
    draw(prim, &mut fb).unwrap();
    for y in 0..8 {
        for x in 0..8 {
            assert_eq!(fb.get_pixel(x, y), 0);
        }
    }
}

#[test]
fn offscreen_bounding_box_is_discarded() {
    let mut fb = Framebuffer::new(8, 8);
    let prim = DrawPrimitive::ColoredTriangle([pt(-20, 0), pt(-10, 0), pt(-20, 10)], 7);
    draw(prim, &mut fb).unwrap();
    for y in 0..8 {
        for x in 0..8 {
            assert_eq!(fb.get_pixel(x, y), 0);
        }
    }
}

#[test]
fn partially_offscreen_triangle_is_clamped() {
    // A large triangle overlapping a 4x4 framebuffer fills it completely
    // and writes nothing anywhere else; out-of-grid writes cannot even be
    // expressed against the grid, and the verified contract keeps every
    // span within the rectangle.
    let mut fb = Framebuffer::new(4, 4);
    let prim = DrawPrimitive::ColoredTriangle([pt(0, 0), pt(9, 0), pt(0, 9)], 3);
    draw(prim, &mut fb).unwrap();
    for y in 0..4 {
        for x in 0..4 {
            assert_eq!(fb.get_pixel(x, y), 3);
        }
    }
}

#[test]
fn row_capacity_boundary() {
    let w = (MAX_ROW_WIDTH + 2) as i32;
    // Top row exactly at capacity: spans x = 0 ..= MAX_ROW_WIDTH - 1.
    let mut fb = Framebuffer::new(w, 3);
    let exact = DrawPrimitive::ColoredTriangle(
        [pt(0, 0), pt(MAX_ROW_WIDTH as i32 - 1, 0), pt(0, MAX_ROW_WIDTH as i32 - 1)],
        5,
    );
    assert_eq!(draw(exact, &mut fb), Ok(()));
    assert_eq!(fb.get_pixel(0, 0), 5);
    assert_eq!(fb.get_pixel(MAX_ROW_WIDTH as i32 - 1, 0), 5);

    // One pixel wider must fail, not corrupt anything.
    let mut fb2 = Framebuffer::new(w, 3);
    let over = DrawPrimitive::ColoredTriangle(
        [pt(0, 0), pt(MAX_ROW_WIDTH as i32, 0), pt(0, MAX_ROW_WIDTH as i32)],
        5,
    );
    assert_eq!(draw(over, &mut fb2), Err(RenderError::RowCapacityExceeded));
}

#[test]
fn flat_top_triangle_has_no_gap_or_double_write_at_split_row() {
    // p2.y == p1.y: the top half is empty and the bottom half owns every
    // row from the split row down.
    let mut fb = Framebuffer::new(8, 8);
    fill_triangle(pt(0, 0), pt(4, 0), pt(0, 4), 6, &mut fb).unwrap();
    for x in 0..=4 {
        assert_eq!(fb.get_pixel(x, 0), 6);
    }
    assert_eq!(fb.get_pixel(0, 4), 6);
}

#[test]
fn general_triangle_rows_are_contiguous() {
    let mut fb = Framebuffer::new(16, 16);
    let prim = DrawPrimitive::ColoredTriangle([pt(2, 1), pt(12, 5), pt(4, 11)], 8);
    draw(prim, &mut fb).unwrap();
    // Every row the triangle touches is one contiguous run of pixels.
    for y in 0..16 {
        let xs: Vec<i32> = (0..16).filter(|&x| fb.get_pixel(x, y) == 8).collect();
        if let (Some(first), Some(last)) = (xs.first(), xs.last()) {
            assert_eq!(xs.len() as i32, last - first + 1, "row {y} has a gap");
        }
    }
    // The triangle is front-facing, so it rasterizes something.
    assert_eq!(fb.get_pixel(3, 2), 8);
}

#[test]
fn interpolator_walks_to_the_exact_endpoint() {
    // The incremental interpolator and direct truncating interpolation
    // agree at the far endpoint of each edge.
    let edges = [
        (pt(0, 0), pt(7, 3)),
        (pt(5, 0), pt(-3, 4)),
        (pt(-2, 1), pt(9, 9)),
        (pt(3, 2), pt(3, 6)),
    ];
    for (s, e) in edges {
        let mut it = Interpolator::new(s, e);
        let dy = e.y - s.y;
        let mut last = s.x;
        for _ in 0..dy {
            last = it.next();
        }
        assert_eq!(last, e.x, "edge {s:?} -> {e:?}");
    }
}

#[test]
fn interpolator_steps_accumulate_the_remainder() {
    let mut it = Interpolator::new(pt(0, 0), pt(7, 3));
    assert_eq!(it.next(), 2);
    assert_eq!(it.next(), 4);
    assert_eq!(it.next(), 7);
}

#[test]
fn backfacing_test_follows_the_winding() {
    // Counter-clockwise in screen coordinates is front-facing.
    assert!(!is_backfacing(pt(0, 0), pt(4, 0), pt(0, 4)));
    // Swapping two vertices reverses the winding.
    assert!(is_backfacing(pt(0, 0), pt(0, 4), pt(4, 0)));
    // A degenerate triangle is discarded too.
    assert!(is_backfacing(pt(0, 0), pt(2, 2), pt(4, 4)));
}

#[test]
fn framebuffer_starts_blank() {
    let fb = Framebuffer::new(3, 2);
    assert_eq!(fb.width(), 3);
    assert_eq!(fb.height(), 2);
    for y in 0..2 {
        for x in 0..3 {
            assert_eq!(fb.get_pixel(x, y), 0);
        }
    }
}
