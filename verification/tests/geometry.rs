use k3d::mesh::Geometry;
use k3d::mesh::K3dMesh;
use k3d::GeometryError;

fn tri_verts() -> Vec<[u32; 3]> {
    vec![
        [0.0f32.to_bits(), 0.0f32.to_bits(), 0.0f32.to_bits()],
        [1.0f32.to_bits(), 0.0f32.to_bits(), 0.0f32.to_bits()],
        [0.0f32.to_bits(), 1.0f32.to_bits(), 0.0f32.to_bits()],
    ]
}

#[test]
fn validity_accepts_well_formed_geometry() {
    let vertices = tri_verts();
    let faces = [[0usize, 1, 2]];
    let lines = [[0usize, 2]];
    let g = Geometry {
        vertices: &vertices,
        faces: &faces,
        colors: &[],
        lines: &lines,
        normals: &[],
    };
    assert!(g.check_validity());
}

#[test]
fn validity_rejects_empty_vertices() {
    let g = Geometry {
        vertices: &[],
        faces: &[],
        colors: &[],
        lines: &[],
        normals: &[],
    };
    assert!(!g.check_validity());
}

#[test]
fn validity_rejects_face_index_out_of_bounds() {
    let vertices = tri_verts();
    let faces = [[0usize, 1, 3]];
    let g = Geometry {
        vertices: &vertices,
        faces: &faces,
        colors: &[],
        lines: &[],
        normals: &[],
    };
    assert!(!g.check_validity());
}

#[test]
fn validity_rejects_line_index_out_of_bounds() {
    let vertices = tri_verts();
    let lines = [[3usize, 0]];
    let g = Geometry {
        vertices: &vertices,
        faces: &[],
        colors: &[],
        lines: &lines,
        normals: &[],
    };
    assert!(!g.check_validity());
}

#[test]
fn validity_checks_color_count() {
    let vertices = tri_verts();
    let two_colors = [1u16, 2];
    let three_colors = [1u16, 2, 3];
    let mismatched = Geometry {
        vertices: &vertices,
        faces: &[],
        colors: &two_colors,
        lines: &[],
        normals: &[],
    };
    assert!(!mismatched.check_validity());
    let exact = Geometry {
        vertices: &vertices,
        faces: &[],
        colors: &three_colors,
        lines: &[],
        normals: &[],
    };
    assert!(exact.check_validity());
}

#[test]
fn try_new_refuses_invalid_geometry() {
    let g = Geometry {
        vertices: &[],
        faces: &[],
        colors: &[],
        lines: &[],
        normals: &[],
    };
    match K3dMesh::try_new(g) {
        Err(GeometryError::InvalidGeometry) => {}
        _ => panic!("invalid geometry must be refused"),
    }
}

#[test]
fn shared_edge_appears_once_and_pairs_are_ordered() {
    let faces = [[0usize, 1, 2], [1usize, 2, 3]];
    let edges = Geometry::lines_from_faces(&faces).unwrap();
    let shared = edges.iter().filter(|e| **e == (1, 2)).count();
    assert_eq!(shared, 1);
    for (a, b) in &edges {
        assert!(a <= b);
    }
    let mut sorted = edges.clone();
    sorted.sort();
    assert_eq!(sorted, vec![(0, 1), (0, 2), (1, 2), (1, 3), (2, 3)]);
}

#[test]
fn edge_extraction_normalizes_reversed_edges() {
    let faces = [[2usize, 1, 0]];
    let mut edges = Geometry::lines_from_faces(&faces).unwrap();
    edges.sort();
    assert_eq!(edges, vec![(0, 1), (0, 2), (1, 2)]);
}

#[test]
fn edge_capacity_boundary() {
    // Each degenerate face [i, i, i] contributes exactly one unique edge.
    let at_capacity: Vec<[usize; 3]> = (0..512).map(|i| [i, i, i]).collect();
    let edges = Geometry::lines_from_faces(&at_capacity).unwrap();
    assert_eq!(edges.len(), 512);

    let over_capacity: Vec<[usize; 3]> = (0..513).map(|i| [i, i, i]).collect();
    match Geometry::lines_from_faces(&over_capacity) {
        Err(GeometryError::EdgeCapacityExceeded) => {}
        _ => panic!("over-capacity edge set must be refused"),
    }
}

#[test]
fn edge_extraction_of_empty_face_list_is_empty() {
    let edges = Geometry::lines_from_faces(&[]).unwrap();
    assert!(edges.is_empty());
}
