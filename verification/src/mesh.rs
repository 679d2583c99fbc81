//! Geometry buffers with referential-integrity validation, wireframe edge
//! extraction, and the mesh transform state with its cached model matrix.

use vstd::prelude::*;

verus! {

use crate::GeometryError;

/// The fixed capacity of the wireframe edge set.
pub const MAX_EDGES: usize = 512;

/// An immutable view of vertex, face, normal, line and color buffers.
///
/// Vertex and normal components, like every scalar of this crate's transform
/// state, are carried as the 32-bit patterns of the caller's floating-point
/// values; the core never does arithmetic on them.
#[derive(Clone, Copy, Debug)]
pub struct Geometry<'a> {
    pub vertices: &'a [[u32; 3]],
    pub faces: &'a [[usize; 3]],
    pub colors: &'a [u16],
    pub lines: &'a [[usize; 2]],
    pub normals: &'a [[u32; 3]],
}

impl<'a> Geometry<'a> {
    /// The geometry invariant: vertices non-empty, every face and line index
    /// in bounds, and a color count of zero or one per vertex.
    pub open spec fn spec_valid(self) -> bool {
        &&& self.vertices@.len() > 0
        &&& forall|i: int|
            0 <= i < self.faces@.len() ==> {
                &&& self.faces@[i]@[0] < self.vertices@.len()
                &&& self.faces@[i]@[1] < self.vertices@.len()
                &&& self.faces@[i]@[2] < self.vertices@.len()
            }
        &&& forall|i: int|
            0 <= i < self.lines@.len() ==> {
                &&& self.lines@[i]@[0] < self.vertices@.len()
                &&& self.lines@[i]@[1] < self.vertices@.len()
            }
        &&& (self.colors@.len() == 0 || self.colors@.len() == self.vertices@.len())
    }

    /// Checks the geometry invariant, stopping at the first violation.
    pub fn check_validity(&self) -> (r: bool)
        ensures
            r == self.spec_valid(),
    {
        if self.vertices.len() == 0 {
            return false;
        }

        let n = self.vertices.len();
        for i in 0..self.faces.len()
            invariant
                n == self.vertices@.len(),
                forall|j: int|
                    0 <= j < i ==> {
                        &&& self.faces@[j]@[0] < n
                        &&& self.faces@[j]@[1] < n
                        &&& self.faces@[j]@[2] < n
                    },
        {
            let face = &self.faces[i];
            if face[0] >= n || face[1] >= n || face[2] >= n {
                return false;
            }
        }

        for i in 0..self.lines.len()
            invariant
                n == self.vertices@.len(),
                forall|j: int|
                    0 <= j < i ==> {
                        &&& self.lines@[j]@[0] < n
                        &&& self.lines@[j]@[1] < n
                    },
        {
            let line = &self.lines[i];
            if line[0] >= n || line[1] >= n {
                return false;
            }
        }

        if self.colors.len() != 0 && self.colors.len() != n {
            return false;
        }

        true
    }
}

/// An undirected triangle edge normalized so that the smaller index comes
/// first.
pub open spec fn norm_edge(a: usize, b: usize) -> (usize, usize) {
    if a < b {
        (a, b)
    } else {
        (b, a)
    }
}

/// The three normalized edges of one triangle face.
pub open spec fn face_edges(f: [usize; 3]) -> Set<(usize, usize)> {
    set![norm_edge(f@[0], f@[1]), norm_edge(f@[1], f@[2]), norm_edge(f@[2], f@[0])]
}

/// The normalized edges of the first `n` faces.
pub open spec fn edges_of_prefix(faces: Seq<[usize; 3]>, n: int) -> Set<(usize, usize)>
    decreases n,
{
    if n <= 0 {
        Set::empty()
    } else {
        edges_of_prefix(faces, n - 1).union(face_edges(faces[n - 1]))
    }
}

/// The set of unique undirected edges across all triangle faces.
pub open spec fn spec_edges(faces: Seq<[usize; 3]>) -> Set<(usize, usize)> {
    edges_of_prefix(faces, faces.len() as int)
}

pub proof fn lemma_edges_prefix_finite(faces: Seq<[usize; 3]>, n: int)
    ensures
        edges_of_prefix(faces, n).finite(),
    decreases n,
{
    if n > 0 {
        lemma_edges_prefix_finite(faces, n - 1);
    }
}

pub proof fn lemma_edges_prefix_subset(faces: Seq<[usize; 3]>, m: int, n: int)
    requires
        m <= n,
    ensures
        edges_of_prefix(faces, m).subset_of(edges_of_prefix(faces, n)),
    decreases n - m,
{
    if m < n {
        lemma_edges_prefix_subset(faces, m, n - 1);
    }
}

#[verifier::external_type_specification]
#[verifier::external_body]
#[verifier::reject_recursive_types(T)]
#[verifier::reject_recursive_types(S)]
pub struct ExIndexSet<T, S, const N: usize>(heapless::IndexSet<T, S, N>);

#[verifier::external_type_specification]
#[verifier::external_body]
pub struct ExFnvHasher(hash32::FnvHasher);

#[verifier::external_type_specification]
#[verifier::external_body]
#[verifier::reject_recursive_types(H)]
pub struct ExBuildHasherDefault<H>(hash32::BuildHasherDefault<H>);

/// The elements that an edge set holds, in insertion order.
pub uninterp spec fn edge_set_seq(s: heapless::FnvIndexSet<(usize, usize), 512>) -> Seq<
    (usize, usize),
>;

/// Relies on heapless::IndexSet::new: the created set is empty.
#[verifier::external_body]
fn edge_set_new() -> (s: heapless::FnvIndexSet<(usize, usize), 512>)
    ensures
        edge_set_seq(s) == Seq::<(usize, usize)>::empty(),
{
    heapless::FnvIndexSet::new()
}

/// Relies on heapless::IndexSet::insert: a missing value is appended in
/// insertion order, a present one leaves the set unchanged, and the call
/// fails only when the set already holds its full capacity of other values.
#[verifier::external_body]
fn edge_set_insert(
    s: &mut heapless::FnvIndexSet<(usize, usize), 512>,
    e: (usize, usize),
) -> (r: Result<bool, (usize, usize)>)
    ensures
        match r {
            Ok(true) => !edge_set_seq(*old(s)).contains(e) && edge_set_seq(*old(s)).len() < 512
                && edge_set_seq(*final(s)) == edge_set_seq(*old(s)).push(e),
            Ok(false) => edge_set_seq(*old(s)).contains(e) && edge_set_seq(*final(s))
                == edge_set_seq(*old(s)),
            Err(v) => v == e && !edge_set_seq(*old(s)).contains(e) && edge_set_seq(*old(s)).len()
                == 512 && edge_set_seq(*final(s)) == edge_set_seq(*old(s)),
        },
{
    s.insert(e)
}

/// Relies on heapless::IndexSet::iter: it yields each element once, in
/// insertion order.
#[verifier::external_body]
fn edge_set_to_vec(s: &heapless::FnvIndexSet<(usize, usize), 512>) -> (r: Vec<(usize, usize)>)
    ensures
        r@ == edge_set_seq(*s),
{
    s.iter().copied().collect()
}

/// What the edge-extraction loop maintains about the set's contents.
pub open spec fn edge_model_ok(model: Seq<(usize, usize)>, found: Set<(usize, usize)>) -> bool {
    &&& model.no_duplicates()
    &&& model.len() <= 512
    &&& model.to_set() == found
    &&& forall|k: int| 0 <= k < model.len() ==> (#[trigger] model[k]).0 <= model[k].1
}

/// Inserts the normalized edge `(min(a, b), max(a, b))` into the set,
/// reporting a full set as `EdgeCapacityExceeded`.
fn insert_edge(
    s: &mut heapless::FnvIndexSet<(usize, usize), 512>,
    found: Ghost<Set<(usize, usize)>>,
    a: usize,
    b: usize,
) -> (r: Result<(), GeometryError>)
    requires
        edge_model_ok(edge_set_seq(*old(s)), found@),
    ensures
        match r {
            Ok(()) => edge_model_ok(edge_set_seq(*final(s)), found@.insert(norm_edge(a, b))),
            Err(e) => {
                &&& e == GeometryError::EdgeCapacityExceeded
                &&& edge_set_seq(*final(s)) == edge_set_seq(*old(s))
                &&& found@.finite() ==> found@.insert(norm_edge(a, b)).len() > 512
            },
        },
{
    let e: (usize, usize) = if a < b {
        (a, b)
    } else {
        (b, a)
    };
    let ghost pre = edge_set_seq(*s);
    match edge_set_insert(s, e) {
        Ok(added) => {
            proof {
                let post = edge_set_seq(*s);
                if added {
                    assert(post.drop_last() == pre);
                    assert forall|x: (usize, usize)| post.to_set().contains(x) implies found@.insert(
                        norm_edge(a, b),
                    ).contains(x) by {
                        let k = choose|k: int| 0 <= k < post.len() && post[k] == x;
                        if k < pre.len() {
                            assert(pre[k] == x);
                        }
                    }
                    assert forall|x: (usize, usize)|
                        found@.insert(norm_edge(a, b)).contains(x) implies post.to_set().contains(
                        x,
                    ) by {
                        if found@.contains(x) {
                            let k = choose|k: int| 0 <= k < pre.len() && pre[k] == x;
                            assert(post[k] == x);
                        } else {
                            assert(post[pre.len() as int] == x);
                        }
                    }
                    assert(post.to_set() =~= found@.insert(norm_edge(a, b)));
                } else {
                    assert(found@.insert(norm_edge(a, b)) =~= found@);
                }
            }
            Ok(())
        },
        Err(_) => {
            proof {
                if found@.finite() {
                    pre.unique_seq_to_set();
                    vstd::set_lib::lemma_len_subset(
                        found@,
                        found@.insert(norm_edge(a, b)),
                    );
                    assert(found@.insert(norm_edge(a, b)).len() >= 513) by {
                        assert(!found@.contains(norm_edge(a, b)));
                        assert(found@.len() == 512);
                    }
                }
            }
            Err(GeometryError::EdgeCapacityExceeded)
        },
    }
}

impl<'a> Geometry<'a> {
    /// Derives the unique undirected wireframe edges of a triangle list, each
    /// normalized so that the smaller vertex index comes first.
    ///
    /// More than [`MAX_EDGES`] distinct edges is a reported failure, never a
    /// silent drop.
    pub fn lines_from_faces(faces: &[[usize; 3]]) -> (r: Result<
        Vec<(usize, usize)>,
        GeometryError,
    >)
        ensures
            match r {
                Ok(v) => {
                    &&& v@.no_duplicates()
                    &&& v@.to_set() == spec_edges(faces@)
                    &&& v@.len() == spec_edges(faces@).len() <= MAX_EDGES
                    &&& forall|k: int| 0 <= k < v@.len() ==> (#[trigger] v@[k]).0 <= v@[k].1
                },
                Err(e) => {
                    &&& e == GeometryError::EdgeCapacityExceeded
                    &&& spec_edges(faces@).len() > MAX_EDGES
                },
            },
    {
        let mut set = edge_set_new();
        proof {
            assert(edge_set_seq(set).to_set() =~= edges_of_prefix(faces@, 0));
        }
        for i in 0..faces.len()
            invariant
                edge_model_ok(edge_set_seq(set), edges_of_prefix(faces@, i as int)),
        {
            proof {
                lemma_edges_prefix_finite(faces@, i as int);
            }
            let face = &faces[i];
            let ghost found0 = edges_of_prefix(faces@, i as int);
            let r0 = insert_edge(&mut set, Ghost(found0), face[0], face[1]);
            let ghost found1 = found0.insert(norm_edge(face@[0], face@[1]));
            if let Err(e) = r0 {
                proof {
                    lemma_edge_err(faces@, i as int, found1);
                }
                return Err(e);
            }
            let r1 = insert_edge(&mut set, Ghost(found1), face[1], face[2]);
            let ghost found2 = found1.insert(norm_edge(face@[1], face@[2]));
            if let Err(e) = r1 {
                proof {
                    lemma_edge_err(faces@, i as int, found2);
                }
                return Err(e);
            }
            let r2 = insert_edge(&mut set, Ghost(found2), face[2], face[0]);
            let ghost found3 = found2.insert(norm_edge(face@[2], face@[0]));
            if let Err(e) = r2 {
                proof {
                    lemma_edge_err(faces@, i as int, found3);
                }
                return Err(e);
            }
            proof {
                assert(found3 =~= edges_of_prefix(faces@, i + 1));
            }
        }
        let v = edge_set_to_vec(&set);
        proof {
            edge_set_seq(set).unique_seq_to_set();
        }
        Ok(v)
    }
}

/// A scalar triple (a point or vector), each component the 32-bit pattern of
/// the caller's floating-point value.
#[derive(Clone, Copy, Debug, PartialEq, Eq, Structural)]
pub struct Vec3 {
    pub x: u32,
    pub y: u32,
    pub z: u32,
}

/// A unit quaternion, each component a 32-bit scalar pattern.
#[derive(Clone, Copy, Debug, PartialEq, Eq, Structural)]
pub struct Quat {
    pub x: u32,
    pub y: u32,
    pub z: u32,
    pub w: u32,
}

/// A 4x4 homogeneous matrix in column-major order, each entry a 32-bit
/// scalar pattern.
#[derive(Clone, Copy, Debug, PartialEq)]
pub struct Mat4 {
    pub m: [u32; 16],
}

/// The 32-bit pattern of the scalar one.
pub const ONE_BITS: u32 = 0x3F80_0000;

/// The sign-bit-only pattern, the scalar negative zero.
pub const NEG_ZERO_BITS: u32 = 0x8000_0000;

/// Whether a scalar pattern compares equal to zero: exactly the two IEEE
/// zero patterns do.
pub open spec fn spec_is_zero(b: u32) -> bool {
    b == 0 || b == NEG_ZERO_BITS
}

#[verifier::when_used_as_spec(spec_is_zero)]
pub fn is_zero(b: u32) -> (r: bool)
    ensures
        r == spec_is_zero(b),
{
    b == 0 || b == NEG_ZERO_BITS
}

/// The identity rotation.
pub open spec fn spec_quat_identity() -> Quat {
    Quat { x: 0, y: 0, z: 0, w: ONE_BITS }
}

/// Whether a matrix is the identity: ones on the diagonal, zeros elsewhere.
pub open spec fn spec_mat_identity(m: Mat4) -> bool {
    &&& m.m@.len() == 16
    &&& forall|i: int|
        0 <= i < 16 ==> m.m@[i] == if i % 5 == 0 {
            ONE_BITS
        } else {
            0u32
        }
}

/// How the primitives of a mesh are rendered.
#[derive(Clone, Copy, Debug, PartialEq, Eq, Structural)]
pub enum RenderMode {
    Points,
    Lines,
    Solid,
    SolidLightDir(Vec3),
}

/// After a failed insertion while handling face `i`, the full edge set is
/// over capacity: the edges gathered so far, together with the refused one,
/// already number more than the capacity, and all of them belong to the
/// complete edge set.
proof fn lemma_edge_err(faces: Seq<[usize; 3]>, i: int, over: Set<(usize, usize)>)
    requires
        0 <= i < faces.len(),
        over.subset_of(edges_of_prefix(faces, i).union(face_edges(faces[i]))),
        over.finite(),
        over.len() > 512,
    ensures
        spec_edges(faces).len() > 512,
{
    lemma_edges_prefix_subset(faces, i + 1, faces.len() as int);
    lemma_edges_prefix_finite(faces, faces.len() as int);
    assert(over.subset_of(edges_of_prefix(faces, i + 1)));
    assert(over.subset_of(spec_edges(faces)));
    vstd::set_lib::lemma_len_subset(over, spec_edges(faces));
}

/// The mesh transform state: a borrowed geometry, a similarity transform
/// (translation, rotation, uniform scale), a render-mode selector, and a
/// lazily recomputed model matrix guarded by a dirty flag.
///
/// All scalars are 32-bit patterns of the caller's floating-point values;
/// the core compares and stores them but never does arithmetic on them.
/// The results of the floating-point computations the transform operations
/// need (Euler-angle conversion, quaternion products, look-at, matrix
/// composition) are handed in by the caller's numeric adapter, and this
/// type does all the deciding and caching.
pub struct K3dMesh<'a> {
    pub translation: Vec3,
    pub rotation: Quat,
    pub scale: u32,
    pub model_matrix: Mat4,
    pub model_dirty: bool,
    pub color: u16,
    pub render_mode: RenderMode,
    pub geometry: Geometry<'a>,
}

/// Whether two meshes agree on everything but the transform state and the
/// matrix cache.
pub open spec fn same_fixtures(a: K3dMesh, b: K3dMesh) -> bool {
    &&& a.color == b.color
    &&& a.render_mode == b.render_mode
    &&& a.geometry == b.geometry
}

impl<'a> K3dMesh<'a> {
    /// Whether the cached model matrix is stale.
    pub open spec fn is_dirty(&self) -> bool {
        self.model_dirty
    }

    /// Creates a mesh at the origin with the identity transform, a valid
    /// matrix cache, white color and point rendering.
    ///
    /// Callers check the geometry with [`Geometry::check_validity`] first:
    /// invalid geometry must never reach a mesh.
    pub fn new(geometry: Geometry<'a>) -> (r: K3dMesh<'a>)
        requires
            geometry.spec_valid(),
        ensures
            r.geometry == geometry,
            r.translation == (Vec3 { x: 0, y: 0, z: 0 }),
            r.rotation == spec_quat_identity(),
            r.scale == ONE_BITS,
            spec_mat_identity(r.model_matrix),
            !r.is_dirty(),
            r.color == 0xFFFF,
            r.render_mode == RenderMode::Points,
    {
        K3dMesh {
            translation: Vec3 { x: 0, y: 0, z: 0 },
            rotation: Quat { x: 0, y: 0, z: 0, w: ONE_BITS },
            scale: ONE_BITS,
            model_matrix: mat_identity(),
            model_dirty: false,
            color: 0xFFFF,
            render_mode: RenderMode::Points,
            geometry,
        }
    }

    /// The checked constructor: validates the geometry first and refuses an
    /// invalid one with [`GeometryError::InvalidGeometry`], so bad buffers
    /// never reach rendering.
    pub fn try_new(geometry: Geometry<'a>) -> (r: Result<K3dMesh<'a>, GeometryError>)
        ensures
            match r {
                Ok(m) => {
                    &&& geometry.spec_valid()
                    &&& m.geometry == geometry
                    &&& m.translation == (Vec3 { x: 0, y: 0, z: 0 })
                    &&& m.rotation == spec_quat_identity()
                    &&& m.scale == ONE_BITS
                    &&& spec_mat_identity(m.model_matrix)
                    &&& !m.is_dirty()
                    &&& m.color == 0xFFFF
                    &&& m.render_mode == RenderMode::Points
                },
                Err(e) => {
                    &&& e == GeometryError::InvalidGeometry
                    &&& !geometry.spec_valid()
                },
            },
    {
        if geometry.check_validity() {
            Ok(K3dMesh::new(geometry))
        } else {
            Err(GeometryError::InvalidGeometry)
        }
    }

    pub fn set_color(&mut self, color: u16)
        ensures
            final(self).color == color,
            final(self).translation == old(self).translation,
            final(self).rotation == old(self).rotation,
            final(self).scale == old(self).scale,
            final(self).model_matrix == old(self).model_matrix,
            final(self).is_dirty() == old(self).is_dirty(),
            final(self).render_mode == old(self).render_mode,
            final(self).geometry == old(self).geometry,
    {
        self.color = color;
    }

    pub fn set_render_mode(&mut self, mode: RenderMode)
        ensures
            final(self).render_mode == mode,
            final(self).translation == old(self).translation,
            final(self).rotation == old(self).rotation,
            final(self).scale == old(self).scale,
            final(self).model_matrix == old(self).model_matrix,
            final(self).is_dirty() == old(self).is_dirty(),
            final(self).color == old(self).color,
            final(self).geometry == old(self).geometry,
    {
        self.render_mode = mode;
    }

    /// Replaces the translation; marks the matrix stale only when the value
    /// actually changes (exact scalar-pattern comparison, no tolerance).
    pub fn set_position(&mut self, x: u32, y: u32, z: u32)
        ensures
            old(self).translation == (Vec3 { x, y, z }) ==> *final(self) == *old(self),
            old(self).translation != (Vec3 { x, y, z }) ==> {
                &&& final(self).translation == (Vec3 { x, y, z })
                &&& final(self).rotation == old(self).rotation
                &&& final(self).scale == old(self).scale
                &&& final(self).model_matrix == old(self).model_matrix
                &&& final(self).is_dirty()
                &&& same_fixtures(*old(self), *final(self))
            },
    {
        if self.translation.x != x || self.translation.y != y || self.translation.z != z {
            self.translation = Vec3 { x, y, z };
            self.model_dirty = true;
        }
    }

    pub fn get_position(&self) -> (r: Vec3)
        ensures
            r == self.translation,
    {
        self.translation
    }

    /// Replaces the rotation with `q`, the quaternion the caller's numeric
    /// adapter derived from the requested Euler angles; marks the matrix
    /// stale only when the rotation actually changes.
    pub fn set_attitude(&mut self, q: Quat)
        ensures
            old(self).rotation == q ==> *final(self) == *old(self),
            old(self).rotation != q ==> {
                &&& final(self).rotation == q
                &&& final(self).translation == old(self).translation
                &&& final(self).scale == old(self).scale
                &&& final(self).model_matrix == old(self).model_matrix
                &&& final(self).is_dirty()
                &&& same_fixtures(*old(self), *final(self))
            },
    {
        if self.rotation != q {
            self.rotation = q;
            self.model_dirty = true;
        }
    }

    /// Replaces the whole transform with the look-at pose the caller's
    /// numeric adapter computed (eye at the current translation, looking
    /// toward the target, up along world Y): always marks the matrix stale,
    /// and deliberately resets the scale to one, discarding the previous
    /// scale, as the look-at pose is built with unit scaling.
    pub fn set_target(&mut self, translation: Vec3, rotation: Quat)
        ensures
            final(self).translation == translation,
            final(self).rotation == rotation,
            final(self).scale == ONE_BITS,
            final(self).model_matrix == old(self).model_matrix,
            final(self).is_dirty(),
            same_fixtures(*old(self), *final(self)),
    {
        self.translation = translation;
        self.rotation = rotation;
        self.scale = ONE_BITS;
        self.model_dirty = true;
    }

    /// Replaces the uniform scale; a zero scale is rejected as a no-op, and
    /// an unchanged scale marks nothing stale.
    pub fn set_scale(&mut self, s: u32)
        ensures
            spec_is_zero(s) || old(self).scale == s ==> *final(self) == *old(self),
            !spec_is_zero(s) && old(self).scale != s ==> {
                &&& final(self).scale == s
                &&& final(self).translation == old(self).translation
                &&& final(self).rotation == old(self).rotation
                &&& final(self).model_matrix == old(self).model_matrix
                &&& final(self).is_dirty()
                &&& same_fixtures(*old(self), *final(self))
            },
    {
        if !is_zero(s) && self.scale != s {
            self.scale = s;
            self.model_dirty = true;
        }
    }

    pub fn get_scale(&self) -> (r: u32)
        ensures
            r == self.scale,
    {
        self.scale
    }

    /// Accumulates a translation. `moved` is the component-wise sum of the
    /// current translation and the deltas, computed by the caller's numeric
    /// adapter; a delta of all zero scalars is a no-op that marks nothing
    /// stale.
    pub fn translate(&mut self, dx: u32, dy: u32, dz: u32, moved: Vec3)
        ensures
            spec_is_zero(dx) && spec_is_zero(dy) && spec_is_zero(dz) ==> *final(self) == *old(
                self,
            ),
            !(spec_is_zero(dx) && spec_is_zero(dy) && spec_is_zero(dz)) ==> {
                &&& final(self).translation == moved
                &&& final(self).rotation == old(self).rotation
                &&& final(self).scale == old(self).scale
                &&& final(self).model_matrix == old(self).model_matrix
                &&& final(self).is_dirty()
                &&& same_fixtures(*old(self), *final(self))
            },
    {
        if !is_zero(dx) || !is_zero(dy) || !is_zero(dz) {
            self.translation = moved;
            self.model_dirty = true;
        }
    }

    /// Accumulates a rotation. `rotated` is the product of the current
    /// rotation and the additional one, computed by the caller's numeric
    /// adapter; the matrix is always marked stale.
    pub fn rotate(&mut self, rotated: Quat)
        ensures
            final(self).rotation == rotated,
            final(self).translation == old(self).translation,
            final(self).scale == old(self).scale,
            final(self).model_matrix == old(self).model_matrix,
            final(self).is_dirty(),
            same_fixtures(*old(self), *final(self)),
    {
        self.rotation = rotated;
        self.model_dirty = true;
    }

    pub fn needs_update(&self) -> (r: bool)
        ensures
            r == self.is_dirty(),
    {
        self.model_dirty
    }

    /// Refreshes the matrix cache: when the cache is stale, stores
    /// `composed`, the caller's composition of the current similarity into a
    /// homogeneous matrix, and marks it fresh; when it is already fresh, the
    /// argument is ignored and nothing changes, so the expensive composition
    /// is spent at most once per mutation, however often the matrix is read.
    pub fn update_model_matrix(&mut self, composed: Mat4)
        ensures
            !old(self).is_dirty() ==> *final(self) == *old(self),
            old(self).is_dirty() ==> {
                &&& final(self).model_matrix == composed
                &&& !final(self).is_dirty()
                &&& final(self).translation == old(self).translation
                &&& final(self).rotation == old(self).rotation
                &&& final(self).scale == old(self).scale
                &&& same_fixtures(*old(self), *final(self))
            },
    {
        if self.model_dirty {
            self.model_matrix = composed;
            self.model_dirty = false;
        }
    }

    /// Returns the cached model matrix. The cache must be fresh: a stale
    /// matrix is never served, so a caller refreshes first (see
    /// [`Self::needs_update`] and [`Self::update_model_matrix`]).
    pub fn get_model_matrix(&self) -> (r: Mat4)
        requires
            !self.is_dirty(),
        ensures
            r == self.model_matrix,
    {
        self.model_matrix
    }
}

/// Builds the identity matrix.
pub fn mat_identity() -> (r: Mat4)
    ensures
        spec_mat_identity(r),
{
    let m: [u32; 16] = [
        ONE_BITS,
        0,
        0,
        0,
        0,
        ONE_BITS,
        0,
        0,
        0,
        0,
        ONE_BITS,
        0,
        0,
        0,
        0,
        ONE_BITS,
    ];
    Mat4 { m }
}

impl<'a> Default for K3dMesh<'a> {
    /// An empty placeholder mesh: no geometry buffers, identity transform,
    /// fresh identity matrix cache. Its geometry is not valid, so it renders
    /// nothing until replaced.
    fn default() -> (r: Self)
        ensures
            r.geometry.vertices@.len() == 0,
            r.geometry.faces@.len() == 0,
            r.geometry.colors@.len() == 0,
            r.geometry.lines@.len() == 0,
            r.geometry.normals@.len() == 0,
            r.translation == (Vec3 { x: 0, y: 0, z: 0 }),
            r.rotation == spec_quat_identity(),
            r.scale == ONE_BITS,
            spec_mat_identity(r.model_matrix),
            !r.is_dirty(),
            r.color == 0xFFFF,
            r.render_mode == RenderMode::Points,
    {
        K3dMesh {
            translation: Vec3 { x: 0, y: 0, z: 0 },
            rotation: Quat { x: 0, y: 0, z: 0, w: ONE_BITS },
            scale: ONE_BITS,
            model_matrix: mat_identity(),
            model_dirty: false,
            color: 0xFFFF,
            render_mode: RenderMode::Points,
            geometry: Geometry {
                vertices: &[],
                faces: &[],
                colors: &[],
                lines: &[],
                normals: &[],
            },
        }
    }
}

/// Law: mesh mutations that replace a transform component with its current
/// value leave the whole state, the dirty flag included, unchanged, and the
/// matrix cache protocol never serves a stale matrix while composing at most
/// once per mutation: refreshing a stale mesh makes it fresh with the
/// composed matrix, and reading the matrix of a fresh mesh depends on the
/// mesh state alone, so two reads with no mutation between them agree.
pub proof fn lemma_matrix_cache(pre: K3dMesh, refreshed: K3dMesh, composed: Mat4, r1: Mat4, r2: Mat4)
    requires
        pre.is_dirty(),
        refreshed.model_matrix == composed,
        !refreshed.is_dirty(),
        r1 == refreshed.model_matrix,
        r2 == refreshed.model_matrix,
    ensures
        r1 == composed,
        r1 == r2,
{
}

} // verus!
