//! Index bookkeeping of the advancing-front tetrahedralization: triangular
//! faces and tetrahedra as triples and quadruples of point indices, and the
//! front of open faces from which new tetrahedra are grown. Choosing the
//! apex of each new tetrahedron is geometry on coordinates and stays with
//! the caller; this module keeps the combinatorial state consistent.

use vstd::prelude::*;

use vstd::multiset::Multiset;

use crate::obj_export::first_occurrences;
use crate::sort::selection_sort::selection_sort;
use crate::sort::{is_permutation, is_sorted, lemma_sorted_permutation_unique, lemma_swap_permutation};

verus! {

broadcast use vstd::seq_lib::group_to_multiset_ensures, vstd::multiset::group_multiset_axioms;

/// A triangle given by the indices of its three corners.
#[derive(Debug, Clone, Copy, PartialEq, Eq, Hash, Structural)]
pub struct Face(pub usize, pub usize, pub usize);

/// A tetrahedron given by the indices of its four corners.
#[derive(Debug, Clone, Copy, PartialEq, Eq, Hash, Structural)]
pub struct Tetrahedron(pub usize, pub usize, pub usize, pub usize);

/// The corners of a face, in order.
pub open spec fn face_seq(f: Face) -> Seq<usize> {
    seq![f.0, f.1, f.2]
}

/// The corners of a tetrahedron, in order.
pub open spec fn tetra_seq(t: Tetrahedron) -> Seq<usize> {
    seq![t.0, t.1, t.2, t.3]
}

/// What identifies a face regardless of the order of its corners.
pub open spec fn face_key(f: Face) -> Multiset<usize> {
    face_seq(f).to_multiset()
}

/// What identifies a tetrahedron regardless of the order of its corners.
pub open spec fn tetra_key(t: Tetrahedron) -> Multiset<usize> {
    tetra_seq(t).to_multiset()
}

/// The corners are listed in non-decreasing order.
pub open spec fn is_sorted_face(f: Face) -> bool {
    f.0 <= f.1 <= f.2
}

/// The corners are listed in non-decreasing order.
pub open spec fn is_sorted_tetra(t: Tetrahedron) -> bool {
    t.0 <= t.1 <= t.2 <= t.3
}

/// Two faces listed in sorted order are equal exactly when they have the
/// same corners.
pub proof fn lemma_sorted_face_key_injective(f: Face, g: Face)
    requires
        is_sorted_face(f),
        is_sorted_face(g),
    ensures
        (f == g) <==> (face_key(f) == face_key(g)),
{
    if face_key(f) == face_key(g) {
        assert(is_sorted(face_seq(f)));
        assert(is_sorted(face_seq(g)));
        lemma_sorted_permutation_unique(face_seq(f), face_seq(g));
        assert(face_seq(f)[0] == face_seq(g)[0]);
        assert(face_seq(f)[1] == face_seq(g)[1]);
        assert(face_seq(f)[2] == face_seq(g)[2]);
    }
}

/// Two tetrahedra listed in sorted order are equal exactly when they have
/// the same corners.
pub proof fn lemma_sorted_tetra_key_injective(s: Tetrahedron, t: Tetrahedron)
    requires
        is_sorted_tetra(s),
        is_sorted_tetra(t),
    ensures
        (s == t) <==> (tetra_key(s) == tetra_key(t)),
{
    if tetra_key(s) == tetra_key(t) {
        assert(is_sorted(tetra_seq(s)));
        assert(is_sorted(tetra_seq(t)));
        lemma_sorted_permutation_unique(tetra_seq(s), tetra_seq(t));
        assert(tetra_seq(s)[0] == tetra_seq(t)[0]);
        assert(tetra_seq(s)[1] == tetra_seq(t)[1]);
        assert(tetra_seq(s)[2] == tetra_seq(t)[2]);
        assert(tetra_seq(s)[3] == tetra_seq(t)[3]);
    }
}

impl Face {
    /// The same face with its corners in non-decreasing order.
    pub fn sorted(&self) -> (result: Self)
        ensures
            is_sorted_face(result),
            face_key(result) == face_key(*self),
    {
        let mut a = self.0;
        let mut b = self.1;
        let mut c = self.2;
        let ghost s0 = seq![a, b, c];
        assert(s0 =~= face_seq(*self));
        if a > b {
            proof {
                lemma_swap_permutation(seq![a, b, c], 0, 1);
                assert(seq![a, b, c].update(0, b).update(1, a) =~= seq![b, a, c]);
            }
            let t = a;
            a = b;
            b = t;
        }
        assert(is_permutation(seq![a, b, c], s0));
        if b > c {
            proof {
                lemma_swap_permutation(seq![a, b, c], 1, 2);
                assert(seq![a, b, c].update(1, c).update(2, b) =~= seq![a, c, b]);
            }
            let t = b;
            b = c;
            c = t;
        }
        assert(is_permutation(seq![a, b, c], s0));
        if a > b {
            proof {
                lemma_swap_permutation(seq![a, b, c], 0, 1);
                assert(seq![a, b, c].update(0, b).update(1, a) =~= seq![b, a, c]);
            }
            let t = a;
            a = b;
            b = t;
        }
        assert(is_permutation(seq![a, b, c], s0));
        let result = Face(a, b, c);
        assert(face_seq(result) =~= seq![a, b, c]);
        result
    }

    /// Whether `point_idx` is one of the corners.
    pub fn contains(&self, point_idx: usize) -> (result: bool)
        ensures
            result == (self.0 == point_idx || self.1 == point_idx || self.2 == point_idx),
            result == face_seq(*self).contains(point_idx),
    {
        let result = self.0 == point_idx || self.1 == point_idx || self.2 == point_idx;
        proof {
            if result {
                if self.0 == point_idx {
                    assert(face_seq(*self)[0] == point_idx);
                } else if self.1 == point_idx {
                    assert(face_seq(*self)[1] == point_idx);
                } else {
                    assert(face_seq(*self)[2] == point_idx);
                }
            } else {
                assert forall|i: int| 0 <= i < 3 implies face_seq(*self)[i] != point_idx by {}
            }
        }
        result
    }
}

/// The tetrahedron on `face` and `apex` with its corners in non-decreasing
/// order: the signature by which a generated tetrahedron is recognised.
pub fn tetrahedron_signature(face: Face, apex: usize) -> (result: Tetrahedron)
    ensures
        is_sorted_tetra(result),
        tetra_key(result) == tetra_key(Tetrahedron(face.0, face.1, face.2, apex)),
{
    let mut signature: Vec<usize> = Vec::new();
    signature.push(face.0);
    signature.push(face.1);
    signature.push(face.2);
    signature.push(apex);
    let ghost before = signature@;
    selection_sort(signature.as_mut_slice());
    assert(signature@.len() == 4) by {
        assert(signature@.to_multiset().len() == before.to_multiset().len());
    }
    let result = Tetrahedron(signature[0], signature[1], signature[2], signature[3]);
    assert(tetra_seq(result) =~= signature@);
    assert(before =~= tetra_seq(Tetrahedron(face.0, face.1, face.2, apex)));
    assert(signature@[0] <= signature@[1] && signature@[1] <= signature@[2] && signature@[2] <= signature@[3]);
    result
}

/// The faces listed by a flat array of corner indices, three per face;
/// trailing indices that do not make up a whole face are ignored.
pub fn faces_from_indices(indices: &Vec<usize>) -> (faces: Vec<Face>)
    ensures
        faces@.len() == indices@.len() / 3,
        forall|k: int|
            0 <= k < faces@.len() ==> #[trigger] faces@[k] == Face(
                indices@[3 * k],
                indices@[3 * k + 1],
                indices@[3 * k + 2],
            ),
{
    let mut faces: Vec<Face> = Vec::new();
    let count = indices.len() / 3;
    let mut k: usize = 0;
    while k < count
        invariant
            count == indices@.len() / 3,
            k <= count,
            faces@.len() == k,
            forall|t: int|
                0 <= t < k ==> #[trigger] faces@[t] == Face(
                    indices@[3 * t],
                    indices@[3 * t + 1],
                    indices@[3 * t + 2],
                ),
        decreases count - k,
    {
        let n = indices.len();
        assert(3 * k + 2 < n) by (nonlinear_arith)
            requires
                k < count,
                count == n / 3,
        ;
        faces.push(Face(indices[3 * k], indices[3 * k + 1], indices[3 * k + 2]));
        k += 1;
    }
    faces
}

/// The hull parts that are tetrahedralized: those with at least three
/// indices, in order.
pub open spec fn parts_to_tetrahedralize(parts: Seq<Seq<u32>>) -> Seq<Seq<u32>>
    decreases parts.len(),
{
    if parts.len() == 0 {
        Seq::empty()
    } else if parts.last().len() >= 3 {
        parts_to_tetrahedralize(parts.drop_last()).push(parts.last())
    } else {
        parts_to_tetrahedralize(parts.drop_last())
    }
}

/// The parts kept for tetrahedralization are exactly the parts of at least
/// three indices, each kept once and in order, wherever it stands: every
/// such part is kept, and only such parts are.
pub proof fn lemma_parts_to_tetrahedralize_keeps_long_parts(parts: Seq<Seq<u32>>)
    ensures
        parts_to_tetrahedralize(parts) == parts.filter(|p: Seq<u32>| p.len() >= 3),
        forall|g: int|
            0 <= g < parts.len() && (#[trigger] parts[g]).len() >= 3 ==> parts_to_tetrahedralize(
                parts,
            ).contains(parts[g]),
        forall|r: int|
            0 <= r < parts_to_tetrahedralize(parts).len() ==> (#[trigger] parts_to_tetrahedralize(
                parts,
            )[r]).len() >= 3 && parts.contains(parts_to_tetrahedralize(parts)[r]),
    decreases parts.len(),
{
    if parts.len() == 0 {
        reveal(Seq::filter);
    } else {
        let d = parts.drop_last();
        let last = parts.last();
        lemma_parts_to_tetrahedralize_keeps_long_parts(d);
        let pred = |p: Seq<u32>| p.len() >= 3;
        assert(parts =~= d.push(last));
        d.lemma_filter_push(last, pred);
        let kept = parts_to_tetrahedralize(parts);
        let earlier = parts_to_tetrahedralize(d);
        assert forall|g: int|
            0 <= g < parts.len() && (#[trigger] parts[g]).len() >= 3 implies kept.contains(parts[g]) by {
            if g < d.len() {
                assert(d[g] == parts[g]);
                let r = choose|r: int| 0 <= r < earlier.len() && earlier[r] == d[g];
                if last.len() >= 3 {
                    assert(kept[r] == earlier[r]);
                }
                assert(kept[r] == parts[g]);
            } else {
                assert(kept[kept.len() - 1] == last);
            }
        }
        assert forall|r: int|
            0 <= r < kept.len() implies (#[trigger] kept[r]).len() >= 3 && parts.contains(kept[r]) by {
            if r < earlier.len() {
                assert(kept[r] == earlier[r]);
                let g = choose|g: int| 0 <= g < d.len() && d[g] == earlier[r];
                assert(parts[g] == d[g]);
            } else {
                assert(kept[r] == last);
                assert(parts[parts.len() - 1] == last);
            }
        }
    }
}

/// The input of one tetrahedralization run: the distinct vertices of a
/// hull part and its triangles as a flat index list.
pub struct TetrahedralizationPart {
    /// The distinct vertices of the part, in order of first use.
    pub hull_points: Vec<usize>,
    /// The part's indices, three per triangle.
    pub hull_faces: Vec<usize>,
}

/// Widens each index.
pub open spec fn widen(s: Seq<u32>) -> Seq<usize> {
    s.map_values(|x: u32| x as usize)
}

/// The runs of a hull split into parts: every part of at least three
/// indices, with its distinct vertices and its triangles; smaller parts are
/// skipped.
pub fn tetrahedralization_parts(hull_parts: &Vec<Vec<u32>>) -> (runs: Vec<TetrahedralizationPart>)
    ensures
        runs@.len() == parts_to_tetrahedralize(hull_parts@.map_values(|p: Vec<u32>| p@)).len(),
        forall|r: int|
            0 <= r < runs@.len() ==> {
                let part = parts_to_tetrahedralize(hull_parts@.map_values(|p: Vec<u32>| p@))[r];
                &&& (#[trigger] runs@[r]).hull_faces@ == widen(part)
                &&& runs@[r].hull_points@ == widen(first_occurrences(part))
            },
        runs@.len() == hull_parts@.map_values(|p: Vec<u32>| p@).filter(|p: Seq<u32>| p.len() >= 3).len(),
        forall|g: int|
            0 <= g < hull_parts@.len() && (#[trigger] hull_parts@[g])@.len() >= 3 ==> exists|r: int|
                0 <= r < runs@.len() && (#[trigger] runs@[r]).hull_faces@ == widen(hull_parts@[g]@),
{
    let ghost parts = hull_parts@.map_values(|p: Vec<u32>| p@);
    let mut runs: Vec<TetrahedralizationPart> = Vec::new();
    let n = hull_parts.len();
    let mut g: usize = 0;
    assert(parts.take(0) =~= Seq::<Seq<u32>>::empty());
    while g < n
        invariant
            n == hull_parts@.len(),
            parts == hull_parts@.map_values(|p: Vec<u32>| p@),
            g <= n,
            runs@.len() == parts_to_tetrahedralize(parts.take(g as int)).len(),
            forall|r: int|
                0 <= r < runs@.len() ==> {
                    let part = parts_to_tetrahedralize(parts.take(g as int))[r];
                    &&& (#[trigger] runs@[r]).hull_faces@ == widen(part)
                    &&& runs@[r].hull_points@ == widen(first_occurrences(part))
                },
        decreases n - g,
    {
        let part_faces = &hull_parts[g];
        assert(parts[g as int] == part_faces@);
        assert(parts.take(g + 1).drop_last() =~= parts.take(g as int));
        assert(parts.take(g + 1).last() == part_faces@);
        if part_faces.len() >= 3 {
            let m = part_faces.len();
            let mut unique: Vec<u32> = Vec::new();
            let mut hull_faces: Vec<usize> = Vec::new();
            let mut j: usize = 0;
            assert(part_faces@.take(0) =~= Seq::<u32>::empty());
            while j < m
                invariant
                    m == part_faces@.len(),
                    j <= m,
                    unique@ == first_occurrences(part_faces@.take(j as int)),
                    hull_faces@ == widen(part_faces@.take(j as int)),
                decreases m - j,
            {
                let idx = part_faces[j];
                assert(part_faces@.take(j + 1).drop_last() =~= part_faces@.take(j as int));
                assert(part_faces@.take(j + 1).last() == idx);
                let mut k: usize = 0;
                let mut seen = false;
                while k < unique.len() && !seen
                    invariant
                        k <= unique@.len(),
                        seen ==> unique@.contains(idx),
                        !seen ==> forall|t: int| 0 <= t < k ==> unique@[t] != idx,
                    decreases unique@.len() - k + if seen { 0int } else { 1int },
                {
                    if unique[k] == idx {
                        seen = true;
                    } else {
                        k += 1;
                    }
                }
                if !seen {
                    unique.push(idx);
                }
                hull_faces.push(idx as usize);
                assert(hull_faces@ =~= widen(part_faces@.take(j + 1)));
                j += 1;
            }
            assert(part_faces@.take(m as int) =~= part_faces@);
            let mut hull_points: Vec<usize> = Vec::new();
            let mut t: usize = 0;
            while t < unique.len()
                invariant
                    t <= unique@.len(),
                    hull_points@ == widen(unique@.take(t as int)),
                decreases unique@.len() - t,
            {
                hull_points.push(unique[t] as usize);
                assert(hull_points@ =~= widen(unique@.take(t + 1)));
                t += 1;
            }
            assert(unique@.take(unique@.len() as int) =~= unique@);
            runs.push(TetrahedralizationPart { hull_points, hull_faces });
        }
        g += 1;
    }
    assert(parts.take(n as int) =~= parts);
    proof {
        lemma_parts_to_tetrahedralize_keeps_long_parts(parts);
        let kept = parts_to_tetrahedralize(parts);
        assert forall|g: int|
            0 <= g < hull_parts@.len() && (#[trigger] hull_parts@[g])@.len() >= 3 implies exists|r: int|
                0 <= r < runs@.len() && (#[trigger] runs@[r]).hull_faces@ == widen(hull_parts@[g]@) by {
            assert(parts[g] == hull_parts@[g]@);
            let r = choose|r: int| 0 <= r < kept.len() && kept[r] == parts[g];
            assert(runs@[r].hull_faces@ == widen(kept[r]));
        }
    }
    runs
}

/// The mesh indices of the triangles of a hull computed on the vertices
/// `part_vertex_indices` of a mesh: each corner, a position in the part,
/// becomes the mesh index stored there, truncated to 32 bits; and the hull's
/// vertices, positions in the part, become mesh indices too.
pub fn remap_hull_to_mesh(
    part_vertex_indices: &Vec<usize>,
    hull_vertices: &Vec<usize>,
    hull_faces: &Vec<[usize; 3]>,
) -> (remapped: (Vec<u32>, Vec<usize>))
    requires
        forall|v: int| 0 <= v < hull_vertices@.len() ==> #[trigger] hull_vertices@[v] < part_vertex_indices@.len(),
        forall|f: int, c: int|
            0 <= f < hull_faces@.len() && 0 <= c < 3 ==> #[trigger] hull_faces@[f][c] < part_vertex_indices@.len(),
    ensures
        remapped.0@.len() == 3 * hull_faces@.len(),
        forall|f: int, c: int|
            0 <= f < hull_faces@.len() && 0 <= c < 3 ==> #[trigger] remapped.0@[3 * f + c] == (
            part_vertex_indices@[hull_faces@[f][c] as int] as u32),
        remapped.1@.len() == hull_vertices@.len(),
        forall|v: int|
            0 <= v < hull_vertices@.len() ==> #[trigger] remapped.1@[v] == part_vertex_indices@[hull_vertices@[v] as int],
{
    let mut faces: Vec<u32> = Vec::new();
    let mut f: usize = 0;
    while f < hull_faces.len()
        invariant
            f <= hull_faces@.len(),
            forall|f: int, c: int|
                0 <= f < hull_faces@.len() && 0 <= c < 3 ==> #[trigger] hull_faces@[f][c] < part_vertex_indices@.len(),
            faces@.len() == 3 * f,
            forall|g: int, c: int|
                0 <= g < f && 0 <= c < 3 ==> #[trigger] faces@[3 * g + c] == (
                part_vertex_indices@[hull_faces@[g][c] as int] as u32),
        decreases hull_faces@.len() - f,
    {
        let face = hull_faces[f];
        assert(face[0] < part_vertex_indices@.len() && face[1] < part_vertex_indices@.len() && face[2] < part_vertex_indices@.len()) by {
            assert(hull_faces@[f as int][0] < part_vertex_indices@.len());
            assert(hull_faces@[f as int][1] < part_vertex_indices@.len());
            assert(hull_faces@[f as int][2] < part_vertex_indices@.len());
        }
        let ghost before = faces@;
        faces.push(part_vertex_indices[face[0]] as u32);
        faces.push(part_vertex_indices[face[1]] as u32);
        faces.push(part_vertex_indices[face[2]] as u32);
        assert forall|g: int, c: int|
            0 <= g < f + 1 && 0 <= c < 3 implies #[trigger] faces@[3 * g + c] == (
            part_vertex_indices@[hull_faces@[g][c] as int] as u32) by {
            if g < f {
                assert(faces@[3 * g + c] == before[3 * g + c]);
            } else {
                assert(hull_faces@[g] == face);
            }
        }
        f += 1;
    }
    let mut vertices: Vec<usize> = Vec::new();
    let mut v: usize = 0;
    while v < hull_vertices.len()
        invariant
            v <= hull_vertices@.len(),
            forall|v: int| 0 <= v < hull_vertices@.len() ==> #[trigger] hull_vertices@[v] < part_vertex_indices@.len(),
            vertices@.len() == v,
            forall|w: int| 0 <= w < v ==> #[trigger] vertices@[w] == part_vertex_indices@[hull_vertices@[w] as int],
        decreases hull_vertices@.len() - v,
    {
        let local_idx = hull_vertices[v];
        assert(hull_vertices@[v as int] < part_vertex_indices@.len());
        vertices.push(part_vertex_indices[local_idx]);
        v += 1;
    }
    (faces, vertices)
}

/// The limit is the larger of twenty per point and a thousand: it is at
/// least each of them, and it is one of them.
pub proof fn lemma_tetrahedron_limit_is_max(point_count: nat)
    ensures
        spec_tetrahedron_limit(point_count) >= 20 * point_count,
        spec_tetrahedron_limit(point_count) >= 1000,
        spec_tetrahedron_limit(point_count) == 20 * point_count || spec_tetrahedron_limit(point_count) == 1000,
{
}

/// The most tetrahedra a run may produce before it is abandoned as not
/// converging: twenty per point, and never fewer than a thousand.
pub open spec fn spec_tetrahedron_limit(point_count: nat) -> nat {
    if point_count * 20 >= 1000 {
        point_count * 20
    } else {
        1000
    }
}

/// Computes [`spec_tetrahedron_limit`].
pub fn tetrahedron_limit(point_count: usize) -> (limit: usize)
    requires
        point_count <= usize::MAX / 20,
    ensures
        limit == spec_tetrahedron_limit(point_count as nat),
        limit >= 20 * point_count,
        limit >= 1000,
        limit == 20 * point_count || limit == 1000,
{
    proof {
        lemma_tetrahedron_limit_is_max(point_count as nat);
    }
    let scaled = point_count * 20;
    if scaled >= 1000 {
        scaled
    } else {
        1000
    }
}

} // verus!
