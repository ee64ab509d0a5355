//! Integer decisions of the octrees: how a point's side of each splitting
//! plane names one of the eight children, which corner of the parent box a
//! child takes on each axis, and how the parity of ray crossings classifies
//! a cell as inside or outside a closed mesh.

use vstd::prelude::*;

verus! {

/// How a cell of a mesh octree lies with respect to the mesh.
#[derive(Debug, Clone, Copy, PartialEq, Eq, Structural)]
pub enum OctreeNodeType {
    IN,
    OUT,
    PARTIAL,
}

/// The child index of an octant: bit 0 for the upper half along x, bit 1
/// for y, bit 2 for z.
pub open spec fn spec_octant_index(x_upper: bool, y_upper: bool, z_upper: bool) -> nat {
    (if x_upper { 1nat } else { 0nat }) + (if y_upper { 2nat } else { 0nat }) + (if z_upper {
        4nat
    } else {
        0nat
    })
}

/// The child, among the eight, that holds a point lying in the upper half
/// of the box along the axes for which the flag is set.
pub fn octant_index(x_upper: bool, y_upper: bool, z_upper: bool) -> (index: usize)
    ensures
        index == spec_octant_index(x_upper, y_upper, z_upper),
        index < 8,
{
    let mut octant: usize = 0;
    if x_upper {
        octant = octant | 1;
    }
    if y_upper {
        octant = octant | 2;
    }
    if z_upper {
        octant = octant | 4;
    }
    assert(octant == spec_octant_index(x_upper, y_upper, z_upper)) by {
        let o: usize = octant;
        assert((0usize | 1usize) == 1usize) by (bit_vector);
        assert((0usize | 2usize) == 2usize) by (bit_vector);
        assert((1usize | 2usize) == 3usize) by (bit_vector);
        assert((0usize | 4usize) == 4usize) by (bit_vector);
        assert((1usize | 4usize) == 5usize) by (bit_vector);
        assert((2usize | 4usize) == 6usize) by (bit_vector);
        assert((3usize | 4usize) == 7usize) by (bit_vector);
    }
    octant
}

/// For child `i`, whether it takes the upper half of its parent along x, y
/// and z: bits 0, 1 and 2 of `i`.
pub fn octant_upper_halves(i: usize) -> (upper: (bool, bool, bool))
    requires
        i < 8,
    ensures
        upper.0 == (i % 2 == 1),
        upper.1 == ((i / 2) % 2 == 1),
        upper.2 == ((i / 4) % 2 == 1),
        spec_octant_index(upper.0, upper.1, upper.2) == i,
{
    let x = (i & 1) != 0;
    let y = (i & 2) != 0;
    let z = (i & 4) != 0;
    assert(x == (i % 2 == 1) && y == ((i / 2) % 2 == 1) && z == ((i / 4) % 2 == 1)) by (bit_vector)
        requires
            i < 8,
            x == ((i & 1) != 0),
            y == ((i & 2) != 0),
            z == ((i & 4) != 0),
    ;
    (x, y, z)
}

/// Naming a child by its three halves and reading the halves back from the
/// name agree: the point filed under child `i` lies in the box that child
/// `i` is given, for each of the eight children.
pub proof fn lemma_octant_roundtrip(x_upper: bool, y_upper: bool, z_upper: bool)
    ensures
        spec_octant_index(x_upper, y_upper, z_upper) < 8,
        (spec_octant_index(x_upper, y_upper, z_upper) % 2 == 1) == x_upper,
        ((spec_octant_index(x_upper, y_upper, z_upper) / 2) % 2 == 1) == y_upper,
        ((spec_octant_index(x_upper, y_upper, z_upper) / 4) % 2 == 1) == z_upper,
{
}

/// Whether a point lies inside a closed mesh, decided by the parity of the
/// crossings of three rays cast from it: the point is inside when at least
/// two of the rays cross the surface an odd number of times.
pub open spec fn spec_classify_by_crossings(crossings: [usize; 3]) -> OctreeNodeType {
    let odd = (if crossings[0] % 2 == 1 { 1int } else { 0int }) + (if crossings[1] % 2 == 1 {
        1int
    } else {
        0int
    }) + (if crossings[2] % 2 == 1 { 1int } else { 0int });
    if odd >= 2 {
        OctreeNodeType::IN
    } else {
        OctreeNodeType::OUT
    }
}

/// The parity rule: a point is inside exactly when two different rays
/// cross the surface an odd number of times, whichever two they are; a
/// point classified this way is never partial.
pub proof fn lemma_classify_two_odd_rays(crossings: [usize; 3])
    ensures
        (spec_classify_by_crossings(crossings) == OctreeNodeType::IN) <==> exists|i: int, j: int|
            0 <= i < j < 3 && #[trigger] (crossings[i] % 2) == 1 && #[trigger] (crossings[j] % 2) == 1,
        (spec_classify_by_crossings(crossings) == OctreeNodeType::OUT) <==> !(spec_classify_by_crossings(
            crossings,
        ) == OctreeNodeType::IN),
{
    let a = crossings[0] % 2 == 1;
    let b = crossings[1] % 2 == 1;
    let c = crossings[2] % 2 == 1;
    if a && b {
        assert(crossings[0] % 2 == 1 && crossings[1] % 2 == 1);
    }
    if a && c {
        assert(crossings[0] % 2 == 1 && crossings[2] % 2 == 1);
    }
    if b && c {
        assert(crossings[1] % 2 == 1 && crossings[2] % 2 == 1);
    }
}

/// The order in which the three rays are cast does not matter: swapping
/// any two crossing counts leaves the classification unchanged.
pub proof fn lemma_classify_ignores_ray_order(crossings: [usize; 3], swapped: [usize; 3], i: int, j: int)
    requires
        0 <= i < 3,
        0 <= j < 3,
        swapped[i] == crossings[j],
        swapped[j] == crossings[i],
        forall|k: int| 0 <= k < 3 && k != i && k != j ==> swapped[k] == crossings[k],
    ensures
        spec_classify_by_crossings(swapped) == spec_classify_by_crossings(crossings),
{
    assert(swapped[0] == crossings[0] || 0 == i || 0 == j);
    assert(swapped[1] == crossings[1] || 1 == i || 1 == j);
    assert(swapped[2] == crossings[2] || 2 == i || 2 == j);
}

/// Classifies a point from the number of surface crossings of each of the
/// three rays cast from it.
pub fn classify_by_crossings(crossings: [usize; 3]) -> (node_type: OctreeNodeType)
    ensures
        node_type == spec_classify_by_crossings(crossings),
        (node_type == OctreeNodeType::IN) <==> exists|i: int, j: int|
            0 <= i < j < 3 && #[trigger] (crossings[i] % 2) == 1 && #[trigger] (crossings[j] % 2) == 1,
        node_type != OctreeNodeType::PARTIAL,
{
    proof {
        lemma_classify_two_odd_rays(crossings);
    }
    let mut in_count: usize = 0;
    let mut d: usize = 0;
    while d < 3
        invariant
            d <= 3,
            in_count <= d,
            in_count == (if d > 0 && crossings[0] % 2 == 1 { 1int } else { 0int }) + (if d > 1
                && crossings[1] % 2 == 1 {
                1int
            } else {
                0int
            }) + (if d > 2 && crossings[2] % 2 == 1 { 1int } else { 0int }),
        decreases 3 - d,
    {
        if crossings[d] % 2 == 1 {
            in_count += 1;
        }
        d += 1;
    }
    if in_count >= 2 {
        OctreeNodeType::IN
    } else {
        OctreeNodeType::OUT
    }
}

} // verus!
