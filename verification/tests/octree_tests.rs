use cglib::octree::{classify_by_crossings, octant_index, octant_upper_halves, OctreeNodeType};

#[test]
fn octant_index_sets_one_bit_per_axis() {
    assert_eq!(octant_index(false, false, false), 0);
    assert_eq!(octant_index(true, false, false), 1);
    assert_eq!(octant_index(false, true, false), 2);
    assert_eq!(octant_index(false, false, true), 4);
    assert_eq!(octant_index(true, false, true), 5);
    assert_eq!(octant_index(true, true, true), 7);
}

#[test]
fn octant_upper_halves_reads_the_bits() {
    assert_eq!(octant_upper_halves(0), (false, false, false));
    assert_eq!(octant_upper_halves(3), (true, true, false));
    assert_eq!(octant_upper_halves(6), (false, true, true));
}

#[test]
fn octant_roundtrip_for_all_children() {
    for i in 0..8 {
        let (x, y, z) = octant_upper_halves(i);
        assert_eq!(octant_index(x, y, z), i);
    }
}

#[test]
fn crossings_parity_majority() {
    assert_eq!(classify_by_crossings([1, 3, 0]), OctreeNodeType::IN);
    assert_eq!(classify_by_crossings([1, 1, 1]), OctreeNodeType::IN);
    assert_eq!(classify_by_crossings([2, 1, 0]), OctreeNodeType::OUT);
    assert_eq!(classify_by_crossings([0, 0, 0]), OctreeNodeType::OUT);
    assert_eq!(classify_by_crossings([4, 5, 7]), OctreeNodeType::IN);
}
