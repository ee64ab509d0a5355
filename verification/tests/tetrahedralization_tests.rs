use cglib::advancing_front::AdvancingFront;
use cglib::tetrahedralization::{
    faces_from_indices, remap_hull_to_mesh, tetrahedralization_parts, tetrahedron_limit, tetrahedron_signature, Face,
    Tetrahedron,
};

#[test]
fn face_sorted_orders_corners() {
    assert_eq!(Face(3, 1, 2).sorted(), Face(1, 2, 3));
    assert_eq!(Face(1, 2, 3).sorted(), Face(1, 2, 3));
    assert_eq!(Face(9, 9, 0).sorted(), Face(0, 9, 9));
    assert_eq!(Face(2, 7, 5).sorted(), Face(2, 5, 7));
    assert_eq!(Face(7, 5, 2).sorted(), Face(2, 5, 7));
}

#[test]
fn face_sorted_is_idempotent_and_order_blind() {
    let faces = [Face(4, 8, 6), Face(6, 4, 8), Face(8, 6, 4), Face(4, 6, 8)];
    for f in faces {
        assert_eq!(f.sorted(), Face(4, 6, 8));
        assert_eq!(f.sorted().sorted(), f.sorted());
    }
}

#[test]
fn face_contains_checks_each_corner() {
    let f = Face(10, 20, 30);
    assert!(f.contains(10));
    assert!(f.contains(20));
    assert!(f.contains(30));
    assert!(!f.contains(15));
}

#[test]
fn signature_sorts_four_corners() {
    assert_eq!(tetrahedron_signature(Face(7, 3, 5), 1), Tetrahedron(1, 3, 5, 7));
    assert_eq!(tetrahedron_signature(Face(0, 1, 2), 3), Tetrahedron(0, 1, 2, 3));
    assert_eq!(tetrahedron_signature(Face(2, 2, 1), 2), Tetrahedron(1, 2, 2, 2));
}

#[test]
fn faces_from_indices_groups_by_three() {
    let faces = faces_from_indices(&vec![0, 1, 2, 3, 4, 5, 6, 7]);
    assert_eq!(faces, vec![Face(0, 1, 2), Face(3, 4, 5)]);
    assert!(faces_from_indices(&vec![1, 2]).is_empty());
}

#[test]
fn limit_is_twenty_per_point_at_least_a_thousand() {
    assert_eq!(tetrahedron_limit(0), 1000);
    assert_eq!(tetrahedron_limit(49), 1000);
    assert_eq!(tetrahedron_limit(50), 1000);
    assert_eq!(tetrahedron_limit(51), 1020);
    assert_eq!(tetrahedron_limit(1000), 20000);
}

#[test]
fn shared_face_cancels_in_initial_front() {
    let faces = vec![Face(0, 1, 2), Face(2, 1, 0), Face(0, 1, 3)];
    let mut front = AdvancingFront::new(&faces, 4);
    assert_eq!(front.queued_count(), 2);
    assert_eq!(front.active_count(), 1);
    assert_eq!(front.active_faces(), &vec![Face(0, 1, 3)]);
    assert_eq!(front.next_face(), Some(Face(0, 1, 3)));
    assert_eq!(front.active_count(), 0);
    assert_eq!(front.next_face(), None);
    assert!(!front.is_aborted());
}

#[test]
fn adding_a_tetrahedron_records_it_and_grows_the_front() {
    let faces = vec![Face(0, 1, 2)];
    let mut front = AdvancingFront::new(&faces, 4);
    let face = front.next_face().unwrap();
    assert_eq!(face, Face(0, 1, 2));
    assert!(!front.was_generated(face, 3));
    front.add_tetrahedron(face, 3);
    assert_eq!(front.tetrahedron_count(), 1);
    assert!(front.was_generated(Face(2, 0, 1), 3));
    assert!(front.was_generated(Face(3, 1, 0), 2));
    assert!(!front.was_generated(face, 4));
    assert_eq!(front.active_count(), 3);
    assert_eq!(front.queued_count(), 3);
    assert_eq!(front.next_face(), Some(Face(0, 1, 3)));
    assert_eq!(front.next_face(), Some(Face(1, 2, 3)));
    assert_eq!(front.next_face(), Some(Face(2, 0, 3)));
    assert_eq!(front.next_face(), None);
    assert_eq!(front.into_tetrahedrons(), vec![Tetrahedron(0, 1, 2, 3)]);
}

#[test]
fn neighbouring_tetrahedra_close_their_shared_face() {
    let faces = vec![Face(0, 1, 2), Face(0, 1, 3)];
    let mut front = AdvancingFront::new(&faces, 5);
    let face = front.next_face().unwrap();
    front.add_tetrahedron(face, 3);
    // Face(0, 1, 3) was open from the start and is closed by the new side face.
    assert_eq!(front.active_count(), 2);
    assert_eq!(front.next_face(), Some(Face(1, 2, 3)));
    assert_eq!(front.next_face(), Some(Face(2, 0, 3)));
    assert_eq!(front.next_face(), None);
}

#[test]
fn run_is_abandoned_at_the_limit() {
    let faces = vec![Face(0, 1, 2), Face(3, 4, 5)];
    let mut front = AdvancingFront::new(&faces, 0);
    assert_eq!(front.limit(), 1000);
    for k in 0..1000 {
        assert!(!front.was_generated(Face(0, 1, 2), 3 + k));
        front.add_tetrahedron(Face(0, 1, 2), 3 + k);
    }
    assert_eq!(front.tetrahedron_count(), 1000);
    let queued = front.queued_count();
    assert_eq!(front.next_face(), None);
    assert!(front.is_aborted());
    assert_eq!(front.queued_count(), queued - 1);
}

#[test]
fn parts_with_fewer_than_three_indices_are_skipped() {
    let parts = vec![vec![0u32, 1], vec![2u32, 3, 4, 4, 3, 5], vec![], vec![7u32, 8, 9]];
    let runs = tetrahedralization_parts(&parts);
    assert_eq!(runs.len(), 2);
    assert_eq!(runs[0].hull_faces, vec![2usize, 3, 4, 4, 3, 5]);
    assert_eq!(runs[0].hull_points, vec![2usize, 3, 4, 5]);
    assert_eq!(runs[1].hull_faces, vec![7usize, 8, 9]);
    assert_eq!(runs[1].hull_points, vec![7usize, 8, 9]);
}

#[test]
fn no_parts_give_no_runs() {
    let runs = tetrahedralization_parts(&vec![]);
    assert!(runs.is_empty());
    let runs = tetrahedralization_parts(&vec![vec![1u32], vec![2u32, 2]]);
    assert!(runs.is_empty());
}

#[test]
fn hull_indices_are_mapped_back_to_the_mesh() {
    let part = vec![10usize, 20, 30, 40];
    let hull_vertices = vec![3usize, 0, 2];
    let hull_faces = vec![[0usize, 2, 3], [3, 1, 0]];
    let (faces, vertices) = remap_hull_to_mesh(&part, &hull_vertices, &hull_faces);
    assert_eq!(faces, vec![10u32, 30, 40, 40, 20, 10]);
    assert_eq!(vertices, vec![40usize, 10, 30]);
}

#[test]
fn remapped_indices_are_truncated_to_u32() {
    let part = vec![(1usize << 32) + 5, 6];
    let (faces, vertices) = remap_hull_to_mesh(&part, &vec![0usize], &vec![[0usize, 1, 0]]);
    assert_eq!(faces, vec![5u32, 6, 5]);
    assert_eq!(vertices, vec![(1usize << 32) + 5]);
}
