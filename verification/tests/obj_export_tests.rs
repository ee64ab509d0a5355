use cglib::obj_export::obj_layout;

#[test]
fn single_group_lists_vertices_in_first_use_order() {
    let parts = vec![vec![4, 2, 7, 2, 7, 9]];
    let groups = obj_layout(&parts);
    assert_eq!(groups.len(), 1);
    assert_eq!(groups[0].vertices, vec![4, 2, 7, 9]);
    assert_eq!(groups[0].faces, vec![(1, 2, 3), (2, 3, 4)]);
}

#[test]
fn positions_continue_across_groups() {
    let parts = vec![vec![0, 1, 2], vec![2, 3, 0, 3, 5, 2]];
    let groups = obj_layout(&parts);
    assert_eq!(groups[0].vertices, vec![0, 1, 2]);
    assert_eq!(groups[0].faces, vec![(1, 2, 3)]);
    assert_eq!(groups[1].vertices, vec![2, 3, 0, 5]);
    assert_eq!(groups[1].faces, vec![(4, 5, 6), (5, 7, 4)]);
}

#[test]
fn trailing_indices_are_listed_but_not_faced() {
    let parts = vec![vec![1, 2, 3, 8]];
    let groups = obj_layout(&parts);
    assert_eq!(groups[0].vertices, vec![1, 2, 3, 8]);
    assert_eq!(groups[0].faces, vec![(1, 2, 3)]);
}

#[test]
fn empty_parts_give_empty_groups() {
    let parts: Vec<Vec<u32>> = vec![vec![], vec![5, 5, 5]];
    let groups = obj_layout(&parts);
    assert!(groups[0].vertices.is_empty());
    assert!(groups[0].faces.is_empty());
    assert_eq!(groups[1].vertices, vec![5]);
    assert_eq!(groups[1].faces, vec![(1, 1, 1)]);
}
