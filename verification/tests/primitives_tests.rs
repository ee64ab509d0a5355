use cglib::primitives::{cone_indices, cylinder_indices, sphere_indices};

#[test]
fn cone_indices_small() {
    assert_eq!(cone_indices(2), vec![0, 1, 2, 0, 2, 3, 5, 6, 7, 7, 8, 9]);
    assert!(cone_indices(0).is_empty());
}

#[test]
fn cylinder_indices_single_subdivision() {
    assert_eq!(
        cylinder_indices(1),
        vec![0, 2, 1, 0, 2, 1, 3, 4, 5, 3, 4, 5, 7, 6, 9, 6, 8, 9, 6, 7, 6, 6, 7, 7]
    );
}

#[test]
fn sphere_indices_without_subdivision() {
    let indices = sphere_indices(0);
    assert_eq!(indices.len(), 36);
    for f in 0..6 {
        let s = 4 * f;
        assert_eq!(&indices[6 * f..6 * f + 6], &[s, s + 1, s + 2, s + 2, s + 1, s + 3]);
    }
}

#[test]
fn sphere_indices_one_subdivision_grid() {
    let indices = sphere_indices(1);
    // resolution 2: a 3x3 vertex grid per face, four cells per face.
    assert_eq!(indices.len(), 36 * 4);
    assert_eq!(&indices[0..6], &[0, 1, 3, 3, 1, 4]);
    assert_eq!(&indices[6..12], &[1, 2, 4, 4, 2, 5]);
    assert_eq!(&indices[12..18], &[3, 4, 6, 6, 4, 7]);
    assert_eq!(&indices[24..30], &[9, 10, 12, 12, 10, 13]);
}

#[test]
fn every_index_names_a_vertex() {
    for s in 1..12u32 {
        let sphere = sphere_indices(s);
        let sphere_vertices = 6 * ((s as usize + 2) * (s as usize + 2));
        assert!(sphere.iter().all(|&i| i < sphere_vertices));
        assert_eq!(sphere.len(), 36 * (s as usize + 1) * (s as usize + 1));

        let cylinder = cylinder_indices(s);
        assert!(cylinder.iter().all(|&i| i < 4 * s as usize + 6));
        assert_eq!(cylinder.len(), 12 * s as usize + 12);

        let cone = cone_indices(s);
        assert!(cone.iter().all(|&i| i < 3 * s as usize + 4));
        assert_eq!(cone.len(), 6 * s as usize);
    }
}
