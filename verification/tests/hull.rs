use sim_mechanics::hull::{
    compact_indices, horizon_edges, remove_faces, replace_visible_faces, subset_from_triangles,
};

fn tetrahedron() -> Vec<[usize; 3]> {
    vec![[0, 2, 1], [0, 1, 3], [1, 2, 3], [0, 3, 2]]
}

#[test]
fn horizon_of_one_face_is_its_boundary() {
    let faces = tetrahedron();
    assert_eq!(horizon_edges(&faces, &vec![2]), vec![(1, 2), (2, 3), (3, 1)]);
}

#[test]
fn horizon_of_two_adjacent_faces_drops_the_shared_edge() {
    let faces = tetrahedron();
    // Faces [0,1,3] and [1,2,3] share edge 1-3 (3->1 in the first, 1->3... ).
    let h = horizon_edges(&faces, &vec![1, 2]);
    assert_eq!(h, vec![(0, 1), (3, 0), (1, 2), (2, 3)]);
    for &(a, b) in &h {
        assert!(!h.contains(&(b, a)));
    }
}

#[test]
fn seeing_every_face_leaves_no_horizon() {
    let faces = tetrahedron();
    assert!(horizon_edges(&faces, &vec![0, 1, 2, 3]).is_empty());
}

#[test]
fn removing_faces_keeps_exactly_the_others() {
    let mut faces = tetrahedron();
    remove_faces(&mut faces, &vec![0, 2]);
    let mut rest = faces.clone();
    rest.sort();
    assert_eq!(rest, vec![[0, 1, 3], [0, 3, 2]]);

    let mut all = tetrahedron();
    remove_faces(&mut all, &vec![0, 1, 2, 3]);
    assert!(all.is_empty());
}

#[test]
fn compaction_renumbers_vertices_by_first_use() {
    let tris = vec![[5, 2, 7], [7, 2, 9]];
    let (used, out) = compact_indices(10, &tris);
    assert_eq!(used, vec![5, 2, 7, 9]);
    assert_eq!(out, vec![[0, 1, 2], [2, 1, 3]]);
    for (t, nt) in tris.iter().zip(&out) {
        for c in 0..3 {
            assert_eq!(used[nt[c]], t[c]);
        }
    }
}

#[test]
fn compaction_of_nothing_is_empty() {
    let (used, out) = compact_indices(3, &Vec::new());
    assert!(used.is_empty());
    assert!(out.is_empty());
}

#[test]
fn adding_a_point_replaces_the_visible_faces_by_a_fan() {
    let mut faces = tetrahedron();
    // A new point 4 beyond face [1,2,3] sees only that face.
    replace_visible_faces(&mut faces, &vec![2], 4);
    let mut got = faces.clone();
    got.sort();
    let mut want = vec![[0, 2, 1], [0, 1, 3], [0, 3, 2], [1, 2, 4], [2, 3, 4], [3, 1, 4]];
    want.sort();
    assert_eq!(got, want);
}

#[test]
fn a_triangle_subset_keeps_only_the_vertices_it_uses() {
    let vertices = vec![[0.0, 0.0, 0.0], [1.0, 0.0, 0.0], [0.0, 1.0, 0.0], [0.0, 0.0, 1.0], [9.0, 9.0, 9.0]];
    let (kept, tris) = subset_from_triangles(&vertices, &vec![[3, 1, 2], [1, 3, 0]]);
    assert_eq!(kept, vec![[0.0, 0.0, 1.0], [1.0, 0.0, 0.0], [0.0, 1.0, 0.0], [0.0, 0.0, 0.0]]);
    assert_eq!(tris, vec![[0, 1, 2], [1, 0, 3]]);
    let (none, empty) = subset_from_triangles(&vertices, &vec![]);
    assert!(none.is_empty() && empty.is_empty());
}
