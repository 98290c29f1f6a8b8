use compas_forge::edges::{
    count_unique_edges, find_boundary_edges, find_non_manifold_edges, triangulate_face,
    triangulate_mesh,
};

fn cube_faces() -> Vec<Vec<usize>> {
    vec![
        vec![0, 3, 2, 1],
        vec![4, 5, 6, 7],
        vec![0, 1, 5, 4],
        vec![1, 2, 6, 5],
        vec![2, 3, 7, 6],
        vec![3, 0, 4, 7],
    ]
}

fn sorted(mut edges: Vec<(usize, usize)>) -> Vec<(usize, usize)> {
    edges.sort();
    edges
}

#[test]
fn fan_triangulation_of_pentagon() {
    assert_eq!(triangulate_face(&[0, 1, 2, 3, 4]), vec![[0, 1, 2], [0, 2, 3], [0, 3, 4]]);
}

#[test]
fn fan_triangulation_of_triangle_is_itself() {
    assert_eq!(triangulate_face(&[7, 8, 9]), vec![[7, 8, 9]]);
}

#[test]
fn fan_triangulation_skips_degenerate_faces() {
    assert!(triangulate_face(&[]).is_empty());
    assert!(triangulate_face(&[1]).is_empty());
    assert!(triangulate_face(&[1, 2]).is_empty());
}

#[test]
fn fan_triangulation_cuts_indices_to_32_bits() {
    let big = (1usize << 32) + 5;
    assert_eq!(triangulate_face(&[big, 1, 2]), vec![[5, 1, 2]]);
}

#[test]
fn mesh_triangulation_concatenates_faces() {
    let faces = vec![vec![0, 1, 2, 3], vec![4, 5], vec![6, 7, 8]];
    assert_eq!(triangulate_mesh(&faces), vec![[0, 1, 2], [0, 2, 3], [6, 7, 8]]);
}

#[test]
fn cube_has_twelve_unique_edges() {
    assert_eq!(count_unique_edges(&cube_faces()), 12);
}

#[test]
fn unique_edges_of_empty_mesh() {
    assert_eq!(count_unique_edges(&[]), 0);
}

#[test]
fn unique_edges_ignore_degenerate_faces() {
    let faces = vec![vec![0, 1, 2], vec![5, 6]];
    assert_eq!(count_unique_edges(&faces), 3);
}

#[test]
fn unique_edges_are_undirected() {
    let faces = vec![vec![0, 1, 2], vec![2, 1, 3]];
    assert_eq!(count_unique_edges(&faces), 5);
}

#[test]
fn closed_cube_has_no_boundary() {
    assert!(find_boundary_edges(&cube_faces()).is_empty());
}

#[test]
fn single_triangle_is_all_boundary() {
    let faces = vec![vec![0, 1, 2]];
    assert_eq!(sorted(find_boundary_edges(&faces)), vec![(0, 1), (0, 2), (1, 2)]);
}

#[test]
fn open_box_boundary_is_the_missing_lid() {
    let mut faces = cube_faces();
    faces.remove(1);
    assert_eq!(sorted(find_boundary_edges(&faces)), vec![(4, 5), (4, 7), (5, 6), (6, 7)]);
}

#[test]
fn boundary_of_empty_mesh() {
    assert!(find_boundary_edges(&[]).is_empty());
}

#[test]
fn three_triangles_on_one_edge_are_non_manifold() {
    let faces = vec![vec![0, 1, 2], vec![1, 0, 3], vec![0, 1, 4]];
    assert_eq!(find_non_manifold_edges(&faces), vec![(0, 1)]);
}

#[test]
fn cube_is_manifold() {
    assert!(find_non_manifold_edges(&cube_faces()).is_empty());
}

#[test]
fn non_manifold_of_empty_mesh() {
    assert!(find_non_manifold_edges(&[]).is_empty());
}

#[test]
fn boundary_and_non_manifold_edges_are_disjoint() {
    let faces = vec![vec![0, 1, 2], vec![1, 0, 3], vec![0, 1, 4]];
    let boundary = find_boundary_edges(&faces);
    let non_manifold = find_non_manifold_edges(&faces);
    assert_eq!(boundary.len(), 6);
    for e in &non_manifold {
        assert!(!boundary.contains(e));
    }
}

#[test]
fn boundary_edges_come_in_order_of_first_appearance() {
    let faces = vec![vec![2, 0, 1], vec![5, 6], vec![1, 3, 4]];
    assert_eq!(
        find_boundary_edges(&faces),
        vec![(0, 2), (0, 1), (1, 2), (1, 3), (3, 4), (1, 4)]
    );
}

