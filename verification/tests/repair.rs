use compas_forge::edges::{count_unique_edges, find_boundary_edges, find_non_manifold_edges};
use compas_forge::weld::{count_duplicate_signatures, weld_vertices};
use compas_forge::winding::unify_winding_directions;

fn cube_faces() -> Vec<Vec<usize>> {
    vec![
        vec![0, 3, 2, 1],
        vec![4, 5, 6, 7],
        vec![0, 1, 5, 4],
        vec![1, 2, 6, 5],
        vec![2, 3, 7, 6],
        vec![3, 0, 4, 7],
    ]
}

fn reversed(face: &[usize]) -> Vec<usize> {
    face.iter().rev().copied().collect()
}

fn sorted(mut edges: Vec<(usize, usize)>) -> Vec<(usize, usize)> {
    edges.sort();
    edges
}

#[test]
fn consistent_pair_is_left_alone() {
    let faces = vec![vec![0, 1, 2], vec![2, 1, 3]];
    let (out, audits) = unify_winding_directions(faces.clone());
    assert_eq!(out, faces);
    assert!(audits.is_empty());
}

#[test]
fn neighbour_walking_the_same_way_is_flipped() {
    let faces = vec![vec![0, 1, 2], vec![1, 2, 3]];
    let (out, audits) = unify_winding_directions(faces);
    assert_eq!(out, vec![vec![0, 1, 2], vec![3, 2, 1]]);
    assert_eq!(audits.len(), 1);
    assert_eq!(audits[0].face_index, 1);
    assert_eq!(audits[0].old_winding, vec![1, 2, 3]);
    assert_eq!(audits[0].new_winding, vec![3, 2, 1]);
}

#[test]
fn cube_follows_its_first_face() {
    let mut faces = cube_faces();
    faces[0] = reversed(&faces[0]);
    let (out, audits) = unify_winding_directions(faces.clone());
    let indices: Vec<usize> = audits.iter().map(|a| a.face_index).collect();
    assert_eq!(indices, vec![3, 4, 5, 2, 1]);
    assert_eq!(out[0], faces[0]);
    for k in 1..6 {
        assert_eq!(out[k], reversed(&faces[k]));
    }
}

#[test]
fn consistent_cube_is_unchanged() {
    let (out, audits) = unify_winding_directions(cube_faces());
    assert_eq!(out, cube_faces());
    assert!(audits.is_empty());
}

#[test]
fn reorienting_twice_changes_nothing() {
    let mut faces = cube_faces();
    faces[0] = reversed(&faces[0]);
    faces[3] = reversed(&faces[3]);
    let (once, first_audits) = unify_winding_directions(faces);
    assert!(!first_audits.is_empty());
    let (twice, second_audits) = unify_winding_directions(once.clone());
    assert_eq!(twice, once);
    assert!(second_audits.is_empty());
}

#[test]
fn first_shared_side_decides_the_flip() {
    let faces = vec![vec![0, 1, 2], vec![0, 1, 4, 1, 0, 5]];
    let (out, audits) = unify_winding_directions(faces);
    let indices: Vec<usize> = audits.iter().map(|a| a.face_index).collect();
    assert_eq!(indices, vec![1]);
    assert_eq!(out[1], vec![5, 0, 1, 4, 1, 0]);
}

#[test]
fn flip_records_follow_the_walk() {
    let faces = vec![vec![0, 1, 2], vec![1, 2, 3], vec![2, 3, 4], vec![3, 4, 5]];
    let (out, audits) = unify_winding_directions(faces);
    let indices: Vec<usize> = audits.iter().map(|a| a.face_index).collect();
    assert_eq!(indices, vec![1, 3]);
    assert_eq!(out, vec![vec![0, 1, 2], vec![3, 2, 1], vec![2, 3, 4], vec![5, 4, 3]]);
}

#[test]
fn separate_components_keep_their_roots() {
    let faces = vec![vec![0, 1, 2], vec![10, 11, 12], vec![1, 2, 3], vec![11, 12, 13]];
    let (out, audits) = unify_winding_directions(faces);
    assert_eq!(out, vec![vec![0, 1, 2], vec![10, 11, 12], vec![3, 2, 1], vec![13, 12, 11]]);
    let indices: Vec<usize> = audits.iter().map(|a| a.face_index).collect();
    assert_eq!(indices, vec![2, 3]);
}

#[test]
fn degenerate_faces_are_never_flipped() {
    let faces = vec![vec![0, 1], vec![0, 1, 2], vec![1, 2, 3], vec![]];
    let (out, audits) = unify_winding_directions(faces);
    assert_eq!(out, vec![vec![0, 1], vec![0, 1, 2], vec![3, 2, 1], vec![]]);
    assert_eq!(audits.len(), 1);
}

#[test]
fn unify_of_empty_mesh() {
    let (out, audits) = unify_winding_directions(Vec::new());
    assert!(out.is_empty());
    assert!(audits.is_empty());
}

#[test]
fn reorienting_keeps_edge_statistics() {
    let mut faces = cube_faces();
    faces[0] = reversed(&faces[0]);
    faces.remove(1);
    faces.push(vec![0, 1, 9]);
    let (out, _) = unify_winding_directions(faces.clone());
    assert_eq!(count_unique_edges(&out), count_unique_edges(&faces));
    assert_eq!(sorted(find_boundary_edges(&out)), sorted(find_boundary_edges(&faces)));
    assert_eq!(sorted(find_non_manifold_edges(&out)), sorted(find_non_manifold_edges(&faces)));
}

fn sig(s: &str) -> Option<String> {
    Some(s.to_string())
}

#[test]
fn weld_merges_equal_signatures_into_the_first() {
    let vertices = vec!["A", "B", "A2", "C"];
    let sigs = vec![sig("a"), sig("b"), sig("a"), sig("c")];
    let faces = vec![vec![0, 1, 2], vec![2, 3, 1]];
    let (unique, new_faces, audits) = weld_vertices(&vertices, &sigs, &faces);
    assert_eq!(unique, vec!["A", "B", "C"]);
    assert_eq!(new_faces, vec![vec![0, 1, 0], vec![0, 2, 1]]);
    assert_eq!(audits.len(), 1);
    assert_eq!(audits[0].old_index, 2);
    assert_eq!(audits[0].merged_into, 0);
    assert_eq!(audits[0].coordinates, "A2");
}

#[test]
fn weld_sends_unsigned_vertices_to_zero() {
    let vertices = vec![10, 20, 30];
    let sigs = vec![sig("x"), None, sig("y")];
    let faces = vec![vec![2, 1, 0]];
    let (unique, new_faces, audits) = weld_vertices(&vertices, &sigs, &faces);
    assert_eq!(unique, vec![10, 30]);
    assert_eq!(new_faces, vec![vec![1, 0, 0]]);
    assert!(audits.is_empty());
}

#[test]
fn weld_of_no_vertices_drops_faces() {
    let vertices: Vec<u8> = Vec::new();
    let faces = vec![vec![0, 1, 2]];
    let (unique, new_faces, audits) = weld_vertices(&vertices, &[], &faces);
    assert!(unique.is_empty());
    assert!(new_faces.is_empty());
    assert!(audits.is_empty());
}

#[test]
fn weld_twice_merges_nothing_more() {
    let vertices = vec![1, 2, 3, 4, 5];
    let sigs = vec![sig("p"), sig("q"), sig("p"), sig("q"), sig("r")];
    let faces = vec![vec![0, 1, 2], vec![3, 4, 0]];
    let (unique, new_faces, audits) = weld_vertices(&vertices, &sigs, &faces);
    assert_eq!(audits.len(), 2);
    let sigs2 = vec![sig("p"), sig("q"), sig("r")];
    let (unique2, faces2, audits2) = weld_vertices(&unique, &sigs2, &new_faces);
    assert_eq!(unique2, unique);
    assert_eq!(faces2, new_faces);
    assert!(audits2.is_empty());
}

#[test]
fn duplicate_count_counts_repeats() {
    let sigs: Vec<String> = ["a", "b", "a", "a", "c", "b"].iter().map(|s| s.to_string()).collect();
    assert_eq!(count_duplicate_signatures(&sigs), 3);
    assert_eq!(count_duplicate_signatures(&[]), 0);
}

#[test]
fn duplicate_count_equals_weld_count() {
    let plain: Vec<String> = ["a", "b", "a", "a", "c", "b"].iter().map(|s| s.to_string()).collect();
    let opt: Vec<Option<String>> = plain.iter().cloned().map(Some).collect();
    let vertices = vec![0u8; 6];
    let (unique, _, audits) = weld_vertices(&vertices, &opt, &[]);
    assert_eq!(audits.len(), count_duplicate_signatures(&plain));
    assert_eq!(unique.len() + audits.len(), 6);
}
