use compas_forge::buffers::{faces_from_buffers, faces_to_buffers, offsets_are_valid};

#[test]
fn decode_two_faces() {
    let faces = faces_from_buffers(&[0, 1, 2, 2, 3, 0], &[0, 3, 6]);
    assert_eq!(faces, vec![vec![0, 1, 2], vec![2, 3, 0]]);
}

#[test]
fn decode_without_offsets_is_empty() {
    assert!(faces_from_buffers(&[0, 1, 2], &[]).is_empty());
    assert!(faces_from_buffers(&[0, 1, 2], &[0]).is_empty());
}

#[test]
fn decode_reads_negative_indices_as_unsigned() {
    let faces = faces_from_buffers(&[-1, 4], &[0, 2]);
    assert_eq!(faces, vec![vec![usize::MAX, 4]]);
}

#[test]
fn decode_allows_empty_faces() {
    let faces = faces_from_buffers(&[5, 6], &[0, 0, 2]);
    assert_eq!(faces, vec![vec![], vec![5, 6]]);
}

#[test]
fn offsets_validity() {
    assert!(offsets_are_valid(6, &[0, 3, 6]));
    assert!(offsets_are_valid(0, &[]));
    assert!(offsets_are_valid(0, &[0]));
    assert!(!offsets_are_valid(5, &[0, 3, 6]));
    assert!(!offsets_are_valid(6, &[3, 0]));
    assert!(!offsets_are_valid(6, &[-1, 2]));
    assert!(!offsets_are_valid(6, &[0, -1]));
}

#[test]
fn encode_two_faces() {
    let (idx, off) = faces_to_buffers(&[vec![0, 1, 2], vec![2, 3]]);
    assert_eq!(idx, vec![0, 1, 2, 2, 3]);
    assert_eq!(off, vec![0, 3, 5]);
}

#[test]
fn encode_no_faces() {
    let (idx, off) = faces_to_buffers(&[]);
    assert!(idx.is_empty());
    assert_eq!(off, vec![0]);
}

#[test]
fn encode_then_decode_round_trips() {
    let faces = vec![vec![4, 5, 6, 7], vec![], vec![1, 2, 3]];
    let (idx, off) = faces_to_buffers(&faces);
    assert!(offsets_are_valid(idx.len(), &off));
    assert_eq!(faces_from_buffers(&idx, &off), faces);
}
