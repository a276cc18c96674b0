use ivy_core::gizmos::{arrow_indices, toroid_indices};

#[test]
fn arrow_with_four_segments() {
    let expected: Vec<u32> = vec![
        0, 1, 2, 0, 2, 3, 0, 3, 4, 0, 4, 1, // cone sides
        3, 2, 1, 4, 3, 1, 1, 4, 1, // cone base
        5, 6, 9, 6, 10, 9, 6, 7, 10, 7, 11, 10, 7, 8, 11, 8, 12, 11, 8, 5, 12, 5, 9, 12, // tail sides
        7, 6, 5, 8, 7, 5, 5, 8, 5, // tail end
    ];
    assert_eq!(arrow_indices(4), expected);
}

#[test]
fn arrow_with_one_segment() {
    assert_eq!(arrow_indices(1), vec![0, 1, 1, 2, 2, 3, 2, 3, 3]);
}

#[test]
fn arrow_index_count() {
    for s in 1u32..10 {
        assert_eq!(arrow_indices(s).len() as u32, 15 * s - 6);
    }
}

#[test]
fn toroid_of_two_sections_of_three_segments() {
    let expected: Vec<u32> = vec![
        1, 3, 0, 1, 4, 3, 2, 4, 1, 2, 5, 4, 0, 5, 2, 0, 3, 5, // first section
        4, 0, 3, 4, 1, 0, 5, 1, 4, 5, 2, 1, 3, 2, 5, 3, 0, 2, // second section, back to the first
    ];
    assert_eq!(toroid_indices(2, 3), expected);
}

#[test]
fn toroid_of_one_vertex() {
    assert_eq!(toroid_indices(1, 1), vec![0, 0, 0, 0, 0, 0]);
}

#[test]
fn toroid_index_count() {
    assert_eq!(toroid_indices(48, 8).len(), 48 * 8 * 6);
    assert!(toroid_indices(48, 8).iter().all(|&i| i < 48 * 8));
}

#[test]
fn toroid_without_sections_or_segments_has_no_triangles() {
    assert!(toroid_indices(0, 8).is_empty());
    assert!(toroid_indices(48, 0).is_empty());
    assert!(toroid_indices(0, 0).is_empty());
}
