use feather_core::buffers::{alloc_smart_slice, merge_chunk_delta, TILE_SIZE};
use feather_core::culling::{sage_cull, sage_is_visible};

#[test]
fn visibility_overlap_cases() {
    assert!(sage_is_visible(0, 0, 10, 10, 5, 5, 15, 15));
    assert!(sage_is_visible(5, 5, 15, 15, 0, 0, 10, 10));
    assert!(!sage_is_visible(0, 0, 10, 10, 11, 0, 20, 10));
    assert!(!sage_is_visible(0, 0, 10, 10, 0, 11, 10, 20));
    // Touching edges still count as visible.
    assert!(sage_is_visible(0, 0, 10, 10, 10, 10, 20, 20));
}

#[test]
fn cull_keeps_exactly_the_visible_boxes() {
    let boxes = vec![
        0, 0, 10, 10, // visible
        20, 20, 30, 30, // outside
        5, 5, 15, 15, // visible
        -10, -10, -1, -1, // outside
    ];
    let viewport = vec![0, 0, 12, 12];
    assert_eq!(sage_cull(&boxes, 4, &viewport), vec![0, 2]);
}

#[test]
fn cull_of_nothing_is_empty() {
    let boxes: Vec<i32> = Vec::new();
    let viewport = vec![0, 0, 1, 1];
    assert_eq!(sage_cull(&boxes, 0, &viewport), Vec::<usize>::new());
}

#[test]
fn merge_chunks_concatenates() {
    let a = vec![1u8, 2, 3];
    let b = vec![4u8, 5];
    assert_eq!(merge_chunk_delta(&a, &b), vec![1, 2, 3, 4, 5]);
    assert_eq!(merge_chunk_delta(&Vec::new(), &b), vec![4, 5]);
}

#[test]
fn alloc_smart_slice_is_zeroed_tiles() {
    let v = alloc_smart_slice(3);
    assert_eq!(v.len(), 3 * TILE_SIZE);
    assert!(v.iter().all(|&x| x == 0));
    assert_eq!(alloc_smart_slice(0).len(), 0);
}
