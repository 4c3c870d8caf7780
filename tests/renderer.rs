use rust_raytracingv2::render::{chunk_len, chunk_rows, gather, render_rows};

#[test]
fn chunk_len_rounds_up() {
    assert_eq!(chunk_len(100, 4), 25);
    assert_eq!(chunk_len(101, 4), 26);
    assert_eq!(chunk_len(3, 8), 1);
    assert_eq!(chunk_len(0, 3), 0);
    assert_eq!(chunk_len(usize::MAX, 1), usize::MAX);
    assert_eq!(chunk_len(usize::MAX, 2), usize::MAX / 2 + 1);
}

#[test]
fn chunk_rows_cover_the_image_in_order() {
    assert_eq!(chunk_rows(10, 3, 0), (0, 4));
    assert_eq!(chunk_rows(10, 3, 1), (4, 8));
    assert_eq!(chunk_rows(10, 3, 2), (8, 10));
    assert_eq!(chunk_rows(2, 4, 3), (2, 2));
    assert_eq!(chunk_rows(usize::MAX, 3, 2), (2 * (usize::MAX / 3), usize::MAX));
}

#[test]
fn render_rows_goes_row_by_row_left_to_right() {
    let px = render_rows(2, 4, 3, &|row: usize, col: usize| (row, col));
    assert_eq!(px, vec![(2, 0), (2, 1), (2, 2), (3, 0), (3, 1), (3, 2)]);
    assert!(render_rows(5, 5, 3, &|row: usize, col: usize| (row, col)).is_empty());
    assert!(render_rows(0, 4, 0, &|row: usize, col: usize| (row, col)).is_empty());
}

#[test]
fn gather_joins_in_chunk_order() {
    let joined = gather(vec![vec![1, 2], vec![], vec![3], vec![4, 5, 6]]);
    assert_eq!(joined, vec![1, 2, 3, 4, 5, 6]);
    assert!(gather::<u8>(vec![]).is_empty());
}

#[test]
fn chunked_render_matches_single_worker_order() {
    let (height, width) = (7usize, 5usize);
    let whole = render_rows(0, height, width, &|row: usize, col: usize| (row, col));
    for workers in 1..10 {
        let chunks = (0..workers)
            .map(|i| {
                let (a, b) = chunk_rows(height, workers, i);
                render_rows(a, b, width, &|row: usize, col: usize| (row, col))
            })
            .collect();
        assert_eq!(gather(chunks), whole, "workers = {}", workers);
    }
}
