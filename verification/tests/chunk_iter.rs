use renderer::chunk_iter::{collect, ChunkIter, Source, ToChunks};
use renderer::items::Items;

fn numbers(n: i32) -> Items<i32> {
    Items::new((0..n).collect())
}

#[test]
fn test_chunk_iter_2x2() {
    let iter: ChunkIter<_, Vec<i32>> = numbers(16).to_chunks(4, 2, 2);

    let chunks: Vec<_> = collect(iter);

    let expected_chunks = vec![
        vec![0, 1, 4, 5],
        vec![2, 3, 6, 7],
        vec![8, 9, 12, 13],
        vec![10, 11, 14, 15],
    ];

    assert_eq!(chunks, expected_chunks);
}

#[test]
fn chunk_iter_test_chunk_iter_2x2() {
    let mut iter: ChunkIter<_, Vec<i32>> = numbers(16).to_chunks(4, 2, 2);

    assert_eq!(iter.next(), Some(vec![0, 1, 4, 5]));
    assert_eq!(iter.next(), Some(vec![2, 3, 6, 7]));
    assert_eq!(iter.next(), Some(vec![8, 9, 12, 13]));
    assert_eq!(iter.next(), Some(vec![10, 11, 14, 15]));
    assert_eq!(iter.next(), None);
    assert_eq!(iter.next(), None);
}

#[test]
fn test_chunk_iter_chaining() {
    let iter: ChunkIter<_, i32> = numbers(16).to_chunks::<i32>(4, 2, 2).to_chunks(2, 1, 2);

    let chunks: Vec<_> = collect(iter);

    let expected_chunks = vec![52, 68];

    assert_eq!(chunks, expected_chunks);
}

#[test]
fn chunk_iter_test_chunk_iter_chaining() {
    let single: ChunkIter<_, i32> = numbers(16).to_chunks(4, 2, 4);
    let chained: ChunkIter<_, i32> = numbers(16).to_chunks::<i32>(4, 2, 2).to_chunks(2, 1, 2);

    let expected_chunks = vec![52, 68];

    assert_eq!(collect(single), expected_chunks);
    assert_eq!(collect(chained), expected_chunks);
}

#[test]
fn test_chunk_iter_incomplete() {
    let iter: ChunkIter<_, Vec<i32>> = numbers(9).to_chunks(3, 2, 2);

    let chunks: Vec<_> = collect(iter);

    let expected_chunks = vec![vec![0, 1, 3, 4], vec![2, 5], vec![6, 7], vec![8]];

    assert_eq!(chunks, expected_chunks);
}

#[test]
fn chunk_iter_test_chunk_iter_incomplete() {
    let iter: ChunkIter<_, Vec<i32>> = numbers(7).to_chunks(3, 2, 2);

    let chunks: Vec<_> = collect(iter);

    let expected_chunks = vec![vec![0, 1, 3, 4], vec![2, 5], vec![6], vec![]];

    assert_eq!(chunks, expected_chunks);
}

#[test]
fn narrow_last_column_closes_at_the_end_of_the_row() {
    let iter: ChunkIter<_, Vec<i32>> = numbers(10).to_chunks(5, 2, 1);
    assert_eq!(
        collect(iter),
        vec![vec![0, 1], vec![2, 3], vec![4], vec![5, 6], vec![7, 8], vec![9]]
    );
}

#[test]
fn source_that_ends_with_a_tile_row_gives_no_more() {
    let iter: ChunkIter<_, Vec<i32>> = numbers(8).to_chunks(4, 2, 2);
    assert_eq!(collect(iter), vec![vec![0, 1, 4, 5], vec![2, 3, 6, 7]]);
    let iter: ChunkIter<_, Vec<i32>> = numbers(0).to_chunks(4, 2, 2);
    assert_eq!(collect(iter), Vec::<Vec<i32>>::new());
}

#[test]
fn source_that_ends_inside_a_tile_row_gives_every_tile_of_it() {
    let iter: ChunkIter<_, Vec<i32>> = numbers(1).to_chunks(4, 2, 2);
    assert_eq!(collect(iter), vec![vec![0], vec![]]);
    let iter: ChunkIter<_, i32> = numbers(5).to_chunks(4, 2, 2);
    assert_eq!(collect(iter), vec![0 + 1 + 4, 2 + 3]);
}

#[test]
fn tiles_of_one_cell_are_the_items() {
    let iter: ChunkIter<_, i32> = numbers(6).to_chunks(3, 1, 1);
    assert_eq!(collect(iter), vec![0, 1, 2, 3, 4, 5]);
    // the row that the source ends in is still three tiles wide
    let iter: ChunkIter<_, i32> = numbers(7).to_chunks(3, 1, 1);
    assert_eq!(collect(iter), vec![0, 1, 2, 3, 4, 5, 6, 0, 0]);
}

#[test]
fn exact_grid_has_whole_tiles_in_row_major_order() {
    // six by four cells in tiles of three by two
    let iter: ChunkIter<_, Vec<i32>> = numbers(24).to_chunks(6, 3, 2);
    assert_eq!(
        collect(iter),
        vec![
            vec![0, 1, 2, 6, 7, 8],
            vec![3, 4, 5, 9, 10, 11],
            vec![12, 13, 14, 18, 19, 20],
            vec![15, 16, 17, 21, 22, 23],
        ]
    );
}

#[test]
fn two_passes_hold_what_one_pass_holds() {
    // eight by four cells: tiles of two by one, then of two by two of those
    let chained: ChunkIter<_, Vec<Vec<i32>>> =
        numbers(32).to_chunks::<Vec<i32>>(8, 2, 1).to_chunks(4, 2, 2);
    let single: ChunkIter<_, Vec<i32>> = numbers(32).to_chunks(8, 4, 2);
    let twice: Vec<Vec<i32>> = collect(chained)
        .into_iter()
        .map(|parts| {
            let mut all: Vec<i32> = parts.into_iter().flatten().collect();
            all.sort();
            all
        })
        .collect();
    let once: Vec<Vec<i32>> = collect(single)
        .into_iter()
        .map(|mut tile| {
            tile.sort();
            tile
        })
        .collect();
    assert_eq!(twice, once);
    assert_eq!(once.len(), 4);
}
