use renderer::bits::Bits;
use renderer::chunk_iter::{collect, ChunkIter, Source, ToChunks};
use renderer::frame::{covered, Pixel, PixelCol, Threshold, ToFrames};
use renderer::items::Items;

fn cells(rows: &[&str]) -> Items<bool> {
    Items::new(
        rows.iter()
            .flat_map(|row| row.chars().map(|c| c == '#'))
            .collect(),
    )
}

#[test]
fn pixel_new_takes_both_halves() {
    assert_eq!(Pixel::new(false, false), Pixel::Empty);
    assert_eq!(Pixel::new(true, false), Pixel::Top);
    assert_eq!(Pixel::new(false, true), Pixel::Bottom);
    assert_eq!(Pixel::new(true, true), Pixel::Full);
}

#[test]
fn pixel_symbols_are_block_glyphs() {
    assert_eq!(Pixel::Empty.symbol(), " ");
    assert_eq!(Pixel::Top.symbol(), "▀");
    assert_eq!(Pixel::Bottom.symbol(), "▄");
    assert_eq!(Pixel::Full.symbol(), "█");
}

#[test]
fn threshold_is_more_than_half() {
    assert!(covered(3, 4));
    assert!(!covered(2, 4));
    assert!(!covered(0, 4));
    assert!(covered(5, 9));
    assert!(!covered(4, 9));
    assert!(covered(1, 1));
    assert!(!covered(0, 1));
    assert!(!covered(0, 0));
    assert!(covered(1, 0));
    assert!(!covered(u16::MAX, 200_000));
    assert!(covered(u16::MAX, 131_069));
    assert!(!covered(u16::MAX, 131_070));
}

#[test]
fn counter_counts_the_cells_that_are_set() {
    let picture = cells(&["##..", "#...", "..##", "..##"]);
    let counts: ChunkIter<_, u16> = picture.to_chunks(4, 2, 2);
    assert_eq!(collect(counts), vec![3, 0, 0, 4]);
}

#[test]
fn threshold_source_marks_the_counts() {
    let counts = Items::new(vec![0u16, 1, 2, 3, 4]);
    let marks = Threshold::new(counts, 4);
    assert_eq!(collect(marks), vec![false, false, false, true, true]);
}

#[test]
fn pixel_col_takes_top_then_bottom() {
    let picture = cells(&["#.#.", "##.."]);
    let columns: ChunkIter<_, PixelCol> = picture.to_chunks(4, 1, 2);
    let pixels: Vec<Pixel> = collect(columns).iter().map(|c| c.to_pixel()).collect();
    assert_eq!(
        pixels,
        vec![Pixel::Full, Pixel::Bottom, Pixel::Top, Pixel::Empty]
    );
}

#[test]
fn frame_at_scale_one() {
    let picture = cells(&["#.#.", "##..", "....", "####"]);
    let mut frames = picture.to_frames(4, 4, 1);
    assert_eq!(frames.next(), Some("█▄▀ \n\r▄▄▄▄\n\r".to_string()));
    assert_eq!(frames.next(), None);
    assert_eq!(frames.next(), None);
}

#[test]
fn frame_at_scale_two_resolves_ties_to_unset() {
    let picture = cells(&["#.#.", "##..", "....", "####"]);
    let mut frames = picture.to_frames(4, 4, 2);
    assert_eq!(frames.next(), Some("▀ \n\r".to_string()));
    assert_eq!(frames.next(), None);
}

#[test]
fn frames_follow_one_another() {
    let picture = cells(&["##", "..", "..", "##", "#.", ".#"]);
    let mut frames = picture.to_frames(2, 2, 1);
    assert_eq!(frames.next(), Some("▀▀\n\r".to_string()));
    assert_eq!(frames.next(), Some("▄▄\n\r".to_string()));
    assert_eq!(frames.next(), Some("▀▄\n\r".to_string()));
    assert_eq!(frames.next(), None);
}

#[test]
fn last_frame_is_drawn_from_the_cells_that_are_left() {
    let picture = cells(&["##", "##", "#"]);
    let mut frames = picture.to_frames(2, 2, 1);
    assert_eq!(frames.next(), Some("██\n\r".to_string()));
    assert_eq!(frames.next(), Some("▀ \n\r".to_string()));
    assert_eq!(frames.next(), None);
}

#[test]
fn frame_of_odd_height_ends_with_upper_halves() {
    let picture = cells(&["#.", "##", ".#"]);
    let mut frames = picture.to_frames(2, 3, 1);
    assert_eq!(frames.next(), Some("█▄\n\r ▀\n\r".to_string()));
    assert_eq!(frames.next(), None);
}

#[test]
fn frame_wider_than_a_multiple_of_the_scale() {
    // three columns at scale two: the last tile column is one cell wide and
    // is still held against the threshold of four cells
    let picture = cells(&["###", "###", "###", "###"]);
    let mut frames = picture.to_frames(3, 4, 2);
    assert_eq!(frames.next(), Some("█ \n\r".to_string()));
    assert_eq!(frames.next(), None);
}

#[test]
fn frames_of_no_cells() {
    let mut none = cells(&[]).to_frames(4, 4, 1);
    assert_eq!(none.next(), None);
    let mut flat = cells(&["####"]).to_frames(4, 0, 1);
    assert_eq!(flat.next(), None);
    let mut thin = cells(&["####"]).to_frames(0, 4, 1);
    assert_eq!(thin.next(), None);
}

#[test]
fn bits_come_most_significant_first() {
    let data = [0b1000_0001u8, 0b0100_0000];
    let bits = Bits::new(&data);
    assert_eq!(
        collect(bits),
        vec![
            true, false, false, false, false, false, false, true, false, true, false, false,
            false, false, false, false
        ]
    );
}

#[test]
fn bits_end_with_the_buffer() {
    let data = [0xFFu8];
    let mut bits = Bits::new(&data);
    for _ in 0..8 {
        assert_eq!(bits.next(), Some(true));
    }
    assert_eq!(bits.next(), None);
    assert_eq!(bits.next(), None);
    let mut none = Bits::new(&[]);
    assert_eq!(none.next(), None);
}

#[test]
fn frames_from_bytes() {
    let data = [0b1010_1100u8, 0b0000_1111];
    let mut frames = Bits::new(&data).to_frames(4, 4, 1);
    assert_eq!(frames.next(), Some("█▄▀ \n\r▄▄▄▄\n\r".to_string()));
    assert_eq!(frames.next(), None);
}
