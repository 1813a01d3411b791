use renderer::chunk_iter::{collect, ChunkIter, ToChunks};
use renderer::hr_bw_display::{HighResBWScreen, Res, BLOCK_TABLE, SEXTANT_TABLE};
use renderer::items::Items;
use renderer::render::{Status, Tile};
use renderer::term_display::{TermScreen, TermStatusLine};
use renderer::traits::Renderble;
use renderer::types::{Quad, Size};

fn cells(rows: &[&str]) -> Items<bool> {
    Items::new(
        rows.iter()
            .flat_map(|row| row.chars().map(|c| c == '#'))
            .collect(),
    )
}

fn chars(text: &str) -> Items<char> {
    Items::new(text.chars().collect())
}

#[test]
fn size_middle_and_flatten() {
    let s = Size::new(7, 4);
    assert_eq!(s.w, 7);
    assert_eq!(s.h, 4);
    assert_eq!(s.middle(), 2 * 7 + 3);
    assert_eq!(s.flatten(), 28);
    assert_eq!(Size::new(0, 0).middle(), 0);
    assert_eq!(Size::new(1, 1).middle(), 0);
    assert_eq!(Size::new(4, 5).middle(), 2 * 4 + 2);
}

#[test]
fn res_tile_sizes() {
    let high = Res::High.to_size();
    assert_eq!((high.w, high.h), (2, 3));
    let low = Res::Low.to_size();
    assert_eq!((low.w, low.h), (1, 2));
}

#[test]
fn half_block_glyphs() {
    assert_eq!(Res::Low.render(0), ' ');
    assert_eq!(Res::Low.render(1), '▄');
    assert_eq!(Res::Low.render(2), '▀');
    assert_eq!(Res::Low.render(3), '█');
    assert_eq!(BLOCK_TABLE, [' ', '▄', '▀', '█']);
}

#[test]
fn sextant_glyphs() {
    assert_eq!(Res::High.render(0), ' ');
    assert_eq!(Res::High.render(63), '█');
    // the left and the right column
    assert_eq!(Res::High.render(0b101010), '▌');
    assert_eq!(Res::High.render(0b010101), '▐');
    // one sub-cell each, from the top left to the bottom right
    assert_eq!(Res::High.render(0b100000), '\u{1FB00}');
    assert_eq!(Res::High.render(0b010000), '\u{1FB01}');
    assert_eq!(Res::High.render(0b001000), '\u{1FB03}');
    assert_eq!(Res::High.render(0b000100), '\u{1FB07}');
    assert_eq!(Res::High.render(0b000010), '\u{1FB0F}');
    assert_eq!(Res::High.render(0b000001), '\u{1FB1E}');
    // all but the bottom right one
    assert_eq!(Res::High.render(0b111110), '\u{1FB1D}');
    assert_eq!(Res::High.render(0b011111), '\u{1FB3B}');
}

#[test]
fn sextant_table_follows_the_masks() {
    for v in 0..64usize {
        let mut mask = 0u32;
        for bit in 0..6 {
            if v >> (5 - bit) & 1 == 1 {
                mask |= 1 << bit;
            }
        }
        let expected = match mask {
            0 => ' ',
            21 => '▌',
            42 => '▐',
            63 => '█',
            m => {
                let skipped = (m > 21) as u32 + (m > 42) as u32;
                char::from_u32(0x1FB00 + m - 1 - skipped).unwrap()
            }
        };
        assert_eq!(SEXTANT_TABLE[v], expected);
        assert_eq!(Res::High.render(v as u8), expected);
    }
}

#[test]
fn bit_packer_packs_most_significant_first() {
    let picture = cells(&["#.#.", "..##", "#..#"]);
    let packed: ChunkIter<_, u8> = picture.to_chunks(4, 2, 3);
    assert_eq!(collect(packed), vec![0b100010, 0b101101]);
    let picture = cells(&["#.", "##"]);
    let packed: ChunkIter<_, u8> = picture.to_chunks(2, 1, 2);
    assert_eq!(collect(packed), vec![0b11, 0b01]);
}

#[test]
fn screen_rows_start_with_a_line_break() {
    let screen = HighResBWScreen::new(4, Res::Low);
    let text = screen.compose(cells(&["#.#.", "##..", "....", "####"]));
    assert_eq!(text, "\n\r█▄▀ \n\r▄▄▄▄");
}

#[test]
fn screen_of_sextants() {
    let screen = HighResBWScreen::new(4, Res::High);
    let text = screen.compose(cells(&["#.#.", "..##", "#..#", "####", "####", "####"]));
    assert_eq!(text, "\n\r\u{1FB10}\u{1FB2A}\n\r██");
}

#[test]
fn screen_with_a_narrow_last_column() {
    let screen = HighResBWScreen::new(3, Res::High);
    // the last tile column is one cell wide: its three cells are the low bits
    let text = screen.compose(cells(&["###", "###", "###"]));
    let narrow = SEXTANT_TABLE[0b000111];
    assert_eq!(text, format!("\n\r█{}", narrow));
}

#[test]
fn screen_of_nothing() {
    let screen = HighResBWScreen::new(4, Res::High);
    assert_eq!(screen.compose(cells(&[])), "");
}

#[test]
fn term_screen_sizes() {
    let screen = TermScreen::new(10, 5);
    assert_eq!((screen.get_size().w, screen.get_size().h), (10, 5));
    assert_eq!(screen.border_gap(), 20);
    let screen = TermScreen::from_size(Size::new(3, 4));
    assert_eq!((screen.get_size().w, screen.get_size().h), (3, 4));
    assert_eq!(screen.border_gap(), 6);
    assert_eq!(TermScreen::new(0, 0).border_gap(), 0);
}

#[test]
fn term_screen_places_text() {
    let screen = TermScreen::new(10, 5);
    // the screen is 22 columns wide and 8 rows high
    let p = screen.place_text(3, 2, 4, Quad::Left);
    assert_eq!((p.column, p.row, p.len), (6, 3, 4));
    let p = screen.place_text(3, 2, 4, Quad::Center);
    assert_eq!((p.column, p.row, p.len), (4, 3, 4));
    let p = screen.place_text(3, 2, 4, Quad::Right);
    assert_eq!((p.column, p.row, p.len), (2, 3, 4));
    // no further left than the edge
    let p = screen.place_text(1, 0, 5, Quad::Right);
    assert_eq!((p.column, p.row, p.len), (0, 1, 5));
    // cut at the right edge
    let p = screen.place_text(10, 20, 6, Quad::Left);
    assert_eq!((p.column, p.row, p.len), (20, 8, 2));
    let p = screen.place_text(40, 7, 6, Quad::Left);
    assert_eq!((p.column, p.row, p.len), (22, 8, 0));
}

#[test]
fn term_screen_draws_rows() {
    let screen = TermScreen::new(3, 2);
    let text = screen.compose(chars("abcdef"));
    assert_eq!(text, "\n\r\x1B[1Ca b c \n\r\x1B[1Cd e f ");
    assert_eq!(screen.compose(chars("abcd")), "\n\r\x1B[1Ca b c \n\r\x1B[1Cd ");
    assert_eq!(screen.compose(chars("")), "");
}

#[test]
fn status_line_is_cut_to_its_width() {
    let line = TermStatusLine::new(2);
    assert_eq!(line.compose(chars("abcdefgh")), "abcdef");
    assert_eq!(line.compose(chars("abc")), "abc");
    assert_eq!(line.compose(chars("")), "");
    assert_eq!(TermStatusLine::new(0).compose(chars("abc")), "ab");
}

#[test]
fn tiles_are_one_character() {
    assert_eq!(Tile::Corpse.render(), vec!['x']);
    assert_eq!(Tile::Empty.render(), vec![' ']);
    assert_eq!(Tile::Food.render(), vec!['+']);
    assert_eq!(Tile::Snake.render(), vec!['o']);
}

#[test]
fn status_is_right_aligned_in_four_columns() {
    let text: String = Status { score: 5, diff: 12 }.render().into_iter().collect();
    assert_eq!(text, "Status:    5 Difficulty:   12");
    let text: String = Status { score: 0, diff: 9999 }.render().into_iter().collect();
    assert_eq!(text, "Status:    0 Difficulty: 9999");
    let text: String = Status { score: 123456, diff: 100 }.render().into_iter().collect();
    assert_eq!(text, "Status: 123456 Difficulty:  100");
}
