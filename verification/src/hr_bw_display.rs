//! The high resolution monochrome screen: a stream of cells becomes rows of
//! block glyphs, each glyph the picture of a tile of two by three or of one by
//! two cells.

use crate::chunk_iter::{admits, chunked, folded, Collector, Source, ToChunks};
use crate::term_display::push_char;
use crate::tile_cells::lemma_tile_len;
use crate::tiling::{columns, tile, tile_count};
use crate::types::Size;
use vstd::prelude::*;
use vstd::string::StringExecFns;

verus! {

/// The glyphs of a tile of two by three cells, by the bits of the tile, the
/// first cell the most significant bit.
pub const SEXTANT_TABLE: [char; 64] = [
    ' ', '\u{1FB1E}', '\u{1FB0F}', '\u{1FB2D}', '\u{1FB07}', '\u{1FB26}', '\u{1FB16}', '\u{1FB35}',
    '\u{1FB03}', '\u{1FB22}', '\u{1FB13}', '\u{1FB31}', '\u{1FB0B}', '\u{1FB29}', '\u{1FB1A}', '\u{1FB39}',
    '\u{1FB01}', '\u{1FB20}', '\u{1FB11}', '\u{1FB2F}', '\u{1FB09}', '\u{2590}', '\u{1FB18}', '\u{1FB37}',
    '\u{1FB05}', '\u{1FB24}', '\u{1FB14}', '\u{1FB33}', '\u{1FB0D}', '\u{1FB2B}', '\u{1FB1C}', '\u{1FB3B}',
    '\u{1FB00}', '\u{1FB1F}', '\u{1FB10}', '\u{1FB2E}', '\u{1FB08}', '\u{1FB27}', '\u{1FB17}', '\u{1FB36}',
    '\u{1FB04}', '\u{1FB23}', '\u{258C}', '\u{1FB32}', '\u{1FB0C}', '\u{1FB2A}', '\u{1FB1B}', '\u{1FB3A}',
    '\u{1FB02}', '\u{1FB21}', '\u{1FB12}', '\u{1FB30}', '\u{1FB0A}', '\u{1FB28}', '\u{1FB19}', '\u{1FB38}',
    '\u{1FB06}', '\u{1FB25}', '\u{1FB15}', '\u{1FB34}', '\u{1FB0E}', '\u{1FB2C}', '\u{1FB1D}', '\u{2588}',
];

/// The glyphs of a tile of one by two cells.
pub const BLOCK_TABLE: [char; 4] = [' ', '\u{2584}', '\u{2580}', '\u{2588}'];

/// How many cells make a glyph.
pub enum Res {
    Low,
    High,
}

/// The mask of the sub-cells that are set, the first cell the least
/// significant bit, of a tile given by the bits that the bit-packer makes of
/// it.
pub open spec fn sextant_pattern(v: int) -> int {
    (v / 32) % 2 + 2 * ((v / 16) % 2) + 4 * ((v / 8) % 2) + 8 * ((v / 4) % 2) + 16 * ((v / 2) % 2)
        + 32 * (v % 2)
}

/// The glyph of a tile of two by three cells. The sextant glyphs follow one
/// another from U+1FB00 in the order of their masks; the empty tile, the two
/// halves and the full tile are glyphs of older blocks.
pub open spec fn sextant(v: int) -> char {
    let p = sextant_pattern(v);
    if p == 0 {
        ' '
    } else if p == 21 {
        '\u{258C}'
    } else if p == 42 {
        '\u{2590}'
    } else if p == 63 {
        '\u{2588}'
    } else if p < 21 {
        (0x1FB00 + p - 1) as char
    } else if p < 42 {
        (0x1FB00 + p - 2) as char
    } else {
        (0x1FB00 + p - 3) as char
    }
}

/// The glyph of a tile of one by two cells: bit 1 is the upper half, bit 0 the
/// lower one.
pub open spec fn half_block(v: int) -> char {
    if v == 0 {
        ' '
    } else if v == 1 {
        '\u{2584}'
    } else if v == 2 {
        '\u{2580}'
    } else {
        '\u{2588}'
    }
}

impl Res {
    /// The width and the height of a tile.
    pub open spec fn tile(self) -> (int, int) {
        match self {
            Res::High => (2, 3),
            Res::Low => (1, 2),
        }
    }

    /// The number of glyphs.
    pub open spec fn glyphs(self) -> int {
        match self {
            Res::High => 64,
            Res::Low => 4,
        }
    }

    /// The glyph of the tile with bits `v`.
    pub open spec fn glyph(self, v: int) -> char {
        match self {
            Res::High => sextant(v),
            Res::Low => half_block(v),
        }
    }

    pub fn to_size(&self) -> (s: Size)
        ensures
            (s.w as int, s.h as int) == self.tile(),
    {
        match self {
            Self::High => Size { w: 2, h: 3 },
            Self::Low => Size { w: 1, h: 2 },
        }
    }

    /// The glyph of a tile, by the bits that the bit-packer makes of it.
    pub fn render(&self, v: u8) -> (c: char)
        requires
            v < self.glyphs(),
        ensures
            c == self.glyph(v as int),
    {
        match self {
            Self::High => {
                let c = SEXTANT_TABLE[v as usize];
                proof {
                    lemma_sextant_table(v as int);
                }
                c
            },
            Self::Low => BLOCK_TABLE[v as usize],
        }
    }
}

proof fn lemma_sextant_table(v: int)
    requires
        0 <= v < 64,
    ensures
        SEXTANT_TABLE@[v] == sextant(v),
{
}

/// The bit-packer: the items of a tile become the bits of a number, the first
/// item the most significant bit.
impl Collector<bool> for u8 {
    open spec fn empty() -> u8 {
        0
    }

    open spec fn pushed(acc: u8, v: bool) -> u8 {
        (acc << 1) | (if v {
            1u8
        } else {
            0u8
        })
    }

    open spec fn accepts(acc: u8, v: bool) -> bool {
        true
    }

    fn new(_w: usize) -> (c: Self) {
        0
    }

    fn push(&mut self, v: bool) {
        let bit: u8 = if v {
            1
        } else {
            0
        };
        *self = (*self << 1) | bit;
    }
}

/// The number whose binary digits are `items`, the first item the most
/// significant digit.
pub open spec fn packed(items: Seq<bool>) -> int
    decreases items.len(),
{
    if items.len() == 0 {
        0
    } else {
        2 * packed(items.drop_last()) + if items.last() {
            1int
        } else {
            0int
        }
    }
}

/// The bit-packer takes every sequence. Of up to six items it holds the
/// number whose binary digits they are.
pub proof fn lemma_packer(items: Seq<bool>)
    ensures
        admits::<bool, u8>(items),
        items.len() <= 6 ==> folded::<bool, u8>(items) == packed(items),
        items.len() <= 2 ==> 0 <= packed(items) < 4,
        items.len() <= 6 ==> 0 <= packed(items) < 64,
    decreases items.len(),
{
    if items.len() > 0 {
        let head = items.drop_last();
        lemma_packer(head);
        lemma_packed_bound(head);
        if items.len() <= 6 {
            let acc = folded::<bool, u8>(head);
            assert(acc < 32 ==> (acc << 1) | 1u8 == 2 * acc + 1) by (bit_vector);
            assert(acc < 32 ==> (acc << 1) | 0u8 == 2 * acc) by (bit_vector);
        }
        lemma_packed_bound(items);
    }
}

/// A number of `n` binary digits is less than two to the `n`.
proof fn lemma_packed_bound(items: Seq<bool>)
    ensures
        0 <= packed(items),
        items.len() == 0 ==> packed(items) == 0,
        items.len() <= 1 ==> packed(items) < 2,
        items.len() <= 2 ==> packed(items) < 4,
        items.len() <= 3 ==> packed(items) < 8,
        items.len() <= 4 ==> packed(items) < 16,
        items.len() <= 5 ==> packed(items) < 32,
        items.len() <= 6 ==> packed(items) < 64,
    decreases items.len(),
{
    if items.len() > 0 {
        lemma_packed_bound(items.drop_last());
    }
}

/// A screen of glyphs for a picture `w` cells wide.
pub struct HighResBWScreen {
    w: usize,
    rw: usize,
    res: Res,
}

/// The text of the glyphs in rows of `rw`: a line feed and a carriage return
/// before the first glyph of each row.
pub open spec fn screen_text(glyphs: Seq<char>, rw: int) -> Seq<char>
    decreases glyphs.len(),
{
    if glyphs.len() == 0 {
        Seq::empty()
    } else {
        screen_text(glyphs.drop_last(), rw) + (if (glyphs.len() - 1) % rw == 0 {
            seq!['\n', '\r']
        } else {
            Seq::empty()
        }) + seq![glyphs.last()]
    }
}

/// The glyphs of a picture, tile by tile.
pub open spec fn picture_glyphs(cells: Seq<bool>, w: int, res: Res) -> Seq<char> {
    chunked::<bool, u8>(cells, w, res.tile().0, res.tile().1).map_values(
        |v: u8| res.glyph(v as int),
    )
}

impl HighResBWScreen {
    /// The width of the picture, in cells.
    pub closed spec fn width(&self) -> int {
        self.w as int
    }

    /// The number of glyphs of a row.
    pub closed spec fn row_width(&self) -> int {
        self.rw as int
    }

    /// The resolution.
    pub closed spec fn res(&self) -> Res {
        self.res
    }

    /// The invariant of the screen: a row has as many glyphs as the picture
    /// has tile columns.
    pub closed spec fn wf(&self) -> bool {
        self.rw == columns(self.w as int, self.res.tile().0)
    }

    pub fn new(w: usize, res: Res) -> (s: Self)
        ensures
            s.wf(),
            s.width() == w,
            s.res() == res,
            s.row_width() == columns(w as int, res.tile().0),
    {
        let cw = res.to_size().w;
        let rw = if w == 0 {
            0
        } else {
            (w - 1) / cw + 1
        };
        proof {
            if w == 0 {
                vstd::arithmetic::div_mod::lemma_basic_div(cw as int - 1, cw as int);
            } else {
                crate::tiling::lemma_columns(w as int, cw as int);
            }
        }
        Self { w, rw, res }
    }

    /// The text that draws the cells of `items`: the glyph of every tile, in
    /// rows of as many glyphs as the picture has tile columns.
    pub fn compose<I: Source<Item = bool>>(&self, items: I) -> (text: String)
        requires
            items.wf(),
            self.wf(),
            self.width() > 0,
        ensures
            text@ == screen_text(
                picture_glyphs(items.remaining(), self.width(), self.res()),
                self.row_width(),
            ),
    {
        let size = self.res.to_size();
        let ghost cells = items.remaining();
        let ghost w = self.w as int;
        let ghost cw = size.w as int;
        let ghost ch = size.h as int;
        proof {
            assert forall|k: int| 0 <= k < tile_count(cells.len() as int, w, cw, ch) implies admits::<
                bool,
                u8,
            >(#[trigger] tile(cells, w, cw, ch, k)) by {
                lemma_packer(tile(cells, w, cw, ch, k));
            }
            crate::tiling::lemma_columns(w, cw);
        }
        let mut scaled = items.to_chunks::<u8>(self.w, size.w, size.h);
        let ghost indices = scaled.remaining();
        let ghost glyphs = picture_glyphs(cells, w, self.res);
        let ghost mut done: int = 0;
        let mut col: usize = 0;
        let mut text = String::new();
        proof {
            assert(glyphs.take(0) =~= Seq::<char>::empty());
        }
        loop
            invariant
                scaled.wf(),
                0 < self.rw,
                self.rw == columns(w, cw),
                (cw, ch) == self.res.tile(),
                0 < w,
                indices == chunked::<bool, u8>(cells, w, cw, ch),
                glyphs == indices.map_values(|v: u8| self.res.glyph(v as int)),
                0 <= done <= indices.len(),
                scaled.remaining() == indices.skip(done),
                col < self.rw,
                col == done % (self.rw as int),
                text@ == screen_text(glyphs.take(done), self.rw as int),
            ensures
                done == indices.len(),
                text@ == screen_text(glyphs.take(done), self.rw as int),
            decreases indices.len() - done,
        {
            match scaled.next() {
                Some(v) => {
                    proof {
                        let t = tile(cells, w, cw, ch, done);
                        lemma_tile_len(cells, w, cw, ch, done);
                        lemma_packer(t);
                        assert(v == folded::<bool, u8>(t));
                    }
                    let ghost mut lead = Seq::<char>::empty();
                    if col == 0 {
                        proof {
                            reveal_strlit("\n\r");
                            lead = seq!['\n', '\r'];
                        }
                        assert("\n\r"@ =~= seq!['\n', '\r']);
                        text.append("\n\r");
                    }
                    push_char(&mut text, self.res.render(v));
                    col += 1;
                    if col == self.rw {
                        col = 0;
                    }
                    proof {
                        let next = glyphs.take(done + 1);
                        assert(next.drop_last() =~= glyphs.take(done));
                        assert(next.last() == self.res.glyph(v as int));
                        crate::tiling::lemma_next_column(done, self.rw as int);
                        assert(indices.skip(done).drop_first() =~= indices.skip(done + 1));
                        done = done + 1;
                        assert(text@ =~= screen_text(next, self.rw as int));
                    }
                },
                None => {
                    break ;
                },
            }
        }
        proof {
            assert(glyphs.take(done) =~= glyphs);
        }
        text
    }
}

} // verus!
