//! Frames of half-block glyphs: a stream of monochrome cells is cut into
//! frames, every frame is scaled down by a threshold on the coverage of each
//! tile, and two rows of the result make one row of glyphs.

use crate::chunk_iter::{admits, chunked, folded, Collector, Source, ToChunks};
use crate::items::Items;
use crate::tile_cells::lemma_tile_len;
use crate::tiling::{columns, tile, tile_count};
use vstd::prelude::*;
use vstd::string::StringExecFns;

verus! {

/// A glyph cell: an upper and a lower half, each set or not.
#[derive(Clone, Copy, Debug, PartialEq, Eq, Structural)]
pub enum Pixel {
    Empty,
    Top,
    Bottom,
    Full,
}

impl Pixel {
    /// The pixel with the given halves.
    pub open spec fn of(top: bool, bot: bool) -> Pixel {
        if top {
            if bot {
                Pixel::Full
            } else {
                Pixel::Top
            }
        } else {
            if bot {
                Pixel::Bottom
            } else {
                Pixel::Empty
            }
        }
    }

    /// The text of the pixel: a space or a block glyph.
    pub open spec fn glyph(self) -> Seq<char> {
        match self {
            Pixel::Empty => seq![' '],
            Pixel::Top => seq!['\u{2580}'],
            Pixel::Bottom => seq!['\u{2584}'],
            Pixel::Full => seq!['\u{2588}'],
        }
    }

    pub fn new(top: bool, bot: bool) -> (p: Self)
        ensures
            p == Pixel::of(top, bot),
    {
        match (top, bot) {
            (false, false) => Self::Empty,
            (true, false) => Self::Top,
            (false, true) => Self::Bottom,
            (true, true) => Self::Full,
        }
    }

    /// The text that stands for the pixel.
    pub fn symbol(&self) -> (s: &'static str)
        ensures
            s@ == self.glyph(),
    {
        proof {
            reveal_strlit(" ");
            reveal_strlit("\u{2580}");
            reveal_strlit("\u{2584}");
            reveal_strlit("\u{2588}");
        }
        let s = match self {
            Self::Empty => " ",
            Self::Top => "\u{2580}",
            Self::Bottom => "\u{2584}",
            Self::Full => "\u{2588}",
        };
        assert(s@ =~= self.glyph());
        s
    }
}

/// The accumulator of one glyph cell: the first item of a tile is the upper
/// half, the second the lower one, and so on in turn.
#[derive(Clone, Copy, Debug, PartialEq, Eq, Structural)]
pub struct PixelCol {
    pub top: bool,
    pub botom: bool,
    pub is_top: bool,
}

impl DeepView for PixelCol {
    type V = PixelCol;

    open spec fn deep_view(&self) -> PixelCol {
        *self
    }
}

impl PixelCol {
    pub fn to_pixel(&self) -> (p: Pixel)
        ensures
            p == Pixel::of(self.top, self.botom),
    {
        Pixel::new(self.top, self.botom)
    }
}

impl Collector<bool> for PixelCol {
    open spec fn empty() -> PixelCol {
        PixelCol { top: false, botom: false, is_top: true }
    }

    open spec fn pushed(acc: PixelCol, v: bool) -> PixelCol {
        if acc.is_top {
            PixelCol { top: v, botom: acc.botom, is_top: false }
        } else {
            PixelCol { top: acc.top, botom: v, is_top: true }
        }
    }

    open spec fn accepts(acc: PixelCol, v: bool) -> bool {
        true
    }

    fn new(_w: usize) -> (c: Self) {
        PixelCol { top: false, botom: false, is_top: true }
    }

    fn push(&mut self, v: bool) {
        match self.is_top {
            true => self.top = v,
            false => self.botom = v,
        }
        self.is_top = !self.is_top;
    }
}

/// The accumulator of a glyph cell takes every sequence.
pub proof fn lemma_pixel_col_admits(items: Seq<bool>)
    ensures
        admits::<bool, PixelCol>(items),
    decreases items.len(),
{
    if items.len() > 0 {
        lemma_pixel_col_admits(items.drop_last());
    }
}

/// How many items of a sequence are set.
pub open spec fn count_true(items: Seq<bool>) -> int
    decreases items.len(),
{
    if items.len() == 0 {
        0
    } else {
        count_true(items.drop_last()) + if items.last() {
            1int
        } else {
            0int
        }
    }
}

/// The threshold counter: it counts the items that are set.
impl Collector<bool> for u16 {
    open spec fn empty() -> u16 {
        0
    }

    open spec fn pushed(acc: u16, v: bool) -> u16 {
        if v {
            (acc + 1) as u16
        } else {
            acc
        }
    }

    open spec fn accepts(acc: u16, v: bool) -> bool {
        v ==> acc < u16::MAX
    }

    fn new(_w: usize) -> (c: Self) {
        0
    }

    fn push(&mut self, v: bool) {
        if v {
            *self += 1;
        }
    }
}

/// The counter takes a sequence of up to `u16::MAX` items and then holds the
/// number of items that are set.
pub proof fn lemma_counter(items: Seq<bool>)
    requires
        items.len() <= u16::MAX,
    ensures
        admits::<bool, u16>(items),
        folded::<bool, u16>(items) == count_true(items),
        0 <= count_true(items) <= items.len(),
    decreases items.len(),
{
    if items.len() > 0 {
        lemma_counter(items.drop_last());
    }
}

/// Whether a tile of `cells` cells of which `count` are set counts as set:
/// more than half of them must be, so a tie does not.
pub fn covered(count: u16, cells: usize) -> (b: bool)
    ensures
        b == (count as int > cells as int / 2),
{
    let half = cells / 2;
    half < 0x1_0000 && count as usize > half
}

/// A tile of up to `u16::MAX` cells counts as set where more than half of its
/// cells are set, and not where exactly half of them are.
pub proof fn law_threshold(items: Seq<bool>)
    requires
        items.len() <= u16::MAX,
    ensures
        binarized(seq![folded::<bool, u16>(items)], items.len() as int)[0] == (count_true(items)
            > items.len() / 2),
        count_true(items) == items.len() / 2 ==> !binarized(
            seq![folded::<bool, u16>(items)],
            items.len() as int,
        )[0],
{
    lemma_counter(items);
}

/// A source of coverage counts, read as cells that are set or not.
pub struct Threshold<I> {
    iter: I,
    cells: usize,
}

/// The counts of a sequence, each held against the threshold of `cells` cells.
pub open spec fn binarized(counts: Seq<u16>, cells: int) -> Seq<bool> {
    counts.map_values(|c: u16| c as int > cells / 2)
}

impl<I: Source<Item = u16>> Threshold<I> {
    pub fn new(iter: I, cells: usize) -> (s: Self)
        requires
            iter.wf(),
        ensures
            s.wf(),
            s.remaining() == binarized(iter.remaining(), cells as int),
    {
        Threshold { iter, cells }
    }
}

impl<I: Source<Item = u16>> Source for Threshold<I> {
    type Item = bool;

    closed spec fn wf(&self) -> bool {
        self.iter.wf()
    }

    closed spec fn remaining(&self) -> Seq<bool> {
        binarized(self.iter.remaining(), self.cells as int)
    }

    fn next(&mut self) -> (r: Option<bool>) {
        let ghost before = self.iter.remaining();
        match self.iter.next() {
            Some(count) => {
                assert(binarized(before.drop_first(), self.cells as int) =~= binarized(
                    before,
                    self.cells as int,
                ).drop_first());
                Some(covered(count, self.cells))
            },
            None => None,
        }
    }
}

/// The cells of the next frame: the first `w * h` of what is left, or all of
/// it where less is left.
pub open spec fn frame_cells(rest: Seq<bool>, w: int, h: int) -> Seq<bool> {
    if w * h <= rest.len() {
        rest.take(w * h)
    } else {
        rest
    }
}

/// The glyph cells of a frame: each tile of `scale` by `scale` cells is set
/// where more than half of `scale * scale` cells are set in it, and each two
/// rows of the result, one above the other, make one row of pixels.
pub open spec fn frame_pixels(cells: Seq<bool>, w: int, scale: int) -> Seq<Pixel> {
    chunked::<bool, PixelCol>(
        binarized(chunked::<bool, u16>(cells, w, scale, scale), scale * scale),
        columns(w, scale),
        1,
        2,
    ).map_values(|c: PixelCol| Pixel::of(c.top, c.botom))
}

/// The text of a sequence of pixels in rows of `fw`: the glyph of each pixel,
/// and a line feed and a carriage return after the last pixel of each row.
pub open spec fn layout(pixels: Seq<Pixel>, fw: int) -> Seq<char>
    decreases pixels.len(),
{
    if pixels.len() == 0 {
        Seq::empty()
    } else {
        layout(pixels.drop_last(), fw) + pixels.last().glyph() + if pixels.len() % (fw as nat)
            == 0 {
            seq!['\n', '\r']
        } else {
            Seq::empty()
        }
    }
}

/// The text of a frame.
pub open spec fn frame_text(cells: Seq<bool>, w: int, scale: int) -> Seq<char> {
    layout(frame_pixels(cells, w, scale), columns(w, scale))
}

/// A source of cells, read as frames of `w` by `h` cells and scaled down by
/// `scale`.
pub struct FramesIter<I> {
    w: usize,
    h: usize,
    iter: I,
    scale: usize,
}

impl<I: Source<Item = bool>> FramesIter<I> {
    /// The invariant of the frames.
    pub closed spec fn wf(&self) -> bool {
        &&& self.iter.wf()
        &&& 0 < self.scale
        &&& self.scale * self.scale <= u16::MAX
        &&& self.w * self.h <= usize::MAX
    }

    /// The cells that are still to come.
    pub closed spec fn rest(&self) -> Seq<bool> {
        self.iter.remaining()
    }

    /// The width and the height of a frame, and the scale.
    pub closed spec fn dims(&self) -> (int, int, int) {
        (self.w as int, self.h as int, self.scale as int)
    }

    /// The text of the next frame, or `None` where no cell is left. A last
    /// frame that is cut short is drawn from the cells that there are.
    pub fn next(&mut self) -> (r: Option<String>)
        requires
            old(self).wf(),
        ensures
            final(self).wf(),
            final(self).dims() == old(self).dims(),
            ({
                let (w, h, scale) = old(self).dims();
                let cells = frame_cells(old(self).rest(), w, h);
                &&& final(self).rest() == old(self).rest().skip(cells.len() as int)
                &&& cells.len() == 0 ==> r is None
                &&& cells.len() > 0 ==> r is Some && r->0@ == frame_text(cells, w, scale)
            }),
    {
        let n = self.w * self.h;
        let ghost all = self.iter.remaining();
        let mut frame: Vec<bool> = Vec::new();
        while frame.len() < n
            invariant
                self.wf(),
                self.w == old(self).w,
                self.h == old(self).h,
                self.scale == old(self).scale,
                frame@.len() <= n,
                frame@ + self.iter.remaining() == all,
            ensures
                frame@.len() == n || self.iter.remaining().len() == 0,
            decreases n - frame@.len(),
        {
            let ghost before = self.iter.remaining();
            let ghost seen = frame@;
            match self.iter.next() {
                Some(cell) => {
                    frame.push(cell);
                    assert(seen.push(before[0]) + before.drop_first() =~= seen + before);
                },
                None => {
                    break ;
                },
            }
        }
        let ghost cells = frame@;
        proof {
            assert(cells =~= frame_cells(all, self.w as int, self.h as int)) by {
                if frame@.len() == n {
                    assert((frame@ + self.iter.remaining()).take(n as int) =~= frame@);
                } else {
                    assert(frame@ + self.iter.remaining() =~= frame@);
                }
            }
            assert(self.iter.remaining() =~= all.skip(cells.len() as int));
        }
        if frame.len() == 0 {
            return None;
        }
        let frame_w = (self.w - 1) / self.scale + 1;
        let ghost w = self.w as int;
        let ghost scale = self.scale as int;
        proof {
            assert(frame.deep_view() =~= cells);
            crate::tiling::lemma_columns(w, scale);
            assert forall|k: int| 0 <= k < tile_count(cells.len() as int, w, scale, scale) implies admits::<
                bool,
                u16,
            >(#[trigger] tile(cells, w, scale, scale, k)) by {
                lemma_tile_len(cells, w, scale, scale, k);
                lemma_counter(tile(cells, w, scale, scale, k));
            }
        }
        let counts = Items::new(frame).to_chunks::<u16>(self.w, self.scale, self.scale);
        let marks = Threshold::new(counts, self.scale * self.scale);
        proof {
            let bits = marks.remaining();
            assert forall|k: int| 0 <= k < tile_count(bits.len() as int, frame_w as int, 1, 2) implies admits::<
                bool,
                PixelCol,
            >(#[trigger] tile(bits, frame_w as int, 1, 2, k)) by {
                lemma_pixel_col_admits(tile(bits, frame_w as int, 1, 2, k));
            }
        }
        let mut columns = marks.to_chunks::<PixelCol>(frame_w, 1, 2);

        let ghost pixels = frame_pixels(cells, w, scale);
        let ghost glyphs = columns.remaining();
        let mut any = false;
        let mut col: usize = 0;
        let mut out = String::new();
        let ghost mut done: int = 0;
        proof {
            assert(pixels =~= glyphs.map_values(|c: PixelCol| Pixel::of(c.top, c.botom)));
            assert(pixels.take(0) =~= Seq::<Pixel>::empty());
        }
        loop
            invariant
                columns.wf(),
                0 < frame_w,
                pixels == glyphs.map_values(|c: PixelCol| Pixel::of(c.top, c.botom)),
                0 <= done <= glyphs.len(),
                columns.remaining() == glyphs.skip(done),
                any == (done > 0),
                col < frame_w,
                col == done % (frame_w as int),
                out@ == layout(pixels.take(done), frame_w as int),
            ensures
                done == glyphs.len(),
                any == (done > 0),
                out@ == layout(pixels.take(done), frame_w as int),
            decreases glyphs.len() - done,
        {
            match columns.next() {
                Some(pixel) => {
                    out.append(pixel.to_pixel().symbol());
                    any = true;
                    col += 1;
                    let ghost mut tail = Seq::<char>::empty();
                    if col == frame_w {
                        proof {
                            reveal_strlit("\n\r");
                            tail = seq!['\n', '\r'];
                        }
                        assert("\n\r"@ =~= seq!['\n', '\r']);
                        out.append("\n\r");
                        col = 0;
                    }
                    proof {
                        let next = pixels.take(done + 1);
                        assert(next.drop_last() =~= pixels.take(done));
                        assert(next.last() == Pixel::of(pixel.top, pixel.botom));
                        vstd::arithmetic::div_mod::lemma_fundamental_div_mod(
                            done,
                            frame_w as int,
                        );
                        vstd::arithmetic::div_mod::lemma_fundamental_div_mod(
                            done + 1,
                            frame_w as int,
                        );
                        crate::tiling::lemma_next_column(done, frame_w as int);
                        assert(glyphs.skip(done).drop_first() =~= glyphs.skip(done + 1));
                        done = done + 1;
                        assert(out@ =~= layout(next, frame_w as int));
                    }
                },
                None => {
                    break ;
                },
            }
        }
        proof {
            assert(pixels.take(done) =~= pixels);
            crate::chunk_iter::lemma_some_tile(cells.len() as int, w, scale, scale);
            crate::chunk_iter::lemma_some_tile(
                tile_count(cells.len() as int, w, scale, scale),
                frame_w as int,
                1,
                2,
            );
        }
        if !any {
            return None;
        }
        Some(out)
    }
}

/// Frames for every source of cells.
pub trait ToFrames: Source<Item = bool> {
    /// The frames of `w` by `h` cells of this source, scaled down by `scale`.
    fn to_frames(self, w: usize, h: usize, scale: usize) -> (r: FramesIter<Self>)
        requires
            self.wf(),
            0 < scale,
            scale * scale <= u16::MAX,
            w * h <= usize::MAX,
        ensures
            r.wf(),
            r.rest() == self.remaining(),
            r.dims() == (w as int, h as int, scale as int),
    ;
}

impl<I: Source<Item = bool>> ToFrames for I {
    fn to_frames(self, w: usize, h: usize, scale: usize) -> (r: FramesIter<Self>) {
        FramesIter { w, h, iter: self, scale }
    }
}

} // verus!
