//! The tiling engine: a lazy transform that groups a row-major stream into
//! rectangular tiles and reduces each tile with an accumulator.
//!
//! When the source ends inside a tile row, the engine goes on as if the cells
//! that are missing were absent: every tile of that tile row still comes out,
//! in order, folded from what was pushed into it, which may be nothing. When
//! the source ends exactly at the end of a tile row, nothing more comes out.

use crate::tiling::{
    cell_index, columns, lemma_columns, lemma_next_column, lemma_tile_closed, lemma_tile_empty,
    lemma_tile_of_bounds, lemma_tile_of_cell, lemma_tile_prefix, lemma_tile_push, lemma_tile_rows,
    lemma_tile_take, tile, tile_count, tile_of, tile_rows,
};
use crate::tile_cells::{lemma_tile_last_cell, tile_end};
use vstd::prelude::*;

verus! {

/// An accumulator: a fold over the items of one tile, in the order in which
/// the tile is traversed. Its model is its deep view.
pub trait Collector<T: DeepView>: Sized + DeepView {
    /// The model of a fresh accumulator.
    spec fn empty() -> Self::V;

    /// The model after one more item.
    spec fn pushed(acc: Self::V, v: T::V) -> Self::V;

    /// Whether an accumulator with model `acc` can take `v`.
    spec fn accepts(acc: Self::V, v: T::V) -> bool;

    /// A fresh accumulator; `w` is a hint at the capacity to reserve.
    fn new(w: usize) -> (c: Self)
        ensures
            c.deep_view() == Self::empty(),
    ;

    fn push(&mut self, v: T)
        requires
            Self::accepts(old(self).deep_view(), v.deep_view()),
        ensures
            final(self).deep_view() == Self::pushed(old(self).deep_view(), v.deep_view()),
    ;
}

/// The model of an accumulator into which `items` were pushed, in order.
pub open spec fn folded<T: DeepView, U: Collector<T>>(items: Seq<T::V>) -> U::V
    decreases items.len(),
{
    if items.len() == 0 {
        U::empty()
    } else {
        U::pushed(folded::<T, U>(items.drop_last()), items.last())
    }
}

/// Whether a fresh accumulator can take `items`, one after the other.
pub open spec fn admits<T: DeepView, U: Collector<T>>(items: Seq<T::V>) -> bool
    decreases items.len(),
{
    items.len() == 0 || (admits::<T, U>(items.drop_last()) && U::accepts(
        folded::<T, U>(items.drop_last()),
        items.last(),
    ))
}

/// What the engine makes of `items`: the fold of every tile, in row-major
/// tile order.
pub open spec fn chunked<T: DeepView, U: Collector<T>>(
    items: Seq<T::V>,
    w: int,
    cw: int,
    ch: int,
) -> Seq<U::V> {
    Seq::new(
        tile_count(items.len() as int, w, cw, ch) as nat,
        |k: int| folded::<T, U>(tile(items, w, cw, ch, k)),
    )
}

/// Whether an accumulator can take every tile of `items`.
pub open spec fn tiles_admitted<T: DeepView, U: Collector<T>>(
    items: Seq<T::V>,
    w: int,
    cw: int,
    ch: int,
) -> bool {
    forall|k: int|
        0 <= k < tile_count(items.len() as int, w, cw, ch) ==> admits::<T, U>(
            #[trigger] tile(items, w, cw, ch, k),
        )
}

/// A forward, single-pass sequence of items, pulled one at a time.
pub trait Source: Sized {
    type Item: DeepView;

    /// The invariant of the source.
    spec fn wf(&self) -> bool;

    /// The models of the items that are still to come.
    spec fn remaining(&self) -> Seq<<Self::Item as DeepView>::V>;

    /// The next item, or `None` once the source is empty, and from then on.
    fn next(&mut self) -> (r: Option<Self::Item>)
        requires
            old(self).wf(),
        ensures
            final(self).wf(),
            old(self).remaining().len() == 0 ==> r is None && final(self).remaining() == old(
                self,
            ).remaining(),
            old(self).remaining().len() > 0 ==> r is Some && r->0.deep_view() == old(
                self,
            ).remaining()[0] && final(self).remaining() == old(self).remaining().drop_first(),
    ;
}

/// Everything that a source still holds, in order.
pub fn collect<S: Source>(source: S) -> (items: Vec<S::Item>)
    requires
        source.wf(),
    ensures
        items.deep_view() == source.remaining(),
{
    let mut source = source;
    let mut items: Vec<S::Item> = Vec::new();
    let ghost all = source.remaining();
    loop
        invariant
            source.wf(),
            items.deep_view() + source.remaining() == all,
        ensures
            items.deep_view() == all,
        decreases source.remaining().len(),
    {
        let ghost before = source.remaining();
        let ghost seen = items.deep_view();
        match source.next() {
            Some(item) => {
                items.push(item);
                assert(items.deep_view() =~= seen.push(before[0]));
                assert(seen.push(before[0]) + before.drop_first() =~= seen + before);
            },
            None => {
                assert(items.deep_view() + source.remaining() =~= items.deep_view());
                break ;
            },
        }
    }
    items
}

/// The tiling engine over the source `I`, with one accumulator of type `U`
/// for each tile column.
pub struct ChunkIter<I: Source, U: Collector<I::Item>> {
    buf: Vec<U>,
    iter: I,
    w: usize,
    chunk_w: usize,
    chunk_h: usize,
    cx: usize,
    rel_x: usize,
    rel_y: usize,
    /// What has been pulled from the source.
    consumed: Ghost<Seq<<I::Item as DeepView>::V>>,
    /// How many tile rows are complete.
    row: Ghost<int>,
}

/// The cell after the one in column `cx` of cell row `ry` of tile row `row`.
spec fn next_cell(row: int, ry: int, cx: int, w: int, ch: int) -> (int, int, int) {
    if cx + 1 < w {
        (row, ry, cx + 1)
    } else if ry + 1 < ch {
        (row, ry + 1, 0)
    } else {
        (row + 1, 0, 0)
    }
}

/// Whether the cell is the last one of its tile.
spec fn closes_tile(ry: int, cx: int, w: int, cw: int, ch: int) -> bool {
    ry + 1 == ch && ((cx + 1) % cw == 0 || cx + 1 == w)
}

/// How many tiles are complete when the cell comes next.
spec fn emitted_at(row: int, ry: int, cx: int, w: int, cw: int, ch: int) -> int {
    row * columns(w, cw) + if ry + 1 == ch {
        cx / cw
    } else {
        0
    }
}

/// The tile that the accumulator of tile column `i` is collecting when the
/// cell comes next.
spec fn open_tile_at(row: int, ry: int, cx: int, w: int, cw: int, ch: int, i: int) -> int {
    if ry + 1 == ch && i < cx / cw {
        (row + 1) * columns(w, cw) + i
    } else {
        row * columns(w, cw) + i
    }
}

/// Each accumulator holds the fold of what has been pulled of its tile.
spec fn buffers_at<T: DeepView, U: Collector<T>>(
    bufs: Seq<U>,
    seen: Seq<T::V>,
    row: int,
    ry: int,
    cx: int,
    w: int,
    cw: int,
    ch: int,
) -> bool {
    &&& bufs.len() == columns(w, cw)
    &&& forall|i: int|
        0 <= i < bufs.len() ==> (#[trigger] bufs[i]).deep_view() == folded::<T, U>(
            tile(seen, w, cw, ch, open_tile_at(row, ry, cx, w, cw, ch, i)),
        )
}

/// Where the engine stands between two pulls.
spec fn position_ok(n: int, more: bool, row: int, ry: int, cx: int, w: int, cw: int, ch: int) -> bool {
    &&& 0 < w && 0 < cw && 0 < ch
    &&& 0 <= row && 0 <= ry < ch && 0 <= cx < w
    &&& n <= cell_index(row, ry, cx, w, ch)
    &&& (more ==> n == cell_index(row, ry, cx, w, ch))
    &&& (cx > 0 || ry > 0 ==> cell_index(row, 0, 0, w, ch) < n)
    &&& (row > 0 ==> cell_index(row - 1, 0, 0, w, ch) < n)
}

impl<I: Source, U: Collector<I::Item>> ChunkIter<I, U> {
    /// The width of the grid, and the width and the height of a tile.
    pub closed spec fn dims(&self) -> (int, int, int) {
        (self.w as int, self.chunk_w as int, self.chunk_h as int)
    }

    /// The number of accumulators that are alive.
    pub closed spec fn accumulators(&self) -> int {
        self.buf@.len() as int
    }

    /// What has been pulled from the source.
    pub closed spec fn pulled(&self) -> Seq<<I::Item as DeepView>::V> {
        self.consumed@
    }

    /// What the source still holds.
    pub closed spec fn upstream(&self) -> Seq<<I::Item as DeepView>::V> {
        self.iter.remaining()
    }

    /// Everything that the source gives: what was pulled and what is to come.
    spec fn source(&self) -> Seq<<I::Item as DeepView>::V> {
        self.consumed@ + self.iter.remaining()
    }

    /// What the engine stands at: there is one accumulator for each tile
    /// column, the tiles that have come out are among the tiles of what the
    /// source gives, and those that are to come are the others.
    pub proof fn lemma_state(&self)
        requires
            self.wf(),
        ensures
            ({
                let (w, cw, ch) = self.dims();
                let all = self.pulled() + self.upstream();
                &&& 0 < w && 0 < cw && 0 < ch
                &&& self.accumulators() == columns(w, cw)
                &&& 0 <= self.emitted() <= tile_count(all.len() as int, w, cw, ch)
                &&& self.remaining() == chunked::<I::Item, U>(all, w, cw, ch).skip(self.emitted())
            }),
    {
        let w = self.w as int;
        let cw = self.chunk_w as int;
        let ch = self.chunk_h as int;
        let n = self.source().len() as int;
        let row = self.row@;
        let nc = columns(w, cw);
        lemma_columns(w, cw);
        lemma_advance(row, self.rel_y as int, self.cx as int, w, cw, ch);
        lemma_tile_rows_lower(n, row, w, ch);
        lemma_mul_le(0, row, nc);
        if self.cx > 0 || self.rel_y > 0 {
            lemma_mul_bounds(row, nc, tile_rows(n, w, ch), self.cx as int / cw);
        } else {
            vstd::arithmetic::div_mod::lemma_div_basics(cw);
            if row > 0 {
                lemma_tile_rows_lower(n, row - 1, w, ch);
            }
            lemma_mul_le(row, tile_rows(n, w, ch), nc);
        }
    }

    /// How many tiles have come out.
    pub closed spec fn emitted(&self) -> int {
        emitted_at(
            self.row@,
            self.rel_y as int,
            self.cx as int,
            self.w as int,
            self.chunk_w as int,
            self.chunk_h as int,
        )
    }

    spec fn inv(&self) -> bool {
        let w = self.w as int;
        let cw = self.chunk_w as int;
        let ch = self.chunk_h as int;
        &&& self.iter.wf()
        &&& cw * ch <= usize::MAX
        &&& self.rel_x == self.cx as int % cw
        &&& position_ok(
            self.consumed@.len() as int,
            self.iter.remaining().len() > 0,
            self.row@,
            self.rel_y as int,
            self.cx as int,
            w,
            cw,
            ch,
        )
        &&& buffers_at::<I::Item, U>(
            self.buf@,
            self.consumed@,
            self.row@,
            self.rel_y as int,
            self.cx as int,
            w,
            cw,
            ch,
        )
        &&& tiles_admitted::<I::Item, U>(self.source(), w, cw, ch)
    }
}

/// A fresh accumulator that can take a sequence can take each of its prefixes.
proof fn lemma_admits_take<T: DeepView, U: Collector<T>>(items: Seq<T::V>, n: int)
    requires
        admits::<T, U>(items),
        0 <= n <= items.len(),
    ensures
        admits::<T, U>(items.take(n)),
    decreases items.len(),
{
    if n == items.len() {
        assert(items.take(n) =~= items);
    } else {
        lemma_admits_take::<T, U>(items.drop_last(), n);
        assert(items.drop_last().take(n) =~= items.take(n));
    }
}

/// The accumulator of a tile that is admitted can take the tile's next item.
proof fn lemma_accepts_next<T: DeepView, U: Collector<T>>(
    all: Seq<T::V>,
    n: int,
    w: int,
    cw: int,
    ch: int,
    k: int,
)
    requires
        0 <= n < all.len(),
        tile_of(n, w, cw, ch) == k,
        admits::<T, U>(tile(all, w, cw, ch, k)),
    ensures
        U::accepts(folded::<T, U>(tile(all.take(n), w, cw, ch, k)), all[n]),
{
    let a = all.take(n);
    let b = all.take(n + 1);
    assert(a.push(all[n]) =~= b);
    lemma_tile_push(a, all[n], w, cw, ch, k);
    lemma_tile_prefix(all, n + 1, w, cw, ch, k);
    let tb = tile(b, w, cw, ch, k);
    lemma_admits_take::<T, U>(tile(all, w, cw, ch, k), tb.len() as int);
    assert(tb.drop_last() =~= tile(a, w, cw, ch, k));
}

proof fn lemma_mul_bounds(row: int, nc: int, rows: int, c: int)
    requires
        0 <= row < rows,
        0 <= c < nc,
    ensures
        0 <= row * nc + c < rows * nc,
{
    assert(row * nc + nc <= rows * nc) by (nonlinear_arith)
        requires
            row + 1 <= rows,
            nc > 0,
    ;
    assert(0 <= row * nc) by (nonlinear_arith)
        requires
            0 <= row,
            nc > 0,
    ;
}

proof fn lemma_mul_le(a: int, b: int, nc: int)
    requires
        0 <= a <= b,
        0 <= nc,
    ensures
        0 <= a * nc <= b * nc,
{
    assert(0 <= a * nc <= b * nc) by (nonlinear_arith)
        requires
            0 <= a <= b,
            0 <= nc,
    ;
}

/// A length that reaches beyond the start of a tile row reaches into it.
proof fn lemma_tile_rows_lower(n: int, row: int, w: int, ch: int)
    requires
        0 < w,
        0 < ch,
        0 <= row,
        0 <= n,
    ensures
        cell_index(row, 0, 0, w, ch) < n ==> tile_rows(n, w, ch) >= row + 1,
        0 <= tile_rows(n, w, ch),
{
    let d = w * ch;
    vstd::arithmetic::mul::lemma_mul_strictly_positive(w, ch);
    assert(cell_index(row, 0, 0, w, ch) == row * d) by (nonlinear_arith)
        requires
            d == w * ch,
            cell_index(row, 0, 0, w, ch) == (row * ch + 0) * w + 0,
    ;
    vstd::arithmetic::div_mod::lemma_div_pos_is_pos(n + d - 1, d);
    if row * d < n {
        assert((row + 1) * d == row * d + d) by (nonlinear_arith);
        vstd::arithmetic::div_mod::lemma_div_is_ordered((row + 1) * d, n + d - 1, d);
        vstd::arithmetic::div_mod::lemma_div_multiples_vanish(row + 1, d);
    }
}

/// What one step does to the position, to the count of complete tiles and to
/// the tile that each accumulator collects.
proof fn lemma_advance(row: int, ry: int, cx: int, w: int, cw: int, ch: int)
    requires
        0 <= row,
        0 <= ry < ch,
        0 <= cx < w,
        0 < cw,
    ensures
        ({
            let (row2, ry2, cx2) = next_cell(row, ry, cx, w, ch);
            let done = closes_tile(ry, cx, w, cw, ch);
            &&& 0 <= row2 && 0 <= ry2 < ch && 0 <= cx2 < w
            &&& cell_index(row2, ry2, cx2, w, ch) == cell_index(row, ry, cx, w, ch) + 1
            &&& cell_index(row, 0, 0, w, ch) <= cell_index(row, ry, cx, w, ch)
            &&& cell_index(row, ry, cx, w, ch) < cell_index(row + 1, 0, 0, w, ch)
            &&& (row2 == row || (row2 == row + 1 && ry2 == 0 && cx2 == 0 && done))
            &&& cx2 % cw == (if cx + 1 < w && cx % cw + 1 < cw {
                cx % cw + 1
            } else {
                0
            })
            &&& ((cx + 1) % cw == 0 <==> cx % cw + 1 == cw)
            &&& 0 <= cx / cw < columns(w, cw)
            &&& emitted_at(row, ry, cx, w, cw, ch) == row * columns(w, cw) + if ry + 1 == ch {
                cx / cw
            } else {
                0
            }
            &&& emitted_at(row2, ry2, cx2, w, cw, ch) == emitted_at(row, ry, cx, w, cw, ch) + if done {
                1int
            } else {
                0int
            }
            &&& forall|i: int|
                0 <= i < columns(w, cw) ==> #[trigger] open_tile_at(row2, ry2, cx2, w, cw, ch, i)
                    == if done && i == cx / cw {
                    (row + 1) * columns(w, cw) + i
                } else {
                    open_tile_at(row, ry, cx, w, cw, ch, i)
                }
        }),
{
    let nc = columns(w, cw);
    lemma_columns(w, cw);
    lemma_next_column(cx, cw);
    lemma_next_column(0, cw);
    vstd::arithmetic::div_mod::lemma_div_basics(cw);
    assert(0int / cw == 0);
    assert(0int % cw == 0);
    assert((row * ch + ry + 1) * w == (row * ch + ry) * w + w) by (nonlinear_arith);
    assert((row + 1) * ch == row * ch + ch) by (nonlinear_arith);
    assert((row + 1) * nc == row * nc + nc) by (nonlinear_arith);
    assert((row * ch) * w <= (row * ch + ry) * w) by (nonlinear_arith)
        requires
            0 <= ry,
            0 < w,
    ;
    assert((row * ch + ry) * w + w <= (row * ch + ch) * w) by (nonlinear_arith)
        requires
            ry + 1 <= ch,
            0 < w,
    ;
    assert(0 <= cx / cw < nc);
    if cx + 1 == w {
        assert(cx / cw + 1 == nc);
    }
}

/// The accumulator of the cell that comes next can take it.
proof fn lemma_accepts_here<T: DeepView, U: Collector<T>>(
    bufs: Seq<U>,
    all: Seq<T::V>,
    n: int,
    row: int,
    ry: int,
    cx: int,
    w: int,
    cw: int,
    ch: int,
)
    requires
        position_ok(n, true, row, ry, cx, w, cw, ch),
        0 <= n < all.len(),
        buffers_at::<T, U>(bufs, all.take(n), row, ry, cx, w, cw, ch),
        tiles_admitted::<T, U>(all, w, cw, ch),
    ensures
        0 <= cx / cw < bufs.len(),
        U::accepts(bufs[cx / cw].deep_view(), all[n]),
{
    let nc = columns(w, cw);
    let k = row * nc + cx / cw;
    lemma_advance(row, ry, cx, w, cw, ch);
    lemma_tile_of_cell(row, ry, cx, w, cw, ch);
    lemma_tile_rows_lower(all.len() as int, row, w, ch);
    lemma_mul_bounds(row, nc, tile_rows(all.len() as int, w, ch), cx / cw);
    assert(admits::<T, U>(tile(all, w, cw, ch, k)));
    lemma_accepts_next::<T, U>(all, n, w, cw, ch, k);
    assert(open_tile_at(row, ry, cx, w, cw, ch, cx / cw) == k);
}

/// The accumulators after the cell that came next was pushed.
proof fn lemma_pushed_here<T: DeepView, U: Collector<T>>(
    bufs: Seq<U>,
    bufs2: Seq<U>,
    seen: Seq<T::V>,
    v: T::V,
    row: int,
    ry: int,
    cx: int,
    w: int,
    cw: int,
    ch: int,
)
    requires
        position_ok(seen.len() as int, true, row, ry, cx, w, cw, ch),
        buffers_at::<T, U>(bufs, seen, row, ry, cx, w, cw, ch),
        bufs2.len() == bufs.len(),
        forall|i: int| 0 <= i < bufs.len() && i != cx / cw ==> bufs2[i] == bufs[i],
        bufs2[cx / cw].deep_view() == U::pushed(bufs[cx / cw].deep_view(), v),
    ensures
        buffers_at::<T, U>(bufs2, seen.push(v), row, ry, cx, w, cw, ch),
{
    let nc = columns(w, cw);
    let c = cx / cw;
    let k = row * nc + c;
    lemma_advance(row, ry, cx, w, cw, ch);
    lemma_tile_of_cell(row, ry, cx, w, cw, ch);
    assert((row + 1) * nc == row * nc + nc) by (nonlinear_arith);
    assert forall|i: int| 0 <= i < bufs2.len() implies (#[trigger] bufs2[i]).deep_view()
        == folded::<T, U>(
        tile(seen.push(v), w, cw, ch, open_tile_at(row, ry, cx, w, cw, ch, i)),
    ) by {
        let t = open_tile_at(row, ry, cx, w, cw, ch, i);
        lemma_tile_push(seen, v, w, cw, ch, t);
        if i == c {
            assert(tile(seen, w, cw, ch, k).push(v).drop_last() =~= tile(seen, w, cw, ch, k));
        } else {
            assert(bufs2[i] == bufs[i]);
        }
    }
}

/// The tile that closes is complete, and so is its fold.
proof fn lemma_emit<T: DeepView, U: Collector<T>>(
    bufs: Seq<U>,
    bufs2: Seq<U>,
    all: Seq<T::V>,
    n: int,
    row: int,
    ry: int,
    cx: int,
    w: int,
    cw: int,
    ch: int,
)
    requires
        0 < w && 0 < cw && 0 < ch,
        0 <= row && 0 <= ry < ch && 0 <= cx < w,
        closes_tile(ry, cx, w, cw, ch),
        0 <= n <= all.len(),
        cell_index(row, 0, 0, w, ch) < n <= cell_index(row, ry, cx, w, ch) + 1,
        n < all.len() ==> n == cell_index(row, ry, cx, w, ch) + 1,
        buffers_at::<T, U>(bufs, all.take(n), row, ry, cx, w, cw, ch),
        bufs2.len() == bufs.len(),
        forall|i: int| 0 <= i < bufs.len() && i != cx / cw ==> bufs2[i] == bufs[i],
        bufs2[cx / cw].deep_view() == U::empty(),
    ensures
        ({
            let (row2, ry2, cx2) = next_cell(row, ry, cx, w, ch);
            let k = emitted_at(row, ry, cx, w, cw, ch);
            &&& 0 <= k < chunked::<T, U>(all, w, cw, ch).len()
            &&& 0 <= cx / cw < bufs.len()
            &&& bufs[cx / cw].deep_view() == chunked::<T, U>(all, w, cw, ch)[k]
            &&& buffers_at::<T, U>(bufs2, all.take(n), row2, ry2, cx2, w, cw, ch)
        }),
{
    let nc = columns(w, cw);
    let c = cx / cw;
    let k = row * nc + c;
    let seen = all.take(n);
    let (row2, ry2, cx2) = next_cell(row, ry, cx, w, ch);
    lemma_advance(row, ry, cx, w, cw, ch);
    lemma_tile_rows_lower(all.len() as int, row, w, ch);
    lemma_mul_bounds(row, nc, tile_rows(all.len() as int, w, ch), c);
    assert(open_tile_at(row, ry, cx, w, cw, ch, c) == k);
    assert(tile(all, w, cw, ch, k) == tile(seen, w, cw, ch, k)) by {
        assert forall|p: int| n <= p < all.len() implies tile_of(p, w, cw, ch) != k by {
            lemma_tile_closed(p, row, cx, w, cw, ch);
        }
        lemma_tile_take(all, n, w, cw, ch, k);
    }
    assert(tile(seen, w, cw, ch, (row + 1) * nc + c) == Seq::<T::V>::empty()) by {
        assert forall|p: int| 0 <= p < seen.len() implies tile_of(p, w, cw, ch) != (row + 1) * nc
            + c by {
            lemma_tile_of_bounds(p, row + 1, w, cw, ch);
        }
        lemma_tile_empty(seen, w, cw, ch, (row + 1) * nc + c);
    }
    assert forall|i: int| 0 <= i < bufs2.len() implies (#[trigger] bufs2[i]).deep_view()
        == folded::<T, U>(tile(seen, w, cw, ch, open_tile_at(row2, ry2, cx2, w, cw, ch, i))) by {
        if i != c {
            assert(bufs2[i] == bufs[i]);
        }
    }
}

/// While no tile closes, each accumulator goes on with its tile.
proof fn lemma_no_emit<T: DeepView, U: Collector<T>>(
    bufs: Seq<U>,
    seen: Seq<T::V>,
    row: int,
    ry: int,
    cx: int,
    w: int,
    cw: int,
    ch: int,
)
    requires
        0 < w && 0 < cw && 0 < ch,
        0 <= row && 0 <= ry < ch && 0 <= cx < w,
        !closes_tile(ry, cx, w, cw, ch),
        buffers_at::<T, U>(bufs, seen, row, ry, cx, w, cw, ch),
    ensures
        ({
            let (row2, ry2, cx2) = next_cell(row, ry, cx, w, ch);
            buffers_at::<T, U>(bufs, seen, row2, ry2, cx2, w, cw, ch)
        }),
{
    lemma_advance(row, ry, cx, w, cw, ch);
}

/// At the start of a tile row, with nothing left to pull, every tile has
/// come out.
proof fn lemma_all_emitted(n: int, row: int, w: int, cw: int, ch: int)
    requires
        position_ok(n, false, row, 0, 0, w, cw, ch),
        0 <= n,
    ensures
        tile_count(n, w, cw, ch) == emitted_at(row, 0, 0, w, cw, ch),
        emitted_at(row, 0, 0, w, cw, ch) >= 0,
{
    let nc = columns(w, cw);
    lemma_columns(w, cw);
    lemma_advance(row, 0, 0, w, cw, ch);
    lemma_tile_rows(n, row, w, ch);
    lemma_mul_le(tile_rows(n, w, ch), row, nc);
    if row > 0 {
        lemma_tile_rows_lower(n, row - 1, w, ch);
        lemma_mul_le(row, tile_rows(n, w, ch), nc);
    }
    vstd::arithmetic::div_mod::lemma_div_basics(cw);
}

impl<I: Source, U: Collector<I::Item>> Source for ChunkIter<I, U> {
    type Item = U;

    closed spec fn wf(&self) -> bool {
        self.inv()
    }

    closed spec fn remaining(&self) -> Seq<U::V> {
        chunked::<I::Item, U>(
            self.source(),
            self.w as int,
            self.chunk_w as int,
            self.chunk_h as int,
        ).skip(self.emitted())
    }

    /// The fold of the next tile, as soon as its last cell has been pulled:
    /// nothing is pulled beyond that cell.
    fn next(&mut self) -> (r: Option<U>)
        ensures
            final(self).dims() == old(self).dims(),
            final(self).accumulators() == old(self).accumulators(),
            final(self).pulled() + final(self).upstream() == old(self).pulled() + old(self).upstream(),
            r is None ==> {
                &&& final(self).emitted() == old(self).emitted()
                &&& final(self).pulled() == old(self).pulled()
                &&& final(self).upstream().len() == 0
            },
            r is Some ==> {
                &&& final(self).emitted() == old(self).emitted() + 1
                &&& final(self).pulled().len() == vstd::math::min(
                    (old(self).pulled() + old(self).upstream()).len() as int,
                    tile_end(
                        old(self).emitted(),
                        old(self).dims().0,
                        old(self).dims().1,
                        old(self).dims().2,
                    ),
                )
            },
    {
        loop
            invariant
                self.inv(),
                self.buf@.len() == old(self).buf@.len(),
                self.cx == 0 && self.rel_y == 0 ==> self.consumed@ == old(self).consumed@,
                self.source() == old(self).source(),
                self.emitted() == old(self).emitted(),
                self.w == old(self).w,
                self.chunk_w == old(self).chunk_w,
                self.chunk_h == old(self).chunk_h,
            decreases (self.chunk_h - self.rel_y) * self.w - self.cx,
        {
            let ghost w = self.w as int;
            let ghost cw = self.chunk_w as int;
            let ghost ch = self.chunk_h as int;
            let ghost row = self.row@;
            let ghost ry = self.rel_y as int;
            let ghost cx = self.cx as int;
            let ghost all = self.source();
            let ghost before = self.consumed@;
            let ghost bufs0 = self.buf@;
            let ghost measure = (self.chunk_h - self.rel_y) * self.w - self.cx;
            proof {
                lemma_advance(row, ry, cx, w, cw, ch);
                assert(before =~= all.take(before.len() as int));
            }
            let r_value = self.iter.next();
            let chunk_x = self.cx / self.chunk_w;
            match r_value {
                Some(value) => {
                    let ghost v = value.deep_view();
                    proof {
                        lemma_accepts_here::<I::Item, U>(
                            bufs0,
                            all,
                            before.len() as int,
                            row,
                            ry,
                            cx,
                            w,
                            cw,
                            ch,
                        );
                    }
                    self.buf[chunk_x].push(value);
                    proof {
                        self.consumed@ = before.push(v);
                        assert(self.consumed@ + self.iter.remaining() =~= all);
                        lemma_pushed_here::<I::Item, U>(
                            bufs0,
                            self.buf@,
                            before,
                            v,
                            row,
                            ry,
                            cx,
                            w,
                            cw,
                            ch,
                        );
                    }
                },
                None => {
                    if self.cx == 0 && self.rel_y == 0 {
                        proof {
                            assert(all =~= before);
                            lemma_all_emitted(all.len() as int, row, w, cw, ch);
                        }
                        return None;
                    }
                },
            }
            let ghost seen = self.consumed@;
            let ghost bufs1 = self.buf@;
            proof {
                assert(seen + self.iter.remaining() =~= all);
                assert(seen =~= all.take(seen.len() as int));
            }
            let row_done = self.rel_y + 1 == self.chunk_h;
            let col_done = self.rel_x + 1 == self.chunk_w || self.cx + 1 == self.w;

            self.rel_x += 1;
            if self.rel_x == self.chunk_w {
                self.rel_x = 0
            }
            self.cx += 1;
            if self.cx == self.w {
                self.cx = 0;
                self.rel_x = 0;
                self.rel_y += 1;

                if self.rel_y == self.chunk_h {
                    self.rel_y = 0;
                    proof {
                        self.row@ = row + 1;
                    }
                }
            }
            proof {
                assert((self.row@, self.rel_y as int, self.cx as int) == next_cell(
                    row,
                    ry,
                    cx,
                    w,
                    ch,
                ));
                assert((row_done && col_done) == closes_tile(ry, cx, w, cw, ch));
            }
            if row_done && col_done {
                let mut tmp = U::new(self.chunk_w * self.chunk_h);
                std::mem::swap(&mut tmp, &mut self.buf[chunk_x]);
                proof {
                    lemma_emit::<I::Item, U>(
                        bufs1,
                        self.buf@,
                        all,
                        seen.len() as int,
                        row,
                        ry,
                        cx,
                        w,
                        cw,
                        ch,
                    );
                    lemma_tile_last_cell(row, cx, w, cw, ch);
                    let out = chunked::<I::Item, U>(all, w, cw, ch);
                    let k = old(self).emitted();
                    assert(out.skip(k + 1) =~= out.skip(k).drop_first());
                    assert(out.skip(k)[0] == out[k]);
                }
                return Some(tmp);
            }
            proof {
                lemma_no_emit::<I::Item, U>(bufs1, seen, row, ry, cx, w, cw, ch);
                lemma_measure_step(ry, cx, w, ch);
            }
        }
    }
}

proof fn lemma_measure_step(ry: int, cx: int, w: int, ch: int)
    requires
        0 <= ry < ch,
        0 <= cx < w,
    ensures
        (ch - ry) * w - (cx + 1) < (ch - ry) * w - cx,
        cx + 1 == w ==> (ch - (ry + 1)) * w - 0 < (ch - ry) * w - cx,
        0 <= (ch - ry) * w - (cx + 1),
        0 <= (ch - (ry + 1)) * w,
{
    assert((ch - (ry + 1)) * w == (ch - ry) * w - w) by (nonlinear_arith);
    assert(0 <= (ch - (ry + 1)) * w) by (nonlinear_arith)
        requires
            0 <= ch - (ry + 1),
            0 < w,
    ;
}

/// Tiling for every source.
pub trait ToChunks: Source {
    /// The tiling engine over this source, for a grid `w` cells wide and tiles
    /// of `chunk_w` by `chunk_h` cells: it gives the fold of every tile, in
    /// row-major tile order.
    fn to_chunks<U: Collector<Self::Item>>(self, w: usize, chunk_w: usize, chunk_h: usize) -> (r:
        ChunkIter<Self, U>)
        requires
            self.wf(),
            0 < w,
            0 < chunk_w,
            0 < chunk_h,
            chunk_w * chunk_h <= usize::MAX,
            tiles_admitted::<Self::Item, U>(
                self.remaining(),
                w as int,
                chunk_w as int,
                chunk_h as int,
            ),
        ensures
            r.wf(),
            r.remaining() == chunked::<Self::Item, U>(
                self.remaining(),
                w as int,
                chunk_w as int,
                chunk_h as int,
            ),
            r.dims() == (w as int, chunk_w as int, chunk_h as int),
            r.accumulators() == columns(w as int, chunk_w as int),
            r.emitted() == 0,
            r.pulled() == Seq::<<Self::Item as DeepView>::V>::empty(),
            r.upstream() == self.remaining(),
    ;
}

impl<I: Source> ToChunks for I {
    fn to_chunks<U: Collector<Self::Item>>(self, w: usize, chunk_w: usize, chunk_h: usize) -> (r:
        ChunkIter<Self, U>) {
        let n_cells = (w - 1) / chunk_w + 1;
        let mut buf: Vec<U> = Vec::new();
        let mut i: usize = 0;
        while i < n_cells
            invariant
                i <= n_cells,
                buf@.len() == i,
                forall|j: int| 0 <= j < i ==> (#[trigger] buf@[j]).deep_view() == U::empty(),
            decreases n_cells - i,
        {
            buf.push(U::new(chunk_w));
            i += 1;
        }
        let r = ChunkIter {
            buf,
            iter: self,
            w,
            chunk_w,
            chunk_h,
            cx: 0,
            rel_x: 0,
            rel_y: 0,
            consumed: Ghost(Seq::empty()),
            row: Ghost(0),
        };
        proof {
            let cw = chunk_w as int;
            lemma_columns(w as int, cw);
            lemma_advance(0, 0, 0, w as int, cw, chunk_h as int);
            vstd::arithmetic::div_mod::lemma_div_basics(cw);
            assert(0int / cw == 0);
            assert(r.source() =~= self.remaining());
            assert(r.emitted() == 0);
            let none = Seq::<<Self::Item as DeepView>::V>::empty();
            assert(r.consumed@ == none);
            assert(cell_index(0, 0, 0, w as int, chunk_h as int) == 0) by (nonlinear_arith)
                requires
                    cell_index(0, 0, 0, w as int, chunk_h as int) == (0 * (chunk_h as int) + 0) * (
                    w as int) + 0,
            ;
            assert(position_ok(0, self.remaining().len() > 0, 0, 0, 0, w as int, cw, chunk_h as int));
            assert forall|i: int| 0 <= i < r.buf@.len() implies (#[trigger] r.buf@[i]).deep_view()
                == folded::<Self::Item, U>(
                tile(
                    none,
                    w as int,
                    cw,
                    chunk_h as int,
                    open_tile_at(0, 0, 0, w as int, cw, chunk_h as int, i),
                ),
            ) by {
                assert(tile(
                    none,
                    w as int,
                    cw,
                    chunk_h as int,
                    open_tile_at(0, 0, 0, w as int, cw, chunk_h as int, i),
                ) == none);
            }
            assert(buffers_at::<Self::Item, U>(r.buf@, none, 0, 0, 0, w as int, cw, chunk_h as int));
            assert(r.inv());
            assert(r.remaining() =~= chunked::<Self::Item, U>(
                self.remaining(),
                w as int,
                cw,
                chunk_h as int,
            ));
        }
        r
    }
}

/// A sequence that is not empty has at least one tile.
pub proof fn lemma_some_tile(n: int, w: int, cw: int, ch: int)
    requires
        0 < w,
        0 < cw,
        0 < ch,
        0 <= n,
    ensures
        n > 0 ==> tile_count(n, w, cw, ch) > 0,
        n == 0 ==> tile_count(n, w, cw, ch) == 0,
{
    lemma_columns(w, cw);
    lemma_tile_rows_lower(n, 0, w, ch);
    lemma_tile_rows(n, 0, w, ch);
    assert(cell_index(0, 0, 0, w, ch) == 0) by (nonlinear_arith)
        requires
            cell_index(0, 0, 0, w, ch) == (0 * ch + 0) * w + 0,
    ;
    if n > 0 {
        lemma_mul_le(1, tile_rows(n, w, ch), columns(w, cw));
    } else {
        assert(tile_rows(n, w, ch) == 0);
    }
}

/// A cell of a sequence belongs to one of the tiles of the sequence.
pub proof fn lemma_tile_in_count(p: int, n: int, w: int, cw: int, ch: int)
    requires
        0 < w,
        0 < cw,
        0 < ch,
        0 <= p < n,
    ensures
        0 <= tile_of(p, w, cw, ch) < tile_count(n, w, cw, ch),
{
    crate::tiling::lemma_cell_of_position(p, w, ch);
    let row = p / w / ch;
    let ry = (p / w) % ch;
    let cx = p % w;
    lemma_tile_of_cell(row, ry, cx, w, cw, ch);
    lemma_advance(row, ry, cx, w, cw, ch);
    lemma_tile_rows_lower(n, row, w, ch);
    lemma_mul_bounds(row, columns(w, cw), tile_rows(n, w, ch), cx / cw);
}

} // verus!
