//! The geometry of tiling: which tile a cell of a row-major grid belongs to,
//! and what each tile of a sequence holds.

use vstd::arithmetic::div_mod::*;
use vstd::arithmetic::mul::*;
use vstd::prelude::*;

verus! {

/// The number of tile columns of a grid `w` cells wide: `ceil(w / cw)`.
pub open spec fn columns(w: int, cw: int) -> int {
    (w + cw - 1) / cw
}

/// The index, in row-major tile order, of the tile that holds the cell at
/// linear position `p`.
pub open spec fn tile_of(p: int, w: int, cw: int, ch: int) -> int {
    (p / w / ch) * columns(w, cw) + (p % w) / cw
}

/// The number of tile rows that `n` cells reach into: `ceil(n / (w * ch))`.
pub open spec fn tile_rows(n: int, w: int, ch: int) -> int {
    (n + w * ch - 1) / (w * ch)
}

/// The number of tiles that come out of `n` cells: every tile of every tile
/// row that holds at least one cell.
pub open spec fn tile_count(n: int, w: int, cw: int, ch: int) -> int {
    tile_rows(n, w, ch) * columns(w, cw)
}

/// The linear position of the cell in column `cx` of cell row `ry` of tile
/// row `row`.
pub open spec fn cell_index(row: int, ry: int, cx: int, w: int, ch: int) -> int {
    (row * ch + ry) * w + cx
}

/// What tile `k` holds: the items whose position belongs to it, in the order
/// of the sequence.
pub open spec fn tile<A>(items: Seq<A>, w: int, cw: int, ch: int, k: int) -> Seq<A>
    decreases items.len(),
{
    if items.len() == 0 {
        Seq::empty()
    } else {
        let head = tile(items.drop_last(), w, cw, ch, k);
        if tile_of(items.len() - 1, w, cw, ch) == k {
            head.push(items.last())
        } else {
            head
        }
    }
}

/// All tiles of a sequence, in row-major tile order.
pub open spec fn tiles<A>(items: Seq<A>, w: int, cw: int, ch: int) -> Seq<Seq<A>> {
    Seq::new(
        tile_count(items.len() as int, w, cw, ch) as nat,
        |k: int| tile(items, w, cw, ch, k),
    )
}

pub proof fn lemma_columns(w: int, cw: int)
    requires
        0 < w,
        0 < cw,
    ensures
        0 < columns(w, cw),
        (w - 1) / cw + 1 == columns(w, cw),
        forall|c: int| 0 <= c < w ==> 0 <= #[trigger] (c / cw) < columns(w, cw),
{
    lemma_div_plus_one(w - 1, cw);
    assert(w - 1 + cw == w + cw - 1);
    lemma_div_pos_is_pos(w - 1, cw);
    assert forall|c: int| 0 <= c < w implies 0 <= #[trigger] (c / cw) < columns(w, cw) by {
        lemma_div_pos_is_pos(c, cw);
        lemma_div_is_ordered(c, w - 1, cw);
    }
}

/// The cell in column `cx` of cell row `ry` of tile row `row` belongs to the
/// tile in column `cx / cw` of that tile row.
pub proof fn lemma_tile_of_cell(row: int, ry: int, cx: int, w: int, cw: int, ch: int)
    requires
        0 <= row,
        0 <= ry < ch,
        0 <= cx < w,
        0 < cw,
    ensures
        cell_index(row, ry, cx, w, ch) / w == row * ch + ry,
        cell_index(row, ry, cx, w, ch) % w == cx,
        tile_of(cell_index(row, ry, cx, w, ch), w, cw, ch) == row * columns(w, cw) + cx / cw,
        0 <= cell_index(row, ry, cx, w, ch),
{
    let p = cell_index(row, ry, cx, w, ch);
    lemma_mul_nonnegative(row, ch);
    lemma_mul_nonnegative(row * ch + ry, w);
    lemma_fundamental_div_mod_converse(p, w, row * ch + ry, cx);
    lemma_fundamental_div_mod_converse(row * ch + ry, ch, row, ry);
}

/// Every position splits into a tile row, a cell row in it and a column.
pub proof fn lemma_cell_of_position(p: int, w: int, ch: int)
    requires
        0 <= p,
        0 < w,
        0 < ch,
    ensures
        p == cell_index(p / w / ch, (p / w) % ch, p % w, w, ch),
        0 <= p / w / ch,
        0 <= (p / w) % ch < ch,
        0 <= p % w < w,
{
    lemma_fundamental_div_mod(p, w);
    lemma_div_pos_is_pos(p, w);
    lemma_fundamental_div_mod(p / w, ch);
    lemma_div_pos_is_pos(p / w, ch);
    lemma_mod_bound(p, w);
    lemma_mod_bound(p / w, ch);
    lemma_mul_is_commutative(w, p / w);
    lemma_mul_is_commutative(ch, p / w / ch);
}

/// Positions are ordered as their cells are: by tile row, then cell row, then
/// column.
pub proof fn lemma_cell_index_order(
    row1: int,
    ry1: int,
    cx1: int,
    row2: int,
    ry2: int,
    cx2: int,
    w: int,
    ch: int,
)
    requires
        0 <= ry1 < ch,
        0 <= cx1 < w,
        0 <= ry2 < ch,
        0 <= cx2 < w,
        cell_index(row1, ry1, cx1, w, ch) < cell_index(row2, ry2, cx2, w, ch),
    ensures
        row1 < row2 || (row1 == row2 && (ry1 < ry2 || (ry1 == ry2 && cx1 < cx2))),
{
    let a = row1 * ch + ry1;
    let b = row2 * ch + ry2;
    if a > b {
        assert(a * w >= (b + 1) * w) by (nonlinear_arith)
            requires
                a >= b + 1,
                w > 0,
        ;
        assert((b + 1) * w == b * w + w) by (nonlinear_arith);
    }
    if row1 > row2 {
        assert(row1 * ch >= (row2 + 1) * ch) by (nonlinear_arith)
            requires
                row1 >= row2 + 1,
                ch > 0,
        ;
        assert((row2 + 1) * ch == row2 * ch + ch) by (nonlinear_arith);
    }
}

/// How many tile rows a length reaches into, from the tile row that its last
/// cell lies in.
pub proof fn lemma_tile_rows(n: int, row: int, w: int, ch: int)
    requires
        0 < w,
        0 < ch,
        0 <= row,
    ensures
        cell_index(row, 0, 0, w, ch) < n <= cell_index(row + 1, 0, 0, w, ch) ==> tile_rows(
            n,
            w,
            ch,
        ) == row + 1,
        0 <= n <= cell_index(row, 0, 0, w, ch) ==> 0 <= tile_rows(n, w, ch) <= row,
{
    let d = w * ch;
    lemma_mul_strictly_positive(w, ch);
    assert(cell_index(row, 0, 0, w, ch) == row * d) by (nonlinear_arith)
        requires
            d == w * ch,
            cell_index(row, 0, 0, w, ch) == (row * ch + 0) * w + 0,
    ;
    assert(cell_index(row + 1, 0, 0, w, ch) == row * d + d) by (nonlinear_arith)
        requires
            d == w * ch,
            cell_index(row + 1, 0, 0, w, ch) == ((row + 1) * ch + 0) * w + 0,
    ;
    if row * d < n <= row * d + d {
        let r = n + d - 1 - (row + 1) * d;
        assert((row + 1) * d == row * d + d) by (nonlinear_arith);
        lemma_fundamental_div_mod_converse(n + d - 1, d, row + 1, r);
    }
    if 0 <= n <= row * d {
        lemma_div_pos_is_pos(n + d - 1, d);
        lemma_div_is_ordered(n + d - 1, row * d + d - 1, d);
        lemma_fundamental_div_mod_converse(row * d + d - 1, d, row, d - 1);
    }
}

/// Once the last cell of a tile has been passed, no later cell belongs to it
/// or to an earlier tile.
pub proof fn lemma_tile_closed(p: int, row: int, cx: int, w: int, cw: int, ch: int)
    requires
        0 <= row,
        0 <= cx < w,
        0 < cw,
        0 < ch,
        (cx + 1) % cw == 0 || cx + 1 == w,
        cell_index(row, ch - 1, cx, w, ch) < p,
    ensures
        tile_of(p, w, cw, ch) > row * columns(w, cw) + cx / cw,
{
    lemma_cell_of_position(p, w, ch);
    let row2 = p / w / ch;
    let ry2 = (p / w) % ch;
    let cx2 = p % w;
    lemma_cell_index_order(row, ch - 1, cx, row2, ry2, cx2, w, ch);
    lemma_tile_of_cell(row2, ry2, cx2, w, cw, ch);
    lemma_columns(w, cw);
    let nc = columns(w, cw);
    assert(0 <= cx / cw < nc);
    assert(0 <= cx2 / cw < nc);
    if row2 > row {
        assert(row2 * nc >= (row + 1) * nc) by (nonlinear_arith)
            requires
                row2 >= row + 1,
                nc > 0,
        ;
        assert((row + 1) * nc == row * nc + nc) by (nonlinear_arith);
    } else {
        assert(row2 == row && ry2 == ch - 1 && cx < cx2);
        assert(cx + 1 < w);
        lemma_fundamental_div_mod(cx + 1, cw);
        lemma_next_column(cx, cw);
        lemma_div_is_ordered(cx + 1, cx2, cw);
    }
}

/// What one step to the right does to the column of the tile.
pub proof fn lemma_next_column(cx: int, cw: int)
    requires
        0 <= cx,
        0 < cw,
    ensures
        cx % cw + 1 < cw ==> (cx + 1) % cw == cx % cw + 1 && (cx + 1) / cw == cx / cw,
        cx % cw + 1 == cw ==> (cx + 1) % cw == 0 && (cx + 1) / cw == cx / cw + 1,
        0 <= cx % cw < cw,
{
    lemma_fundamental_div_mod(cx, cw);
    lemma_mod_bound(cx, cw);
    lemma_mul_is_commutative(cw, cx / cw);
    if cx % cw + 1 < cw {
        lemma_fundamental_div_mod_converse(cx + 1, cw, cx / cw, cx % cw + 1);
    } else {
        assert((cx / cw + 1) * cw == (cx / cw) * cw + cw) by (nonlinear_arith);
        lemma_fundamental_div_mod_converse(cx + 1, cw, cx / cw + 1, 0);
    }
}

/// The cells before a tile row belong to the tiles before it.
pub proof fn lemma_tile_of_bounds(p: int, row: int, w: int, cw: int, ch: int)
    requires
        0 <= p,
        0 < w,
        0 < cw,
        0 < ch,
        0 <= row,
    ensures
        0 <= tile_of(p, w, cw, ch),
        p < cell_index(row, 0, 0, w, ch) ==> tile_of(p, w, cw, ch) < row * columns(w, cw),
        p >= cell_index(row, 0, 0, w, ch) ==> tile_of(p, w, cw, ch) >= row * columns(w, cw),
{
    lemma_cell_of_position(p, w, ch);
    let row2 = p / w / ch;
    let ry2 = (p / w) % ch;
    let cx2 = p % w;
    lemma_tile_of_cell(row2, ry2, cx2, w, cw, ch);
    lemma_columns(w, cw);
    let nc = columns(w, cw);
    assert(0 <= cx2 / cw < nc);
    lemma_mul_nonnegative(row2, nc);
    if p < cell_index(row, 0, 0, w, ch) {
        lemma_cell_index_order(row2, ry2, cx2, row, 0, 0, w, ch);
        assert(row2 < row);
        assert(row2 * nc + nc <= row * nc) by (nonlinear_arith)
            requires
                row2 + 1 <= row,
                nc > 0,
        ;
    } else {
        if row2 < row {
            assert((row2 * ch + ry2) * w + cx2 < (row * ch) * w) by (nonlinear_arith)
                requires
                    row2 + 1 <= row,
                    0 <= ry2 < ch,
                    0 <= cx2 < w,
            ;
        }
        assert(row2 * nc >= row * nc) by (nonlinear_arith)
            requires
                row2 >= row,
                nc > 0,
        ;
    }
}

/// A tile of a sequence with one more item.
pub proof fn lemma_tile_push<A>(items: Seq<A>, x: A, w: int, cw: int, ch: int, k: int)
    ensures
        tile(items.push(x), w, cw, ch, k) == if tile_of(items.len() as int, w, cw, ch) == k {
            tile(items, w, cw, ch, k).push(x)
        } else {
            tile(items, w, cw, ch, k)
        },
{
    assert(items.push(x).drop_last() =~= items);
}

/// A tile takes nothing from the positions that do not belong to it.
pub proof fn lemma_tile_take<A>(items: Seq<A>, n: int, w: int, cw: int, ch: int, k: int)
    requires
        0 <= n <= items.len(),
        forall|p: int| n <= p < items.len() ==> tile_of(p, w, cw, ch) != k,
    ensures
        tile(items, w, cw, ch, k) == tile(items.take(n), w, cw, ch, k),
    decreases items.len(),
{
    if n == items.len() {
        assert(items.take(n) =~= items);
    } else {
        lemma_tile_take(items.drop_last(), n, w, cw, ch, k);
        assert(items.drop_last().take(n) =~= items.take(n));
    }
}

/// The tile of a prefix is a prefix of the tile.
pub proof fn lemma_tile_prefix<A>(items: Seq<A>, n: int, w: int, cw: int, ch: int, k: int)
    requires
        0 <= n <= items.len(),
    ensures
        tile(items.take(n), w, cw, ch, k).len() <= tile(items, w, cw, ch, k).len(),
        tile(items, w, cw, ch, k).take(tile(items.take(n), w, cw, ch, k).len() as int) == tile(
            items.take(n),
            w,
            cw,
            ch,
            k,
        ),
    decreases items.len(),
{
    if n == items.len() {
        assert(items.take(n) =~= items);
        assert(tile(items, w, cw, ch, k).take(tile(items, w, cw, ch, k).len() as int) =~= tile(
            items,
            w,
            cw,
            ch,
            k,
        ));
    } else {
        lemma_tile_prefix(items.drop_last(), n, w, cw, ch, k);
        assert(items.drop_last().take(n) =~= items.take(n));
        let short = tile(items.take(n), w, cw, ch, k);
        let head = tile(items.drop_last(), w, cw, ch, k);
        assert(head.push(items.last()).take(short.len() as int) =~= head.take(short.len() as int));
    }
}

/// A tile holds nothing while no position of the sequence belongs to it.
pub proof fn lemma_tile_empty<A>(items: Seq<A>, w: int, cw: int, ch: int, k: int)
    requires
        forall|p: int| 0 <= p < items.len() ==> tile_of(p, w, cw, ch) != k,
    ensures
        tile(items, w, cw, ch, k) == Seq::<A>::empty(),
{
    lemma_tile_take(items, 0, w, cw, ch, k);
    assert(items.take(0) =~= Seq::<A>::empty());
}

} // verus!
