//! The cells of a tile, one by one: where each lies in the grid, and that a
//! tile of a sequence holds exactly the items at those cells, row by row.

use crate::tiling::{
    cell_index, columns, lemma_cell_of_position, lemma_columns, lemma_tile_of_bounds,
    lemma_tile_of_cell, lemma_tile_push, lemma_tile_rows, tile, tile_count, tile_of, tile_rows,
};
use vstd::arithmetic::div_mod::{
    lemma_div_is_ordered, lemma_div_pos_is_pos, lemma_fundamental_div_mod,
    lemma_fundamental_div_mod_converse, lemma_mod_bound, lemma_multiply_divide_lt,
};
use vstd::arithmetic::mul::{lemma_mul_is_commutative, lemma_mul_strictly_positive};
use vstd::prelude::*;

verus! {

/// The width of the tiles of tile column `tc`: `cw`, or what is left of the
/// grid for the last tile column.
pub open spec fn tile_width(w: int, cw: int, tc: int) -> int {
    if (tc + 1) * cw <= w {
        cw
    } else {
        w - tc * cw
    }
}

/// The linear position of cell `j` of tile `k`, the cells of a tile counted
/// row by row.
pub open spec fn tile_cell(k: int, j: int, w: int, cw: int, ch: int) -> int {
    let tc = k % columns(w, cw);
    let tw = tile_width(w, cw, tc);
    cell_index(k / columns(w, cw), j / tw, tc * cw + j % tw, w, ch)
}

/// The number of cells of tile `k`.
pub open spec fn tile_size(k: int, w: int, cw: int, ch: int) -> int {
    tile_width(w, cw, k % columns(w, cw)) * ch
}

/// The position after the last cell of tile `k`.
pub open spec fn tile_end(k: int, w: int, cw: int, ch: int) -> int {
    tile_cell(k, tile_size(k, w, cw, ch) - 1, w, cw, ch) + 1
}

/// The tile column of a tile lies in the grid, and its tiles are at least one
/// cell and at most `cw` cells wide.
pub proof fn lemma_tile_width(k: int, w: int, cw: int, ch: int)
    requires
        0 <= k,
        0 < w,
        0 < cw,
        0 < ch,
    ensures
        ({
            let nc = columns(w, cw);
            let tc = k % nc;
            let tw = tile_width(w, cw, tc);
            &&& 0 < nc
            &&& 0 <= tc < nc
            &&& 0 <= k / nc
            &&& k == (k / nc) * nc + tc
            &&& 0 < tw <= cw
            &&& 0 <= tc * cw
            &&& tc * cw + tw <= w
            &&& 0 < tile_size(k, w, cw, ch) <= cw * ch
            &&& (w % cw == 0 ==> tw == cw && nc * cw == w && nc == w / cw)
        }),
{
    let nc = columns(w, cw);
    lemma_columns(w, cw);
    let tc = k % nc;
    lemma_fundamental_div_mod(k, nc);
    lemma_mod_bound(k, nc);
    lemma_div_pos_is_pos(k, nc);
    lemma_mul_is_commutative(nc, k / nc);
    // nc == (w - 1) / cw + 1, so (nc - 1) * cw <= w - 1
    lemma_fundamental_div_mod(w - 1, cw);
    lemma_mod_bound(w - 1, cw);
    lemma_mul_is_commutative(cw, (w - 1) / cw);
    assert(tc * cw <= (nc - 1) * cw) by (nonlinear_arith)
        requires
            tc <= nc - 1,
            0 < cw,
    ;
    assert(0 <= tc * cw) by (nonlinear_arith)
        requires
            0 <= tc,
            0 < cw,
    ;
    assert((tc + 1) * cw == tc * cw + cw) by (nonlinear_arith);
    let tw = tile_width(w, cw, tc);
    assert(0 < tw * ch <= cw * ch) by (nonlinear_arith)
        requires
            0 < tw <= cw,
            0 < ch,
    ;
    if w % cw == 0 {
        lemma_fundamental_div_mod(w, cw);
        lemma_mul_is_commutative(cw, w / cw);
        lemma_div_pos_is_pos(w, cw);
        // w == (w / cw) * cw, so w - 1 == (w / cw - 1) * cw + (cw - 1)
        assert((w / cw - 1) * cw == (w / cw) * cw - cw) by (nonlinear_arith);
        lemma_fundamental_div_mod_converse(w - 1, cw, w / cw - 1, cw - 1);
        assert(nc == w / cw);
        assert(tc * cw + cw <= nc * cw) by (nonlinear_arith)
            requires
                tc + 1 <= nc,
                0 < cw,
        ;
    }
}

/// Where cell `j` of tile `k` lies, and that it belongs to tile `k`.
pub proof fn lemma_tile_cell(k: int, j: int, w: int, cw: int, ch: int)
    requires
        0 <= k,
        0 < w,
        0 < cw,
        0 < ch,
        0 <= j < tile_size(k, w, cw, ch),
    ensures
        ({
            let tc = k % columns(w, cw);
            let tw = tile_width(w, cw, tc);
            &&& 0 <= j / tw < ch
            &&& 0 <= j % tw < tw
            &&& j == (j / tw) * tw + j % tw
            &&& 0 <= tc * cw + j % tw < w
            &&& 0 <= tile_cell(k, j, w, cw, ch)
            &&& tile_of(tile_cell(k, j, w, cw, ch), w, cw, ch) == k
            &&& tile_cell(k, j, w, cw, ch) < cell_index(k / columns(w, cw) + 1, 0, 0, w, ch)
        }),
{
    let nc = columns(w, cw);
    let tr = k / nc;
    let tc = k % nc;
    let tw = tile_width(w, cw, tc);
    lemma_tile_width(k, w, cw, ch);
    lemma_fundamental_div_mod(j, tw);
    lemma_mod_bound(j, tw);
    lemma_div_pos_is_pos(j, tw);
    lemma_mul_is_commutative(tw, j / tw);
    lemma_multiply_divide_lt(j, tw, ch);
    let c = tc * cw + j % tw;
    lemma_fundamental_div_mod_converse(c, cw, tc, j % tw);
    lemma_tile_of_cell(tr, j / tw, c, w, cw, ch);
    assert((tr * ch + j / tw) * w + w <= (tr * ch + ch) * w) by (nonlinear_arith)
        requires
            j / tw + 1 <= ch,
            0 < w,
    ;
    assert((tr + 1) * ch == tr * ch + ch) by (nonlinear_arith);
}

/// The cell that closes a tile is the last cell of the tile.
pub proof fn lemma_tile_last_cell(row: int, cx: int, w: int, cw: int, ch: int)
    requires
        0 <= row,
        0 <= cx < w,
        0 < cw,
        0 < ch,
        (cx + 1) % cw == 0 || cx + 1 == w,
    ensures
        tile_end(row * columns(w, cw) + cx / cw, w, cw, ch) == cell_index(row, ch - 1, cx, w, ch)
            + 1,
{
    let nc = columns(w, cw);
    let tc = cx / cw;
    let k = row * nc + tc;
    lemma_columns(w, cw);
    assert(0 <= tc < nc);
    assert(0 <= row * nc) by (nonlinear_arith)
        requires
            0 <= row,
            0 < nc,
    ;
    lemma_fundamental_div_mod_converse(k, nc, row, tc);
    lemma_tile_width(k, w, cw, ch);
    let tw = tile_width(w, cw, tc);
    lemma_fundamental_div_mod(cx, cw);
    lemma_mod_bound(cx, cw);
    lemma_mul_is_commutative(cw, tc);
    crate::tiling::lemma_next_column(cx, cw);
    assert((tc + 1) * cw == tc * cw + cw) by (nonlinear_arith);
    assert(tc * cw + tw - 1 == cx);
    let j = tw * ch - 1;
    assert(j == (ch - 1) * tw + (tw - 1)) by (nonlinear_arith)
        requires
            j == tw * ch - 1,
    ;
    lemma_fundamental_div_mod_converse(j, tw, ch - 1, tw - 1);
}

/// A cell that belongs to tile `k` is one of its cells.
pub proof fn lemma_cell_of_tile(p: int, k: int, w: int, cw: int, ch: int) -> (j: int)
    requires
        0 <= p,
        0 < w,
        0 < cw,
        0 < ch,
        tile_of(p, w, cw, ch) == k,
    ensures
        0 <= k,
        0 <= j < tile_size(k, w, cw, ch),
        tile_cell(k, j, w, cw, ch) == p,
{
    let nc = columns(w, cw);
    lemma_cell_of_position(p, w, ch);
    let row = p / w / ch;
    let ry = (p / w) % ch;
    let cx = p % w;
    lemma_tile_of_cell(row, ry, cx, w, cw, ch);
    lemma_columns(w, cw);
    assert(0 <= cx / cw < nc);
    assert(0 <= row * nc) by (nonlinear_arith)
        requires
            0 <= row,
            0 < nc,
    ;
    lemma_fundamental_div_mod_converse(k, nc, row, cx / cw);
    lemma_tile_width(k, w, cw, ch);
    let tc = k % nc;
    let tw = tile_width(w, cw, tc);
    lemma_fundamental_div_mod(cx, cw);
    lemma_mod_bound(cx, cw);
    lemma_mul_is_commutative(cw, cx / cw);
    let x = cx % cw;
    assert(cx == tc * cw + x);
    assert(x < tw);
    let j = ry * tw + x;
    assert(0 <= ry * tw) by (nonlinear_arith)
        requires
            0 <= ry,
            0 < tw,
    ;
    assert(ry * tw + tw <= ch * tw) by (nonlinear_arith)
        requires
            ry + 1 <= ch,
            0 < tw,
    ;
    lemma_mul_is_commutative(ch, tw);
    lemma_fundamental_div_mod_converse(j, tw, ry, x);
    j
}

/// The cells of a tile are numbered in the order of their positions.
pub proof fn lemma_tile_cell_order(k: int, j1: int, j2: int, w: int, cw: int, ch: int)
    requires
        0 <= k,
        0 < w,
        0 < cw,
        0 < ch,
        0 <= j1 < j2 < tile_size(k, w, cw, ch),
    ensures
        tile_cell(k, j1, w, cw, ch) < tile_cell(k, j2, w, cw, ch),
{
    let nc = columns(w, cw);
    let tr = k / nc;
    let tc = k % nc;
    let tw = tile_width(w, cw, tc);
    lemma_tile_width(k, w, cw, ch);
    lemma_tile_cell(k, j1, w, cw, ch);
    lemma_tile_cell(k, j2, w, cw, ch);
    lemma_div_is_ordered(j1, j2, tw);
    let a1 = j1 / tw;
    let a2 = j2 / tw;
    if a1 < a2 {
        assert((tr * ch + a1) * w + w <= (tr * ch + a2) * w) by (nonlinear_arith)
            requires
                a1 + 1 <= a2,
                0 < w,
        ;
    }
}

/// The items of a tile up to position `n` are the items at its first `m`
/// cells, where `m` counts the cells of the tile before position `n`.
pub proof fn lemma_tile_prefix_cells<A>(
    items: Seq<A>,
    n: int,
    m: int,
    w: int,
    cw: int,
    ch: int,
    k: int,
)
    requires
        0 <= k,
        0 < w,
        0 < cw,
        0 < ch,
        0 <= n <= items.len(),
        0 <= m <= tile_size(k, w, cw, ch),
        m > 0 ==> tile_cell(k, m - 1, w, cw, ch) < n,
        m < tile_size(k, w, cw, ch) ==> n <= tile_cell(k, m, w, cw, ch),
    ensures
        tile(items.take(n), w, cw, ch, k) == Seq::new(
            m as nat,
            |j: int| items[tile_cell(k, j, w, cw, ch)],
        ),
    decreases n,
{
    let size = tile_size(k, w, cw, ch);
    let cells = |j: int| items[tile_cell(k, j, w, cw, ch)];
    if n == 0 {
        if m > 0 {
            lemma_tile_cell(k, m - 1, w, cw, ch);
        }
        assert(tile(items.take(0), w, cw, ch, k) =~= Seq::new(m as nat, cells));
    } else {
        let p = n - 1;
        assert(items.take(p).push(items[p]) =~= items.take(n));
        lemma_tile_push(items.take(p), items[p], w, cw, ch, k);
        if m > 0 && tile_cell(k, m - 1, w, cw, ch) == p {
            lemma_tile_cell(k, m - 1, w, cw, ch);
            if m - 1 > 0 {
                lemma_tile_cell_order(k, m - 2, m - 1, w, cw, ch);
            }
            lemma_tile_prefix_cells(items, p, m - 1, w, cw, ch, k);
            assert(Seq::new((m - 1) as nat, cells).push(items[p]) =~= Seq::new(m as nat, cells));
        } else {
            if tile_of(p, w, cw, ch) == k {
                let j = lemma_cell_of_tile(p, k, w, cw, ch);
                if j < m - 1 {
                    lemma_tile_cell_order(k, j, m - 1, w, cw, ch);
                } else if j > m {
                    lemma_tile_cell_order(k, m, j, w, cw, ch);
                }
                assert(false);
            }
            lemma_tile_prefix_cells(items, p, m, w, cw, ch, k);
        }
    }
}

/// A tile never holds more items than it has cells.
pub proof fn lemma_tile_len<A>(items: Seq<A>, w: int, cw: int, ch: int, k: int)
    requires
        0 < w,
        0 < cw,
        0 < ch,
    ensures
        tile(items, w, cw, ch, k).len() <= cw * ch,
{
    if k < 0 {
        assert forall|p: int| 0 <= p < items.len() implies tile_of(p, w, cw, ch) != k by {
            lemma_tile_of_bounds(p, 0, w, cw, ch);
        }
        crate::tiling::lemma_tile_empty(items, w, cw, ch, k);
        assert(0 <= cw * ch) by (nonlinear_arith)
            requires
                0 < cw,
                0 < ch,
        ;
    } else {
        lemma_tile_width(k, w, cw, ch);
        let m = cells_before(items.len() as int, k, tile_size(k, w, cw, ch), w, cw, ch);
        lemma_cells_before(items.len() as int, k, tile_size(k, w, cw, ch), w, cw, ch);
        lemma_tile_prefix_cells(items, items.len() as int, m, w, cw, ch, k);
        assert(items.take(items.len() as int) =~= items);
    }
}

/// How many of the first `upto` cells of tile `k` lie before position `n`.
pub open spec fn cells_before(n: int, k: int, upto: int, w: int, cw: int, ch: int) -> int
    decreases upto,
{
    if upto <= 0 {
        0
    } else if tile_cell(k, upto - 1, w, cw, ch) < n {
        upto
    } else {
        cells_before(n, k, upto - 1, w, cw, ch)
    }
}

/// The cells of a tile before a position are its first cells.
pub proof fn lemma_cells_before(n: int, k: int, upto: int, w: int, cw: int, ch: int)
    requires
        0 <= k,
        0 < w,
        0 < cw,
        0 < ch,
        0 <= upto <= tile_size(k, w, cw, ch),
        upto < tile_size(k, w, cw, ch) ==> n <= tile_cell(k, upto, w, cw, ch),
    ensures
        ({
            let m = cells_before(n, k, upto, w, cw, ch);
            &&& 0 <= m <= upto
            &&& (m > 0 ==> tile_cell(k, m - 1, w, cw, ch) < n)
            &&& (m < tile_size(k, w, cw, ch) ==> n <= tile_cell(k, m, w, cw, ch))
        }),
    decreases upto,
{
    if upto > 0 && !(tile_cell(k, upto - 1, w, cw, ch) < n) {
        lemma_cells_before(n, k, upto - 1, w, cw, ch);
    }
}

/// Where the grid divides into whole tiles, there are `(w / cw) * (h / ch)`
/// tiles, and each holds `cw * ch` items: those of its cells, row by row.
pub proof fn law_exact_tiling<A>(items: Seq<A>, w: int, h: int, cw: int, ch: int)
    requires
        0 < cw,
        0 < ch,
        0 < w,
        0 <= h,
        w % cw == 0,
        h % ch == 0,
        items.len() == w * h,
    ensures
        tile_count(items.len() as int, w, cw, ch) == (w / cw) * (h / ch),
        forall|k: int|
            0 <= k < (w / cw) * (h / ch) ==> (#[trigger] tile(items, w, cw, ch, k)).len() == cw * ch,
        forall|k: int, j: int|
            0 <= k < (w / cw) * (h / ch) && 0 <= j < cw * ch ==> tile(items, w, cw, ch, k)[j]
                == items[#[trigger] cell_index(
                k / (w / cw),
                j / cw,
                (k % (w / cw)) * cw + j % cw,
                w,
                ch,
            )],
{
    let nc = columns(w, cw);
    let rows = h / ch;
    lemma_tile_width(0, w, cw, ch);
    assert(nc == w / cw);
    lemma_fundamental_div_mod(h, ch);
    lemma_div_pos_is_pos(h, ch);
    lemma_mul_is_commutative(ch, rows);
    assert(w * h == cell_index(rows, 0, 0, w, ch)) by (nonlinear_arith)
        requires
            h == rows * ch,
            cell_index(rows, 0, 0, w, ch) == (rows * ch + 0) * w + 0,
    ;
    if rows > 0 {
        lemma_tile_rows(w * h, rows - 1, w, ch);
        assert(cell_index(rows - 1, 0, 0, w, ch) < cell_index(rows, 0, 0, w, ch))
            by (nonlinear_arith)
            requires
                0 < w,
                0 < ch,
                cell_index(rows - 1, 0, 0, w, ch) == ((rows - 1) * ch + 0) * w + 0,
                cell_index(rows, 0, 0, w, ch) == (rows * ch + 0) * w + 0,
        ;
    } else {
        lemma_tile_rows(w * h, 0, w, ch);
    }
    assert(tile_rows(w * h, w, ch) == rows);
    lemma_mul_is_commutative(rows, nc);
    assert forall|k: int| 0 <= k < nc * rows implies (#[trigger] tile(items, w, cw, ch, k)).len()
        == cw * ch && (forall|j: int|
        0 <= j < cw * ch ==> tile(items, w, cw, ch, k)[j] == items[#[trigger] cell_index(
            k / nc,
            j / cw,
            (k % nc) * cw + j % cw,
            w,
            ch,
        )]) by {
        lemma_tile_width(k, w, cw, ch);
        let size = tile_size(k, w, cw, ch);
        assert(size == cw * ch);
        lemma_tile_cell(k, size - 1, w, cw, ch);
        lemma_multiply_divide_lt(k, nc, rows);
        assert(cell_index(k / nc + 1, 0, 0, w, ch) <= cell_index(rows, 0, 0, w, ch))
            by (nonlinear_arith)
            requires
                k / nc + 1 <= rows,
                0 < w,
                0 < ch,
                cell_index(k / nc + 1, 0, 0, w, ch) == ((k / nc + 1) * ch + 0) * w + 0,
                cell_index(rows, 0, 0, w, ch) == (rows * ch + 0) * w + 0,
        ;
        lemma_tile_prefix_cells(items, items.len() as int, size, w, cw, ch, k);
        assert(items.take(items.len() as int) =~= items);
    }
}

/// A product divided by one of its factors.
proof fn lemma_exact(a: int, b: int, q: int)
    requires
        0 < b,
        a == q * b,
    ensures
        a / b == q,
        a % b == 0,
{
    lemma_fundamental_div_mod_converse(a, b, q, 0);
}

/// The tile rows and the tile columns of a grid that divides into whole tiles.
proof fn lemma_exact_grid(r: int, w: int, cw: int, ch: int, nc: int)
    requires
        0 <= r,
        0 < cw,
        0 < ch,
        0 < nc,
        w == nc * cw,
    ensures
        0 < w,
        columns(w, cw) == nc,
        tile_rows(r * (w * ch), w, ch) == r,
        tile_count(r * (w * ch), w, cw, ch) == r * nc,
{
    lemma_mul_strictly_positive(nc, cw);
    lemma_exact(w, cw, nc);
    lemma_tile_width(0, w, cw, ch);
    let d = w * ch;
    lemma_mul_strictly_positive(w, ch);
    assert(r * d + d - 1 == r * d + (d - 1));
    lemma_fundamental_div_mod_converse(r * d + d - 1, d, r, d - 1);
}

/// A cell that a first pass puts into a tile, and a second pass over the tiles
/// puts on into another, is put into that tile by a single pass with the
/// multiplied tile dimensions, where the width of the grid divides into whole
/// tiles of the multiplied width.
pub proof fn lemma_tile_of_composed(p: int, w: int, cw1: int, ch1: int, cw2: int, ch2: int)
    requires
        0 < w,
        0 < cw1,
        0 < ch1,
        0 < cw2,
        0 < ch2,
        w % (cw1 * cw2) == 0,
        0 <= p,
    ensures
        0 < w / cw1,
        (w / cw1) * cw1 == w,
        (w / cw1) % cw2 == 0,
        0 <= tile_of(p, w, cw1, ch1),
        tile_of(tile_of(p, w, cw1, ch1), w / cw1, cw2, ch2) == tile_of(
            p,
            w,
            cw1 * cw2,
            ch1 * ch2,
        ),
{
    let cw = cw1 * cw2;
    let ch = ch1 * ch2;
    lemma_mul_strictly_positive(cw1, cw2);
    lemma_mul_strictly_positive(ch1, ch2);
    // the grid is `t` tiles of the multiplied width wide
    let t = w / cw;
    lemma_fundamental_div_mod(w, cw);
    lemma_div_pos_is_pos(w, cw);
    lemma_mul_is_commutative(cw, t);
    assert(0 < t) by (nonlinear_arith)
        requires
            w == t * cw,
            0 < w,
            0 < cw,
            0 <= t,
    ;
    let nc1 = t * cw2;
    lemma_mul_strictly_positive(t, cw2);
    assert(w == nc1 * cw1) by (nonlinear_arith)
        requires
            w == t * (cw1 * cw2),
            nc1 == t * cw2,
    ;
    lemma_exact(w, cw1, nc1);
    lemma_exact(nc1, cw2, t);
    lemma_exact_grid(0, w, cw1, ch1, nc1);
    lemma_exact_grid(0, w, cw, ch, t);
    lemma_exact_grid(0, nc1, cw2, ch2, t);
    lemma_cell_of_position(p, w, ch1);
    let row = p / w / ch1;
    let ry = (p / w) % ch1;
    let cx = p % w;
    lemma_tile_of_cell(row, ry, cx, w, cw1, ch1);
    let k1 = tile_of(p, w, cw1, ch1);
    lemma_columns(w, cw1);
    assert(0 <= cx / cw1 < nc1);
    assert(0 <= row * nc1) by (nonlinear_arith)
        requires
            0 <= row,
            0 < nc1,
    ;
    lemma_fundamental_div_mod_converse(k1, nc1, row, cx / cw1);
    vstd::arithmetic::div_mod::lemma_div_denominator(p / w, ch1, ch2);
    vstd::arithmetic::div_mod::lemma_div_denominator(cx, cw1, cw2);
}

/// Tiling the tiles of a first pass again puts every cell into the tile into
/// which a single pass with the multiplied tile dimensions puts it, and gives
/// as many tiles, where the grid divides into whole tiles of the multiplied
/// dimensions.
pub proof fn law_composition(
    p: int,
    n: int,
    w: int,
    cw1: int,
    ch1: int,
    cw2: int,
    ch2: int,
)
    requires
        0 < w,
        0 < cw1,
        0 < ch1,
        0 < cw2,
        0 < ch2,
        w % (cw1 * cw2) == 0,
        0 <= n,
        n % (w * (ch1 * ch2)) == 0,
        0 <= p < n,
    ensures
        tile_of(tile_of(p, w, cw1, ch1), w / cw1, cw2, ch2) == tile_of(
            p,
            w,
            cw1 * cw2,
            ch1 * ch2,
        ),
        tile_count(tile_count(n, w, cw1, ch1), w / cw1, cw2, ch2) == tile_count(
            n,
            w,
            cw1 * cw2,
            ch1 * ch2,
        ),
{
    lemma_tile_of_composed(p, w, cw1, ch1, cw2, ch2);
    lemma_composed_count(n, w, cw1, ch1, cw2, ch2);
}

/// Two passes give as many tiles as a single pass with the multiplied tile
/// dimensions, where the grid divides into whole tiles of those.
pub proof fn lemma_composed_count(n: int, w: int, cw1: int, ch1: int, cw2: int, ch2: int)
    requires
        0 < w,
        0 < cw1,
        0 < ch1,
        0 < cw2,
        0 < ch2,
        w % (cw1 * cw2) == 0,
        0 <= n,
        n % (w * (ch1 * ch2)) == 0,
    ensures
        0 <= tile_count(n, w, cw1, ch1),
        tile_count(tile_count(n, w, cw1, ch1), w / cw1, cw2, ch2) == tile_count(
            n,
            w,
            cw1 * cw2,
            ch1 * ch2,
        ),
{
    let cw = cw1 * cw2;
    let ch = ch1 * ch2;
    lemma_tile_of_composed(0, w, cw1, ch1, cw2, ch2);
    lemma_mul_strictly_positive(cw1, cw2);
    lemma_mul_strictly_positive(ch1, ch2);
    lemma_mul_strictly_positive(w, ch);
    let nc1 = w / cw1;
    let t = nc1 / cw2;
    lemma_fundamental_div_mod(nc1, cw2);
    lemma_div_pos_is_pos(nc1, cw2);
    lemma_mul_is_commutative(cw2, t);
    assert(0 < t) by (nonlinear_arith)
        requires
            nc1 == t * cw2,
            0 < nc1,
            0 < cw2,
            0 <= t,
    ;
    assert(w == t * cw) by (nonlinear_arith)
        requires
            w == nc1 * cw1,
            nc1 == t * cw2,
            cw == cw1 * cw2,
    ;
    let m = n / (w * ch);
    lemma_fundamental_div_mod(n, w * ch);
    lemma_div_pos_is_pos(n, w * ch);
    lemma_mul_is_commutative(w * ch, m);
    assert(n == (m * ch2) * (w * ch1)) by (nonlinear_arith)
        requires
            n == m * (w * (ch1 * ch2)),
    ;
    assert(0 <= m * ch2) by (nonlinear_arith)
        requires
            0 <= m,
            0 < ch2,
    ;
    lemma_exact_grid(m * ch2, w, cw1, ch1, nc1);
    lemma_exact_grid(m, w, cw, ch, t);
    assert((m * ch2) * nc1 == m * (nc1 * ch2)) by (nonlinear_arith);
    lemma_exact_grid(m, nc1, cw2, ch2, t);
    assert(0 <= (m * ch2) * nc1) by (nonlinear_arith)
        requires
            0 <= m * ch2,
            0 < nc1,
    ;
}

} // verus!
