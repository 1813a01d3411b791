//! Two passes of tiling against one: the tiles of a second pass over the
//! tiles of a first hold, between them, what the tiles of a single pass with
//! the multiplied tile dimensions hold.

use crate::chunk_iter::{chunked, folded, lemma_tile_in_count, tiles_admitted};
use crate::items::{lemma_sum_collector, sum};
use crate::tile_cells::{lemma_composed_count, lemma_tile_of_composed};
use crate::tiling::{lemma_tile_push, tile, tile_count, tile_of, tiles};
use vstd::multiset::Multiset;
use vstd::prelude::*;
use vstd::seq_lib::{lemma_multiset_commutative, to_multiset_build};

verus! {

/// The items of a sequence of sequences, one sequence after the other.
pub open spec fn joined<A>(parts: Seq<Seq<A>>) -> Seq<A>
    decreases parts.len(),
{
    if parts.len() == 0 {
        Seq::empty()
    } else {
        joined(parts.drop_last()) + parts.last()
    }
}

/// The first `len` tiles of a sequence, those that hold nothing too.
spec fn tiles_upto<A>(items: Seq<A>, w: int, cw: int, ch: int, len: int) -> Seq<Seq<A>> {
    Seq::new(len as nat, |j: int| tile(items, w, cw, ch, j))
}

/// What tile `k` of a pass over `parts` holds, all in all.
spec fn gathered<A>(parts: Seq<Seq<A>>, w: int, cw: int, ch: int, k: int) -> Multiset<A> {
    joined(tile(parts, w, cw, ch, k)).to_multiset()
}

/// A sequence of nothing holds nothing.
proof fn lemma_nothing<A>()
    ensures
        Seq::<A>::empty().to_multiset() == Multiset::<A>::empty(),
{
    Seq::<A>::empty().to_multiset_ensures();
    vstd::multiset::lemma_multiset_empty_len(Seq::<A>::empty().to_multiset());
}

/// What a tile gathers from one more part.
proof fn lemma_gather_push<A>(parts: Seq<Seq<A>>, part: Seq<A>, w: int, cw: int, ch: int, k: int)
    ensures
        gathered(parts.push(part), w, cw, ch, k) == if tile_of(parts.len() as int, w, cw, ch)
            == k {
            gathered(parts, w, cw, ch, k).add(part.to_multiset())
        } else {
            gathered(parts, w, cw, ch, k)
        },
{
    lemma_tile_push(parts, part, w, cw, ch, k);
    if tile_of(parts.len() as int, w, cw, ch) == k {
        let t = tile(parts, w, cw, ch, k);
        assert(t.push(part).drop_last() =~= t);
        lemma_multiset_commutative(joined(t), part);
    }
}

/// The tiles of nothing hold nothing.
proof fn lemma_gather_none<A>(
    w: int,
    cw1: int,
    ch1: int,
    len: int,
    w1: int,
    cw2: int,
    ch2: int,
    k: int,
)
    requires
        0 <= len,
    ensures
        gathered(tiles_upto(Seq::<A>::empty(), w, cw1, ch1, len), w1, cw2, ch2, k)
            == Multiset::<A>::empty(),
    decreases len,
{
    let none = Seq::<A>::empty();
    let all = tiles_upto(none, w, cw1, ch1, len);
    if len == 0 {
        assert(all =~= Seq::<Seq<A>>::empty());
        assert(joined(tile(all, w1, cw2, ch2, k)) =~= Seq::<A>::empty());
    } else {
        let head = tiles_upto(none, w, cw1, ch1, len - 1);
        lemma_gather_none::<A>(w, cw1, ch1, len - 1, w1, cw2, ch2, k);
        assert(all =~= head.push(none));
        lemma_gather_push(head, none, w1, cw2, ch2, k);
        lemma_nothing::<A>();
        assert(gathered(head, w1, cw2, ch2, k).add(none.to_multiset()) =~= gathered(
            head,
            w1,
            cw2,
            ch2,
            k,
        ));
    }
    lemma_nothing::<A>();
}

/// What one more item adds to what a tile of the second pass holds: the
/// item, where the tile of the first pass that takes it belongs to that tile.
proof fn lemma_gather_step<A>(
    items: Seq<A>,
    n: int,
    w: int,
    cw1: int,
    ch1: int,
    len: int,
    w1: int,
    cw2: int,
    ch2: int,
    k: int,
)
    requires
        0 <= n < items.len(),
        0 <= len,
    ensures
        gathered(tiles_upto(items.take(n + 1), w, cw1, ch1, len), w1, cw2, ch2, k) == {
            let j = tile_of(n, w, cw1, ch1);
            let before = gathered(tiles_upto(items.take(n), w, cw1, ch1, len), w1, cw2, ch2, k);
            if 0 <= j < len && tile_of(j, w1, cw2, ch2) == k {
                before.insert(items[n])
            } else {
                before
            }
        },
    decreases len,
{
    let j = tile_of(n, w, cw1, ch1);
    let short = items.take(n);
    let long = items.take(n + 1);
    let before = tiles_upto(short, w, cw1, ch1, len);
    let after = tiles_upto(long, w, cw1, ch1, len);
    if len == 0 {
        assert(before =~= after);
    } else {
        let last = len - 1;
        let before_head = tiles_upto(short, w, cw1, ch1, last);
        let after_head = tiles_upto(long, w, cw1, ch1, last);
        let old_part = tile(short, w, cw1, ch1, last);
        let new_part = tile(long, w, cw1, ch1, last);
        assert(before =~= before_head.push(old_part));
        assert(after =~= after_head.push(new_part));
        lemma_gather_step(items, n, w, cw1, ch1, last, w1, cw2, ch2, k);
        lemma_gather_push(before_head, old_part, w1, cw2, ch2, k);
        lemma_gather_push(after_head, new_part, w1, cw2, ch2, k);
        assert(short.push(items[n]) =~= long);
        lemma_tile_push(short, items[n], w, cw1, ch1, last);
        if j == last {
            to_multiset_build(old_part, items[n]);
        }
        let g0 = gathered(before_head, w1, cw2, ch2, k);
        if tile_of(last, w1, cw2, ch2) == k {
            if j == last {
                assert(g0.add(old_part.to_multiset().insert(items[n])) =~= g0.add(
                    old_part.to_multiset(),
                ).insert(items[n]));
            } else if 0 <= j < last && tile_of(j, w1, cw2, ch2) == k {
                assert(g0.insert(items[n]).add(old_part.to_multiset()) =~= g0.add(
                    old_part.to_multiset(),
                ).insert(items[n]));
            }
        }
    }
}

/// What the tiles of a second pass hold of the first `n` items.
proof fn lemma_gather<A>(
    items: Seq<A>,
    n: int,
    w: int,
    cw1: int,
    ch1: int,
    len: int,
    cw2: int,
    ch2: int,
    k: int,
)
    requires
        0 < w,
        0 < cw1,
        0 < ch1,
        0 < cw2,
        0 < ch2,
        w % (cw1 * cw2) == 0,
        0 <= n <= items.len(),
        0 <= len,
        forall|p: int| 0 <= p < n ==> 0 <= #[trigger] tile_of(p, w, cw1, ch1) < len,
    ensures
        gathered(tiles_upto(items.take(n), w, cw1, ch1, len), w / cw1, cw2, ch2, k) == tile(
            items.take(n),
            w,
            cw1 * cw2,
            ch1 * ch2,
            k,
        ).to_multiset(),
    decreases n,
{
    let w1 = w / cw1;
    if n == 0 {
        assert(items.take(0) =~= Seq::<A>::empty());
        lemma_gather_none::<A>(w, cw1, ch1, len, w1, cw2, ch2, k);
        lemma_nothing::<A>();
    } else {
        let p = n - 1;
        lemma_gather(items, p, w, cw1, ch1, len, cw2, ch2, k);
        lemma_gather_step(items, p, w, cw1, ch1, len, w1, cw2, ch2, k);
        lemma_tile_of_composed(p, w, cw1, ch1, cw2, ch2);
        assert(0 <= tile_of(p, w, cw1, ch1) < len);
        assert(items.take(p).push(items[p]) =~= items.take(n));
        lemma_tile_push(items.take(p), items[p], w, cw1 * cw2, ch1 * ch2, k);
        to_multiset_build(tile(items.take(p), w, cw1 * cw2, ch1 * ch2, k), items[p]);
    }
}

/// Tiling the tiles of a first pass again is tiling once with the multiplied
/// tile dimensions, where the grid divides into whole tiles of those: there
/// are as many tiles, and each tile of the second pass holds, in the tiles of
/// the first pass that it is made of, exactly the items that the tile of the
/// single pass holds.
pub proof fn law_composed_tiles<A>(
    items: Seq<A>,
    w: int,
    cw1: int,
    ch1: int,
    cw2: int,
    ch2: int,
)
    requires
        0 < w,
        0 < cw1,
        0 < ch1,
        0 < cw2,
        0 < ch2,
        w % (cw1 * cw2) == 0,
        (items.len() as int) % (w * (ch1 * ch2)) == 0,
    ensures
        tiles(tiles(items, w, cw1, ch1), w / cw1, cw2, ch2).len() == tiles(
            items,
            w,
            cw1 * cw2,
            ch1 * ch2,
        ).len(),
        forall|k: int|
            0 <= k < tiles(items, w, cw1 * cw2, ch1 * ch2).len() ==> joined(
                #[trigger] tiles(tiles(items, w, cw1, ch1), w / cw1, cw2, ch2)[k],
            ).to_multiset() == tiles(items, w, cw1 * cw2, ch1 * ch2)[k].to_multiset(),
{
    let n = items.len() as int;
    let count1 = tile_count(n, w, cw1, ch1);
    lemma_composed_count(n, w, cw1, ch1, cw2, ch2);
    let first = tiles(items, w, cw1, ch1);
    assert(first =~= tiles_upto(items, w, cw1, ch1, count1));
    assert(items.take(n) =~= items);
    assert forall|p: int| 0 <= p < n implies 0 <= #[trigger] tile_of(p, w, cw1, ch1) < count1 by {
        lemma_tile_in_count(p, n, w, cw1, ch1);
    }
    assert forall|k: int| 0 <= k < tiles(items, w, cw1 * cw2, ch1 * ch2).len() implies joined(
        #[trigger] tiles(first, w / cw1, cw2, ch2)[k],
    ).to_multiset() == tiles(items, w, cw1 * cw2, ch1 * ch2)[k].to_multiset() by {
        lemma_gather(items, n, w, cw1, ch1, count1, cw2, ch2, k);
    }
}

/// The sum of the sums of a sequence of sequences.
spec fn total(parts: Seq<Seq<i32>>) -> int
    decreases parts.len(),
{
    if parts.len() == 0 {
        0
    } else {
        total(parts.drop_last()) + sum(parts.last())
    }
}

/// The sum of what tile `k` of a pass over `parts` holds.
spec fn gathered_sum(parts: Seq<Seq<i32>>, w: int, cw: int, ch: int, k: int) -> int {
    total(tile(parts, w, cw, ch, k))
}

/// What one more part adds to the sum of a tile.
proof fn lemma_sum_push(parts: Seq<Seq<i32>>, part: Seq<i32>, w: int, cw: int, ch: int, k: int)
    ensures
        gathered_sum(parts.push(part), w, cw, ch, k) == gathered_sum(parts, w, cw, ch, k)
            + if tile_of(parts.len() as int, w, cw, ch) == k {
            sum(part)
        } else {
            0
        },
{
    lemma_tile_push(parts, part, w, cw, ch, k);
    if tile_of(parts.len() as int, w, cw, ch) == k {
        let t = tile(parts, w, cw, ch, k);
        assert(t.push(part).drop_last() =~= t);
    }
}

/// What one more item adds to the sum of a tile of the second pass.
proof fn lemma_sum_step(
    items: Seq<i32>,
    n: int,
    w: int,
    cw1: int,
    ch1: int,
    len: int,
    w1: int,
    cw2: int,
    ch2: int,
    k: int,
)
    requires
        0 <= n <= items.len(),
        0 <= len,
    ensures
        n == 0 ==> gathered_sum(tiles_upto(items.take(0), w, cw1, ch1, len), w1, cw2, ch2, k) == 0,
        n > 0 ==> gathered_sum(tiles_upto(items.take(n), w, cw1, ch1, len), w1, cw2, ch2, k)
            == gathered_sum(tiles_upto(items.take(n - 1), w, cw1, ch1, len), w1, cw2, ch2, k) + {
            let j = tile_of(n - 1, w, cw1, ch1);
            if 0 <= j < len && tile_of(j, w1, cw2, ch2) == k {
                items[n - 1] as int
            } else {
                0
            }
        },
    decreases len,
{
    let long = items.take(n);
    let after = tiles_upto(long, w, cw1, ch1, len);
    if len == 0 {
        assert(after =~= Seq::<Seq<i32>>::empty());
        if n > 0 {
            assert(tiles_upto(items.take(n - 1), w, cw1, ch1, len) =~= after);
        }
    } else {
        let last = len - 1;
        let after_head = tiles_upto(long, w, cw1, ch1, last);
        let new_part = tile(long, w, cw1, ch1, last);
        assert(after =~= after_head.push(new_part));
        lemma_sum_step(items, n, w, cw1, ch1, last, w1, cw2, ch2, k);
        lemma_sum_push(after_head, new_part, w1, cw2, ch2, k);
        if n > 0 {
            let short = items.take(n - 1);
            let before = tiles_upto(short, w, cw1, ch1, len);
            let before_head = tiles_upto(short, w, cw1, ch1, last);
            let old_part = tile(short, w, cw1, ch1, last);
            assert(before =~= before_head.push(old_part));
            lemma_sum_push(before_head, old_part, w1, cw2, ch2, k);
            assert(short.push(items[n - 1]) =~= long);
            lemma_tile_push(short, items[n - 1], w, cw1, ch1, last);
            if tile_of(n - 1, w, cw1, ch1) == last {
                assert(old_part.push(items[n - 1]).drop_last() =~= old_part);
            }
        } else {
            assert(long =~= Seq::<i32>::empty());
        }
    }
}

/// The sum of what a tile of the second pass holds of the first `n` items.
proof fn lemma_sum_gather(
    items: Seq<i32>,
    n: int,
    w: int,
    cw1: int,
    ch1: int,
    len: int,
    cw2: int,
    ch2: int,
    k: int,
)
    requires
        0 < w,
        0 < cw1,
        0 < ch1,
        0 < cw2,
        0 < ch2,
        w % (cw1 * cw2) == 0,
        0 <= n <= items.len(),
        0 <= len,
        forall|p: int| 0 <= p < n ==> 0 <= #[trigger] tile_of(p, w, cw1, ch1) < len,
    ensures
        gathered_sum(tiles_upto(items.take(n), w, cw1, ch1, len), w / cw1, cw2, ch2, k) == sum(
            tile(items.take(n), w, cw1 * cw2, ch1 * ch2, k),
        ),
    decreases n,
{
    let w1 = w / cw1;
    lemma_sum_step(items, n, w, cw1, ch1, len, w1, cw2, ch2, k);
    if n == 0 {
        assert(items.take(0) =~= Seq::<i32>::empty());
    } else {
        let p = n - 1;
        lemma_sum_gather(items, p, w, cw1, ch1, len, cw2, ch2, k);
        lemma_tile_of_composed(p, w, cw1, ch1, cw2, ch2);
        assert(0 <= tile_of(p, w, cw1, ch1) < len);
        assert(items.take(p).push(items[p]) =~= items.take(n));
        lemma_tile_push(items.take(p), items[p], w, cw1 * cw2, ch1 * ch2, k);
        let t = tile(items.take(p), w, cw1 * cw2, ch1 * ch2, k);
        assert(t.push(items[p]).drop_last() =~= t);
    }
}

/// The tile of the sums is the sums of the tile.
proof fn lemma_tile_of_sums(
    parts: Seq<Seq<i32>>,
    sums: Seq<i32>,
    w: int,
    cw: int,
    ch: int,
    k: int,
)
    requires
        sums.len() == parts.len(),
        forall|j: int| 0 <= j < parts.len() ==> #[trigger] sums[j] == sum(parts[j]),
    ensures
        sum(tile(sums, w, cw, ch, k)) == total(tile(parts, w, cw, ch, k)),
    decreases parts.len(),
{
    if parts.len() > 0 {
        lemma_tile_of_sums(parts.drop_last(), sums.drop_last(), w, cw, ch, k);
        if tile_of(parts.len() - 1, w, cw, ch) == k {
            let t = tile(parts.drop_last(), w, cw, ch, k);
            let u = tile(sums.drop_last(), w, cw, ch, k);
            assert(t.push(parts.last()).drop_last() =~= t);
            assert(u.push(sums.last()).drop_last() =~= u);
        }
    }
}

/// With the summing accumulator, two passes give what a single pass with the
/// multiplied tile dimensions gives, where the grid divides into whole tiles
/// of those and every sum fits.
pub proof fn law_composed_sums(items: Seq<i32>, w: int, cw1: int, ch1: int, cw2: int, ch2: int)
    requires
        0 < w,
        0 < cw1,
        0 < ch1,
        0 < cw2,
        0 < ch2,
        w % (cw1 * cw2) == 0,
        (items.len() as int) % (w * (ch1 * ch2)) == 0,
        tiles_admitted::<i32, i32>(items, w, cw1, ch1),
        tiles_admitted::<i32, i32>(chunked::<i32, i32>(items, w, cw1, ch1), w / cw1, cw2, ch2),
        tiles_admitted::<i32, i32>(items, w, cw1 * cw2, ch1 * ch2),
    ensures
        chunked::<i32, i32>(chunked::<i32, i32>(items, w, cw1, ch1), w / cw1, cw2, ch2)
            == chunked::<i32, i32>(items, w, cw1 * cw2, ch1 * ch2),
{
    let n = items.len() as int;
    let w1 = w / cw1;
    let count1 = tile_count(n, w, cw1, ch1);
    lemma_composed_count(n, w, cw1, ch1, cw2, ch2);
    let first = chunked::<i32, i32>(items, w, cw1, ch1);
    let parts = tiles_upto(items, w, cw1, ch1, count1);
    let twice = chunked::<i32, i32>(first, w1, cw2, ch2);
    let once = chunked::<i32, i32>(items, w, cw1 * cw2, ch1 * ch2);
    assert(items.take(n) =~= items);
    vstd::arithmetic::mul::lemma_mul_strictly_positive(cw1, cw2);
    vstd::arithmetic::mul::lemma_mul_strictly_positive(ch1, ch2);
    crate::chunk_iter::lemma_some_tile(n, w, cw1 * cw2, ch1 * ch2);
    assert(first.len() == count1);
    assert(once.len() == tile_count(n, w, cw1 * cw2, ch1 * ch2));
    assert(twice.len() == once.len());
    assert forall|p: int| 0 <= p < n implies 0 <= #[trigger] tile_of(p, w, cw1, ch1) < count1 by {
        lemma_tile_in_count(p, n, w, cw1, ch1);
    }
    assert forall|j: int| 0 <= j < parts.len() implies #[trigger] first[j] == sum(parts[j]) by {
        assert(crate::chunk_iter::admits::<i32, i32>(tile(items, w, cw1, ch1, j)));
        lemma_sum_collector(tile(items, w, cw1, ch1, j));
    }
    assert forall|k: int| 0 <= k < once.len() implies twice[k] == once[k] by {
        assert(crate::chunk_iter::admits::<i32, i32>(tile(first, w1, cw2, ch2, k)));
        lemma_sum_collector(tile(first, w1, cw2, ch2, k));
        assert(crate::chunk_iter::admits::<i32, i32>(tile(items, w, cw1 * cw2, ch1 * ch2, k)));
        lemma_sum_collector(tile(items, w, cw1 * cw2, ch1 * ch2, k));
        lemma_tile_of_sums(parts, first, w1, cw2, ch2, k);
        lemma_sum_gather(items, n, w, cw1, ch1, count1, cw2, ch2, k);
    }
    assert(twice =~= once);
}

} // verus!
