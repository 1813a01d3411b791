//! Sources and accumulators over plain values: a source that hands out the
//! items of a vector, the raw collector and the summing accumulator.

use crate::chunk_iter::{admits, folded, Collector, Source};
use vstd::prelude::*;

verus! {

/// A source that hands out the items of a vector, first to last.
pub struct Items<T> {
    data: Vec<T>,
    pos: usize,
}

impl<T: Copy + DeepView> Items<T> {
    pub fn new(data: Vec<T>) -> (s: Self)
        ensures
            s.wf(),
            s.remaining() == data.deep_view(),
    {
        let s = Items { data, pos: 0 };
        assert(s.data.deep_view().skip(0) =~= s.data.deep_view());
        s
    }
}

impl<T: Copy + DeepView> Source for Items<T> {
    type Item = T;

    closed spec fn wf(&self) -> bool {
        self.pos <= self.data@.len()
    }

    closed spec fn remaining(&self) -> Seq<T::V> {
        self.data.deep_view().skip(self.pos as int)
    }

    fn next(&mut self) -> (r: Option<T>) {
        if self.pos < self.data.len() {
            let v = self.data[self.pos];
            self.pos += 1;
            assert(self.data.deep_view().skip(self.pos as int) =~= old(self).data.deep_view().skip(
                old(self).pos as int,
            ).drop_first());
            Some(v)
        } else {
            None
        }
    }
}

/// The raw collector: it keeps the items of a tile in the order in which they
/// arrive.
impl<T: DeepView> Collector<T> for Vec<T> {
    open spec fn empty() -> Seq<T::V> {
        Seq::empty()
    }

    open spec fn pushed(acc: Seq<T::V>, v: T::V) -> Seq<T::V> {
        acc.push(v)
    }

    open spec fn accepts(acc: Seq<T::V>, v: T::V) -> bool {
        true
    }

    fn new(w: usize) -> (c: Self) {
        let c = Vec::with_capacity(w);
        assert(c.deep_view() =~= Seq::<T::V>::empty());
        c
    }

    fn push(&mut self, v: T) {
        Vec::push(self, v);
        assert(self.deep_view() =~= old(self).deep_view().push(v.deep_view()));
    }
}

/// The raw collector takes every sequence and holds it unchanged.
pub proof fn lemma_raw_collector<T: DeepView>(items: Seq<T::V>)
    ensures
        admits::<T, Vec<T>>(items),
        folded::<T, Vec<T>>(items) == items,
    decreases items.len(),
{
    if items.len() > 0 {
        lemma_raw_collector::<T>(items.drop_last());
        assert(items.drop_last().push(items.last()) =~= items);
    } else {
        assert(items =~= Seq::<T::V>::empty());
    }
}

/// The sum of a sequence.
pub open spec fn sum(items: Seq<i32>) -> int
    decreases items.len(),
{
    if items.len() == 0 {
        0
    } else {
        sum(items.drop_last()) + items.last()
    }
}

/// Whether the sum of each prefix fits an `i32`.
pub open spec fn sums_fit(items: Seq<i32>) -> bool
    decreases items.len(),
{
    items.len() == 0 || (sums_fit(items.drop_last()) && i32::MIN <= sum(items) <= i32::MAX)
}

/// The summing accumulator.
impl Collector<i32> for i32 {
    open spec fn empty() -> i32 {
        0
    }

    open spec fn pushed(acc: i32, v: i32) -> i32 {
        (acc + v) as i32
    }

    open spec fn accepts(acc: i32, v: i32) -> bool {
        i32::MIN <= acc + v <= i32::MAX
    }

    fn new(_w: usize) -> (c: Self) {
        0
    }

    fn push(&mut self, v: i32) {
        *self += v;
    }
}

/// The summing accumulator takes a sequence as long as the sum of each prefix
/// fits, and then holds the sum.
pub proof fn lemma_sum_collector(items: Seq<i32>)
    ensures
        admits::<i32, i32>(items) <==> sums_fit(items),
        sums_fit(items) ==> folded::<i32, i32>(items) == sum(items),
    decreases items.len(),
{
    if items.len() > 0 {
        lemma_sum_collector(items.drop_last());
    }
}

} // verus!
