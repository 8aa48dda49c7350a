use vstd::prelude::*;
use crate::range::{Range, RangeV, range_wf, range_le, range_lt, ranges_intersect};

verus! {

/// Every key is a well-formed range and the keys never decrease along the sequence.
pub open spec fn index_wf<T>(s: Seq<(RangeV, T)>) -> bool {
    &&& forall|i: int| 0 <= i < s.len() ==> range_wf(#[trigger] s[i].0)
    &&& forall|i: int, j: int| 0 <= i < j < s.len() ==> range_le(#[trigger] s[i].0, #[trigger] s[j].0)
}

/// `p` is where an entry keyed `k` goes: after every key not above `k`, before every key above it.
pub open spec fn insert_point<T>(s: Seq<(RangeV, T)>, p: int, k: RangeV) -> bool {
    &&& 0 <= p <= s.len()
    &&& forall|j: int| 0 <= j < p ==> range_le(#[trigger] s[j].0, k)
    &&& forall|j: int| p <= j < s.len() ==> range_lt(k, #[trigger] s[j].0)
}

/// The entries whose key shares a key with `q`, in index order.
pub open spec fn hits<T>(s: Seq<(RangeV, T)>, q: RangeV) -> Seq<(RangeV, T)> {
    s.filter(|e: (RangeV, T)| ranges_intersect(e.0, q))
}

/// Filtering a prefix one element longer adds that element when it passes.
pub proof fn lemma_filter_step<T>(s: Seq<T>, i: int, p: spec_fn(T) -> bool)
    requires
        0 <= i < s.len(),
    ensures
        s.subrange(0, i + 1).filter(p) == if p(s[i]) {
            s.subrange(0, i).filter(p).push(s[i])
        } else {
            s.subrange(0, i).filter(p)
        },
{
    reveal(Seq::filter);
    assert(s.subrange(0, i + 1).drop_last() =~= s.subrange(0, i));
}

/// Filtering a suffix one element longer puts that element in front when it passes.
pub proof fn lemma_filter_back_step<T>(s: Seq<T>, i: int, p: spec_fn(T) -> bool)
    requires
        0 < i <= s.len(),
    ensures
        s.subrange(i - 1, s.len() as int).filter(p) == if p(s[i - 1]) {
            seq![s[i - 1]] + s.subrange(i, s.len() as int).filter(p)
        } else {
            s.subrange(i, s.len() as int).filter(p)
        },
{
    let one = seq![s[i - 1]];
    assert(s.subrange(i - 1, s.len() as int) =~= one + s.subrange(i, s.len() as int));
    Seq::filter_distributes_over_add(one, s.subrange(i, s.len() as int), p);
    reveal_with_fuel(Seq::filter, 2);
    assert(one.drop_last() =~= Seq::<T>::empty());
    if p(s[i - 1]) {
        assert(one.filter(p) =~= one);
    } else {
        assert(one.filter(p) =~= Seq::<T>::empty());
    }
    assert(seq![s[i - 1]] + s.subrange(i, s.len() as int).filter(p) =~= one + s.subrange(i, s.len() as int).filter(p));
    assert(Seq::<T>::empty() + s.subrange(i, s.len() as int).filter(p) =~= s.subrange(i, s.len() as int).filter(p));
}

/// An ordered multimap from ranges to values. Entries are kept in key order; entries with
/// equal keys may coexist and keep the order in which they were inserted.
pub struct RangeIndex<V> {
    entries: Vec<(Range, V)>,
}

impl<V: View> View for RangeIndex<V> {
    type V = Seq<(RangeV, V::V)>;

    closed spec fn view(&self) -> Seq<(RangeV, V::V)> {
        self.entries@.map_values(|e: (Range, V)| (e.0@, e.1@))
    }
}

impl<V: View> RangeIndex<V> {
    pub open spec fn wf(&self) -> bool {
        index_wf(self@)
    }

    /// An empty index.
    pub fn new() -> (r: Self)
        ensures
            r@ == Seq::<(RangeV, V::V)>::empty(),
            r.wf(),
    {
        let r = RangeIndex { entries: Vec::new() };
        assert(r@ =~= Seq::<(RangeV, V::V)>::empty());
        r
    }

    /// Number of entries.
    pub fn len(&self) -> (n: usize)
        ensures
            n == self@.len(),
    {
        self.entries.len()
    }

    /// The key and value of entry `i`.
    pub fn get(&self, i: usize) -> (e: (Range, &V))
        requires
            i < self@.len(),
        ensures
            e.0@ == self@[i as int].0,
            e.1@ == self@[i as int].1,
    {
        let e = &self.entries[i];
        (e.0, &e.1)
    }

    /// Files `v` under `r`, after every entry whose key is not above `r`.
    pub fn insert(&mut self, r: Range, v: V)
        requires
            old(self).wf(),
            r.wf(),
        ensures
            final(self).wf(),
            exists|p: int|
                insert_point(old(self)@, p, r@) && final(self)@ == old(self)@.insert(p, (r@, v@)),
    {
        let ghost s = self@;
        let mut p: usize = 0;
        while p < self.entries.len() && (self.entries[p].0.min < r.min || (self.entries[p].0.min
            == r.min && self.entries[p].0.max <= r.max))
            invariant
                s == self@,
                index_wf(s),
                p <= s.len(),
                forall|j: int| 0 <= j < p ==> range_le(#[trigger] s[j].0, r@),
            decreases s.len() - p,
        {
            p = p + 1;
        }
        assert(insert_point(s, p as int, r@)) by {
            assert forall|j: int| p <= j < s.len() implies range_lt(r@, #[trigger] s[j].0) by {
                assert(range_lt(r@, s[p as int].0));
                if j > p {
                    assert(range_le(s[p as int].0, s[j].0));
                }
            }
        }
        self.entries.insert(p, (r, v));
        assert(self@ =~= s.insert(p as int, (r@, v@)));
        assert(index_wf(self@)) by {
            assert forall|i: int, j: int| 0 <= i < j < self@.len() implies range_le(
                #[trigger] self@[i].0,
                #[trigger] self@[j].0,
            ) by {
                if i < p && j > p {
                    assert(range_le(s[i].0, r@));
                    assert(range_lt(r@, s[j - 1].0));
                } else if i < p && j < p {
                    assert(range_le(s[i].0, s[j].0));
                } else if i > p {
                    assert(range_le(s[i - 1].0, s[j - 1].0));
                }
            }
        }
    }

    /// Takes entry `i` out of the index and hands it back.
    pub fn remove(&mut self, i: usize) -> (e: (Range, V))
        requires
            old(self).wf(),
            i < old(self)@.len(),
        ensures
            final(self).wf(),
            final(self)@ == old(self)@.remove(i as int),
            e.0@ == old(self)@[i as int].0,
            e.1@ == old(self)@[i as int].1,
            e.0.wf(),
    {
        let ghost s = self@;
        let e = self.entries.remove(i);
        assert(self@ =~= s.remove(i as int));
        assert(index_wf(self@)) by {
            assert forall|a: int, b: int| 0 <= a < b < self@.len() implies range_le(
                #[trigger] self@[a].0,
                #[trigger] self@[b].0,
            ) by {
                let a0 = if a < i { a } else { a + 1 };
                let b0 = if b < i { b } else { b + 1 };
                assert(range_le(s[a0].0, s[b0].0));
            }
        }
        e
    }

    /// The position of the first entry keyed exactly `r`, if there is one.
    pub fn find(&self, r: Range) -> (p: Option<usize>)
        ensures
            p matches Some(i) ==> i < self@.len() && self@[i as int].0 == r@ && forall|j: int|
                0 <= j < i ==> #[trigger] self@[j].0 != r@,
            p is None ==> forall|j: int| 0 <= j < self@.len() ==> #[trigger] self@[j].0 != r@,
    {
        let mut i: usize = 0;
        while i < self.entries.len()
            invariant
                i <= self@.len(),
                forall|j: int| 0 <= j < i ==> #[trigger] self@[j].0 != r@,
            decreases self@.len() - i,
        {
            if self.entries[i].0.min == r.min && self.entries[i].0.max == r.max {
                return Some(i);
            }
            i = i + 1;
        }
        None
    }
}

} // verus!
