//! Ranges of keys, and iterators over the entries within them.

use crate::cursor::Cursor;
use crate::model::{lemma_rank_sorted, lookup, rank, rank_after};
use crate::node::{lemma_le_lt, lemma_lt_le, sorted, Node};
use crate::order::{
    is_after, is_before, is_sought, lawful_probe, total_order, Probe,
};
use vstd::prelude::*;

verus! {

/// One end of a range of keys.
pub enum Bound<T> {
    /// The range ends at this key and holds it.
    Included(T),
    /// The range ends at this key and does not hold it.
    Excluded(T),
    /// The range has no end on this side.
    Unbounded,
}

/// `key` is in the range between the two bounds.
pub open spec fn in_range<K, Q: Probe<K>>(key: K, start: Bound<&Q>, end: Bound<&Q>) -> bool {
    &&& match start {
        Bound::Included(k) => !is_before(key, *k),
        Bound::Excluded(k) => is_after(key, *k),
        Bound::Unbounded => true,
    }
    &&& match end {
        Bound::Included(k) => !is_after(key, *k),
        Bound::Excluded(k) => is_before(key, *k),
        Bound::Unbounded => true,
    }
}

/// The bound is at what a lawful probe looks for.
pub open spec fn lawful_bound<K: Ord, Q: Probe<K>>(bound: Bound<&Q>) -> bool {
    match bound {
        Bound::Included(k) => lawful_probe::<K, Q>(*k),
        Bound::Excluded(k) => lawful_probe::<K, Q>(*k),
        Bound::Unbounded => true,
    }
}

/// The number of entries before the range that starts at `start`.
pub open spec fn range_start<K, V, Q: Probe<K>>(s: Seq<(K, V)>, start: Bound<&Q>) -> int {
    match start {
        Bound::Included(k) => rank(s, *k) as int,
        Bound::Excluded(k) => rank_after(s, *k) as int,
        Bound::Unbounded => 0,
    }
}

/// The number of entries that are not beyond the range that ends at `end`.
pub open spec fn range_stop<K, V, Q: Probe<K>>(s: Seq<(K, V)>, end: Bound<&Q>) -> int {
    match end {
        Bound::Included(k) => rank_after(s, *k) as int,
        Bound::Excluded(k) => rank(s, *k) as int,
        Bound::Unbounded => s.len() as int,
    }
}

/// The entries whose keys are in the range, in order.
pub open spec fn range_entries<K, V, Q: Probe<K>>(
    s: Seq<(K, V)>,
    start: Bound<&Q>,
    end: Bound<&Q>,
) -> Seq<(K, V)> {
    if range_start(s, start) < range_stop(s, end) {
        s.subrange(range_start(s, start), range_stop(s, end))
    } else {
        Seq::empty()
    }
}

/// The place that divides the entries not after `key` from the others is their number.
pub proof fn lemma_rank_after<K, V, Q: Probe<K>>(s: Seq<(K, V)>, key: Q, at: int)
    requires
        0 <= at <= s.len(),
        forall|i: int| 0 <= i < at ==> !is_after((#[trigger] s[i]).0, key),
        forall|i: int| at <= i < s.len() ==> is_after((#[trigger] s[i]).0, key),
    ensures
        rank_after(s, key) == at,
    decreases s.len(),
{
    if s.len() > 0 {
        let init = s.drop_last();
        assert forall|i: int| 0 <= i < init.len() implies init[i] == #[trigger] s[i] by {}
        assert(s.last() == s[s.len() - 1]);
        if at == s.len() {
            lemma_rank_after(init, key, at - 1);
        } else {
            lemma_rank_after(init, key, at);
        }
    }
}

/// The entry that `key` looks for, if there is one, is the only one that comes neither before nor
/// after it.
pub proof fn lemma_rank_after_lookup<K: Ord, V, Q: Probe<K>>(s: Seq<(K, V)>, key: Q)
    requires
        total_order::<K>(),
        lawful_probe(key),
        sorted(s),
    ensures
        rank_after(s, key) == match lookup(s, key) {
            Some(at) => at + 1,
            None => rank(s, key) as int,
        },
{
    lemma_rank_sorted(s, key);
    match lookup(s, key) {
        Some(at) => lemma_rank_after(s, key, at + 1),
        None => lemma_rank_after(s, key, rank(s, key) as int),
    }
}

/// In a sorted sequence the entries that do not come after `key` come first.
pub proof fn lemma_rank_after_sorted<K: Ord, V, Q: Probe<K>>(s: Seq<(K, V)>, key: Q)
    requires
        total_order::<K>(),
        lawful_probe(key),
        sorted(s),
    ensures
        rank_after(s, key) <= s.len(),
        forall|i: int| 0 <= i < rank_after(s, key) ==> !is_after((#[trigger] s[i]).0, key),
        forall|i: int| rank_after(s, key) <= i < s.len() ==> is_after((#[trigger] s[i]).0, key),
{
    lemma_rank_sorted(s, key);
    lemma_rank_after_lookup(s, key);
}

/// Picking out the entries that satisfy `p`, where these stand together, is cutting them out.
proof fn lemma_filter_run<A>(s: Seq<A>, p: spec_fn(A) -> bool, lo: int, hi: int)
    requires
        0 <= lo <= hi <= s.len(),
        forall|i: int| 0 <= i < s.len() ==> (p(#[trigger] s[i]) <==> lo <= i < hi),
    ensures
        s.filter(p) == s.subrange(lo, hi),
    decreases s.len(),
{
    reveal(Seq::filter);
    if s.len() == 0 {
        assert(s.filter(p) =~= s.subrange(lo, hi));
    } else {
        let init = s.drop_last();
        let n = init.len() as int;
        assert forall|i: int| 0 <= i < n implies (p(#[trigger] init[i]) <==> lo <= i < hi) by {
            assert(init[i] == s[i]);
        }
        assert(p(s[n]) <==> lo <= n < hi);
        if hi == s.len() && lo < hi {
            lemma_filter_run(init, p, lo, n);
            assert(s.subrange(lo, hi) =~= init.subrange(lo, n).push(s[n]));
        } else if hi == s.len() {
            lemma_filter_run(init, p, n, n);
            assert(s.subrange(lo, hi) =~= init.subrange(n, n));
        } else {
            lemma_filter_run(init, p, lo, hi);
            assert(s.subrange(lo, hi) =~= init.subrange(lo, hi));
        }
    }
}

/// The entries of a range are exactly those of the map whose keys are in it.
pub proof fn lemma_range_entries<K: Ord, V, Q: Probe<K>>(
    s: Seq<(K, V)>,
    start: Bound<&Q>,
    end: Bound<&Q>,
)
    requires
        total_order::<K>(),
        lawful_bound::<K, Q>(start),
        lawful_bound::<K, Q>(end),
        sorted(s),
    ensures
        0 <= range_start(s, start) <= s.len(),
        0 <= range_stop(s, end) <= s.len(),
        range_entries(s, start, end) == s.filter(|entry: (K, V)| in_range(entry.0, start, end)),
{
    lemma_range_positions(s, start, end);
    let lo = range_start(s, start);
    let hi = range_stop(s, end);
    let p = |entry: (K, V)| in_range(entry.0, start, end);
    assert forall|i: int| 0 <= i < s.len() implies (p(#[trigger] s[i]) <==> lo <= i < hi) by {}
    if lo < hi {
        lemma_filter_run(s, p, lo, hi);
    } else {
        lemma_filter_run(s, p, lo, lo);
        assert(s.subrange(lo, lo) =~= Seq::empty());
    }
}

/// The keys in a range are those from its start to its stop.
pub proof fn lemma_range_positions<K: Ord, V, Q: Probe<K>>(
    s: Seq<(K, V)>,
    start: Bound<&Q>,
    end: Bound<&Q>,
)
    requires
        total_order::<K>(),
        lawful_bound::<K, Q>(start),
        lawful_bound::<K, Q>(end),
        sorted(s),
    ensures
        0 <= range_start(s, start) <= s.len(),
        0 <= range_stop(s, end) <= s.len(),
        forall|i: int|
            0 <= i < s.len() ==> (in_range((#[trigger] s[i]).0, start, end) <==> range_start(
                s,
                start,
            ) <= i < range_stop(s, end)),
{
    match start {
        Bound::Included(k) => lemma_rank_sorted(s, *k),
        Bound::Excluded(k) => lemma_rank_after_sorted(s, *k),
        Bound::Unbounded => {},
    }
    match end {
        Bound::Included(k) => lemma_rank_after_sorted(s, *k),
        Bound::Excluded(k) => lemma_rank_sorted(s, *k),
        Bound::Unbounded => {},
    }
}

/// An iterator over the key-value pairs of a map within a range, in order.
pub struct Range<'a, K, V> {
    root: Option<&'a Node<K, V>>,
    cursors: Option<(Cursor, Cursor)>,
    height: Ghost<nat>,
}

impl<'a, K, V> View for Range<'a, K, V> {
    type V = Seq<(K, V)>;

    /// The entries that are still to come.
    closed spec fn view(&self) -> Seq<(K, V)> {
        match self.cursors {
            Some((cursor, back_cursor)) => self.root->0.entries().subrange(
                cursor.at(*self.root->0),
                back_cursor.at(*self.root->0) + 1,
            ),
            None => Seq::empty(),
        }
    }
}

impl<'a, K, V> Range<'a, K, V> {
    /// The cursors, while there are any, are at the first and the last of the entries that are
    /// still to come.
    pub closed spec fn wf(&self) -> bool {
        self.cursors matches Some((cursor, back_cursor)) ==> {
            &&& self.root matches Some(root)
            &&& root.shaped(self.height@)
            &&& root.count() >= 1
            &&& cursor.attached(*root)
            &&& back_cursor.attached(*root)
            &&& 0 <= cursor.at(*root) <= back_cursor.at(*root) < root.entries().len()
        }
    }

    pub(crate) fn new(
        root: Option<&'a Node<K, V>>,
        bounds: Option<(Cursor, Cursor)>,
        Ghost(h): Ghost<nat>,
    ) -> (range: Self)
        requires
            bounds matches Some((cursor, back_cursor)) ==> {
                &&& root matches Some(node)
                &&& node.shaped(h)
                &&& node.count() >= 1
                &&& cursor.attached(*node)
                &&& back_cursor.attached(*node)
                &&& 0 <= cursor.at(*node) <= back_cursor.at(*node) < node.entries().len()
            },
        ensures
            range.wf(),
            range@ == match bounds {
                Some((cursor, back_cursor)) => root->0.entries().subrange(
                    cursor.at(*root->0),
                    back_cursor.at(*root->0) + 1,
                ),
                None => Seq::empty(),
            },
    {
        Range { root, cursors: bounds, height: Ghost(h) }
    }

    /// Gets the next element without advancing the iterator.
    pub fn peek(&self) -> (r: Option<(&'a K, &'a V)>)
        requires
            self.wf(),
        ensures
            r == if self@.len() > 0 {
                Some((&self@[0].0, &self@[0].1))
            } else {
                None
            },
    {
        match &self.cursors {
            Some((cursor, _)) => Some(cursor.key_value(self.root.unwrap())),
            None => None,
        }
    }

    /// Gets the next back element without advancing the back iterator.
    pub fn peek_back(&self) -> (r: Option<(&'a K, &'a V)>)
        requires
            self.wf(),
        ensures
            r == if self@.len() > 0 {
                Some((&self@.last().0, &self@.last().1))
            } else {
                None
            },
    {
        match &self.cursors {
            Some((_, back_cursor)) => Some(back_cursor.key_value(self.root.unwrap())),
            None => None,
        }
    }

    /// Equivalent to `next` except that iteration must not be done.
    pub fn advance(&mut self)
        requires
            old(self).wf(),
            old(self)@.len() > 0,
        ensures
            final(self).wf(),
            final(self)@ == old(self)@.drop_first(),
    {
        let ghost root = *self.root->0;
        if let Some((mut cursor, back_cursor)) = self.cursors.take() {
            if !cursor.same_place::<K, V>(&back_cursor, Ghost(root)) {
                cursor.advance(self.root.unwrap(), self.height);
                self.cursors = Some((cursor, back_cursor));
            }
        }
        assert(self@ =~= old(self)@.drop_first());
    }

    /// Equivalent to `next_back` except that iteration must not be done.
    pub fn advance_back(&mut self)
        requires
            old(self).wf(),
            old(self)@.len() > 0,
        ensures
            final(self).wf(),
            final(self)@ == old(self)@.drop_last(),
    {
        let ghost root = *self.root->0;
        if let Some((cursor, mut back_cursor)) = self.cursors.take() {
            if !cursor.same_place::<K, V>(&back_cursor, Ghost(root)) {
                back_cursor.advance_back(self.root.unwrap(), self.height);
                self.cursors = Some((cursor, back_cursor));
            }
        }
        assert(self@ =~= old(self)@.drop_last());
    }

    /// Returns the next element and advances the iterator.
    pub fn next(&mut self) -> (r: Option<(&'a K, &'a V)>)
        requires
            old(self).wf(),
        ensures
            final(self).wf(),
            old(self)@.len() == 0 ==> r is None && final(self)@ == old(self)@,
            old(self)@.len() > 0 ==> r == Some((&old(self)@[0].0, &old(self)@[0].1))
                && final(self)@ == old(self)@.drop_first(),
    {
        let key_value = self.peek();
        if key_value.is_some() {
            self.advance();
        }
        key_value
    }

    /// Returns the last element and moves the back of the iterator before it.
    pub fn next_back(&mut self) -> (r: Option<(&'a K, &'a V)>)
        requires
            old(self).wf(),
        ensures
            final(self).wf(),
            old(self)@.len() == 0 ==> r is None && final(self)@ == old(self)@,
            old(self)@.len() > 0 ==> r == Some((&old(self)@.last().0, &old(self)@.last().1))
                && final(self)@ == old(self)@.drop_last(),
    {
        let key_value = self.peek_back();
        if key_value.is_some() {
            self.advance_back();
        }
        key_value
    }
}

/// An iterator over the keys of a map within a range, in order.
pub struct RangeKeys<'a, K, V>(Range<'a, K, V>);

impl<'a, K, V> View for RangeKeys<'a, K, V> {
    type V = Seq<K>;

    /// The keys that are still to come.
    closed spec fn view(&self) -> Seq<K> {
        self.0@.map_values(|entry: (K, V)| entry.0)
    }
}

impl<'a, K, V> RangeKeys<'a, K, V> {
    /// The iterator is in a valid state.
    pub closed spec fn wf(&self) -> bool {
        self.0.wf()
    }

    pub(crate) fn new(range: Range<'a, K, V>) -> (r: Self)
        requires
            range.wf(),
        ensures
            r.wf(),
            r@ == range@.map_values(|entry: (K, V)| entry.0),
    {
        RangeKeys(range)
    }

    /// Returns the next element and advances the iterator.
    pub fn next(&mut self) -> (r: Option<&'a K>)
        requires
            old(self).wf(),
        ensures
            final(self).wf(),
            old(self)@.len() == 0 ==> r is None && final(self)@ == old(self)@,
            old(self)@.len() > 0 ==> r == Some(&old(self)@[0]) && final(self)@
                == old(self)@.drop_first(),
    {
        match self.0.next() {
            Some(entry) => {
                assert(self@ =~= old(self)@.drop_first());
                Some(entry.0)
            },
            None => None,
        }
    }
}

/// An iterator over the values of a map within a range, in order.
pub struct RangeValues<'a, K, V>(Range<'a, K, V>);

impl<'a, K, V> View for RangeValues<'a, K, V> {
    type V = Seq<V>;

    /// The values that are still to come.
    closed spec fn view(&self) -> Seq<V> {
        self.0@.map_values(|entry: (K, V)| entry.1)
    }
}

impl<'a, K, V> RangeValues<'a, K, V> {
    /// The iterator is in a valid state.
    pub closed spec fn wf(&self) -> bool {
        self.0.wf()
    }

    pub(crate) fn new(range: Range<'a, K, V>) -> (r: Self)
        requires
            range.wf(),
        ensures
            r.wf(),
            r@ == range@.map_values(|entry: (K, V)| entry.1),
    {
        RangeValues(range)
    }

    /// Returns the next element and advances the iterator.
    pub fn next(&mut self) -> (r: Option<&'a V>)
        requires
            old(self).wf(),
        ensures
            final(self).wf(),
            old(self)@.len() == 0 ==> r is None && final(self)@ == old(self)@,
            old(self)@.len() > 0 ==> r == Some(&old(self)@[0]) && final(self)@
                == old(self)@.drop_first(),
    {
        match self.0.next() {
            Some(entry) => {
                assert(self@ =~= old(self)@.drop_first());
                Some(entry.1)
            },
            None => None,
        }
    }
}

} // verus!
