//! Iterators over the entries of a map whose values are open to change, from both ends.

use crate::collect::Slot;
use vstd::prelude::*;

verus! {

/// An iterator over the key-value pairs of a map, in order. Values are mutable.
pub struct IterMut<'a, K, V> {
    slots: Vec<Slot<'a, K, V>>,
    front: usize,
    back: usize,
}

impl<'a, K, V> View for IterMut<'a, K, V> {
    type V = Seq<(&'a K, &'a mut V)>;

    /// The entries that are still to come.
    closed spec fn view(&self) -> Seq<(&'a K, &'a mut V)> {
        Seq::new((self.back - self.front) as nat, |i: int| self.slots@[self.front + i]->0)
    }
}

impl<'a, K, V> IterMut<'a, K, V> {
    /// The entries that are still to come have not been handed out.
    pub closed spec fn wf(&self) -> bool {
        &&& self.front <= self.back <= self.slots@.len()
        &&& forall|i: int| self.front <= i < self.back ==> (#[trigger] self.slots@[i]) is Some
    }

    pub(crate) fn new(slots: Vec<Slot<'a, K, V>>) -> (iter: Self)
        requires
            forall|i: int| 0 <= i < slots@.len() ==> (#[trigger] slots@[i]) is Some,
        ensures
            iter.wf(),
            iter@.len() == slots@.len(),
            forall|i: int| 0 <= i < slots@.len() ==> #[trigger] iter@[i] == slots@[i]->0,
    {
        let back: usize = slots.len();
        IterMut { slots, front: 0, back }
    }

    /// Gets the next element without advancing the iterator.
    pub fn peek(&self) -> (r: Option<(&K, &V)>)
        requires
            self.wf(),
        ensures
            self@.len() == 0 ==> r is None,
            self@.len() > 0 ==> r == Some((self@[0].0, &*self@[0].1)),
    {
        if self.front == self.back {
            return None;
        }
        match &self.slots[self.front] {
            Some((key, val)) => Some((*key, &**val)),
            None => None,
        }
    }

    /// Gets the next back element without advancing the back iterator.
    pub fn peek_back(&self) -> (r: Option<(&K, &V)>)
        requires
            self.wf(),
        ensures
            self@.len() == 0 ==> r is None,
            self@.len() > 0 ==> r == Some((self@.last().0, &*self@.last().1)),
    {
        if self.front == self.back {
            return None;
        }
        match &self.slots[self.back - 1] {
            Some((key, val)) => Some((*key, &**val)),
            None => None,
        }
    }

    /// Gets the next element without advancing the iterator, with the value mutable.
    pub fn peek_mut(&mut self) -> (r: Option<(&K, &mut V)>)
        requires
            old(self).wf(),
        ensures
            final(self).wf(),
            final(self)@.len() == old(self)@.len(),
            forall|i: int|
                0 < i < old(self)@.len() ==> #[trigger] final(self)@[i] == old(self)@[i],
            old(self)@.len() == 0 ==> r is None,
            old(self)@.len() > 0 ==> {
                &&& r matches Some((key, val))
                &&& key == old(self)@[0].0
                &&& *val == *old(self)@[0].1
                &&& final(self)@[0].0 == old(self)@[0].0
                &&& *final(self)@[0].1 == *final(val)
                &&& *final(final(self)@[0].1) == *final(old(self)@[0].1)
            },
    {
        if self.front == self.back {
            return None;
        }
        match &mut self.slots[self.front] {
            Some((key, val)) => Some((*key, &mut **val)),
            None => None,
        }
    }

    /// Gets the next back element without advancing the back iterator, with the value
    /// mutable.
    pub fn peek_back_mut(&mut self) -> (r: Option<(&K, &mut V)>)
        requires
            old(self).wf(),
        ensures
            final(self).wf(),
            final(self)@.len() == old(self)@.len(),
            forall|i: int|
                0 <= i < old(self)@.len() - 1 ==> #[trigger] final(self)@[i] == old(self)@[i],
            old(self)@.len() == 0 ==> r is None,
            old(self)@.len() > 0 ==> {
                &&& r matches Some((key, val))
                &&& key == old(self)@.last().0
                &&& *val == *old(self)@.last().1
                &&& final(self)@.last().0 == old(self)@.last().0
                &&& *final(self)@.last().1 == *final(val)
                &&& *final(final(self)@.last().1) == *final(old(self)@.last().1)
            },
    {
        if self.front == self.back {
            return None;
        }
        match &mut self.slots[self.back - 1] {
            Some((key, val)) => Some((*key, &mut **val)),
            None => None,
        }
    }

    /// Equivalent to `next` except that iteration must not be done. The value
    /// that is passed over stays as it is.
    pub fn advance(&mut self)
        requires
            old(self).wf(),
            old(self)@.len() > 0,
        ensures
            final(self).wf(),
            final(self)@ == old(self)@.drop_first(),
            *final(old(self)@[0].1) == *old(self)@[0].1,
    {
        let skipped = self.next();
        assert(has_resolved(skipped));
    }

    /// Equivalent to `next_back` except that iteration must not be done. The value
    /// that is passed over stays as it is.
    pub fn advance_back(&mut self)
        requires
            old(self).wf(),
            old(self)@.len() > 0,
        ensures
            final(self).wf(),
            final(self)@ == old(self)@.drop_last(),
            *final(old(self)@.last().1) == *old(self)@.last().1,
    {
        let skipped = self.next_back();
        assert(has_resolved(skipped));
    }

    /// Returns the next element and advances the iterator.
    pub fn next(&mut self) -> (r: Option<(&'a K, &'a mut V)>)
        requires
            old(self).wf(),
        ensures
            final(self).wf(),
            old(self)@.len() == 0 ==> r is None && final(self)@ == old(self)@,
            old(self)@.len() > 0 ==> r == Some(old(self)@[0]) && final(self)@
                == old(self)@.drop_first(),
    {
        if self.front == self.back {
            return None;
        }
        let key_value = self.slots[self.front].take();
        self.front = self.front + 1;
        assert(self@ =~= old(self)@.drop_first());
        key_value
    }

    /// Returns the last element and moves the back of the iterator before it.
    pub fn next_back(&mut self) -> (r: Option<(&'a K, &'a mut V)>)
        requires
            old(self).wf(),
        ensures
            final(self).wf(),
            old(self)@.len() == 0 ==> r is None && final(self)@ == old(self)@,
            old(self)@.len() > 0 ==> r == Some(old(self)@.last()) && final(self)@
                == old(self)@.drop_last(),
    {
        if self.front == self.back {
            return None;
        }
        self.back = self.back - 1;
        let key_value = self.slots[self.back].take();
        assert(self@ =~= old(self)@.drop_last());
        key_value
    }

    /// The number of elements that are still to come.
    pub fn len(&self) -> (n: usize)
        requires
            self.wf(),
        ensures
            n == self@.len(),
    {
        self.back - self.front
    }

    /// The number of elements that are still to come, as lower and upper bound.
    pub fn size_hint(&self) -> (r: (usize, Option<usize>))
        requires
            self.wf(),
        ensures
            r.0 == self@.len(),
            r.1 == Some(r.0),
    {
        (self.len(), Some(self.len()))
    }
}

/// Once an iterator is done with, the values that it has not handed out stay as they are.
pub broadcast proof fn lemma_iter_mut_released<'a, K, V>(iter: IterMut<'a, K, V>)
    requires
        #[trigger] has_resolved(iter),
        iter.wf(),
    ensures
        forall|i: int|
            0 <= i < iter@.len() ==> *final((#[trigger] iter@[i]).1) == *iter@[i].1,
{
    assert forall|i: int| 0 <= i < iter@.len() implies *final((#[trigger] iter@[i]).1)
        == *iter@[i].1 by {
        assert(has_resolved(iter.slots@[iter.front + i]));
    }
}

/// An iterator over the values of a map, in order. Values are mutable.
pub struct ValuesMut<'a, K, V>(IterMut<'a, K, V>);

impl<'a, K, V> View for ValuesMut<'a, K, V> {
    type V = Seq<&'a mut V>;

    /// The values that are still to come.
    closed spec fn view(&self) -> Seq<&'a mut V> {
        self.0@.map_values(|entry: (&'a K, &'a mut V)| entry.1)
    }
}

impl<'a, K, V> ValuesMut<'a, K, V> {
    /// The values that are still to come have not been handed out.
    pub closed spec fn wf(&self) -> bool {
        self.0.wf()
    }

    pub(crate) fn new(iter: IterMut<'a, K, V>) -> (r: Self)
        requires
            iter.wf(),
        ensures
            r.wf(),
            r@.len() == iter@.len(),
            forall|i: int| 0 <= i < iter@.len() ==> #[trigger] r@[i] == iter@[i].1,
    {
        ValuesMut(iter)
    }

    /// Returns the next element and advances the iterator.
    pub fn next(&mut self) -> (r: Option<&'a mut V>)
        requires
            old(self).wf(),
        ensures
            final(self).wf(),
            old(self)@.len() == 0 ==> r is None && final(self)@ == old(self)@,
            old(self)@.len() > 0 ==> r == Some(old(self)@[0]) && final(self)@
                == old(self)@.drop_first(),
    {
        match self.0.next() {
            Some(entry) => {
                assert(self@ =~= old(self)@.drop_first());
                let val = Some(entry.1);
                val
            },
            None => None,
        }
    }

    /// Returns the last element and moves the back of the iterator before it.
    pub fn next_back(&mut self) -> (r: Option<&'a mut V>)
        requires
            old(self).wf(),
        ensures
            final(self).wf(),
            old(self)@.len() == 0 ==> r is None && final(self)@ == old(self)@,
            old(self)@.len() > 0 ==> r == Some(old(self)@.last()) && final(self)@
                == old(self)@.drop_last(),
    {
        match self.0.next_back() {
            Some(entry) => {
                assert(self@ =~= old(self)@.drop_last());
                let val = Some(entry.1);
                val
            },
            None => None,
        }
    }

    /// The number of elements that are still to come.
    pub fn len(&self) -> (n: usize)
        requires
            self.wf(),
        ensures
            n == self@.len(),
    {
        self.0.len()
    }

    /// The number of elements that are still to come, as lower and upper bound.
    pub fn size_hint(&self) -> (r: (usize, Option<usize>))
        requires
            self.wf(),
        ensures
            r.0 == self@.len(),
            r.1 == Some(r.0),
    {
        self.0.size_hint()
    }
}

/// Once an iterator is done with, the values that it has not handed out stay as they are.
pub broadcast proof fn lemma_values_mut_released<'a, K, V>(values: ValuesMut<'a, K, V>)
    requires
        #[trigger] has_resolved(values),
        values.wf(),
    ensures
        forall|i: int| 0 <= i < values@.len() ==> *final(#[trigger] values@[i]) == *values@[i],
{
    lemma_iter_mut_released(values.0);
    assert forall|i: int| 0 <= i < values@.len() implies *final(#[trigger] values@[i])
        == *values@[i] by {
        assert(values@[i] == values.0@[i].1);
    }
}

/// An iterator over the key-value pairs of a map within a range, in order. Values are mutable.
pub struct RangeMut<'a, K, V>(IterMut<'a, K, V>);

impl<'a, K, V> View for RangeMut<'a, K, V> {
    type V = Seq<(&'a K, &'a mut V)>;

    /// The entries that are still to come.
    closed spec fn view(&self) -> Seq<(&'a K, &'a mut V)> {
        self.0@
    }
}

impl<'a, K, V> RangeMut<'a, K, V> {
    /// The entries that are still to come have not been handed out.
    pub closed spec fn wf(&self) -> bool {
        self.0.wf()
    }

    pub(crate) fn new(slots: Vec<Slot<'a, K, V>>) -> (range: Self)
        requires
            forall|i: int| 0 <= i < slots@.len() ==> (#[trigger] slots@[i]) is Some,
        ensures
            range.wf(),
            range@.len() == slots@.len(),
            forall|i: int| 0 <= i < slots@.len() ==> #[trigger] range@[i] == slots@[i]->0,
    {
        RangeMut(IterMut::new(slots))
    }

    /// Gets the next element without advancing the iterator.
    pub fn peek(&self) -> (r: Option<(&K, &V)>)
        requires
            self.wf(),
        ensures
            self@.len() == 0 ==> r is None,
            self@.len() > 0 ==> r == Some((self@[0].0, &*self@[0].1)),
    {
        self.0.peek()
    }

    /// Gets the next back element without advancing the back iterator.
    pub fn peek_back(&self) -> (r: Option<(&K, &V)>)
        requires
            self.wf(),
        ensures
            self@.len() == 0 ==> r is None,
            self@.len() > 0 ==> r == Some((self@.last().0, &*self@.last().1)),
    {
        self.0.peek_back()
    }

    /// Gets the next element without advancing the iterator, with the value mutable.
    pub fn peek_mut(&mut self) -> (r: Option<(&K, &mut V)>)
        requires
            old(self).wf(),
        ensures
            final(self).wf(),
            final(self)@.len() == old(self)@.len(),
            forall|i: int|
                0 < i < old(self)@.len() ==> #[trigger] final(self)@[i] == old(self)@[i],
            old(self)@.len() == 0 ==> r is None,
            old(self)@.len() > 0 ==> {
                &&& r matches Some((key, val))
                &&& key == old(self)@[0].0
                &&& *val == *old(self)@[0].1
                &&& final(self)@[0].0 == old(self)@[0].0
                &&& *final(self)@[0].1 == *final(val)
                &&& *final(final(self)@[0].1) == *final(old(self)@[0].1)
            },
    {
        self.0.peek_mut()
    }

    /// Gets the next back element without advancing the back iterator, with the value
    /// mutable.
    pub fn peek_back_mut(&mut self) -> (r: Option<(&K, &mut V)>)
        requires
            old(self).wf(),
        ensures
            final(self).wf(),
            final(self)@.len() == old(self)@.len(),
            forall|i: int|
                0 <= i < old(self)@.len() - 1 ==> #[trigger] final(self)@[i] == old(self)@[i],
            old(self)@.len() == 0 ==> r is None,
            old(self)@.len() > 0 ==> {
                &&& r matches Some((key, val))
                &&& key == old(self)@.last().0
                &&& *val == *old(self)@.last().1
                &&& final(self)@.last().0 == old(self)@.last().0
                &&& *final(self)@.last().1 == *final(val)
                &&& *final(final(self)@.last().1) == *final(old(self)@.last().1)
            },
    {
        self.0.peek_back_mut()
    }

    /// Equivalent to `next` except that iteration must not be done. The value
    /// that is passed over stays as it is.
    pub fn advance(&mut self)
        requires
            old(self).wf(),
            old(self)@.len() > 0,
        ensures
            final(self).wf(),
            final(self)@ == old(self)@.drop_first(),
            *final(old(self)@[0].1) == *old(self)@[0].1,
    {
        self.0.advance()
    }

    /// Equivalent to `next_back` except that iteration must not be done. The value
    /// that is passed over stays as it is.
    pub fn advance_back(&mut self)
        requires
            old(self).wf(),
            old(self)@.len() > 0,
        ensures
            final(self).wf(),
            final(self)@ == old(self)@.drop_last(),
            *final(old(self)@.last().1) == *old(self)@.last().1,
    {
        self.0.advance_back()
    }

    /// Returns the next element and advances the iterator.
    pub fn next(&mut self) -> (r: Option<(&'a K, &'a mut V)>)
        requires
            old(self).wf(),
        ensures
            final(self).wf(),
            old(self)@.len() == 0 ==> r is None && final(self)@ == old(self)@,
            old(self)@.len() > 0 ==> r == Some(old(self)@[0]) && final(self)@
                == old(self)@.drop_first(),
    {
        self.0.next()
    }

    /// Returns the last element and moves the back of the iterator before it.
    pub fn next_back(&mut self) -> (r: Option<(&'a K, &'a mut V)>)
        requires
            old(self).wf(),
        ensures
            final(self).wf(),
            old(self)@.len() == 0 ==> r is None && final(self)@ == old(self)@,
            old(self)@.len() > 0 ==> r == Some(old(self)@.last()) && final(self)@
                == old(self)@.drop_last(),
    {
        self.0.next_back()
    }
}

/// Once an iterator is done with, the values that it has not handed out stay as they are.
pub broadcast proof fn lemma_range_mut_released<'a, K, V>(range: RangeMut<'a, K, V>)
    requires
        #[trigger] has_resolved(range),
        range.wf(),
    ensures
        forall|i: int|
            0 <= i < range@.len() ==> *final((#[trigger] range@[i]).1) == *range@[i].1,
{
    lemma_iter_mut_released(range.0);
}

/// An iterator over the values of a map within a range, in order. Values are mutable.
pub struct RangeValuesMut<'a, K, V>(RangeMut<'a, K, V>);

impl<'a, K, V> View for RangeValuesMut<'a, K, V> {
    type V = Seq<&'a mut V>;

    /// The values that are still to come.
    closed spec fn view(&self) -> Seq<&'a mut V> {
        self.0@.map_values(|entry: (&'a K, &'a mut V)| entry.1)
    }
}

impl<'a, K, V> RangeValuesMut<'a, K, V> {
    /// The values that are still to come have not been handed out.
    pub closed spec fn wf(&self) -> bool {
        self.0.wf()
    }

    pub(crate) fn new(range: RangeMut<'a, K, V>) -> (r: Self)
        requires
            range.wf(),
        ensures
            r.wf(),
            r@.len() == range@.len(),
            forall|i: int| 0 <= i < range@.len() ==> #[trigger] r@[i] == range@[i].1,
    {
        RangeValuesMut(range)
    }

    /// Returns the next element and advances the iterator.
    pub fn next(&mut self) -> (r: Option<&'a mut V>)
        requires
            old(self).wf(),
        ensures
            final(self).wf(),
            old(self)@.len() == 0 ==> r is None && final(self)@ == old(self)@,
            old(self)@.len() > 0 ==> r == Some(old(self)@[0]) && final(self)@
                == old(self)@.drop_first(),
    {
        match self.0.next() {
            Some(entry) => {
                assert(self@ =~= old(self)@.drop_first());
                let val = Some(entry.1);
                val
            },
            None => None,
        }
    }
}

/// Once an iterator is done with, the values that it has not handed out stay as they are.
pub broadcast proof fn lemma_range_values_mut_released<'a, K, V>(values: RangeValuesMut<'a, K, V>)
    requires
        #[trigger] has_resolved(values),
        values.wf(),
    ensures
        forall|i: int| 0 <= i < values@.len() ==> *final(#[trigger] values@[i]) == *values@[i],
{
    lemma_range_mut_released(values.0);
    assert forall|i: int| 0 <= i < values@.len() implies *final(#[trigger] values@[i])
        == *values@[i] by {
        assert(values@[i] == values.0@[i].1);
    }
}

/// What holds of the values that iterators have not handed out, for use in proofs about code that
/// changes values.
pub broadcast group group_released {
    lemma_iter_mut_released,
    lemma_values_mut_released,
    lemma_range_mut_released,
    lemma_range_values_mut_released,
}

} // verus!
