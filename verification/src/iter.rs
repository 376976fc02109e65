//! Iterators over the entries of a map, from both ends.

use crate::cursor::Cursor;
use crate::node::Node;
use vstd::prelude::*;

verus! {

/// An iterator over the key-value pairs of a map, in order.
pub struct Iter<'a, K, V> {
    root: Option<&'a Node<K, V>>,
    cursor: Cursor,
    back_cursor: Cursor,
    length: usize,
    height: Ghost<nat>,
}

impl<'a, K, V> View for Iter<'a, K, V> {
    type V = Seq<(K, V)>;

    /// The entries that are still to come.
    closed spec fn view(&self) -> Seq<(K, V)> {
        if self.length == 0 {
            Seq::empty()
        } else {
            self.root->0.entries().subrange(
                self.cursor.at(*self.root->0),
                self.back_cursor.at(*self.root->0) + 1,
            )
        }
    }
}

impl<'a, K, V> Iter<'a, K, V> {
    /// The cursors are at the first and the last of the entries that are still to come.
    pub closed spec fn wf(&self) -> bool {
        self.length > 0 ==> {
            &&& self.root matches Some(root)
            &&& root.shaped(self.height@)
            &&& root.count() >= 1
            &&& self.cursor.attached(*root)
            &&& self.back_cursor.attached(*root)
            &&& self.cursor.at(*root) + self.length - 1 == self.back_cursor.at(*root)
            &&& self.back_cursor.at(*root) < root.entries().len()
        }
    }

    pub(crate) fn new(
        root: Option<&'a Node<K, V>>,
        length: usize,
        Ghost(h): Ghost<nat>,
    ) -> (iter: Self)
        requires
            match root {
                Some(node) => node.shaped(h) && node.count() >= 1 && length == node.entries().len(),
                None => length == 0,
            },
        ensures
            iter.wf(),
            iter@ == match root {
                Some(node) => node.entries(),
                None => Seq::empty(),
            },
    {
        match root {
            Some(node) => {
                proof {
                    crate::node::lemma_entries_len(*node, h);
                    assert(node.entries().subrange(0, node.entries().len() as int)
                        =~= node.entries());
                }
                let cursor = Cursor::new(node, Ghost(h));
                let back_cursor = Cursor::new_at_end(node, Ghost(h));
                Iter { root, cursor, back_cursor, length, height: Ghost(h) }
            },
            None => Iter {
                root,
                cursor: Cursor { path: Vec::new(), idx: 0 },
                back_cursor: Cursor { path: Vec::new(), idx: 0 },
                length: 0,
                height: Ghost(h),
            },
        }
    }

    /// Gets the next element without advancing the iterator.
    pub fn peek(&self) -> (r: Option<(&'a K, &'a V)>)
        requires
            self.wf(),
        ensures
            r == if self@.len() > 0 {
                Some((&self@[0].0, &self@[0].1))
            } else {
                None
            },
    {
        if self.length == 0 {
            return None;
        }
        Some(self.cursor.key_value(self.root.unwrap()))
    }

    /// Gets the next back element without advancing the back iterator.
    pub fn peek_back(&self) -> (r: Option<(&'a K, &'a V)>)
        requires
            self.wf(),
        ensures
            r == if self@.len() > 0 {
                Some((&self@.last().0, &self@.last().1))
            } else {
                None
            },
    {
        if self.length == 0 {
            return None;
        }
        Some(self.back_cursor.key_value(self.root.unwrap()))
    }

    /// Equivalent to `next` except that iteration must not be done.
    pub fn advance(&mut self)
        requires
            old(self).wf(),
            old(self)@.len() > 0,
        ensures
            final(self).wf(),
            final(self)@ == old(self)@.drop_first(),
    {
        self.length = self.length - 1;
        if self.length > 0 {
            self.cursor.advance(self.root.unwrap(), self.height);
        }
        assert(self@ =~= old(self)@.drop_first());
    }

    /// Equivalent to `next_back` except that iteration must not be done.
    pub fn advance_back(&mut self)
        requires
            old(self).wf(),
            old(self)@.len() > 0,
        ensures
            final(self).wf(),
            final(self)@ == old(self)@.drop_last(),
    {
        self.length = self.length - 1;
        if self.length > 0 {
            self.back_cursor.advance_back(self.root.unwrap(), self.height);
        }
        assert(self@ =~= old(self)@.drop_last());
    }

    /// Returns the next element and advances the iterator.
    pub fn next(&mut self) -> (r: Option<(&'a K, &'a V)>)
        requires
            old(self).wf(),
        ensures
            final(self).wf(),
            old(self)@.len() == 0 ==> r is None && final(self)@ == old(self)@,
            old(self)@.len() > 0 ==> r == Some((&old(self)@[0].0, &old(self)@[0].1))
                && final(self)@ == old(self)@.drop_first(),
    {
        let key_value = self.peek();
        if key_value.is_some() {
            self.advance();
        }
        key_value
    }

    /// Returns the last element and moves the back of the iterator before it.
    pub fn next_back(&mut self) -> (r: Option<(&'a K, &'a V)>)
        requires
            old(self).wf(),
        ensures
            final(self).wf(),
            old(self)@.len() == 0 ==> r is None && final(self)@ == old(self)@,
            old(self)@.len() > 0 ==> r == Some((&old(self)@.last().0, &old(self)@.last().1))
                && final(self)@ == old(self)@.drop_last(),
    {
        let key_value = self.peek_back();
        if key_value.is_some() {
            self.advance_back();
        }
        key_value
    }

    /// The number of elements that are still to come.
    pub fn len(&self) -> (n: usize)
        requires
            self.wf(),
        ensures
            n == self@.len(),
    {
        self.length
    }

    /// The number of elements that are still to come, as lower and upper bound.
    pub fn size_hint(&self) -> (r: (usize, Option<usize>))
        requires
            self.wf(),
        ensures
            r.0 == self@.len(),
            r.1 == Some(r.0),
    {
        (self.length, Some(self.length))
    }
}

/// An iterator over the keys of a map, in order.
pub struct Keys<'a, K, V>(Iter<'a, K, V>);

impl<'a, K, V> View for Keys<'a, K, V> {
    type V = Seq<K>;

    /// The keys that are still to come.
    closed spec fn view(&self) -> Seq<K> {
        self.0@.map_values(|entry: (K, V)| entry.0)
    }
}

impl<'a, K, V> Keys<'a, K, V> {
    /// The iterator is in a valid state.
    pub closed spec fn wf(&self) -> bool {
        self.0.wf()
    }

    pub(crate) fn new(iter: Iter<'a, K, V>) -> (r: Self)
        requires
            iter.wf(),
        ensures
            r.wf(),
            r@ == iter@.map_values(|entry: (K, V)| entry.0),
    {
        Keys(iter)
    }

    /// Returns the next element and advances the iterator.
    pub fn next(&mut self) -> (r: Option<&'a K>)
        requires
            old(self).wf(),
        ensures
            final(self).wf(),
            old(self)@.len() == 0 ==> r is None && final(self)@ == old(self)@,
            old(self)@.len() > 0 ==> r == Some(&old(self)@[0]) && final(self)@
                == old(self)@.drop_first(),
    {
        match self.0.next() {
            Some(entry) => {
                assert(self@ =~= old(self)@.drop_first());
                Some(entry.0)
            },
            None => None,
        }
    }

    /// Returns the last element and moves the back of the iterator before it.
    pub fn next_back(&mut self) -> (r: Option<&'a K>)
        requires
            old(self).wf(),
        ensures
            final(self).wf(),
            old(self)@.len() == 0 ==> r is None && final(self)@ == old(self)@,
            old(self)@.len() > 0 ==> r == Some(&old(self)@.last()) && final(self)@
                == old(self)@.drop_last(),
    {
        match self.0.next_back() {
            Some(entry) => {
                assert(self@ =~= old(self)@.drop_last());
                Some(entry.0)
            },
            None => None,
        }
    }

    /// The number of elements that are still to come.
    pub fn len(&self) -> (n: usize)
        requires
            self.wf(),
        ensures
            n == self@.len(),
    {
        self.0.len()
    }

    /// The number of elements that are still to come, as lower and upper bound.
    pub fn size_hint(&self) -> (r: (usize, Option<usize>))
        requires
            self.wf(),
        ensures
            r.0 == self@.len(),
            r.1 == Some(r.0),
    {
        self.0.size_hint()
    }
}

/// An iterator over the values of a map, in order.
pub struct Values<'a, K, V>(Iter<'a, K, V>);

impl<'a, K, V> View for Values<'a, K, V> {
    type V = Seq<V>;

    /// The values that are still to come.
    closed spec fn view(&self) -> Seq<V> {
        self.0@.map_values(|entry: (K, V)| entry.1)
    }
}

impl<'a, K, V> Values<'a, K, V> {
    /// The iterator is in a valid state.
    pub closed spec fn wf(&self) -> bool {
        self.0.wf()
    }

    pub(crate) fn new(iter: Iter<'a, K, V>) -> (r: Self)
        requires
            iter.wf(),
        ensures
            r.wf(),
            r@ == iter@.map_values(|entry: (K, V)| entry.1),
    {
        Values(iter)
    }

    /// Returns the next element and advances the iterator.
    pub fn next(&mut self) -> (r: Option<&'a V>)
        requires
            old(self).wf(),
        ensures
            final(self).wf(),
            old(self)@.len() == 0 ==> r is None && final(self)@ == old(self)@,
            old(self)@.len() > 0 ==> r == Some(&old(self)@[0]) && final(self)@
                == old(self)@.drop_first(),
    {
        match self.0.next() {
            Some(entry) => {
                assert(self@ =~= old(self)@.drop_first());
                Some(entry.1)
            },
            None => None,
        }
    }

    /// Returns the last element and moves the back of the iterator before it.
    pub fn next_back(&mut self) -> (r: Option<&'a V>)
        requires
            old(self).wf(),
        ensures
            final(self).wf(),
            old(self)@.len() == 0 ==> r is None && final(self)@ == old(self)@,
            old(self)@.len() > 0 ==> r == Some(&old(self)@.last()) && final(self)@
                == old(self)@.drop_last(),
    {
        match self.0.next_back() {
            Some(entry) => {
                assert(self@ =~= old(self)@.drop_last());
                Some(entry.1)
            },
            None => None,
        }
    }

    /// The number of elements that are still to come.
    pub fn len(&self) -> (n: usize)
        requires
            self.wf(),
        ensures
            n == self@.len(),
    {
        self.0.len()
    }

    /// The number of elements that are still to come, as lower and upper bound.
    pub fn size_hint(&self) -> (r: (usize, Option<usize>))
        requires
            self.wf(),
        ensures
            r.0 == self@.len(),
            r.1 == Some(r.0),
    {
        self.0.size_hint()
    }
}

} // verus!
