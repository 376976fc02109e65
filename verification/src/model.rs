//! What a map is: a sequence of entries whose keys are strictly increasing, and what looking
//! up, inserting and removing mean for such a sequence.

use crate::node::{lemma_lt_le, sorted};
use crate::order::{
    is_after, is_before, is_sought, key_eq, key_le, key_lt, lawful_probe, lemma_after, lemma_before,
    lemma_key_probe, total_order, Probe,
};
use vstd::prelude::*;

verus! {

/// The number of entries that come before what `key` looks for.
pub open spec fn rank<K, V, Q: Probe<K>>(s: Seq<(K, V)>, key: Q) -> nat
    decreases s.len(),
{
    if s.len() == 0 {
        0
    } else {
        rank(s.drop_last(), key) + if is_before(s.last().0, key) {
            1nat
        } else {
            0
        }
    }
}

/// The number of entries that do not come after what `key` looks for.
pub open spec fn rank_after<K, V, Q: Probe<K>>(s: Seq<(K, V)>, key: Q) -> nat
    decreases s.len(),
{
    if s.len() == 0 {
        0
    } else {
        rank_after(s.drop_last(), key) + if is_after(s.last().0, key) {
            0
        } else {
            1nat
        }
    }
}

/// The index of the entry that `key` looks for.
pub open spec fn lookup<K, V, Q: Probe<K>>(s: Seq<(K, V)>, key: Q) -> Option<int> {
    let at = rank(s, key) as int;
    if at < s.len() && is_sought(s[at].0, key) {
        Some(at)
    } else {
        None
    }
}

/// The value that `key` looks for, if it is there.
pub open spec fn value_at<K, V, Q: Probe<K>>(s: Seq<(K, V)>, key: Q) -> Option<V> {
    match lookup(s, key) {
        Some(at) => Some(s[at].1),
        None => None,
    }
}

/// The entries after `val` is put at `key`: an equivalent key that is already there stays and
/// gets the new value, otherwise a new entry takes its place in the order.
pub open spec fn inserted<K: Ord, V>(s: Seq<(K, V)>, key: K, val: V) -> Seq<(K, V)> {
    match lookup(s, key) {
        Some(at) => s.update(at, (s[at].0, val)),
        None => s.insert(rank(s, key) as int, (key, val)),
    }
}

/// The entries after the one that `key` looks for, if any, is taken out.
pub open spec fn removed<K, V, Q: Probe<K>>(s: Seq<(K, V)>, key: Q) -> Seq<(K, V)> {
    match lookup(s, key) {
        Some(at) => s.remove(at),
        None => s,
    }
}

/// The entries after the value at `key` has become `out`: it is put in, or taken out if there is
/// none.
pub open spec fn updated<K: Ord, V>(s: Seq<(K, V)>, key: K, out: Option<V>) -> Seq<(K, V)> {
    match out {
        Some(val) => inserted(s, key, val),
        None => removed(s, key),
    }
}

/// `t` is what the entries `s` may become when the value at `key` is transformed by `update`.
pub open spec fn update_outcome<K: Ord, V, F: FnOnce(Option<V>) -> Option<V>>(
    s: Seq<(K, V)>,
    key: K,
    update: F,
    t: Seq<(K, V)>,
) -> bool {
    exists|out: Option<V>|
        #[trigger] update.ensures((value_at(s, key),), out) && t == updated(s, key, out)
}

/// The entries after all of `more` are put in, one after the other.
pub open spec fn extended<K: Ord, V>(s: Seq<(K, V)>, more: Seq<(K, V)>) -> Seq<(K, V)>
    decreases more.len(),
{
    if more.len() == 0 {
        s
    } else {
        inserted(extended(s, more.drop_last()), more.last().0, more.last().1)
    }
}

/// Putting in more entries does not make fewer, and no more than were put in.
pub proof fn lemma_extended_len<K: Ord, V>(s: Seq<(K, V)>, more: Seq<(K, V)>, i: int)
    requires
        0 <= i <= more.len(),
    ensures
        extended(s, more.take(i)).len() <= extended(s, more).len() <= extended(
            s,
            more.take(i),
        ).len() + more.len() - i,
    decreases more.len(),
{
    if i == more.len() {
        assert(more.take(i) =~= more);
    } else {
        assert(more.drop_last().take(i) =~= more.take(i));
        lemma_extended_len(s, more.drop_last(), i);
        lemma_rank_len(extended(s, more.drop_last()), more.last().0);
    }
}

pub proof fn lemma_rank_len<K, V, Q: Probe<K>>(s: Seq<(K, V)>, key: Q)
    ensures
        rank(s, key) <= s.len(),
    decreases s.len(),
{
    if s.len() > 0 {
        lemma_rank_len(s.drop_last(), key);
    }
}

/// The place that divides the entries before `key` from the others is their number.
pub proof fn lemma_rank<K, V, Q: Probe<K>>(s: Seq<(K, V)>, key: Q, at: int)
    requires
        0 <= at <= s.len(),
        forall|i: int| 0 <= i < at ==> is_before((#[trigger] s[i]).0, key),
        forall|i: int| at <= i < s.len() ==> !is_before((#[trigger] s[i]).0, key),
    ensures
        rank(s, key) == at,
    decreases s.len(),
{
    if s.len() > 0 {
        let init = s.drop_last();
        assert forall|i: int| 0 <= i < init.len() implies init[i] == #[trigger] s[i] by {}
        assert(s.last() == s[s.len() - 1]);
        if at == s.len() {
            lemma_rank(init, key, at - 1);
        } else {
            lemma_rank(init, key, at);
        }
    }
}

/// In a sorted sequence the entries before `key` come first.
pub proof fn lemma_rank_sorted<K: Ord, V, Q: Probe<K>>(s: Seq<(K, V)>, key: Q)
    requires
        total_order::<K>(),
        lawful_probe(key),
        sorted(s),
    ensures
        rank(s, key) <= s.len(),
        forall|i: int| 0 <= i < rank(s, key) ==> is_before((#[trigger] s[i]).0, key),
        forall|i: int| rank(s, key) <= i < s.len() ==> !is_before((#[trigger] s[i]).0, key),
        forall|i: int| rank(s, key) < i < s.len() ==> is_after((#[trigger] s[i]).0, key),
    decreases s.len(),
{
    if s.len() > 0 {
        let init = s.drop_last();
        let n = init.len() as int;
        assert forall|i: int, j: int|
            #![trigger init[i], init[j]]
            0 <= i < j < init.len() implies key_lt(init[i].0, init[j].0) by {
            assert(init[i] == s[i] && init[j] == s[j]);
        }
        lemma_rank_sorted(init, key);
        assert forall|i: int| 0 <= i < n implies init[i] == #[trigger] s[i] by {}
        if is_before(s[n].0, key) {
            assert forall|i: int| 0 <= i < n implies is_before((#[trigger] s[i]).0, key) by {
                lemma_before(s[i].0, s[n].0, key);
            }
            lemma_rank(init, key, n);
        } else if rank(init, key) < n {
            let at = rank(init, key) as int;
            assert(!is_before(init[at].0, key));
            lemma_after(s[at].0, s[n].0, key);
        }
    }
}

/// In a sorted sequence the entries before a key come first.
pub proof fn lemma_rank_key<K: Ord, V>(s: Seq<(K, V)>, key: K)
    requires
        total_order::<K>(),
        sorted(s),
    ensures
        rank(s, key) <= s.len(),
        forall|i: int| 0 <= i < rank(s, key) ==> key_lt((#[trigger] s[i]).0, key),
        forall|i: int| rank(s, key) <= i < s.len() ==> key_le(key, (#[trigger] s[i]).0),
        lookup(s, key) is Some <==> rank(s, key) < s.len() && key_eq(
            s[rank(s, key) as int].0,
            key,
        ),
{
    lemma_key_probe(key);
    lemma_rank_sorted(s, key);
    assert forall|i: int| rank(s, key) <= i < s.len() implies key_le(key, (#[trigger] s[i]).0) by {
        assert(!is_before(s[i].0, key));
        assert(key_lt(s[i].0, key) <==> !key_le(key, s[i].0));
    }
}

/// An entry that `key` looks for is the one that a lookup finds.
pub proof fn lemma_lookup_found<K: Ord, V, Q: Probe<K>>(s: Seq<(K, V)>, key: Q, at: int)
    requires
        total_order::<K>(),
        lawful_probe(key),
        sorted(s),
        0 <= at < s.len(),
        is_sought(s[at].0, key),
    ensures
        rank(s, key) == at,
        lookup(s, key) == Some(at),
{
    assert forall|i: int| 0 <= i < at implies is_before((#[trigger] s[i]).0, key) by {
        lemma_before(s[i].0, s[at].0, key);
    }
    assert forall|i: int| at <= i < s.len() implies !is_before((#[trigger] s[i]).0, key) by {
        if i > at {
            lemma_after(s[at].0, s[i].0, key);
        }
    }
    lemma_rank(s, key, at);
}

/// Inserting keeps the entries sorted.
pub proof fn lemma_inserted_sorted<K: Ord, V>(s: Seq<(K, V)>, key: K, val: V)
    requires
        total_order::<K>(),
        sorted(s),
    ensures
        sorted(inserted(s, key, val)),
{
    lemma_rank_key(s, key);
    let s2 = inserted(s, key, val);
    let at = rank(s, key) as int;
    assert forall|i: int, j: int|
        #![trigger s2[i], s2[j]]
        0 <= i < j < s2.len() implies key_lt(s2[i].0, s2[j].0) by {
        match lookup(s, key) {
            Some(_) => {
                assert(s2[i].0 == s[i].0 && s2[j].0 == s[j].0);
            },
            None => {
                let i1 = if i < at { i } else { i - 1 };
                let j1 = if j < at { j } else { j - 1 };
                if i != at {
                    assert(s2[i] == s[i1]);
                } else {
                    // The entry that follows is not equivalent to the new one.
                    assert(s2[j] == s[j1]);
                    assert(key_le(key, s[at].0));
                    assert(!key_eq(s[at].0, key));
                    assert(key_lt(key, s[at].0));
                    if j1 > at {
                        lemma_lt_le(key, s[at].0, s[j1].0);
                    }
                }
                if j != at {
                    assert(s2[j] == s[j1]);
                }
            },
        }
    }
}

/// Removing keeps the entries sorted.
pub proof fn lemma_removed_sorted<K: Ord, V, Q: Probe<K>>(s: Seq<(K, V)>, key: Q)
    requires
        sorted(s),
    ensures
        sorted(removed(s, key)),
{
    if let Some(at) = lookup(s, key) {
        let s2 = s.remove(at);
        assert forall|i: int, j: int|
            #![trigger s2[i], s2[j]]
            0 <= i < j < s2.len() implies key_lt(s2[i].0, s2[j].0) by {
            let i1 = if i < at { i } else { i + 1 };
            let j1 = if j < at { j } else { j + 1 };
            assert(s2[i] == s[i1] && s2[j] == s[j1]);
        }
    }
}

} // verus!
