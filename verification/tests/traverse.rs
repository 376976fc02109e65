use btree_forest_arena::{BTreeMap, BTreeStore, Bound};
use std::collections::BTreeMap as Model;
use std::ops::Bound as StdBound;

fn filled<'a>(store: &'a BTreeStore<i32, i32>, n: i32) -> BTreeMap<'a, i32, i32> {
    let mut map = BTreeMap::new_in(store);
    for i in 0..n {
        map.insert(i * 2, i);
    }
    map
}

fn bounds(n: i32) -> Vec<Bound<i32>> {
    let mut all = vec![Bound::Unbounded];
    for i in -1..n {
        all.push(Bound::Included(i));
        all.push(Bound::Excluded(i));
    }
    all
}

fn by_ref(bound: &Bound<i32>) -> Bound<&i32> {
    match bound {
        Bound::Included(key) => Bound::Included(key),
        Bound::Excluded(key) => Bound::Excluded(key),
        Bound::Unbounded => Bound::Unbounded,
    }
}

fn as_std(bound: &Bound<i32>) -> StdBound<i32> {
    match bound {
        Bound::Included(key) => StdBound::Included(*key),
        Bound::Excluded(key) => StdBound::Excluded(*key),
        Bound::Unbounded => StdBound::Unbounded,
    }
}

/// Whether the standard library takes the range, which it does not if it ends before it starts.
fn is_regular(start: &Bound<i32>, end: &Bound<i32>) -> bool {
    match (start, end) {
        (Bound::Excluded(a), Bound::Excluded(b)) => a < b,
        (Bound::Included(a) | Bound::Excluded(a), Bound::Included(b) | Bound::Excluded(b)) => {
            a <= b
        }
        _ => true,
    }
}

#[test]
fn iter_knows_how_much_is_left() {
    let store = BTreeStore::new();
    let map = filled(&store, 30);
    let mut it = map.iter();
    assert_eq!(it.len(), 30);
    assert_eq!(it.size_hint(), (30, Some(30)));
    it.next();
    it.next_back();
    assert_eq!(it.len(), 28);
    assert_eq!(it.peek(), Some((&2, &1)));
    assert_eq!(it.peek(), Some((&2, &1)));
    assert_eq!(it.peek_back(), Some((&56, &28)));
    it.advance();
    it.advance_back();
    assert_eq!(it.peek(), Some((&4, &2)));
    assert_eq!(it.peek_back(), Some((&54, &27)));
    assert_eq!(it.size_hint(), (26, Some(26)));
}

#[test]
fn iter_meets_in_the_middle() {
    let store = BTreeStore::new();
    for n in 0..40 {
        let map = filled(&store, n);
        for front in 0..n + 1 {
            let mut it = map.iter();
            for i in 0..front {
                assert_eq!(it.next(), Some((&(i * 2), &i)));
            }
            for i in (front..n).rev() {
                assert_eq!(it.next_back(), Some((&(i * 2), &i)));
            }
            assert_eq!(it.next(), None);
            assert_eq!(it.next_back(), None);
            assert_eq!(it.peek(), None);
            assert_eq!(it.peek_back(), None);
            assert_eq!(it.len(), 0);
            assert_eq!(it.next(), None);
        }
    }
}

#[test]
fn keys_and_values() {
    let store = BTreeStore::new();
    let map = filled(&store, 25);
    let mut keys = map.keys();
    let mut values = map.values();
    assert_eq!(keys.len(), 25);
    assert_eq!(values.size_hint(), (25, Some(25)));
    assert_eq!(keys.next_back(), Some(&48));
    assert_eq!(values.next_back(), Some(&24));
    for i in 0..24 {
        assert_eq!(keys.next(), Some(&(i * 2)));
        assert_eq!(values.next(), Some(&i));
    }
    assert_eq!(keys.next(), None);
    assert_eq!(values.next(), None);
    assert_eq!(keys.size_hint(), (0, Some(0)));
    assert_eq!(values.len(), 0);
}

#[test]
fn iter_mut_changes_values() {
    let store = BTreeStore::new();
    let mut map = filled(&store, 100);
    let mut it = map.iter_mut();
    assert_eq!(it.len(), 100);
    assert_eq!(it.size_hint(), (100, Some(100)));
    assert_eq!(it.peek(), Some((&0, &0)));
    assert_eq!(it.peek_back(), Some((&198, &99)));
    *it.peek_mut().unwrap().1 = -1;
    *it.peek_back_mut().unwrap().1 = -2;
    assert_eq!(it.peek(), Some((&0, &-1)));
    it.advance();
    it.advance_back();
    let (key, val) = it.next_back().unwrap();
    assert_eq!(*key, 196);
    *val = -3;
    let mut seen = 1;
    while let Some((key, val)) = it.next() {
        assert_eq!(*key, *val * 2);
        assert_eq!(*val, seen);
        *val += 1000;
        seen += 1;
    }
    assert_eq!(seen, 98);
    assert_eq!(it.next_back(), None);
    assert_eq!(it.peek_mut(), None);
    assert_eq!(it.peek_back_mut(), None);
    assert_eq!(map.get(&0), Some(&-1));
    assert_eq!(map.get(&198), Some(&-2));
    assert_eq!(map.get(&196), Some(&-3));
    assert_eq!(map.get(&100), Some(&1050));
    assert_eq!(map.len(), 100);
    assert!(map.validate().is_ok());
}

#[test]
fn values_mut_changes_values() {
    let store = BTreeStore::new();
    let mut map = filled(&store, 50);
    let mut values = map.values_mut();
    assert_eq!(values.len(), 50);
    *values.next_back().unwrap() = 7;
    assert_eq!(values.size_hint(), (49, Some(49)));
    while let Some(val) = values.next() {
        *val *= 3;
    }
    assert_eq!(values.next_back(), None);
    assert_eq!(map.get(&98), Some(&7));
    assert_eq!(map.get(&40), Some(&60));
}

#[test]
fn empty_mutable_iterators() {
    let store = BTreeStore::<i32, i32>::new();
    let mut map = BTreeMap::new_in(&store);
    assert_eq!(map.iter_mut().next(), None);
    assert_eq!(map.iter_mut().peek(), None);
    assert_eq!(map.iter_mut().peek_back(), None);
    assert_eq!(map.values_mut().next(), None);
    let (start, end) = (Bound::<&i32>::Unbounded, Bound::<&i32>::Unbounded);
    assert_eq!(map.range_mut(start, end).next(), None);
    let (start, end) = (Bound::<&i32>::Unbounded, Bound::<&i32>::Unbounded);
    assert_eq!(map.range(start, end).next(), None);
}

#[test]
fn into_iter_meets_in_the_middle() {
    let store = BTreeStore::new();
    for n in 0..40 {
        for front in 0..n + 1 {
            let mut it = filled(&store, n).into_iter();
            assert_eq!(it.len(), n as usize);
            for i in 0..front {
                assert_eq!(it.next(), Some((i * 2, i)));
            }
            assert_eq!(it.size_hint(), ((n - front) as usize, Some((n - front) as usize)));
            for i in (front..n).rev() {
                assert_eq!(it.next_back(), Some((i * 2, i)));
            }
            assert_eq!(it.next(), None);
            assert_eq!(it.next_back(), None);
            assert_eq!(it.len(), 0);
        }
    }
}

#[test]
fn ranges_of_every_kind() {
    let store = BTreeStore::new();
    for n in [0, 1, 2, 9, 20, 23] {
        let map = filled(&store, n);
        let model: Model<i32, i32> = (0..n).map(|i| (i * 2, i)).collect();
        for start in bounds(2 * n + 1) {
            for end in bounds(2 * n + 1) {
                let expected: Vec<(i32, i32)> = if is_regular(&start, &end) {
                    model
                        .range((as_std(&start), as_std(&end)))
                        .map(|(&key, &val)| (key, val))
                        .collect()
                } else {
                    Vec::new()
                };
                let mut forward = Vec::new();
                let mut range = map.range(by_ref(&start), by_ref(&end));
                while let Some((&key, &val)) = range.next() {
                    forward.push((key, val));
                }
                assert_eq!(forward, expected);
                let mut backward = Vec::new();
                let mut range = map.range(by_ref(&start), by_ref(&end));
                while let Some((&key, &val)) = range.next_back() {
                    backward.insert(0, (key, val));
                }
                assert_eq!(backward, expected);
            }
        }
    }
}

#[test]
fn range_from_both_ends() {
    let store = BTreeStore::new();
    let map = filled(&store, 50);
    let mut range = map.range(Bound::Included(&10), Bound::Excluded(&20));
    assert_eq!(range.peek(), Some((&10, &5)));
    assert_eq!(range.peek_back(), Some((&18, &9)));
    assert_eq!(range.next(), Some((&10, &5)));
    assert_eq!(range.next_back(), Some((&18, &9)));
    range.advance();
    range.advance_back();
    assert_eq!(range.peek(), Some((&14, &7)));
    assert_eq!(range.peek_back(), Some((&14, &7)));
    assert_eq!(range.next_back(), Some((&14, &7)));
    assert_eq!(range.next(), None);
    assert_eq!(range.next_back(), None);
    assert_eq!(range.peek(), None);
    assert_eq!(range.peek_back(), None);
}

#[test]
fn range_that_ends_before_it_starts() {
    let store = BTreeStore::new();
    let mut map = filled(&store, 50);
    assert_eq!(map.range(Bound::Included(&40), Bound::Included(&10)).next(), None);
    assert_eq!(map.range(Bound::Included(&40), Bound::Included(&10)).next_back(), None);
    assert_eq!(map.range_mut(Bound::Excluded(&40), Bound::Excluded(&40)).next(), None);
    for (a, b) in [(40, 40), (40, 10), (41, 39), (39, 39)] {
        let kinds = [
            (Bound::Included(&a), Bound::Excluded(&b)),
            (Bound::Excluded(&a), Bound::Included(&b)),
            (Bound::Excluded(&a), Bound::Excluded(&b)),
        ];
        for (start, end) in kinds {
            let mut range = map.range(start, end);
            assert_eq!(range.next(), None);
            assert_eq!(range.next_back(), None);
        }
    }
}

#[test]
fn range_parts_make_the_whole() {
    let store = BTreeStore::new();
    let map = filled(&store, 30);
    for key in -1..61 {
        let mut all = Vec::new();
        let mut low = map.range(Bound::Unbounded, Bound::Excluded(&key));
        while let Some((&key, _)) = low.next() {
            all.push(key);
        }
        let mut high = map.range(Bound::Included(&key), Bound::Unbounded);
        while let Some((&key, _)) = high.next() {
            all.push(key);
        }
        let whole: Vec<i32> = (0..30).map(|i| i * 2).collect();
        assert_eq!(all, whole);
    }
}

#[test]
fn range_keys_and_values() {
    let store = BTreeStore::new();
    let map = filled(&store, 50);
    let mut keys = map.range_keys(Bound::Excluded(&10), Bound::Included(&16));
    let mut values = map.range_values(Bound::Excluded(&10), Bound::Included(&16));
    for i in 6..9 {
        assert_eq!(keys.next(), Some(&(i * 2)));
        assert_eq!(values.next(), Some(&i));
    }
    assert_eq!(keys.next(), None);
    assert_eq!(values.next(), None);
}

#[test]
fn range_mut_changes_values_in_the_range() {
    let store = BTreeStore::new();
    for start in bounds(61) {
        let mut map = filled(&store, 30);
        let mut range = map.range_mut(by_ref(&start), Bound::Excluded(&41));
        while let Some((key, val)) = range.next() {
            assert_eq!(*key, *val * 2);
            *val += 100;
        }
        for i in 0..30 {
            let after = match start {
                Bound::Included(key) => i * 2 >= key,
                Bound::Excluded(key) => i * 2 > key,
                Bound::Unbounded => true,
            };
            let expected = if after && i * 2 < 41 { i + 100 } else { i };
            assert_eq!(map.get(&(i * 2)), Some(&expected));
        }
        assert!(map.validate().is_ok());
    }
}

#[test]
fn range_mut_from_both_ends() {
    let store = BTreeStore::new();
    let mut map = filled(&store, 50);
    let mut range = map.range_mut(Bound::Included(&10), Bound::Included(&20));
    assert_eq!(range.peek(), Some((&10, &5)));
    assert_eq!(range.peek_back(), Some((&20, &10)));
    *range.peek_mut().unwrap().1 = -5;
    *range.peek_back_mut().unwrap().1 = -10;
    range.advance();
    range.advance_back();
    *range.next().unwrap().1 = -6;
    *range.next_back().unwrap().1 = -9;
    assert_eq!(range.next(), Some((&14, &mut 7)));
    assert_eq!(range.next_back(), Some((&16, &mut 8)));
    assert_eq!(range.next(), None);
    assert_eq!(range.peek(), None);
    assert_eq!(range.peek_back(), None);
    assert_eq!(range.peek_mut(), None);
    assert_eq!(range.peek_back_mut(), None);
    let mut values = map.range_values(Bound::Included(&8), Bound::Included(&22));
    for expected in [4, -5, -6, 7, 8, -9, -10, 11] {
        assert_eq!(values.next(), Some(&expected));
    }
}

#[test]
fn range_values_mut_changes_values() {
    let store = BTreeStore::new();
    let mut map = filled(&store, 20);
    let mut values = map.range_values_mut(Bound::Excluded(&3), Bound::Unbounded);
    while let Some(val) = values.next() {
        *val = 0;
    }
    assert_eq!(map.get(&2), Some(&1));
    assert_eq!(map.get(&4), Some(&0));
    assert_eq!(map.get(&38), Some(&0));
}
