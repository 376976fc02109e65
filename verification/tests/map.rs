use btree_forest_arena::{BTreeMap, BTreeStore};
use std::cell::Cell;
use std::cmp::Ordering;
use std::collections::BTreeMap as Model;
use std::rc::Rc;

/// A key that carries more than what it is ordered by.
#[derive(Clone, Debug)]
struct Tagged {
    id: i32,
    tag: &'static str,
}

impl PartialEq for Tagged {
    fn eq(&self, other: &Self) -> bool {
        self.id == other.id
    }
}

impl Eq for Tagged {}

impl PartialOrd for Tagged {
    fn partial_cmp(&self, other: &Self) -> Option<Ordering> {
        Some(self.id.cmp(&other.id))
    }
}

impl Ord for Tagged {
    fn cmp(&self, other: &Self) -> Ordering {
        self.id.cmp(&other.id)
    }
}

/// A value that counts how often one was dropped.
struct Counted {
    drops: Rc<Cell<usize>>,
}

impl Drop for Counted {
    fn drop(&mut self) {
        self.drops.set(self.drops.get() + 1);
    }
}

/// A sequence of numbers without much of a pattern.
struct Numbers {
    state: u64,
}

impl Numbers {
    fn new(seed: u64) -> Self {
        Numbers { state: seed }
    }

    fn below(&mut self, n: u64) -> u64 {
        self.state = self
            .state
            .wrapping_mul(6364136223846793005)
            .wrapping_add(1442695040888963407);
        (self.state >> 33) % n
    }
}

fn entries(map: &BTreeMap<'_, i32, i32>) -> Vec<(i32, i32)> {
    let mut all = Vec::new();
    let mut it = map.iter();
    while let Some((&key, &val)) = it.next() {
        all.push((key, val));
    }
    all
}

fn filled<'a>(store: &'a BTreeStore<i32, i32>, n: i32) -> BTreeMap<'a, i32, i32> {
    let mut map = BTreeMap::new_in(store);
    for i in 0..n {
        assert_eq!(map.insert(i, i * 10), None);
    }
    map
}

#[test]
fn new_map_is_empty() {
    let store = BTreeStore::<i32, i32>::new();
    let mut map = BTreeMap::new_in(&store);
    assert_eq!(map.len(), 0);
    assert!(map.is_empty());
    assert_eq!(map.get(&1), None);
    assert_eq!(map.get_mut(&1), None);
    assert_eq!(map.get_key(&1), None);
    assert_eq!(map.get_key_value(&1), None);
    assert_eq!(map.get_key_value_mut(&1), None);
    assert!(!map.contains_key(&1));
    assert_eq!(map.first_key_value(), None);
    assert_eq!(map.first_key_value_mut(), None);
    assert_eq!(map.last_key_value(), None);
    assert_eq!(map.last_key_value_mut(), None);
    assert_eq!(map.remove(&1), None);
    assert_eq!(map.remove_key_value(&1), None);
    assert_eq!(map.pop_first(), None);
    assert_eq!(map.pop_last(), None);
    assert!(map.validate().is_ok());
    assert_eq!(map.iter().next(), None);
    assert_eq!(map.into_iter().next(), None);
}

#[test]
fn insert_then_get() {
    let store = BTreeStore::new();
    let mut map = BTreeMap::new_in(&store);
    assert_eq!(map.insert(5, 50), None);
    assert_eq!(map.insert(3, 30), None);
    assert_eq!(map.insert(5, 51), Some(50));
    assert_eq!(map.len(), 2);
    assert!(!map.is_empty());
    assert_eq!(map.get(&5), Some(&51));
    assert_eq!(map.get(&3), Some(&30));
    assert_eq!(map.get(&4), None);
    assert!(map.contains_key(&3));
    assert!(!map.contains_key(&4));
    assert_eq!(map.get_key_value(&3), Some((&3, &30)));
    assert_eq!(entries(&map), vec![(3, 30), (5, 51)]);
}

#[test]
fn equivalent_keys_are_one_key() {
    let store = BTreeStore::new();
    let mut map = BTreeMap::new_in(&store);
    map.insert(Tagged { id: 1, tag: "first" }, 10);
    assert_eq!(map.insert(Tagged { id: 1, tag: "second" }, 11), Some(10));
    assert_eq!(map.len(), 1);
    let probe = Tagged { id: 1, tag: "probe" };
    assert_eq!(map.get_key(&probe).unwrap().tag, "first");
    let (key, val) = map.get_key_value(&probe).unwrap();
    assert_eq!((key.tag, *val), ("first", 11));
    let (key, val) = map.get_key_value_mut(&probe).unwrap();
    assert_eq!(key.tag, "first");
    *val = 12;
    map.update(Tagged { id: 1, tag: "update" }, |val| val.map(|v| v + 1));
    let (key, val) = map.remove_key_value(&probe).unwrap();
    assert_eq!((key.tag, val), ("first", 13));
    assert!(map.is_empty());
}

#[test]
fn values_change_in_place() {
    let store = BTreeStore::new();
    let mut map = filled(&store, 40);
    *map.get_mut(&17).unwrap() = 1;
    *map.get_key_value_mut(&18).unwrap().1 = 2;
    *map.first_key_value_mut().unwrap().1 = 3;
    *map.last_key_value_mut().unwrap().1 = 4;
    assert_eq!(map.get(&17), Some(&1));
    assert_eq!(map.get(&18), Some(&2));
    assert_eq!(map.first_key_value(), Some((&0, &3)));
    assert_eq!(map.last_key_value(), Some((&39, &4)));
    assert_eq!(map.get(&16), Some(&160));
    assert_eq!(map.get(&19), Some(&190));
    assert_eq!(map.len(), 40);
}

#[test]
fn get_or_insert_keeps_what_is_there() {
    let store = BTreeStore::new();
    let mut map = BTreeMap::new_in(&store);
    *map.get_or_insert(2, 20) += 1;
    assert_eq!(map.get(&2), Some(&21));
    *map.get_or_insert(2, 99) += 1;
    assert_eq!(map.get(&2), Some(&22));
    for i in 3..60 {
        assert_eq!(*map.get_or_insert(i, i), i);
    }
    assert_eq!(map.len(), 58);
    assert_eq!(map.get(&59), Some(&59));
    assert!(map.validate().is_ok());
}

#[test]
fn insert_then_remove_restores() {
    let store = BTreeStore::new();
    let mut map = filled(&store, 50);
    let before = entries(&map);
    assert_eq!(map.insert(1000, 7), None);
    assert_eq!(map.insert(-1, 8), None);
    assert_eq!(map.remove(&1000), Some(7));
    assert_eq!(map.remove_key_value(&-1), Some((-1, 8)));
    assert_eq!(map.remove(&1000), None);
    assert_eq!(entries(&map), before);
}

#[test]
fn removing_one_key_leaves_the_others() {
    let store = BTreeStore::new();
    for gone in 0..60 {
        let mut map = filled(&store, 60);
        assert_eq!(map.remove(&gone), Some(gone * 10));
        assert_eq!(map.len(), 59);
        assert_eq!(map.get(&gone), None);
        for i in 0..60 {
            if i != gone {
                assert_eq!(map.get(&i), Some(&(i * 10)));
            }
        }
        assert!(map.validate().is_ok());
    }
}

#[test]
fn pops_from_both_ends() {
    let store = BTreeStore::new();
    let mut map = filled(&store, 100);
    for i in 0..50 {
        assert_eq!(map.pop_first(), Some((i, i * 10)));
        assert_eq!(map.pop_last(), Some((99 - i, (99 - i) * 10)));
        assert_eq!(map.len(), (98 - 2 * i) as usize);
        assert!(map.validate().is_ok());
    }
    assert_eq!(map.pop_first(), None);
    assert_eq!(map.pop_last(), None);
    assert!(map.is_empty());
}

#[test]
fn clear_then_use_again() {
    let drops = Rc::new(Cell::new(0));
    let store = BTreeStore::new();
    let mut map = BTreeMap::new_in(&store);
    for i in 0..100 {
        map.insert(i, Counted { drops: drops.clone() });
    }
    map.clear();
    assert_eq!(drops.get(), 100);
    assert_eq!(map.len(), 0);
    assert!(map.is_empty());
    assert!(map.validate().is_ok());
    map.clear();
    for i in 0..20 {
        map.insert(i, Counted { drops: drops.clone() });
    }
    assert_eq!(map.len(), 20);
    assert!(map.validate().is_ok());
    drop(map);
    assert_eq!(drops.get(), 120);
}

#[test]
fn replaced_values_are_handed_out() {
    let drops = Rc::new(Cell::new(0));
    let store = BTreeStore::new();
    let mut map = BTreeMap::new_in(&store);
    map.insert(1, Counted { drops: drops.clone() });
    let replaced = map.insert(1, Counted { drops: drops.clone() });
    assert_eq!(drops.get(), 0);
    drop(replaced);
    assert_eq!(drops.get(), 1);
}

#[test]
fn update_inserts_changes_and_removes() {
    let store = BTreeStore::new();
    let mut map = BTreeMap::new_in(&store);
    // No entry, and none made.
    assert_eq!(map.update_and_return(1, |val| (None, val)), None);
    assert_eq!(map.len(), 0);
    // From none to some, in an empty map and in one with entries.
    assert_eq!(map.update_and_return(1, |val| (Some(10), val)), None);
    assert_eq!(map.update_and_return(2, |val| (Some(20), val)), None);
    assert_eq!(map.update_and_return(3, |val| (None, val)), None);
    assert_eq!(entries(&map), vec![(1, 10), (2, 20)]);
    // From some to some.
    assert_eq!(map.update_and_return(1, |val| (val.map(|v| v + 1), "kept")), "kept");
    assert_eq!(map.get(&1), Some(&11));
    // From some to none.
    assert_eq!(map.update_and_return(1, |val| (None, val)), Some(11));
    assert_eq!(entries(&map), vec![(2, 20)]);
    map.update(2, |val| val.map(|v| v * 2));
    map.update(4, |_| Some(4));
    map.update(5, |_| None);
    assert_eq!(entries(&map), vec![(2, 40), (4, 4)]);
    map.update(2, |_| None);
    assert_eq!(entries(&map), vec![(4, 4)]);
}

#[test]
fn update_to_a_constant_inserts_or_removes() {
    let store = BTreeStore::new();
    for key in -1..31 {
        let mut updated = filled(&store, 30);
        updated.update(key, |_| Some(77));
        let mut inserted = filled(&store, 30);
        inserted.insert(key, 77);
        assert_eq!(entries(&updated), entries(&inserted));

        let mut updated = filled(&store, 30);
        updated.update(key, |_| None);
        let mut removed = filled(&store, 30);
        removed.remove(&key);
        assert_eq!(entries(&updated), entries(&removed));

        let mut updated = filled(&store, 30);
        updated.update(key, |val| val);
        assert_eq!(entries(&updated), entries(&filled(&store, 30)));
    }
}

#[test]
fn remove_then_insert_replaces() {
    let store = BTreeStore::new();
    for key in 0..30 {
        let mut again = filled(&store, 30);
        let (actual, _) = again.remove_key_value(&key).unwrap();
        again.insert(actual, 77);
        let mut replaced = filled(&store, 30);
        replaced.insert(key, 77);
        assert_eq!(entries(&again), entries(&replaced));
    }
}

#[test]
fn pairs_may_be_inserted_in_any_order() {
    let store = BTreeStore::new();
    let pairs: Vec<(i32, i32)> = (0..40).map(|i| (i * 3 % 41, i)).collect();
    let mut expected = filled(&store, 10);
    expected.extend(pairs.clone());
    for step in [7, 11, 13, 17, 23] {
        let mixed: Vec<(i32, i32)> = (0..40).map(|i| pairs[i * step % 40]).collect();
        let mut map = filled(&store, 10);
        map.extend(mixed);
        assert_eq!(entries(&map), entries(&expected));
    }
    let mut map = filled(&store, 10);
    map.extend(pairs.into_iter().rev().collect());
    assert_eq!(entries(&map), entries(&expected));
}

#[test]
fn extend_inserts_in_turn() {
    let store = BTreeStore::new();
    let mut map = BTreeMap::new_in(&store);
    map.insert(2, 0);
    map.extend(vec![(3, 30), (1, 10), (2, 20), (3, 31)]);
    assert_eq!(entries(&map), vec![(1, 10), (2, 20), (3, 31)]);
    map.extend(Vec::new());
    assert_eq!(map.len(), 3);
}

#[test]
fn order_of_insertion_does_not_matter() {
    let store = BTreeStore::new();
    let mut up = BTreeMap::new_in(&store);
    let mut down = BTreeMap::new_in(&store);
    for i in 0..200 {
        up.insert(i, i);
        down.insert(199 - i, 199 - i);
    }
    assert_eq!(entries(&up), entries(&down));
    assert!(up == down);
}

#[test]
fn maps_of_one_store_are_apart() {
    let store = BTreeStore::new();
    let mut a = BTreeMap::new_in(&store);
    let mut b = BTreeMap::new_in(&store);
    for i in 0..100 {
        a.insert(i, 1);
        b.insert(i, 2);
    }
    for i in 0..100 {
        assert_eq!(a.remove(&i), Some(1));
        assert_eq!(b.get(&i), Some(&2));
    }
    for i in 0..100 {
        a.insert(i, 3);
    }
    assert_eq!(b.len(), 100);
    assert!(b.validate().is_ok());
    assert!(a.validate().is_ok());
}

#[test]
fn maps_compare_entry_by_entry() {
    let store = BTreeStore::new();
    let a = filled(&store, 20);
    let mut b = filled(&store, 20);
    assert!(a == b);
    assert_eq!(a.partial_cmp(&b), Some(Ordering::Equal));
    assert_eq!(a.cmp(&b), Ordering::Equal);
    b.insert(20, 0);
    assert!(a != b);
    assert!(a < b);
    assert_eq!(a.cmp(&b), Ordering::Less);
    assert_eq!(b.cmp(&a), Ordering::Greater);
    b.remove(&20);
    *b.get_mut(&7).unwrap() = 71;
    assert!(a != b);
    assert_eq!(a.partial_cmp(&b), Some(Ordering::Less));
    assert_eq!(b.partial_cmp(&a), Some(Ordering::Greater));
    b.remove(&3);
    assert!(b > a);
    assert_eq!(a.cmp(&b), Ordering::Less);
    let empty = BTreeMap::new_in(&store);
    assert!(empty == BTreeMap::new_in(&store));
    assert!(empty < a);
}

#[test]
fn equal_maps_hold_the_same_pairs() {
    let (store, other_store) = (BTreeStore::new(), BTreeStore::new());
    let a = filled(&store, 60);
    let mut b = BTreeMap::new_in(&other_store);
    for i in (0..120).rev() {
        b.insert(i, 0);
    }
    for i in 0..60 {
        b.insert(i, i * 10);
        b.remove(&(119 - i));
    }
    let found = |m: &BTreeMap<'_, i32, i32>| {
        m.len() == a.len() && (0..60).all(|i| m.get(&i) == a.get(&i))
    };
    assert!(found(&b));
    assert!(a == b);
    b.insert(30, 301);
    assert!(!found(&b));
    assert!(a != b);
    b.remove(&30);
    b.insert(60, 300);
    assert!(!found(&b));
    assert!(a != b);
}

#[test]
fn maps_may_not_be_comparable() {
    let store = BTreeStore::new();
    let mut a = BTreeMap::new_in(&store);
    let mut b = BTreeMap::new_in(&store);
    a.insert(1, f64::NAN);
    b.insert(1, 1.0);
    assert_eq!(a.partial_cmp(&b), None);
    assert!(a != b);
    a.insert(0, 0.0);
    assert_eq!(a.partial_cmp(&b), Some(Ordering::Less));
}

#[test]
fn behaves_like_a_sorted_map() {
    for seed in 0..8 {
        let store = BTreeStore::new();
        let mut map = BTreeMap::new_in(&store);
        let mut model: Model<i32, i32> = Model::new();
        let mut numbers = Numbers::new(seed);
        for step in 0..1500 {
            // Grow for a while, then shrink.
            let growing = (step / 500) % 2 == 0;
            let key = numbers.below(200) as i32;
            let val = numbers.below(1000) as i32;
            match numbers.below(8) {
                0 => assert_eq!(map.pop_first(), model.pop_first()),
                1 => assert_eq!(map.pop_last(), model.pop_last()),
                2 | 3 => assert_eq!(map.remove(&key), model.remove(&key)),
                4 if !growing => assert_eq!(map.remove_key_value(&key), model.remove_entry(&key)),
                5 => assert_eq!(
                    *map.get_or_insert(key, val),
                    *model.entry(key).or_insert(val)
                ),
                _ => assert_eq!(map.insert(key, val), model.insert(key, val)),
            }
            assert_eq!(map.len(), model.len());
            assert_eq!(map.is_empty(), model.is_empty());
            assert!(map.validate().is_ok());
            assert_eq!(map.get(&key), model.get(&key));
            assert_eq!(map.first_key_value(), model.first_key_value());
            assert_eq!(map.last_key_value(), model.last_key_value());
        }
        let all: Vec<(i32, i32)> = model.into_iter().collect();
        assert_eq!(entries(&map), all);
    }
}
