use btree_forest_arena::{BTreeMap, BTreeStore, Bound, Probe, Relation};
use std::cmp::Ordering;

/// Looks for a string by its text.
struct Text<'a>(&'a str);

impl Probe<String> for Text<'_> {
    fn obeys_relation() -> bool {
        true
    }

    fn relation(&self, key: String) -> Relation {
        self.relate_key(&key)
    }

    fn relate_key(&self, key: &String) -> Relation {
        match key.as_str().cmp(self.0) {
            Ordering::Less => Relation::Before,
            Ordering::Equal => Relation::Same,
            Ordering::Greater => Relation::After,
        }
    }
}

fn words<'a>(store: &'a BTreeStore<String, usize>) -> BTreeMap<'a, String, usize> {
    let mut map = BTreeMap::new_in(store);
    let text = "the quick brown fox jumps over the lazy dog and then it sleeps under a tree";
    for (i, word) in text.split(' ').enumerate() {
        map.insert(String::from(word), i);
    }
    map
}

#[test]
fn keys_relate_to_keys() {
    assert!(matches!(5.relate_key(&4), Relation::Before));
    assert!(matches!(5.relate_key(&5), Relation::Same));
    assert!(matches!(5.relate_key(&6), Relation::After));
}

#[test]
fn strings_are_found_by_text() {
    let store = BTreeStore::new();
    let mut map = words(&store);
    assert_eq!(map.len(), 15);
    assert!(map.contains_key(&Text("fox")));
    assert!(!map.contains_key(&Text("wolf")));
    assert!(map.contains_key(&String::from("fox")));
    assert_eq!(map.get(&Text("the")), Some(&6));
    assert_eq!(map.get(&Text("cat")), None);
    assert_eq!(map.get_key(&Text("dog")), Some(&String::from("dog")));
    assert_eq!(map.get_key_value(&Text("dog")), Some((&String::from("dog"), &8)));
    *map.get_mut(&Text("dog")).unwrap() = 80;
    *map.get_key_value_mut(&Text("lazy")).unwrap().1 = 70;
    assert_eq!(map.remove(&Text("dog")), Some(80));
    assert_eq!(map.remove_key_value(&Text("lazy")), Some((String::from("lazy"), 70)));
    assert_eq!(map.remove(&Text("dog")), None);
    assert_eq!(map.len(), 13);
    assert!(map.validate().is_ok());
}

#[test]
fn ranges_of_strings_by_text() {
    let store = BTreeStore::new();
    let mut map = words(&store);
    let (start, end) = (Text("b"), Text("jumps"));
    let mut keys = map.range_keys(Bound::Included(&start), Bound::Excluded(&end));
    for expected in ["brown", "dog", "fox", "it"] {
        assert_eq!(keys.next().unwrap(), expected);
    }
    assert_eq!(keys.next(), None);
    let mut values = map.range_values_mut(Bound::Excluded(&Text("fox")), Bound::Included(&end));
    *values.next().unwrap() = 100;
    *values.next().unwrap() = 101;
    assert_eq!(values.next(), None);
    assert_eq!(map.get(&Text("it")), Some(&100));
    assert_eq!(map.get(&Text("jumps")), Some(&101));
    assert_eq!(map.get(&Text("fox")), Some(&3));
}
