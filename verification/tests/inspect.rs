use btree_forest_arena::{
    print_tree, validate_tree, BTreeMap, BTreeStore, Defect, Fault, Line, Node, M,
};
use std::cell::Cell;
use std::cmp::Ordering;
use std::rc::Rc;

/// A key whose order can be turned round.
#[derive(Clone)]
struct Turning {
    turned: Rc<Cell<bool>>,
    id: i32,
}

impl PartialEq for Turning {
    fn eq(&self, other: &Self) -> bool {
        self.id == other.id
    }
}

impl Eq for Turning {}

impl PartialOrd for Turning {
    fn partial_cmp(&self, other: &Self) -> Option<Ordering> {
        Some(self.cmp(other))
    }
}

impl Ord for Turning {
    fn cmp(&self, other: &Self) -> Ordering {
        if self.turned.get() {
            other.id.cmp(&self.id)
        } else {
            self.id.cmp(&other.id)
        }
    }
}

fn leaf(keys: Vec<i32>) -> Box<Node<i32, i32>> {
    Box::new(Node::Leaf {
        entries: keys.into_iter().map(|key| (key, key)).collect(),
    })
}

fn internal(keys: Vec<i32>, edges: Vec<Box<Node<i32, i32>>>) -> Option<Box<Node<i32, i32>>> {
    Some(Box::new(Node::Internal { keys, edges }))
}

fn defect(path: Vec<usize>, fault: Fault) -> Defect {
    Defect { path, fault }
}

#[test]
fn valid_trees_have_no_defects() {
    assert_eq!(validate_tree::<i32, i32>(&None, 0, 0), vec![]);
    assert_eq!(validate_tree(&Some(leaf(vec![1])), 1, 0), vec![]);
    assert_eq!(validate_tree(&Some(leaf((0..8).collect())), 8, 0), vec![]);
    let root = internal(vec![4], vec![leaf(vec![0, 1, 2, 3]), leaf(vec![4, 5, 6, 7])]);
    assert_eq!(validate_tree(&root, 8, 1), vec![]);
}

#[test]
fn defects_of_the_tree_as_a_whole() {
    assert_eq!(
        validate_tree::<i32, i32>(&None, 1, 0),
        vec![defect(vec![], Fault::WrongLength)]
    );
    assert_eq!(
        validate_tree::<i32, i32>(&None, 0, 1),
        vec![defect(vec![], Fault::WrongDepth)]
    );
    assert_eq!(
        validate_tree(&Some(leaf(vec![1, 2])), 3, 0),
        vec![defect(vec![], Fault::WrongLength)]
    );
}

#[test]
fn defects_of_size() {
    assert_eq!(
        validate_tree(&Some(leaf(vec![])), 0, 0),
        vec![defect(vec![], Fault::TooFewEntries)]
    );
    assert_eq!(
        validate_tree(&Some(leaf((0..9).collect())), 9, 0),
        vec![defect(vec![], Fault::TooManyEntries)]
    );
    let root = internal(vec![4], vec![leaf(vec![0, 1, 2, 3]), leaf(vec![4, 5, 6])]);
    assert_eq!(
        validate_tree(&root, 7, 1),
        vec![defect(vec![1], Fault::TooFewEntries)]
    );
    assert_eq!(M, 8);
}

#[test]
fn defects_of_shape() {
    let root = internal(vec![4], vec![leaf(vec![0, 1, 2, 3])]);
    assert_eq!(
        validate_tree(&root, 4, 1),
        vec![defect(vec![], Fault::WrongEdges)]
    );
    assert_eq!(
        validate_tree(&Some(leaf(vec![1])), 1, 1),
        vec![defect(vec![], Fault::WrongDepth)]
    );
    let root = internal(vec![4], vec![leaf(vec![0, 1, 2, 3]), leaf(vec![4, 5, 6, 7])]);
    assert_eq!(
        validate_tree(&root, 8, 0),
        vec![
            defect(vec![], Fault::WrongDepth),
            defect(vec![0], Fault::WrongDepth),
            defect(vec![1], Fault::WrongDepth),
        ]
    );
}

#[test]
fn defects_of_order() {
    assert_eq!(
        validate_tree(&Some(leaf(vec![1, 1, 0])), 3, 0),
        vec![
            defect(vec![], Fault::KeyOutOfOrder(1)),
            defect(vec![], Fault::KeyOutOfOrder(2)),
        ]
    );
    // The key between the edges must come after the entry to its left, and may not come after
    // the one to its right.
    let root = internal(vec![3], vec![leaf(vec![0, 1, 2, 3]), leaf(vec![4, 5, 6, 7])]);
    assert_eq!(
        validate_tree(&root, 8, 1),
        vec![defect(vec![], Fault::KeyOutOfOrder(1))]
    );
    let root = internal(vec![5], vec![leaf(vec![0, 1, 2, 3]), leaf(vec![4, 5, 6, 7])]);
    assert_eq!(
        validate_tree(&root, 8, 1),
        vec![defect(vec![1], Fault::KeyOutOfOrder(0))]
    );
}

#[test]
fn validate_finds_keys_that_changed_their_order() {
    let turned = Rc::new(Cell::new(false));
    let store = BTreeStore::new();
    let mut map = BTreeMap::new_in(&store);
    for id in 0..4 {
        map.insert(Turning { turned: turned.clone(), id }, ());
    }
    assert!(map.validate().is_ok());
    turned.set(true);
    assert_eq!(
        map.validate(),
        Err(vec![
            defect(vec![], Fault::KeyOutOfOrder(1)),
            defect(vec![], Fault::KeyOutOfOrder(2)),
            defect(vec![], Fault::KeyOutOfOrder(3)),
        ])
    );
    turned.set(false);
    assert!(map.validate().is_ok());
}

#[test]
fn print_shows_nodes_and_entries() {
    let store = BTreeStore::<i32, i32>::new();
    let mut map = BTreeMap::new_in(&store);
    assert_eq!(map.print(), vec![Line::Empty]);
    map.insert(2, 20);
    map.insert(1, 10);
    assert_eq!(
        map.print(),
        vec![
            Line::Leaf { depth: 0, parent: None, prev: None, next: None },
            Line::Entry { depth: 0, last: false, key: &1, val: &10 },
            Line::Entry { depth: 0, last: true, key: &2, val: &20 },
        ]
    );
}

#[test]
fn print_shows_levels() {
    let root = internal(vec![2], vec![leaf(vec![1]), leaf(vec![2, 3])]);
    assert_eq!(
        print_tree(&root),
        vec![
            Line::Node { depth: 0, parent: None },
            Line::Leaf { depth: 1, parent: Some((0, 0)), prev: None, next: Some(4) },
            Line::Entry { depth: 1, last: true, key: &1, val: &1 },
            Line::Separator { depth: 0, key: &2 },
            Line::Leaf { depth: 1, parent: Some((0, 1)), prev: Some(1), next: None },
            Line::Entry { depth: 1, last: false, key: &2, val: &2 },
            Line::Entry { depth: 1, last: true, key: &3, val: &3 },
            Line::End { depth: 0 },
        ]
    );
}

#[test]
fn print_links_leaves_across_nodes() {
    let left = internal(vec![2], vec![leaf(vec![1]), leaf(vec![2])]).unwrap();
    let right = internal(vec![4], vec![leaf(vec![3]), leaf(vec![4])]).unwrap();
    let root = internal(vec![3], vec![left, right]);
    let lines = print_tree(&root);
    assert_eq!(lines[0], Line::Node { depth: 0, parent: None });
    assert_eq!(lines[1], Line::Node { depth: 1, parent: Some((0, 0)) });
    assert_eq!(
        lines[2],
        Line::Leaf { depth: 2, parent: Some((1, 0)), prev: None, next: Some(5) }
    );
    assert_eq!(lines[4], Line::Separator { depth: 1, key: &2 });
    assert_eq!(
        lines[5],
        Line::Leaf { depth: 2, parent: Some((1, 1)), prev: Some(2), next: Some(10) }
    );
    assert_eq!(lines[7], Line::End { depth: 1 });
    assert_eq!(lines[8], Line::Separator { depth: 0, key: &3 });
    assert_eq!(lines[9], Line::Node { depth: 1, parent: Some((0, 1)) });
    assert_eq!(
        lines[10],
        Line::Leaf { depth: 2, parent: Some((9, 0)), prev: Some(5), next: Some(13) }
    );
    assert_eq!(
        lines[13],
        Line::Leaf { depth: 2, parent: Some((9, 1)), prev: Some(10), next: None }
    );
    assert_eq!(lines[16], Line::End { depth: 0 });
    assert_eq!(lines.len(), 17);
}

/// A map of the keys below `n`, inserted from the middle outwards.
fn spread<'store>(store: &'store BTreeStore<i32, i32>, n: i32) -> BTreeMap<'store, i32, i32> {
    let mut map = BTreeMap::new_in(store);
    for i in n / 2..n {
        map.insert(i, i);
    }
    for i in (0..n / 2).rev() {
        map.insert(i, i);
    }
    map
}

#[test]
fn update_keeps_the_shape_where_the_key_stays() {
    let store = BTreeStore::new();
    for n in 1..120 {
        for key in 0..n {
            let mut updated = spread(&store, n);
            updated.update(key, |val| Some(val.unwrap() + 1000));
            let mut assigned = spread(&store, n);
            *assigned.get_mut(&key).unwrap() = key + 1000;
            assert_eq!(updated.print(), assigned.print());
            assert!(updated.validate().is_ok());
        }
    }
}

#[test]
fn update_removes_as_removal_does() {
    let store = BTreeStore::new();
    for n in 1..120 {
        for key in 0..n {
            let mut updated = spread(&store, n);
            let val = updated.update_and_return(key, |val| (None, val));
            assert_eq!(val, Some(key));
            let mut removed = spread(&store, n);
            assert_eq!(removed.remove(&key), Some(key));
            assert_eq!(updated.print(), removed.print());
            assert!(updated.validate().is_ok());
        }
    }
}

#[test]
fn update_keeps_the_shape_of_deep_trees() {
    let store = BTreeStore::new();
    let mut updated = spread(&store, 700);
    for key in (0..700).step_by(3) {
        updated.remove(&key);
    }
    let mut assigned = spread(&store, 700);
    for key in (0..700).step_by(3) {
        assigned.remove(&key);
    }
    for key in 0..700 {
        updated.update(key, |val| val.map(|val| -val));
        if let Some(val) = assigned.get_mut(&key) {
            *val = -*val;
        }
        if key % 50 == 0 {
            assert_eq!(updated.print(), assigned.print());
        }
    }
    assert_eq!(updated.print(), assigned.print());
    assert!(updated.validate().is_ok());
}

#[test]
fn print_shows_every_entry_in_order() {
    let store = BTreeStore::new();
    let mut map = BTreeMap::new_in(&store);
    for i in 0..200 {
        map.insert(i, i * i);
    }
    let mut next = 0;
    for line in map.print() {
        if let Line::Entry { key, val, .. } = line {
            assert_eq!((*key, *val), (next, next * next));
            next += 1;
        }
    }
    assert_eq!(next, 200);
}

/// The keys of the leaves, from left to right.
fn leaves(map: &BTreeMap<'_, i32, i32>) -> Vec<Vec<i32>> {
    let mut all: Vec<Vec<i32>> = Vec::new();
    let mut fresh = true;
    for line in map.print() {
        match line {
            Line::Entry { key, .. } => {
                if fresh {
                    all.push(Vec::new());
                }
                all.last_mut().unwrap().push(*key);
                fresh = false;
            }
            _ => fresh = true,
        }
    }
    all
}

#[test]
fn nodes_are_split_when_there_is_no_room() {
    let store = BTreeStore::new();
    let mut map = BTreeMap::new_in(&store);
    for i in 0..8 {
        map.insert(i, i);
    }
    assert_eq!(leaves(&map), vec![vec![0, 1, 2, 3, 4, 5, 6, 7]]);
    map.insert(8, 8);
    assert_eq!(leaves(&map), vec![vec![0, 1, 2, 3], vec![4, 5, 6, 7, 8]]);
    for i in 9..12 {
        map.insert(i, i);
    }
    assert_eq!(leaves(&map).len(), 2);
    map.insert(12, 12);
    assert_eq!(leaves(&map).len(), 3);
}

#[test]
fn nodes_are_merged_when_none_can_give() {
    let store = BTreeStore::new();
    let mut map = BTreeMap::new_in(&store);
    for i in 0..9 {
        map.insert(i, i);
    }
    map.remove(&8);
    assert_eq!(leaves(&map), vec![vec![0, 1, 2, 3], vec![4, 5, 6, 7]]);
    map.remove(&7);
    assert_eq!(leaves(&map), vec![vec![0, 1, 2, 3, 4, 5, 6]]);
    assert_eq!(
        map.print()[0],
        Line::Leaf { depth: 0, parent: None, prev: None, next: None }
    );
    assert_eq!(map.print().len(), 8);
}

#[test]
fn nodes_are_refilled_from_the_one_before_first() {
    let store = BTreeStore::new();
    let mut map = BTreeMap::new_in(&store);
    for i in 0..13 {
        map.insert(i, i);
    }
    map.insert(-1, -1);
    assert_eq!(
        leaves(&map),
        vec![vec![-1, 0, 1, 2, 3], vec![4, 5, 6, 7], vec![8, 9, 10, 11, 12]]
    );
    map.remove(&5);
    assert_eq!(
        leaves(&map),
        vec![vec![-1, 0, 1, 2], vec![3, 4, 6, 7], vec![8, 9, 10, 11, 12]]
    );
    map.remove(&6);
    assert_eq!(
        leaves(&map),
        vec![vec![-1, 0, 1, 2], vec![3, 4, 7, 8], vec![9, 10, 11, 12]]
    );
}
