use splay::shape::{Node, NULL_NODE};
use splay::tree_core::Tree;

fn keys_of<V>(t: &Tree<V>) -> Vec<u64> {
    t.iter().iter().map(|e| e.0).collect()
}

fn five_entry_tree() -> Tree<&'static str> {
    let mut t = Tree::new();
    for (k, v) in [(3, "c"), (1, "a"), (2, "b"), (5, "e"), (4, "d")] {
        assert_eq!(t.insert(k, v), None);
    }
    t
}

#[test]
fn empty_tree_queries() {
    let mut t: Tree<&str> = Tree::new();
    assert_eq!(t.len(), 0);
    assert!(t.is_empty());
    assert_eq!(t.get(5), None);
    assert_eq!(t.remove(5), None);
    assert_eq!(t.take_lftmost(), None);
    assert_eq!(t.take_rgtmost(), None);
    assert_eq!(t.find_lower_bound(0), None);
    assert_eq!(t.find_upper_bound(0), None);
    assert_eq!(t.find_less(0), None);
    assert_eq!(t.pop_root(), None);
    assert_eq!(t.root(), None);
    assert!(!t.contains_key(5));
    assert!(t.iter().is_empty());
}

#[test]
fn five_inserts_then_bounds() {
    let mut t = five_entry_tree();
    assert_eq!(t.len(), 5);
    let entries: Vec<(u64, &str)> = t.iter().iter().map(|e| (e.0, *e.1)).collect();
    assert_eq!(entries, vec![(1, "a"), (2, "b"), (3, "c"), (4, "d"), (5, "e")]);
    assert_eq!(t.find_lower_bound(3), Some(3));
    assert_eq!(t.find_upper_bound(3), Some(4));
    assert_eq!(t.find_less(3), Some(2));
    assert_eq!(t.find_less(1), None);
    assert_eq!(t.find_upper_bound(5), None);
    assert_eq!(t.len(), 5);
}

#[test]
fn remove_middle_key() {
    let mut t = five_entry_tree();
    assert_eq!(t.remove(3), Some("c"));
    let entries: Vec<(u64, &str)> = t.iter().iter().map(|e| (e.0, *e.1)).collect();
    assert_eq!(entries, vec![(1, "a"), (2, "b"), (4, "d"), (5, "e")]);
    assert_eq!(t.find_lower_bound(3), Some(4));
    assert_eq!(t.len(), 4);
    assert_eq!(t.remove(3), None);
}

struct Lcg(u64);

impl Lcg {
    fn next(&mut self) -> u64 {
        self.0 = self.0.wrapping_mul(6364136223846793005).wrapping_add(1442695040888963407);
        self.0 >> 33
    }
}

fn shuffle(v: &mut Vec<u64>, rng: &mut Lcg) {
    for i in (1..v.len()).rev() {
        let j = (rng.next() % (i as u64 + 1)) as usize;
        v.swap(i, j);
    }
}

#[test]
fn thousand_random_inserts_and_removes() {
    let mut rng = Lcg(42);
    let mut keys: Vec<u64> = Vec::new();
    while keys.len() < 1000 {
        let k = rng.next() % 1_000_000;
        if !keys.contains(&k) {
            keys.push(k);
        }
    }
    let mut t: Tree<u64> = Tree::new();
    let mut reference: Vec<u64> = Vec::new();
    for &k in &keys {
        assert_eq!(t.insert(k, k * 2), None);
        reference.push(k);
        reference.sort();
        let got = keys_of(&t);
        assert_eq!(got, reference);
        assert_eq!(t.len(), reference.len());
        assert_eq!(t.nodes_iter().len(), t.len());
    }
    let mut order = keys.clone();
    shuffle(&mut order, &mut rng);
    for &k in &order {
        assert_eq!(t.remove(k), Some(k * 2));
        reference.retain(|&x| x != k);
        let got = keys_of(&t);
        assert_eq!(got, reference);
        assert_eq!(t.len(), reference.len());
        assert_eq!(t.nodes_iter().len(), t.len());
    }
    assert_eq!(t.len(), 0);
}

#[test]
fn duplicate_priorities_collapse() {
    let mut heap: Tree<()> = Tree::new();
    heap.insert(5, ());
    heap.insert(5, ());
    heap.insert(3, ());
    assert_eq!(heap.take_rgtmost(), Some((5, ())));
    assert_eq!(heap.take_rgtmost(), Some((3, ())));
    assert_eq!(heap.take_rgtmost(), None);
}

#[test]
fn equality_independent_of_history() {
    let mut a: Tree<u64> = Tree::new();
    let mut b: Tree<u64> = Tree::new();
    for k in [1, 2, 3, 4, 5] {
        a.insert(k, k + 10);
    }
    for k in [3, 1, 4, 5, 2] {
        b.insert(k, k + 10);
    }
    let ea: Vec<(u64, u64)> = a.iter().iter().map(|e| (e.0, *e.1)).collect();
    let eb: Vec<(u64, u64)> = b.iter().iter().map(|e| (e.0, *e.1)).collect();
    assert_eq!(ea, eb);
    assert!(a.eq_entries(&b));
    assert!(b.eq_entries(&a));
    assert_eq!(a.into_iter(), b.into_iter());
}

#[test]
fn insert_twice_keeps_length() {
    let mut t: Tree<&str> = Tree::new();
    assert_eq!(t.insert(7, "x"), None);
    assert_eq!(t.len(), 1);
    assert_eq!(t.insert(7, "x"), Some("x"));
    assert_eq!(t.len(), 1);
    assert_eq!(t.insert(7, "y"), Some("x"));
    assert_eq!(t.get(7), Some(&mut "y"));
}

#[test]
fn get_allows_writing_the_value() {
    let mut t = five_entry_tree();
    if let Some(v) = t.get(4) {
        *v = "dd";
    }
    assert_eq!(t.get(4).map(|v| *v), Some("dd"));
    assert_eq!(t.get(6), None);
    assert_eq!(t.len(), 5);
    let entries: Vec<(u64, &str)> = t.iter().iter().map(|e| (e.0, *e.1)).collect();
    assert_eq!(entries, vec![(1, "a"), (2, "b"), (3, "c"), (4, "dd"), (5, "e")]);
}

#[test]
fn pop_last_removes_newest_slot() {
    let mut t = five_entry_tree();
    let last = t.nodes_iter()[4].key;
    assert_eq!(last, 4);
    assert_eq!(t.pop_last(), Some((4, "d")));
    assert_eq!(keys_of(&t), vec![1, 2, 3, 5]);
    let mut e: Tree<u8> = Tree::new();
    assert_eq!(e.pop_last(), None);
}

#[test]
fn insert_then_remove_restores() {
    let mut t = five_entry_tree();
    let before: Vec<(u64, &str)> = t.iter().iter().map(|e| (e.0, *e.1)).collect();
    assert_eq!(t.insert(10, "z"), None);
    assert_eq!(t.remove(10), Some("z"));
    let after: Vec<(u64, &str)> = t.iter().iter().map(|e| (e.0, *e.1)).collect();
    assert_eq!(before, after);
    assert_eq!(t.len(), 5);
}

#[test]
fn bounds_between_keys() {
    let mut t: Tree<u64> = Tree::new();
    for k in [10, 20, 30] {
        t.insert(k, k);
    }
    assert_eq!(t.find_lower_bound(15), Some(20));
    assert_eq!(t.find_lower_bound(31), None);
    assert_eq!(t.find_lower_bound(0), Some(10));
    assert_eq!(t.find_upper_bound(20), Some(30));
    assert_eq!(t.find_upper_bound(9), Some(10));
    assert_eq!(t.find_less(10), None);
    assert_eq!(t.find_less(11), Some(10));
    assert_eq!(t.find_less(100), Some(30));
    for k in [10, 20] {
        assert_eq!(t.find_lower_bound(k), Some(k));
    }
    assert_eq!(t.find_upper_bound(10), Some(20));
}

#[test]
fn pop_min_and_max_in_order() {
    let mut t: Tree<u64> = Tree::new();
    for k in [8, 3, 9, 1, 5, 7] {
        t.insert(k, k * 100);
    }
    let mut mins = Vec::new();
    while let Some((k, v)) = t.take_lftmost() {
        assert_eq!(v, k * 100);
        mins.push(k);
    }
    assert_eq!(mins, vec![1, 3, 5, 7, 8, 9]);
    for k in [8, 3, 9, 1, 5, 7] {
        t.insert(k, k);
    }
    let mut maxs = Vec::new();
    while let Some((k, _)) = t.take_rgtmost() {
        maxs.push(k);
    }
    assert_eq!(maxs, vec![9, 8, 7, 5, 3, 1]);
}

#[test]
fn peek_ends_keep_entries() {
    let mut t = five_entry_tree();
    assert_eq!(t.get_lftmost(), Some((1, &"a")));
    assert_eq!(t.get_rgtmost(), Some((5, &"e")));
    assert_eq!(t.len(), 5);
    assert_eq!(t.root_ref().key, 5);
    assert_eq!(t.root_ref().val, "e");
}

#[test]
fn pop_root_takes_last_reached() {
    let mut t = five_entry_tree();
    assert!(t.contains_key(2));
    assert_eq!(t.pop_root(), Some((2, "b")));
    assert_eq!(keys_of(&t), vec![1, 3, 4, 5]);
    assert!(!t.contains_key(2));
}

#[test]
fn root_follows_last_access() {
    let mut t = five_entry_tree();
    assert!(t.contains_key(4));
    let r = t.root().unwrap();
    assert_eq!(t.nodes_iter()[r as usize].key, 4);
    assert!(!t.contains_key(100));
    assert_eq!(t.root_ref().key, 5);
}

#[test]
fn into_iter_yields_sorted_entries() {
    let t = five_entry_tree();
    assert_eq!(
        t.into_iter(),
        vec![(1, "a"), (2, "b"), (3, "c"), (4, "d"), (5, "e")]
    );
}

#[test]
fn node_children() {
    let n = Node::new(1, "a", NULL_NODE, 4);
    assert_eq!(n.lft(), None);
    assert_eq!(n.rgt(), Some(4));
    assert_eq!(n.key, 1);
    assert_eq!(n.val, "a");
}

#[test]
fn largest_and_smallest_keys() {
    let mut t: Tree<u8> = Tree::new();
    t.insert(u64::MAX, 1);
    t.insert(0, 2);
    assert_eq!(t.find_upper_bound(u64::MAX), None);
    assert_eq!(t.find_lower_bound(u64::MAX), Some(u64::MAX));
    assert_eq!(t.find_less(0), None);
    assert_eq!(t.find_upper_bound(0), Some(u64::MAX));
    assert_eq!(t.remove(u64::MAX), Some(1));
    assert_eq!(t.remove(0), Some(2));
    assert!(t.is_empty());
}

#[test]
fn unequal_entries_are_told_apart() {
    let mut a: Tree<u64> = Tree::new();
    let mut b: Tree<u64> = Tree::new();
    for k in [1, 2, 3] {
        a.insert(k, k);
        b.insert(k, k);
    }
    assert!(a.eq_entries(&b));
    b.insert(2, 20);
    assert!(!a.eq_entries(&b));
    b.insert(2, 2);
    b.insert(4, 4);
    assert!(!a.eq_entries(&b));
    a.insert(5, 4);
    assert!(!a.eq_entries(&b));
}

#[test]
fn round_trip_against_reference_dictionary() {
    let mut reference = std::collections::BTreeMap::new();
    let mut rng = Lcg(7);
    while reference.len() < 200 {
        let k = rng.next() % 10_000;
        reference.insert(k, k + 1);
    }
    let mut keys: Vec<u64> = reference.keys().copied().collect();
    for round in 0..3 {
        shuffle(&mut keys, &mut rng);
        let mut t: Tree<u64> = Tree::new();
        for &k in &keys {
            t.insert(k, reference[&k]);
        }
        let got: Vec<(u64, u64)> = t.iter().iter().map(|e| (e.0, *e.1)).collect();
        let want: Vec<(u64, u64)> = reference.iter().map(|(k, v)| (*k, *v)).collect();
        assert_eq!(got, want, "round {}", round);
    }
}
