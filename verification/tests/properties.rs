use two_three_tree::two_three_tree::{Element, TwoThreeTree};

/// A small deterministic generator for the pseudo-random scenarios.
struct Lcg {
    state: u64,
}

impl Lcg {
    fn new(seed: u64) -> Lcg {
        Lcg { state: seed }
    }

    fn next_below(&mut self, bound: usize) -> usize {
        self.state = self
            .state
            .wrapping_mul(6364136223846793005)
            .wrapping_add(1442695040888963407);
        ((self.state >> 33) as usize) % bound
    }
}

#[test]
fn empty_tree_behaviour() {
    let mut tree = TwoThreeTree::new();
    assert!(tree.is_empty());
    assert_eq!(tree.size(), 0);
    assert!(tree.find(7).is_none());
    assert!(!tree.delete(7));
    assert!(tree.validate());
}

#[test]
fn size_counts_inserts_minus_deletes() {
    let mut tree = TwoThreeTree::new();
    for i in 0..30 {
        tree.insert(Element {
            key: 3 * i + 1,
            value: i,
        });
        assert_eq!(tree.size(), i + 1);
    }
    for i in 0..10 {
        assert!(tree.delete(3 * i + 1));
        assert_eq!(tree.size(), 30 - i - 1);
    }
    assert_eq!(tree.size(), 20);
}

#[test]
fn find_returns_inserted_value_and_nothing_else() {
    let mut tree = TwoThreeTree::new();
    for i in 0..40 {
        tree.insert(Element {
            key: 5 * i,
            value: 7 * i + 1,
        });
    }
    for i in 0..40 {
        let e = tree.find(5 * i).unwrap();
        assert_eq!(e.key, 5 * i);
        assert_eq!(e.value, 7 * i + 1);
    }
    // Keys never inserted are absent.
    for i in 0..40 {
        assert!(tree.find(5 * i + 2).is_none());
    }
    // Deleted keys are absent; the others keep their values.
    for i in 0..20 {
        assert!(tree.delete(5 * (2 * i)));
    }
    for i in 0..20 {
        assert!(tree.find(5 * (2 * i)).is_none());
        let e = tree.find(5 * (2 * i + 1)).unwrap();
        assert_eq!(e.value, 7 * (2 * i + 1) + 1);
    }
}

#[test]
fn deleting_every_key_empties_the_tree() {
    let keys = [41, 3, 27, 9, 88, 1, 55, 13, 70, 2];
    let mut tree = TwoThreeTree::new();
    for &k in keys.iter() {
        tree.insert(Element { key: k, value: k });
    }
    // Delete in a different order than inserted.
    let order = [2, 9, 41, 70, 3, 55, 1, 88, 13, 27];
    for &k in order.iter() {
        assert!(tree.delete(k));
        assert!(tree.validate());
    }
    assert!(tree.is_empty());
    // A second delete of any key now returns false.
    for &k in keys.iter() {
        assert!(!tree.delete(k));
    }
}

#[test]
fn leaves_stay_level_under_sorted_inserts() {
    let n = 200;
    let mut tree = TwoThreeTree::new();
    for i in 0..n {
        tree.insert(Element { key: i, value: i });
        // validate recomputes uniform leaf depth after every single insert
        assert!(tree.validate());
    }
    let mut tree = TwoThreeTree::new();
    for i in (0..n).rev() {
        tree.insert(Element { key: i, value: i });
        assert!(tree.validate());
    }
}

#[test]
fn mixed_scenario_with_final_failed_delete() {
    let mut tree = TwoThreeTree::new();
    for &k in [2, 1, 3, 5, 4].iter() {
        tree.insert(Element { key: k, value: k });
    }
    assert_eq!(tree.size(), 5);
    assert_eq!(tree.find(3).unwrap().value, 3);
    assert!(tree.delete(3));
    assert!(tree.find(3).is_none());
    assert_eq!(tree.size(), 4);
    for &k in [4, 1, 5, 2].iter() {
        assert!(tree.delete(k));
    }
    assert!(tree.is_empty());
    assert!(!tree.delete(1));
}

#[test]
fn large_pseudo_random_storm() {
    let num_elements = 10000;
    let mut tree = TwoThreeTree::new();
    let mut elements: Vec<usize> = Vec::new();
    // 999983 is coprime with 10_000_000, so these keys are distinct.
    for i in 0..num_elements {
        let key = (i * 999983 + 17) % 10_000_000;
        elements.push(key);
        tree.insert(Element { key, value: key });
    }
    assert_eq!(tree.size(), num_elements);
    assert!(tree.validate());

    // Delete all keys in pseudo-random order from a shrinking list.
    let mut rng = Lcg::new(20260101);
    for i in (1..num_elements + 1).rev() {
        let n = rng.next_below(i);
        let key = elements[n];
        elements[n] = elements[i - 1];
        assert!(tree.delete(key));
        assert!(tree.validate());
    }
    assert!(tree.is_empty());
}
