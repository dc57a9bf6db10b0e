use two_three_tree::two_three_tree::{Element, TwoThreeTree};

fn insert(tree: &mut TwoThreeTree, key: usize) {
    tree.insert(Element { key, value: key });
    assert!(tree.validate());

    let found_element = tree.find(key);
    assert!(found_element.unwrap().key == key);
}

fn delete(tree: &mut TwoThreeTree, key: usize) {
    assert!(tree.delete(key));
    assert!(tree.validate());
}

#[test]
fn test_simple_1() {
    let mut tree = TwoThreeTree::new();
    insert(&mut tree, 2);
    insert(&mut tree, 1);
    insert(&mut tree, 3);
    insert(&mut tree, 5);
    insert(&mut tree, 4);
    assert!(tree.size() == 5);
    delete(&mut tree, 3);
    assert!(tree.find(3).is_none());
    delete(&mut tree, 1);
    delete(&mut tree, 2);
    delete(&mut tree, 4);
    delete(&mut tree, 5);
}

#[test]
fn test_ordered_insert_delete() {
    let num_elements = 50;

    let mut tree = TwoThreeTree::new();
    for i in 0..num_elements {
        insert(&mut tree, i);
    }
    for i in 0..num_elements {
        delete(&mut tree, i);
    }
    assert!(tree.is_empty());

    for i in (0..num_elements).rev() {
        insert(&mut tree, i);
    }
    for i in 0..num_elements {
        delete(&mut tree, i);
    }
}

#[test]
fn test_random_insert_delete() {
    let num_elements = 80;

    let mut tree = TwoThreeTree::new();
    let mut elements: Vec<usize> = Vec::new();
    for i in 0..num_elements {
        let elem = (num_elements + i * 71329) & 0xfffffff;
        elements.push(elem);
        insert(&mut tree, elem);
    }
    let mut n = 0;
    for _ in 0..elements.len() {
        n = (n + 13) % elements.len();
        delete(&mut tree, elements[n]);
    }
    assert!(tree.is_empty());
}
