use bptree::BPlusTree;

#[test]
fn displays_all_keys() {
    let node_size: usize = 5;
    let mut tree = BPlusTree::new(node_size);
    for i in 1..=10 {
        tree.insert(i, i).unwrap();
    }
    assert_eq!("[[1, 2, 3]4[4, 5, 6]7[7, 8, 9, 10]]", tree.render());
}

#[test]
fn fresh_tree_has_height_one_and_no_keys() {
    let tree = BPlusTree::new(5);
    assert_eq!(1, tree.height());
    assert_eq!(None, tree.lookup(1));
    assert_eq!("[]", tree.render());
}

#[test]
fn lookup_finds_inserted_pair() {
    let mut tree = BPlusTree::new(5);
    tree.insert(2, 200).unwrap();

    assert_eq!(Some(200), tree.lookup(2));
    assert_eq!(None, tree.lookup(4));
}

#[test]
fn first_split_promotes_middle_key() {
    // Inserting node_size ascending keys into a fresh tree causes exactly
    // one split: the root becomes internal (height 2) with a single
    // routing key, the first key of the right half.
    let mut tree = BPlusTree::new(5);
    for i in 1..=5 {
        tree.insert(i, i * 10).unwrap();
    }
    assert_eq!(2, tree.height());
    assert_eq!("[[1, 2, 3]4[4, 5]]", tree.render());
}

#[test]
fn height_grows_past_one_level() {
    // node_size * node_size ascending keys cannot fit in one leaf.
    let node_size: usize = 4;
    let mut tree = BPlusTree::new(node_size);
    for i in 1..=(node_size * node_size) {
        tree.insert(i, i).unwrap();
    }
    assert!(tree.height() >= 2);
    let mut tall = BPlusTree::new(7);
    for i in 1..=49 {
        tall.insert(i, i).unwrap();
    }
    assert!(tall.height() >= 2);
}

#[test]
fn lookup_is_idempotent() {
    let mut tree = BPlusTree::new(5);
    for i in 1..=20 {
        tree.insert(i, i + 100).unwrap();
    }
    assert_eq!(tree.lookup(7), tree.lookup(7));
    assert_eq!(tree.lookup(999), tree.lookup(999));
    assert_eq!(Some(107), tree.lookup(7));
    assert_eq!(None, tree.lookup(999));
}

#[test]
fn inserting_existing_key_replaces_value() {
    let mut tree = BPlusTree::new(5);
    tree.insert(2, 200).unwrap();
    tree.insert(2, 999).unwrap();

    assert_eq!(Some(999), tree.lookup(2));
    assert_eq!("[2]", tree.render());
}

#[test]
fn ascending_insertion_round_trips() {
    let mut tree = BPlusTree::new(5);
    for i in 1..=200 {
        tree.insert(i, i * 3).unwrap();
    }
    for i in 1..=200 {
        assert_eq!(Some(i * 3), tree.lookup(i));
    }
    assert_eq!(None, tree.lookup(0));
    assert_eq!(None, tree.lookup(201));
}

#[test]
fn descending_insertion_keeps_sorted_order() {
    let mut tree = BPlusTree::new(5);
    tree.insert(3, 3).unwrap();
    tree.insert(2, 2).unwrap();
    tree.insert(1, 1).unwrap();

    assert_eq!("[1, 2, 3]", tree.render());
}

#[test]
fn descending_insertion_round_trips() {
    let mut tree = BPlusTree::new(5);
    for i in (1..=200).rev() {
        tree.insert(i, i + 7).unwrap();
    }
    for i in 1..=200 {
        assert_eq!(Some(i + 7), tree.lookup(i));
    }
    assert_eq!(None, tree.lookup(0));
    assert_eq!(None, tree.lookup(201));
}

#[test]
fn scrambled_insertion_round_trips() {
    // A fixed scrambled order: 1009 is prime, so `i * 7 mod 1009` visits
    // every residue 1..=1008 exactly once, far from sorted order.
    let mut tree = BPlusTree::new(6);
    for i in 1..=1008 {
        let k: usize = (i * 7) % 1009;
        tree.insert(k, k * 2).unwrap();
    }
    for i in 1..=1008 {
        assert_eq!(Some(i * 2), tree.lookup(i));
    }
    assert_eq!(None, tree.lookup(0));
    assert_eq!(None, tree.lookup(1009));
    assert!(tree.height() >= 2);
}

#[test]
fn rendering_uses_decimal_keys() {
    let mut tree = BPlusTree::new(5);
    tree.insert(7, 1).unwrap();
    tree.insert(10, 2).unwrap();
    tree.insert(123, 3).unwrap();

    assert_eq!("[7, 10, 123]", tree.render());
}

#[test]
fn clone_keeps_the_entries() {
    let mut tree = BPlusTree::new(5);
    for i in 1..=30 {
        tree.insert(i, i).unwrap();
    }
    let copy = tree.clone();
    for i in 1..=30 {
        assert_eq!(Some(i), copy.lookup(i));
    }
    assert_eq!(tree.render(), copy.render());
}
