use bptree::ExternalNode;
use bptree::InsertResult;
use bptree::InternalNode;
use bptree::Node;
use bptree::NodeType;

fn new_internal_node_size_5() -> InternalNode {
    let n: usize = 5;
    let mut ex_node1 = ExternalNode::new(n);
    let mut ex_node2 = ExternalNode::new(n);

    ex_node1.insert(1, 100).unwrap();
    ex_node1.insert(5, 500).unwrap();

    ex_node2.insert(10, 1000).unwrap();
    ex_node2.insert(50, 5000).unwrap();

    let box2 = Box::new(ex_node2);
    ex_node1.next = Some(box2.clone());

    InternalNode::new_by_nodes(
        n,
        Box::new(NodeType::Ext(ex_node1)),
        Box::new(NodeType::Ext(*box2)),
        10,
    )
    // [ <-ex_node1 | 10 | <-ex_node2 ]
}

#[test]
fn test_get_insert_position() {
    let mut node = ExternalNode::new(3);
    node.keys.push(2);
    node.values.push(100);
    node.keys.push(4);
    node.values.push(200);

    let pos = node.get_insert_position(3);
    assert_eq!(pos, Some(1));

    let pos = node.get_insert_position(5);
    assert_eq!(pos, None);
}

#[test]
fn insert_returns_ok_ok_when_not_full() {
    let mut node = ExternalNode::new(3);
    node.keys.push(2);
    node.values.push(200);

    assert_eq!(Ok(InsertResult::Open), node.insert(3, 300));
}

#[test]
fn insert_returns_ok_full_when_becomes_full() {
    let mut node = ExternalNode::new(2);
    node.keys.push(2);
    node.values.push(200);

    assert_eq!(Ok(InsertResult::Full), node.insert(3, 300));
}

#[test]
fn insert_should_fail_when_full() {
    let mut node = ExternalNode::new(1);
    node.keys.push(2);
    node.values.push(200);

    match node.insert(3, 300) {
        Err(_) => (),
        _ => panic!(),
    };
}

#[test]
fn insert_adds_one_elem_to_both_keys_and_values() {
    let node = ExternalNode::new(3);
    let mut ex_node = node.clone();
    ex_node.insert(2, 2).unwrap();

    assert_eq!(ex_node.keys.len(), node.keys.len() + 1);
    assert_eq!(ex_node.values.len(), node.values.len() + 1);
}

#[test]
fn external_test_lookup() {
    let mut node = ExternalNode::new(2);
    node.keys.push(2);
    node.values.push(200);

    assert_eq!(Some(200), node.lookup(2));
}

#[test]
fn test_internal_node_correctly_initializes() {
    let node = new_internal_node_size_5();

    assert_eq!(1, node.keys.len());
    assert_eq!(Some(&10), node.keys.first());
}

#[test]
fn test_get_child_division() {
    let node = new_internal_node_size_5();

    // should go to the first child node
    let pos = node.get_child_division(2);
    assert_eq!(pos, Some(0));

    // should go to `greater`
    let pos = node.get_child_division(10);
    assert_eq!(pos, None);
}

#[test]
fn internal_test_lookup() {
    let node = new_internal_node_size_5();

    assert_eq!(Some(500), node.lookup(5));
    assert_eq!(Some(1000), node.lookup(10));
    assert_eq!(Some(5000), node.lookup(50));
    assert_eq!(None, node.lookup(99));
}

#[test]
fn external_first_key_is_smallest() {
    let mut node = ExternalNode::new(4);
    node.insert(7, 70).unwrap();
    node.insert(3, 30).unwrap();
    node.insert(5, 50).unwrap();

    assert_eq!(3, *node.first_key());
}

#[test]
fn internal_first_key_is_smallest_reachable() {
    let node = new_internal_node_size_5();

    assert_eq!(1, *node.first_key());
}

#[test]
fn external_height_is_one() {
    let node = ExternalNode::new(4);
    assert_eq!(1, node.height());
}

#[test]
fn external_meiosis_splits_at_half() {
    // A full leaf of node size 4 splits after ceil(4 / 2) = 2 keys; the
    // separator is the right half's first key.
    let mut node = ExternalNode::new(4);
    node.insert(1, 10).unwrap();
    node.insert(2, 20).unwrap();
    node.insert(3, 30).unwrap();
    node.insert(4, 40).unwrap();

    let (former, latter, sep) = node.meiosis();
    assert_eq!(3, sep);
    match (*former, *latter) {
        (NodeType::Ext(f), NodeType::Ext(l)) => {
            assert_eq!(vec![1, 2], f.keys);
            assert_eq!(vec![3, 4], l.keys);
            // the left half's forward link is the new right half
            assert_eq!(vec![3, 4], f.next.unwrap().keys);
        },
        _ => panic!(),
    }
}

#[test]
fn internal_insert_fails_when_full() {
    // At node size 4 an internal node takes new keys only while it holds
    // at most 2 of them; a third routing key makes it reject inserts.
    let mut ex1 = ExternalNode::new(4);
    ex1.insert(1, 10).unwrap();
    let mut ex2 = ExternalNode::new(4);
    ex2.insert(5, 50).unwrap();
    let mut node = InternalNode::new_by_nodes(
        4,
        Box::new(NodeType::Ext(ex1)),
        Box::new(NodeType::Ext(ex2)),
        5,
    );
    assert!(node.insertable());

    let mut ex3 = ExternalNode::new(4);
    ex3.insert(9, 90).unwrap();
    let mut ex4 = ExternalNode::new(4);
    ex4.insert(13, 130).unwrap();
    node.keys.push(9);
    node.pointers.push(Box::new(NodeType::Ext(ex3)));
    node.keys.push(13);
    node.pointers.push(Box::new(NodeType::Ext(ex4)));
    assert!(!node.insertable());

    match node.insert(7, 70) {
        Err(_) => (),
        _ => panic!(),
    };
}
