use device_store::btree::database::DeviceDatabase;
use device_store::btree::node::{Direction, Node, NodeType};
use device_store::device::IoTDevice;

fn new_device_with_id_path(id: u64, path: &str) -> IoTDevice {
    IoTDevice::new(id, format!("My address is {}", id), path.to_string())
}

fn new_device_with_id(id: u64) -> IoTDevice {
    new_device_with_id_path(id, "")
}

fn keys_of(records: &Vec<IoTDevice>) -> Vec<u64> {
    records.iter().map(|d| d.numerical_id).collect()
}

/// A fixed rearrangement of `0..len`, different for each seed.
fn shuffled(len: u64, seed: u64) -> Vec<u64> {
    let mut items: Vec<u64> = (0..len).collect();
    let mut state = seed.wrapping_mul(6364136223846793005).wrapping_add(1442695040888963407);
    let mut i = items.len();
    while i > 1 {
        state = state.wrapping_mul(6364136223846793005).wrapping_add(1442695040888963407);
        let j = ((state >> 33) as usize) % i;
        i -= 1;
        items.swap(i, j);
    }
    items
}

#[test]
fn btree_add() {
    let mut tree = DeviceDatabase::new_empty(3);
    tree.add(new_device_with_id(0));
    tree.add(new_device_with_id(2));
    tree.add(new_device_with_id(4));
    tree.add(new_device_with_id(3));
    tree.add(new_device_with_id(5));
    tree.add(new_device_with_id(6));
    tree.add(new_device_with_id(7));

    assert_eq!(tree.length, 7);
    assert!(tree.is_a_valid_btree());
}

#[test]
fn btree_walk_in_order() {
    let len = 7;

    let mut tree = DeviceDatabase::new_empty(3);
    let items: Vec<IoTDevice> = shuffled(len, 17).into_iter().map(new_device_with_id).collect();

    for item in items.iter() {
        tree.add(item.clone());
    }
    assert!(tree.is_a_valid_btree());
    assert_eq!(tree.length, len);
    let v: Vec<IoTDevice> = tree.walk();
    let mut items = items;
    items.sort_by(|a, b| a.numerical_id.cmp(&b.numerical_id));
    assert_eq!(v, items)
}

#[test]
fn btree_find() {
    let mut tree = DeviceDatabase::new_empty(3);

    tree.add(new_device_with_id(3));
    tree.add(new_device_with_id(2));
    tree.add(new_device_with_id(1));
    tree.add(new_device_with_id(6));
    tree.add(new_device_with_id(4));
    tree.add(new_device_with_id(5));
    tree.add(new_device_with_id(7));

    assert!(tree.is_a_valid_btree());
    assert_eq!(tree.length, 7);

    assert_eq!(tree.find(100), None);
    assert_eq!(tree.find(4), Some(new_device_with_id(4)));
    assert_eq!(tree.find(3), Some(new_device_with_id(3)));
    assert_eq!(tree.find(2), Some(new_device_with_id(2)));
    assert_eq!(tree.find(1), Some(new_device_with_id(1)));
    assert_eq!(tree.find(5), Some(new_device_with_id(5)));
    assert_eq!(tree.find(6), Some(new_device_with_id(6)));
    assert_eq!(tree.find(7), Some(new_device_with_id(7)));
}

#[test]
fn btree_empty_store() {
    let tree = DeviceDatabase::new_empty(3);
    assert_eq!(tree.length, 0);
    assert_eq!(tree.find(0), None);
    assert_eq!(tree.find(42), None);
    assert!(!tree.is_a_valid_btree());
    assert!(tree.walk().is_empty());
}

#[test]
fn btree_single_insertion() {
    let mut tree = DeviceDatabase::new_empty(3);
    tree.add(new_device_with_id_path(9, "a/b"));
    assert_eq!(tree.length, 1);
    assert!(tree.is_a_valid_btree());
    let found = tree.find(9).unwrap();
    assert_eq!(found.numerical_id, 9);
    assert_eq!(found.address, "My address is 9");
    assert_eq!(found.path, "a/b");
    assert_eq!(tree.find(8), None);
    assert_eq!(keys_of(&tree.walk()), vec![9]);
}

#[test]
fn btree_ten_keys_in_many_orders() {
    for seed in 0..50u64 {
        let mut tree = DeviceDatabase::new_empty(3);
        let keys = shuffled(10, seed);
        let mut count = 0;
        for k in keys.iter() {
            tree.add(new_device_with_id(*k));
            count += 1;
            assert_eq!(tree.length, count);
            assert!(tree.is_a_valid_btree());
        }
        assert_eq!(tree.length, 10);
        assert_eq!(keys_of(&tree.walk()), (0..10).collect::<Vec<u64>>());
        for k in 0..10 {
            assert_eq!(tree.find(k).unwrap().numerical_id, k);
        }
        assert_eq!(tree.find(10), None);
    }
}

#[test]
fn btree_larger_orders_stay_valid_and_sorted() {
    for order in 3..9usize {
        let mut tree = DeviceDatabase::new_empty(order);
        let keys = shuffled(200, order as u64);
        for k in keys.iter() {
            tree.add(new_device_with_id(k * 3));
            assert!(tree.is_a_valid_btree());
        }
        assert_eq!(tree.length, 200);
        let expected: Vec<u64> = (0..200).map(|k| k * 3).collect();
        assert_eq!(keys_of(&tree.walk()), expected);
        assert_eq!(tree.find(300).unwrap().numerical_id, 300);
        assert_eq!(tree.find(301), None);
        assert_eq!(tree.find(1000), None);
    }
}

#[test]
fn btree_duplicate_key_is_counted_and_kept() {
    let mut tree = DeviceDatabase::new_empty(3);
    tree.add(new_device_with_id_path(1, "first"));
    tree.add(new_device_with_id_path(1, "second"));
    assert_eq!(tree.length, 2);
    assert!(tree.is_a_valid_btree());
    assert_eq!(keys_of(&tree.walk()), vec![1, 1]);
    assert_eq!(tree.find(1).unwrap().numerical_id, 1);
}

#[test]
fn node_first_split_of_a_leaf_root() {
    // order + 1 keys in a leaf of order 3: four slots, split once
    let mut leaf = Node::new_leaf();
    for k in [10u64, 30, 20, 40] {
        assert!(leaf.add_key(k, (Some(new_device_with_id(k)), None)));
    }
    assert_eq!(leaf.len(), 5);
    let (promoted, sibling) = leaf.split();
    assert_eq!(promoted.numerical_id, 30);
    assert_eq!(leaf.len(), 3);
    assert_eq!(sibling.len(), 2);
    assert_eq!(sibling.node_type, NodeType::Leaf);
    assert!(sibling.left_child.is_none());
    assert_eq!(leaf.devices[0].as_ref().unwrap().numerical_id, 10);
    assert_eq!(leaf.devices[1].as_ref().unwrap().numerical_id, 20);
    assert_eq!(sibling.devices[0].as_ref().unwrap().numerical_id, 40);
}

#[test]
fn btree_boundary_split_makes_a_root_with_one_slot() {
    for order in 3..8usize {
        let mut tree = DeviceDatabase::new_empty(order);
        assert!(tree.root().is_none());
        // as long as the leaf has no more children than the order, it is the root
        for k in 1..order as u64 {
            tree.add(new_device_with_id(k));
            let root = tree.root().unwrap();
            assert_eq!(root.node_type, NodeType::Leaf);
            assert_eq!(root.len(), k as usize + 1);
        }
        // two more keys, order + 1 in all: one split
        tree.add(new_device_with_id(order as u64));
        tree.add(new_device_with_id(order as u64 + 1));
        assert!(tree.is_a_valid_btree());
        assert_eq!(tree.length, order as u64 + 1);
        let root = tree.root().unwrap();
        assert_eq!(root.node_type, NodeType::Regular);
        assert_eq!(root.len(), 2);
        assert_eq!(root.devices.len(), 1);
        let left = root.left_child.as_ref().unwrap();
        let right = root.children[0].as_ref().unwrap();
        assert_eq!(left.node_type, NodeType::Leaf);
        assert_eq!(right.node_type, NodeType::Leaf);
        assert_eq!(left.devices.len() + right.devices.len(), order);
        assert_eq!(root.devices[0].as_ref().unwrap().numerical_id, order as u64 / 2 + 1);
        assert_eq!(keys_of(&tree.walk()), (1..order as u64 + 2).collect::<Vec<u64>>());
    }
}

#[test]
fn btree_order_three_splits_on_the_third_key() {
    let mut tree = DeviceDatabase::new_empty(3);
    tree.add(new_device_with_id(1));
    tree.add(new_device_with_id(2));
    assert_eq!(tree.root().unwrap().node_type, NodeType::Leaf);
    assert_eq!(tree.validate(tree.root().unwrap(), 0), (true, 0, 0));
    tree.add(new_device_with_id(3));
    let root = tree.root().unwrap();
    assert_eq!(root.node_type, NodeType::Regular);
    assert_eq!(root.devices[0].as_ref().unwrap().numerical_id, 2);
    assert_eq!(tree.validate(root, 0), (true, 1, 1));
    assert!(tree.is_a_valid_btree());
    assert_eq!(tree.length, 3);
    assert_eq!(keys_of(&tree.walk()), vec![1, 2, 3]);
}

#[test]
fn node_find_closest_index() {
    let mut node = Node::new_leaf();
    assert_eq!(node.find_closest_index(5), Direction::Left);
    for k in [10u64, 20, 20, 30] {
        node.add_key(k, (Some(new_device_with_id(k)), None));
    }
    assert_eq!(node.find_closest_index(5), Direction::Left);
    assert_eq!(node.find_closest_index(10), Direction::Right(0));
    assert_eq!(node.find_closest_index(15), Direction::Right(0));
    assert_eq!(node.find_closest_index(20), Direction::Right(2));
    assert_eq!(node.find_closest_index(29), Direction::Right(2));
    assert_eq!(node.find_closest_index(30), Direction::Right(3));
    assert_eq!(node.find_closest_index(u64::MAX), Direction::Right(3));
}

#[test]
fn node_add_key_keeps_slots_sorted() {
    let mut node = Node::new_leaf();
    for k in [5u64, 1, 9, 3, 7] {
        assert!(node.add_key(k, (Some(new_device_with_id(k)), None)));
    }
    let keys: Vec<u64> = node.devices.iter().map(|d| d.as_ref().unwrap().numerical_id).collect();
    assert_eq!(keys, vec![1, 3, 5, 7, 9]);
    assert_eq!(node.children.len(), 5);
    assert_eq!(node.len(), 6);
}

#[test]
fn node_add_key_puts_an_equal_key_behind() {
    let mut node = Node::new_leaf();
    node.add_key(4, (Some(new_device_with_id_path(4, "old")), None));
    node.add_key(4, (Some(new_device_with_id_path(4, "new")), None));
    assert_eq!(node.devices[0].as_ref().unwrap().path, "old");
    assert_eq!(node.devices[1].as_ref().unwrap().path, "new");
    assert_eq!(node.get_device(4).unwrap().path, "old");
}

#[test]
fn node_remove_key() {
    let mut node = Node::new_regular();
    node.add_left_child(Some(Node::new_leaf()));
    for k in [10u64, 20, 30] {
        node.add_key(k, (Some(new_device_with_id(k)), Some(Node::new_leaf())));
    }
    // a key below the first slot takes the left child out
    let (key, (device, child)) = node.remove_key(5).unwrap();
    assert_eq!(key, 5);
    assert!(device.is_none());
    assert!(child.is_some());
    assert!(node.left_child.is_none());
    assert_eq!(node.len(), 4);
    // any other key takes the closest slot out
    let (key, (device, child)) = node.remove_key(25).unwrap();
    assert_eq!(key, 20);
    assert_eq!(device.unwrap().numerical_id, 20);
    assert!(child.is_some());
    assert_eq!(node.len(), 3);
    let keys: Vec<u64> = node.devices.iter().map(|d| d.as_ref().unwrap().numerical_id).collect();
    assert_eq!(keys, vec![10, 30]);
}

#[test]
fn node_get_device_and_get_child() {
    let mut node = Node::new_regular();
    let mut left = Node::new_leaf();
    left.add_key(1, (Some(new_device_with_id(1)), None));
    node.add_left_child(Some(left));
    let mut right = Node::new_leaf();
    right.add_key(11, (Some(new_device_with_id(11)), None));
    node.add_key(10, (Some(new_device_with_id(10)), Some(right)));

    assert_eq!(node.get_device(10).unwrap().numerical_id, 10);
    assert!(node.get_device(11).is_none());
    assert_eq!(node.get_child(3).unwrap().devices[0].as_ref().unwrap().numerical_id, 1);
    assert_eq!(node.get_child(10).unwrap().devices[0].as_ref().unwrap().numerical_id, 11);
    assert_eq!(node.get_child(99).unwrap().devices[0].as_ref().unwrap().numerical_id, 11);
}

#[test]
fn node_split_of_a_regular_node() {
    let mut node = Node::new_regular();
    node.add_left_child(Some(Node::new_leaf()));
    for k in [10u64, 20, 30, 40, 50] {
        let mut child = Node::new_leaf();
        child.add_key(k + 1, (Some(new_device_with_id(k + 1)), None));
        node.add_key(k, (Some(new_device_with_id(k)), Some(child)));
    }
    let (promoted, sibling) = node.split();
    assert_eq!(promoted.numerical_id, 30);
    assert_eq!(sibling.node_type, NodeType::Regular);
    let lower: Vec<u64> = node.devices.iter().map(|d| d.as_ref().unwrap().numerical_id).collect();
    let upper: Vec<u64> =
        sibling.devices.iter().map(|d| d.as_ref().unwrap().numerical_id).collect();
    assert_eq!(lower, vec![10, 20]);
    assert_eq!(upper, vec![40, 50]);
    // the child of the promoted slot leads the sibling
    let lead = sibling.left_child.as_ref().unwrap();
    assert_eq!(lead.devices[0].as_ref().unwrap().numerical_id, 31);
    assert_eq!(sibling.children[0].as_ref().unwrap().devices[0].as_ref().unwrap().numerical_id, 41);
    assert_eq!(sibling.children[1].as_ref().unwrap().devices[0].as_ref().unwrap().numerical_id, 51);
}

#[test]
fn validate_reads_rules_and_levels() {
    let tree = DeviceDatabase::new_empty(3);
    // a regular node without any child: no leaf below it
    let bare = Node::new_regular();
    assert_eq!(tree.validate(&bare, 0), (false, usize::MAX, 0));
    // a root with one slot and two leaves
    let mut root = Node::new_regular();
    root.add_left_child(Some(Node::new_leaf()));
    root.add_key(5, (Some(new_device_with_id(5)), Some(Node::new_leaf())));
    assert_eq!(tree.validate(&root, 0), (true, 1, 1));
    // leaves on two levels
    let mut lopsided = Node::new_regular();
    lopsided.add_left_child(Some(Node::new_leaf()));
    lopsided.add_key(9, (Some(new_device_with_id(9)), Some(root)));
    assert_eq!(tree.validate(&lopsided, 0), (true, 1, 2));
    // a leaf with more children than the order allows
    let mut wide = Node::new_leaf();
    for k in 0..3u64 {
        wide.add_key(k, (Some(new_device_with_id(k)), None));
    }
    assert_eq!(tree.validate(&wide, 4), (false, 4, 4));
}

#[test]
fn device_equality_ignores_the_path() {
    let a = IoTDevice::new(1, "addr".to_string(), "x".to_string());
    let b = IoTDevice::new(1, "addr".to_string(), "y".to_string());
    let c = IoTDevice::new(1, "other".to_string(), "x".to_string());
    let d = IoTDevice::new(2, "addr".to_string(), "x".to_string());
    assert!(a == b);
    assert!(a != c);
    assert!(a != d);
    let copy = a.clone();
    assert_eq!(copy.numerical_id, 1);
    assert_eq!(copy.address, "addr");
    assert_eq!(copy.path, "x");
}

fn slot_keys(node: &Node) -> Vec<u64> {
    node.devices.iter().map(|d| d.as_ref().unwrap().numerical_id).collect()
}

#[test]
fn btree_keys_one_to_four_at_order_three() {
    let mut tree = DeviceDatabase::new_empty(3);
    for k in 1..=4u64 {
        tree.add(new_device_with_id(k));
    }
    assert_eq!(tree.len(), 4);
    let root = tree.root().unwrap();
    assert_eq!(root.node_type, NodeType::Regular);
    assert_eq!(slot_keys(root), vec![2]);
    let left = root.left_child.as_ref().unwrap();
    let right = root.children[0].as_ref().unwrap();
    assert_eq!(left.node_type, NodeType::Leaf);
    assert_eq!(right.node_type, NodeType::Leaf);
    assert_eq!(slot_keys(left), vec![1]);
    assert_eq!(slot_keys(right), vec![3, 4]);
}

#[test]
fn btree_splits_only_a_node_that_exceeds_the_order() {
    // order 4: a node may hold three slots, and is split with the fourth
    let mut tree = DeviceDatabase::new_empty(4);
    for k in 1..=3u64 {
        tree.add(new_device_with_id(k));
        assert_eq!(tree.root().unwrap().node_type, NodeType::Leaf);
    }
    assert_eq!(slot_keys(tree.root().unwrap()), vec![1, 2, 3]);
    tree.add(new_device_with_id(4));
    {
        let root = tree.root().unwrap();
        assert_eq!(root.node_type, NodeType::Regular);
        assert_eq!(slot_keys(root), vec![3]);
        assert_eq!(slot_keys(root.left_child.as_ref().unwrap()), vec![1, 2]);
        assert_eq!(slot_keys(root.children[0].as_ref().unwrap()), vec![4]);
    }
    tree.add(new_device_with_id(5));
    let root = tree.root().unwrap();
    assert_eq!(slot_keys(root), vec![3]);
    assert_eq!(slot_keys(root.left_child.as_ref().unwrap()), vec![1, 2]);
    assert_eq!(slot_keys(root.children[0].as_ref().unwrap()), vec![4, 5]);
    assert_eq!(tree.len(), 5);
}

#[test]
fn btree_height_grows_by_one_level_at_a_time() {
    let mut tree = DeviceDatabase::new_empty(3);
    let mut levels = 0;
    for k in 0..200u64 {
        tree.add(new_device_with_id(k));
        let (ok, shallowest, deepest) = tree.validate(tree.root().unwrap(), 0);
        assert!(ok);
        assert_eq!(shallowest, deepest);
        assert!(deepest == levels || deepest == levels + 1);
        levels = deepest;
    }
    assert!(levels >= 3);
}

#[test]
fn btree_second_record_of_a_key_stands_behind_the_first() {
    let mut tree = DeviceDatabase::new_empty(3);
    for k in [3u64, 1, 5, 2, 4, 7, 6] {
        tree.add(new_device_with_id_path(k, "first"));
    }
    tree.add(new_device_with_id_path(4, "second"));
    assert_eq!(tree.len(), 8);
    assert!(tree.is_a_valid_btree());
    let walk = tree.walk();
    assert_eq!(keys_of(&walk), vec![1, 2, 3, 4, 4, 5, 6, 7]);
    assert_eq!(walk[3].path, "first");
    assert_eq!(walk[4].path, "second");
    for k in 1..=7u64 {
        assert_eq!(tree.find(k).unwrap().numerical_id, k);
    }
    assert_eq!(tree.find(8), None);
}

#[test]
fn btree_repeated_keys_may_leave_the_key_order() {
    // keys that repeat are taken, counted and kept, and the tree stays valid;
    // but once the keys of a walk are alike in places, a later split may put
    // a slot behind records with greater keys, and a search passes them by
    let mut tree = DeviceDatabase::new_empty(4);
    for k in [5u64, 5, 5, 5, 6, 7, 1, 2] {
        tree.add(new_device_with_id(k));
        assert!(tree.is_a_valid_btree());
    }
    assert_eq!(tree.len(), 8);
    assert_eq!(keys_of(&tree.walk()), vec![1, 2, 5, 5, 6, 7, 5, 5]);
    assert_eq!(tree.find(1).unwrap().numerical_id, 1);
    assert_eq!(tree.find(5).unwrap().numerical_id, 5);
    assert_eq!(tree.find(6), None);
    assert_eq!(tree.find(7), None);
}
