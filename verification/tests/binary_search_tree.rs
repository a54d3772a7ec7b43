use device_store::binary_search_tree::{DeviceRegistry, Node};
use device_store::device::IoTDevice;

fn new_device_with_id_path(id: u64, path: &str) -> IoTDevice {
    IoTDevice::new(id, format!("My address is {}", id), path.to_string())
}

fn new_device_with_id(id: u64) -> IoTDevice {
    new_device_with_id_path(id, "")
}

/// A fixed rearrangement of `0..len`, different for each seed.
fn shuffled(len: u64, seed: u64) -> Vec<u64> {
    let mut items: Vec<u64> = (0..len).collect();
    let mut state = seed.wrapping_mul(6364136223846793005).wrapping_add(1442695040888963407);
    let mut i = items.len();
    while i > 1 {
        state = state.wrapping_mul(6364136223846793005).wrapping_add(1442695040888963407);
        let j = ((state >> 33) as usize) % i;
        i -= 1;
        items.swap(i, j);
    }
    items
}

#[test]
fn binary_search_tree_add() {
    let mut tree = DeviceRegistry::new_empty();
    tree.add(new_device_with_id(4));
    tree.add(new_device_with_id(3));
    tree.add(new_device_with_id(2));
    tree.add(new_device_with_id(1));
    tree.add(new_device_with_id(5));
    tree.add(new_device_with_id(6));
    tree.add(new_device_with_id(7));
    assert_eq!(tree.length, 7);
}

#[test]
fn binary_search_tree_find() {
    let mut tree = DeviceRegistry::new_empty();

    tree.add(new_device_with_id(4));
    tree.add(new_device_with_id(3));
    tree.add(new_device_with_id(2));
    tree.add(new_device_with_id(1));
    tree.add(new_device_with_id(5));
    tree.add(new_device_with_id(6));
    tree.add(new_device_with_id(7));
    assert_eq!(tree.find(100), None);
    assert_eq!(tree.find(4), Some(new_device_with_id(4)));
    assert_eq!(tree.find(3), Some(new_device_with_id(3)));
    assert_eq!(tree.find(2), Some(new_device_with_id(2)));
    assert_eq!(tree.find(1), Some(new_device_with_id(1)));
    assert_eq!(tree.find(5), Some(new_device_with_id(5)));
    assert_eq!(tree.find(6), Some(new_device_with_id(6)));
    assert_eq!(tree.find(7), Some(new_device_with_id(7)));
    assert_eq!(tree.length, 7);
}

#[test]
fn binary_search_tree_walk_in_order() {
    let len = 10;

    let mut tree = DeviceRegistry::new_empty();
    let items: Vec<IoTDevice> = shuffled(len, 5).into_iter().map(new_device_with_id).collect();

    for item in items.iter() {
        tree.add(item.clone());
    }

    assert_eq!(tree.length, len);
    let v: Vec<IoTDevice> = tree.walk();
    let mut items = items;
    // sort in descending order:
    items.sort_by(|a, b| b.numerical_id.cmp(&a.numerical_id));
    assert_eq!(v, items)
}

#[test]
fn binary_search_tree_empty() {
    let tree = DeviceRegistry::new_empty();
    assert_eq!(tree.length, 0);
    assert_eq!(tree.find(1), None);
    assert!(tree.walk().is_empty());
}

#[test]
fn binary_search_tree_finds_the_first_of_equal_keys() {
    let mut tree = DeviceRegistry::new_empty();
    tree.add(new_device_with_id_path(5, "first"));
    tree.add(new_device_with_id_path(7, "other"));
    tree.add(new_device_with_id_path(5, "second"));
    tree.add(new_device_with_id_path(3, "low"));
    assert_eq!(tree.length, 4);
    assert_eq!(tree.len(), 4);
    assert_eq!(tree.find(5).unwrap().path, "first");
    let paths: Vec<String> = tree.walk().into_iter().map(|d| d.path).collect();
    assert_eq!(paths, vec!["other", "second", "first", "low"]);
}

#[test]
fn binary_search_tree_node_is_a_tree_of_one() {
    let tree = Node::new(new_device_with_id(8)).unwrap();
    assert_eq!(tree.dev.numerical_id, 8);
    assert!(tree.left.is_none());
    assert!(tree.right.is_none());
}
