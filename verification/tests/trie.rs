use device_store::device::IoTDevice;
use device_store::trie::{BestDeviceRegistry, Node};

fn new_device_with_id_path(id: u64, path: String) -> IoTDevice {
    IoTDevice::new(id, format!("My address is {}", id), path)
}

/// Numbers below `bound` that look arbitrary, the same on every run.
fn arbitrary(count: u64, bound: u64, seed: u64) -> Vec<u64> {
    let mut state = seed.wrapping_mul(6364136223846793005).wrapping_add(1442695040888963407);
    let mut out = Vec::new();
    for _ in 0..count {
        state = state.wrapping_mul(6364136223846793005).wrapping_add(1442695040888963407);
        out.push((state >> 33) % bound);
    }
    out
}

#[test]
fn trie_add() {
    let mut trie = BestDeviceRegistry::new_empty();
    let len = 10;

    let factories = arbitrary(len, len, 1);

    for i in 0..len {
        trie.add(new_device_with_id_path(
            i,
            format!("factory{}/machineA/{}", factories[i as usize], i),
        ));
    }

    assert_eq!(trie.length, len);
}

#[test]
fn trie_walk_in_order() {
    let mut trie = BestDeviceRegistry::new_empty();
    let len = 10;

    let factories = arbitrary(len, len, 2);
    let items: Vec<IoTDevice> = (0..len)
        .map(|i| {
            new_device_with_id_path(
                i,
                format!("factory{}/machineA/{}", factories[i as usize], i),
            )
        })
        .collect();

    for item in items.iter() {
        trie.add(item.clone());
    }
    assert_eq!(trie.length, len);
    let v: Vec<IoTDevice> = trie.walk();
    let mut items = items;
    // sort in descending order:
    items.sort_by(|a, b| b.numerical_id.cmp(&a.numerical_id));
    let mut actual = v;
    actual.sort_by(|a, b| b.numerical_id.cmp(&a.numerical_id));
    assert_eq!(actual, items)
}

#[test]
fn trie_find() {
    let mut trie = BestDeviceRegistry::new_empty();
    let len = 10;

    let factories = arbitrary(len, len, 3);
    let mut paths = vec![];
    for i in 0..len {
        let s = format!("factory{}/machineA/{}", factories[i as usize], i);
        trie.add(new_device_with_id_path(i, s.clone()));
        paths.push(s);
    }

    assert_eq!(trie.length, len);
    assert_eq!(trie.find("100"), None);
    for (i, p) in paths.iter().enumerate() {
        assert_eq!(trie.find(p).unwrap().numerical_id, i as u64);
    }
}

#[test]
fn trie_empty() {
    let trie = BestDeviceRegistry::new_empty();
    assert_eq!(trie.length, 0);
    assert_eq!(trie.find(""), None);
    assert_eq!(trie.find("a"), None);
    assert!(trie.walk().is_empty());
}

#[test]
fn trie_ignores_a_device_without_path() {
    let mut trie = BestDeviceRegistry::new_empty();
    trie.add(new_device_with_id_path(1, String::new()));
    assert_eq!(trie.length, 0);
    assert!(trie.walk().is_empty());
}

#[test]
fn trie_finds_only_what_is_stored_at_the_path() {
    let mut trie = BestDeviceRegistry::new_empty();
    trie.add(new_device_with_id_path(1, "ab".to_string()));
    trie.add(new_device_with_id_path(2, "abcd".to_string()));
    assert_eq!(trie.len(), 2);
    // the path itself
    assert_eq!(trie.find("ab").unwrap().numerical_id, 1);
    assert_eq!(trie.find("abcd").unwrap().numerical_id, 2);
    // a node without a device
    assert_eq!(trie.find("a"), None);
    assert_eq!(trie.find("abc"), None);
    // a path that runs on past a stored one, or leaves the trie
    assert_eq!(trie.find("abx"), None);
    assert_eq!(trie.find("abcdef"), None);
    assert_eq!(trie.find("abcx"), None);
    assert_eq!(trie.find("ax"), None);
    // not even the first character is there
    assert_eq!(trie.find("x"), None);
    assert_eq!(trie.find("xab"), None);
    assert_eq!(trie.find(""), None);
}

#[test]
fn trie_later_device_takes_the_path() {
    let mut trie = BestDeviceRegistry::new_empty();
    trie.add(new_device_with_id_path(1, "p/q".to_string()));
    trie.add(new_device_with_id_path(2, "p/q".to_string()));
    assert_eq!(trie.length, 2);
    assert_eq!(trie.find("p/q").unwrap().numerical_id, 2);
    let all = trie.walk();
    assert_eq!(all.len(), 1);
    assert_eq!(all[0].numerical_id, 2);
}

#[test]
fn trie_paths_of_other_alphabets() {
    let mut trie = BestDeviceRegistry::new_empty();
    trie.add(new_device_with_id_path(1, "w\u{e9}rk/\u{4e2d}".to_string()));
    trie.add(new_device_with_id_path(2, "w\u{e9}rk/\u{6587}".to_string()));
    assert_eq!(trie.find("w\u{e9}rk/\u{4e2d}").unwrap().numerical_id, 1);
    assert_eq!(trie.find("w\u{e9}rk/\u{6587}").unwrap().numerical_id, 2);
    assert_eq!(trie.find("werk"), None);
    let mut ids: Vec<u64> = trie.walk().iter().map(|d| d.numerical_id).collect();
    ids.sort();
    assert_eq!(ids, vec![1, 2]);
}

#[test]
fn trie_node_starts_without_children() {
    let node = Node::new('k', None);
    assert_eq!(node.key, 'k');
    assert!(node.value.is_none());
    assert!(node.next.is_empty());
}

#[test]
fn trie_nodes_are_alike_by_their_character() {
    let a = Node::new('k', None);
    let b = Node::new('k', Some(new_device_with_id_path(1, "k".to_string())));
    let c = Node::new('j', None);
    assert!(*a == *b);
    assert!(*a != *c);
}
