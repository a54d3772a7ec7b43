use device_store::device::IoTDevice;
use device_store::heap::MessageChecker;
use device_store::heap::notification::MessageNotification;

fn new_device_with_id_path(id: u64, path: &str) -> IoTDevice {
    IoTDevice::new(id, format!("My address is {}", id), path.to_string())
}

fn new_device_with_id(id: u64) -> IoTDevice {
    new_device_with_id_path(id, "")
}

fn new_notification_with_id(id: u64, no_messages: u64) -> MessageNotification {
    let dev = new_device_with_id(id);
    MessageNotification::new(dev, no_messages)
}

#[test]
fn binary_heap_add() {
    let mut heap = MessageChecker::new_empty();

    heap.add(new_notification_with_id(1, 100));
    heap.add(new_notification_with_id(2, 200));
    heap.add(new_notification_with_id(3, 500));
    heap.add(new_notification_with_id(4, 40));
    assert_eq!(heap.length, 4);
}

#[test]
fn binary_heap_pop() {
    let mut heap = MessageChecker::new_empty();

    let a = new_notification_with_id(1, 40);
    let b = new_notification_with_id(2, 300);
    let c = new_notification_with_id(3, 50);
    let d = new_notification_with_id(4, 500);

    heap.add(a.clone());
    heap.add(b.clone());
    heap.add(c.clone());
    heap.add(d.clone());

    assert_eq!(heap.length, 4);

    assert_eq!(heap.pop(), Some(d));
    assert_eq!(heap.pop(), Some(b));
    assert_eq!(heap.pop(), Some(c));
    assert_eq!(heap.pop(), Some(a));
}

#[test]
fn binary_heap_pop_on_empty() {
    let mut heap = MessageChecker::new_empty();
    assert_eq!(heap.length, 0);
    assert_eq!(heap.pop(), None);
    assert_eq!(heap.length, 0);
    heap.add(new_notification_with_id(7, 3));
    assert_eq!(heap.pop(), Some(new_notification_with_id(7, 3)));
    assert_eq!(heap.pop(), None);
}

#[test]
fn binary_heap_first_out_has_most_messages() {
    let mut heap = MessageChecker::new_empty();
    let counts = [5u64, 17, 3, 17, 40, 1, 22, 8, 40, 13, 2];
    for (i, n) in counts.iter().enumerate() {
        heap.add(new_notification_with_id(i as u64, *n));
        assert_eq!(heap.length, i + 1);
    }
    let first = heap.pop().unwrap();
    assert_eq!(first.no_messages, 40);
    assert_eq!(heap.length, 10);
}

#[test]
fn binary_heap_keeps_every_notification() {
    let mut heap = MessageChecker::new_empty();
    let counts = [9u64, 4, 7, 1, 8, 2, 6];
    for (i, n) in counts.iter().enumerate() {
        heap.add(new_notification_with_id(i as u64, *n));
    }
    let mut seen: Vec<u64> = Vec::new();
    while let Some(n) = heap.pop() {
        seen.push(n.no_messages);
    }
    assert_eq!(heap.length, 0);
    seen.sort();
    assert_eq!(seen, vec![1, 2, 4, 6, 7, 8, 9]);
}

#[test]
fn notification_equality() {
    let a = new_notification_with_id(1, 10);
    let same = MessageNotification::new(new_device_with_id_path(1, "elsewhere"), 10);
    let more = new_notification_with_id(1, 11);
    let other = new_notification_with_id(2, 10);
    assert!(a == same);
    assert!(a != more);
    assert!(a != other);
    let copy = a.clone();
    assert_eq!(copy.no_messages, 10);
    assert_eq!(copy.device.numerical_id, 1);
}

#[test]
fn binary_heap_rises_past_equal_counts() {
    let mut heap = MessageChecker::new_empty();
    heap.add(new_notification_with_id(1, 7));
    heap.add(new_notification_with_id(2, 7));
    // the later of two alike has risen to the front
    assert_eq!(heap.pop().unwrap().device.numerical_id, 2);
    assert_eq!(heap.pop().unwrap().device.numerical_id, 1);
}

#[test]
fn binary_heap_sinks_past_a_single_child() {
    let mut heap = MessageChecker::new_empty();
    heap.add(new_notification_with_id(1, 10));
    heap.add(new_notification_with_id(2, 9));
    heap.add(new_notification_with_id(3, 8));
    assert_eq!(heap.pop().unwrap().no_messages, 10);
    // the last one took the first place; its one child has more messages
    assert_eq!(heap.pop().unwrap().no_messages, 9);
    assert_eq!(heap.pop().unwrap().no_messages, 8);
    assert_eq!(heap.pop(), None);
}

#[test]
fn binary_heap_pops_by_descending_count() {
    let mut heap = MessageChecker::new_empty();
    for (id, n) in [(1u64, 10u64), (2, 20), (3, 5)] {
        heap.add(new_notification_with_id(id, n));
    }
    assert_eq!(heap.pop().unwrap().no_messages, 20);
    assert_eq!(heap.pop().unwrap().no_messages, 10);
    assert_eq!(heap.pop().unwrap().no_messages, 5);

    let counts = [5u64, 17, 3, 17, 40, 1, 22, 8, 40, 13, 2, 99, 0, 64, 31];
    for (i, n) in counts.iter().enumerate() {
        heap.add(new_notification_with_id(i as u64, *n));
    }
    assert_eq!(heap.len(), counts.len());
    let mut seen = Vec::new();
    while let Some(n) = heap.pop() {
        seen.push(n.no_messages);
    }
    let mut sorted = counts.to_vec();
    sorted.sort();
    sorted.reverse();
    assert_eq!(seen, sorted);
}

#[test]
fn binary_heap_sinks_below_the_greater_child() {
    let mut heap = MessageChecker::new_empty();
    for (id, n) in [(1u64, 50u64), (2, 40), (3, 45), (4, 10), (5, 20), (6, 44)] {
        heap.add(new_notification_with_id(id, n));
    }
    let mut counts = Vec::new();
    while let Some(n) = heap.pop() {
        counts.push(n.no_messages);
    }
    assert_eq!(counts, vec![50, 45, 44, 40, 20, 10]);
}
