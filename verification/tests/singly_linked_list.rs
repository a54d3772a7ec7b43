use device_store::singly_linked_list::{Node, TransactionLog};

#[test]
fn transaction_log_append() {
    let mut transaction_log = TransactionLog::new_empty();
    assert_eq!(transaction_log.length, 0);
    transaction_log.append("INSERT INTO mytable VALUES (1,2,3)".to_owned());
    transaction_log.append("INSERT INTO mytable VALUES (2,3,4)".to_owned());
    transaction_log.append("INSERT INTO mytable VALUES (3,4,5)".to_owned());
    assert_eq!(transaction_log.length, 3);
    assert_eq!(
        transaction_log.pop(),
        Some("INSERT INTO mytable VALUES (1,2,3)".to_owned())
    );
    assert_eq!(
        transaction_log.pop(),
        Some("INSERT INTO mytable VALUES (2,3,4)".to_owned())
    );
    assert_eq!(
        transaction_log.pop(),
        Some("INSERT INTO mytable VALUES (3,4,5)".to_owned())
    );
    assert_eq!(transaction_log.pop(), None);
}

#[test]
fn transaction_log_pop() {
    let mut list = TransactionLog::new_empty();
    assert_eq!(list.pop(), None);
    list.append("INSERT INTO mytable VALUES (1,2,3)".to_owned());
    list.append("INSERT INTO mytable VALUES (1,2,3)".to_owned());
    list.append("INSERT INTO mytable VALUES (1,2,3)".to_owned());
    assert_eq!(
        list.pop(),
        Some("INSERT INTO mytable VALUES (1,2,3)".to_owned())
    );
    assert_eq!(
        list.pop(),
        Some("INSERT INTO mytable VALUES (1,2,3)".to_owned())
    );
    assert_eq!(
        list.pop(),
        Some("INSERT INTO mytable VALUES (1,2,3)".to_owned())
    );
    assert_eq!(list.pop(), None);
}

#[test]
fn transaction_log_counts_entries() {
    let mut log = TransactionLog::new_empty();
    for i in 0..100u64 {
        log.append(format!("entry {}", i));
        assert_eq!(log.length, i + 1);
    }
    for i in 0..100u64 {
        assert_eq!(log.pop(), Some(format!("entry {}", i)));
        assert_eq!(log.length, 99 - i);
    }
    assert_eq!(log.pop(), None);
    assert_eq!(log.length, 0);
    assert_eq!(log.len(), 0);
}

#[test]
fn transaction_log_refills_after_running_empty() {
    let mut log = TransactionLog::new_empty();
    log.append("a".to_owned());
    assert_eq!(log.pop(), Some("a".to_owned()));
    assert_eq!(log.pop(), None);
    log.append("b".to_owned());
    log.append("c".to_owned());
    assert_eq!(log.length, 2);
    assert_eq!(log.pop(), Some("b".to_owned()));
    assert_eq!(log.pop(), Some("c".to_owned()));
}

#[test]
fn transaction_log_node_stands_alone() {
    let node = Node::new("x".to_owned());
    assert_eq!(node.value, "x");
    assert!(node.next.is_none());
}
