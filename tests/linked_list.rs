use transaction_log::linked_list::TransactionLog;

#[test]
fn mod_test_new_transaction_log() {
    let log = TransactionLog::new_empty();

    assert_eq!(log.length, 0);
    assert!(log.head().is_none());
    assert!(log.tail().is_none());
}

#[test]
fn test_single_append() {
    let mut log = TransactionLog::new_empty();
    log.append(String::from("Transaction 1"));

    assert_eq!(log.length, 1);
    assert!(log.head().is_some());
    assert!(log.tail().is_some());

    assert!(std::ptr::eq(log.head().unwrap(), log.tail().unwrap()));
}

#[test]
fn test_pop_single_elements() {
    let mut log = TransactionLog::new_empty();
    log.append(String::from("Transaction 1"));

    let popped = log.pop();

    assert_eq!(popped, Some(String::from("Transaction 1")));
    assert_eq!(log.length, 0);

    assert!(log.head().is_none());
    assert!(log.tail().is_none());
}

#[test]
fn test_pop_multiple_elements() {
    let mut log = TransactionLog::new_empty();
    log.append(String::from("Transaction 1"));
    log.append(String::from("Transaction 2"));
    log.append(String::from("Transaction 3"));

    assert_eq!(log.pop(), Some(String::from("Transaction 1")));
    assert_eq!(log.length, 2);
    assert_eq!(log.pop(), Some(String::from("Transaction 2")));
    assert_eq!(log.length, 1);
    assert_eq!(log.pop(), Some(String::from("Transaction 3")));
    assert_eq!(log.length, 0);

    assert_eq!(log.pop(), None);
}

#[test]
fn test_mixed_operations() {
    let mut log = TransactionLog::new_empty();

    log.append(String::from("Transaction 1"));
    log.append(String::from("Transaction 2"));
    assert_eq!(log.pop(), Some(String::from("Transaction 1")));

    log.append(String::from("Transaction 3"));
    assert_eq!(log.length, 2);

    assert_eq!(log.pop(), Some(String::from("Transaction 2")));
    assert_eq!(log.pop(), Some(String::from("Transaction 3")));
    assert_eq!(log.pop(), None);
}

#[test]
fn singly_pop_on_empty_keeps_length_zero() {
    let mut log = TransactionLog::new_empty();
    assert_eq!(log.pop(), None);
    assert_eq!(log.length, 0);
    assert_eq!(log.len(), 0);
}

#[test]
fn singly_appends_counted_and_drained_in_order() {
    let mut log = TransactionLog::new_empty();
    let values = ["a", "b", "c", "d", "e"];
    for (i, v) in values.iter().enumerate() {
        log.append(v.to_string());
        assert_eq!(log.length, i + 1);
    }
    for v in values.iter() {
        assert_eq!(log.pop(), Some(v.to_string()));
    }
    assert_eq!(log.length, 0);
    assert_eq!(log.pop(), None);
}

#[test]
fn singly_pop_then_append_keeps_order() {
    let mut log = TransactionLog::new_empty();
    log.append(String::from("A"));
    log.append(String::from("B"));
    log.append(String::from("C"));
    assert_eq!(log.pop(), Some(String::from("A")));
    log.append(String::from("D"));
    assert_eq!(log.head().unwrap(), "B");
    assert_eq!(log.tail().unwrap(), "D");
    assert_eq!(log.pop(), Some(String::from("B")));
    assert_eq!(log.pop(), Some(String::from("C")));
    assert_eq!(log.pop(), Some(String::from("D")));
    assert_eq!(log.pop(), None);
}

#[test]
fn singly_length_tracks_interleaved_operations() {
    let mut log = TransactionLog::new_empty();
    let mut appends: usize = 0;
    let mut served: usize = 0;
    for round in 0..20usize {
        if round % 3 == 2 {
            if log.pop().is_some() {
                served += 1;
            }
        } else {
            log.append(format!("T{}", round));
            appends += 1;
        }
        assert_eq!(log.length, appends - served);
    }
}

#[test]
fn singly_empty_string_is_a_value() {
    let mut log = TransactionLog::new_empty();
    log.append(String::new());
    assert_eq!(log.pop(), Some(String::new()));
    assert_eq!(log.pop(), None);
}

#[test]
fn singly_interleaved_t1_t2_t3() {
    let mut log = TransactionLog::new_empty();
    log.append(String::from("T1"));
    log.append(String::from("T2"));
    assert_eq!(log.pop(), Some(String::from("T1")));
    assert_eq!(log.length, 1);
    log.append(String::from("T3"));
    assert_eq!(log.length, 2);
    assert_eq!(log.pop(), Some(String::from("T2")));
    assert_eq!(log.pop(), Some(String::from("T3")));
    assert_eq!(log.pop(), None);
}

#[test]
fn singly_freed_slots_are_reused_without_mixing_entries() {
    let mut log = TransactionLog::new_empty();
    for round in 0..50usize {
        log.append(format!("x{}", round));
        log.append(format!("y{}", round));
        assert_eq!(log.pop(), Some(format!("x{}", round)));
        assert_eq!(log.pop(), Some(format!("y{}", round)));
        assert_eq!(log.length, 0);
    }
}
