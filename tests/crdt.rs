use saorsa_gossip::crdt::{CrdtType, LwwRegister, OrSet};

#[test]
fn test_lww_register() {
    let mut reg = LwwRegister::new(42);
    assert_eq!(*reg.get(), 42);

    reg.set(100, 10);
    assert_eq!(*reg.get(), 100);

    // Older timestamp should not update
    reg.set(50, 5);
    assert_eq!(*reg.get(), 100);
}

#[test]
fn test_or_set() {
    let mut set = OrSet::new();
    set.add("alice", 1);
    set.add("bob", 2);

    assert!(set.contains(&"alice"));
    assert!(set.contains(&"bob"));
    assert!(!set.contains(&"charlie"));

    set.remove(&"alice");
    assert!(!set.contains(&"alice"));
}

#[test]
fn lww_equal_timestamp_keeps_value() {
    let mut reg = LwwRegister::new("a");
    reg.set("b", 0);
    assert_eq!(*reg.get(), "a");
    reg.set("c", 7);
    reg.set("d", 7);
    assert_eq!(*reg.get(), "c");
}

#[test]
fn or_set_elements_lists_each_once() {
    let mut set = OrSet::new();
    set.add(3u64, 1);
    set.add(5u64, 2);
    set.add(3u64, 9);
    let mut elems: Vec<u64> = set.elements().into_iter().copied().collect();
    elems.sort();
    assert_eq!(elems, vec![3, 5]);
    assert!(OrSet::<u64>::new().elements().is_empty());
}

#[test]
fn crdt_kinds_compare() {
    assert_eq!(CrdtType::OrSet, CrdtType::OrSet);
    assert_ne!(CrdtType::OrSet, CrdtType::Rga);
}
