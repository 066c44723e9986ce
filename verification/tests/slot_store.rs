//! Tests of the generational slot store: key stability, pre-linked
//! capacity, and free-list reuse.

use russh::slot::Slot;

#[test]
fn it_works() {
    assert_eq!(2 + 2, 4);
}

#[test]
fn insert_then_get_returns_each_value() {
    let mut s: Slot<u64> = Slot::new();
    let k0 = s.insert(10);
    let k1 = s.insert(20);
    let k2 = s.insert(30);
    assert_eq!(*s.get(k0), 10);
    assert_eq!(*s.get(k1), 20);
    assert_eq!(*s.get(k2), 30);
    assert_ne!(k0, k1);
    assert_ne!(k1, k2);
    assert_ne!(k0, k2);
}

#[test]
fn with_capacity_emits_ascending_keys_without_growth() {
    let mut s: Slot<&str> = Slot::with_capacity(3);
    assert_eq!(s.num_slots(), 3);
    let k0 = s.insert("a");
    let k1 = s.insert("b");
    let k2 = s.insert("c");
    assert_eq!(k0, 0);
    assert_eq!(k1, 1);
    assert_eq!(k2, 2);
    // the growth path was never taken: still exactly three slots
    assert_eq!(s.num_slots(), 3);
    assert_eq!(*s.get(0), "a");
    assert_eq!(*s.get(1), "b");
    assert_eq!(*s.get(2), "c");
}

#[test]
fn removed_key_is_reused_by_next_insert() {
    let mut s: Slot<char> = Slot::new();
    let k0 = s.insert('a');
    let k1 = s.insert('b');
    let taken = s.remove(k0);
    assert_eq!(taken, 'a');
    let k2 = s.insert('c');
    assert_eq!(k2, k0);
    assert_eq!(*s.get(k2), 'c');
    assert_eq!(*s.get(k1), 'b');
}

#[test]
fn get_mut_updates_in_place() {
    let mut s: Slot<u64> = Slot::new();
    let k = s.insert(1);
    *s.get_mut(k) = 99;
    assert_eq!(*s.get(k), 99);
}

#[test]
fn used_at_reports_liveness() {
    let mut s: Slot<u8> = Slot::new();
    let k0 = s.insert(5);
    let k1 = s.insert(6);
    s.remove(k0);
    assert!(!s.used_at(k0));
    assert!(s.used_at(k1));
}

#[test]
fn iter_walks_used_entries_in_slot_order() {
    let mut s: Slot<u64> = Slot::new();
    let k0 = s.insert(10);
    let _k1 = s.insert(20);
    let k2 = s.insert(30);
    s.remove(k0);
    s.remove(k2);
    let k3 = s.insert(40); // reuses k2, so slot order diverges from insertion order
    assert_eq!(k3, k2);
    let mut it = s.iter();
    let mut seen: Vec<(usize, u64)> = Vec::new();
    while let Some((k, v)) = it.next() {
        seen.push((k, *v));
    }
    assert_eq!(seen, vec![(1, 20), (2, 40)]);
}

#[test]
fn iter_mut_updates_live_entries_in_place() {
    let mut s: Slot<u64> = Slot::new();
    let k0 = s.insert(1);
    let _k1 = s.insert(2);
    let k2 = s.insert(3);
    s.remove(k0);
    {
        let mut it = s.iter_mut();
        while let Some((k, v)) = it.next() {
            *v = *v * 10;
            assert!(k == 1 || k == 2);
        }
    }
    assert_eq!(*s.get(1), 20);
    assert_eq!(*s.get(k2), 30);
}

#[test]
fn zero_capacity_store_grows_from_key_zero() {
    let mut s: Slot<u8> = Slot::with_capacity(0);
    assert_eq!(s.num_slots(), 0);
    let k = s.insert(7);
    assert_eq!(k, 0);
    assert_eq!(s.num_slots(), 1);
    assert_eq!(*s.get(k), 7);
}
