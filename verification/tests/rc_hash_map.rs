use lignin_native_windows_gui::count::Count;
use lignin_native_windows_gui::rc_hash_map::{CountSaturatedError, DrainWeak, RcBTreeMap};

#[test]
fn new_map_is_empty() {
    let map: RcBTreeMap<u64, u32, String> = RcBTreeMap::new();
    assert_eq!(map.len(), 0);
    let map: RcBTreeMap<u64, u32, String> = RcBTreeMap::default();
    assert_eq!(map.len(), 0);
}

#[test]
fn insert_makes_value_from_key() {
    let mut map: RcBTreeMap<u64, u32, String> = RcBTreeMap::new();
    let v = map.increment_or_insert_with(7, |k| format!("seven={}", k)).unwrap();
    assert_eq!(v, "seven=7");
    assert_eq!(map.len(), 1);
}

#[test]
fn increment_keeps_value_and_does_not_call_maker() {
    let mut map: RcBTreeMap<u64, u32, String> = RcBTreeMap::new();
    map.increment_or_insert_with(1, |_| "first".to_string()).unwrap();
    let v = map
        .increment_or_insert_with(1, |_| panic!("must not be called for a present key"))
        .unwrap();
    assert_eq!(v, "first");
    assert_eq!(map.len(), 1);
}

#[test]
fn value_can_be_changed_through_the_reference() {
    let mut map: RcBTreeMap<u64, u32, String> = RcBTreeMap::new();
    *map.increment_or_insert_with(3, |_| "a".to_string()).unwrap() = "b".to_string();
    let v = map.weak_decrement(&3).unwrap().unwrap();
    assert_eq!(v, "b");
}

#[test]
fn increment_saturates_at_type_maximum() {
    let mut map: RcBTreeMap<u64, u8, u32> = RcBTreeMap::new();
    map.increment_or_insert_with(5, |_| 50).unwrap();
    for _ in 0..254 {
        map.increment_or_insert_with(5, |_| 0).unwrap();
    }
    match map.increment_or_insert_with(5, |_| 0) {
        Err(CountSaturatedError) => {}
        Ok(_) => panic!("count 255 must not be raised"),
    }
    // The count is still 255: 255 decrements succeed, the next fails.
    for _ in 0..255 {
        assert!(map.weak_decrement(&5).is_ok());
    }
    assert!(map.weak_decrement(&5).is_err());
    assert_eq!(map.len(), 1);
}

#[test]
fn weak_decrement_of_absent_key_is_none() {
    let mut map: RcBTreeMap<u64, u32, u32> = RcBTreeMap::new();
    map.increment_or_insert_with(1, |_| 10).unwrap();
    assert!(matches!(map.weak_decrement(&2), Ok(None)));
    assert_eq!(map.len(), 1);
}

#[test]
fn weak_decrement_keeps_entry_at_zero_and_fails_below() {
    let mut map: RcBTreeMap<u64, u32, u32> = RcBTreeMap::new();
    map.increment_or_insert_with(1, |_| 10).unwrap();
    assert_eq!(*map.weak_decrement(&1).unwrap().unwrap(), 10);
    assert_eq!(map.len(), 1);
    assert!(matches!(map.weak_decrement(&1), Err(CountSaturatedError)));
    assert_eq!(map.len(), 1);
}

#[test]
fn increment_then_decrement_restores_count() {
    let mut map: RcBTreeMap<u64, u8, u32> = RcBTreeMap::new();
    map.increment_or_insert_with(9, |_| 1).unwrap();
    map.increment_or_insert_with(9, |_| 1).unwrap();
    map.weak_decrement(&9).unwrap();
    // Back to a count of one: one more decrement reaches zero, then it fails.
    map.weak_decrement(&9).unwrap();
    assert!(map.weak_decrement(&9).is_err());
}

#[test]
fn drain_weak_removes_zero_counts_in_key_order() {
    let mut map: RcBTreeMap<u64, u32, &str> = RcBTreeMap::new();
    map.increment_or_insert_with(3, |_| "three").unwrap();
    map.increment_or_insert_with(1, |_| "one").unwrap();
    map.increment_or_insert_with(2, |_| "two").unwrap();
    map.weak_decrement(&3).unwrap();
    map.weak_decrement(&1).unwrap();
    let mut drained: DrainWeak<u64, u32, &str> = map.drain_weak();
    assert_eq!(drained.size_hint(), (2, Some(2)));
    assert_eq!(drained.next(), Some((1, "one")));
    assert_eq!(drained.size_hint(), (1, Some(1)));
    assert_eq!(drained.next(), Some((3, "three")));
    assert_eq!(drained.next(), None);
    assert_eq!(map.len(), 1);
    assert_eq!(*map.weak_decrement(&2).unwrap().unwrap(), "two");
    // After draining, nothing further is weak: a second drain hands nothing out
    // but the entry just lowered to zero.
    let mut again = map.drain_weak();
    assert_eq!(again.next(), Some((2, "two")));
    assert_eq!(again.next(), None);
    assert_eq!(map.len(), 0);
}

#[test]
fn drain_weak_of_map_without_weak_entries_is_empty() {
    let mut map: RcBTreeMap<u64, u32, u32> = RcBTreeMap::new();
    map.increment_or_insert_with(4, |_| 4).unwrap();
    let mut drained = map.drain_weak();
    assert_eq!(drained.size_hint(), (0, Some(0)));
    assert_eq!(drained.next(), None);
    assert_eq!(map.len(), 1);
}

#[test]
fn weak_filter_tells_zero_counts() {
    let mut zero: (u32, &str) = (0, "x");
    let mut one: (u32, &str) = (1, "y");
    assert!(DrainWeak::<u64, u32, &str>::weak_filter(&1, &mut zero));
    assert!(!DrainWeak::<u64, u32, &str>::weak_filter(&1, &mut one));
    assert_eq!(zero, (0, "x"));
}

#[test]
fn counters_check_their_bounds() {
    assert_eq!(<u8 as Count>::one(), 1);
    assert_eq!(254u8.checked_increment(), Some(255));
    assert_eq!(255u8.checked_increment(), None);
    assert_eq!(0u16.checked_decrement(), None);
    assert_eq!(7u64.checked_decrement(), Some(6));
    assert!(0usize.is_zero());
    assert!(!1u128.is_zero());
    assert_eq!(u32::MAX.checked_increment(), None);
}

#[test]
fn signed_counts_go_below_zero() {
    let mut map: RcBTreeMap<u64, i8, u32> = RcBTreeMap::new();
    map.increment_or_insert_with(1, |_| 7).unwrap();
    map.weak_decrement(&1).unwrap();
    // A signed count goes on below zero; the entry is not weak then.
    assert_eq!(*map.weak_decrement(&1).unwrap().unwrap(), 7);
    let mut drained = map.drain_weak();
    assert_eq!(drained.next(), None);
    assert_eq!(map.len(), 1);
    assert_eq!((-128i8).checked_decrement(), None);
    assert_eq!(<i64 as Count>::one(), 1);
}

#[test]
fn string_keys_work_for_unverified_callers() {
    let mut map: RcBTreeMap<&str, u8, i32> = RcBTreeMap::new();
    assert_eq!(*map.increment_or_insert_with("a", |_| 5).unwrap(), 5);
    assert_eq!(*map.increment_or_insert_with("a", |_| 9).unwrap(), 5);
    assert_eq!(map.len(), 1);
    assert_eq!(*map.weak_decrement(&"a").unwrap().unwrap(), 5);
    assert_eq!(*map.weak_decrement(&"a").unwrap().unwrap(), 5);
    assert!(map.weak_decrement(&"a").is_err());
    assert_eq!(map.len(), 1);
}
