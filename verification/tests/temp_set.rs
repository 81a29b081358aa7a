use lignin_native_windows_gui::temp_set::{EventBinding, EventBindingSet};
use lignin_native_windows_gui::{TempEventBindingSet, TempEventBindingSetBorrow};

fn binding(name: &str, callback: u32) -> EventBinding {
    EventBinding { name: name.to_string(), callback, options: 4 }
}

#[test]
fn set_holds_each_binding_once() {
    let mut set = EventBindingSet::new();
    assert!(set.is_empty());
    assert!(set.insert(binding("click", 1)));
    assert!(!set.insert(binding("click", 1)));
    assert!(set.insert(binding("click", 2)));
    assert_eq!(set.len(), 2);
    assert!(set.contains(&binding("click", 2)));
    assert!(!set.contains(&binding("keydown", 2)));
    assert!(set.remove(&binding("click", 1)));
    assert!(!set.remove(&binding("click", 1)));
    assert_eq!(set.len(), 1);
    set.clear();
    assert!(set.is_empty());
}

#[test]
fn temp_hands_out_an_empty_set_each_time() {
    let mut temp = TempEventBindingSet::new();
    {
        let set = temp.temp();
        assert!(set.is_empty());
        set.insert(binding("click", 1));
        assert_eq!(set.len(), 1);
    }
    let set = temp.temp();
    assert!(set.is_empty());
    assert!(!set.contains(&binding("click", 1)));
}

#[test]
fn borrow_reads_and_changes_the_set() {
    let mut set = EventBindingSet::new();
    let mut borrow = TempEventBindingSetBorrow(&mut set);
    borrow.deref_mut().insert(binding("input", 3));
    assert!(borrow.deref().contains(&binding("input", 3)));
    assert_eq!(set.len(), 1);
}
