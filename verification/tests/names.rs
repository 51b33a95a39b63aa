use typed_fsm_diagram::names::{NameMap, NameSet};

#[test]
fn a_set_keeps_the_order_of_first_insertion() {
    let mut s = NameSet::new();
    s.insert("b".to_string());
    s.insert("a".to_string());
    s.insert("b".to_string());
    assert_eq!(s.len(), 2);
    assert_eq!(s.get(0), "b");
    assert_eq!(s.get(1), "a");
    assert!(s.contains("a"));
    assert!(!s.contains("c"));
}

#[test]
fn a_map_keeps_the_last_value() {
    let mut m: NameMap<u32> = NameMap::new();
    assert_eq!(m.get("a"), None);
    m.insert("a".to_string(), 1);
    m.insert("b".to_string(), 2);
    m.insert("a".to_string(), 3);
    assert_eq!(m.len(), 2);
    assert_eq!(m.get("a"), Some(&3));
    assert_eq!(m.get("b"), Some(&2));
    assert!(m.contains_key("a"));
    assert!(!m.contains_key("c"));
}
