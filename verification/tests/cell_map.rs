use grip::cell_map::CellMap;

#[test]
fn ids_start_above_one_and_increase() {
    let mut m: CellMap<&str> = CellMap::new();
    assert_eq!(m.peek_id(), 2);
    let a = m.insert_with_unique_id("a");
    let b = m.insert_with_unique_id("b");
    assert_eq!(a, 2);
    assert_eq!(b, 3);
    assert_eq!(m.peek_id(), 4);
}

#[test]
fn get_after_insert_finds_the_item() {
    let mut m: CellMap<String> = CellMap::new();
    let a = m.insert_with_unique_id("first".to_string());
    let b = m.insert_with_unique_id("second".to_string());
    assert_eq!(m.get_with_id(a).map(|s| s.as_str()), Some("first"));
    assert_eq!(m.get_with_id(b).map(|s| s.as_str()), Some("second"));
    assert_eq!(m.get_with_id(7), None);
}

#[test]
fn removed_ids_are_gone_and_not_reused() {
    let mut m: CellMap<u8> = CellMap::new();
    let a = m.insert_with_unique_id(10);
    assert_eq!(m.remove_with_id(a), Some(10));
    assert_eq!(m.get_with_id(a), None);
    assert_eq!(m.remove_with_id(a), None);
    let b = m.insert_with_unique_id(11);
    assert_ne!(a, b);
    assert_eq!(b, 3);
}

#[test]
fn get_mut_changes_in_place() {
    let mut m: CellMap<Vec<u8>> = CellMap::new();
    let a = m.insert_with_unique_id(vec![1]);
    m.get_mut_with_id(a).unwrap().push(2);
    assert_eq!(m.get_with_id(a), Some(&vec![1, 2]));
    assert!(m.get_mut_with_id(99).is_none());
}

#[test]
fn default_is_empty() {
    let m: CellMap<u8> = CellMap::default();
    assert_eq!(m.peek_id(), 2);
    assert_eq!(m.get_with_id(2), None);
}

#[test]
fn ids_keep_increasing_across_removals() {
    let mut m: CellMap<u8> = CellMap::new();
    let a = m.insert_with_unique_id(1);
    let b = m.insert_with_unique_id(2);
    m.remove_with_id(b);
    m.remove_with_id(a);
    let _ = m.get_with_id(a);
    let c = m.insert_with_unique_id(3);
    assert!(c > b && b > a);
}
