use store_nav::scores::{filled, get, put, UNREACHED};

#[test]
fn unreached_is_half_the_largest_length() {
    assert_eq!(UNREACHED, i32::MAX / 2);
}

#[test]
fn filled_table_has_the_asked_shape() {
    let table = filled(2, 3, 7u8);
    assert_eq!(table, vec![vec![7, 7, 7], vec![7, 7, 7]]);
    assert!(filled(0, 3, 7u8).is_empty());
}

#[test]
fn put_changes_one_entry() {
    let mut table = filled(2, 3, 0i32);
    put(&mut table, (2, 1), 9);
    assert_eq!(table, vec![vec![0, 0, 0], vec![0, 0, 9]]);
    assert_eq!(get(&table, (2, 1)), 9);
    assert_eq!(get(&table, (1, 1)), 0);
}
