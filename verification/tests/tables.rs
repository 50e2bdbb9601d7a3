use tables::sparse_table::SparseTableEntry;
use tables::TableEntry;

#[test]
fn it_works() {
    assert_eq!(2 + 2, 4);
}

#[test]
fn table_entry_new_holds_fields() {
    let e = TableEntry::new(7u64, String::from("x"));
    assert_eq!(e.id, 7);
    assert_eq!(e.data, "x");
}

#[test]
fn sparse_table_entry_new_holds_fields() {
    let e = SparseTableEntry::new(3u64, 42i32, true);
    assert_eq!(e.id, 3);
    assert_eq!(e.data, 42);
    assert!(e.busy);
    let t = SparseTableEntry::new(0u64, 0i32, false);
    assert!(!t.busy);
}
