use tables::sparse_table::SparseTable;
use tables::Table;

fn collect(t: &SparseTable<i64, u64>) -> Vec<i64> {
    let mut out: Vec<i64> = Vec::new();
    let mut it = t.all();
    while let Some(v) = it.next() {
        out.push(*v);
    }
    out
}

fn collect_enumerated(t: &SparseTable<i64, u64>) -> Vec<(u64, i64)> {
    let mut out: Vec<(u64, i64)> = Vec::new();
    let mut it = t.all_enumerated();
    while let Some((id, v)) = it.next_enumerated() {
        out.push((id, *v));
    }
    out
}

#[test]
fn sparse_scenario_delete_then_reuse() {
    let mut t: SparseTable<i64, u64> = SparseTable::new();
    t.push(10, 0);
    t.delete_by_id(0);
    assert_eq!(t.try_get_by_id(0), None);
    assert_eq!(collect(&t), Vec::<i64>::new());
    t.set_by_id(0, 20);
    assert_eq!(collect(&t), vec![20]);
}

#[test]
fn sparse_round_trip() {
    let mut t: SparseTable<i64, u64> = SparseTable::new();
    t.push(7, 0);
    t.push(8, 1);
    assert_eq!(t.try_get_by_id(1), Some(&8));
    assert_eq!(t.try_get_by_id(0), Some(&7));
}

#[test]
fn sparse_get_by_id_returns_value() {
    let mut t: SparseTable<i64, u64> = SparseTable::new();
    t.push(7, 0);
    assert_eq!(t.get_by_id(0), &7);
}

#[test]
fn sparse_validate_uniqueness_logs_every_push() {
    let mut t: SparseTable<i64, u64> = SparseTable::new();
    assert!(t.validate_uniqueness(0));
    t.push(10, 0);
    assert!(!t.validate_uniqueness(0));
    assert!(t.validate_uniqueness(1));
    t.delete_by_id(0);
    assert!(!t.validate_uniqueness(0));
}

#[test]
fn sparse_delete_idempotent() {
    let mut t: SparseTable<i64, u64> = SparseTable::new();
    t.push(10, 0);
    t.push(11, 1);
    t.delete_by_id(0);
    let once = (collect(&t), t.len(), t.try_get_by_id(0).copied());
    t.delete_by_id(0);
    let twice = (collect(&t), t.len(), t.try_get_by_id(0).copied());
    assert_eq!(once, twice);
    assert_eq!(once.0, vec![11]);
}

#[test]
fn sparse_delete_out_of_range_is_noop() {
    let mut t: SparseTable<i64, u64> = SparseTable::new();
    t.push(10, 0);
    t.delete_by_id(5);
    assert_eq!(t.len(), 1);
    assert_eq!(collect(&t), vec![10]);
}

#[test]
fn sparse_visibility_after_delete() {
    let mut t: SparseTable<i64, u64> = SparseTable::new();
    t.push(10, 0);
    t.push(11, 1);
    let before = t.len();
    t.delete_by_id(0);
    assert_eq!(t.try_get_by_id(0), None);
    assert_eq!(collect(&t), vec![11]);
    assert_eq!(t.len(), before - 1);
}

#[test]
fn sparse_slot_reuse_revives_entry() {
    let mut t: SparseTable<i64, u64> = SparseTable::new();
    t.push(10, 0);
    t.push(11, 1);
    t.delete_by_id(0);
    assert_eq!(t.len(), 1);
    t.set_by_id(0, 20);
    assert_eq!(t.len(), 2);
    assert_eq!(t.try_get_by_id(0), Some(&20));
    assert_eq!(collect(&t), vec![20, 11]);
}

#[test]
fn sparse_set_overwrites_live_slot() {
    let mut t: SparseTable<i64, u64> = SparseTable::new();
    t.push(10, 0);
    t.set_by_id(0, 99);
    assert_eq!(t.len(), 1);
    assert_eq!(collect(&t), vec![99]);
}

#[test]
fn sparse_iteration_order_is_ascending_index() {
    let mut t: SparseTable<i64, u64> = SparseTable::new();
    t.push(30, 0);
    t.push(31, 1);
    t.push(32, 2);
    t.delete_by_id(1);
    assert_eq!(collect(&t), vec![30, 32]);
}

#[test]
fn sparse_all_enumerated_pairs_ids_with_values() {
    let mut t: SparseTable<i64, u64> = SparseTable::new();
    t.push(30, 0);
    t.push(31, 1);
    t.push(32, 2);
    t.delete_by_id(0);
    assert_eq!(collect_enumerated(&t), vec![(1, 31), (2, 32)]);
}

#[test]
fn sparse_all_is_restartable() {
    let mut t: SparseTable<i64, u64> = SparseTable::new();
    t.push(1, 0);
    t.push(2, 1);
    assert_eq!(collect(&t), collect(&t));
}

#[test]
fn sparse_default_is_empty() {
    let t: SparseTable<i64, u64> = SparseTable::default();
    assert_eq!(t.len(), 0);
    assert_eq!(collect(&t), Vec::<i64>::new());
    assert_eq!(t.try_get_by_id(0), None);
}
