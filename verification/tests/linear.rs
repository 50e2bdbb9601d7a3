use tables::linear_table::LinearTable;
use tables::Table;

fn collect(t: &LinearTable<String, u64>) -> Vec<String> {
    let mut out: Vec<String> = Vec::new();
    let mut it = t.all();
    while let Some(v) = it.next() {
        out.push(v.clone());
    }
    out
}

#[test]
fn linear_scenario_push_delete_iterate() {
    let mut t: LinearTable<String, u64> = LinearTable::new();
    t.push(String::from("a"), 1);
    t.push(String::from("b"), 2);
    t.push(String::from("c"), 3);
    assert_eq!(collect(&t), vec!["a", "b", "c"]);
    t.delete_by_id(2);
    assert_eq!(collect(&t), vec!["a", "c"]);
    assert_eq!(t.len(), 2);
}

#[test]
fn linear_round_trip() {
    let mut t: LinearTable<String, u64> = LinearTable::new();
    t.push(String::from("v"), 5);
    assert_eq!(t.try_get_by_id(5), Some(&String::from("v")));
}

#[test]
fn linear_try_get_missing_is_none() {
    let t: LinearTable<String, u64> = LinearTable::new();
    assert_eq!(t.try_get_by_id(1), None);
    let mut t2: LinearTable<String, u64> = LinearTable::new();
    t2.push(String::from("a"), 1);
    assert_eq!(t2.try_get_by_id(2), None);
}

#[test]
fn linear_get_by_id_returns_value() {
    let mut t: LinearTable<String, u64> = LinearTable::new();
    t.push(String::from("a"), 1);
    t.push(String::from("b"), 2);
    assert_eq!(t.get_by_id(2), &String::from("b"));
}

#[test]
fn linear_delete_idempotent() {
    let mut t: LinearTable<String, u64> = LinearTable::new();
    t.push(String::from("a"), 1);
    t.push(String::from("b"), 2);
    t.delete_by_id(1);
    let once = (collect(&t), t.len(), t.try_get_by_id(1).cloned());
    t.delete_by_id(1);
    let twice = (collect(&t), t.len(), t.try_get_by_id(1).cloned());
    assert_eq!(once, twice);
    assert_eq!(once.0, vec!["b"]);
}

#[test]
fn linear_delete_missing_is_noop() {
    let mut t: LinearTable<String, u64> = LinearTable::new();
    t.push(String::from("a"), 1);
    t.delete_by_id(99);
    assert_eq!(t.len(), 1);
    assert_eq!(collect(&t), vec!["a"]);
}

#[test]
fn linear_visibility_after_delete() {
    let mut t: LinearTable<String, u64> = LinearTable::new();
    t.push(String::from("a"), 1);
    t.push(String::from("b"), 2);
    let before = t.len();
    t.delete_by_id(1);
    assert_eq!(t.try_get_by_id(1), None);
    assert_eq!(collect(&t), vec!["b"]);
    assert_eq!(t.len(), before - 1);
}

#[test]
fn linear_validate_uniqueness_tracks_live_ids() {
    let mut t: LinearTable<String, u64> = LinearTable::new();
    assert!(t.validate_uniqueness(1));
    t.push(String::from("a"), 1);
    assert!(!t.validate_uniqueness(1));
    assert!(t.validate_uniqueness(2));
    t.delete_by_id(1);
    assert!(t.validate_uniqueness(1));
}

#[test]
fn linear_set_by_id_replaces_in_place() {
    let mut t: LinearTable<String, u64> = LinearTable::new();
    t.push(String::from("a"), 1);
    t.push(String::from("b"), 2);
    t.push(String::from("c"), 3);
    t.set_by_id(2, String::from("z"));
    assert_eq!(collect(&t), vec!["a", "z", "c"]);
    assert_eq!(t.try_get_by_id(2), Some(&String::from("z")));
    assert_eq!(t.len(), 3);
}

#[test]
fn linear_set_by_id_missing_has_no_effect() {
    let mut t: LinearTable<String, u64> = LinearTable::new();
    t.push(String::from("a"), 1);
    t.set_by_id(9, String::from("q"));
    assert_eq!(t.len(), 1);
    assert_eq!(t.try_get_by_id(9), None);
    assert_eq!(collect(&t), vec!["a"]);
}

#[test]
fn linear_iteration_order_is_insertion_order() {
    let mut t: LinearTable<String, u64> = LinearTable::new();
    for (i, s) in ["p", "q", "r", "s"].iter().enumerate() {
        t.push(String::from(*s), i as u64);
    }
    t.delete_by_id(2);
    assert_eq!(collect(&t), vec!["p", "q", "s"]);
}

#[test]
fn linear_all_is_restartable() {
    let mut t: LinearTable<String, u64> = LinearTable::new();
    t.push(String::from("a"), 1);
    t.push(String::from("b"), 2);
    assert_eq!(collect(&t), collect(&t));
}

#[test]
fn linear_default_is_empty() {
    let t: LinearTable<String, u64> = LinearTable::default();
    assert_eq!(t.len(), 0);
    assert_eq!(collect(&t), Vec::<String>::new());
}
