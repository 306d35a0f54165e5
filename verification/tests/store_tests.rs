use task_store::model::Task;
use task_store::store::Db;

fn task(id: u64, name: &str, completed: bool) -> Task {
    Task { id, name: name.to_string(), completed }
}

#[test]
fn new_store_is_empty() {
    let db = Db::new();
    assert!(db.get_tasks().is_empty());
    assert!(db.get_task(&1).is_none());
}

#[test]
fn insert_then_get() {
    let mut db = Db::new();
    db.insert_task(task(1, "buy milk", false));
    let got = db.get_task(&1).expect("task 1 should be present");
    assert_eq!(got.id, 1);
    assert_eq!(got.name, "buy milk");
    assert!(!got.completed);
    assert!(db.get_task(&2).is_none());
}

#[test]
fn insert_same_id_replaces() {
    // Uniqueness: after insert(t1) then insert(t2) with the same id, get
    // returns t2, not t1.
    let mut db = Db::new();
    db.insert_task(task(7, "first", false));
    db.insert_task(task(7, "second", true));
    let got = db.get_task(&7).expect("task 7 should be present");
    assert_eq!(got.name, "second");
    assert!(got.completed);
    assert_eq!(db.get_tasks().len(), 1);
}

#[test]
fn delete_removes_task() {
    let mut db = Db::new();
    db.insert_task(task(1, "a", false));
    db.insert_task(task(2, "b", true));
    db.delete_task(1);
    assert!(db.get_task(&1).is_none());
    assert!(db.get_task(&2).is_some());
    assert_eq!(db.get_tasks().len(), 1);
}

#[test]
fn delete_absent_id_is_idempotent() {
    // Idempotence: repeated delete of an absent id leaves the store
    // unchanged and never errors.
    let mut db = Db::new();
    db.insert_task(task(3, "keep me", false));
    db.delete_task(99);
    db.delete_task(99);
    let tasks = db.get_tasks();
    assert_eq!(tasks.len(), 1);
    assert_eq!(tasks[0].id, 3);
    assert_eq!(tasks[0].name, "keep me");
}

#[test]
fn update_absent_id_acts_as_insert() {
    // Upsert: update(id, t) on an absent id is observably identical to
    // insert of t rekeyed to id.
    let mut db1 = Db::new();
    db1.update_task(5, task(42, "payload", true));
    let mut db2 = Db::new();
    db2.insert_task(task(5, "payload", true));
    let got1 = db1.get_task(&5).expect("task 5 in db1");
    let got2 = db2.get_task(&5).expect("task 5 in db2");
    assert_eq!(got1.id, got2.id);
    assert_eq!(got1.name, got2.name);
    assert_eq!(got1.completed, got2.completed);
    assert!(db1.get_task(&42).is_none());
}

#[test]
fn update_present_id_replaces_record() {
    let mut db = Db::new();
    db.insert_task(task(1, "buy milk", false));
    db.update_task(1, task(1, "buy milk", true));
    let got = db.get_task(&1).expect("task 1 should be present");
    assert!(got.completed);
}

#[test]
fn two_inserts_with_distinct_ids_both_present() {
    // Both records must be visible after two mutations, with no lost update.
    let mut db = Db::new();
    db.insert_task(task(1, "first", false));
    db.insert_task(task(2, "second", false));
    let mut ids: Vec<u64> = db.get_tasks().iter().map(|t| t.id).collect();
    ids.sort();
    assert_eq!(ids, vec![1, 2]);
}

#[test]
fn crud_scenario_end_to_end() {
    // POST, GET, PUT, GET, DELETE, GET at the store level.
    let mut db = Db::new();
    db.insert_task(task(1, "buy milk", false));
    let got = db.get_task(&1).expect("after insert");
    assert_eq!(got.id, 1);
    assert_eq!(got.name, "buy milk");
    assert!(!got.completed);
    db.update_task(1, task(1, "buy milk", true));
    let got = db.get_task(&1).expect("after update");
    assert!(got.completed);
    db.delete_task(1);
    assert!(db.get_task(&1).is_none());
}
