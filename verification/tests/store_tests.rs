use task_store::store::{Store, Task, User};

fn task(id: u64, name: &str, complete: bool) -> Task {
    Task { id, name: String::from(name), complete }
}

fn user(id: u64, name: &str, password: &str) -> User {
    User { id, name: String::from(name), password: String::from(password) }
}

#[test]
fn new_store_is_empty() {
    let db = Store::new();
    assert!(db.get_all().is_empty());
    assert!(db.get(1).is_none());
    assert!(db.get_user_by_name("anyone").is_none());
}

#[test]
fn insert_then_get_returns_exact_record() {
    let mut db = Store::new();
    db.insert(1, task(1, "a", false));
    let got = db.get(1).expect("inserted task must be found");
    assert_eq!(got.id, 1);
    assert_eq!(got.name, "a");
    assert_eq!(got.complete, false);
}

#[test]
fn update_then_delete_scenario() {
    let mut db = Store::new();
    db.insert(1, task(1, "a", false));
    db.update(1, task(1, "a", true));
    let got = db.get(1).expect("updated task must be found");
    assert_eq!(got.complete, true);
    assert_eq!(got.name, "a");
    db.delete(1);
    assert!(db.get(1).is_none());
}

#[test]
fn update_on_absent_id_creates_the_record() {
    let mut db = Store::new();
    db.update(3, task(3, "late", false));
    let got = db.get(3).expect("update must create an absent id");
    assert_eq!(got.name, "late");
}

#[test]
fn insert_overwrites_silently_last_write_wins() {
    let mut db = Store::new();
    db.insert(2, task(2, "first", false));
    db.insert(2, task(2, "second", true));
    assert_eq!(db.get_all().len(), 1);
    let got = db.get(2).expect("key must still be present");
    assert_eq!(got.name, "second");
    assert_eq!(got.complete, true);
}

#[test]
fn get_all_after_distinct_inserts_matches_inserted_set() {
    let mut db = Store::new();
    db.insert(1, task(1, "a", false));
    db.insert(7, task(7, "b", true));
    db.insert(3, task(3, "c", false));
    let all = db.get_all();
    assert_eq!(all.len(), 3);
    let mut ids: Vec<u64> = all.iter().map(|t| t.id).collect();
    ids.sort();
    assert_eq!(ids, vec![1, 3, 7]);
}

#[test]
fn delete_absent_id_is_a_no_op_not_an_error() {
    let mut db = Store::new();
    db.insert(1, task(1, "a", false));
    db.delete(99);
    assert_eq!(db.get_all().len(), 1);
    let got = db.get(1).expect("untouched record must remain");
    assert_eq!(got.name, "a");
}

#[test]
fn key_and_record_id_are_independent() {
    let mut db = Store::new();
    db.insert(5, task(9, "odd", false));
    let got = db.get(5).expect("record is keyed by the insert key");
    assert_eq!(got.id, 9);
    assert!(db.get(9).is_none());
}

#[test]
fn login_scenario() {
    let mut db = Store::new();
    db.insert_user(7, user(7, "alice", "x"));
    assert!(db.check_login("alice", "x"));
    assert!(!db.check_login("alice", "y"));
    assert!(!db.check_login("bob", "x"));
}

#[test]
fn get_user_by_name_returns_first_match() {
    let mut db = Store::new();
    db.insert_user(1, user(1, "dup", "p1"));
    db.insert_user(2, user(2, "dup", "p2"));
    let got = db.get_user_by_name("dup").expect("a user of that name exists");
    assert_eq!(got.id, 1);
    assert!(db.check_login("dup", "p1"));
    assert!(!db.check_login("dup", "p2"));
}

#[test]
fn insert_user_overwrites_at_same_key() {
    let mut db = Store::new();
    db.insert_user(1, user(1, "old", "a"));
    db.insert_user(1, user(1, "new", "b"));
    assert!(db.get_user_by_name("old").is_none());
    assert!(db.check_login("new", "b"));
}
