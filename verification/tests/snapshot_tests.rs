use task_store::chat::{APIChoice, APIMessage, APIResponse};
use task_store::digits::{parse_num, push_pad};
use task_store::store::{Store, Task, User};

fn task(id: u64, name: &str, complete: bool) -> Task {
    Task { id, name: String::from(name), complete }
}

fn user(id: u64, name: &str, password: &str) -> User {
    User { id, name: String::from(name), password: String::from(password) }
}

fn pad20(n: u64) -> String {
    format!("{:020}", n)
}

#[test]
fn numeral_width_and_round_trip() {
    let mut out: Vec<char> = Vec::new();
    push_pad(&mut out, 42, 20);
    let text: String = out.iter().collect();
    assert_eq!(text, "00000000000000000042");
    let back = parse_num(&out, 0, 20).expect("a numeral parses");
    assert_eq!(back.0, 42);
    assert_eq!(back.1, 20);
}

#[test]
fn parse_num_rejects_short_and_non_digit_input() {
    let short: Vec<char> = "123".chars().collect();
    assert!(parse_num(&short, 0, 20).is_none());
    let junk: Vec<char> = "0000000000000000004x".chars().collect();
    assert!(parse_num(&junk, 0, 20).is_none());
}

#[test]
fn empty_store_snapshot_is_two_zero_counts() {
    let db = Store::new();
    let doc = db.to_snapshot();
    assert_eq!(doc, format!("{}{}", pad20(0), pad20(0)));
}

#[test]
fn snapshot_round_trip_preserves_contents() {
    let mut db = Store::new();
    db.insert(1, task(1, "with space and digits 007", false));
    db.insert(42, task(42, "", true));
    db.insert_user(7, user(7, "alice", "pass word"));
    db.insert_user(9, user(9, "bob", ""));
    let doc = db.to_snapshot();
    let back = Store::from_snapshot(&doc).expect("a written snapshot must reload");

    let all = back.get_all();
    assert_eq!(all.len(), 2);
    let t1 = back.get(1).expect("task 1 survives the round trip");
    assert_eq!(t1.id, 1);
    assert_eq!(t1.name, "with space and digits 007");
    assert_eq!(t1.complete, false);
    let t42 = back.get(42).expect("task 42 survives the round trip");
    assert_eq!(t42.name, "");
    assert_eq!(t42.complete, true);

    assert!(back.check_login("alice", "pass word"));
    assert!(back.check_login("bob", ""));
    assert!(!back.check_login("alice", "wrong"));
}

#[test]
fn round_trip_keeps_non_ascii_names() {
    let mut db = Store::new();
    db.insert(3, task(3, "café ↔ 日本語", true));
    let doc = db.to_snapshot();
    let back = Store::from_snapshot(&doc).expect("snapshot with wide characters reloads");
    assert_eq!(back.get(3).expect("task survives").name, "café ↔ 日本語");
}

#[test]
fn malformed_snapshot_is_refused_and_caller_falls_back_to_empty() {
    assert!(Store::from_snapshot("not a snapshot").is_err());
    assert!(Store::from_snapshot("").is_err());
    let db = match Store::from_snapshot("garbage that fails to parse") {
        Ok(db) => db,
        Err(_) => Store::new(),
    };
    assert!(db.get_all().is_empty());
}

#[test]
fn snapshot_with_trailing_garbage_is_refused() {
    let db = Store::new();
    let mut doc = db.to_snapshot();
    doc.push('x');
    assert!(Store::from_snapshot(&doc).is_err());
}

#[test]
fn snapshot_with_repeated_key_is_refused() {
    let record = format!("{}{}0{}abc", pad20(5), pad20(5), pad20(3));
    let doc = format!("{}{}{}{}", pad20(2), record, record, pad20(0));
    assert!(Store::from_snapshot(&doc).is_err());
}

#[test]
fn hand_written_snapshot_parses_to_its_contents() {
    let doc = format!(
        "{}{}{}1{}ab{}{}{}{}u{}pw",
        pad20(1),
        pad20(4),
        pad20(9),
        pad20(2),
        pad20(1),
        pad20(6),
        pad20(6),
        pad20(1),
        pad20(2),
    );
    let db = Store::from_snapshot(&doc).expect("a well-formed document parses");
    let t = db.get(4).expect("the task is keyed by the written key");
    assert_eq!(t.id, 9);
    assert_eq!(t.name, "ab");
    assert_eq!(t.complete, true);
    assert!(db.check_login("u", "pw"));
}

#[test]
fn largest_key_and_id_survive_the_round_trip() {
    let mut db = Store::new();
    db.insert(u64::MAX, task(u64::MAX, "edge", true));
    db.insert_user(u64::MAX, user(u64::MAX, "max", "p"));
    let doc = db.to_snapshot();
    let back = Store::from_snapshot(&doc).expect("largest values reload");
    let t = back.get(u64::MAX).expect("largest key is present");
    assert_eq!(t.id, u64::MAX);
    assert_eq!(t.name, "edge");
    assert!(back.check_login("max", "p"));
}

#[test]
fn first_choice_content_picks_the_first_reply() {
    let reply = APIResponse {
        choices: vec![
            APIChoice { message: APIMessage { content: String::from("first") } },
            APIChoice { message: APIMessage { content: String::from("second") } },
        ],
    };
    assert_eq!(reply.first_choice_content().expect("choices exist").as_str(), "first");
    let empty = APIResponse { choices: Vec::new() };
    assert!(empty.first_choice_content().is_none());
}
