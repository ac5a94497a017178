use logstore::codec::Record;
use logstore::manager::Manager;
use logstore::store::{Store, StoreError};

fn names(fields: &[&str]) -> Vec<String> {
    fields.iter().map(|s| s.to_string()).collect()
}

fn live(key: i32, data: &str) -> Record {
    Record { key, data: data.to_string(), tombstone: false }
}

fn sorted(mut v: Vec<Record>) -> Vec<Record> {
    v.sort_by_key(|r| r.key);
    v
}

#[test]
fn users_scenario() {
    let mut s = Store::open("users".to_string(), names(&["name"]), "");
    assert_eq!(s.add(1, "alice".to_string()), Ok(()));
    assert_eq!(s.add(2, "bob".to_string()), Ok(()));
    assert_eq!(s.update(1, "alicia".to_string()), Ok(()));
    assert_eq!(s.delete(2), Some(live(2, "bob")));
    assert_eq!(s.get_all(), vec![live(1, "alicia")]);
    assert_eq!(s.fields(), &names(&["name"]));
    assert_eq!(s.name(), "users");
}

#[test]
fn duplicate_key_scenario() {
    let mut s = Store::open("d".to_string(), vec![], "");
    assert_eq!(s.add(5, "x".to_string()), Ok(()));
    let len = s.log_len();
    assert_eq!(s.add(5, "y".to_string()), Err(StoreError::DuplicateKey));
    assert_eq!(s.log_len(), len);
    assert_eq!(s.find(5), Some(live(5, "x")));
}

#[test]
fn delete_then_add_reuses_key() {
    let mut s = Store::open("d".to_string(), vec![], "");
    s.add(3, "first".to_string()).unwrap();
    assert_eq!(s.delete(3), Some(live(3, "first")));
    assert_eq!(s.find(3), None);
    assert_eq!(s.add(3, "second".to_string()), Ok(()));
    assert_eq!(s.find(3), Some(live(3, "second")));
}

#[test]
fn update_is_visible_and_isolated() {
    let mut s = Store::open("d".to_string(), vec![], "");
    s.add(1, "a".to_string()).unwrap();
    s.add(2, "b".to_string()).unwrap();
    s.add(3, "c".to_string()).unwrap();
    assert_eq!(s.update(2, "a much longer value than before".to_string()), Ok(()));
    assert_eq!(s.find(1), Some(live(1, "a")));
    assert_eq!(s.find(2), Some(live(2, "a much longer value than before")));
    assert_eq!(s.find(3), Some(live(3, "c")));
}

#[test]
fn update_and_delete_of_absent_key() {
    let mut s = Store::open("d".to_string(), vec![], "");
    assert_eq!(s.update(9, "z".to_string()), Err(StoreError::KeyNotFound));
    assert_eq!(s.delete(9), None);
    assert_eq!(s.log_len(), 0);
    assert_eq!(s.get_all(), vec![]);
}

#[test]
fn index_points_at_live_records() {
    let mut s = Store::open("d".to_string(), vec![], "");
    for k in 0..20 {
        s.add(k, format!("v{}", k)).unwrap();
    }
    for k in (0..20).step_by(3) {
        s.update(k, format!("w{}", k)).unwrap();
    }
    for k in (0..20).step_by(4) {
        s.delete(k).unwrap();
    }
    for k in 0..20 {
        let expected = if k % 4 == 0 {
            None
        } else if k % 3 == 0 {
            Some(live(k, &format!("w{}", k)))
        } else {
            Some(live(k, &format!("v{}", k)))
        };
        assert_eq!(s.find(k), expected);
    }
    assert_eq!(s.get_all().len(), 15);
}

#[test]
fn reopen_yields_same_records() {
    let mut s = Store::open("d".to_string(), vec![], "");
    s.add(1, "one".to_string()).unwrap();
    s.add(2, "two\nlines".to_string()).unwrap();
    s.add(3, "three".to_string()).unwrap();
    s.update(1, "uno".to_string()).unwrap();
    s.delete(3).unwrap();
    s.add(3, "tres".to_string()).unwrap();
    s.delete(2).unwrap();
    let log = s.log_text(0);
    let r = Store::open("d".to_string(), vec![], &log);
    assert_eq!(sorted(r.get_all()), sorted(s.get_all()));
    assert_eq!(sorted(r.get_all()), vec![live(1, "uno"), live(3, "tres")]);
    assert_eq!(r.log_text(0), log);
}

#[test]
fn log_text_is_newline_delimited_records() {
    let mut s = Store::open("d".to_string(), vec![], "");
    s.add(1, "a".to_string()).unwrap();
    let mark = s.log_len();
    s.delete(1).unwrap();
    assert_eq!(
        s.log_text(0),
        "{\"key\":1,\"data\":\"a\"}\n{\"key\":1,\"data\":\"\",\"deleted\":true}\n"
    );
    assert_eq!(s.log_text(mark), "{\"key\":1,\"data\":\"\",\"deleted\":true}\n");
}

#[test]
fn replay_skips_corrupt_and_truncated_lines() {
    let content = "{\"key\":1,\"data\":\"a\"}\ngarbage\n{\"key\":2,\"data\":\"b\"}\n{\"key\":3,\"da";
    let mut s = Store::open("d".to_string(), vec![], content);
    assert_eq!(sorted(s.get_all()), vec![live(1, "a"), live(2, "b")]);
    assert_eq!(s.log_text(0), format!("{}\n", content));
    s.add(3, "c".to_string()).unwrap();
    let r = Store::open("d".to_string(), vec![], &s.log_text(0));
    assert_eq!(sorted(r.get_all()), vec![live(1, "a"), live(2, "b"), live(3, "c")]);
}

#[test]
fn truncated_trailing_record_is_kept_when_complete() {
    let s = Store::open("d".to_string(), vec![], "{\"key\":4,\"data\":\"d\"}");
    assert_eq!(s.find(4), Some(live(4, "d")));
}

#[test]
fn replay_last_write_wins() {
    let content = "{\"key\":1,\"data\":\"a\"}\n{\"key\":1,\"data\":\"b\"}\n{\"key\":2,\"data\":\"c\"}\n{\"key\":2,\"data\":\"\",\"deleted\":true}\n";
    let s = Store::open("d".to_string(), vec![], content);
    assert_eq!(s.get_all(), vec![live(1, "b")]);
    assert_eq!(s.find(2), None);
}

#[test]
fn manager_create_and_route() {
    let mut m = Manager::new();
    assert_eq!(m.create("users", names(&["name"]), ""), Ok(()));
    assert_eq!(m.create("users", vec![], ""), Err(StoreError::StoreAlreadyExists));
    assert_eq!(m.create("items", names(&["title", "price"]), ""), Ok(()));
    assert_eq!(m.add("users", 1, "alice".to_string()), Ok(()));
    assert_eq!(m.add("users", 1, "again".to_string()), Err(StoreError::DuplicateKey));
    assert_eq!(m.add("nobody", 1, "x".to_string()), Err(StoreError::StoreNotFound));
    assert_eq!(m.update("users", 1, "alicia".to_string()), Ok(()));
    assert_eq!(m.update("users", 2, "bob".to_string()), Err(StoreError::KeyNotFound));
    assert_eq!(m.update("nobody", 1, "x".to_string()), Err(StoreError::StoreNotFound));
    assert_eq!(m.get("users").unwrap().find(1), Some(live(1, "alicia")));
    assert!(m.get("items").unwrap().get_all().is_empty());
    assert!(m.get("nobody").is_none());
    assert_eq!(m.delete("users", 1), Ok(Some(live(1, "alicia"))));
    assert_eq!(m.delete("users", 1), Ok(None));
    assert_eq!(m.delete("nobody", 1), Err(StoreError::StoreNotFound));
}

#[test]
fn manager_list_gives_names_and_fields() {
    let mut m = Manager::new();
    m.create("a", names(&["x"]), "").unwrap();
    m.create("b", names(&["y", "z"]), "").unwrap();
    let list = m.list();
    assert_eq!(list.len(), 2);
    assert_eq!(list[0].name, "a");
    assert_eq!(list[0].fields, names(&["x"]));
    assert_eq!(list[1].name, "b");
    assert_eq!(list[1].fields, names(&["y", "z"]));
}

#[test]
fn manager_create_replays_existing_log() {
    let mut m = Manager::new();
    m.create("s", vec![], "{\"key\":8,\"data\":\"eight\"}\n").unwrap();
    assert_eq!(m.get("s").unwrap().find(8), Some(live(8, "eight")));
}

#[test]
fn manager_new_is_empty() {
    let m = Manager::new();
    assert!(m.list().is_empty());
    assert!(m.get("users").is_none());
}

#[test]
fn manager_remove_and_recreate() {
    let mut m = Manager::new();
    m.create("s", vec![], "").unwrap();
    m.add("s", 1, "one".to_string()).unwrap();
    let log = m.get("s").unwrap().log_text(0);
    let removed = m.remove("s").unwrap();
    assert_eq!(removed.name(), "s");
    assert!(m.get("s").is_none());
    assert!(m.remove("s").is_none());
    assert!(m.list().is_empty());
    assert_eq!(m.create("s", vec![], &log), Ok(()));
    assert_eq!(m.get("s").unwrap().find(1), Some(live(1, "one")));
}
