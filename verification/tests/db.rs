use my_db::db::Database;
use my_db::db_error::DbError;
use my_db::db_types::DataType;
use my_db::parser::{parse_command, LogWrite};

/// A store together with the text of its log, the way the file holds it.
pub struct TestDb {
    pub db: Database,
    pub log: String,
}

impl TestDb {
    pub fn new(_test_name: &str) -> Self {
        let mut t = TestDb { db: Database::new(), log: String::new() };
        t.set("username", DataType::from("Alice"));
        t.set("password", DataType::from("password123"));
        t.set("score", DataType::from(10i64));
        t.set("ratio", DataType::Float { text: 3.5f64.to_string() });
        t
    }

    pub fn set(&mut self, key: &str, value: DataType) {
        self.log.push_str(&Database::set_record(key, &value));
        self.db.set(key, value);
    }

    pub fn remove(&mut self, key: &str) -> Option<DataType> {
        self.log.push_str(&Database::remove_record(key));
        self.db.remove(key)
    }

    pub fn reopen(&self) -> TestDb {
        TestDb { db: Database::replay(&self.log), log: self.log.clone() }
    }
}

/// Runs one command line the way the file-backed store does: parse, write
/// the log, then change the store.
pub fn run(t: &mut TestDb, command: &str) -> Result<String, DbError> {
    let cmd = parse_command(command)?;
    match t.db.log_write(&cmd) {
        Some(LogWrite::Append(line)) => t.log.push_str(&line),
        Some(LogWrite::Rewrite(text)) => t.log = text,
        None => {}
    }
    t.db.execute(cmd)
}

#[test]
fn test_db_insert_and_read() {
    let db = TestDb::new("insert-and-read");

    assert_eq!(db.db.get("username").unwrap().to_str(), "Alice");
    assert_eq!(db.db.get("score").unwrap().to_str(), "10");
}

#[test]
fn test_database_persistence() {
    let reloaded = {
        let mut db = TestDb::new("persistence");
        db.set("persisted_key", DataType::from("hello world"));
        db.reopen()
    };

    assert_eq!(
        reloaded.db.get("persisted_key").unwrap().to_str(),
        "hello world"
    );
}

#[test]
fn test_database_delete() {
    let mut db = TestDb::new("delete");
    assert_eq!(db.db.get("username").unwrap().to_str(), "Alice");
    db.remove("username").unwrap();
    assert!(db.db.get("username").is_err());
    assert_eq!(db.db.get("password").unwrap().to_str(), "password123");
}

#[test]
fn test_database_cmd_get() {
    let mut db = TestDb::new("cmd-get");
    assert!(run(&mut db, "GET username").is_ok_and(|val| val == "Alice"));
    assert!(run(&mut db, "GET user_1").is_err());
}

#[test]
fn test_database_cmd_set() {
    let mut db = TestDb::new("cmd-set");
    assert!(run(&mut db, "SET username Arthur").is_ok_and(|val| val == "Ok"));
    assert!(run(&mut db, "SET").is_err());
}

#[test]
fn test_database_cmd_del() {
    let mut db = TestDb::new("cmd-del");
    let _ = run(&mut db, "DEL username");
    assert!(run(&mut db, "GET username").is_err());
}

#[test]
fn deleted_key_stays_deleted_after_reopen() {
    let mut db = TestDb::new("reopen-delete");
    db.remove("username");
    let again = db.reopen();
    assert!(again.db.get("username").is_err());
    assert_eq!(again.db.get("password").unwrap().to_str(), "password123");
    assert_eq!(again.db.get("ratio").unwrap().to_str(), "3.5");
    assert!(matches!(again.db.get("score").unwrap(), DataType::Integer { value: 10 }));
}

#[test]
fn get_missing_key_names_the_key() {
    let db = TestDb::new("missing");
    match db.db.get("nobody") {
        Err(DbError::KeyNotFound(k)) => assert_eq!(k, "nobody"),
        other => panic!("unexpected {:?}", other),
    }
}

#[test]
fn set_replaces_and_remove_returns_old_value() {
    let mut db = TestDb::new("replace");
    db.set("username", DataType::from(7i64));
    assert_eq!(db.db.get("username").unwrap().to_str(), "7");
    let old = db.remove("username").unwrap();
    assert_eq!(old.to_str(), "7");
    assert!(db.remove("username").is_none());
    assert!(!db.db.key_exists("username"));
    assert!(db.db.key_exists("password"));
}

#[test]
fn keys_come_sorted() {
    let mut db = TestDb::new("keys");
    db.set("apple", DataType::from(1i64));
    db.set("Zebra", DataType::from(2i64));
    db.set("é", DataType::from(3i64));
    db.set("ab", DataType::from(4i64));
    assert_eq!(
        db.db.keys(),
        vec!["Zebra", "ab", "apple", "password", "ratio", "score", "username", "é"]
    );
}

#[test]
fn records_have_the_log_format() {
    assert_eq!(Database::set_record("k", &DataType::from(-12i64)), "k: -12\n");
    assert_eq!(Database::set_record("a b", &DataType::from("x y".to_string())), "a b: x y\n");
    assert_eq!(Database::remove_record("k"), "k: __DELETED__\n");
}

#[test]
fn replay_reads_lines_like_bufread() {
    let db = Database::replay("a: 1\r\nb: two\nno separator here\nc:: x\nd: __DELETED__\na: 3");
    assert_eq!(db.get("a").unwrap().to_str(), "3");
    assert_eq!(db.get("b").unwrap().to_str(), "two");
    assert_eq!(db.get("c:").unwrap().to_str(), "x");
    assert!(db.get("d").is_err());
    assert!(db.get("no separator here").is_err());
    assert_eq!(db.keys(), vec!["a", "b", "c:"]);
}

#[test]
fn replay_keeps_a_carriage_return_only_before_a_newline() {
    let db = Database::replay("a: x\r");
    assert_eq!(db.get("a").unwrap().to_str(), "x\r");
    let db = Database::replay("a: x\r\n");
    assert_eq!(db.get("a").unwrap().to_str(), "x");
}

#[test]
fn replay_removes_and_rebinds() {
    let db = Database::replay("k: 1\nk: __DELETED__\nk: 2\nj: __DELETED__\n");
    assert_eq!(db.get("k").unwrap().to_str(), "2");
    assert!(db.get("j").is_err());
    assert_eq!(db.keys(), vec!["k"]);
}

#[test]
fn compaction_replays_to_the_same_store() {
    let mut db = TestDb::new("compact");
    db.remove("password");
    db.set("name", DataType::from("bob".to_string()));
    let text = db.db.compact_contents();
    assert_eq!(text.lines().count(), 4);
    let again = Database::replay(&text);
    assert_eq!(again.keys(), db.db.keys());
    for k in db.db.keys() {
        assert_eq!(again.get(k).unwrap().to_str(), db.db.get(k).unwrap().to_str());
    }
}

#[test]
fn text_that_looks_like_a_number_comes_back_as_one() {
    let mut db = TestDb::new("numbers");
    db.set("n", DataType::from("+42".to_string()));
    assert_eq!(db.db.get("n").unwrap().to_str(), "+42");
    let again = db.reopen();
    assert!(matches!(again.db.get("n").unwrap(), DataType::Integer { value: 42 }));
    assert_eq!(again.db.get("n").unwrap().to_str(), "42");
}

#[test]
fn session_of_changes_reopens_to_the_same_store() {
    let mut db = TestDb { db: Database::new(), log: String::new() };
    db.set("a", DataType::from(1i64));
    db.set("b", DataType::from("two"));
    db.remove("a");
    db.set("c", DataType::from("3.5"));
    db.log = db.db.compact_contents();
    db.set("d", DataType::from(-4i64));
    let again = db.reopen();
    assert_eq!(again.db.keys(), db.db.keys());
    for k in db.db.keys() {
        let expected = DataType::from_text(&db.db.get(k).unwrap().to_str());
        assert_eq!(again.db.get(k).unwrap().to_str(), expected.to_str());
    }
    assert!(matches!(again.db.get("c").unwrap(), DataType::Float { .. }));
}
