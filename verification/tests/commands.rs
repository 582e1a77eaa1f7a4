use my_db::db::Database;
use my_db::db_error::DbError;
use my_db::db_types::DataType;
use my_db::parser::{parse_command, sanitize_input, Command, LogWrite};
use my_db::server::{client_input, reply_line, ClientInput};
use my_db::text::{split_whitespace, trim_whitespace};

fn store() -> Database {
    let mut db = Database::new();
    db.set("username", DataType::from("Alice".to_string()));
    db
}

fn run(db: &mut Database, command: &str) -> Result<String, DbError> {
    let cmd = parse_command(command)?;
    db.execute(cmd)
}

#[test]
fn sanitize_drops_control_characters() {
    assert_eq!(sanitize_input("a\u{0}b\u{7f}c\u{85}d\u{9f}e\u{a0}f"), "abcde\u{a0}f");
    assert_eq!(sanitize_input("plain"), "plain");
    assert_eq!(sanitize_input("\u{1}\u{2}"), "");
    let s = "x\u{1b}[31my\tz\u{200b}";
    let expected: String = s.chars().filter(|c| !c.is_control()).collect();
    assert_eq!(sanitize_input(s), expected);
}

#[test]
fn words_split_at_unicode_white_space() {
    let s = "  SET\u{3000}key\u{a0}value \t\r\n x\u{85}y ";
    let expected: Vec<String> = s.split_whitespace().map(|w| w.to_string()).collect();
    assert_eq!(split_whitespace(s), expected);
    assert_eq!(split_whitespace(""), Vec::<String>::new());
    assert_eq!(split_whitespace(" \t "), Vec::<String>::new());
}

#[test]
fn trim_matches_str_trim() {
    for s in ["  a b  ", "\u{3000}x\u{2029}", "", "   ", "SET k v\n", "\r\nGET k\r\n"] {
        assert_eq!(trim_whitespace(s), s.trim());
    }
}

#[test]
fn parse_errors_name_what_is_missing() {
    let msg = |r: Result<Command, DbError>| match r {
        Err(DbError::ParseError(m)) => m,
        other => panic!("{:?}", other),
    };
    assert_eq!(msg(parse_command("SET")), "Missing key for SET");
    assert_eq!(msg(parse_command("SET k")), "Missing value for SET");
    assert_eq!(msg(parse_command("GET")), "Missing key for GET");
    assert_eq!(msg(parse_command("DEL")), "Missing key for DEL");
    assert_eq!(msg(parse_command("FLY away")), "FLY away");
    assert_eq!(msg(parse_command("   ")), "   ");
    assert_eq!(msg(parse_command("")), "");
}

#[test]
fn verbs_are_case_insensitive() {
    assert!(matches!(parse_command("set a b"), Ok(Command::Assign { .. })));
    assert!(matches!(parse_command("gEt a"), Ok(Command::Lookup { .. })));
    assert!(matches!(parse_command("del a"), Ok(Command::Delete { .. })));
    assert!(matches!(parse_command("compact"), Ok(Command::Compact)));
    // U+017F LATIN SMALL LETTER LONG S is upper-cased to 'S'.
    assert!(matches!(parse_command("\u{17f}et a b"), Ok(Command::Assign { .. })));
}

#[test]
fn parsed_words_are_sanitized_and_extra_words_ignored() {
    match parse_command("SET k\u{1}ey va\u{7f}lue extra words") {
        Ok(Command::Assign { key, value }) => {
            assert_eq!(key, "key");
            assert_eq!(value, "value");
        }
        other => panic!("{:?}", other),
    }
}

#[test]
fn commands_answer_as_documented() {
    let mut db = store();
    assert_eq!(run(&mut db, "GET username").unwrap(), "Alice");
    assert_eq!(run(&mut db, "SET username TEST").unwrap(), "Ok");
    assert_eq!(run(&mut db, "GET username").unwrap(), "TEST");
    assert_eq!(run(&mut db, "COMPACT").unwrap(), "Ok");
    assert_eq!(run(&mut db, "DEL username").unwrap(), "TEST");
    match run(&mut db, "DEL username") {
        Err(DbError::KeyNotFound(k)) => assert_eq!(k, "username"),
        other => panic!("{:?}", other),
    }
    assert!(matches!(run(&mut db, "GET username"), Err(DbError::KeyNotFound(_))));
}

#[test]
fn set_commands_store_text() {
    let mut db = Database::new();
    run(&mut db, "SET n 10").unwrap();
    assert!(matches!(db.get("n").unwrap(), DataType::Text { .. }));
}

#[test]
fn log_writes_precede_changes() {
    let db = store();
    match db.log_write(&parse_command("SET a b").unwrap()) {
        Some(LogWrite::Append(s)) => assert_eq!(s, "a: b\n"),
        other => panic!("{:?}", other),
    }
    match db.log_write(&parse_command("DEL a").unwrap()) {
        Some(LogWrite::Append(s)) => assert_eq!(s, "a: __DELETED__\n"),
        other => panic!("{:?}", other),
    }
    assert!(db.log_write(&parse_command("GET a").unwrap()).is_none());
    match db.log_write(&parse_command("COMPACT").unwrap()) {
        Some(LogWrite::Rewrite(s)) => assert_eq!(s, "username: Alice\n"),
        other => panic!("{:?}", other),
    }
}

#[test]
fn error_messages() {
    assert_eq!(DbError::ParseError("x".to_string()).message(), "Encountered error in parsing: x");
    assert_eq!(DbError::KeyNotFound("k".to_string()).message(), "Key not found: k");
    let io = DbError::Io(std::io::Error::new(std::io::ErrorKind::Other, "disk gone"));
    assert_eq!(io.message(), "I/O Error Occured: disk gone");
}

#[test]
fn session_reads_lines() {
    assert!(matches!(client_input(0, ""), ClientInput::Disconnect));
    assert!(matches!(client_input(3, " \r\n"), ClientInput::Skip));
    match client_input(13, "GET username\n") {
        ClientInput::Command(c) => assert_eq!(c, "GET username"),
        other => panic!("{:?}", other),
    }
}

#[test]
fn session_replies() {
    assert_eq!(reply_line(&Ok("TEST".to_string())), "TEST\n");
    assert_eq!(
        reply_line(&Err(DbError::KeyNotFound("username".to_string()))),
        "ERROR: Key not found: username\n"
    );
}

#[test]
fn session_set_get_and_double_delete() {
    let mut db = Database::new();
    let mut answers = Vec::new();
    for line in ["SET username TEST\n", "GET username\n", "DEL username\n", "DEL username\n"] {
        if let ClientInput::Command(c) = client_input(line.len(), line) {
            answers.push(reply_line(&run(&mut db, &c)));
        }
    }
    assert!(answers[0].contains("Ok"));
    assert!(answers[1].contains("TEST"));
    assert!(answers[2].contains("TEST"));
    assert!(answers[3].contains("ERROR"));
}

#[test]
fn io_errors_keep_their_system_text() {
    assert_eq!(my_db::db_error::io_message("disk gone"), "I/O Error Occured: disk gone");
    let e = DbError::Io(std::io::Error::new(std::io::ErrorKind::NotFound, "no such file"));
    assert_eq!(reply_line(&Err(e)), "ERROR: I/O Error Occured: no such file\n");
}

#[test]
fn lower_case_verbs_answer_as_upper_case() {
    let mut a = store();
    let mut b = store();
    assert_eq!(run(&mut a, "get username").unwrap(), run(&mut b, "GET username").unwrap());
    assert_eq!(run(&mut a, "Set k v").unwrap(), run(&mut b, "SET k v").unwrap());
    assert_eq!(run(&mut a, "GET k").unwrap(), "v");
    assert_eq!(run(&mut b, "gEt k").unwrap(), "v");
}

#[test]
fn set_then_get_drops_control_characters() {
    let mut db = Database::new();
    assert_eq!(run(&mut db, "SET a\u{1}b x\u{7}y").unwrap(), "Ok");
    assert_eq!(run(&mut db, "GET ab").unwrap(), "xy");
}

#[test]
fn text_values_from_str_slices() {
    let v = DataType::from("plain text");
    assert!(matches!(&v, DataType::Text { value } if value == "plain text"));
}
