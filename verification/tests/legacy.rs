use my_db::data_base::DataBase;
use my_db::db_types::DataType;

#[test]
fn first_store_reads_removal_lines_as_text() {
    let mut db = DataBase::replay("a: 1\na: __DELETED__\nb: 2.5\n");
    assert_eq!(db.get("a").unwrap().to_str(), "__DELETED__");
    assert!(matches!(db.get("b").unwrap(), DataType::Float { .. }));
    assert!(db.get("c").is_none());
}

#[test]
fn first_store_sets_and_logs() {
    let mut db = DataBase::new();
    let value = DataType::from("v".to_string());
    let line = DataBase::set_record("k", &value);
    db.set("k", value);
    assert_eq!(line, "k: v\n");
    assert_eq!(db.get("k").unwrap().to_str(), "v");
    let mut again = DataBase::replay(&line);
    assert_eq!(again.get("k").unwrap().to_str(), "v");
}

#[test]
fn first_store_lists_keys_sorted() {
    let db = DataBase::replay("b: 1\na: 2\nb: 3\n");
    assert_eq!(db.keys(), vec!["a", "b"]);
}
