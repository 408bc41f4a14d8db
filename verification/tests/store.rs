use simple_db::database::PinnedDatabase;
use simple_db::types::{DbError, DbType, DbValue, Row};

#[test]
fn load_db_from_disk() {
    // Create new database
    let db = PinnedDatabase::create("db".to_string(), "db".to_string());
    let bytes = db.save();

    // Drop DB
    drop(db);

    // Load the DB back from its bytes
    let db = PinnedDatabase::load_from_bytes("db".to_string(), &bytes).unwrap();
    assert_eq!(db.get_name(), "db");
}

#[test]
fn test_table_crud() {
    // Create new database
    let mut db = PinnedDatabase::create("db".to_string(), "db".to_string());

    // Create new table
    db.create_table("table".to_string(), vec![DbType::Int]).unwrap();
    {
        let table = db.get_table_mut("table".to_string()).unwrap();

        table.insert_row(Row(vec![DbValue::Int(1)])).unwrap();
        assert_eq!(table.rows().len(), 1);

        table.update_row(0, Row(vec![DbValue::Int(2)])).unwrap();
        assert_eq!(table.rows().len(), 1);
        assert_eq!(table.rows()[0], Row(vec![DbValue::Int(2)]));

        table.remove_row(0);
        assert_eq!(table.rows().len(), 0);
    }

    db.remove_table("table".to_string()).unwrap();
    assert!(db.get_table_names().is_empty());
}

#[test]
fn get_sorted_table() {
    // Create new database
    let mut db = PinnedDatabase::create("db".to_string(), "db".to_string());

    // Create new table
    db.create_table("table".to_string(), vec![DbType::Text, DbType::ComplexInt]).unwrap();
    let table = db.get_table_mut("table".to_string()).unwrap();

    let row1 = Row(vec![DbValue::Text("B".to_string()), DbValue::ComplexInt((1, 1))]);
    let row2 = Row(vec![DbValue::Text("C".to_string()), DbValue::ComplexInt((0, 1))]);
    let row3 = Row(vec![DbValue::Text("A".to_string()), DbValue::ComplexInt((0, -1))]);
    table.insert_row(row1.clone()).unwrap();
    table.insert_row(row2.clone()).unwrap();
    table.insert_row(row3.clone()).unwrap();

    // Check rows we can get rows in order of insertion
    let rows = table.get_rows_sorted(None);
    assert_eq!(rows[0], row1);
    assert_eq!(rows[1], row2);
    assert_eq!(rows[2], row3);

    // Check rows we can get rows sorted by the first column
    let rows = table.get_rows_sorted(Some(0));
    assert_eq!(rows[0], row3);
    assert_eq!(rows[1], row1);
    assert_eq!(rows[2], row2);

    // Check rows we can get rows sorted by the second column
    let rows = table.get_rows_sorted(Some(1));
    assert_eq!(rows[0], row3);
    assert_eq!(rows[1], row2);
    assert_eq!(rows[2], row1);
}

#[test]
fn insert_row_enforces_schema() {
    let mut db = PinnedDatabase::create("db".to_string(), "p".to_string());
    db.create_table("t".to_string(), vec![DbType::Int, DbType::Text]).unwrap();
    let table = db.get_table_mut("t".to_string()).unwrap();

    table.insert_row(Row(vec![DbValue::Int(1), DbValue::Text("a".to_string())])).unwrap();

    // Wrong arity
    let r = table.insert_row(Row(vec![DbValue::Int(1)]));
    assert!(matches!(r, Err(DbError::IncorrectRow)));
    // Wrong tag
    let r = table.insert_row(Row(vec![DbValue::Text("a".to_string()), DbValue::Int(1)]));
    assert!(matches!(r, Err(DbError::IncorrectRow)));
    // The rows are unchanged after the failures
    assert_eq!(table.rows().len(), 1);
    assert_eq!(table.rows()[0], Row(vec![DbValue::Int(1), DbValue::Text("a".to_string())]));
}

#[test]
fn update_row_checks_schema_then_bounds() {
    let mut db = PinnedDatabase::create("db".to_string(), "p".to_string());
    db.create_table("t".to_string(), vec![DbType::Int]).unwrap();
    let table = db.get_table_mut("t".to_string()).unwrap();
    table.insert_row(Row(vec![DbValue::Int(1)])).unwrap();

    let r = table.update_row(0, Row(vec![DbValue::Char('x')]));
    assert!(matches!(r, Err(DbError::IncorrectRow)));
    let r = table.update_row(5, Row(vec![DbValue::Int(9)]));
    assert!(matches!(r, Err(DbError::IndexOutOfBounds)));
    assert_eq!(table.rows()[0], Row(vec![DbValue::Int(1)]));
}

#[test]
fn remove_row_out_of_range_is_no_op() {
    let mut db = PinnedDatabase::create("db".to_string(), "p".to_string());
    db.create_table("t".to_string(), vec![DbType::Int]).unwrap();
    let table = db.get_table_mut("t".to_string()).unwrap();
    table.insert_row(Row(vec![DbValue::Int(1)])).unwrap();
    table.insert_row(Row(vec![DbValue::Int(2)])).unwrap();
    table.insert_row(Row(vec![DbValue::Int(3)])).unwrap();

    table.remove_row(3);
    assert_eq!(table.rows().len(), 3);

    table.remove_row(1);
    assert_eq!(table.rows().len(), 2);
    assert_eq!(table.rows()[0], Row(vec![DbValue::Int(1)]));
    assert_eq!(table.rows()[1], Row(vec![DbValue::Int(3)]));
}

#[test]
fn create_table_rejects_duplicate_names() {
    let mut db = PinnedDatabase::create("db".to_string(), "p".to_string());
    db.create_table("t".to_string(), vec![DbType::Int]).unwrap();
    let r = db.create_table("t".to_string(), vec![DbType::Text]);
    assert!(matches!(r, Err(DbError::TableIsAlreadyPresent(n)) if n == "t"));
    let names = db.get_table_names();
    assert_eq!(names.iter().filter(|n| n.as_str() == "t").count(), 1);
}

#[test]
fn missing_table_errors() {
    let mut db = PinnedDatabase::create("db".to_string(), "p".to_string());
    assert!(matches!(db.get_table("nope".to_string()), Err(DbError::TableIsMissing(n)) if n == "nope"));
    assert!(matches!(db.get_table_mut("nope".to_string()), Err(DbError::TableIsMissing(n)) if n == "nope"));
    assert!(matches!(db.remove_table("nope".to_string()), Err(DbError::TableIsMissing(n)) if n == "nope"));
}

#[test]
fn row_accessors() {
    let row = Row(vec![DbValue::Int(7), DbValue::Char('q')]);
    assert_eq!(row.schema(), vec![DbType::Int, DbType::Char]);
    assert_eq!(row.get(0).unwrap(), DbValue::Int(7));
    assert_eq!(row.get(1).unwrap(), DbValue::Char('q'));
    assert!(matches!(row.get(2), Err(DbError::IndexOutOfBounds)));
    assert_eq!(DbValue::Real(1.5f64.to_bits()).get_type(), DbType::Real);
}

#[test]
fn validate_rows_accepts_conforming_tables() {
    let mut db = PinnedDatabase::create("db".to_string(), "p".to_string());
    db.create_table("t".to_string(), vec![DbType::Int]).unwrap();
    let table = db.get_table_mut("t".to_string()).unwrap();
    table.insert_row(Row(vec![DbValue::Int(5)])).unwrap();
    assert!(table.validate_rows().is_ok());
    assert_eq!(table.get_name(), "t");
    assert_eq!(table.schema(), &vec![DbType::Int]);
}
