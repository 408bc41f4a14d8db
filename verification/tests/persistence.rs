use simple_db::database::PinnedDatabase;
use simple_db::types::{DbError, DbType, DbValue, Row};

#[test]
fn round_trip_all_value_kinds() {
    let mut db = PinnedDatabase::create("store".to_string(), "some/path".to_string());
    db.create_table(
        "mixed".to_string(),
        vec![
            DbType::Int,
            DbType::Real,
            DbType::Char,
            DbType::Text,
            DbType::ComplexReal,
            DbType::ComplexInt,
        ],
    )
    .unwrap();
    let row = Row(vec![
        DbValue::Int(-42),
        DbValue::Real((-1.5f64).to_bits()),
        DbValue::Char('é'),
        DbValue::Text("héllo wörld".to_string()),
        DbValue::ComplexReal((2.25f64.to_bits(), (-0.5f64).to_bits())),
        DbValue::ComplexInt((i64::MIN, i64::MAX)),
    ]);
    db.get_table_mut("mixed".to_string()).unwrap().insert_row(row.clone()).unwrap();
    db.create_table("empty".to_string(), vec![]).unwrap();

    let bytes = db.save();
    let back = PinnedDatabase::load_from_bytes("other/path".to_string(), &bytes).unwrap();

    assert_eq!(back.get_name(), "store");
    assert_eq!(back.get_path(), "other/path");
    assert_eq!(back.get_table_names(), vec!["mixed".to_string(), "empty".to_string()]);
    let t = back.get_table("mixed".to_string()).unwrap();
    assert_eq!(t.get_name(), "mixed");
    assert_eq!(t.rows().len(), 1);
    assert_eq!(t.rows()[0], row);
    assert_eq!(
        t.schema(),
        &vec![
            DbType::Int,
            DbType::Real,
            DbType::Char,
            DbType::Text,
            DbType::ComplexReal,
            DbType::ComplexInt,
        ]
    );
    let e = back.get_table("empty".to_string()).unwrap();
    assert_eq!(e.rows().len(), 0);
    assert_eq!(e.schema().len(), 0);
}

#[test]
fn end_to_end_scenario() {
    let mut db = PinnedDatabase::create("db".to_string(), "p".to_string());
    db.create_table("t".to_string(), vec![DbType::Int]).unwrap();
    {
        let t = db.get_table_mut("t".to_string()).unwrap();
        t.insert_row(Row(vec![DbValue::Int(1)])).unwrap();
        t.insert_row(Row(vec![DbValue::Int(2)])).unwrap();
        t.insert_row(Row(vec![DbValue::Int(3)])).unwrap();
        let sorted = t.get_rows_sorted(None);
        assert_eq!(
            sorted,
            vec![
                Row(vec![DbValue::Int(1)]),
                Row(vec![DbValue::Int(2)]),
                Row(vec![DbValue::Int(3)]),
            ]
        );
        t.remove_row(0);
        assert_eq!(t.rows(), &vec![Row(vec![DbValue::Int(2)]), Row(vec![DbValue::Int(3)])]);
    }
    let bytes = db.save();

    let back = PinnedDatabase::load_from_bytes("p".to_string(), &bytes).unwrap();
    let t = back.get_table("t".to_string()).unwrap();
    assert_eq!(t.schema(), &vec![DbType::Int]);
    let sorted = t.get_rows_sorted(Some(0));
    assert_eq!(sorted, vec![Row(vec![DbValue::Int(2)]), Row(vec![DbValue::Int(3)])]);
}

// The saved bytes of a database named "db" with one table "t" of schema
// [Int] lay out as: 8 length bytes + "db", an 8-byte table count, 8 length
// bytes + "t", an 8-byte column count, then the one schema tag byte at
// offset 35.
fn one_table_bytes() -> Vec<u8> {
    let mut db = PinnedDatabase::create("db".to_string(), "p".to_string());
    db.create_table("t".to_string(), vec![DbType::Int]).unwrap();
    db.get_table_mut("t".to_string()).unwrap().insert_row(Row(vec![DbValue::Int(1)])).unwrap();
    db.save()
}

#[test]
fn corrupt_schema_tag_is_detected() {
    let mut bytes = one_table_bytes();
    // The stored rows now disagree with the declared schema: [Int] vs Real.
    bytes[35] = 1;
    let r = PinnedDatabase::load_from_bytes("p".to_string(), &bytes);
    assert!(matches!(r, Err(DbError::InvalidTableState(n)) if n == "t"));
}

#[test]
fn unknown_tag_is_rejected() {
    let mut bytes = one_table_bytes();
    bytes[35] = 99;
    let r = PinnedDatabase::load_from_bytes("p".to_string(), &bytes);
    assert!(matches!(r, Err(DbError::Serde(_))));
}

#[test]
fn truncated_bytes_are_rejected() {
    let bytes = one_table_bytes();
    let r = PinnedDatabase::load_from_bytes("p".to_string(), &bytes[..bytes.len() - 1]);
    assert!(matches!(r, Err(DbError::Serde(_))));
}

#[test]
fn trailing_bytes_are_rejected() {
    let mut bytes = one_table_bytes();
    bytes.push(0);
    let r = PinnedDatabase::load_from_bytes("p".to_string(), &bytes);
    assert!(matches!(r, Err(DbError::Serde(_))));
}

#[test]
fn invalid_utf8_name_is_rejected() {
    let mut bytes = one_table_bytes();
    // The first name byte, inside "db", stops being UTF-8.
    bytes[8] = 0xFF;
    let r = PinnedDatabase::load_from_bytes("p".to_string(), &bytes);
    assert!(matches!(r, Err(DbError::Serde(_))));
}

#[test]
fn empty_bytes_are_rejected() {
    let r = PinnedDatabase::load_from_bytes("p".to_string(), &[]);
    assert!(matches!(r, Err(DbError::Serde(_))));
}

#[test]
fn fresh_database_round_trips() {
    let db = PinnedDatabase::create("alpha".to_string(), "q".to_string());
    let bytes = db.save();
    let back = PinnedDatabase::load_from_bytes("q".to_string(), &bytes).unwrap();
    assert_eq!(back.get_name(), "alpha");
    assert!(back.get_table_names().is_empty());
}
