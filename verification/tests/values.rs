use simple_db::database::PinnedDatabase;
use simple_db::types::{DbType, DbValue, Row};

#[test]
fn display_integers() {
    assert_eq!(DbValue::Int(0).display_string().unwrap(), "0");
    assert_eq!(DbValue::Int(123).display_string().unwrap(), "123");
    assert_eq!(DbValue::Int(-45).display_string().unwrap(), "-45");
    assert_eq!(
        DbValue::Int(i64::MIN).display_string().unwrap(),
        "-9223372036854775808"
    );
    assert_eq!(
        DbValue::Int(i64::MAX).display_string().unwrap(),
        "9223372036854775807"
    );
}

#[test]
fn display_char_and_text() {
    assert_eq!(DbValue::Char('x').display_string().unwrap(), "x");
    assert_eq!(DbValue::Char('é').display_string().unwrap(), "é");
    assert_eq!(
        DbValue::Text("some words".to_string()).display_string().unwrap(),
        "some words"
    );
}

#[test]
fn display_complex_integers() {
    assert_eq!(DbValue::ComplexInt((1, 2)).display_string().unwrap(), "1 + 2i");
    assert_eq!(DbValue::ComplexInt((1, -2)).display_string().unwrap(), "1 - 2i");
    assert_eq!(DbValue::ComplexInt((-3, 0)).display_string().unwrap(), "-3 + 0i");
    assert_eq!(
        DbValue::ComplexInt((0, i64::MIN)).display_string().unwrap(),
        "0 - 9223372036854775808i"
    );
}

#[test]
fn display_floats_stays_outside() {
    assert!(DbValue::Real(1.5f64.to_bits()).display_string().is_none());
    assert!(DbValue::ComplexReal((1.0f64.to_bits(), 2.0f64.to_bits()))
        .display_string()
        .is_none());
}

fn sorted_column(values: Vec<DbValue>, tag: DbType) -> Vec<DbValue> {
    let mut db = PinnedDatabase::create("db".to_string(), "p".to_string());
    db.create_table("t".to_string(), vec![tag]).unwrap();
    let table = db.get_table_mut("t".to_string()).unwrap();
    for v in values {
        table.insert_row(Row(vec![v])).unwrap();
    }
    table
        .get_rows_sorted(Some(0))
        .into_iter()
        .map(|r| r.get(0).unwrap())
        .collect()
}

#[test]
fn floats_sort_numerically() {
    let bits = |f: f64| DbValue::Real(f.to_bits());
    let got = sorted_column(
        vec![bits(2.25), bits(-1.5), bits(0.0), bits(-0.0), bits(100.0), bits(-3e7)],
        DbType::Real,
    );
    assert_eq!(
        got,
        vec![bits(-3e7), bits(-1.5), bits(-0.0), bits(0.0), bits(2.25), bits(100.0)]
    );
}

#[test]
fn text_sorts_lexicographically() {
    let s = |t: &str| DbValue::Text(t.to_string());
    let got = sorted_column(
        vec![s("pear"), s(""), s("peach"), s("pea"), s("apple")],
        DbType::Text,
    );
    assert_eq!(got, vec![s(""), s("apple"), s("pea"), s("peach"), s("pear")]);
}

#[test]
fn complex_integers_sort_by_real_then_imaginary() {
    let c = |re: i64, im: i64| DbValue::ComplexInt((re, im));
    let got = sorted_column(vec![c(1, 1), c(0, 5), c(1, -2), c(-1, 9)], DbType::ComplexInt);
    assert_eq!(got, vec![c(-1, 9), c(0, 5), c(1, -2), c(1, 1)]);
}

#[test]
fn equal_keys_keep_insertion_order() {
    let mut db = PinnedDatabase::create("db".to_string(), "p".to_string());
    db.create_table("t".to_string(), vec![DbType::Int, DbType::Text]).unwrap();
    let table = db.get_table_mut("t".to_string()).unwrap();
    let row = |k: i64, n: &str| Row(vec![DbValue::Int(k), DbValue::Text(n.to_string())]);
    table.insert_row(row(1, "first")).unwrap();
    table.insert_row(row(0, "second")).unwrap();
    table.insert_row(row(1, "third")).unwrap();
    table.insert_row(row(0, "fourth")).unwrap();

    let sorted = table.get_rows_sorted(Some(0));
    assert_eq!(
        sorted,
        vec![row(0, "second"), row(0, "fourth"), row(1, "first"), row(1, "third")]
    );
}

#[test]
fn out_of_range_sort_key_falls_back_to_insertion_order() {
    let mut db = PinnedDatabase::create("db".to_string(), "p".to_string());
    db.create_table("t".to_string(), vec![DbType::Int]).unwrap();
    let table = db.get_table_mut("t".to_string()).unwrap();
    table.insert_row(Row(vec![DbValue::Int(3)])).unwrap();
    table.insert_row(Row(vec![DbValue::Int(1)])).unwrap();
    table.insert_row(Row(vec![DbValue::Int(2)])).unwrap();

    let sorted = table.get_rows_sorted(Some(7));
    assert_eq!(
        sorted,
        vec![
            Row(vec![DbValue::Int(3)]),
            Row(vec![DbValue::Int(1)]),
            Row(vec![DbValue::Int(2)]),
        ]
    );
}

#[test]
fn char_and_int_columns_sort_naturally() {
    let got = sorted_column(
        vec![DbValue::Char('b'), DbValue::Char('A'), DbValue::Char('z')],
        DbType::Char,
    );
    assert_eq!(got, vec![DbValue::Char('A'), DbValue::Char('b'), DbValue::Char('z')]);
    let got = sorted_column(
        vec![DbValue::Int(5), DbValue::Int(-10), DbValue::Int(0)],
        DbType::Int,
    );
    assert_eq!(got, vec![DbValue::Int(-10), DbValue::Int(0), DbValue::Int(5)]);
}

#[test]
fn values_of_different_tags_order_by_tag() {
    // A table column never mixes tags, but the comparator is total: values
    // of different tags order by the tag's declaration position.
    let ladder = vec![
        DbValue::Int(i64::MAX),
        DbValue::Real(f64::NEG_INFINITY.to_bits()),
        DbValue::Char('\0'),
        DbValue::Text("".to_string()),
        DbValue::ComplexReal((0.0f64.to_bits(), 0.0f64.to_bits())),
        DbValue::ComplexInt((i64::MIN, i64::MIN)),
    ];
    for a in 0..ladder.len() {
        for b in 0..ladder.len() {
            assert_eq!(simple_db::order::value_le(&ladder[a], &ladder[b]), a <= b);
        }
    }
}
