use rowstore::codec::Value;
use rowstore::schema::{Schema, Type};
use rowstore::table::{Table, TableError};

fn demo_schema() -> Schema {
    Schema::new(
        String::from("tomer"),
        vec![
            (String::from("id"), Type::Integer, 4),
            (String::from("username"), Type::Varchar, 40),
            (String::from("grade"), Type::Float, 4),
        ],
    )
}

fn demo_row(id: &str, username: &str, grade: f32) -> Vec<Value> {
    vec![
        Value::Integer(String::from(id)),
        Value::Varchar(String::from(username)),
        Value::Float(grade.to_bits()),
    ]
}

#[test]
fn insertion_test() {
    let mut table = Table::new(demo_schema(), 10, 4096);
    let res = table.write_row(demo_row("1", "tomerh", 1.2));
    assert_eq!(res, Ok(String::from("inserted row")));
    assert_eq!(table.read_all(), vec![demo_row("1", "tomerh", 1.2)]);
}

#[test]
fn fill_table_test() {
    // page_size 100 over a 48-byte row gives 2 rows per page; 5 pages make
    // room for exactly 10 rows, so the 11th insert must report a full table.
    let mut table = Table::new(demo_schema(), 5, 100);
    assert_eq!(table.rows_per_page, 2);
    assert_eq!(table.max_rows, 10);
    for i in 0..10 {
        let row = demo_row(&format!("{}", i), &format!("tomerh{}", i), 1.2);
        assert_eq!(table.write_row(row), Ok(String::from("inserted row")));
    }
    let res = table.write_row(demo_row("1", "tomerh", 1.2));
    assert_eq!(res, Err(TableError::TableFull));
    // the failed insert wrote nothing
    assert_eq!(table.read_all().len(), 10);
}

#[test]
fn string_too_long() {
    let mut table = Table::new(demo_schema(), 10, 4096);
    let long_name = "t claknsclkasnlksnclkasnclkasnlcksnlskanc".repeat(2);
    assert!(long_name.len() > 40);
    let res = table.write_row(demo_row("1", &long_name, 1.2));
    assert_eq!(res, Err(TableError::SerializeErr));
    assert_eq!(table.read_all().len(), 0);
}

#[test]
fn table_full_takes_precedence_over_bad_values() {
    let mut table = Table::new(demo_schema(), 1, 100);
    assert_eq!(table.max_rows, 2);
    for i in 0..2 {
        let row = demo_row(&format!("{}", i), "x", 0.0);
        assert_eq!(table.write_row(row), Ok(String::from("inserted row")));
    }
    // at capacity, even an unparsable value reports TableFull
    let res = table.write_row(demo_row("not a number", "x", 0.0));
    assert_eq!(res, Err(TableError::TableFull));
}

#[test]
fn read_all_keeps_insertion_order_across_pages() {
    let mut table = Table::new(demo_schema(), 5, 100);
    let mut expected = Vec::new();
    for i in 0..7 {
        let row = demo_row(&format!("{}", i), &format!("user{}", i), i as f32);
        expected.push(clone_values(&row));
        assert!(table.write_row(row).is_ok());
    }
    assert_eq!(table.pages.len(), 4);
    assert_eq!(table.read_all(), expected);
}

fn clone_values(values: &[Value]) -> Vec<Value> {
    values
        .iter()
        .map(|v| match v {
            Value::Varchar(s) => Value::Varchar(s.clone()),
            Value::Integer(s) => Value::Integer(s.clone()),
            Value::Float(b) => Value::Float(*b),
        })
        .collect()
}

#[test]
fn round_trip_numeric_extremes() {
    let mut table = Table::new(demo_schema(), 10, 4096);
    let rows = vec![
        demo_row("-2147483648", "min", -1.5),
        demo_row("2147483647", "max", 3.25),
        demo_row("0", "", 0.0),
    ];
    for r in &rows {
        assert!(table.write_row(clone_values(r)).is_ok());
    }
    assert_eq!(table.read_all(), rows);
}

#[test]
fn round_trip_multibyte_text() {
    let mut table = Table::new(demo_schema(), 10, 4096);
    let name = "h\u{e9}llo \u{4e16}\u{754c}";
    let row = demo_row("5", name, 2.5);
    assert!(table.write_row(row).is_ok());
    let all = table.read_all();
    assert_eq!(all, vec![demo_row("5", name, 2.5)]);
}

#[test]
fn integer_text_is_canonicalized_on_read() {
    let mut table = Table::new(demo_schema(), 10, 4096);
    assert!(table.write_row(demo_row("007", "zeros", 0.0)).is_ok());
    assert!(table.write_row(demo_row("+5", "plus", 0.0)).is_ok());
    assert!(table.write_row(demo_row("-0", "minuszero", 0.0)).is_ok());
    let all = table.read_all();
    assert_eq!(all[0][0], Value::Integer(String::from("7")));
    assert_eq!(all[1][0], Value::Integer(String::from("5")));
    assert_eq!(all[2][0], Value::Integer(String::from("0")));
}

#[test]
fn varchar_fits_exactly() {
    let mut table = Table::new(demo_schema(), 10, 4096);
    let name40 = "a".repeat(40);
    assert!(table.write_row(demo_row("1", &name40, 0.0)).is_ok());
    let name41 = "a".repeat(41);
    assert_eq!(
        table.write_row(demo_row("1", &name41, 0.0)),
        Err(TableError::SerializeErr)
    );
    let all = table.read_all();
    assert_eq!(all, vec![demo_row("1", &name40, 0.0)]);
}

#[test]
fn bad_integer_text_is_rejected() {
    let mut table = Table::new(demo_schema(), 10, 4096);
    for bad in ["abc", "", "12x", "2147483648", "-2147483649", "+", "-", "1.5"] {
        let res = table.write_row(demo_row(bad, "x", 0.0));
        assert_eq!(res, Err(TableError::SerializeErr), "value {:?}", bad);
    }
    assert_eq!(table.read_all().len(), 0);
}

#[test]
fn wrong_value_count_or_type_is_rejected() {
    let mut table = Table::new(demo_schema(), 10, 4096);
    let res = table.write_row(vec![Value::Integer(String::from("1"))]);
    assert_eq!(res, Err(TableError::SerializeErr));
    let res = table.write_row(vec![
        Value::Varchar(String::from("1")),
        Value::Varchar(String::from("x")),
        Value::Float(0),
    ]);
    assert_eq!(res, Err(TableError::SerializeErr));
}

#[test]
fn serialize_row_layout() {
    let table = Table::new(demo_schema(), 10, 4096);
    let bytes = table
        .serialize_row(&demo_row("1", "ab", 1.5))
        .expect("row serializes");
    assert_eq!(bytes.len(), 48);
    assert_eq!(&bytes[0..4], &[0, 0, 0, 1]);
    assert_eq!(&bytes[4..6], b"ab");
    assert!(bytes[6..44].iter().all(|&b| b == 0));
    assert_eq!(&bytes[44..48], &1.5f32.to_be_bytes());
}

#[test]
fn serialize_negative_integer_is_twos_complement() {
    let table = Table::new(demo_schema(), 10, 4096);
    let bytes = table
        .serialize_row(&demo_row("-2", "x", 0.0))
        .expect("row serializes");
    assert_eq!(&bytes[0..4], &(-2i32).to_be_bytes());
}

#[test]
fn deserialize_row_reads_fixed_offsets() {
    let table = Table::new(demo_schema(), 10, 4096);
    let bytes = table.serialize_row(&demo_row("-7", "name", 0.25)).unwrap();
    let values = table.deserialize_row(&bytes);
    assert_eq!(values, demo_row("-7", "name", 0.25));
}
