use pbase::common::Selection;
use pbase::schema::{FieldSchema, TableRowIterator, TableSchema, ValueMap};
use pbase::value::Value;

fn three_i32_schema() -> TableSchema {
    TableSchema {
        name: "t1".to_string(),
        fields: vec![
            ("f1".to_string(), FieldSchema::I32),
            ("f2".to_string(), FieldSchema::I32),
            ("f3".to_string(), FieldSchema::I32),
        ],
        indices: vec![
            ("i1".to_string(), vec!["f1".to_string(), "f2".to_string()]),
            ("i2".to_string(), vec!["f3".to_string()]),
        ],
    }
}

#[test]
fn test_empty_table_schema() {
    let table_schema = TableSchema {
        name: "t1".to_string(),
        fields: vec![],
        indices: vec![],
    };

    assert_eq!(0, table_schema.row_byte_size());
}

#[test]
fn test_normal_table_schema() {
    let table_schema = three_i32_schema();

    assert_eq!(12, table_schema.row_byte_size());

    assert_eq!(0, table_schema.field_byte_pos("f1"));
    assert_eq!(4, table_schema.field_byte_pos("f2"));
    assert_eq!(8, table_schema.field_byte_pos("f3"));

    assert_eq!(16, table_schema.index_row_byte_size("i1"));
    assert_eq!(12, table_schema.index_row_byte_size("i2"));

    let mut values = ValueMap::new();
    values.insert("f3".to_string(), Value::I32(3));
    values.insert("f1".to_string(), Value::I32(1));
    let expected_bytes = vec![1, 0, 0, 0, 0, 0, 0, 0, 3, 0, 0, 0];
    assert_eq!(expected_bytes, table_schema.data_row_to_bytes(&values));

    let mut index_values = ValueMap::new();
    index_values.insert("f1".to_string(), Value::I32(1));
    index_values.insert("f2".to_string(), Value::I32(2));
    let expected_bytes = vec![1, 0, 0, 0, 2, 0, 0, 0, 7, 0, 0, 0, 0, 0, 0, 0];
    assert_eq!(
        expected_bytes,
        table_schema.index_row_to_bytes("i1", &index_values, 7),
    );

    assert_eq!(0, table_schema.index_field_byte_pos("i1", "f1"));
    assert_eq!(4, table_schema.index_field_byte_pos("i1", "f2"));
    assert_eq!(0, table_schema.index_field_byte_pos("i2", "f3"));
}

#[test]
fn test_parse_row_bytes() {
    let table_schema = three_i32_schema();

    let bytes: [u8; 12] = [1, 2, 3, 4, 5, 5, 5, 5, 6, 7, 8, 9];
    let values = table_schema.parse_row_bytes(&bytes);

    assert_eq!(Some(Value::I32(0x04030201)), values.get("f1"));
    assert_eq!(Some(Value::I32(0x05050505)), values.get("f2"));
    assert_eq!(Some(Value::I32(0x09080706)), values.get("f3"));
}

#[test]
fn test_row_codec_round_trip() {
    let table_schema = three_i32_schema();

    let bytes: [u8; 12] = [1, 2, 3, 4, 255, 255, 255, 255, 6, 7, 8, 9];
    let values = table_schema.parse_row_bytes(&bytes);
    let encoded = table_schema.data_row_to_bytes(&values);

    assert_eq!(bytes.to_vec(), encoded);
}

fn two_i32_schema() -> TableSchema {
    TableSchema {
        name: "t1".to_string(),
        fields: vec![
            ("f1".to_string(), FieldSchema::I32),
            ("f2".to_string(), FieldSchema::I32),
        ],
        indices: vec![],
    }
}

#[test]
fn test_table_row_iterator_with_all_selection() {
    let table_schema = two_i32_schema();

    let table_bytes: [u8; 16] = [1, 0, 0, 0, 2, 0, 0, 0, 3, 0, 0, 0, 4, 0, 0, 0];

    let selection = Selection::All;
    let mut it = TableRowIterator::new(&table_schema, &table_bytes, &selection);

    let row1 = it.next().unwrap();
    assert_eq!(Value::I32(1), row1.get_field_value("f1"));
    assert_eq!(Value::I32(2), row1.get_field_value("f2"));

    let row2 = it.next().unwrap();
    assert_eq!(Value::I32(3), row2.get_field_value("f1"));
    assert_eq!(Value::I32(4), row2.get_field_value("f2"));

    assert!(it.next().is_none());
}

#[test]
fn test_table_row_iterator_with_list_selection() {
    let table_schema = two_i32_schema();

    let table_bytes: [u8; 24] = [
        1, 0, 0, 0, 2, 0, 0, 0, 3, 0, 0, 0, 4, 0, 0, 0, 5, 0, 0, 0, 6, 0, 0, 0,
    ];

    let selection = Selection::List(vec![8, 16]);
    let mut it = TableRowIterator::new(&table_schema, &table_bytes, &selection);

    let row1 = it.next().unwrap();
    assert_eq!(Value::I32(3), row1.get_field_value("f1"));
    assert_eq!(Value::I32(4), row1.get_field_value("f2"));
    assert_eq!(8, row1.absolute_pos);

    let row2 = it.next().unwrap();
    assert_eq!(Value::I32(5), row2.get_field_value("f1"));
    assert_eq!(Value::I32(6), row2.get_field_value("f2"));
    assert_eq!(16, row2.absolute_pos);

    assert!(it.next().is_none());
}
