use std::collections::hash_map::DefaultHasher;
use std::hash::{Hash, Hasher};

use pbase::query::FilterSource;
use pbase::query_tools::{find_insert_pos_in_index, index_for_query, index_score};
use pbase::schema::{FieldSchema, TableSchema};
use pbase::value::Value;

#[test]
fn test_index_score() {
    assert_eq!(0, index_score(&vec![], &vec![]));

    assert_eq!(0, index_score(&vec![], &vec!["A".to_string()]));

    assert_eq!(
        0,
        index_score(&vec!["A".to_string()], &vec!["B".to_string()])
    );

    assert_eq!(
        1,
        index_score(
            &vec!["A".to_string()],
            &vec!["B".to_string(), "A".to_string()]
        )
    );

    assert_eq!(
        2,
        index_score(
            &vec!["A".to_string(), "C".to_string()],
            &vec!["B".to_string(), "A".to_string(), "C".to_string()]
        )
    );
}

#[test]
fn test_index_for_query() {
    let table_schema = TableSchema {
        name: "example".to_string(),
        fields: vec![
            ("A".to_string(), FieldSchema::I32),
            ("B".to_string(), FieldSchema::I32),
            ("C".to_string(), FieldSchema::I32),
            ("D".to_string(), FieldSchema::I32),
        ],
        indices: vec![
            ("index1".to_string(), vec!["A".to_string(), "B".to_string()]),
            (
                "index2".to_string(),
                vec!["B".to_string(), "C".to_string(), "D".to_string()],
            ),
        ],
    };

    let index_name = index_for_query(&table_schema, &vec!["A".to_string(), "B".to_string()]);
    assert_eq!(Some("index1".to_string()), index_name);
}

#[test]
fn test_find_insert_pos_in_index_single_field_index() {
    let table_schema = TableSchema {
        name: "fake_table".to_string(),
        fields: vec![("col1".to_string(), FieldSchema::I32)],
        indices: vec![("fake_index".to_string(), vec!["col1".to_string()])],
    };

    let rows: Vec<Vec<i32>> = vec![vec![0], vec![0], vec![1], vec![1], vec![3], vec![3]];
    assert_find_insert_pos_in_index(&rows, &[2], 4, &table_schema);
    assert_find_insert_pos_in_index(&rows, &[1], 4, &table_schema);
    assert_find_insert_pos_in_index(&rows, &[0], 2, &table_schema);
    assert_find_insert_pos_in_index(&rows, &[3], 6, &table_schema);
    assert_find_insert_pos_in_index(&rows, &[-1], 0, &table_schema);
    assert_find_insert_pos_in_index(&rows, &[4], 6, &table_schema);
}

#[test]
fn test_find_insert_pos_in_index_multi_field_index() {
    let table_schema = TableSchema {
        name: "fake_table".to_string(),
        fields: vec![
            ("col1".to_string(), FieldSchema::I32),
            ("col2".to_string(), FieldSchema::I32),
        ],
        indices: vec![(
            "fake_index".to_string(),
            vec!["col1".to_string(), "col2".to_string()],
        )],
    };

    let rows: Vec<Vec<i32>> = vec![
        vec![0, 0],
        vec![0, 1],
        vec![0, 2],
        vec![1, 0],
        vec![1, 1],
        vec![1, 2],
        vec![3, 0],
        vec![3, 1],
        vec![3, 2],
    ];

    assert_find_insert_pos_in_index(&rows, &[2, 0], 6, &table_schema);
    assert_find_insert_pos_in_index(&rows, &[1, 1], 5, &table_schema);
}

#[test]
fn test_single_filter_source_hash_works() {
    let mut hasher1 = DefaultHasher::new();
    FilterSource::new_single("abc".into()).hash(&mut hasher1);

    let mut hasher2 = DefaultHasher::new();
    FilterSource::new_single("abc".into()).hash(&mut hasher2);

    assert_eq!(hasher1.finish(), hasher2.finish());
}

#[test]
fn test_multi_filter_source_hash_works() {
    let mut hasher1 = DefaultHasher::new();
    FilterSource::new_multi("abc".into(), "def".into()).hash(&mut hasher1);

    let mut hasher2 = DefaultHasher::new();
    FilterSource::new_multi("def".into(), "abc".into()).hash(&mut hasher2);

    assert_eq!(hasher1.finish(), hasher2.finish());
}

fn assert_find_insert_pos_in_index(
    index_content: &[Vec<i32>],
    to_find: &[i32],
    expected: usize,
    table_schema: &TableSchema,
) {
    let index_name = "fake_index";

    let index_bytes = index_content
        .iter()
        .flat_map(|i32_vals| {
            let mut as_vec = i32_vals.clone();
            // Two zero words pad each entry where the row pointer goes.
            as_vec.push(0);
            as_vec.push(0);

            as_vec
        })
        .flat_map(i32::to_le_bytes)
        .collect::<Vec<_>>();

    let index_bytes = &index_bytes[..];
    let index_values: Vec<Value> = to_find.iter().map(|v| Value::I32(*v)).collect();

    let result = find_insert_pos_in_index(index_name, index_bytes, &index_values, table_schema);

    assert_eq!(expected, result);
}
