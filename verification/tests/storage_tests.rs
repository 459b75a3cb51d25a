use pbase::common::PBaseError;
use pbase::pbase::{PBase, TableStorage};
use pbase::query::{
    CreateTableQuery, FieldSelector, InsertQuery, JoinContract, JoinType, RhsValue, RowFilter,
    SelectQuery,
};
use pbase::query_tools::SelectQueryExecutor;
use pbase::schema::{FieldSchema, TableSchema, ValueMap};
use pbase::value::Value;

fn values_of(pairs: &[(&str, Value)]) -> ValueMap {
    let mut out = ValueMap::new();
    for (name, value) in pairs {
        out.insert((*name).to_string(), *value);
    }
    out
}

#[test]
fn test_insert_grows_data_and_index_by_one_row() {
    let mut storage = TableStorage {
        schema: TableSchema {
            name: "t".to_string(),
            fields: vec![
                ("a".to_string(), FieldSchema::I32),
                ("b".to_string(), FieldSchema::U8),
            ],
            indices: vec![("ix".to_string(), vec!["a".to_string()])],
        },
        data: Vec::new(),
        index_files: vec![Vec::new()],
    };

    // The first insert fills the empty index with exactly one entry.
    let ptr = storage.insert_row(&values_of(&[("a", Value::I32(7)), ("b", Value::U8(1))]));
    assert_eq!(0, ptr);
    assert_eq!(5, storage.data.len());
    assert_eq!(12, storage.index_files[0].len());

    // Each further insert adds one row image and one index entry.
    let ptr = storage.insert_row(&values_of(&[("a", Value::I32(3)), ("b", Value::U8(2))]));
    assert_eq!(5, ptr);
    assert_eq!(10, storage.data.len());
    assert_eq!(24, storage.index_files[0].len());

    let ptr = storage.insert_row(&values_of(&[("a", Value::I32(5)), ("b", Value::U8(3))]));
    assert_eq!(10, ptr);
    assert_eq!(15, storage.data.len());
    assert_eq!(36, storage.index_files[0].len());

    // The index is sorted by key: 3 at offset 5, then 5 at 10, then 7 at 0.
    let ib = &storage.index_files[0];
    let keys: Vec<i32> = (0..3)
        .map(|e| i32::from_le_bytes(ib[e * 12..e * 12 + 4].try_into().unwrap()))
        .collect();
    assert_eq!(vec![3, 5, 7], keys);
    let ptrs: Vec<u64> = (0..3)
        .map(|e| u64::from_le_bytes(ib[e * 12 + 4..e * 12 + 12].try_into().unwrap()))
        .collect();
    assert_eq!(vec![5, 10, 0], ptrs);
}

#[test]
fn test_equal_keys_insert_in_arrival_order() {
    let mut storage = TableStorage {
        schema: TableSchema {
            name: "t".to_string(),
            fields: vec![
                ("a".to_string(), FieldSchema::I32),
                ("b".to_string(), FieldSchema::U8),
            ],
            indices: vec![("ix".to_string(), vec!["a".to_string()])],
        },
        data: Vec::new(),
        index_files: vec![Vec::new()],
    };

    storage.insert_row(&values_of(&[("a", Value::I32(4)), ("b", Value::U8(1))]));
    storage.insert_row(&values_of(&[("a", Value::I32(4)), ("b", Value::U8(2))]));
    storage.insert_row(&values_of(&[("a", Value::I32(4)), ("b", Value::U8(3))]));

    // All keys tie, so the pointers stay in insertion order.
    let ib = &storage.index_files[0];
    let ptrs: Vec<u64> = (0..3)
        .map(|e| u64::from_le_bytes(ib[e * 12 + 4..e * 12 + 12].try_into().unwrap()))
        .collect();
    assert_eq!(vec![0, 5, 10], ptrs);
}

#[test]
fn test_select_rejects_partial_row_data() {
    let tables = vec![TableStorage {
        schema: TableSchema {
            name: "broken".to_string(),
            fields: vec![("a".to_string(), FieldSchema::I32)],
            indices: vec![],
        },
        data: vec![1, 2, 3, 4, 5],
        index_files: vec![],
    }];
    let query = SelectQuery {
        from: "broken".into(),
        joins: vec![],
        filters: vec![],
    };

    let result = SelectQueryExecutor::new(&tables, query).call();
    assert!(matches!(result, Err(PBaseError::InvalidTableSizeError)));
}

#[test]
fn test_select_unknown_table_is_an_error() {
    let db = PBase::new();
    let query = SelectQuery {
        from: "missing".into(),
        joins: vec![],
        filters: vec![],
    };
    let result = db.run_select_query(query);
    assert!(matches!(result, Err(PBaseError::TableNotFound(_))));
}

#[test]
fn test_materializes_one_row_from_one_row_table() {
    let mut db = PBase::new();
    db.run_create_table_query(CreateTableQuery {
        schema: TableSchema {
            name: "solo".into(),
            fields: vec![("v".to_string(), FieldSchema::I32)],
            indices: vec![],
        },
    })
    .unwrap();
    db.run_insert_query(&InsertQuery {
        table: "solo".into(),
        values: values_of(&[("v", Value::I32(42))]),
    })
    .unwrap();

    let result = db
        .run_select_query(SelectQuery {
            from: "solo".into(),
            joins: vec![],
            filters: vec![],
        })
        .unwrap();
    assert_eq!(1, result.len());
    assert_eq!(Some(Value::I32(42)), result[0].get("solo.v"));
}

#[test]
fn test_basic_single_table_create_and_load() {
    let mut db = PBase::new();

    let create_table_query = CreateTableQuery {
        schema: TableSchema {
            name: "testtable".into(),
            fields: vec![
                ("field1".into(), FieldSchema::I32),
                ("field2".into(), FieldSchema::I32),
                ("field3".into(), FieldSchema::I32),
            ],
            indices: vec![(
                "field_1_and_2".into(),
                vec!["field1".into(), "field2".into()],
            )],
        },
    };

    let create_result = db.run_create_table_query(create_table_query);
    assert!(create_result.is_ok());

    let insert_query = InsertQuery {
        table: "testtable".into(),
        values: values_of(&[
            ("field1", Value::I32(1)),
            ("field2", Value::I32(10)),
            ("field3", Value::I32(100)),
        ]),
    };
    let insert_result = db.run_insert_query(&insert_query);
    assert!(insert_result.is_ok());

    let insert_query = InsertQuery {
        table: "testtable".into(),
        values: values_of(&[
            ("field1", Value::I32(2)),
            ("field2", Value::I32(20)),
            ("field3", Value::I32(200)),
        ]),
    };
    let insert_result = db.run_insert_query(&insert_query);
    assert!(insert_result.is_ok());

    let insert_query = InsertQuery {
        table: "testtable".into(),
        values: values_of(&[
            ("field1", Value::I32(3)),
            ("field2", Value::I32(30)),
            ("field3", Value::I32(300)),
        ]),
    };
    let insert_result = db.run_insert_query(&insert_query);
    assert!(insert_result.is_ok());

    let query = SelectQuery {
        from: "testtable".into(),
        joins: vec![],
        filters: vec![RowFilter {
            field: FieldSelector {
                name: "field1".to_string(),
                source: "testtable".to_string(),
            },
            op: std::cmp::Ordering::Equal,
            rhs: RhsValue::Value(Value::I32(2)),
        }],
    };

    let query_result = db.run_select_query(query);
    assert!(query_result.is_ok());
    assert_eq!(1, query_result.as_ref().unwrap().len());
    assert_eq!(
        Some(Value::I32(20)),
        query_result.as_ref().unwrap()[0].get("testtable.field2")
    );

    let query = SelectQuery {
        from: "testtable".into(),
        joins: vec![],
        filters: vec![RowFilter {
            field: FieldSelector {
                name: "field1".to_string(),
                source: "testtable".to_string(),
            },
            op: std::cmp::Ordering::Less,
            rhs: RhsValue::Value(Value::I32(2)),
        }],
    };

    let query_result = db.run_select_query(query);
    assert!(query_result.is_ok());
    assert_eq!(1, query_result.as_ref().unwrap().len());
    assert_eq!(
        Some(Value::I32(10)),
        query_result.as_ref().unwrap()[0].get("testtable.field2")
    );

    let query = SelectQuery {
        from: "testtable".into(),
        joins: vec![],
        filters: vec![RowFilter {
            field: FieldSelector {
                name: "field1".to_string(),
                source: "testtable".to_string(),
            },
            op: std::cmp::Ordering::Greater,
            rhs: RhsValue::Value(Value::I32(2)),
        }],
    };

    let query_result = db.run_select_query(query);
    assert!(query_result.is_ok());
    assert_eq!(1, query_result.as_ref().unwrap().len());
    assert_eq!(
        Some(Value::I32(30)),
        query_result.as_ref().unwrap()[0].get("testtable.field2")
    );
}

#[test]
fn test_single_table_field_reference_filter() {
    let mut db = PBase::new();

    let create_table_query = CreateTableQuery {
        schema: TableSchema {
            name: "singleref_t".into(),
            fields: vec![
                ("f1".into(), FieldSchema::U8),
                ("f2".into(), FieldSchema::U8),
            ],
            indices: vec![],
        },
    };
    db.run_create_table_query(create_table_query).unwrap();

    assert!(db
        .run_insert_query(&InsertQuery {
            table: "singleref_t".into(),
            values: values_of(&[("f1", Value::U8(2)), ("f2", Value::U8(2))]),
        })
        .is_ok());
    assert!(db
        .run_insert_query(&InsertQuery {
            table: "singleref_t".into(),
            values: values_of(&[("f1", Value::U8(3)), ("f2", Value::U8(4))]),
        })
        .is_ok());
    assert!(db
        .run_insert_query(&InsertQuery {
            table: "singleref_t".into(),
            values: values_of(&[("f1", Value::U8(1)), ("f2", Value::U8(1))]),
        })
        .is_ok());
    assert!(db
        .run_insert_query(&InsertQuery {
            table: "singleref_t".into(),
            values: values_of(&[("f1", Value::U8(6)), ("f2", Value::U8(5))]),
        })
        .is_ok());

    let query = SelectQuery {
        from: "singleref_t".into(),
        joins: vec![],
        filters: vec![RowFilter {
            field: FieldSelector {
                name: "f1".into(),
                source: "singleref_t".into(),
            },
            op: std::cmp::Ordering::Equal,
            rhs: RhsValue::Ref(FieldSelector {
                name: "f2".into(),
                source: "singleref_t".into(),
            }),
        }],
    };

    let result = db.run_select_query(query).unwrap();
    assert_eq!(2, result.len());

    assert_eq!(Some(Value::U8(2)), result[0].get("singleref_t.f1"));
    assert_eq!(Some(Value::U8(2)), result[0].get("singleref_t.f2"));

    assert_eq!(Some(Value::U8(1)), result[1].get("singleref_t.f1"));
    assert_eq!(Some(Value::U8(1)), result[1].get("singleref_t.f2"));
}

fn setup_multi_tables(prefix: &str) -> PBase {
    let t1_name = format!("{prefix}_t1");
    let t2_name = format!("{prefix}_t2");

    let mut db = PBase::new();

    let create_table_query = CreateTableQuery {
        schema: TableSchema {
            name: t1_name.clone(),
            fields: vec![
                ("id".into(), FieldSchema::I32),
                ("value".into(), FieldSchema::I32),
            ],
            indices: vec![],
        },
    };
    assert!(db.run_create_table_query(create_table_query).is_ok());

    let create_table_query = CreateTableQuery {
        schema: TableSchema {
            name: t2_name.clone(),
            fields: vec![
                ("t1_id".into(), FieldSchema::I32),
                ("value".into(), FieldSchema::I32),
                ("v2".into(), FieldSchema::I32),
            ],
            indices: vec![],
        },
    };
    assert!(db.run_create_table_query(create_table_query).is_ok());

    for (id, value) in [(0, 100), (1, 101), (2, 102), (3, 103)] {
        let insert_query = InsertQuery {
            table: t1_name.clone(),
            values: values_of(&[("id", Value::I32(id)), ("value", Value::I32(value))]),
        };
        assert!(db.run_insert_query(&insert_query).is_ok());
    }

    for (t1_id, value, v2) in [(0, 1000, 555), (0, 2000, 101), (2, 3002, 102), (4, 4004, 99)] {
        let insert_query = InsertQuery {
            table: t2_name.clone(),
            values: values_of(&[
                ("t1_id", Value::I32(t1_id)),
                ("value", Value::I32(value)),
                ("v2", Value::I32(v2)),
            ]),
        };
        assert!(db.run_insert_query(&insert_query).is_ok());
    }

    db
}

#[test]
fn test_single_tables() {
    let db = setup_multi_tables("qqq");

    let query = SelectQuery {
        from: "qqq_t1".into(),
        joins: vec![],
        filters: vec![],
    };

    let query_result = db.run_select_query(query);
    assert!(query_result.is_ok());
    assert_eq!(4, query_result.as_ref().unwrap().len());

    let query = SelectQuery {
        from: "qqq_t2".into(),
        joins: vec![],
        filters: vec![],
    };

    let query_result = db.run_select_query(query);
    assert!(query_result.is_ok());
    assert_eq!(4, query_result.as_ref().unwrap().len());
}

#[test]
fn test_join_table_all() {
    let db = setup_multi_tables("www");

    let query = SelectQuery {
        from: "www_t1".into(),
        joins: vec![JoinContract {
            join_type: JoinType::Inner,
            lhs: FieldSelector {
                name: "id".into(),
                source: "www_t1".into(),
            },
            rhs: FieldSelector {
                name: "t1_id".into(),
                source: "www_t2".into(),
            },
        }],
        filters: vec![],
    };
    let query_result = db.run_select_query(query);
    assert!(query_result.is_ok());
    let query_result = query_result.unwrap();
    assert_eq!(3, query_result.len());

    assert_eq!(Some(Value::I32(0)), query_result[0].get("www_t1.id"));
    assert_eq!(Some(Value::I32(100)), query_result[0].get("www_t1.value"));
    assert_eq!(Some(Value::I32(0)), query_result[0].get("www_t2.t1_id"));
    assert_eq!(Some(Value::I32(1000)), query_result[0].get("www_t2.value"));
    assert_eq!(Some(Value::I32(555)), query_result[0].get("www_t2.v2"));

    assert_eq!(Some(Value::I32(0)), query_result[1].get("www_t1.id"));
    assert_eq!(Some(Value::I32(100)), query_result[1].get("www_t1.value"));
    assert_eq!(Some(Value::I32(0)), query_result[1].get("www_t2.t1_id"));
    assert_eq!(Some(Value::I32(2000)), query_result[1].get("www_t2.value"));
    assert_eq!(Some(Value::I32(101)), query_result[1].get("www_t2.v2"));

    assert_eq!(Some(Value::I32(2)), query_result[2].get("www_t1.id"));
    assert_eq!(Some(Value::I32(102)), query_result[2].get("www_t1.value"));
    assert_eq!(Some(Value::I32(2)), query_result[2].get("www_t2.t1_id"));
    assert_eq!(Some(Value::I32(3002)), query_result[2].get("www_t2.value"));
    assert_eq!(Some(Value::I32(102)), query_result[2].get("www_t2.v2"));
}

#[test]
fn test_join_table_filtered() {
    let db = setup_multi_tables("eee");

    let query = SelectQuery {
        from: "eee_t1".into(),
        joins: vec![JoinContract {
            join_type: JoinType::Inner,
            lhs: FieldSelector {
                name: "id".into(),
                source: "eee_t1".into(),
            },
            rhs: FieldSelector {
                name: "t1_id".into(),
                source: "eee_t2".into(),
            },
        }],
        filters: vec![RowFilter {
            field: FieldSelector {
                name: "value".to_string(),
                source: "eee_t2".to_string(),
            },
            op: std::cmp::Ordering::Greater,
            rhs: RhsValue::Value(Value::I32(1500)),
        }],
    };
    let query_result = db.run_select_query(query);
    assert!(query_result.is_ok());
    let query_result = query_result.unwrap();
    assert_eq!(2, query_result.len());

    assert_eq!(Some(Value::I32(0)), query_result[0].get("eee_t1.id"));
    assert_eq!(Some(Value::I32(100)), query_result[0].get("eee_t1.value"));
    assert_eq!(Some(Value::I32(0)), query_result[0].get("eee_t2.t1_id"));
    assert_eq!(Some(Value::I32(2000)), query_result[0].get("eee_t2.value"));
    assert_eq!(Some(Value::I32(101)), query_result[0].get("eee_t2.v2"));

    assert_eq!(Some(Value::I32(2)), query_result[1].get("eee_t1.id"));
    assert_eq!(Some(Value::I32(102)), query_result[1].get("eee_t1.value"));
    assert_eq!(Some(Value::I32(2)), query_result[1].get("eee_t2.t1_id"));
    assert_eq!(Some(Value::I32(3002)), query_result[1].get("eee_t2.value"));
    assert_eq!(Some(Value::I32(102)), query_result[1].get("eee_t2.v2"));
}

#[test]
fn test_multi_table_cross_table_ref_filter() {
    let db = setup_multi_tables("fff");

    let query = SelectQuery {
        from: "fff_t1".into(),
        joins: vec![JoinContract {
            join_type: JoinType::Inner,
            lhs: FieldSelector {
                name: "id".into(),
                source: "fff_t1".into(),
            },
            rhs: FieldSelector {
                name: "t1_id".into(),
                source: "fff_t2".into(),
            },
        }],
        filters: vec![RowFilter {
            field: FieldSelector {
                name: "value".to_string(),
                source: "fff_t1".to_string(),
            },
            op: std::cmp::Ordering::Equal,
            rhs: RhsValue::Ref(FieldSelector {
                name: "v2".into(),
                source: "fff_t2".into(),
            }),
        }],
    };

    let result = db.run_select_query(query).unwrap();
    assert_eq!(1, result.len());

    assert_eq!(Some(Value::I32(2)), result[0].get("fff_t1.id"));
    assert_eq!(Some(Value::I32(102)), result[0].get("fff_t1.value"));
    assert_eq!(Some(Value::I32(2)), result[0].get("fff_t2.t1_id"));
    assert_eq!(Some(Value::I32(3002)), result[0].get("fff_t2.value"));
    assert_eq!(Some(Value::I32(102)), result[0].get("fff_t2.v2"));
}
