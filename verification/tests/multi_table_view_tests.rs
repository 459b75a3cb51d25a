use pbase::common::Selection;
use pbase::multi_table_view::MultiTableView;
use pbase::query::JoinType;
use pbase::schema::{FieldSchema, TableSchema};

fn two_i32_schema() -> TableSchema {
    TableSchema {
        name: "t1".to_string(),
        fields: vec![
            ("f1".to_string(), FieldSchema::I32),
            ("f2".to_string(), FieldSchema::I32),
        ],
        indices: vec![],
    }
}

#[test]
fn test_row_pos_with_an_all_selection() {
    let table_schema = two_i32_schema();

    let table_bytes: [u8; 16] = [1, 0, 0, 0, 2, 0, 0, 0, 3, 0, 0, 0, 4, 0, 0, 0];

    let view = MultiTableView::new_from_table_bytes_and_selection(
        &table_bytes,
        &table_schema,
        &Selection::All,
    );

    assert_eq!(0, view.row_pos(0, "t1"));
    assert_eq!(8, view.row_pos(1, "t1"));
}

#[test]
fn test_row_pos_with_a_list_selection() {
    let table_schema = two_i32_schema();

    let table_bytes: [u8; 16] = [1, 0, 0, 0, 2, 0, 0, 0, 3, 0, 0, 0, 4, 0, 0, 0];

    let view = MultiTableView::new_from_table_bytes_and_selection(
        &table_bytes,
        &table_schema,
        &Selection::List(vec![8]),
    );

    assert_eq!(8, view.row_pos(0, "t1"));
}

#[test]
fn test_multi_view_join() {
    let t1_schema = TableSchema {
        name: "t1".to_string(),
        fields: vec![("id".to_string(), FieldSchema::U8)],
        indices: vec![],
    };
    let t1_bytes: [u8; 4] = [0, 1, 2, 3];

    let t2_schema = TableSchema {
        name: "t2".to_string(),
        fields: vec![("t1_id".to_string(), FieldSchema::U8)],
        indices: vec![],
    };
    let t2_bytes: [u8; 5] = [1, 2, 3, 7, 8];

    let mut view =
        MultiTableView::new_from_table_bytes_and_selection(&t1_bytes, &t1_schema, &Selection::All);
    assert_eq!(4, view.len());

    let join_selection = Selection::List(vec![0, 1, /* no 2 */ 3, 4]);

    view.join(
        &JoinType::Inner,
        &join_selection,
        "t1",
        "t2",
        "id",
        "t1_id",
        &t1_bytes,
        &t1_schema,
        &t2_bytes,
        &t2_schema,
    );

    assert_eq!(2, view.len());
    assert_eq!(vec![1, 0], view.view[0]);
    assert_eq!(vec![2, 1], view.view[1]);
}
