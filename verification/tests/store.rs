use zepto_db::codec::load_from_str;
use zepto_db::schema::parse_schema_string;
use zepto_db::table::new;
use zepto_db::table::Table;
use zepto_db::table::TableError;

fn table_with_rows(name: &str, schema: &str, rows: &[&[&str]]) -> Table {
    let mut t = new(name, schema);
    for row in rows {
        let cells: Vec<String> = row.iter().map(|c| c.to_string()).collect();
        t.insert(cells).unwrap();
    }
    t
}

fn all_rows(t: &Table) -> Vec<Vec<String>> {
    let mut rows = Vec::new();
    let mut it = t.iter_rows();
    while let Some(row) = it.next() {
        rows.push(row);
    }
    rows
}

#[test]
fn schema_parse_trims_and_keeps_order() {
    let cols = parse_schema_string(" location , value ,c");
    assert_eq!(cols, vec!["location".to_string(), "value".to_string(), "c".to_string()]);
}

#[test]
fn schema_parse_keeps_empty_tokens() {
    assert_eq!(parse_schema_string("x,,y"), vec!["x".to_string(), "".to_string(), "y".to_string()]);
    assert_eq!(parse_schema_string(""), vec!["".to_string()]);
}

#[test]
fn new_table_is_empty() {
    let t = new("people", "name,age");
    assert_eq!(t.name, "people");
    assert_eq!(t.n_cols, 2);
    assert_eq!(t.n_rows, 0);
    assert_eq!(t.schema, vec!["name".to_string(), "age".to_string()]);
    assert!(t.contents.is_empty());
}

#[test]
fn insert_appends_and_counts() {
    let mut t = new("people", "name,age");
    assert_eq!(t.insert(vec!["ada".to_string(), "36".to_string()]), Ok(()));
    assert_eq!(t.insert(vec!["bob".to_string(), "41".to_string()]), Ok(()));
    assert_eq!(t.n_rows, 2);
    assert_eq!(t.contents.len(), t.n_rows * t.n_cols);
    assert_eq!(
        t.contents,
        vec!["ada".to_string(), "36".to_string(), "bob".to_string(), "41".to_string()]
    );
}

#[test]
fn insert_mismatched_row_changes_nothing() {
    let mut t = table_with_rows("people", "name,age", &[&["ada", "36"]]);
    let before_contents = t.contents.clone();
    let r = t.insert(vec!["too".to_string(), "many".to_string(), "cells".to_string()]);
    assert_eq!(r, Err(TableError::SchemaMismatch));
    assert_eq!(t.n_rows, 1);
    assert_eq!(t.contents, before_contents);
    let r2 = t.insert(vec!["lonely".to_string()]);
    assert_eq!(r2, Err(TableError::SchemaMismatch));
    assert_eq!(t.n_rows, 1);
    assert_eq!(t.contents, before_contents);
}

#[test]
fn rows_have_schema_width_after_many_inserts() {
    let mut t = new("counter", "a,b,c");
    for i in 0..10 {
        t.insert(vec![format!("{i}"), format!("{}", i * i), "x".to_string()]).unwrap();
    }
    assert_eq!(t.contents.len(), t.n_rows * t.n_cols);
    for row in all_rows(&t) {
        assert_eq!(row.len(), t.n_cols);
    }
}

#[test]
fn iterator_yields_fresh_rows_then_none() {
    let t = table_with_rows("people", "name,age", &[&["ada", "36"], &["bob", "41"]]);
    let mut it = t.iter_rows();
    assert_eq!(it.next(), Some(vec!["ada".to_string(), "36".to_string()]));
    assert_eq!(it.next(), Some(vec!["bob".to_string(), "41".to_string()]));
    assert_eq!(it.next(), None);
    assert_eq!(it.next(), None);
    let mut restarted = t.iter_rows();
    assert_eq!(restarted.next(), Some(vec!["ada".to_string(), "36".to_string()]));
}

#[test]
fn join_scenario_drops_unmatched_left_row() {
    let a = table_with_rows("furniture", "location,value", &[&["x", "1"], &["y", "2"]]);
    let b = table_with_rows("houses", "number,value", &[&["10", "2"], &["20", "9"]]);
    let joined = a.left_join(&b, "value").unwrap();
    assert_eq!(
        joined.schema,
        vec!["location".to_string(), "value".to_string(), "number".to_string()]
    );
    assert_eq!(joined.n_rows, 1);
    assert_eq!(all_rows(&joined), vec![vec!["y".to_string(), "2".to_string(), "10".to_string()]]);

    let joined_fast = a.left_join_fast(&b, "value").unwrap();
    assert_eq!(joined_fast.schema, joined.schema);
    assert_eq!(all_rows(&joined_fast), all_rows(&joined));
}

#[test]
fn join_output_schema_shape() {
    let a = table_with_rows("a", "k,p,q", &[&["1", "p1", "q1"]]);
    let b = table_with_rows("b", "r,k,s", &[&["r1", "1", "s1"]]);
    let joined = a.left_join(&b, "k").unwrap();
    assert_eq!(joined.n_cols, a.n_cols + b.n_cols - 1);
    assert_eq!(
        joined.schema,
        vec!["k".to_string(), "p".to_string(), "q".to_string(), "r".to_string(), "s".to_string()]
    );
    assert_eq!(joined.name, "a_b");
    assert_eq!(
        all_rows(&joined),
        vec![vec![
            "1".to_string(),
            "p1".to_string(),
            "q1".to_string(),
            "r1".to_string(),
            "s1".to_string()
        ]]
    );
}

#[test]
fn join_variants_agree_with_duplicate_keys() {
    let a = table_with_rows(
        "left",
        "id,v",
        &[&["a", "1"], &["b", "2"], &["c", "1"], &["d", "3"]],
    );
    let b = table_with_rows(
        "right",
        "v,w",
        &[&["1", "w1"], &["2", "w2"], &["1", "w3"], &["9", "w9"], &["1", "w4"]],
    );
    let naive = a.left_join(&b, "v").unwrap();
    let fast = a.left_join_fast(&b, "v").unwrap();
    assert_eq!(naive.schema, fast.schema);
    assert_eq!(naive.n_rows, fast.n_rows);
    assert_eq!(all_rows(&naive), all_rows(&fast));
    // Matches of one left row follow the right table's storage order.
    assert_eq!(
        all_rows(&naive)[0..3].to_vec(),
        vec![
            vec!["a".to_string(), "1".to_string(), "w1".to_string()],
            vec!["a".to_string(), "1".to_string(), "w3".to_string()],
            vec!["a".to_string(), "1".to_string(), "w4".to_string()],
        ]
    );
}

#[test]
fn join_missing_column_is_reported() {
    let a = table_with_rows("a", "x,y", &[&["1", "2"]]);
    let b = table_with_rows("b", "y,z", &[&["2", "3"]]);
    assert_eq!(a.left_join(&b, "nope").unwrap_err(), TableError::ColumnNotFound);
    assert_eq!(a.left_join(&b, "z").unwrap_err(), TableError::ColumnNotFound);
    assert_eq!(a.left_join_fast(&b, "x").unwrap_err(), TableError::ColumnNotFound);
}

#[test]
fn render_produces_exact_file_text() {
    let t = table_with_rows("furniture", "location,value", &[&["x", "1"], &["y", "2"]]);
    assert_eq!(t.to_file_string(), "location,value\nx,1\ny,2\n");
}

#[test]
fn load_round_trips_rendered_table() {
    let t = table_with_rows("stock", "item,count,price", &[
        &["nail", "500", "1"],
        &["plank", "20", "7"],
    ]);
    let text = t.to_file_string();
    let back = load_from_str("stock", &text).unwrap();
    assert_eq!(back.name, t.name);
    assert_eq!(back.schema, t.schema);
    assert_eq!(back.n_cols, t.n_cols);
    assert_eq!(back.n_rows, t.n_rows);
    assert_eq!(back.contents, t.contents);
}

#[test]
fn load_round_trips_single_column_table() {
    let t = table_with_rows("names", "name", &[&["ada"], &["bob"]]);
    let back = load_from_str("names", &t.to_file_string()).unwrap();
    assert_eq!(back.schema, t.schema);
    assert_eq!(back.contents, t.contents);
}

#[test]
fn load_trims_fields_and_skips_empty_lines() {
    let text = " name , age \n\n ada ,36\n\nbob, 41 \n";
    let t = load_from_str("people", text).unwrap();
    assert_eq!(t.schema, vec!["name".to_string(), "age".to_string()]);
    assert_eq!(t.n_rows, 2);
    assert_eq!(
        t.contents,
        vec!["ada".to_string(), "36".to_string(), "bob".to_string(), "41".to_string()]
    );
}

#[test]
fn load_of_schema_only_file_is_empty_table() {
    let t = load_from_str("fresh", "a,b\n").unwrap();
    assert_eq!(t.n_cols, 2);
    assert_eq!(t.n_rows, 0);
    assert!(t.contents.is_empty());
}

#[test]
fn load_aborts_on_malformed_data_line() {
    let text = "a,b\n1,2\n1,2,3\n4,5\n";
    let err = load_from_str("broken", text).unwrap_err();
    assert_eq!(err, TableError::MalformedRow { line: 2, expected: 2, actual: 3 });
}

#[test]
fn load_aborts_on_short_data_line() {
    let text = "a,b,c\nonly,two\n";
    let err = load_from_str("short", text).unwrap_err();
    assert_eq!(err, TableError::MalformedRow { line: 1, expected: 3, actual: 2 });
}

#[test]
fn join_with_empty_left_table_is_empty() {
    let a = new("empty", "id,v");
    let b = table_with_rows("right", "v,w", &[&["1", "w1"]]);
    let joined = a.left_join(&b, "v").unwrap();
    assert_eq!(joined.n_rows, 0);
    assert_eq!(joined.schema, vec!["id".to_string(), "v".to_string(), "w".to_string()]);
    let fast = a.left_join_fast(&b, "v").unwrap();
    assert_eq!(fast.n_rows, 0);
}

#[test]
fn join_where_every_row_matches() {
    let a = table_with_rows("l", "k,x", &[&["1", "a"], &["1", "b"]]);
    let b = table_with_rows("r", "k,y", &[&["1", "c"], &["1", "d"]]);
    let joined = a.left_join(&b, "k").unwrap();
    assert_eq!(joined.n_rows, 4);
    assert_eq!(
        all_rows(&joined),
        vec![
            vec!["1".to_string(), "a".to_string(), "c".to_string()],
            vec!["1".to_string(), "a".to_string(), "d".to_string()],
            vec!["1".to_string(), "b".to_string(), "c".to_string()],
            vec!["1".to_string(), "b".to_string(), "d".to_string()],
        ]
    );
    assert_eq!(all_rows(&a.left_join_fast(&b, "k").unwrap()), all_rows(&joined));
}

#[test]
fn yielded_rows_are_owned_copies() {
    let t = table_with_rows("people", "name,age", &[&["ada", "36"]]);
    let mut it = t.iter_rows();
    let mut row = it.next().unwrap();
    row[0] = "changed".to_string();
    assert_eq!(t.contents[0], "ada");
    let mut again = t.iter_rows();
    assert_eq!(again.next(), Some(vec!["ada".to_string(), "36".to_string()]));
}
