use rsv::utils::column::{Columns, ColumnsErrorKind};

fn parse(raw: &str, total: Option<usize>) -> Result<Vec<usize>, ColumnsErrorKind> {
    let c = Columns::new(raw);
    let c = match total {
        Some(t) => c.total_col(t),
        None => c,
    };
    c.parse().map(|c| c.cols.clone()).map_err(|e| e.kind)
}

#[test]
fn columns_plain_and_ranges() {
    assert_eq!(parse("0,1,2,5", None), Ok(vec![0, 1, 2, 5]));
    assert_eq!(parse("0-2,5", None), Ok(vec![0, 1, 2, 5]));
    assert_eq!(parse("2,0-3", None), Ok(vec![2, 0, 1, 3]));
    assert_eq!(parse("1,,1", None), Ok(vec![1]));
}

#[test]
fn columns_negative() {
    assert_eq!(parse("-1", Some(5)), Ok(vec![4]));
    assert_eq!(parse("-3--1", Some(5)), Ok(vec![2, 3, 4]));
    assert_eq!(parse("0--1", Some(3)), Ok(vec![0, 1, 2]));
    assert_eq!(parse("-1", None), Err(ColumnsErrorKind::MissingTotal));
    assert_eq!(parse("-6", Some(5)), Err(ColumnsErrorKind::NotExist));
}

#[test]
fn columns_errors() {
    assert_eq!(parse("a", None), Err(ColumnsErrorKind::Syntax));
    assert_eq!(parse(" 1", None), Err(ColumnsErrorKind::Syntax));
    assert_eq!(parse("3-1", None), Err(ColumnsErrorKind::MinAboveMax));
    let e = Columns::new("0,x").parse().unwrap_err();
    assert_eq!(e.column, "x");
}

#[test]
fn columns_state() {
    let c = Columns::new("").parse().unwrap();
    assert!(c.parsed);
    assert!(c.select_all);
    assert_eq!(c.col_vec_or_length_of(3), vec![0, 1, 2]);
    let c = Columns::new("3,1").parse().unwrap();
    assert!(!c.select_all);
    assert_eq!(c.max, 3);
    assert_eq!(c.iter(), &[3, 1]);
    assert_eq!(c.col_vec_or_length_of(9), vec![3, 1]);
    assert_eq!(c.artificial_cols_with_appended_n(), vec!["col3", "col1", "n"]);
    assert_eq!(c.artificial_n_cols(2), vec!["col0", "col1"]);
    let all = ["a", "b", "c", "d"];
    assert_eq!(c.select_owned_string(&all), "d,b");
    assert_eq!(c.select_owned_vector_and_append_n(&all), vec!["d", "b", "n"]);
}

#[test]
fn columns_total_from_first_row() {
    let c = Columns::new("-1").total_col_of("a,b,c", ",").parse().unwrap();
    assert_eq!(c.cols, vec![2]);
}

#[test]
fn columns_each_named_once_in_first_mention_order() {
    assert_eq!(parse("2,0-2", None), Ok(vec![2, 0, 1]));
    assert_eq!(parse("1,1,0-1,3", None), Ok(vec![1, 0, 3]));
    assert_eq!(parse("3-4,2-5", None), Ok(vec![3, 4, 2, 5]));
}

#[test]
fn columns_select_fields_in_selected_order() {
    let c = Columns::new("2,0").parse().unwrap();
    assert_eq!(c.select_fields(&["a", "b", "c"]), vec!["c", "a"]);
}
