use rsv::utils::sort::{SortColumns, SortColumnsErrorKind};

fn lines(v: &[&str]) -> Vec<String> {
    v.iter().map(|s| s.to_string()).collect()
}

#[test]
fn sort_columns_parse_flags() {
    let s = SortColumns::from(" 1 d, 0N").unwrap();
    let c = s.columns();
    assert_eq!(c.len(), 2);
    assert_eq!((c[0].col, c[0].ascending, c[0].numeric), (1, false, false));
    assert_eq!((c[1].col, c[1].ascending, c[1].numeric), (0, true, true));
}

#[test]
fn sort_columns_two_flags_and_empty_pieces() {
    let s = SortColumns::from(",2ND,,").unwrap();
    let c = s.columns();
    assert_eq!(c.len(), 1);
    assert_eq!((c[0].col, c[0].ascending, c[0].numeric), (2, false, true));
}

#[test]
fn sort_columns_errors() {
    let e = SortColumns::from("0,x").err().unwrap();
    assert_eq!(e.kind, SortColumnsErrorKind::Syntax);
    assert_eq!(e.text, "x");
    let e = SortColumns::from(" , ").err().unwrap();
    assert_eq!(e.kind, SortColumnsErrorKind::NoColumn);
    let e = SortColumns::from("0,1,2").err().unwrap();
    assert_eq!(e.kind, SortColumnsErrorKind::TooMany);
    let e = SortColumns::from("1dd2").err().unwrap();
    assert_eq!(e.kind, SortColumnsErrorKind::Syntax);
}

#[test]
fn sort_one_text_column_stable() {
    let l = lines(&["b,1", "a,2", "b,0", "c"]);
    let s = SortColumns::from("0").unwrap();
    assert_eq!(s.sort_str_column(&l, ","), vec![1, 0, 2, 3]);
    let s = SortColumns::from("1D").unwrap();
    // the last line has no second field, which counts as empty
    assert_eq!(s.sort_str_column(&l, ","), vec![1, 0, 2, 3]);
    let s = SortColumns::from("0d").unwrap();
    assert_eq!(s.sort_str_column(&l, ","), vec![3, 0, 2, 1]);
}

#[test]
fn sort_two_text_columns() {
    let l = lines(&["b,1", "a,2", "b,0", "a,2"]);
    let s = SortColumns::from("0,1").unwrap();
    assert_eq!(s.sort_str_str_columns(&l, ","), vec![1, 3, 2, 0]);
    let s = SortColumns::from("0,1d").unwrap();
    assert_eq!(s.sort_str_str_columns(&l, ","), vec![1, 3, 0, 2]);
    let s = SortColumns::from("0d,1").unwrap();
    assert_eq!(s.sort_str_str_columns(&l, ","), vec![2, 0, 1, 3]);
}

#[test]
fn sort_excel_rows() {
    let rows = vec![
        vec!["x".to_string(), "2".to_string()],
        vec!["y".to_string(), "10".to_string()],
        vec!["x".to_string(), "1".to_string()],
    ];
    let s = SortColumns::from("1").unwrap();
    // texts compare by character: "10" < "2"
    assert_eq!(s.sort_excel_str_column(&rows), vec![2, 1, 0]);
    let s = SortColumns::from("0D,1").unwrap();
    assert_eq!(s.sort_excel_str_str_columns(&rows), vec![1, 2, 0]);
}
