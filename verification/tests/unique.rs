use rsv::io::unique::{
    keep_first_and_all_cols, keep_first_and_partial_cols, keep_last_and_all_cols,
    keep_last_and_partial_cols,
};
use rsv::utils::column::Columns;

fn rows(v: &[&str]) -> Vec<String> {
    v.iter().map(|s| s.to_string()).collect()
}

#[test]
fn unique_whole_rows() {
    let r = rows(&["a", "b", "a", "c", "b"]);
    assert_eq!(keep_first_and_all_cols(&r), vec![0, 1, 3]);
    assert_eq!(keep_last_and_all_cols(&r), vec![2, 3, 4]);
    assert_eq!(keep_first_and_all_cols(&[]), Vec::<usize>::new());
}

#[test]
fn unique_partial_cols() {
    let r = rows(&["1,x,a", "2,y,a", "3,x,b", "4,x,a"]);
    let cols = Columns::new("1,2").parse().unwrap();
    assert_eq!(keep_first_and_partial_cols(&r, &cols, ","), vec![0, 1, 2]);
    assert_eq!(keep_last_and_partial_cols(&r, &cols, ","), vec![1, 2, 3]);
}
