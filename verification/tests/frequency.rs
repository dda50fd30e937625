use rsv::io::frequency::{frequency_names, frequency_table};
use rsv::utils::column::Columns;

fn rows(v: &[&str]) -> Vec<Vec<String>> {
    v.iter().map(|r| r.split(',').map(|s| s.to_string()).collect()).collect()
}

fn table(t: &[(String, usize)]) -> Vec<(&str, usize)> {
    t.iter().map(|(k, n)| (k.as_str(), *n)).collect()
}

#[test]
fn frequency_descending_by_count() {
    let c = Columns::new("0").total_col(2).parse().unwrap();
    let r = rows(&["a,1", "b,2", "a,3", "c,4", "a,5", "b,6"]);
    let t = frequency_table(&c, &r, false, -1);
    assert_eq!(table(&t), vec![("a", 3), ("b", 2), ("c", 1)]);
}

#[test]
fn frequency_ascending_and_head() {
    let c = Columns::new("0").total_col(2).parse().unwrap();
    let r = rows(&["a,1", "b,2", "a,3", "c,4", "a,5", "b,6"]);
    let t = frequency_table(&c, &r, true, -1);
    assert_eq!(table(&t), vec![("c", 1), ("b", 2), ("a", 3)]);
    let t = frequency_table(&c, &r, false, 2);
    assert_eq!(table(&t), vec![("a", 3), ("b", 2)]);
    let t = frequency_table(&c, &r, false, 10);
    assert_eq!(t.len(), 3);
}

#[test]
fn frequency_two_columns_skips_short_rows() {
    let c = Columns::new("0,2").total_col(3).parse().unwrap();
    let r = rows(&["a,x,1", "a,y,1", "b", "a,z,2", "b,w"]);
    let t = frequency_table(&c, &r, false, 0);
    assert_eq!(table(&t), vec![("a,1", 2), ("a,2", 1)]);
}

#[test]
fn frequency_empty_input() {
    let c = Columns::new("0").parse().unwrap();
    let t = frequency_table(&c, &Vec::new(), false, -1);
    assert!(t.is_empty());
}

#[test]
fn frequency_header_names() {
    let c = Columns::new("1,0").total_col(2).parse().unwrap();
    let h = vec!["name".to_string(), "age".to_string()];
    assert_eq!(frequency_names(&c, Some(&h)), vec!["age", "name", "n"]);
    assert_eq!(frequency_names(&c, None), vec!["col1", "col0", "n"]);
    let short = vec!["name".to_string()];
    assert_eq!(frequency_names(&c, Some(&short)), vec!["col1", "col0", "n"]);
}
