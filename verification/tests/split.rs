use rsv::io::split::{chunk_file_name, group_by_column, header_first, value_file_name, HeaderMarks};

fn split_lines(v: &[&str]) -> (Vec<String>, Vec<Vec<String>>) {
    let lines: Vec<String> = v.iter().map(|s| s.to_string()).collect();
    let rows = lines.iter().map(|l| l.split(',').map(|s| s.to_string()).collect()).collect();
    (lines, rows)
}

#[test]
fn split_groups_rows_by_value() {
    let (lines, rows) = split_lines(&["a,1", "b,2", "a,3", "c,4"]);
    let mut g = group_by_column(&lines, &rows, 0);
    g.sort();
    assert_eq!(
        g,
        vec![
            ("a".to_string(), vec![0, 2]),
            ("b".to_string(), vec![1]),
            ("c".to_string(), vec![3]),
        ]
    );
}

#[test]
fn split_skips_short_lines() {
    // a line of no more bytes than the column number is left out
    let (lines, rows) = split_lines(&["x,1", "y", "x,2"]);
    let mut g = group_by_column(&lines, &rows, 1);
    g.sort();
    assert_eq!(g, vec![("1".to_string(), vec![0]), ("2".to_string(), vec![2])]);
}

#[test]
fn split_file_names() {
    assert_eq!(value_file_name("a/b:c"), "abc.csv");
    assert_eq!(value_file_name(""), ".csv");
    assert_eq!(chunk_file_name(12), "split12.csv");
}

#[test]
fn split_header_once_per_file() {
    let mut m = HeaderMarks::new();
    assert!(header_first(false, &mut m, "a.csv"));
    assert!(!header_first(false, &mut m, "a.csv"));
    assert!(header_first(false, &mut m, "b.csv"));
    let mut m = HeaderMarks::new();
    assert!(!header_first(true, &mut m, "a.csv"));
}

#[test]
fn split_puts_each_row_in_one_group() {
    let (lines, rows) = split_lines(&["a,1", "b,2", "a,3", "c,4", "b,5"]);
    let g = group_by_column(&lines, &rows, 0);
    let mut all: Vec<usize> = g.iter().flat_map(|(_, idx)| idx.iter().copied()).collect();
    all.sort();
    assert_eq!(all, vec![0, 1, 2, 3, 4]);
}
