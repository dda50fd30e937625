use rsv::io::frequency::frequency_table;
use rsv::io::unique::{keep_first_and_all_cols, keep_last_and_all_cols};
use rsv::utils::chunk_reader::Chunker;
use rsv::utils::column::Columns;
use rsv::utils::column_type::ColumnType;
use rsv::utils::filename::str_to_filename;
use rsv::utils::sort::SortColumns;
use rsv::utils::util::valid_sep;

fn owned(v: &[&str]) -> Vec<String> {
    v.iter().map(|s| s.to_string()).collect()
}

#[test]
fn first_and_last_keep_one_row_per_key() {
    let rows = owned(&["a", "b", "a", "c", "b", "a"]);
    let first = keep_first_and_all_cols(&rows);
    let last = keep_last_and_all_cols(&rows);
    assert_eq!(first, vec![0, 1, 3]);
    assert_eq!(last, vec![3, 4, 5]);
    assert_eq!(first.len(), last.len());
}

#[test]
fn filename_cleaning_twice_is_cleaning_once() {
    for s in ["a<b>:c", "plain", "*?\"/\\", ""] {
        let once = str_to_filename(s);
        assert_eq!(str_to_filename(&once), once);
        assert!(!once.contains(['<', '>', ':', '\\', '/', '"', '?', '*']));
    }
}

#[test]
fn separator_reading_is_idempotent() {
    for s in ["\\t", "'\\t'", "\"\\t\"", ",", "\t", ";;"] {
        let once = valid_sep(s);
        assert_eq!(valid_sep(&once), once);
    }
}

#[test]
fn frequency_counts_add_up_to_counted_rows() {
    let c = Columns::new("1").total_col(2).parse().unwrap();
    let rows: Vec<Vec<String>> = ["x,1", "y,2", "z,1", "short", "w,3", "v,1"]
        .iter()
        .map(|r| r.split(',').map(|s| s.to_string()).collect())
        .collect();
    let t = frequency_table(&c, &rows, true, 0);
    assert_eq!(t.iter().map(|(_, n)| n).sum::<usize>(), 5);
}

#[test]
fn column_types_never_move_down() {
    let rank = |t: ColumnType| match t {
        ColumnType::Null => 0,
        ColumnType::Int => 1,
        ColumnType::Float => 2,
        ColumnType::String => 3,
    };
    for t in [ColumnType::Null, ColumnType::Int, ColumnType::Float, ColumnType::String] {
        for f in ["1", "-2.5e3", "x", "1e400"] {
            let mut u = t;
            u.update(f);
            assert!(rank(u) >= rank(t));
        }
    }
}

#[test]
fn sort_order_is_a_permutation() {
    let lines = owned(&["b", "a", "c", "a", "b"]);
    let s = SortColumns::from("0").unwrap();
    let mut o = s.sort_str_column(&lines, ",");
    assert_eq!(o, vec![1, 3, 0, 4, 2]);
    o.sort();
    assert_eq!(o, vec![0, 1, 2, 3, 4]);
}

#[test]
fn chunks_give_back_every_line_in_order() {
    let lines: Vec<String> = (0..7).map(|i| format!("line{i}")).collect();
    let mut c = Chunker::new(3);
    let mut chunks = Vec::new();
    for l in &lines {
        if let Some(t) = c.push(l.clone()) {
            chunks.push(t);
        }
    }
    assert!(chunks.iter().all(|t| t.lines.len() == 3));
    if let Some(t) = c.finish() {
        chunks.push(t);
    }
    let numbers: Vec<usize> = chunks.iter().map(|t| t.chunk).collect();
    assert_eq!(numbers, vec![1, 2, 3]);
    let back: Vec<String> = chunks.into_iter().flat_map(|t| t.lines).collect();
    assert_eq!(back, lines);
}
