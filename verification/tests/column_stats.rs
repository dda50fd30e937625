use rsv::utils::column::Columns;
use rsv::utils::column_stats::{ColumnStats, NumericStep};
use rsv::utils::column_type::{ColumnType, ColumnTypes};

fn stats_for(sample: &[&str], names: &[&str]) -> ColumnStats {
    let rows: Vec<Vec<&str>> = sample.iter().map(|r| r.split(',').collect()).collect();
    let cols = Columns::new("").parse().unwrap();
    let types = ColumnTypes::guess_from_io(&rows, &cols);
    let names: Vec<String> = names.iter().map(|s| s.to_string()).collect();
    ColumnStats::new(&types, &names)
}

#[test]
fn column_stats_steps_and_counts() {
    let mut s = stats_for(&["1,x,1.5", "2,y,2.5"], &["a", "b", "c"]);
    let types: Vec<ColumnType> = s.iter().iter().map(|c| c.col_type).collect();
    assert_eq!(types, vec![ColumnType::Int, ColumnType::String, ColumnType::Float]);

    let steps = s.parse_line("3,x,0.5", ",").unwrap();
    assert_eq!(steps, vec![NumericStep::Int, NumericStep::Skip, NumericStep::Float]);
    let steps = s.parse_line("na,y,", ",").unwrap();
    assert_eq!(steps, vec![NumericStep::Skip, NumericStep::Skip, NumericStep::Skip]);
    // an integer column meeting a float turns into a float column
    let steps = s.parse_line("4.5,x,2", ",").unwrap();
    assert_eq!(steps, vec![NumericStep::FloatTotal, NumericStep::Skip, NumericStep::Float]);
    // a float column meeting text turns into a text column
    let steps = s.parse_line("5,z,abc", ",").unwrap();
    assert_eq!(steps, vec![NumericStep::Float, NumericStep::Skip, NumericStep::Skip]);
    // a short line is left out
    assert!(s.parse_line("1,2", ",").is_none());
    assert_eq!(s.rows, 4);

    s.finalize_stats();
    let c = s.iter();
    assert_eq!(c[0].col_type, ColumnType::Float);
    assert_eq!(c[0].null, 1);
    assert_eq!(c[0].unique, 2); // "3" and "4.5"; later floats are not collected
    assert_eq!(c[1].unique, 3);
    assert_eq!(c[2].col_type, ColumnType::String);
    assert_eq!(c[2].null, 1);
    assert_eq!(c[2].unique, 0);
    assert_eq!(c[1].name, "b");
}

#[test]
fn column_stats_merge_and_clone() {
    let mut a = stats_for(&["1,x"], &["a", "b"]);
    let mut b = a.clone();
    assert_eq!(b.rows, 0);
    a.parse_line("1,x", ",");
    a.parse_line(",y", ",");
    b.parse_line("2,x", ",");
    b.parse_line("z,w", ",");
    a.merge(b);
    a.finalize_stats();
    assert_eq!(a.rows, 4);
    let c = a.iter();
    assert_eq!(c[0].col_type, ColumnType::String);
    assert_eq!(c[0].null, 1);
    assert_eq!(c[0].unique, 3);
    assert_eq!(c[1].unique, 3);
}
