use rsv::utils::column::Columns;
use rsv::utils::column_type::{
    col_type, max_length_at, parse_col_type_at, parse_excel_col_type_at, CellKind, ColumnType, ColumnTypes,
};

fn after(t: ColumnType, f: &str) -> ColumnType {
    let mut t = t;
    t.update(f);
    t
}

#[test]
fn column_type_update() {
    assert_eq!(after(ColumnType::Null, "12"), ColumnType::Int);
    assert_eq!(after(ColumnType::Null, "-1.5e3"), ColumnType::Float);
    assert_eq!(after(ColumnType::Null, "inf"), ColumnType::Float);
    assert_eq!(after(ColumnType::Null, "NaN"), ColumnType::Float);
    assert_eq!(after(ColumnType::Null, "abc"), ColumnType::String);
    assert_eq!(after(ColumnType::Int, "3.0"), ColumnType::Float);
    assert_eq!(after(ColumnType::Int, "x"), ColumnType::String);
    assert_eq!(after(ColumnType::Float, "7"), ColumnType::Float);
    assert_eq!(after(ColumnType::Float, "1e"), ColumnType::String);
    assert_eq!(after(ColumnType::String, "1"), ColumnType::String);
    // the bounds of i64
    assert_eq!(after(ColumnType::Null, "9223372036854775807"), ColumnType::Int);
    assert_eq!(after(ColumnType::Null, "9223372036854775808"), ColumnType::Float);
    assert_eq!(after(ColumnType::Null, "-9223372036854775808"), ColumnType::Int);
    assert_eq!(after(ColumnType::Null, "+5"), ColumnType::Int);
    assert_eq!(after(ColumnType::Null, ".5"), ColumnType::Float);
    assert_eq!(after(ColumnType::Null, "5."), ColumnType::Float);
    assert_eq!(after(ColumnType::Null, "."), ColumnType::String);
    assert_eq!(after(ColumnType::Null, " 1"), ColumnType::String);
}

#[test]
fn column_type_agrees_with_std_parse() {
    for f in ["0", "-0", "+", "-", "1e5", "1E+5", "1e-5", "e5", "Infinity", "-inf", "nan", "1_0", "0x10", "12a", "1.2.3", "+.5", "-.e1"] {
        let expected = if f.parse::<i64>().is_ok() {
            ColumnType::Int
        } else if f.parse::<f64>().is_ok() {
            ColumnType::Float
        } else {
            ColumnType::String
        };
        assert_eq!(after(ColumnType::Null, f), expected, "{f}");
    }
}

#[test]
fn column_type_names() {
    assert_eq!(ColumnType::Int.to_string(), "int");
    assert_eq!(ColumnType::Float.to_string(), "float");
    assert_eq!(ColumnType::String.to_string(), "string");
    assert_eq!(ColumnType::Null.to_string(), "null");
    assert!(ColumnType::Int.is_number());
    assert!(!ColumnType::Null.is_number());
    assert!(ColumnType::String.is_string());
}

#[test]
fn guess_column_types() {
    let rows = vec![vec!["1", "a", "", "1.5"], vec!["2", "NA", "", "2"], vec!["3", "b", "", "x"]];
    assert_eq!(parse_col_type_at(0, &rows), ColumnType::Int);
    assert_eq!(parse_col_type_at(1, &rows), ColumnType::String);
    assert_eq!(parse_col_type_at(2, &rows), ColumnType::Null);
    assert_eq!(parse_col_type_at(3, &rows), ColumnType::String);
    assert_eq!(max_length_at(1, &rows), 2);
    assert_eq!(max_length_at(0, &[]), 0);

    let cols = Columns::new("").parse().unwrap();
    let g = ColumnTypes::guess_from_io(&rows, &cols);
    let types: Vec<(usize, ColumnType, usize)> = g.iter().iter().map(|c| (c.col_index, c.col_type, c.max_length)).collect();
    assert_eq!(
        types,
        vec![(0, ColumnType::Int, 1), (1, ColumnType::String, 2), (2, ColumnType::Null, 0), (3, ColumnType::String, 3)]
    );
    let cols = Columns::new("3").parse().unwrap();
    let g = ColumnTypes::guess_from_io(&rows, &cols);
    assert_eq!(g.iter().len(), 1);
    assert_eq!(g.iter()[0].col_index, 3);
}

#[test]
fn stats_column_types() {
    let rows = vec![
        vec!["1".to_owned(), "2.5".to_owned()],
        vec!["null".to_owned(), "3".to_owned()],
    ];
    assert_eq!(col_type(&rows), vec![ColumnType::Int, ColumnType::Float]);
}

#[test]
fn excel_cell_type_updates() {
    let mut t = ColumnType::Null;
    t.update_by_excel_cell(CellKind::Int);
    assert_eq!(t, ColumnType::Int);
    t.update_by_excel_cell(CellKind::Float);
    assert_eq!(t, ColumnType::Float);
    // a float column does not take an integer cell
    t.update_by_excel_cell(CellKind::Int);
    assert_eq!(t, ColumnType::String);
    t.update_by_excel_cell(CellKind::Float);
    assert_eq!(t, ColumnType::String);
    let mut t = ColumnType::Null;
    t.update_by_excel_cell(CellKind::Other);
    assert_eq!(t, ColumnType::String);
}

#[test]
fn excel_column_guess() {
    let (i, f, o) = (CellKind::Int, CellKind::Float, CellKind::Other);
    let rows = vec![
        vec![o, o, o],
        vec![i, f, i],
        vec![i, i, o],
    ];
    assert_eq!(parse_excel_col_type_at(0, &rows[1..]), ColumnType::Int);
    assert_eq!(parse_excel_col_type_at(1, &rows[1..]), ColumnType::String);
    assert_eq!(parse_excel_col_type_at(2, &rows), ColumnType::String);
    let cols = Columns::new("").parse().unwrap();
    let g = ColumnTypes::guess_from_excel(&rows, false, &cols).unwrap();
    let ts: Vec<(usize, ColumnType, usize)> = g.iter().iter().map(|c| (c.col_index, c.col_type, c.max_length)).collect();
    assert_eq!(ts, vec![(0, ColumnType::Int, 0), (1, ColumnType::String, 0), (2, ColumnType::String, 0)]);
    let cols = Columns::new("1").parse().unwrap();
    let g = ColumnTypes::guess_from_excel(&rows[..1], true, &cols).unwrap();
    assert_eq!(g.iter().len(), 1);
    assert_eq!(g.iter()[0].col_type, ColumnType::String);
    assert!(ColumnTypes::guess_from_excel(&rows[..1], false, &cols).is_none());
}

#[test]
fn column_types_from_types_keeps_columns_and_types() {
    let g = ColumnTypes::from_types(&[2, 0], &[ColumnType::Int, ColumnType::String]);
    let t = g.iter();
    assert_eq!(t.len(), 2);
    assert_eq!(t[0].col_index, 2);
    assert_eq!(t[0].col_type, ColumnType::Int);
    assert_eq!(t[1].col_index, 0);
    assert_eq!(t[1].col_type, ColumnType::String);
    assert_eq!(t[1].max_length, 0);
    let picked = vec![vec!["1".to_string(), "a".to_string()], vec!["2.5".to_string(), "".to_string()]];
    let g = ColumnTypes::from_types(&[3, 1], &col_type(&picked));
    assert_eq!(g.iter()[0].col_type, ColumnType::Float);
    assert_eq!(g.iter()[1].col_type, ColumnType::String);
}
