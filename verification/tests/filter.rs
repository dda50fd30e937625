use rsv::utils::filter::{split_at_comparison, Filter, FilterErrorKind, Op};
use rsv::utils::column::ColumnsErrorKind;

#[test]
fn filter_text_equal() {
    let f = Filter::new("0=a,b").parse().unwrap();
    assert!(!f.is_empty());
    assert!(f.text_record_is_valid(&["a", "x"]));
    assert!(f.text_record_is_valid(&["b", "x"]));
    assert!(!f.text_record_is_valid(&["c", "x"]));
    let it = &f.items_list()[0];
    assert_eq!(it.op, Op::Equal);
    assert_eq!(it.str_values, vec!["a", "b"]);
}

#[test]
fn filter_text_order_and_and() {
    let f = Filter::new("0>=m&1!=x").parse().unwrap();
    assert!(f.text_record_is_valid(&["n", "y"]));
    assert!(f.text_record_is_valid(&["m", "y"]));
    assert!(!f.text_record_is_valid(&["l", "y"]));
    assert!(!f.text_record_is_valid(&["z", "x"]));
    let f = Filter::new("0<b").parse().unwrap();
    assert!(f.text_record_is_valid(&["a"]));
    assert!(!f.text_record_is_valid(&["b"]));
    assert!(f.text_record_is_valid(&["B"]));
}

#[test]
fn filter_numeric_items_kept() {
    let f = Filter::new("1N=2,3&2n>1.5").parse().unwrap();
    let items = f.items_list();
    assert_eq!(items.len(), 2);
    assert!(items[0].is_numeric);
    assert_eq!(items[0].col, 1);
    assert_eq!(items[0].str_values, vec!["2", "3"]);
    assert_eq!(items[1].op, Op::Gt);
    assert_eq!(items[1].str_value, "1.5");
    // numeric filters are left to the caller
    assert!(f.text_record_is_valid(&["a", "b", "c"]));
}

#[test]
fn filter_errors() {
    let e = Filter::new("0=a=b").parse().unwrap_err();
    assert_eq!(e.kind, FilterErrorKind::Syntax);
    let e = Filter::new("x=a").parse().unwrap_err();
    assert_eq!(e.kind, FilterErrorKind::Column(ColumnsErrorKind::Syntax));
    let e = Filter::new("0n>abc").parse().unwrap_err();
    assert_eq!(e.kind, FilterErrorKind::NotANumber);
    assert_eq!(e.text, "abc");
    let e = Filter::new("0n=1,b").parse().unwrap_err();
    assert_eq!(e.text, "b");
    let e = Filter::new("-1=a").parse().unwrap_err();
    assert_eq!(e.kind, FilterErrorKind::Column(ColumnsErrorKind::MissingTotal));
    let f = Filter::new("-1=a").total_col(3).parse().unwrap();
    assert_eq!(f.items_list()[0].col, 2);
}

#[test]
fn filter_empty() {
    let f = Filter::new("").parse().unwrap();
    assert!(f.is_empty());
    assert!(f.parsed);
    let f = Filter::new("&&").parse().unwrap();
    assert!(f.is_empty());
}

#[test]
fn filter_not_equal_empty_means_non_empty() {
    let f = Filter::new("0!=").parse().unwrap();
    assert!(f.text_record_is_valid(&["x", ""]));
    assert!(!f.text_record_is_valid(&["", "x"]));
}

#[test]
fn filter_dates_compare_as_text() {
    let f = Filter::new("0>=2022-01-21").parse().unwrap();
    assert!(f.text_record_is_valid(&["2022-01-21"]));
    assert!(f.text_record_is_valid(&["2022-02-01"]));
    assert!(!f.text_record_is_valid(&["2021-12-31"]));
}

#[test]
fn comparison_split_cuts_every_operator() {
    assert_eq!(split_at_comparison("0>=1"), vec!["0", "1"]);
    assert_eq!(split_at_comparison("0!=a"), vec!["0", "a"]);
    assert_eq!(split_at_comparison("0<=a"), vec!["0", "a"]);
    assert_eq!(split_at_comparison("0=a,b"), vec!["0", "a,b"]);
    assert_eq!(split_at_comparison("0="), vec!["0", ""]);
    assert_eq!(split_at_comparison("a!b"), vec!["a!b"]);
    assert_eq!(split_at_comparison("a=>b"), vec!["a", "", "b"]);
    assert_eq!(split_at_comparison("1<2>3"), vec!["1", "2", "3"]);
    assert_eq!(split_at_comparison(""), vec![""]);
}

#[test]
fn filter_expression_value() {
    let f = Filter::new("0>@1-10*(@3+2)").parse().unwrap();
    let it = &f.items_list()[0];
    assert!(it.is_numeric);
    assert_eq!(it.op, Op::Gt);
    let t = it.expr.as_ref().unwrap();
    assert_eq!(t.max_column(), 3);
    assert!(t.contains_column(1));
    assert!(f.text_record_is_valid(&["1", "2", "3", "4"]));
    let f = Filter::new("0>=(@1+1)/(2^2)").parse().unwrap();
    assert!(f.items_list()[0].expr.is_some());
    let f = Filter::new("0>(2^2)").parse().unwrap();
    assert!(f.items_list()[0].expr.is_none());
    assert!(!f.items_list()[0].is_numeric);
    let e = Filter::new("0>@1+").parse().unwrap_err();
    assert_eq!(e.kind, FilterErrorKind::Expression);
    assert_eq!(e.text, "@1+");
    let e = Filter::new("0<@x").parse().unwrap_err();
    assert_eq!(e.kind, FilterErrorKind::Expression);
}
