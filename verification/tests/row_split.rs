use rsv::utils::row_split::CsvRowSplitter;

fn split(r: &str) -> Vec<String> {
    CsvRowSplitter::new(r, ',', '"').collect_fields()
}

#[test]
fn test_csv_row_split() {
    let r = "我们abc,def,12";
    let o = CsvRowSplitter::new(&r, ',', '"').collect_fields();
    assert_eq!(o, vec!["我们abc", "def", "12"]);

    let r = "1,2,3,";
    let o = CsvRowSplitter::new(&r, ',', '"').collect_fields();
    assert_eq!(o, vec!["1", "2", "3", ""]);

    let r = r#"1,2,3,"""#;
    let o = CsvRowSplitter::new(&r, ',', '"').collect_fields();
    assert_eq!(o, vec!["1", "2", "3", ""]);

    let r = r#"1,2,3,"",4"#;
    let o = CsvRowSplitter::new(&r, ',', '"').collect_fields();
    assert_eq!(o, vec!["1", "2", "3", "", "4"]);

    let r = r#"1,2,3,"","4""#;
    let o = CsvRowSplitter::new(&r, ',', '"').collect_fields();
    assert_eq!(o, vec!["1", "2", "3", "", "4"]);

    // quoted field
    let r = r#""1",2,3,"#;
    let o = CsvRowSplitter::new(&r, ',', '"').collect_fields();
    assert_eq!(o, vec!["1", "2", "3", ""]);

    // comma in quoted field
    let r = r#"first,second,"third,fourth",fifth"#;
    let o = CsvRowSplitter::new(&r, ',', '"').collect_fields();
    assert_eq!(o, vec!["first", "second", r#""third,fourth""#, "fifth"]);

    let r = r#"first,second,"third,fourth","fifth""#;
    let o = CsvRowSplitter::new(&r, ',', '"').collect_fields();
    assert_eq!(o, vec!["first", "second", r#""third,fourth""#, "fifth"]);

    let r = r#""third,fourth","fifth""#;
    let o = CsvRowSplitter::new(&r, ',', '"').collect_fields();
    assert_eq!(o, vec![r#""third,fourth""#, "fifth"]);

    // double-quote in field,, escaped by a preceding \
    let r = r#"third\",fourth,"fifth""#;
    let o = CsvRowSplitter::new(&r, ',', '"').collect_fields();
    assert_eq!(o, vec![r#"third\""#, "fourth", "fifth"]);

    let r = r#""Charles ""Pretty Boy"" Floyd","1 Short St, Smallville""#;
    let o = CsvRowSplitter::new(&r, ',', '"').collect_fields();
    assert_eq!(
        o,
        vec![
            r#"Charles ""Pretty Boy"" Floyd"#,
            r#""1 Short St, Smallville""#
        ]
    );
}

#[test]
fn row_split_empty_row_is_one_empty_field() {
    assert_eq!(split(""), vec![""]);
}

#[test]
fn row_split_plain_row_rejoins() {
    let r = "a,,b c,d";
    let o = split(r);
    assert_eq!(o, vec!["a", "", "b c", "d"]);
    assert_eq!(o.join(","), r);
}

#[test]
fn row_split_other_separator_and_quote() {
    let o = CsvRowSplitter::new("'x;y';z", ';', '\'').collect_fields();
    assert_eq!(o, vec!["'x;y'", "z"]);
    let o = CsvRowSplitter::new("a\tb", '\t', '"').collect_fields();
    assert_eq!(o, vec!["a", "b"]);
}

#[test]
fn row_split_next_one_by_one() {
    let mut s = CsvRowSplitter::new("x,\"y\"", ',', '"');
    assert_eq!(s.next(), Some("x".to_owned()));
    assert_eq!(s.next(), Some("y".to_owned()));
    assert_eq!(s.next(), None);
    assert_eq!(s.next(), None);
}

#[test]
fn row_split_lone_quote_is_empty_field() {
    assert_eq!(split("\""), vec![""]);
    assert_eq!(split("1,\""), vec!["1", ""]);
}

#[test]
fn row_split_plain_row_is_plain_split() {
    for r in ["a,b,,c", "", ",", "x", "1,2,3,", ",,"] {
        let expected: Vec<String> = r.split(',').map(|s| s.to_string()).collect();
        assert_eq!(split(r), expected);
    }
}

#[test]
fn row_split_at_most_one_field_per_char_plus_one() {
    assert_eq!(split(",,,").len(), 4);
    assert_eq!(split("").len(), 1);
    assert_eq!(split("\"a,b\",c").len(), 2);
    let mut s = CsvRowSplitter::new("a,b", ',', '"');
    assert_eq!(s.next(), Some("a".to_string()));
    assert_eq!(s.next(), Some("b".to_string()));
    assert_eq!(s.next(), None);
    assert_eq!(s.next(), None);
}

#[test]
fn row_split_fields_are_slices_of_the_row() {
    for r in ["a,\"b,c\",d", "\"x\",y", "p\\,q,r", "\"\"\"a\"\"\",b"] {
        for f in split(r) {
            assert!(r.contains(f.as_str()), "{} in {}", f, r);
        }
    }
}
