use rsv::utils::writer::Writer;

#[test]
fn writer_lines_and_fields() {
    let mut w = Writer::new();
    w.write_header("");
    w.write_header("h1,h2");
    w.write_line("a");
    w.write_lines(&["b", "c"]);
    w.write_line_by_field(&["x", "y", "z"], None);
    w.write_line_by_field(&["p", "q"], Some(b"\t"));
    w.write_line_by_field(&[], None);
    w.write_lines_by_field(&[vec!["1", "2"], vec!["3"]], Some(b";"));
    w.write_bytes(b"raw");
    assert_eq!(String::from_utf8(w.take_bytes()).unwrap(), "h1,h2\na\nb\nc\nx,y,z\np\tq\n1;2\n3\nraw");
    assert!(w.take_bytes().is_empty());
}
