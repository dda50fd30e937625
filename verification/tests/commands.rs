use rsv::io::slice::{data_rows, head_lines, index_step, range_step, slice_end, tail_start};
use rsv::io::to::{Target, To};

fn to(sep: &str, out: &str, outsep: &str) -> To {
    To { sep: sep.to_string(), out: out.to_string(), outsep: outsep.to_string(), no_header: false }
}

#[test]
fn to_plain_text_and_tsv() {
    let p = to(",", "Data.CSV", ";").io_run().unwrap();
    assert_eq!(p.target, Target::PlainText);
    assert_eq!(p.out, "data.csv");
    assert_eq!(p.sep, ",");
    assert_eq!(p.outsep, ";");
    let p = to("\\t", "out.tsv", ",").io_run().unwrap();
    assert_eq!(p.target, Target::PlainText);
    assert_eq!(p.sep, "\t");
    assert_eq!(p.outsep, "\t");
}

#[test]
fn to_excel_and_unknown() {
    let p = to(",", "Book.XLSX", ",").io_run().unwrap();
    assert_eq!(p.target, Target::Excel);
    assert_eq!(p.out, "book.xlsx");
    let e = to(",", "notes.md", ",").io_run().err().unwrap();
    assert_eq!(e.out, "notes.md");
}

#[test]
fn slice_end_and_steps() {
    // a length wins over an end
    assert_eq!(slice_end(2, Some(5), Some(1)), 3);
    assert_eq!(slice_end(2, Some(5), None), 5);
    assert_eq!(slice_end(2, None, Some(3)), 5);
    assert_eq!(slice_end(2, None, None), usize::MAX);
    let written: Vec<usize> = (0..10)
        .take_while(|&n| !range_step(n, 2, 5).stop)
        .filter(|&n| range_step(n, 2, 5).write)
        .collect();
    assert_eq!(written, vec![2, 3, 4]);
    assert!(index_step(3, 3).write && index_step(3, 3).stop);
    assert!(!index_step(2, 3).write && !index_step(2, 3).stop);
}

#[test]
fn head_tail_count_rows() {
    assert_eq!(head_lines(10, false), 11);
    assert_eq!(head_lines(10, true), 10);
    // five lines with a header: the last two rows start at line 3
    assert_eq!(tail_start(5, 2, false), 3);
    assert_eq!(tail_start(5, 9, false), 1);
    assert_eq!(tail_start(5, 9, true), 0);
    assert_eq!(tail_start(0, 3, false), 0);
    assert_eq!(data_rows(5, false), 4);
    assert_eq!(data_rows(5, true), 5);
    assert_eq!(data_rows(0, false), 0);
}
