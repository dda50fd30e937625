use rsv::utils::chunk_reader::{Chunker, Task};
use rsv::utils::progress::Progress;
use rsv::utils::re::{BytesRe, Re};
use rsv::utils::return_result::ResultData;

#[test]
fn progress_counts() {
    let mut p = Progress::new();
    p.add_chunks(2);
    p.add_bytes(1024);
    p.add_bytes(1);
    assert_eq!(p.chunks, 2);
    assert_eq!(p.bytes, 1025);
    assert_eq!(p.print_count, 0);
}

#[test]
fn result_data_holds_records() {
    let mut r = ResultData::new();
    r.insert_header(vec!["a".to_owned()]);
    r.insert_record(vec!["1".to_owned()]);
    r.insert_record(vec!["2".to_owned()]);
    assert_eq!(r.header(), &vec!["a".to_owned()]);
    assert_eq!(r.data().len(), 2);
}

#[test]
fn regex_case_insensitive() {
    let re = Re::new("ab+c").unwrap();
    assert!(re.is_match("xxABBCyy"));
    assert!(!re.is_match("ac"));
    assert!(Re::new("(").is_err());
}

#[test]
fn task_fields() {
    let t = Task { lines: vec!["x".to_owned()], bytes: 1, chunk: 3 };
    assert_eq!(t.lines.len() + t.bytes + t.chunk, 5);
}

#[test]
fn bytes_regex_erase_and_replace() {
    let re = BytesRe::new("\"").unwrap();
    assert_eq!(re.erase(b"\"a\",b\n"), b"a,b\n".to_vec());
    let re = BytesRe::new("\t").unwrap();
    assert_eq!(re.replace_all(b"a\tb\tc", b","), b"a,b,c".to_vec());
    assert!(BytesRe::new("[").is_err());
}

#[test]
fn chunker_sends_full_chunks_then_the_rest() {
    let mut c = Chunker::new(2);
    assert!(c.push("ab".to_owned()).is_none());
    let t = c.push("cde".to_owned()).unwrap();
    assert_eq!(t.lines, vec!["ab".to_owned(), "cde".to_owned()]);
    assert_eq!((t.bytes, t.chunk), (5, 1));
    assert!(c.push("我".to_owned()).is_none());
    let t = c.finish().unwrap();
    assert_eq!(t.lines, vec!["我".to_owned()]);
    assert_eq!((t.bytes, t.chunk), (3, 2));
    assert!(Chunker::new(3).finish().is_none());
}
