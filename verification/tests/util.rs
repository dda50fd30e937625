use rsv::utils::filename::str_to_filename;
use rsv::utils::to::{is_file_suffix, is_valid_excel, is_valid_plain_text, out_filename};
use rsv::utils::util::{is_null, is_tab, valid_sep};

#[test]
fn null_values() {
    for s in ["", "NA", "Na", "na", "NULL", "Null", "null"] {
        assert!(is_null(s), "{s}");
    }
    for s in ["nA", "nULL", " ", "0", "none"] {
        assert!(!is_null(s), "{s}");
    }
}

#[test]
fn tab_separators() {
    assert!(is_tab("\\t"));
    assert!(is_tab("'\\t'"));
    assert!(is_tab("\"\\t\""));
    assert!(!is_tab("\t"));
    assert!(!is_tab(","));
    assert_eq!(valid_sep("\\t"), "\t");
    assert_eq!(valid_sep(";"), ";");
    assert_eq!(valid_sep(valid_sep("\\t").as_str()), "\t");
}

#[test]
fn file_suffixes() {
    assert!(is_file_suffix("csv"));
    assert!(is_file_suffix("xls"));
    assert!(!is_file_suffix("a.csv"));
    assert!(is_valid_plain_text("data.tsv"));
    assert!(!is_valid_plain_text("data.xlsx"));
    assert!(is_valid_excel("data.xlsx"));
    assert!(is_valid_excel("xls"));
    assert!(!is_valid_excel("data.csv"));
    assert_eq!(out_filename("xlsx"), "export.xlsx");
    assert_eq!(out_filename("out.csv"), "out.csv");
}

#[test]
fn filename_drops_bad_characters() {
    assert_eq!(str_to_filename("a<b>c:d\\e/f\"g?h*i"), "abcdefghi");
    assert_eq!(str_to_filename("plain name"), "plain name");
    let once = str_to_filename("x/y");
    assert_eq!(str_to_filename(&once), once);
}
