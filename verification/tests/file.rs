use rsv::utils::file::{is_excel, new_path};

#[test]
fn excel_file_names() {
    assert!(is_excel("data.xlsx"));
    assert!(is_excel("a.b.xls"));
    assert!(!is_excel("data.csv"));
    assert!(!is_excel(".xlsx"));
    assert!(!is_excel("xlsx"));
    assert!(!is_excel("data.XLSX"));
}

#[test]
fn derived_file_names() {
    assert_eq!(new_path("data.csv", "-cleaned"), "data-cleaned.csv");
    assert_eq!(new_path("data", "-cleaned"), "data-cleaned");
    assert_eq!(new_path(".profile", "-x"), ".profile-x");
    // the extension replaces one that the stem and suffix form
    assert_eq!(new_path("a.b.csv", "-x"), "a.csv");
    assert_eq!(new_path("a.", "-x"), "a-x");
}

#[test]
fn derived_names_agree_with_std_paths() {
    for (name, suffix) in [("data.csv", "-s"), ("a.b.csv", "-x"), ("a.", "-x"), (".p", "-x"), ("x", "")] {
        let p = std::path::Path::new(name);
        let q = p.with_file_name(format!("{}{}", p.file_stem().unwrap().to_str().unwrap(), suffix));
        let q = match p.extension() {
            Some(e) => q.with_extension(e),
            None => q,
        };
        assert_eq!(new_path(name, suffix), q.to_str().unwrap());
        let ext = p.extension().map(|e| e == "xlsx" || e == "xls").unwrap_or(false);
        assert_eq!(is_excel(name), ext);
    }
}
