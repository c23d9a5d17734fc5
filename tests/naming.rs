use splitter::error::ErrorKind;
use splitter::naming::{
    chunk_file_name, get_file_name, get_trailing_number, joined_file_name, parse_index,
    split_dir_name, split_file_name,
};

#[test]
fn decodes_chunk_name() {
    assert_eq!(get_trailing_number("report.csv-split-3").unwrap(), 3);
    assert_eq!(split_file_name("report.csv-split-3"), Some("report.csv"));
}

#[test]
fn name_without_index_is_rejected() {
    let e = get_trailing_number("report.csv").unwrap_err();
    assert_eq!(e.kind, ErrorKind::InvalidInput);
    assert_eq!(e.message, "no trailing number found");
    assert_eq!(split_file_name("report.csv"), None);
}

#[test]
fn non_numeric_index_is_rejected() {
    let e = get_trailing_number("report.csv-split-x").unwrap_err();
    assert_eq!(e.kind, ErrorKind::InvalidInput);
    assert_eq!(e.message, "invalid trailing number");
    assert!(get_trailing_number("report-").is_err());
    assert_eq!(get_trailing_number("report--3").unwrap(), 3);
    assert!(get_trailing_number("report-3-").is_err());
    assert!(get_trailing_number("report-99999999999999999999999999").is_err());
}

#[test]
fn index_is_read_after_last_hyphen_of_whole_path() {
    assert_eq!(get_trailing_number("/tmp/a-b/c.txt-split-12").unwrap(), 12);
    assert!(get_trailing_number("/tmp/a-b/c").is_err());
}

#[test]
fn base_name_keeps_inner_hyphens() {
    assert_eq!(split_file_name("Cargo.toml-split-0"), Some("Cargo.toml"));
    assert_eq!(split_file_name("my-file-split-2"), Some("my-file"));
    assert_eq!(split_file_name("a-b"), None);
    assert_eq!(split_file_name("a--b"), Some("a"));
}

#[test]
fn parses_indices_as_unsigned_integers() {
    assert_eq!(parse_index("0"), Some(0));
    assert_eq!(parse_index("007"), Some(7));
    assert_eq!(parse_index("+5"), Some(5));
    assert_eq!(parse_index("+"), None);
    assert_eq!(parse_index(""), None);
    assert_eq!(parse_index("-1"), None);
    assert_eq!(parse_index("1 "), None);
    assert_eq!(parse_index(&usize::MAX.to_string()), Some(usize::MAX));
    assert_eq!(parse_index("99999999999999999999999999"), None);
}

#[test]
fn encodes_names() {
    assert_eq!(split_dir_name("report.csv"), "report.csv-split");
    assert_eq!(chunk_file_name("report.csv-split", 1), "report.csv-split-1");
    assert_eq!(chunk_file_name("report.csv-split", 1204), "report.csv-split-1204");
    assert_eq!(chunk_file_name("d", 0), "d-0");
    assert_eq!(joined_file_name("report.csv"), "joined-report.csv");
}

#[test]
fn encoded_names_decode() {
    for i in [1usize, 9, 10, 99, 100, 123456, usize::MAX] {
        let name = chunk_file_name(&split_dir_name("x-y.bin"), i);
        assert_eq!(get_trailing_number(&name).unwrap(), i);
        assert_eq!(split_file_name(&name), Some("x-y.bin"));
    }
}

#[test]
fn file_name_is_final_component() {
    assert_eq!(get_file_name("dir/report.csv").unwrap(), "report.csv");
    assert_eq!(get_file_name("report.csv").unwrap(), "report.csv");
    assert_eq!(get_file_name("dir/sub/").unwrap(), "sub");
    let e = get_file_name("/").unwrap_err();
    assert_eq!(e.kind, ErrorKind::InvalidInput);
    assert!(get_file_name("dir/..").is_err());
}
