use splitter::error::ErrorKind;
use splitter::split::{
    parse_split_size, size_fault_error, split_chunks, split_dir_exists_error, split_success,
    SizeFault,
};

#[test]
fn chunks_follow_the_plan() {
    let data: Vec<u8> = (0u8..10).collect();
    let chunks = split_chunks(&data, 3).unwrap();
    assert_eq!(
        chunks,
        vec![vec![0, 1], vec![2, 3], vec![4], vec![5], vec![6, 7], vec![8, 9]]
    );
}

#[test]
fn file_at_limit_is_split() {
    let data = vec![7u8; 4];
    assert_eq!(split_chunks(&data, 4).unwrap(), vec![vec![7, 7], vec![7, 7]]);
}

#[test]
fn file_below_limit_is_rejected() {
    let e = split_chunks(&vec![1, 2, 3], 4).unwrap_err();
    assert_eq!(e.kind, ErrorKind::PreconditionFailed);
    assert_eq!(e.message, "File length is below split length. Nothing to split.");
    let e = split_chunks(&vec![], 1).unwrap_err();
    assert_eq!(e.kind, ErrorKind::PreconditionFailed);
}

#[test]
fn split_size_below_two_is_rejected() {
    let e = split_chunks(&vec![1, 2, 3], 1).unwrap_err();
    assert_eq!(e.kind, ErrorKind::InvalidInput);
    assert_eq!(e.message, "Split size must be at least 2 bytes.");
    assert!(split_chunks(&vec![], 0).is_err());
}

#[test]
fn split_size_text_is_read() {
    assert_eq!(parse_split_size("20000").unwrap(), 20000);
    assert_eq!(parse_split_size("10 KB").unwrap(), 10000);
    assert_eq!(parse_split_size("1 KiB").unwrap(), 1024);
}

#[test]
fn split_size_text_errors() {
    assert_eq!(parse_split_size("").unwrap_err().message, "No input");
    assert_eq!(parse_split_size("^_^").unwrap_err().message, "Invalid input");
    let e = parse_split_size("99999999999999999999999").unwrap_err();
    assert_eq!(e.kind, ErrorKind::InvalidInput);
    assert_eq!(e.message, "Size too big");
}

#[test]
fn size_faults_have_messages() {
    assert_eq!(size_fault_error(SizeFault::Empty).message, "No input");
    assert_eq!(size_fault_error(SizeFault::InvalidDigit).message, "Invalid input");
    assert_eq!(size_fault_error(SizeFault::PosOverflow).message, "Size too big");
}

#[test]
fn existing_split_dir_is_reported() {
    let e = split_dir_exists_error("/tmp/a-split");
    assert_eq!(e.kind, ErrorKind::PreconditionFailed);
    assert_eq!(
        e.message,
        "Folder /tmp/a-split already exists. Please remove the previous split folder."
    );
}

#[test]
fn split_success_names_folder() {
    let m = split_success("/tmp/a-split");
    assert!(m.starts_with("Successful split. Split folder: /tmp/a-split\n\nNote that"));
}

#[test]
fn mantissa_rounded_up_from_max_is_too_big() {
    for text in ["184467440737095516155", "18446744073709551615.5", "0_018 446 744 073 709 551 615 9"] {
        let e = parse_split_size(text).unwrap_err();
        assert_eq!(e.kind, ErrorKind::InvalidInput);
        assert_eq!(e.message, "Size too big");
    }
    assert_eq!(parse_split_size("18446744073709551615").unwrap(), u64::MAX);
    assert_eq!(parse_split_size("18446744073709551616").unwrap_err().message, "Size too big");
    assert_eq!(parse_split_size("184467440737095516154").unwrap_err().message, "Size too big");
}

#[test]
fn long_size_texts_are_read() {
    assert_eq!(parse_split_size("000000000000000000001").unwrap(), 1);
    assert_eq!(
        parse_split_size("3.333_333_333_333_333_333_333_333_333_333_333_333_333_333_333_333 EB")
            .unwrap(),
        3_333_333_333_333_333_333
    );
    assert_eq!(parse_split_size("18446744073709551615..5").unwrap_err().message, "Invalid input");
}

#[test]
fn mantissa_overflow_is_detected() {
    let f = splitter::split::mantissa_overflows;
    assert!(f("184467440737095516155"));
    assert!(f("1.84467440737095516157 k"));
    assert!(!f("184467440737095516154"));
    assert!(!f("18446744073709551615"));
    assert!(!f("18446744073709551615e5"));
    assert!(!f(".184467440737095516155"));
    assert!(!f("284467440737095516155"));
}

#[test]
fn digits_are_counted() {
    assert_eq!(splitter::split::count_digits("1.5 KiB"), 2);
    assert_eq!(splitter::split::count_digits(""), 0);
    assert_eq!(splitter::split::count_digits("1_000_000"), 7);
}

#[test]
fn split_size_is_checked_before_reading() {
    assert!(splitter::split::check_split_size(10, 3).is_ok());
    assert!(splitter::split::check_split_size(3, 3).is_ok());
    assert_eq!(splitter::split::check_split_size(2, 3).unwrap_err().kind, ErrorKind::PreconditionFailed);
    assert_eq!(splitter::split::check_split_size(2, 1).unwrap_err().kind, ErrorKind::InvalidInput);
    assert_eq!(splitter::split::check_split_size(0, 0).unwrap_err().kind, ErrorKind::InvalidInput);
}
