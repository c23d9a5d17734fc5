use splitter::error::{Error, ErrorKind, IoFault};
use splitter::join::{
    chunk_order, join_chunks, join_success, output_create_error, output_file_name, MISMATCH,
};
use splitter::naming::{chunk_file_name, get_trailing_number, split_dir_name};
use splitter::split::split_chunks;

#[test]
fn gap_is_a_mismatch() {
    let e = chunk_order(&vec![1, 2, 4]).unwrap_err();
    assert_eq!(e.kind, ErrorKind::PreconditionFailed);
    assert_eq!(e.message, MISMATCH);
}

#[test]
fn duplicate_is_a_mismatch() {
    let e = chunk_order(&vec![1, 1, 2]).unwrap_err();
    assert_eq!(e.kind, ErrorKind::PreconditionFailed);
    assert_eq!(e.message, MISMATCH);
}

#[test]
fn zero_index_is_a_mismatch() {
    assert!(chunk_order(&vec![0, 1]).is_err());
    assert!(chunk_order(&vec![2, 3]).is_err());
}

#[test]
fn order_follows_trailing_numbers() {
    assert_eq!(chunk_order(&vec![3, 1, 2]).unwrap(), vec![1, 2, 0]);
    assert_eq!(chunk_order(&vec![1]).unwrap(), vec![0]);
    assert_eq!(chunk_order(&vec![]).unwrap(), Vec::<usize>::new());
}

#[test]
fn chunks_concatenate() {
    assert_eq!(join_chunks(&vec![vec![1, 2], vec![], vec![3]]), vec![1, 2, 3]);
    assert_eq!(join_chunks(&vec![]), Vec::<u8>::new());
}

#[test]
fn output_name_from_first_chunk() {
    assert_eq!(output_file_name("report.csv-split-3").unwrap(), "joined-report.csv");
    let e = output_file_name("report.csv").unwrap_err();
    assert_eq!(e.kind, ErrorKind::InvalidInput);
    assert_eq!(e.message, "Invalid filename: report.csv");
}

#[test]
fn existing_output_is_reported() {
    let e = output_create_error(IoFault::AlreadyExists, "joined-a");
    assert_eq!(e.kind, ErrorKind::PreconditionFailed);
    assert_eq!(e.message, "Failed to create output file. joined-a already exists.");
    let e = output_create_error(IoFault::PermissionDenied, "joined-a");
    assert_eq!(e.message, "Failed to create output file.");
}

#[test]
fn join_success_names_output() {
    assert_eq!(join_success("joined-a"), "Successful join. Joined file: joined-a");
}

#[test]
fn io_errors_map_to_messages() {
    assert_eq!(Error::from_io(IoFault::PermissionDenied).message, "Permission denied.");
    assert_eq!(Error::from_io(IoFault::NotFound).kind, ErrorKind::NotFound);
    assert_eq!(Error::from_io(IoFault::NotFound).message, "File not found.");
    assert_eq!(Error::from_io(IoFault::Other).message, "Unknown error.");
}

fn round_trip(len: usize, limit: u64) {
    let data: Vec<u8> = (0..len).map(|i| (i * 31 % 251) as u8).collect();
    let chunks = split_chunks(&data, limit).unwrap();
    let dir = split_dir_name("data.bin");
    // Hand the chunks over in reverse order, as a directory listing might.
    let mut names = Vec::new();
    let mut contents = Vec::new();
    for (i, c) in chunks.iter().enumerate().rev() {
        names.push(chunk_file_name(&dir, i + 1));
        contents.push(c.clone());
    }
    let numbers: Vec<usize> = names.iter().map(|n| get_trailing_number(n).unwrap()).collect();
    let order = chunk_order(&numbers).unwrap();
    let ordered: Vec<Vec<u8>> = order.iter().map(|i| contents[*i].clone()).collect();
    assert_eq!(join_chunks(&ordered), data);
    assert_eq!(output_file_name(&names[0]).unwrap(), "joined-data.bin");
}

#[test]
fn split_then_join_gives_back_the_data() {
    round_trip(10, 3);
    round_trip(3, 2);
    round_trip(2, 2);
    round_trip(1000, 7);
    round_trip(4096, 4096);
    round_trip(5000, 2);
}
