use extsort::checkfile::blocks_nondecreasing;
use extsort::order::bytes_le;
use extsort::split::{chunk_offset, int_file_path, num_chunks, sort_chunk, split_into_blocks, u64_to_decimal};
use extsort::BLOCK_SIZE;

fn block(fill: u8) -> Vec<u8> {
    vec![fill; BLOCK_SIZE]
}

fn buffer_of(fills: &[u8]) -> Vec<u8> {
    let mut buf = Vec::new();
    for &f in fills {
        buf.extend_from_slice(&block(f));
    }
    buf
}

#[test]
fn bytes_le_orders_by_content() {
    assert!(bytes_le(&vec![1, 2, 3], &vec![1, 2, 4]));
    assert!(!bytes_le(&vec![1, 2, 4], &vec![1, 2, 3]));
    assert!(bytes_le(&vec![5, 5], &vec![5, 5]));
    assert!(bytes_le(&vec![], &vec![9]));
    assert!(bytes_le(&vec![1, 2], &vec![1, 2, 0]));
    assert!(!bytes_le(&vec![1, 2, 0], &vec![1, 2]));
}

#[test]
fn split_cuts_whole_blocks_and_drops_tail() {
    let mut buf = buffer_of(&[7, 3]);
    buf.extend_from_slice(&[1, 2, 3]);
    let blocks = split_into_blocks(&buf);
    assert_eq!(blocks.len(), 2);
    assert_eq!(blocks[0], block(7));
    assert_eq!(blocks[1], block(3));
}

#[test]
fn split_of_short_buffer_is_empty() {
    let buf = vec![9u8; BLOCK_SIZE - 1];
    assert_eq!(split_into_blocks(&buf).len(), 0);
    assert_eq!(split_into_blocks(&Vec::new()).len(), 0);
}

#[test]
fn sort_chunk_orders_blocks() {
    let buf = buffer_of(&[9, 2, 5]);
    let out = sort_chunk(&buf);
    assert_eq!(out, buffer_of(&[2, 5, 9]));
}

#[test]
fn sort_chunk_drops_partial_tail() {
    let mut buf = buffer_of(&[4, 1]);
    buf.extend_from_slice(&[255, 255]);
    let out = sort_chunk(&buf);
    assert_eq!(out.len(), 2 * BLOCK_SIZE);
    assert_eq!(out, buffer_of(&[1, 4]));
}

#[test]
fn sort_chunk_keeps_duplicates() {
    let buf = buffer_of(&[6, 2, 6, 2]);
    let out = sort_chunk(&buf);
    assert_eq!(out, buffer_of(&[2, 2, 6, 6]));
}

#[test]
fn sort_chunk_of_empty_is_empty() {
    let out = sort_chunk(&Vec::new());
    assert!(out.is_empty());
}

#[test]
fn sorting_twice_is_byte_identical() {
    let mut buf = buffer_of(&[8, 8, 0, 200, 13]);
    buf.extend_from_slice(&[42; 100]);
    let once = sort_chunk(&buf);
    let twice = sort_chunk(&once);
    assert_eq!(once, twice);
}

#[test]
fn chunk_count_is_source_size_over_chunk_size() {
    assert_eq!(num_chunks(8192, 4096), 2);
    assert_eq!(num_chunks(10000, 4096), 2);
    assert_eq!(num_chunks(4095, 4096), 0);
    assert_eq!(num_chunks(1, 1), 1);
    assert_eq!(num_chunks(0, 4096), 0);
}

#[test]
fn chunk_offsets_stride_by_chunk_size() {
    assert_eq!(chunk_offset(0, 4096), 0);
    assert_eq!(chunk_offset(3, 4096), 12288);
}

#[test]
fn integrity_check_accepts_sorted_blocks() {
    let buf = buffer_of(&[1, 2, 2, 9]);
    assert!(blocks_nondecreasing(&buf));
    assert!(blocks_nondecreasing(&Vec::new()));
    assert!(blocks_nondecreasing(&vec![5u8; 10]));
}

#[test]
fn integrity_check_rejects_out_of_order_blocks() {
    let buf = buffer_of(&[2, 1]);
    assert!(!blocks_nondecreasing(&buf));
}

#[test]
fn integrity_check_judges_partial_tail_block() {
    // A short trailing block of higher bytes keeps the file ordered...
    let mut ok = buffer_of(&[3]);
    ok.extend_from_slice(&[7, 7]);
    assert!(blocks_nondecreasing(&ok));
    // ...and one of lower bytes breaks the order.
    let mut bad = buffer_of(&[3]);
    bad.extend_from_slice(&[0, 0]);
    assert!(!blocks_nondecreasing(&bad));
}

#[test]
fn split_then_sort_conserves_sizes() {
    // Two chunks of two blocks each out of a five-block source: the chunking
    // keeps floor(S/C)*C bytes, and each chunk sort keeps every byte it was
    // given.
    let source = buffer_of(&[9, 1, 7, 3, 5]);
    let chunk_size = 2 * BLOCK_SIZE;
    let n = num_chunks(source.len() as u64, chunk_size as u64);
    assert_eq!(n, 2);
    let mut total = 0;
    for i in 0..n {
        let start = chunk_offset(i, chunk_size as u64) as usize;
        let chunk = source[start..start + chunk_size].to_vec();
        let out = sort_chunk(&chunk);
        assert!(blocks_nondecreasing(&out));
        total += out.len();
    }
    assert_eq!(total, 4 * BLOCK_SIZE);
}

#[test]
fn decimal_rendering_is_exact() {
    assert_eq!(u64_to_decimal(0), b"0".to_vec());
    assert_eq!(u64_to_decimal(7), b"7".to_vec());
    assert_eq!(u64_to_decimal(10), b"10".to_vec());
    assert_eq!(u64_to_decimal(40960), b"40960".to_vec());
    assert_eq!(u64_to_decimal(u64::MAX), b"18446744073709551615".to_vec());
}

#[test]
fn intermediate_paths_follow_the_layout() {
    assert_eq!(int_file_path(&b"/int".to_vec(), 3), b"/int/3.txt".to_vec());
    assert_eq!(int_file_path(&b"tmp".to_vec(), 12), b"tmp/12.txt".to_vec());
}
