use extsort::checkfile::blocks_nondecreasing;
use extsort::merge::{Block, Merger};
use extsort::split::{chunk_offset, num_chunks, sort_chunk, split_into_blocks};
use extsort::BLOCK_SIZE;

fn block(fill: u8) -> Vec<u8> {
    vec![fill; BLOCK_SIZE]
}

/// The whole engine run in memory: split the source into chunk-sized
/// intermediate files with sorted blocks, then k-way merge them, exactly as
/// the orchestrator sequences the two phases over real files.
fn sort_in_memory(source: &[u8], chunk_size: usize) -> Vec<u8> {
    let n = num_chunks(source.len() as u64, chunk_size as u64) as usize;
    let mut intermediates = Vec::new();
    for i in 0..n {
        let start = chunk_offset(i as u64, chunk_size as u64) as usize;
        let chunk = source[start..start + chunk_size].to_vec();
        intermediates.push(sort_chunk(&chunk));
    }

    let mut merger = Merger::new();
    let mut streams: Vec<Vec<Vec<u8>>> = intermediates.iter().map(|f| split_into_blocks(f)).collect();
    let mut next = vec![0usize; streams.len()];
    for (i, s) in streams.iter().enumerate() {
        if !s.is_empty() {
            assert!(merger.push_head(Block { file_idx: i, block: s[0].clone() }));
            next[i] = 1;
        }
    }
    let mut out = Vec::new();
    while let Some(b) = merger.pop_min() {
        let i = b.file_idx;
        out.extend_from_slice(&b.block);
        if next[i] < streams[i].len() {
            assert!(merger.push_head(Block { file_idx: i, block: streams[i][next[i]].clone() }));
            next[i] += 1;
        }
    }
    out
}

#[test]
fn full_run_produces_totally_ordered_output() {
    let mut source = Vec::new();
    for f in [9u8, 1, 7, 3, 5, 3] {
        source.extend_from_slice(&block(f));
    }
    let out = sort_in_memory(&source, 2 * BLOCK_SIZE);
    assert_eq!(out.len(), source.len());
    assert!(blocks_nondecreasing(&out));
    let expected: Vec<u8> = [1u8, 3, 3, 5, 7, 9].iter().flat_map(|&f| block(f)).collect();
    assert_eq!(out, expected);
}

#[test]
fn full_run_drops_tail_beyond_last_whole_chunk() {
    // Five blocks with a chunk size of two blocks: the fifth block falls
    // beyond the last whole chunk and is not carried into the output.
    let mut source = Vec::new();
    for f in [4u8, 2, 9, 2, 0] {
        source.extend_from_slice(&block(f));
    }
    let out = sort_in_memory(&source, 2 * BLOCK_SIZE);
    assert_eq!(out.len(), 4 * BLOCK_SIZE);
    let expected: Vec<u8> = [2u8, 2, 4, 9].iter().flat_map(|&f| block(f)).collect();
    assert_eq!(out, expected);
}

#[test]
fn resorting_full_output_is_byte_identical() {
    let mut source = Vec::new();
    for f in [8u8, 0, 8, 250] {
        source.extend_from_slice(&block(f));
    }
    let once = sort_in_memory(&source, 2 * BLOCK_SIZE);
    let again = sort_in_memory(&once, 2 * BLOCK_SIZE);
    assert_eq!(once, again);
}
