use extsort::error::SortError;
use extsort::merge::{check_initial_read, classify_refill_read, Block, Merger, ReadStatus};
use extsort::BLOCK_SIZE;

fn block(fill: u8) -> Vec<u8> {
    vec![fill; BLOCK_SIZE]
}

fn head(file_idx: usize, fill: u8) -> Block {
    Block { file_idx, block: block(fill) }
}

/// Drives a full merge over in-memory intermediate files, following the
/// merge algorithm: load one head per file, then pop the minimum and refill
/// from the file it came from until every file is exhausted.
fn run_merge(files: Vec<Vec<Vec<u8>>>) -> Vec<(u8, usize)> {
    let mut merger = Merger::new();
    let mut next: Vec<usize> = vec![0; files.len()];
    for (i, f) in files.iter().enumerate() {
        assert!(!f.is_empty(), "a well-formed intermediate file holds at least one block");
        assert!(merger.push_head(Block { file_idx: i, block: f[0].clone() }));
        next[i] = 1;
    }
    let mut out = Vec::new();
    while let Some(b) = merger.pop_min() {
        let i = b.file_idx;
        out.push((b.block[0], i));
        if next[i] < files[i].len() {
            assert!(merger.push_head(Block { file_idx: i, block: files[i][next[i]].clone() }));
            next[i] += 1;
        }
    }
    out
}

#[test]
fn merges_three_known_files() {
    // Files [B, D], [A, C], [E] with A < B < C < D < E must merge to
    // exactly [A, B, C, D, E].
    let (a, b, c, d, e) = (1u8, 2u8, 3u8, 4u8, 5u8);
    let out = run_merge(vec![
        vec![block(b), block(d)],
        vec![block(a), block(c)],
        vec![block(e)],
    ]);
    assert_eq!(out, vec![(a, 1), (b, 0), (c, 1), (d, 0), (e, 2)]);
}

#[test]
fn exhausted_file_contributes_no_further_blocks() {
    // The single-block file runs dry mid-merge; the rest must still come
    // out in order, with nothing more attributed to the dry file.
    let out = run_merge(vec![vec![block(10), block(20), block(30)], vec![block(15)]]);
    assert_eq!(out, vec![(10, 0), (15, 1), (20, 0), (30, 0)]);
    assert_eq!(out.iter().filter(|(_, i)| *i == 1).count(), 1);
}

#[test]
fn merge_conserves_block_count() {
    let out = run_merge(vec![
        vec![block(3), block(3)],
        vec![block(1), block(2), block(9)],
    ]);
    assert_eq!(out.len(), 5);
    let fills: Vec<u8> = out.iter().map(|(f, _)| *f).collect();
    assert_eq!(fills, vec![1, 2, 3, 3, 9]);
}

#[test]
fn merge_with_duplicate_blocks_keeps_them_all() {
    let out = run_merge(vec![vec![block(7)], vec![block(7)], vec![block(7)]]);
    let fills: Vec<u8> = out.iter().map(|(f, _)| *f).collect();
    assert_eq!(fills, vec![7, 7, 7]);
}

#[test]
fn pop_on_empty_merger_is_none() {
    let mut merger = Merger::new();
    assert!(merger.pop_min().is_none());
}

#[test]
fn push_refuses_block_below_last_written() {
    let mut merger = Merger::new();
    assert!(merger.push_head(head(0, 5)));
    let popped = merger.pop_min().unwrap();
    assert_eq!(popped.block[0], 5);
    assert!(!merger.push_head(head(0, 4)));
    assert!(merger.push_head(head(0, 5)));
}

#[test]
fn blocks_compare_by_content_not_origin() {
    let x = head(0, 9);
    let y = head(7, 9);
    assert!(x.le(&y));
    assert!(y.le(&x));
    assert!(head(3, 1).le(&head(3, 2)));
    assert!(!head(3, 2).le(&head(3, 1)));
}

#[test]
fn initial_read_must_fill_a_block() {
    assert!(check_initial_read(BLOCK_SIZE).is_ok());
    assert!(matches!(
        check_initial_read(100),
        Err(SortError::UnexpectedEof { expected: BLOCK_SIZE, got: 100 })
    ));
    assert!(matches!(
        check_initial_read(0),
        Err(SortError::UnexpectedEof { expected: BLOCK_SIZE, got: 0 })
    ));
}

#[test]
fn refill_read_full_eof_and_short() {
    assert_eq!(classify_refill_read(BLOCK_SIZE).unwrap(), ReadStatus::Full);
    assert_eq!(classify_refill_read(0).unwrap(), ReadStatus::Eof);
    assert!(matches!(
        classify_refill_read(17),
        Err(SortError::UnexpectedEof { expected: BLOCK_SIZE, got: 17 })
    ));
}
