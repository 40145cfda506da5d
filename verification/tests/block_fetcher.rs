use argus::block_assembly::{
    assemble_block_data, receipt_hashes_to_fetch, same_hash, sort_by_number, AssembledBlock, FetchedBlock,
};
use argus::block_fetcher::{chunk_range, halve_range, FetchConfig};
use argus::log_fetch::LogFetchPlan;

const PROVIDER_ERROR: &str = "query returned more than 10000 results";

/// A log source on which any range spanning `fail_width` or more blocks fails and narrower
/// ranges succeed, returning one log (its block number) per block. Every call is recorded
/// as `(from, to, ok)`.
fn fetch(from: u64, to: u64, fail_width: u64, calls: &mut Vec<(u64, u64, bool)>) -> Result<Vec<u64>, String> {
    let ok = to - from < fail_width;
    calls.push((from, to, ok));
    if ok { Ok((from..=to).collect()) } else { Err(PROVIDER_ERROR.to_string()) }
}

/// Drives a log fetch to its end, answering each batch in the order it was requested.
fn fetch_logs_chunked(
    from_block: u64,
    to_block: u64,
    chunk_size: u64,
    concurrency: usize,
    fail_width: u64,
    calls: &mut Vec<(u64, u64, bool)>,
) -> Result<Vec<u64>, String> {
    let mut plan = LogFetchPlan::new(from_block, to_block, chunk_size, concurrency);
    while !plan.is_done() {
        let batch = plan.take_batch();
        assert!(!batch.is_empty() && batch.len() <= plan.concurrency());
        let outcomes: Vec<_> = batch.iter().map(|&(f, t)| ((f, t), fetch(f, t, fail_width, calls))).collect();
        assert!(plan.outcomes_answer_batch(&outcomes));
        plan = plan.absorb(outcomes)?;
    }
    Ok(plan.into_logs())
}

fn assert_full_coverage(calls: &[(u64, u64, bool)], from_block: u64, to_block: u64) {
    let mut covered: Vec<u64> =
        calls.iter().filter(|&&(_, _, ok)| ok).flat_map(|&(from, to, _)| from..=to).collect();
    covered.sort_unstable();
    let expected: Vec<u64> = (from_block..=to_block).collect();
    assert_eq!(covered, expected, "every block fetched exactly once");
}

#[test]
fn logs_chunked_splits_by_chunk_size() {
    let mut calls = Vec::new();
    // fail_width = u64::MAX: no range ever fails, requests are never shrunk.
    let logs = fetch_logs_chunked(0, 9, 4, 2, u64::MAX, &mut calls).unwrap();

    assert_eq!(logs, (0..=9).collect::<Vec<u64>>());
    let mut ranges: Vec<_> = calls.iter().map(|&(f, t, _)| (f, t)).collect();
    ranges.sort_unstable();
    assert_eq!(ranges, vec![(0, 3), (4, 7), (8, 9)]);
}

#[test]
fn logs_chunked_halves_oversized_ranges() {
    // Ranges spanning >= 2 blocks are rejected; the fetch must halve them down to single
    // blocks and still cover everything.
    let mut calls = Vec::new();
    let logs = fetch_logs_chunked(0, 9, 4, 1, 2, &mut calls).unwrap();

    assert_eq!(logs.len(), 10);
    assert!(calls.iter().any(|&(_, _, ok)| !ok), "shrinking was exercised");
    assert_full_coverage(&calls, 0, 9);
}

#[test]
fn logs_chunked_propagates_error_at_single_block_floor() {
    // fail_width 0: every range, including single blocks, fails.
    let mut calls = Vec::new();
    let err = fetch_logs_chunked(0, 7, 4, 1, 0, &mut calls).unwrap_err();

    assert!(err.contains(PROVIDER_ERROR));
    // Deterministic halving down to the single-block floor: (0,3) -> (0,1) -> (0,0).
    assert_eq!(calls, vec![(0, 3, false), (0, 1, false), (0, 0, false)]);
}

#[test]
fn logs_chunked_zero_disables_adaptivity() {
    let mut calls = Vec::new();
    let result = fetch_logs_chunked(0, 99, 0, 4, 0, &mut calls);

    assert!(result.is_err());
    assert_eq!(calls, vec![(0, 99, false)], "exactly one unchunked call");
}

#[test]
fn blocks_concurrent_with_adaptive_shrinking() {
    let mut calls = Vec::new();
    let cfg = FetchConfig::new(2, 4);
    // Chunk 4 vs a 4-block range: (10,13) is rejected, halves (10,11) and (12,13) succeed.
    let logs = fetch_logs_chunked(10, 13, cfg.log_chunk_size, cfg.concurrency, 2, &mut calls).unwrap();
    let blocks: Vec<FetchedBlock<u64>> =
        (10..=13).map(|n| FetchedBlock { number: n, tx_hashes: Vec::new(), block: n }).collect();
    assert!(receipt_hashes_to_fetch(false, &blocks).is_none());
    let tagged: Vec<(Option<u64>, u64)> = logs.into_iter().map(|n| (Some(n), n)).collect();
    let block_data: Vec<AssembledBlock<u64, u64, ()>> = assemble_block_data(blocks, tagged, Vec::new());

    assert_eq!(block_data.len(), 4);
    assert_eq!(block_data.iter().map(|bd| bd.number).collect::<Vec<_>>(), vec![10, 11, 12, 13]);
    for bd in &block_data {
        assert_eq!(bd.logs, vec![bd.number]);
    }
    assert_full_coverage(&calls, 10, 13);
}

#[test]
fn fetch_config_new_keeps_its_arguments() {
    let cfg = FetchConfig::new(8, 2000);
    assert_eq!(cfg.concurrency, 8);
    assert_eq!(cfg.log_chunk_size, 2000);
}

#[test]
fn chunk_range_exact_chunks() {
    assert_eq!(chunk_range(0, 9, 4), vec![(0, 3), (4, 7), (8, 9)]);
    assert_eq!(chunk_range(5, 5, 10), vec![(5, 5)]);
    assert_eq!(chunk_range(1, 4, 1), vec![(1, 1), (2, 2), (3, 3), (4, 4)]);
    assert_eq!(chunk_range(0, 7, 4), vec![(0, 3), (4, 7)]);
    assert!(chunk_range(9, 3, 4).is_empty());
}

#[test]
fn chunk_range_at_the_top_of_the_block_numbers() {
    assert_eq!(chunk_range(u64::MAX - 2, u64::MAX, 2), vec![(u64::MAX - 2, u64::MAX - 1), (u64::MAX, u64::MAX)]);
    assert_eq!(chunk_range(u64::MAX - 1, u64::MAX, u64::MAX), vec![(u64::MAX - 1, u64::MAX)]);
}

#[test]
fn halve_range_splits_at_the_midpoint() {
    assert_eq!(halve_range((0, 3)), [(0, 1), (2, 3)]);
    assert_eq!(halve_range((0, 2)), [(0, 1), (2, 2)]);
    assert_eq!(halve_range((10, 11)), [(10, 10), (11, 11)]);
    assert_eq!(halve_range((u64::MAX - 1, u64::MAX)), [(u64::MAX - 1, u64::MAX - 1), (u64::MAX, u64::MAX)]);
}

#[test]
fn halves_are_retried_ahead_of_pending_chunks() {
    let mut plan: LogFetchPlan<u64> = LogFetchPlan::new(0, 11, 4, 2);
    let batch = plan.take_batch();
    assert_eq!(batch, vec![(0, 3), (4, 7)]);
    assert_eq!(plan.pending_len(), 1);
    // Outcomes arrive in another order: (4,7) succeeds first, then (0,3) fails.
    let outcomes = vec![((4, 7), Ok(vec![4, 5])), ((0, 3), Err("too large"))];
    assert!(plan.outcomes_answer_batch(&outcomes));
    let mut plan = plan.absorb(outcomes).unwrap();
    assert_eq!(plan.pending_len(), 3);
    assert_eq!(plan.take_batch(), vec![(0, 1), (2, 3)]);
    let outcomes = vec![((0, 1), Ok(vec![0])), ((2, 3), Ok(vec![2]))];
    let mut plan = plan.absorb::<&str>(outcomes).unwrap();
    assert_eq!(plan.take_batch(), vec![(8, 11)]);
    let plan = plan.absorb::<&str>(vec![((8, 11), Ok(vec![9]))]).unwrap();
    assert!(plan.is_done());
    assert_eq!(plan.into_logs(), vec![4, 5, 0, 2, 9]);
}

#[test]
fn first_fatal_outcome_wins() {
    let mut plan: LogFetchPlan<u64> = LogFetchPlan::new(0, 1, 1, 4);
    assert_eq!(plan.take_batch(), vec![(0, 0), (1, 1)]);
    let outcomes = vec![((1, 1), Err("second block")), ((0, 0), Err("first block"))];
    assert_eq!(plan.absorb(outcomes).err(), Some("second block"));
}

#[test]
fn outcomes_that_do_not_answer_the_batch_are_refused() {
    let mut plan: LogFetchPlan<u64> = LogFetchPlan::new(0, 7, 4, 2);
    plan.take_batch();
    let missing: Vec<((u64, u64), Result<Vec<u64>, ()>)> = vec![((0, 3), Ok(vec![]))];
    assert!(!plan.outcomes_answer_batch(&missing));
    let twice: Vec<((u64, u64), Result<Vec<u64>, ()>)> =
        vec![((0, 3), Ok(vec![])), ((0, 3), Ok(vec![])), ((4, 7), Ok(vec![]))];
    assert!(!plan.outcomes_answer_batch(&twice));
    let foreign: Vec<((u64, u64), Result<Vec<u64>, ()>)> = vec![((0, 3), Ok(vec![])), ((4, 8), Ok(vec![]))];
    assert!(!plan.outcomes_answer_batch(&foreign));
}

#[test]
fn zero_concurrency_still_makes_progress() {
    let mut calls = Vec::new();
    let logs = fetch_logs_chunked(0, 5, 2, 0, u64::MAX, &mut calls).unwrap();
    assert_eq!(logs, vec![0, 1, 2, 3, 4, 5]);
    assert_eq!(calls, vec![(0, 1, true), (2, 3, true), (4, 5, true)]);
}

#[test]
fn empty_range_makes_no_chunked_request() {
    let mut calls = Vec::new();
    assert_eq!(fetch_logs_chunked(9, 3, 4, 2, u64::MAX, &mut calls).unwrap(), Vec::<u64>::new());
    assert!(calls.is_empty());
    // Without chunking the single request is made regardless.
    let _ = fetch_logs_chunked(9, 3, 0, 2, u64::MAX, &mut calls);
    assert_eq!(calls.len(), 1);
}

#[test]
fn request_count_stays_within_twice_the_blocks() {
    let mut calls = Vec::new();
    let logs = fetch_logs_chunked(0, 15, 16, 3, 1, &mut calls).unwrap();
    assert_eq!(logs.len(), 16);
    assert!(calls.len() <= 2 * 16 - 1);
    assert_eq!(calls.len(), 31);
    assert_full_coverage(&calls, 0, 15);
}

fn h(byte: u8) -> [u8; 32] {
    [byte; 32]
}

#[test]
fn logs_go_to_the_first_block_of_their_number_and_sorting_is_by_number() {
    let blocks = vec![
        FetchedBlock { number: 12, tx_hashes: vec![h(3)], block: "b12" },
        FetchedBlock { number: 10, tx_hashes: vec![h(1), h(2)], block: "b10" },
        FetchedBlock { number: 12, tx_hashes: vec![h(3)], block: "b12-again" },
        FetchedBlock { number: 11, tx_hashes: vec![], block: "b11" },
    ];
    let logs = vec![
        (Some(10), "l10a"),
        (None, "no-number"),
        (Some(12), "l12"),
        (Some(99), "orphan"),
        (Some(10), "l10b"),
    ];
    let receipts = vec![(h(2), "r2"), (h(3), "r3"), (h(1), "r1"), (h(9), "r9")];
    let out = assemble_block_data(blocks, logs, receipts);

    let summary: Vec<(u64, &str, Vec<&str>, Vec<&str>)> = out
        .iter()
        .map(|b| (b.number, b.block, b.logs.clone(), b.receipts.iter().map(|r| r.1).collect()))
        .collect();
    assert_eq!(
        summary,
        vec![
            (10, "b10", vec!["l10a", "l10b"], vec!["r1", "r2"]),
            (11, "b11", vec![], vec![]),
            (12, "b12", vec!["l12"], vec!["r3"]),
            (12, "b12-again", vec![], vec![]),
        ]
    );
}

#[test]
fn receipt_hashes_are_all_transactions_in_block_order() {
    let blocks = vec![
        FetchedBlock { number: 1, tx_hashes: vec![h(1), h(2)], block: () },
        FetchedBlock { number: 2, tx_hashes: vec![], block: () },
        FetchedBlock { number: 3, tx_hashes: vec![h(3)], block: () },
    ];
    assert_eq!(receipt_hashes_to_fetch(true, &blocks), Some(vec![h(1), h(2), h(3)]));
    assert_eq!(receipt_hashes_to_fetch(false, &blocks), None);
    let empty = vec![FetchedBlock { number: 1, tx_hashes: vec![], block: () }];
    assert_eq!(receipt_hashes_to_fetch(true, &empty), None);
}

#[test]
fn sort_by_number_is_stable() {
    let parts: Vec<AssembledBlock<&str, (), ()>> = vec![
        AssembledBlock { number: 3, block: "a", logs: vec![], receipts: vec![] },
        AssembledBlock { number: 1, block: "b", logs: vec![], receipts: vec![] },
        AssembledBlock { number: 3, block: "c", logs: vec![], receipts: vec![] },
        AssembledBlock { number: 2, block: "d", logs: vec![], receipts: vec![] },
        AssembledBlock { number: 1, block: "e", logs: vec![], receipts: vec![] },
    ];
    let sorted = sort_by_number(parts);
    assert_eq!(sorted.iter().map(|p| p.block).collect::<Vec<_>>(), vec!["b", "e", "d", "a", "c"]);
}

#[test]
fn same_hash_compares_every_byte() {
    let a = h(4);
    let mut b = h(4);
    assert!(same_hash(&a, &b));
    b[0] = 5;
    assert!(!same_hash(&a, &b));
}
