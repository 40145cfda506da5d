//! Splitting a block range into log-request chunks, and halving a rejected chunk.
use vstd::prelude::*;

use crate::coverage::{blocks_hit, hit, lemma_sum_concat, lemma_sum_single, partitions};

verus! {

broadcast use vstd::seq::group_seq_axioms, vstd::seq_lib::group_seq_properties;

/// Configuration for the concurrent block-fetch path.
#[derive(Debug, Clone, Copy)]
pub struct FetchConfig {
    /// Maximum number of in-flight block requests.
    pub concurrency: usize,
    /// Maximum number of blocks per log request.
    /// `0` issues a single call covering the whole range.
    pub log_chunk_size: u64,
}

impl FetchConfig {
    pub fn new(concurrency: usize, log_chunk_size: u64) -> (cfg: Self)
        ensures
            cfg.concurrency == concurrency,
            cfg.log_chunk_size == log_chunk_size,
    {
        Self { concurrency, log_chunk_size }
    }
}

pub open spec fn min_int(a: int, b: int) -> int {
    if a <= b {
        a
    } else {
        b
    }
}

/// The chunks of `start..=to`, each of `size` blocks but the last, which ends at `to`.
pub open spec fn chunks_from(start: int, to: int, size: int) -> Seq<(u64, u64)>
    decreases (if start <= to { to - start + 1 } else { 0 }),
{
    if size < 1 || start > to {
        Seq::empty()
    } else {
        seq![(start as u64, min_int(start + size - 1, to) as u64)] + chunks_from(start + size, to, size)
    }
}

/// The sub-ranges that `chunk_range` splits `from_block..=to_block` into.
pub open spec fn chunk_range_spec(from_block: u64, to_block: u64, chunk_size: u64) -> Seq<(u64, u64)> {
    chunks_from(from_block as int, to_block as int, chunk_size as int)
}

/// Splits the inclusive range `from_block..=to_block` into consecutive sub-ranges
/// of at most `chunk_size` blocks.
pub fn chunk_range(from_block: u64, to_block: u64, chunk_size: u64) -> (chunks: Vec<(u64, u64)>)
    requires
        chunk_size >= 1,
    ensures
        chunks@ == chunk_range_spec(from_block, to_block, chunk_size),
        chunks@.len() == if from_block <= to_block { (to_block - from_block) / chunk_size as int + 1 } else { 0 },
        forall|i: int| 0 <= i < chunks@.len() ==> #[trigger] chunks@[i].0 == from_block + i * chunk_size,
        forall|i: int| 0 <= i < chunks@.len() - 1 ==> #[trigger] chunks@[i].1 == chunks@[i].0 + chunk_size - 1,
        chunks@.len() > 0 ==> chunks@.last().1 == to_block,
{
    let chunks = chunks_in_order(from_block, to_block, chunk_size);
    proof {
        lemma_chunk_range_partition(from_block, to_block, chunk_size);
    }
    chunks
}

fn chunks_in_order(from_block: u64, to_block: u64, chunk_size: u64) -> (chunks: Vec<(u64, u64)>)
    requires
        chunk_size >= 1,
    ensures
        chunks@ == chunk_range_spec(from_block, to_block, chunk_size),
{
    let mut chunks: Vec<(u64, u64)> = Vec::new();
    if from_block > to_block {
        return chunks;
    }
    let mut start: u64 = from_block;
    loop
        invariant_except_break
            from_block <= start <= to_block,
            chunk_size >= 1,
            chunks@ + chunks_from(start as int, to_block as int, chunk_size as int)
                == chunk_range_spec(from_block, to_block, chunk_size),
        ensures
            chunks@ == chunk_range_spec(from_block, to_block, chunk_size),
        decreases to_block - start,
    {
        let end: u64 = if to_block - start >= chunk_size - 1 {
            start + (chunk_size - 1)
        } else {
            to_block
        };
        let ghost before = chunks@;
        chunks.push((start, end));
        let ghost rest = chunks_from(start as int + chunk_size as int, to_block as int, chunk_size as int);
        assert(chunks_from(start as int, to_block as int, chunk_size as int) == seq![(start, end)] + rest);
        assert(before + (seq![(start, end)] + rest) =~= chunks@ + rest);
        if to_block - start < chunk_size {
            assert(rest =~= Seq::<(u64, u64)>::empty());
            assert(chunks@ + rest =~= chunks@);
            break;
        }
        start = start + chunk_size;
    }
    chunks
}

/// The midpoint at which a range is halved.
pub open spec fn mid_of(r: (u64, u64)) -> int {
    r.0 + (r.1 - r.0) / 2
}

/// The two halves `(start, mid)` and `(mid + 1, end)` of a range.
pub open spec fn halves(r: (u64, u64)) -> Seq<(u64, u64)> {
    seq![(r.0, mid_of(r) as u64), ((mid_of(r) + 1) as u64, r.1)]
}

/// Splits a multi-block range into two contiguous halves.
pub fn halve_range(range: (u64, u64)) -> (parts: [(u64, u64); 2])
    requires
        range.0 <= range.1,
        range.0 < range.1 || range.1 < u64::MAX,
    ensures
        parts@ == halves(range),
        parts[0].0 == range.0,
        parts[0].1 == range.0 + (range.1 - range.0) / 2,
        parts[1].0 == parts[0].1 + 1,
        parts[1].1 == range.1,
{
    let (start, end) = range;
    let mid = start + (end - start) / 2;
    let parts = [(start, mid), (mid + 1, end)];
    assert(parts@ =~= halves(range));
    parts
}

/// Halving a range of two or more blocks yields two non-empty, contiguous ranges that
/// together hold exactly the blocks of the range, split at the midpoint so that the first
/// half has the same number of blocks as the second or one more.
pub proof fn lemma_halves_partition(r: (u64, u64))
    requires
        r.0 < r.1,
    ensures
        halves(r)[0].0 == r.0,
        halves(r)[0].0 <= halves(r)[0].1,
        halves(r)[1].0 == halves(r)[0].1 + 1,
        halves(r)[1].0 <= halves(r)[1].1,
        halves(r)[1].1 == r.1,
        halves(r)[0].1 == r.0 + (r.1 - r.0) / 2,
        0 <= (halves(r)[0].1 - halves(r)[0].0) - (halves(r)[1].1 - halves(r)[1].0) <= 1,
        forall|b: int| #[trigger] blocks_hit(halves(r), b) == hit(b)(r),
{
    assert forall|b: int| #[trigger] blocks_hit(halves(r), b) == hit(b)(r) by {
        let h = halves(r);
        assert(h.drop_last() =~= seq![h[0]]);
        lemma_sum_single(h[0], hit(b));
    }
}

/// The chunks of `from_block..=to_block` are non-empty, at most `chunk_size` blocks long,
/// consecutive, and hold every block of the range exactly once.
pub proof fn lemma_chunk_range_partition(from_block: u64, to_block: u64, chunk_size: u64)
    requires
        chunk_size >= 1,
    ensures
        partitions(chunk_range_spec(from_block, to_block, chunk_size), from_block as int, to_block as int),
        forall|i: int|
            0 <= i < chunk_range_spec(from_block, to_block, chunk_size).len() ==> {
                let c = #[trigger] chunk_range_spec(from_block, to_block, chunk_size)[i];
                &&& c.0 <= c.1
                &&& c.1 - c.0 < chunk_size
            },
        forall|i: int|
            0 < i < chunk_range_spec(from_block, to_block, chunk_size).len() ==>
                #[trigger] chunk_range_spec(from_block, to_block, chunk_size)[i].0
                    == chunk_range_spec(from_block, to_block, chunk_size)[i - 1].1 + 1,
        from_block <= to_block <==> chunk_range_spec(from_block, to_block, chunk_size).len() > 0,
        from_block <= to_block ==> chunk_range_spec(from_block, to_block, chunk_size)[0].0 == from_block,
        from_block <= to_block ==> chunk_range_spec(from_block, to_block, chunk_size).last().1 == to_block,
        chunk_range_spec(from_block, to_block, chunk_size).len()
            == if from_block <= to_block { (to_block - from_block) / chunk_size as int + 1 } else { 0 },
        forall|i: int|
            0 <= i < chunk_range_spec(from_block, to_block, chunk_size).len() ==>
                #[trigger] chunk_range_spec(from_block, to_block, chunk_size)[i].0 == from_block + i * chunk_size,
        forall|i: int|
            0 <= i < chunk_range_spec(from_block, to_block, chunk_size).len() - 1 ==>
                #[trigger] chunk_range_spec(from_block, to_block, chunk_size)[i].1
                    == chunk_range_spec(from_block, to_block, chunk_size)[i].0 + chunk_size - 1,
{
    lemma_chunks_from(from_block as int, to_block as int, chunk_size as int);
}

proof fn lemma_chunks_from(start: int, to: int, size: int)
    requires
        size >= 1,
        0 <= start,
        to <= u64::MAX,
    ensures
        partitions(chunks_from(start, to, size), start, to),
        forall|i: int|
            0 <= i < chunks_from(start, to, size).len() ==> {
                let c = #[trigger] chunks_from(start, to, size)[i];
                &&& start <= c.0 <= c.1 <= to
                &&& c.1 - c.0 < size
            },
        forall|i: int|
            0 < i < chunks_from(start, to, size).len() ==> #[trigger] chunks_from(start, to, size)[i].0
                == chunks_from(start, to, size)[i - 1].1 + 1,
        start <= to <==> chunks_from(start, to, size).len() > 0,
        start <= to ==> chunks_from(start, to, size)[0].0 == start,
        start <= to ==> chunks_from(start, to, size).last().1 == to,
        start <= to ==> chunks_from(start, to, size).len() == (to - start) / size + 1,
        forall|i: int|
            0 <= i < chunks_from(start, to, size).len() ==> #[trigger] chunks_from(start, to, size)[i].0 == start + i * size,
        forall|i: int|
            0 <= i < chunks_from(start, to, size).len() - 1 ==> #[trigger] chunks_from(start, to, size)[i].1
                == chunks_from(start, to, size)[i].0 + size - 1,
    decreases (if start <= to { to - start + 1 } else { 0 }),
{
    let s = chunks_from(start, to, size);
    if start > to {
        assert forall|b: int| #[trigger] blocks_hit(s, b) == if start <= b <= to { 1int } else { 0int } by {
        }
    } else {
        let head = (start as u64, min_int(start + size - 1, to) as u64);
        let rest = chunks_from(start + size, to, size);
        lemma_chunks_from(start + size, to, size);
        assert(s == seq![head] + rest);
        assert forall|b: int| #[trigger] blocks_hit(s, b) == if start <= b <= to { 1int } else { 0int } by {
            lemma_sum_concat(seq![head], rest, hit(b));
            lemma_sum_single(head, hit(b));
            assert(blocks_hit(rest, b) == if start + size <= b <= to { 1int } else { 0int });
        }
        assert forall|i: int| 0 < i < s.len() implies #[trigger] s[i].0 == s[i - 1].1 + 1 by {
            if i > 1 {
                assert(s[i] == rest[i - 1]);
                assert(s[i - 1] == rest[i - 2]);
            } else {
                assert(s[1] == rest[0]);
            }
        }
        if rest.len() > 0 {
            assert(s.last() == rest.last());
            assert(start + size <= to);
            assert((to - start - size) / size + 1 + 1 == (to - start) / size + 1) by (nonlinear_arith)
                requires
                    size >= 1,
                    to - start - size >= 0,
            {
                assert((to - start) == (to - start - size) + size);
                vstd::arithmetic::div_mod::lemma_div_plus_one(to - start - size, size);
            }
        } else {
            assert(start + size > to);
            assert((to - start) / size == 0) by (nonlinear_arith)
                requires
                    size >= 1,
                    0 <= to - start < size,
            {
            }
        }
        assert forall|i: int| 0 <= i < s.len() implies #[trigger] s[i].0 == start + i * size by {
            if i > 0 {
                assert(s[i] == rest[i - 1]);
                assert(start + size + (i - 1) * size == start + i * size) by (nonlinear_arith);
            }
        }
        assert forall|i: int| 0 <= i < s.len() - 1 implies #[trigger] s[i].1 == s[i].0 + size - 1 by {
            if i > 0 {
                assert(s[i] == rest[i - 1]);
            } else {
                assert(rest.len() > 0);
                assert(start + size <= to);
            }
        }
    }
}

} // verus!
