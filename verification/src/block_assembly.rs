//! Combining fetched blocks with the logs of the range and the receipts of their
//! transactions, ordered by block number.
//!
//! Blocks are processed in the order they were fetched. The first block with a given
//! number receives every log of that number, in the order the logs were fetched; logs
//! without a block number, or whose number no block has, are dropped. Each transaction
//! hash of a block, in order, takes the first still unused receipt with that hash.
//! Finally the blocks are stably sorted by number.
use vstd::prelude::*;

verus! {

broadcast use vstd::seq::group_seq_axioms, vstd::seq_lib::group_seq_properties,
    vstd::multiset::group_multiset_axioms;

/// A fetched block: its number, the hashes of its transactions, and the block itself.
pub struct FetchedBlock<B> {
    pub number: u64,
    pub tx_hashes: Vec<[u8; 32]>,
    pub block: B,
}

pub struct FetchedBlockView<B> {
    pub number: u64,
    pub tx_hashes: Seq<[u8; 32]>,
    pub block: B,
}

impl<B> View for FetchedBlock<B> {
    type V = FetchedBlockView<B>;

    open spec fn view(&self) -> FetchedBlockView<B> {
        FetchedBlockView { number: self.number, tx_hashes: self.tx_hashes@, block: self.block }
    }
}

/// A block with the logs and the receipts that belong to it.
pub struct AssembledBlock<B, L, R> {
    pub number: u64,
    pub block: B,
    pub logs: Vec<L>,
    pub receipts: Vec<([u8; 32], R)>,
}

pub struct AssembledView<B, L, R> {
    pub number: u64,
    pub block: B,
    pub logs: Seq<L>,
    pub receipts: Seq<([u8; 32], R)>,
}

impl<B, L, R> View for AssembledBlock<B, L, R> {
    type V = AssembledView<B, L, R>;

    open spec fn view(&self) -> AssembledView<B, L, R> {
        AssembledView { number: self.number, block: self.block, logs: self.logs@, receipts: self.receipts@ }
    }
}

pub open spec fn fetched_views<B>(s: Seq<FetchedBlock<B>>) -> Seq<FetchedBlockView<B>> {
    s.map_values(|b: FetchedBlock<B>| b@)
}

pub open spec fn assembled_views<B, L, R>(s: Seq<AssembledBlock<B, L, R>>) -> Seq<AssembledView<B, L, R>> {
    s.map_values(|b: AssembledBlock<B, L, R>| b@)
}

/// The logs of block `n`, in order, and the logs left for other blocks.
pub open spec fn split_logs<L>(logs: Seq<(Option<u64>, L)>, n: u64) -> (Seq<L>, Seq<(Option<u64>, L)>)
    decreases logs.len(),
{
    if logs.len() == 0 {
        (Seq::empty(), Seq::empty())
    } else {
        let (mine, rest) = split_logs(logs.drop_last(), n);
        if logs.last().0 == Some(n) {
            (mine.push(logs.last().1), rest)
        } else {
            (mine, rest.push(logs.last()))
        }
    }
}

/// The payloads of the logs of block `n`, in order.
pub open spec fn logs_numbered<L>(logs: Seq<(Option<u64>, L)>, n: u64) -> Seq<L> {
    split_logs(logs, n).0
}

/// Index of the first receipt in `pool` with hash `h`.
pub open spec fn find_receipt<R>(pool: Seq<([u8; 32], R)>, h: [u8; 32]) -> Option<int>
    decreases pool.len(),
{
    if pool.len() == 0 {
        None
    } else if pool[0].0@ == h@ {
        Some(0)
    } else {
        match find_receipt(pool.drop_first(), h) {
            Some(j) => Some(j + 1),
            None => None,
        }
    }
}

/// The receipts taken, in order, by the transaction hashes `hashes`, and the unused rest.
pub open spec fn take_receipts<R>(hashes: Seq<[u8; 32]>, pool: Seq<([u8; 32], R)>) -> (Seq<([u8; 32], R)>, Seq<([u8; 32], R)>)
    decreases hashes.len(),
{
    if hashes.len() == 0 {
        (Seq::empty(), pool)
    } else {
        let (taken, rest) = take_receipts(hashes.drop_last(), pool);
        match find_receipt(rest, hashes.last()) {
            Some(j) => (taken.push(rest[j]), rest.remove(j)),
            None => (taken, rest),
        }
    }
}

/// The blocks, in fetch order, each with its logs and receipts.
pub open spec fn assembled<B, L, R>(
    blocks: Seq<FetchedBlockView<B>>,
    logs: Seq<(Option<u64>, L)>,
    pool: Seq<([u8; 32], R)>,
) -> Seq<AssembledView<B, L, R>>
    decreases blocks.len(),
{
    if blocks.len() == 0 {
        Seq::empty()
    } else {
        let b = blocks[0];
        let (mine, other_logs) = split_logs(logs, b.number);
        let (taken, rest) = take_receipts(b.tx_hashes, pool);
        seq![AssembledView { number: b.number, block: b.block, logs: mine, receipts: taken }]
            + assembled(blocks.drop_first(), other_logs, rest)
    }
}

/// Where `sort_by_number` puts an item numbered `n`: after every leading item numbered at most `n`.
pub open spec fn insertion_point<B, L, R>(s: Seq<AssembledView<B, L, R>>, n: u64) -> int
    decreases s.len(),
{
    if s.len() == 0 {
        0
    } else if s[0].number > n {
        0
    } else {
        1 + insertion_point(s.drop_first(), n)
    }
}

/// The stable sort of `s` by block number (an insertion sort).
pub open spec fn sorted_by_number<B, L, R>(s: Seq<AssembledView<B, L, R>>) -> Seq<AssembledView<B, L, R>>
    decreases s.len(),
{
    if s.len() == 0 {
        s
    } else {
        let t = sorted_by_number(s.drop_last());
        t.insert(insertion_point(t, s.last().number), s.last())
    }
}

/// All hashes of the blocks' transactions, block after block.
pub open spec fn all_tx_hashes<B>(blocks: Seq<FetchedBlockView<B>>) -> Seq<[u8; 32]>
    decreases blocks.len(),
{
    if blocks.len() == 0 {
        Seq::empty()
    } else {
        all_tx_hashes(blocks.drop_last()) + blocks.last().tx_hashes
    }
}

/// Whether two hashes are equal.
pub fn same_hash(a: &[u8; 32], b: &[u8; 32]) -> (eq: bool)
    ensures
        eq == (a@ == b@),
{
    let mut i: usize = 0;
    while i < 32
        invariant
            i <= 32,
            forall|k: int| 0 <= k < i ==> a@[k] == b@[k],
        decreases 32 - i,
    {
        if a[i] != b[i] {
            return false;
        }
        i = i + 1;
    }
    assert(a@ =~= b@);
    true
}

/// The transaction hashes whose receipts are to be fetched: all of them, block after block,
/// when receipts are needed and there is at least one; otherwise none.
pub fn receipt_hashes_to_fetch<B>(needs_receipts: bool, blocks: &Vec<FetchedBlock<B>>) -> (hashes: Option<Vec<[u8; 32]>>)
    ensures
        hashes is Some <==> needs_receipts && all_tx_hashes(fetched_views(blocks@)).len() > 0,
        hashes matches Some(h) ==> h@ == all_tx_hashes(fetched_views(blocks@)),
{
    if !needs_receipts {
        return None;
    }
    let mut all: Vec<[u8; 32]> = Vec::new();
    let mut i: usize = 0;
    while i < blocks.len()
        invariant
            i <= blocks@.len(),
            all@ == all_tx_hashes(fetched_views(blocks@).take(i as int)),
        decreases blocks@.len() - i,
    {
        let hs = &blocks[i].tx_hashes;
        let ghost before = all@;
        let mut j: usize = 0;
        while j < hs.len()
            invariant
                j <= hs@.len(),
                all@ == before + hs@.take(j as int),
            decreases hs@.len() - j,
        {
            all.push(hs[j]);
            j = j + 1;
        }
        proof {
            let v = fetched_views(blocks@);
            assert(v.take(i + 1).drop_last() =~= v.take(i as int));
            assert(hs@.take(j as int) =~= hs@);
        }
        i = i + 1;
    }
    assert(fetched_views(blocks@).take(blocks@.len() as int) =~= fetched_views(blocks@));
    if all.len() == 0 {
        None
    } else {
        Some(all)
    }
}

proof fn lemma_find_receipt<R>(pool: Seq<([u8; 32], R)>, h: [u8; 32], j: int)
    requires
        0 <= j <= pool.len(),
        forall|m: int| 0 <= m < j ==> pool[m].0@ != h@,
        j < pool.len() ==> pool[j].0@ == h@,
    ensures
        find_receipt(pool, h) == if j < pool.len() { Some(j) } else { None::<int> },
    decreases j,
{
    if j > 0 {
        lemma_find_receipt(pool.drop_first(), h, j - 1);
    }
}

/// Splits off the logs of block `n` from `logs`.
fn take_logs_of<L>(logs: Vec<(Option<u64>, L)>, n: u64) -> (r: (Vec<L>, Vec<(Option<u64>, L)>))
    ensures
        (r.0@, r.1@) == split_logs(logs@, n),
{
    let ghost all = logs@;
    let mut rest_in = logs;
    let mut mine: Vec<L> = Vec::new();
    let mut rest: Vec<(Option<u64>, L)> = Vec::new();
    let ghost mut k: int = 0;
    while rest_in.len() > 0
        invariant
            0 <= k <= all.len(),
            rest_in@ == all.skip(k),
            (mine@, rest@) == split_logs(all.take(k), n),
        decreases rest_in@.len(),
    {
        let (num, log) = rest_in.remove(0);
        proof {
            assert(all.take(k + 1).drop_last() =~= all.take(k));
            assert(all.take(k + 1).last() == all[k]);
        }
        let matches = match num {
            Some(m) => m == n,
            None => false,
        };
        if matches {
            mine.push(log);
        } else {
            rest.push((num, log));
        }
        proof {
            k = k + 1;
        }
    }
    assert(all.take(k) =~= all);
    (mine, rest)
}

/// Takes, for each hash in order, the first unused receipt with that hash.
fn take_receipts_of<R>(hashes: &Vec<[u8; 32]>, pool: Vec<([u8; 32], R)>) -> (r: (Vec<([u8; 32], R)>, Vec<([u8; 32], R)>))
    ensures
        (r.0@, r.1@) == take_receipts(hashes@, pool@),
{
    let ghost pool0 = pool@;
    let mut pool = pool;
    let mut taken: Vec<([u8; 32], R)> = Vec::new();
    let mut i: usize = 0;
    while i < hashes.len()
        invariant
            i <= hashes@.len(),
            (taken@, pool@) == take_receipts(hashes@.take(i as int), pool0),
        decreases hashes@.len() - i,
    {
        let h = hashes[i];
        proof {
            assert(hashes@.take(i + 1).drop_last() =~= hashes@.take(i as int));
            assert(hashes@.take(i + 1).last() == h);
        }
        let mut j: usize = 0;
        while j < pool.len() && !same_hash(&pool[j].0, &h)
            invariant
                j <= pool@.len(),
                forall|m: int| 0 <= m < j ==> pool@[m].0@ != h@,
            decreases pool@.len() - j,
        {
            j = j + 1;
        }
        proof {
            if j < pool@.len() {
                assert(pool@[j as int].0@ == h@);
            }
            lemma_find_receipt(pool@, h, j as int);
        }
        if j < pool.len() {
            let receipt = pool.remove(j);
            taken.push(receipt);
        }
        i = i + 1;
    }
    assert(hashes@.take(hashes@.len() as int) =~= hashes@);
    (taken, pool)
}

/// Combines the blocks, in fetch order, with their logs and receipts.
fn assemble_in_fetch_order<B, L, R>(
    blocks: Vec<FetchedBlock<B>>,
    logs: Vec<(Option<u64>, L)>,
    receipts: Vec<([u8; 32], R)>,
) -> (out: Vec<AssembledBlock<B, L, R>>)
    ensures
        assembled_views(out@) == assembled(fetched_views(blocks@), logs@, receipts@),
{
    let ghost target = assembled(fetched_views(blocks@), logs@, receipts@);
    let mut blocks = blocks;
    let mut logs = logs;
    let mut pool = receipts;
    let mut out: Vec<AssembledBlock<B, L, R>> = Vec::new();
    while blocks.len() > 0
        invariant
            assembled_views(out@) + assembled(fetched_views(blocks@), logs@, pool@) == target,
        decreases blocks@.len(),
    {
        let ghost bv = fetched_views(blocks@);
        let ghost logs0 = logs@;
        let ghost pool0 = pool@;
        let ghost prev_out = assembled_views(out@);
        let fb = blocks.remove(0);
        let FetchedBlock { number, tx_hashes, block } = fb;
        let (mine, other_logs) = take_logs_of(logs, number);
        let (taken, rest) = take_receipts_of(&tx_hashes, pool);
        logs = other_logs;
        pool = rest;
        out.push(AssembledBlock { number, block, logs: mine, receipts: taken });
        proof {
            assert(bv[0] == fb@);
            assert(fetched_views(blocks@) =~= bv.drop_first());
            let tail = assembled(fetched_views(blocks@), logs@, pool@);
            assert(assembled(bv, logs0, pool0) == seq![out@.last()@] + tail);
            assert(assembled_views(out@) =~= prev_out.push(out@.last()@));
            assert(prev_out.push(out@.last()@) + tail =~= prev_out + (seq![out@.last()@] + tail));
        }
    }
    assert(assembled_views(out@) + Seq::<AssembledView<B, L, R>>::empty() =~= assembled_views(out@));
    out
}

proof fn lemma_insertion_point<B, L, R>(t: Seq<AssembledView<B, L, R>>, n: u64, p: int)
    requires
        0 <= p <= t.len(),
        forall|m: int| 0 <= m < p ==> t[m].number <= n,
        p < t.len() ==> t[p].number > n,
    ensures
        insertion_point(t, n) == p,
    decreases p,
{
    if p > 0 {
        lemma_insertion_point(t.drop_first(), n, p - 1);
    }
}

/// Inserts `item` after every leading block numbered at most its number.
fn insert_by_number<B, L, R>(sorted: &mut Vec<AssembledBlock<B, L, R>>, item: AssembledBlock<B, L, R>)
    ensures
        assembled_views(final(sorted)@) == assembled_views(old(sorted)@).insert(
            insertion_point(assembled_views(old(sorted)@), item.number),
            item@,
        ),
{
    let ghost t = assembled_views(sorted@);
    let mut p: usize = 0;
    while p < sorted.len() && sorted[p].number <= item.number
        invariant
            p <= sorted@.len(),
            t == assembled_views(sorted@),
            forall|m: int| 0 <= m < p ==> t[m].number <= item.number,
        decreases sorted@.len() - p,
    {
        p = p + 1;
    }
    proof {
        lemma_insertion_point(t, item.number, p as int);
    }
    let ghost iv = item@;
    sorted.insert(p, item);
    assert(assembled_views(sorted@) =~= t.insert(p as int, iv));
}

/// Stably sorts blocks by number.
pub fn sort_by_number<B, L, R>(parts: Vec<AssembledBlock<B, L, R>>) -> (sorted: Vec<AssembledBlock<B, L, R>>)
    ensures
        assembled_views(sorted@) == sorted_by_number(assembled_views(parts@)),
{
    let ghost all = assembled_views(parts@);
    let mut rest = parts;
    let mut sorted: Vec<AssembledBlock<B, L, R>> = Vec::new();
    let ghost mut k: int = 0;
    while rest.len() > 0
        invariant
            0 <= k <= all.len(),
            assembled_views(rest@) == all.skip(k),
            assembled_views(sorted@) == sorted_by_number(all.take(k)),
        decreases rest@.len(),
    {
        let ghost rv = rest@;
        assert(assembled_views(rv).len() == rv.len());
        assert(k < all.len());
        let item = rest.remove(0);
        proof {
            assert(assembled_views(rv)[0] == rv[0]@);
            assert(all.skip(k)[0] == all[k]);
            assert(item@ == all[k]);
            assert(all.take(k + 1).drop_last() =~= all.take(k));
            assert(all.take(k + 1).last() == all[k]);
            assert(assembled_views(rest@) =~= all.skip(k + 1));
        }
        insert_by_number(&mut sorted, item);
        proof {
            k = k + 1;
        }
    }
    assert(all.take(k) =~= all);
    sorted
}

/// Combines the fetched blocks with the logs of their range and the receipts of their
/// transactions, and orders the result by block number.
pub fn assemble_block_data<B, L, R>(
    blocks: Vec<FetchedBlock<B>>,
    logs: Vec<(Option<u64>, L)>,
    receipts: Vec<([u8; 32], R)>,
) -> (out: Vec<AssembledBlock<B, L, R>>)
    ensures
        assembled_views(out@) == sorted_by_number(assembled(fetched_views(blocks@), logs@, receipts@)),
{
    let in_order = assemble_in_fetch_order(blocks, logs, receipts);
    sort_by_number(in_order)
}

/// Whether block `i` is the first of `blocks` with its number.
pub open spec fn first_with_its_number<B>(blocks: Seq<FetchedBlockView<B>>, i: int) -> bool {
    forall|j: int| 0 <= j < i ==> #[trigger] blocks[j].number != blocks[i].number
}

/// Whether `s` is ordered by block number.
pub open spec fn ordered_by_number<B, L, R>(s: Seq<AssembledView<B, L, R>>) -> bool {
    forall|i: int, j: int| 0 <= i < j < s.len() ==> #[trigger] s[i].number <= #[trigger] s[j].number
}

proof fn lemma_insertion_point_bounds<B, L, R>(t: Seq<AssembledView<B, L, R>>, n: u64)
    ensures
        0 <= insertion_point(t, n) <= t.len(),
        forall|m: int| 0 <= m < insertion_point(t, n) ==> #[trigger] t[m].number <= n,
        insertion_point(t, n) < t.len() ==> t[insertion_point(t, n)].number > n,
    decreases t.len(),
{
    if t.len() > 0 && t[0].number <= n {
        lemma_insertion_point_bounds(t.drop_first(), n);
        assert forall|m: int| 0 <= m < insertion_point(t, n) implies #[trigger] t[m].number <= n by {
            if m > 0 {
                assert(t[m] == t.drop_first()[m - 1]);
            }
        }
    }
}

/// The blocks come out ordered by number, as a rearrangement of the blocks that went in.
pub proof fn lemma_sorted_by_number<B, L, R>(s: Seq<AssembledView<B, L, R>>)
    ensures
        ordered_by_number(sorted_by_number(s)),
        sorted_by_number(s).to_multiset() == s.to_multiset(),
        sorted_by_number(s).len() == s.len(),
    decreases s.len(),
{
    broadcast use vstd::seq_lib::group_to_multiset_ensures;

    if s.len() > 0 {
        let t = sorted_by_number(s.drop_last());
        lemma_sorted_by_number(s.drop_last());
        let x = s.last();
        let p = insertion_point(t, x.number);
        lemma_insertion_point_bounds(t, x.number);
        let u = t.insert(p, x);
        assert(u == sorted_by_number(s));
        assert forall|i: int, j: int| 0 <= i < j < u.len() implies #[trigger] u[i].number <= #[trigger] u[j].number by {
            if j < p {
                assert(u[i] == t[i] && u[j] == t[j]);
            } else if j == p {
                assert(u[i] == t[i]);
            } else if i < p {
                assert(u[i] == t[i] && u[j] == t[j - 1]);
                assert(t[p].number > x.number);
                if j - 1 > p {
                    assert(t[p].number <= t[j - 1].number);
                }
            } else if i == p {
                assert(u[j] == t[j - 1]);
                assert(t[p].number > x.number);
                if j - 1 > p {
                    assert(t[p].number <= t[j - 1].number);
                }
            } else {
                assert(u[i] == t[i - 1] && u[j] == t[j - 1]);
            }
        }
        assert(s.drop_last().push(x) =~= s);
    }
}

proof fn lemma_split_logs_rest<L>(logs: Seq<(Option<u64>, L)>, n: u64, m: u64)
    ensures
        logs_numbered(split_logs(logs, n).1, m) == if m == n { Seq::<L>::empty() } else { logs_numbered(logs, m) },
    decreases logs.len(),
{
    if logs.len() > 0 {
        lemma_split_logs_rest(logs.drop_last(), n, m);
        let rest0 = split_logs(logs.drop_last(), n).1;
        if logs.last().0 != Some(n) {
            assert(rest0.push(logs.last()).drop_last() =~= rest0);
        }
    }
}

/// The first block with a given number receives every log of that number, in the order
/// the logs were fetched; a later block with the same number receives none.
pub proof fn lemma_logs_go_to_first_block_of_their_number<B, L, R>(
    blocks: Seq<FetchedBlockView<B>>,
    logs: Seq<(Option<u64>, L)>,
    pool: Seq<([u8; 32], R)>,
    i: int,
)
    requires
        0 <= i < blocks.len(),
    ensures
        assembled(blocks, logs, pool).len() == blocks.len(),
        assembled(blocks, logs, pool)[i].number == blocks[i].number,
        assembled(blocks, logs, pool)[i].block == blocks[i].block,
        assembled(blocks, logs, pool)[i].logs == if first_with_its_number(blocks, i) {
            logs_numbered(logs, blocks[i].number)
        } else {
            Seq::<L>::empty()
        },
    decreases blocks.len(),
{
    let b = blocks[0];
    let (mine, other_logs) = split_logs(logs, b.number);
    let (taken, rest) = take_receipts(b.tx_hashes, pool);
    let tail = blocks.drop_first();
    let a = assembled(blocks, logs, pool);
    assert(a == seq![AssembledView { number: b.number, block: b.block, logs: mine, receipts: taken }]
        + assembled(tail, other_logs, rest));
    if i == 0 {
        if blocks.len() > 1 {
            lemma_logs_go_to_first_block_of_their_number(tail, other_logs, rest, 0);
        } else {
            assert(assembled(tail, other_logs, rest).len() == 0);
        }
    } else {
        lemma_logs_go_to_first_block_of_their_number(tail, other_logs, rest, i - 1);
        assert(a[i] == assembled(tail, other_logs, rest)[i - 1]);
        assert(tail[i - 1] == blocks[i]);
        lemma_split_logs_rest(logs, b.number, blocks[i].number);
        if first_with_its_number(blocks, i) {
            assert forall|j: int| 0 <= j < i - 1 implies #[trigger] tail[j].number != tail[i - 1].number by {
                assert(tail[j] == blocks[j + 1]);
            }
            assert(blocks[0].number != blocks[i].number);
        } else {
            let j = choose|j: int| 0 <= j < i && #[trigger] blocks[j].number == blocks[i].number;
            if j > 0 {
                assert(tail[j - 1] == blocks[j]);
                assert(!first_with_its_number(tail, i - 1));
            }
        }
    }
}

/// The receipts attached to the blocks, block after block.
pub open spec fn attached_receipts<B, L, R>(a: Seq<AssembledView<B, L, R>>) -> Seq<([u8; 32], R)>
    decreases a.len(),
{
    if a.len() == 0 {
        Seq::empty()
    } else {
        a[0].receipts + attached_receipts(a.drop_first())
    }
}

/// The receipts that no block took.
pub open spec fn unused_receipts<B, R>(blocks: Seq<FetchedBlockView<B>>, pool: Seq<([u8; 32], R)>) -> Seq<([u8; 32], R)>
    decreases blocks.len(),
{
    if blocks.len() == 0 {
        pool
    } else {
        unused_receipts(blocks.drop_first(), take_receipts(blocks[0].tx_hashes, pool).1)
    }
}

proof fn lemma_find_receipt_found<R>(pool: Seq<([u8; 32], R)>, h: [u8; 32])
    ensures
        find_receipt(pool, h) matches Some(j) ==> 0 <= j < pool.len() && pool[j].0@ == h@,
    decreases pool.len(),
{
    if pool.len() > 0 && pool[0].0@ != h@ {
        lemma_find_receipt_found(pool.drop_first(), h);
    }
}

/// Taking receipts keeps every receipt either taken or unused, and takes only receipts
/// whose hash is one of `hashes`.
proof fn lemma_take_receipts<R>(hashes: Seq<[u8; 32]>, pool: Seq<([u8; 32], R)>)
    ensures
        take_receipts(hashes, pool).0.to_multiset().add(take_receipts(hashes, pool).1.to_multiset())
            == pool.to_multiset(),
        forall|k: int| 0 <= k < take_receipts(hashes, pool).0.len() ==>
            exists|t: int| 0 <= t < hashes.len() && #[trigger] hashes[t]@ == (#[trigger] take_receipts(hashes, pool).0[k]).0@,
    decreases hashes.len(),
{
    broadcast use vstd::seq_lib::group_to_multiset_ensures;

    if hashes.len() > 0 {
        let init = hashes.drop_last();
        lemma_take_receipts(init, pool);
        let (taken, rest) = take_receipts(init, pool);
        let h = hashes.last();
        lemma_find_receipt_found(rest, h);
        match find_receipt(rest, h) {
            Some(j) => {
                let x = rest[j];
                assert(taken.push(x).to_multiset() =~= taken.to_multiset().insert(x));
                assert(rest.remove(j).to_multiset() =~= rest.to_multiset().remove(x));
                assert(rest.to_multiset().count(x) > 0);
                assert(taken.push(x).to_multiset().add(rest.remove(j).to_multiset()) =~= taken.to_multiset().add(rest.to_multiset()));
                let t2 = taken.push(x);
                assert forall|k: int| 0 <= k < t2.len() implies
                    exists|t: int| 0 <= t < hashes.len() && #[trigger] hashes[t]@ == (#[trigger] t2[k]).0@ by {
                    if k < taken.len() {
                        assert(t2[k] == taken[k]);
                        let t = choose|t: int| 0 <= t < init.len() && #[trigger] init[t]@ == (#[trigger] taken[k]).0@;
                        assert(hashes[t] == init[t]);
                    } else {
                        assert(hashes[hashes.len() - 1]@ == t2[k].0@);
                    }
                }
            },
            None => {
                assert forall|k: int| 0 <= k < taken.len() implies
                    exists|t: int| 0 <= t < hashes.len() && #[trigger] hashes[t]@ == (#[trigger] taken[k]).0@ by {
                    let t = choose|t: int| 0 <= t < init.len() && #[trigger] init[t]@ == (#[trigger] taken[k]).0@;
                    assert(hashes[t] == init[t]);
                }
            },
        }
    }
}

/// No receipt is lost, duplicated or invented: the receipts attached to the blocks and the
/// unused ones are, together, exactly the receipts passed in; and a receipt is attached to a
/// block only if the block lists its transaction hash.
pub proof fn lemma_receipts_accounted<B, L, R>(
    blocks: Seq<FetchedBlockView<B>>,
    logs: Seq<(Option<u64>, L)>,
    pool: Seq<([u8; 32], R)>,
)
    ensures
        attached_receipts(assembled(blocks, logs, pool)).to_multiset().add(unused_receipts(blocks, pool).to_multiset())
            == pool.to_multiset(),
        forall|i: int, k: int|
            0 <= i < blocks.len() && 0 <= k < assembled(blocks, logs, pool)[i].receipts.len() ==>
                lists_hash(blocks[i].tx_hashes, #[trigger] assembled(blocks, logs, pool)[i].receipts[k].0),
{
    lemma_receipts_conserved(blocks, logs, pool);
    assert forall|i: int, k: int|
        0 <= i < blocks.len() && 0 <= k < assembled(blocks, logs, pool)[i].receipts.len() implies
            lists_hash(blocks[i].tx_hashes, #[trigger] assembled(blocks, logs, pool)[i].receipts[k].0) by {
        lemma_receipt_belongs_to_its_block(blocks, logs, pool, i, k);
    }
}

/// Whether `hashes` lists the hash `h`.
pub open spec fn lists_hash(hashes: Seq<[u8; 32]>, h: [u8; 32]) -> bool {
    exists|t: int| 0 <= t < hashes.len() && #[trigger] hashes[t]@ == h@
}

proof fn lemma_receipts_conserved<B, L, R>(
    blocks: Seq<FetchedBlockView<B>>,
    logs: Seq<(Option<u64>, L)>,
    pool: Seq<([u8; 32], R)>,
)
    ensures
        attached_receipts(assembled(blocks, logs, pool)).to_multiset().add(unused_receipts(blocks, pool).to_multiset())
            == pool.to_multiset(),
    decreases blocks.len(),
{
    broadcast use vstd::seq_lib::lemma_multiset_commutative;

    if blocks.len() > 0 {
        let b = blocks[0];
        let (mine, other_logs) = split_logs(logs, b.number);
        let (taken, rest) = take_receipts(b.tx_hashes, pool);
        let tail = blocks.drop_first();
        let a = assembled(blocks, logs, pool);
        let at = assembled(tail, other_logs, rest);
        assert(a == seq![AssembledView { number: b.number, block: b.block, logs: mine, receipts: taken }] + at);
        assert(a.drop_first() =~= at);
        lemma_receipts_conserved(tail, other_logs, rest);
        lemma_take_receipts(b.tx_hashes, pool);
        assert(attached_receipts(a) == taken + attached_receipts(at));
        assert(attached_receipts(a).to_multiset().add(unused_receipts(blocks, pool).to_multiset())
            =~= taken.to_multiset().add(attached_receipts(at).to_multiset().add(unused_receipts(tail, rest).to_multiset())));
    }
}

/// A receipt is attached to a block only if the block lists its transaction hash.
pub proof fn lemma_receipt_belongs_to_its_block<B, L, R>(
    blocks: Seq<FetchedBlockView<B>>,
    logs: Seq<(Option<u64>, L)>,
    pool: Seq<([u8; 32], R)>,
    i: int,
    k: int,
)
    requires
        0 <= i < blocks.len(),
        0 <= k < assembled(blocks, logs, pool)[i].receipts.len(),
    ensures
        exists|t: int| 0 <= t < blocks[i].tx_hashes.len()
            && #[trigger] blocks[i].tx_hashes[t]@ == assembled(blocks, logs, pool)[i].receipts[k].0@,
    decreases blocks.len(),
{
    let b = blocks[0];
    let (mine, other_logs) = split_logs(logs, b.number);
    let (taken, rest) = take_receipts(b.tx_hashes, pool);
    let tail = blocks.drop_first();
    let a = assembled(blocks, logs, pool);
    let at = assembled(tail, other_logs, rest);
    assert(a == seq![AssembledView { number: b.number, block: b.block, logs: mine, receipts: taken }] + at);
    lemma_logs_go_to_first_block_of_their_number(blocks, logs, pool, i);
    if i == 0 {
        lemma_take_receipts(b.tx_hashes, pool);
        assert(a[0].receipts == taken);
        let t = choose|t: int| 0 <= t < b.tx_hashes.len() && #[trigger] b.tx_hashes[t]@ == (#[trigger] taken[k]).0@;
        assert(blocks[0].tx_hashes[t]@ == a[0].receipts[k].0@);
    } else {
        assert(a[i] == at[i - 1]);
        assert(tail[i - 1] == blocks[i]);
        lemma_receipt_belongs_to_its_block(tail, other_logs, rest, i - 1, k);
        let t = choose|t: int| 0 <= t < tail[i - 1].tx_hashes.len()
            && #[trigger] tail[i - 1].tx_hashes[t]@ == at[i - 1].receipts[k].0@;
        assert(blocks[i].tx_hashes[t]@ == a[i].receipts[k].0@);
    }
}

/// Whether a log carries block number `n`.
pub open spec fn numbered<L>(n: u64) -> spec_fn((Option<u64>, L)) -> bool {
    |l: (Option<u64>, L)| l.0 == Some(n)
}

/// The log itself, without its block number.
pub open spec fn payload<L>() -> spec_fn((Option<u64>, L)) -> L {
    |l: (Option<u64>, L)| l.1
}

/// The logs given to block `n` are all the logs numbered `n`, none dropped or added, in the
/// order they were fetched.
pub proof fn lemma_logs_numbered_are_all_logs_of_the_block<L>(logs: Seq<(Option<u64>, L)>, n: u64)
    ensures
        logs_numbered(logs, n) == logs.filter(numbered::<L>(n)).map_values(payload::<L>()),
        logs_numbered(logs, n).len() == logs.filter(numbered::<L>(n)).len(),
    decreases logs.len(),
{
    if logs.len() == 0 {
        reveal(Seq::filter);
        assert(logs.filter(numbered::<L>(n)).map_values(payload::<L>()) =~= Seq::<L>::empty());
    } else {
        let init = logs.drop_last();
        let last = logs.last();
        lemma_logs_numbered_are_all_logs_of_the_block(init, n);
        assert(init.push(last) =~= logs);
        init.lemma_filter_push(last, numbered::<L>(n));
        let f = init.filter(numbered::<L>(n));
        if last.0 == Some(n) {
            assert(f.push(last).map_values(payload::<L>()) =~= f.map_values(payload::<L>()).push(last.1));
        }
    }
}

/// Whether a block carries number `n`.
pub open spec fn has_number<B, L, R>(n: u64) -> spec_fn(AssembledView<B, L, R>) -> bool {
    |p: AssembledView<B, L, R>| p.number == n
}

proof fn lemma_filter_single<B, L, R>(x: AssembledView<B, L, R>, pred: spec_fn(AssembledView<B, L, R>) -> bool)
    ensures
        seq![x].filter(pred) == if pred(x) { seq![x] } else { Seq::<AssembledView<B, L, R>>::empty() },
{
    Seq::<AssembledView<B, L, R>>::empty().lemma_filter_push(x, pred);
    reveal(Seq::filter);
    assert(Seq::<AssembledView<B, L, R>>::empty().push(x) =~= seq![x]);
    assert(Seq::<AssembledView<B, L, R>>::empty().filter(pred) =~= Seq::<AssembledView<B, L, R>>::empty());
}

/// The sort is stable: the blocks of any one number come out in the order they went in.
pub proof fn lemma_sort_keeps_order_of_equal_numbers<B, L, R>(s: Seq<AssembledView<B, L, R>>, n: u64)
    ensures
        sorted_by_number(s).filter(has_number::<B, L, R>(n)) == s.filter(has_number::<B, L, R>(n)),
    decreases s.len(),
{
    if s.len() > 0 {
        let pred = has_number::<B, L, R>(n);
        let init = s.drop_last();
        let x = s.last();
        let t = sorted_by_number(init);
        lemma_sort_keeps_order_of_equal_numbers(init, n);
        lemma_sorted_by_number(init);
        let p = insertion_point(t, x.number);
        lemma_insertion_point_bounds(t, x.number);
        let u = t.insert(p, x);
        assert(u == sorted_by_number(s));
        let a = t.take(p);
        let b = t.skip(p);
        assert(u =~= a + seq![x] + b);
        assert(t =~= a + b);
        assert(init.push(x) =~= s);
        init.lemma_filter_push(x, pred);
        lemma_filter_single(x, pred);
        Seq::filter_distributes_over_add(a, seq![x], pred);
        Seq::filter_distributes_over_add(a + seq![x], b, pred);
        Seq::filter_distributes_over_add(a, b, pred);
        if x.number == n {
            assert forall|q: int| 0 <= q < b.len() implies !pred(#[trigger] b[q]) by {
                assert(b[q] == t[p + q]);
                assert(t[p].number > x.number);
                if q > 0 {
                    assert(t[p].number <= t[p + q].number);
                }
            }
            b.lemma_all_neg_filter_empty(pred);
            assert((a + seq![x]).filter(pred) == a.filter(pred) + seq![x].filter(pred));
            assert(u.filter(pred) == (a + seq![x]).filter(pred) + b.filter(pred));
            assert(t.filter(pred) == a.filter(pred) + b.filter(pred));
            assert(u.filter(pred) =~= t.filter(pred).push(x));
        } else {
            assert((a + seq![x]).filter(pred) == a.filter(pred) + seq![x].filter(pred));
            assert(u.filter(pred) == (a + seq![x]).filter(pred) + b.filter(pred));
            assert(t.filter(pred) == a.filter(pred) + b.filter(pred));
            assert(u.filter(pred) =~= t.filter(pred));
        }
    }
}

/// The transaction hashes of the blocks are all of them, block after block.
pub proof fn lemma_all_tx_hashes_are_every_block_hashes<B>(blocks: Seq<FetchedBlockView<B>>)
    ensures
        all_tx_hashes(blocks) == blocks.map_values(|b: FetchedBlockView<B>| b.tx_hashes).flatten_alt(),
    decreases blocks.len(),
{
    if blocks.len() > 0 {
        lemma_all_tx_hashes_are_every_block_hashes(blocks.drop_last());
        let m = blocks.map_values(|b: FetchedBlockView<B>| b.tx_hashes);
        assert(m.drop_last() =~= blocks.drop_last().map_values(|b: FetchedBlockView<B>| b.tx_hashes));
    } else {
        assert(blocks.map_values(|b: FetchedBlockView<B>| b.tx_hashes) =~= Seq::<Seq<[u8; 32]>>::empty());
    }
}

/// No two receipts carry the same transaction hash (as in a map keyed by hash).
pub open spec fn distinct_hashes<R>(pool: Seq<([u8; 32], R)>) -> bool {
    forall|a: int, b: int| 0 <= a < pool.len() && 0 <= b < pool.len() && a != b ==> #[trigger] pool[a].0@ != #[trigger] pool[b].0@
}

/// Every receipt of `sub` is one of `pool`.
pub open spec fn drawn_from<R>(sub: Seq<([u8; 32], R)>, pool: Seq<([u8; 32], R)>) -> bool {
    forall|q: int| 0 <= q < sub.len() ==> pool.contains(#[trigger] sub[q])
}

proof fn lemma_find_receipt_absent<R>(pool: Seq<([u8; 32], R)>, h: [u8; 32])
    ensures
        find_receipt(pool, h) is None ==> forall|q: int| 0 <= q < pool.len() ==> #[trigger] pool[q].0@ != h@,
    decreases pool.len(),
{
    if pool.len() > 0 && pool[0].0@ != h@ {
        lemma_find_receipt_absent(pool.drop_first(), h);
        if find_receipt(pool, h) is None {
            assert forall|q: int| 0 <= q < pool.len() implies #[trigger] pool[q].0@ != h@ by {
                if q > 0 {
                    assert(pool[q] == pool.drop_first()[q - 1]);
                }
            }
        }
    }
}

proof fn lemma_take_receipts_leaves_unlisted<R>(hashes: Seq<[u8; 32]>, pool: Seq<([u8; 32], R)>)
    requires
        distinct_hashes(pool),
    ensures
        distinct_hashes(take_receipts(hashes, pool).1),
        drawn_from(take_receipts(hashes, pool).1, pool),
        forall|q: int, t: int|
            0 <= q < take_receipts(hashes, pool).1.len() && 0 <= t < hashes.len()
                ==> #[trigger] take_receipts(hashes, pool).1[q].0@ != #[trigger] hashes[t]@,
    decreases hashes.len(),
{
    if hashes.len() == 0 {
        assert forall|q: int| 0 <= q < pool.len() implies pool.contains(#[trigger] pool[q]) by {
            assert(pool[q] == pool[q]);
        }
    } else {
        let init = hashes.drop_last();
        let h = hashes.last();
        lemma_take_receipts_leaves_unlisted(init, pool);
        let (taken, rest) = take_receipts(init, pool);
        lemma_find_receipt_found(rest, h);
        lemma_find_receipt_absent(rest, h);
        let out = take_receipts(hashes, pool).1;
        match find_receipt(rest, h) {
            Some(j) => {
                assert(out == rest.remove(j));
                assert forall|q: int| 0 <= q < out.len() implies pool.contains(#[trigger] out[q]) by {
                    let qq = if q < j { q } else { q + 1 };
                    assert(out[q] == rest[qq]);
                    assert(pool.contains(rest[qq]));
                }
                assert forall|a: int, b: int| 0 <= a < out.len() && 0 <= b < out.len() && a != b
                    implies #[trigger] out[a].0@ != #[trigger] out[b].0@ by {
                    let aa = if a < j { a } else { a + 1 };
                    let bb = if b < j { b } else { b + 1 };
                    assert(out[a] == rest[aa] && out[b] == rest[bb]);
                }
                assert forall|q: int, t: int| 0 <= q < out.len() && 0 <= t < hashes.len()
                    implies #[trigger] out[q].0@ != #[trigger] hashes[t]@ by {
                    let qq = if q < j { q } else { q + 1 };
                    assert(out[q] == rest[qq]);
                    if t < init.len() {
                        assert(hashes[t] == init[t]);
                    } else {
                        assert(rest[qq].0@ != rest[j].0@);
                    }
                }
            },
            None => {
                assert(out == rest);
                assert forall|q: int, t: int| 0 <= q < out.len() && 0 <= t < hashes.len()
                    implies #[trigger] out[q].0@ != #[trigger] hashes[t]@ by {
                    if t < init.len() {
                        assert(hashes[t] == init[t]);
                    }
                }
            },
        }
    }
}

/// When no two receipts share a hash, as with receipts keyed by hash, a receipt is left
/// unused only if no block lists its transaction hash.
pub proof fn lemma_unused_receipts_belong_to_no_block<B, R>(blocks: Seq<FetchedBlockView<B>>, pool: Seq<([u8; 32], R)>)
    requires
        distinct_hashes(pool),
    ensures
        forall|q: int, i: int|
            #![trigger unused_receipts(blocks, pool)[q], blocks[i]]
            0 <= q < unused_receipts(blocks, pool).len() && 0 <= i < blocks.len()
                ==> !lists_hash(blocks[i].tx_hashes, unused_receipts(blocks, pool)[q].0),
        distinct_hashes(unused_receipts(blocks, pool)),
        drawn_from(unused_receipts(blocks, pool), pool),
    decreases blocks.len(),
{
    if blocks.len() == 0 {
        assert forall|q: int| 0 <= q < pool.len() implies pool.contains(#[trigger] pool[q]) by {
            assert(pool[q] == pool[q]);
        }
    } else {
        let tail = blocks.drop_first();
        let rest = take_receipts(blocks[0].tx_hashes, pool).1;
        lemma_take_receipts_leaves_unlisted(blocks[0].tx_hashes, pool);
        lemma_unused_receipts_belong_to_no_block(tail, rest);
        let un = unused_receipts(blocks, pool);
        assert(un == unused_receipts(tail, rest));
        assert forall|q: int| 0 <= q < un.len() implies pool.contains(#[trigger] un[q]) by {
            assert(rest.contains(un[q]));
            let m1 = choose|m: int| 0 <= m < rest.len() && rest[m] == un[q];
            assert(pool.contains(rest[m1]));
        }
        assert forall|q: int, i: int|
            #![trigger un[q], blocks[i]]
            0 <= q < un.len() && 0 <= i < blocks.len() implies !lists_hash(blocks[i].tx_hashes, un[q].0) by {
            assert(rest.contains(un[q]));
            let m1 = choose|m: int| 0 <= m < rest.len() && rest[m] == un[q];
            if i == 0 {
                if lists_hash(blocks[0].tx_hashes, un[q].0) {
                    let t = choose|t: int| 0 <= t < blocks[0].tx_hashes.len() && #[trigger] blocks[0].tx_hashes[t]@ == un[q].0@;
                    assert(rest[m1].0@ != blocks[0].tx_hashes[t]@);
                }
            } else {
                assert(tail[i - 1] == blocks[i]);
                assert(!lists_hash(tail[i - 1].tx_hashes, unused_receipts(tail, rest)[q].0));
            }
        }
    }
}

/// The receipts `taken` are for hashes of `hashes`, in the order the hashes are listed.
pub open spec fn in_hash_order<R>(taken: Seq<([u8; 32], R)>, hashes: Seq<[u8; 32]>) -> bool {
    exists|pos: Seq<int>|
        {
            &&& #[trigger] pos.len() == taken.len()
            &&& forall|k: int| 0 <= k < taken.len() ==> 0 <= #[trigger] pos[k] < hashes.len() && hashes[pos[k]]@ == taken[k].0@
            &&& forall|k1: int, k2: int| 0 <= k1 < k2 < taken.len() ==> #[trigger] pos[k1] < #[trigger] pos[k2]
        }
}

proof fn lemma_take_receipts_in_hash_order<R>(hashes: Seq<[u8; 32]>, pool: Seq<([u8; 32], R)>)
    ensures
        in_hash_order(take_receipts(hashes, pool).0, hashes),
    decreases hashes.len(),
{
    if hashes.len() == 0 {
        let pos = Seq::<int>::empty();
        assert(pos.len() == take_receipts(hashes, pool).0.len());
    } else {
        let init = hashes.drop_last();
        let h = hashes.last();
        lemma_take_receipts_in_hash_order(init, pool);
        let (taken, rest) = take_receipts(init, pool);
        let pos0 = choose|pos: Seq<int>|
            {
                &&& #[trigger] pos.len() == taken.len()
                &&& forall|k: int| 0 <= k < taken.len() ==> 0 <= #[trigger] pos[k] < init.len() && init[pos[k]]@ == taken[k].0@
                &&& forall|k1: int, k2: int| 0 <= k1 < k2 < taken.len() ==> #[trigger] pos[k1] < #[trigger] pos[k2]
            };
        lemma_find_receipt_found(rest, h);
        let out = take_receipts(hashes, pool).0;
        match find_receipt(rest, h) {
            Some(j) => {
                let pos = pos0.push(hashes.len() - 1);
                assert(out == taken.push(rest[j]));
                assert forall|k: int| 0 <= k < out.len() implies 0 <= #[trigger] pos[k] < hashes.len() && hashes[pos[k]]@ == out[k].0@ by {
                    if k < taken.len() {
                        assert(pos[k] == pos0[k]);
                        assert(hashes[pos0[k]] == init[pos0[k]]);
                    }
                }
                assert forall|k1: int, k2: int| 0 <= k1 < k2 < out.len() implies #[trigger] pos[k1] < #[trigger] pos[k2] by {
                    assert(pos[k1] == pos0[k1]);
                    if k2 < taken.len() {
                        assert(pos[k2] == pos0[k2]);
                    }
                }
                assert(pos.len() == out.len());
            },
            None => {
                assert(out == taken);
                assert forall|k: int| 0 <= k < out.len() implies 0 <= #[trigger] pos0[k] < hashes.len() && hashes[pos0[k]]@ == out[k].0@ by {
                    assert(hashes[pos0[k]] == init[pos0[k]]);
                }
                assert(pos0.len() == out.len());
            },
        }
    }
}

/// Each block's receipts come in the order of the block's transaction hashes.
pub proof fn lemma_block_receipts_in_hash_order<B, L, R>(
    blocks: Seq<FetchedBlockView<B>>,
    logs: Seq<(Option<u64>, L)>,
    pool: Seq<([u8; 32], R)>,
    i: int,
)
    requires
        0 <= i < blocks.len(),
    ensures
        in_hash_order(assembled(blocks, logs, pool)[i].receipts, blocks[i].tx_hashes),
    decreases blocks.len(),
{
    let b = blocks[0];
    let (mine, other_logs) = split_logs(logs, b.number);
    let (taken, rest) = take_receipts(b.tx_hashes, pool);
    let tail = blocks.drop_first();
    let a = assembled(blocks, logs, pool);
    let at = assembled(tail, other_logs, rest);
    assert(a == seq![AssembledView { number: b.number, block: b.block, logs: mine, receipts: taken }] + at);
    lemma_logs_go_to_first_block_of_their_number(blocks, logs, pool, i);
    if i == 0 {
        lemma_take_receipts_in_hash_order(b.tx_hashes, pool);
        assert(a[0].receipts == taken);
    } else {
        assert(a[i] == at[i - 1]);
        assert(tail[i - 1] == blocks[i]);
        lemma_block_receipts_in_hash_order(tail, other_logs, rest, i - 1);
    }
}

} // verus!
