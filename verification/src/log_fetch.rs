//! The decisions of a chunked, adaptive log fetch over `from_block..=to_block`.
//!
//! The range is split into chunks of at most `chunk_size` blocks. Chunks are requested
//! in batches of at most `concurrency` ranges. A failed request for a range of two or
//! more blocks is halved and both halves are queued again, ahead of the chunks still
//! pending; a failed single-block request ends the fetch with its error. With
//! `chunk_size == 0` the whole range is one request and any failure ends the fetch.
//!
//! The caller performs the requests: it takes a batch with [`LogFetchPlan::take_batch`],
//! issues one request per range, and hands every outcome, tagged with its range and in
//! the order the outcomes arrived, to [`LogFetchPlan::absorb`].
use vstd::prelude::*;

use crate::block_fetcher::{chunk_range, chunk_range_spec, halve_range, halves, lemma_chunk_range_partition, lemma_halves_partition};
use crate::coverage::{blocks_hit, hit, lemma_sum_at_least_element, lemma_sum_concat, lemma_sum_permutation, lemma_sum_remove, lemma_sum_single, partitions, sum_over};

verus! {

broadcast use vstd::seq::group_seq_axioms, vstd::seq_lib::group_seq_properties,
    vstd::multiset::group_multiset_axioms;

/// What a [`LogFetchPlan`] stands for.
pub struct LogFetchView<L> {
    /// First block of the whole range.
    pub from: int,
    /// Last block of the whole range.
    pub to: int,
    /// Whether rejected ranges are halved (`chunk_size > 0`).
    pub adaptive: bool,
    /// Largest number of ranges requested in one batch.
    pub concurrency: int,
    /// Ranges still to request, in the order they will be requested.
    pub pending: Seq<(u64, u64)>,
    /// Ranges of the batch taken last and not yet absorbed.
    pub in_flight: Seq<(u64, u64)>,
    /// Ranges whose logs were gathered, in the order they were gathered.
    pub fetched: Seq<(u64, u64)>,
    /// The logs gathered so far.
    pub logs: Seq<L>,
    /// Number of ranges handed out for requesting so far.
    pub requested: int,
}

/// All ranges the plan accounts for: fetched, in flight and pending.
pub open spec fn all_ranges<L>(v: LogFetchView<L>) -> Seq<(u64, u64)> {
    v.fetched + v.in_flight + v.pending
}

/// The plan's invariant: its ranges hold every block of `from..=to` exactly once; when
/// halving, no range is empty; without halving, there is exactly one range.
pub open spec fn plan_wf<L>(v: LogFetchView<L>) -> bool {
    &&& v.concurrency >= 1
    &&& partitions(all_ranges(v), v.from, v.to)
    &&& v.adaptive ==> forall|i: int|
        0 <= i < all_ranges(v).len() ==> #[trigger] all_ranges(v)[i].0 <= all_ranges(v)[i].1
    &&& !v.adaptive ==> all_ranges(v).len() == 1
    &&& v.adaptive ==> v.requested - v.in_flight.len() + remaining_work(v) <= request_bound(v)
    &&& !v.adaptive ==> v.requested + v.pending.len() <= 1
}

/// The most requests a fetch can make: `2 * n - 1` for a range of `n` blocks when halving,
/// one without chunking.
pub open spec fn request_bound<L>(v: LogFetchView<L>) -> int {
    if !v.adaptive {
        1
    } else if v.from <= v.to {
        2 * (v.to - v.from) + 1
    } else {
        0
    }
}

/// The number of requests that a range can still cost: `2 * blocks - 1`.
pub open spec fn range_cost(r: (u64, u64)) -> int {
    if r.0 <= r.1 {
        2 * (r.1 - r.0) + 1
    } else {
        1
    }
}

pub open spec fn cost_fn() -> spec_fn((u64, u64)) -> int {
    |r: (u64, u64)| range_cost(r)
}

/// An upper bound on the requests still to be made: the sum of `range_cost` over the
/// ranges in flight and pending.
pub open spec fn remaining_work<L>(v: LogFetchView<L>) -> int {
    sum_over(v.in_flight + v.pending, cost_fn())
}

/// Whether an outcome ends the fetch: a failure that is not halved.
pub open spec fn is_fatal<L, E>(o: ((u64, u64), Result<Vec<L>, E>), adaptive: bool) -> bool {
    match o.1 {
        Ok(_) => false,
        Err(_) => !adaptive || o.0.0 == o.0.1,
    }
}

pub open spec fn no_fatal<L, E>(os: Seq<((u64, u64), Result<Vec<L>, E>)>, adaptive: bool) -> bool {
    forall|i: int| 0 <= i < os.len() ==> !#[trigger] is_fatal(os[i], adaptive)
}

/// The ranges that the outcomes answer, in order.
pub open spec fn outcome_ranges<L, E>(os: Seq<((u64, u64), Result<Vec<L>, E>)>) -> Seq<(u64, u64)> {
    os.map_values(|o: ((u64, u64), Result<Vec<L>, E>)| o.0)
}

/// The halves of the failed ranges, in the order of the outcomes.
pub open spec fn retries<L, E>(os: Seq<((u64, u64), Result<Vec<L>, E>)>) -> Seq<(u64, u64)>
    decreases os.len(),
{
    if os.len() == 0 {
        Seq::empty()
    } else {
        retries(os.drop_last()) + match os.last().1 {
            Ok(_) => Seq::empty(),
            Err(_) => halves(os.last().0),
        }
    }
}

/// The ranges that were answered with logs, in the order of the outcomes.
pub open spec fn succeeded<L, E>(os: Seq<((u64, u64), Result<Vec<L>, E>)>) -> Seq<(u64, u64)>
    decreases os.len(),
{
    if os.len() == 0 {
        Seq::empty()
    } else {
        succeeded(os.drop_last()) + match os.last().1 {
            Ok(_) => seq![os.last().0],
            Err(_) => Seq::empty(),
        }
    }
}

/// The logs of the successful outcomes, concatenated in the order of the outcomes.
pub open spec fn gathered<L, E>(os: Seq<((u64, u64), Result<Vec<L>, E>)>) -> Seq<L>
    decreases os.len(),
{
    if os.len() == 0 {
        Seq::empty()
    } else {
        gathered(os.drop_last()) + match os.last().1 {
            Ok(v) => v@,
            Err(_) => Seq::empty(),
        }
    }
}

/// The plan after a batch was answered by `os` with no fatal outcome: the halves of the
/// failed ranges are queued ahead of the pending ranges, and the logs of the successful
/// ones are appended.
pub open spec fn absorbed<L, E>(v: LogFetchView<L>, os: Seq<((u64, u64), Result<Vec<L>, E>)>) -> LogFetchView<L> {
    LogFetchView {
        pending: retries(os) + v.pending,
        in_flight: Seq::empty(),
        fetched: v.fetched + succeeded(os),
        logs: v.logs + gathered(os),
        ..v
    }
}

/// The ranges answered by the outcomes are those of the batch, each exactly once.
pub open spec fn answers_batch(batch: Seq<(u64, u64)>, ranges: Seq<(u64, u64)>) -> bool {
    &&& batch.no_duplicates()
    &&& ranges.no_duplicates()
    &&& forall|x: (u64, u64)| batch.contains(x) <==> ranges.contains(x)
}

/// The state of a chunked, adaptive log fetch.
pub struct LogFetchPlan<L> {
    adaptive: bool,
    concurrency: usize,
    pending: Vec<(u64, u64)>,
    in_flight: Vec<(u64, u64)>,
    logs: Vec<L>,
    span: Ghost<(int, int)>,
    fetched: Ghost<Seq<(u64, u64)>>,
    requested: Ghost<int>,
}

impl<L> View for LogFetchPlan<L> {
    type V = LogFetchView<L>;

    closed spec fn view(&self) -> LogFetchView<L> {
        LogFetchView {
            from: self.span@.0,
            to: self.span@.1,
            adaptive: self.adaptive,
            concurrency: self.concurrency as int,
            pending: self.pending@,
            in_flight: self.in_flight@,
            fetched: self.fetched@,
            logs: self.logs@,
            requested: self.requested@,
        }
    }
}

impl<L> LogFetchPlan<L> {
    /// Starts the fetch of the logs of `from_block..=to_block`, split into chunks of at most
    /// `chunk_size` blocks (one request for the whole range when `chunk_size == 0`), at most
    /// `max(concurrency, 1)` requests per batch.
    pub fn new(from_block: u64, to_block: u64, chunk_size: u64, concurrency: usize) -> (plan: Self)
        ensures
            plan@.from == from_block,
            plan@.to == to_block,
            plan@.adaptive == (chunk_size > 0),
            plan@.concurrency == if concurrency == 0 { 1 } else { concurrency as int },
            plan@.pending == if chunk_size == 0 {
                seq![(from_block, to_block)]
            } else {
                chunk_range_spec(from_block, to_block, chunk_size)
            },
            plan@.in_flight.len() == 0,
            plan@.fetched.len() == 0,
            plan@.logs.len() == 0,
            plan@.requested == 0,
            plan_wf(plan@),
            chunk_size > 0 && from_block <= to_block ==> remaining_work(plan@) <= 2 * (to_block - from_block) + 1,
    {
        let concurrency = if concurrency == 0 { 1 } else { concurrency };
        let mut pending: Vec<(u64, u64)> = Vec::new();
        if chunk_size == 0 {
            pending.push((from_block, to_block));
        } else {
            pending = chunk_range(from_block, to_block, chunk_size);
        }
        let plan = LogFetchPlan {
            adaptive: chunk_size > 0,
            concurrency,
            pending,
            in_flight: Vec::new(),
            logs: Vec::new(),
            span: Ghost((from_block as int, to_block as int)),
            fetched: Ghost(Seq::empty()),
            requested: Ghost(0),
        };
        proof {
            let v = plan@;
            assert(all_ranges(v) =~= v.pending);
            assert(v.in_flight + v.pending =~= v.pending);
            if chunk_size == 0 {
                assert forall|b: int| #[trigger] blocks_hit(all_ranges(v), b)
                    == if v.from <= b <= v.to { 1int } else { 0int } by {
                    lemma_sum_single((from_block, to_block), hit(b));
                }
            } else {
                lemma_chunk_range_partition(from_block, to_block, chunk_size);
                if from_block <= to_block {
                    lemma_chunks_cost(v.pending);
                }
            }
        }
        plan
    }

    /// Whether every range has been answered.
    pub fn is_done(&self) -> (done: bool)
        ensures
            done == (self@.pending.len() == 0 && self@.in_flight.len() == 0),
    {
        self.pending.len() == 0 && self.in_flight.len() == 0
    }

    /// The number of ranges still to request.
    pub fn pending_len(&self) -> (n: usize)
        ensures
            n == self@.pending.len(),
    {
        self.pending.len()
    }

    /// The largest number of ranges requested in one batch.
    pub fn concurrency(&self) -> (n: usize)
        ensures
            n == self@.concurrency,
    {
        self.concurrency
    }

    /// Takes the next batch: the first `min(concurrency, pending)` pending ranges, which are
    /// in flight until [`LogFetchPlan::absorb`] hands back their outcomes.
    pub fn take_batch(&mut self) -> (batch: Vec<(u64, u64)>)
        requires
            plan_wf(old(self)@),
            old(self)@.in_flight.len() == 0,
        ensures
            ({
                let n = if old(self)@.concurrency <= old(self)@.pending.len() {
                    old(self)@.concurrency
                } else {
                    old(self)@.pending.len() as int
                };
                &&& batch@ == old(self)@.pending.take(n)
                &&& final(self)@ == LogFetchView {
                    pending: old(self)@.pending.skip(n),
                    in_flight: batch@,
                    requested: old(self)@.requested + n,
                    ..old(self)@
                }
            }),
            plan_wf(final(self)@),
            remaining_work(final(self)@) == remaining_work(old(self)@),
            old(self)@.pending.len() > 0 ==> batch@.len() > 0,
    {
        let ghost old_view = self@;
        let n: usize = if self.concurrency <= self.pending.len() {
            self.concurrency
        } else {
            self.pending.len()
        };
        let rest = self.pending.split_off(n);
        let mut batch: Vec<(u64, u64)> = Vec::new();
        let mut i: usize = 0;
        while i < n
            invariant
                i <= n,
                n == self.pending@.len(),
                batch@ == self.pending@.take(i as int),
            decreases n - i,
        {
            batch.push(self.pending[i]);
            i = i + 1;
        }
        assert(self.pending@.take(n as int) =~= self.pending@);
        self.in_flight = self.pending.split_off(0);
        self.pending = rest;
        proof {
            self.requested@ = self.requested@ + n;
        }
        proof {
            assert(old_view.pending =~= old_view.pending.take(n as int) + old_view.pending.skip(n as int));
            assert(all_ranges(self@) =~= all_ranges(old_view));
            assert(self@.in_flight + self@.pending =~= old_view.in_flight + old_view.pending);
        }
        batch
    }

    /// Whether `outcomes` answer the batch in flight: each of its ranges exactly once.
    pub fn outcomes_answer_batch<E>(&self, outcomes: &Vec<((u64, u64), Result<Vec<L>, E>)>) -> (ok: bool)
        ensures
            ok == answers_batch(self@.in_flight, outcome_ranges(outcomes@)),
            ok ==> outcome_ranges(outcomes@).to_multiset() == self@.in_flight.to_multiset(),
    {
        let ghost ranges = outcome_ranges(outcomes@);
        let mut ranges_v: Vec<(u64, u64)> = Vec::new();
        let mut i: usize = 0;
        while i < outcomes.len()
            invariant
                i <= outcomes@.len(),
                ranges == outcome_ranges(outcomes@),
                ranges_v@ == ranges.take(i as int),
            decreases outcomes@.len() - i,
        {
            ranges_v.push(outcomes[i].0);
            i = i + 1;
        }
        assert(ranges_v@ =~= ranges);
        let ok = distinct(&self.in_flight) && distinct(&ranges_v) && all_in(&self.in_flight, &ranges_v)
            && all_in(&ranges_v, &self.in_flight);
        proof {
            if ok {
                lemma_same_distinct_multiset(self@.in_flight, ranges);
            }
        }
        ok
    }

    /// Hands back the outcomes of the batch in flight, in the order they arrived.
    ///
    /// The first fatal outcome (a failure of a single-block range, or any failure when not
    /// halving) ends the fetch with its error. Otherwise the logs of each successful outcome
    /// are appended in order, each failed range is replaced by its two halves, and these
    /// halves are queued ahead of the pending ranges.
    pub fn absorb<E>(self, outcomes: Vec<((u64, u64), Result<Vec<L>, E>)>) -> (r: Result<Self, E>)
        requires
            plan_wf(self@),
            outcome_ranges(outcomes@).to_multiset() == self@.in_flight.to_multiset(),
        ensures
            r is Err <==> exists|i: int| 0 <= i < outcomes@.len() && #[trigger] is_fatal(outcomes@[i], self@.adaptive),
            r matches Err(e) ==> exists|i: int|
                0 <= i < outcomes@.len() && #[trigger] is_fatal(outcomes@[i], self@.adaptive)
                    && outcomes@[i].1 == Err::<Vec<L>, E>(e)
                    && no_fatal(outcomes@.take(i), self@.adaptive),
            r matches Ok(p) ==> {
                &&& p@ == absorbed(self@, outcomes@)
                &&& plan_wf(p@)
                &&& remaining_work(p@) + outcomes@.len() <= remaining_work(self@)
            },
            r is Err <==> exists|i: int|
                0 <= i < outcomes@.len() && #[trigger] outcomes@[i].1 is Err
                    && (!self@.adaptive || outcomes@[i].0.0 == outcomes@[i].0.1),
            r matches Err(e) ==> exists|i: int|
                0 <= i < outcomes@.len() && #[trigger] outcomes@[i].1 == Err::<Vec<L>, E>(e)
                    && (!self@.adaptive || outcomes@[i].0.0 == outcomes@[i].0.1)
                    && forall|j: int| 0 <= j < i ==> !(#[trigger] outcomes@[j].1 is Err
                        && (!self@.adaptive || outcomes@[j].0.0 == outcomes@[j].0.1)),
            r matches Ok(p) ==> {
                let failed = failed_ranges(outcomes@);
                &&& p@.pending.len() == 2 * failed.len() + self@.pending.len()
                &&& forall|j: int| 0 <= j < failed.len() ==> {
                    let f = #[trigger] failed[j];
                    &&& p@.pending[2 * j] == (f.0, (f.0 + (f.1 - f.0) / 2) as u64)
                    &&& p@.pending[2 * j + 1] == ((f.0 + (f.1 - f.0) / 2 + 1) as u64, f.1)
                }
                &&& forall|k: int| 0 <= k < self@.pending.len() ==>
                    p@.pending[2 * failed.len() + k] == #[trigger] self@.pending[k]
                &&& p@.fetched == self@.fetched + answered_ranges(outcomes@)
                &&& p@.logs == self@.logs + outcomes@.filter(is_success::<L, E>()).map_values(logs_of::<L, E>()).flatten_alt()
                &&& p@.in_flight.len() == 0
            },
    {
        let ghost os = outcomes@;
        let ghost v0 = self@;
        proof {
            lemma_outcomes_in_batch(v0, os);
        }
        let mut plan = self;
        let mut rest = outcomes;
        let mut retry: Vec<(u64, u64)> = Vec::new();
        let ghost mut k: int = 0;
        while rest.len() > 0
            invariant
                0 <= k <= os.len(),
                os == outcomes@,
                v0 == self@,
                rest@ == os.skip(k),
                plan.adaptive == v0.adaptive,
                v0.adaptive ==> forall|j: int| 0 <= j < os.len() ==> #[trigger] os[j].0.0 <= os[j].0.1,
                retry@ == retries(os.take(k)),
                plan@ == (LogFetchView {
                    fetched: v0.fetched + succeeded(os.take(k)),
                    logs: v0.logs + gathered(os.take(k)),
                    ..v0
                }),
                no_fatal(os.take(k), v0.adaptive),
            decreases rest@.len(),
        {
            let ghost prefix = os.take(k);
            assert(os.take(k + 1).drop_last() =~= prefix);
            assert(os.take(k + 1).last() == os[k]);
            let (range, result) = rest.remove(0);
            match result {
                Ok(mut chunk_logs) => {
                    plan.logs.append(&mut chunk_logs);
                    proof {
                        plan.fetched@ = plan.fetched@.push(range);
                        assert(v0.logs + gathered(prefix) + os[k].1->Ok_0@ =~= v0.logs + gathered(os.take(k + 1)));
                        assert(v0.fetched + succeeded(prefix) + seq![range] =~= v0.fetched + succeeded(os.take(k + 1)));
                        assert(plan.fetched@ =~= v0.fetched + succeeded(os.take(k + 1)));
                    }
                },
                Err(e) => {
                    if !plan.adaptive || range.0 == range.1 {
                        proof {
                            assert(is_fatal(os[k], v0.adaptive));
                            assert(os.take(k) =~= prefix);
                            assert forall|j: int| 0 <= j < k implies !(#[trigger] os[j].1 is Err
                                && (!v0.adaptive || os[j].0.0 == os[j].0.1)) by {
                                assert(!is_fatal(prefix[j], v0.adaptive));
                            }
                        }
                        return Err(e);
                    }
                    let parts = halve_range(range);
                    retry.push(parts[0]);
                    retry.push(parts[1]);
                    proof {
                        assert(retry@ =~= retries(os.take(k + 1)));
                        assert(v0.fetched + succeeded(prefix) =~= v0.fetched + succeeded(os.take(k + 1)));
                        assert(v0.logs + gathered(prefix) =~= v0.logs + gathered(os.take(k + 1)));
                    }
                },
            }
            proof {
                assert forall|j: int| 0 <= j < k + 1 implies !#[trigger] is_fatal(os.take(k + 1)[j], v0.adaptive) by {
                    if j < k {
                        assert(os.take(k + 1)[j] == prefix[j]);
                    }
                }
                k = k + 1;
            }
        }
        assert(os.take(k) =~= os);
        retry.append(&mut plan.pending);
        plan.pending = retry;
        plan.in_flight = Vec::new();
        proof {
            assert(plan@ =~= absorbed(v0, os));
            lemma_absorb_keeps_invariant(v0, os);
            lemma_retries_are_halves_of_failures(os);
            lemma_gathered_are_the_successful_logs(os);
            let failed = failed_ranges(os);
            assert forall|k: int| 0 <= k < v0.pending.len() implies
                plan@.pending[2 * failed.len() + k] == #[trigger] v0.pending[k] by {
                assert(plan@.pending == retries(os) + v0.pending);
            }
            assert forall|i: int| 0 <= i < os.len() && #[trigger] os[i].1 is Err
                implies !(!v0.adaptive || os[i].0.0 == os[i].0.1) by {
                assert(!is_fatal(os.take(k)[i], v0.adaptive));
            }
        }
        Ok(plan)
    }

    /// The gathered logs; the whole fetch is complete when [`LogFetchPlan::is_done`].
    pub fn into_logs(self) -> (logs: Vec<L>)
        ensures
            logs@ == self@.logs,
    {
        self.logs
    }
}

fn distinct(s: &Vec<(u64, u64)>) -> (r: bool)
    ensures
        r == s@.no_duplicates(),
{
    let mut i: usize = 0;
    while i < s.len()
        invariant
            i <= s@.len(),
            forall|a: int, b: int| 0 <= a < b < s@.len() && a < i ==> s@[a] != s@[b],
        decreases s@.len() - i,
    {
        let mut j: usize = i + 1;
        while j < s.len()
            invariant
                i < j <= s@.len(),
                i < s@.len(),
                forall|a: int, b: int| 0 <= a < b < s@.len() && a < i ==> s@[a] != s@[b],
                forall|b: int| i < b < j ==> s@[i as int] != s@[b],
            decreases s@.len() - j,
        {
            if s[i].0 == s[j].0 && s[i].1 == s[j].1 {
                return false;
            }
            j = j + 1;
        }
        i = i + 1;
    }
    true
}

fn all_in(a: &Vec<(u64, u64)>, b: &Vec<(u64, u64)>) -> (r: bool)
    ensures
        r == forall|x: (u64, u64)| a@.contains(x) ==> b@.contains(x),
{
    let mut i: usize = 0;
    while i < a.len()
        invariant
            i <= a@.len(),
            forall|k: int| 0 <= k < i ==> b@.contains(#[trigger] a@[k]),
        decreases a@.len() - i,
    {
        let mut j: usize = 0;
        let mut found = false;
        while j < b.len()
            invariant
                j <= b@.len(),
                i < a@.len(),
                found ==> b@.contains(a@[i as int]),
                !found ==> forall|m: int| 0 <= m < j ==> b@[m] != a@[i as int],
            decreases b@.len() - j,
        {
            if b[j].0 == a[i].0 && b[j].1 == a[i].1 {
                found = true;
            }
            j = j + 1;
        }
        if !found {
            assert(a@.contains(a@[i as int]));
            assert(!b@.contains(a@[i as int]));
            return false;
        }
        i = i + 1;
    }
    true
}

proof fn lemma_same_distinct_multiset(a: Seq<(u64, u64)>, b: Seq<(u64, u64)>)
    requires
        answers_batch(a, b),
    ensures
        b.to_multiset() == a.to_multiset(),
{
    broadcast use vstd::seq_lib::group_to_multiset_ensures;

    a.lemma_multiset_has_no_duplicates();
    b.lemma_multiset_has_no_duplicates();
    assert forall|x: (u64, u64)| #[trigger] b.to_multiset().count(x) == a.to_multiset().count(x) by {
        if a.contains(x) {
            assert(b.contains(x));
        }
    }
    assert(b.to_multiset() =~= a.to_multiset());
}

/// Every outcome answers a range of the batch, so no outcome range is empty when halving.
proof fn lemma_outcomes_in_batch<L, E>(v: LogFetchView<L>, os: Seq<((u64, u64), Result<Vec<L>, E>)>)
    requires
        plan_wf(v),
        outcome_ranges(os).to_multiset() == v.in_flight.to_multiset(),
    ensures
        v.adaptive ==> forall|j: int| 0 <= j < os.len() ==> #[trigger] os[j].0.0 <= os[j].0.1,
{
    broadcast use vstd::seq_lib::group_to_multiset_ensures;

    if v.adaptive {
        assert forall|j: int| 0 <= j < os.len() implies #[trigger] os[j].0.0 <= os[j].0.1 by {
            let r = os[j].0;
            assert(outcome_ranges(os)[j] == r);
            assert(outcome_ranges(os).to_multiset().count(r) > 0);
            assert(v.in_flight.contains(r));
            let m = v.in_flight.index_of(r);
            assert(all_ranges(v)[v.fetched.len() + m] == r);
        }
    }
}

proof fn lemma_outcome_ranges_drop_last<L, E>(os: Seq<((u64, u64), Result<Vec<L>, E>)>)
    requires
        os.len() > 0,
    ensures
        outcome_ranges(os) == outcome_ranges(os.drop_last()).push(os.last().0),
        outcome_ranges(os).drop_last() == outcome_ranges(os.drop_last()),
        outcome_ranges(os).last() == os.last().0,
{
    assert(outcome_ranges(os) =~= outcome_ranges(os.drop_last()).push(os.last().0));
}

/// Answering a batch without a fatal outcome moves each answered block from the batch to
/// the fetched ranges (on success) or to the retries (on failure), and lowers the work.
proof fn lemma_outcomes_account<L, E>(os: Seq<((u64, u64), Result<Vec<L>, E>)>, adaptive: bool)
    requires
        no_fatal(os, adaptive),
        adaptive ==> forall|j: int| 0 <= j < os.len() ==> #[trigger] os[j].0.0 <= os[j].0.1,
    ensures
        forall|b: int| #[trigger] blocks_hit(succeeded(os), b) + blocks_hit(retries(os), b)
            == blocks_hit(outcome_ranges(os), b),
        sum_over(retries(os), cost_fn()) + os.len() <= sum_over(outcome_ranges(os), cost_fn()),
        adaptive ==> forall|j: int| 0 <= j < (succeeded(os) + retries(os)).len()
            ==> #[trigger] (succeeded(os) + retries(os))[j].0 <= (succeeded(os) + retries(os))[j].1,
        !adaptive ==> succeeded(os).len() == os.len() && retries(os).len() == 0,
    decreases os.len(),
{
    if os.len() > 0 {
        let init = os.drop_last();
        let last = os.last();
        assert forall|i: int| 0 <= i < init.len() implies !#[trigger] is_fatal(init[i], adaptive) by {
            assert(init[i] == os[i]);
        }
        assert(!is_fatal(os[os.len() - 1], adaptive));
        lemma_outcomes_account(init, adaptive);
        lemma_outcome_ranges_drop_last(os);
        let r = last.0;
        match last.1 {
            Ok(_) => {
                assert(retries(os) == retries(init) + Seq::<(u64, u64)>::empty());
                assert(retries(os) =~= retries(init));
                assert(succeeded(os) == succeeded(init) + seq![r]);
                assert forall|b: int| #[trigger] blocks_hit(succeeded(os), b) + blocks_hit(retries(os), b)
                    == blocks_hit(outcome_ranges(os), b) by {
                    lemma_sum_concat(succeeded(init), seq![r], hit(b));
                    lemma_sum_single(r, hit(b));
                    assert(blocks_hit(succeeded(init), b) + blocks_hit(retries(init), b)
                        == blocks_hit(outcome_ranges(init), b));
                }
                assert(sum_over(outcome_ranges(os), cost_fn()) == sum_over(outcome_ranges(init), cost_fn()) + range_cost(r));
                if adaptive {
                    assert forall|j: int| 0 <= j < (succeeded(os) + retries(os)).len()
                        implies #[trigger] (succeeded(os) + retries(os))[j].0 <= (succeeded(os) + retries(os))[j].1 by {
                        let n = succeeded(init).len();
                        if j < n {
                            assert((succeeded(os) + retries(os))[j] == (succeeded(init) + retries(init))[j]);
                        } else if j == n {
                            assert((succeeded(os) + retries(os))[j] == r);
                            assert(r == os[os.len() - 1].0);
                        } else {
                            assert((succeeded(os) + retries(os))[j] == (succeeded(init) + retries(init))[j - 1]);
                        }
                    }
                }
            },
            Err(_) => {
                assert(adaptive && r.0 != r.1);
                assert(r == os[os.len() - 1].0);
                assert(r.0 < r.1);
                lemma_halves_partition(r);
                assert(succeeded(os) == succeeded(init) + Seq::<(u64, u64)>::empty());
                assert(succeeded(os) =~= succeeded(init));
                assert(retries(os) == retries(init) + halves(r));
                assert forall|b: int| #[trigger] blocks_hit(succeeded(os), b) + blocks_hit(retries(os), b)
                    == blocks_hit(outcome_ranges(os), b) by {
                    lemma_sum_concat(retries(init), halves(r), hit(b));
                    assert(blocks_hit(succeeded(init), b) + blocks_hit(retries(init), b)
                        == blocks_hit(outcome_ranges(init), b));
                    assert(blocks_hit(halves(r), b) == hit(b)(r));
                }
                lemma_sum_concat(retries(init), halves(r), cost_fn());
                let h = halves(r);
                assert(h.drop_last() =~= seq![h[0]]);
                lemma_sum_single(h[0], cost_fn());
                assert(sum_over(h, cost_fn()) == range_cost(h[0]) + range_cost(h[1]));
                assert forall|j: int| 0 <= j < (succeeded(os) + retries(os)).len()
                    implies #[trigger] (succeeded(os) + retries(os))[j].0 <= (succeeded(os) + retries(os))[j].1 by {
                    let n = (succeeded(init) + retries(init)).len();
                    if j < n {
                        assert((succeeded(os) + retries(os))[j] == (succeeded(init) + retries(init))[j]);
                    } else {
                        assert((succeeded(os) + retries(os))[j] == h[j - n]);
                    }
                }
            },
        }
    }
}

proof fn lemma_absorb_keeps_invariant<L, E>(v: LogFetchView<L>, os: Seq<((u64, u64), Result<Vec<L>, E>)>)
    requires
        plan_wf(v),
        outcome_ranges(os).to_multiset() == v.in_flight.to_multiset(),
        no_fatal(os, v.adaptive),
    ensures
        plan_wf(absorbed(v, os)),
        remaining_work(absorbed(v, os)) + os.len() <= remaining_work(v),
{
    broadcast use vstd::seq_lib::group_to_multiset_ensures;

    lemma_outcomes_in_batch(v, os);
    lemma_outcomes_account(os, v.adaptive);
    let w = absorbed(v, os);
    let s = succeeded(os);
    let rt = retries(os);
    assert(all_ranges(w) =~= (v.fetched + s) + (rt + v.pending));
    assert(all_ranges(w) =~= v.fetched + (s + rt) + v.pending);
    assert forall|b: int| #[trigger] blocks_hit(all_ranges(w), b)
        == if w.from <= b <= w.to { 1int } else { 0int } by {
        lemma_sum_concat(v.fetched + (s + rt), v.pending, hit(b));
        lemma_sum_concat(v.fetched, s + rt, hit(b));
        lemma_sum_concat(s, rt, hit(b));
        lemma_sum_concat(v.fetched + v.in_flight, v.pending, hit(b));
        lemma_sum_concat(v.fetched, v.in_flight, hit(b));
        lemma_sum_permutation(outcome_ranges(os), v.in_flight, hit(b));
        assert(blocks_hit(all_ranges(v), b) == if v.from <= b <= v.to { 1int } else { 0int });
        assert(blocks_hit(s, b) + blocks_hit(rt, b) == blocks_hit(outcome_ranges(os), b));
        assert(all_ranges(v) == v.fetched + v.in_flight + v.pending);
    }
    if v.adaptive {
        assert forall|i: int| 0 <= i < all_ranges(w).len() implies #[trigger] all_ranges(w)[i].0 <= all_ranges(w)[i].1 by {
            let nf = v.fetched.len();
            let nm = (s + rt).len();
            if i < nf {
                assert(all_ranges(w)[i] == all_ranges(v)[i]);
            } else if i < nf + nm {
                assert(all_ranges(w)[i] == (s + rt)[i - nf]);
            } else {
                assert(all_ranges(w)[i] == all_ranges(v)[i - nm + v.in_flight.len()]);
            }
        }
    } else {
        assert(outcome_ranges(os).len() == os.len());
        assert(v.in_flight.to_multiset().len() == v.in_flight.len());
    }
    assert(outcome_ranges(os).len() == os.len());
    assert(v.in_flight.len() == outcome_ranges(os).to_multiset().len());
    if !v.adaptive {
        assert(rt.len() == 0);
        assert(w.pending =~= v.pending);
    }
    lemma_sum_concat(rt, v.pending, cost_fn());
    lemma_sum_concat(v.in_flight, v.pending, cost_fn());
    lemma_sum_permutation(outcome_ranges(os), v.in_flight, cost_fn());
    assert(w.in_flight + w.pending =~= rt + v.pending);
}

/// No range occurs twice in a plan: its ranges are non-empty and hold each block once.
pub proof fn lemma_plan_ranges_distinct<L>(v: LogFetchView<L>)
    requires
        plan_wf(v),
    ensures
        all_ranges(v).no_duplicates(),
        v.in_flight.no_duplicates(),
{
    let all = all_ranges(v);
    assert forall|i: int, j: int| 0 <= i < all.len() && 0 <= j < all.len() && i != j implies all[i] != all[j] by {
        if all[i] == all[j] {
            let (a, c) = if i < j { (i, j) } else { (j, i) };
            let b = all[a].0 as int;
            assert(all[a].0 <= all[a].1);
            lemma_sum_remove(all, c, hit(b));
            assert(all.remove(c)[a] == all[a]);
            lemma_sum_at_least_element(all.remove(c), a, hit(b));
            assert(blocks_hit(all, b) >= 2);
        }
    }
    assert forall|i: int, j: int| 0 <= i < v.in_flight.len() && 0 <= j < v.in_flight.len() && i != j
        implies v.in_flight[i] != v.in_flight[j] by {
        let n = v.fetched.len();
        assert(all[n + i] == v.in_flight[i]);
        assert(all[n + j] == v.in_flight[j]);
    }
}

/// Outcomes that answer the batch of a well-formed plan in any order pass
/// [`LogFetchPlan::outcomes_answer_batch`].
pub proof fn lemma_any_order_answers_batch<L>(v: LogFetchView<L>, ranges: Seq<(u64, u64)>)
    requires
        plan_wf(v),
        ranges.to_multiset() == v.in_flight.to_multiset(),
    ensures
        answers_batch(v.in_flight, ranges),
{
    broadcast use vstd::seq_lib::group_to_multiset_ensures;

    lemma_plan_ranges_distinct(v);
    v.in_flight.lemma_multiset_has_no_duplicates();
    ranges.lemma_multiset_has_no_duplicates_conv();
    v.in_flight.to_multiset_ensures();
    ranges.to_multiset_ensures();
    assert forall|x: (u64, u64)| v.in_flight.contains(x) <==> ranges.contains(x) by {
        assert(v.in_flight.to_multiset().count(x) == ranges.to_multiset().count(x));
        if v.in_flight.contains(x) {
            assert(v.in_flight.to_multiset().count(x) > 0);
        }
        if ranges.contains(x) {
            assert(ranges.to_multiset().count(x) > 0);
        }
    }
}

proof fn lemma_cost_at_least_len(s: Seq<(u64, u64)>)
    ensures
        sum_over(s, cost_fn()) >= s.len(),
    decreases s.len(),
{
    if s.len() > 0 {
        lemma_cost_at_least_len(s.drop_last());
    }
}

/// A fetch never hands out more than `2 * n - 1` ranges for a range of `n` blocks (one
/// without chunking): halving is bounded, so the fetch ends.
pub proof fn lemma_requests_bounded<L>(v: LogFetchView<L>)
    requires
        plan_wf(v),
    ensures
        v.requested <= request_bound(v),
{
    lemma_cost_at_least_len(v.in_flight);
    lemma_cost_at_least_len(v.pending);
    lemma_sum_concat(v.in_flight, v.pending, cost_fn());
}

/// When the plan is done, the fetched ranges hold every block of `from..=to` exactly
/// once: every block was fetched, none twice, none outside the range.
pub proof fn lemma_done_plan_fetched_every_block_once<L>(v: LogFetchView<L>)
    requires
        plan_wf(v),
        v.pending.len() == 0,
        v.in_flight.len() == 0,
    ensures
        partitions(v.fetched, v.from, v.to),
{
    assert(all_ranges(v) =~= v.fetched);
}

/// The chunks of a range of `n` blocks cost at most `2 * n - 1` requests.
proof fn lemma_chunks_cost(c: Seq<(u64, u64)>)
    requires
        c.len() > 0,
        forall|i: int| 0 <= i < c.len() ==> #[trigger] c[i].0 <= c[i].1,
        forall|i: int| 0 < i < c.len() ==> #[trigger] c[i].0 == c[i - 1].1 + 1,
    ensures
        sum_over(c, cost_fn()) <= 2 * (c.last().1 - c[0].0) + 1,
    decreases c.len(),
{
    if c.len() > 1 {
        let init = c.drop_last();
        assert(init[0] == c[0]);
        assert forall|i: int| 0 < i < init.len() implies #[trigger] init[i].0 == init[i - 1].1 + 1 by {
            assert(init[i] == c[i]);
            assert(init[i - 1] == c[i - 1]);
        }
        lemma_chunks_cost(init);
        assert(init.last() == c[c.len() - 2]);
    } else {
        assert(c.drop_last().len() == 0);
        assert(sum_over(c.drop_last(), cost_fn()) == 0);
    }
}

/// Whether an outcome is a failure.
pub open spec fn is_failure<L, E>() -> spec_fn(((u64, u64), Result<Vec<L>, E>)) -> bool {
    |o: ((u64, u64), Result<Vec<L>, E>)| o.1 is Err
}

/// Whether an outcome carries logs.
pub open spec fn is_success<L, E>() -> spec_fn(((u64, u64), Result<Vec<L>, E>)) -> bool {
    |o: ((u64, u64), Result<Vec<L>, E>)| o.1 is Ok
}

/// The range an outcome answers.
pub open spec fn range_of<L, E>() -> spec_fn(((u64, u64), Result<Vec<L>, E>)) -> (u64, u64) {
    |o: ((u64, u64), Result<Vec<L>, E>)| o.0
}

/// The ranges of the failed outcomes, in order.
pub open spec fn failed_ranges<L, E>(os: Seq<((u64, u64), Result<Vec<L>, E>)>) -> Seq<(u64, u64)> {
    os.filter(is_failure::<L, E>()).map_values(range_of::<L, E>())
}

/// The ranges of the successful outcomes, in order.
pub open spec fn answered_ranges<L, E>(os: Seq<((u64, u64), Result<Vec<L>, E>)>) -> Seq<(u64, u64)> {
    os.filter(is_success::<L, E>()).map_values(range_of::<L, E>())
}

/// When halving, only a failed single-block request ends the fetch; without chunking every
/// failure does; a success never does.
pub proof fn lemma_only_single_block_failures_are_fatal<L, E>(o: ((u64, u64), Result<Vec<L>, E>))
    ensures
        is_fatal(o, true) <==> (o.1 is Err && o.0.0 == o.0.1),
        is_fatal(o, false) <==> o.1 is Err,
{
}

/// Each failed range, in the order of the outcomes, is replaced by its two halves split at its
/// midpoint; the successful ranges are the fetched ones, in order.
pub proof fn lemma_retries_are_halves_of_failures<L, E>(os: Seq<((u64, u64), Result<Vec<L>, E>)>)
    ensures
        retries(os).len() == 2 * failed_ranges(os).len(),
        forall|j: int| 0 <= j < failed_ranges(os).len() ==> {
            let f = #[trigger] failed_ranges(os)[j];
            &&& retries(os)[2 * j] == (f.0, (f.0 + (f.1 - f.0) / 2) as u64)
            &&& retries(os)[2 * j + 1] == ((f.0 + (f.1 - f.0) / 2 + 1) as u64, f.1)
        },
        succeeded(os) == answered_ranges(os),
    decreases os.len(),
{
    if os.len() == 0 {
        reveal(Seq::filter);
        assert(failed_ranges(os) =~= Seq::<(u64, u64)>::empty());
        assert(answered_ranges(os) =~= Seq::<(u64, u64)>::empty());
    } else {
        let init = os.drop_last();
        let last = os.last();
        lemma_retries_are_halves_of_failures(init);
        assert(init.push(last) =~= os);
        init.lemma_filter_push(last, is_failure::<L, E>());
        init.lemma_filter_push(last, is_success::<L, E>());
        let fi = init.filter(is_failure::<L, E>());
        let si = init.filter(is_success::<L, E>());
        match last.1 {
            Ok(_) => {
                assert(retries(os) =~= retries(init));
                assert(failed_ranges(os) == failed_ranges(init));
                assert(si.push(last).map_values(range_of::<L, E>()) =~= si.map_values(range_of::<L, E>()).push(last.0));
                assert(succeeded(os) =~= answered_ranges(os));
            },
            Err(_) => {
                assert(retries(os) == retries(init) + halves(last.0));
                assert(fi.push(last).map_values(range_of::<L, E>()) =~= fi.map_values(range_of::<L, E>()).push(last.0));
                assert(failed_ranges(os) == failed_ranges(init).push(last.0));
                assert(succeeded(os) =~= succeeded(init));
                assert forall|j: int| 0 <= j < failed_ranges(os).len() implies {
                    let f = #[trigger] failed_ranges(os)[j];
                    &&& retries(os)[2 * j] == (f.0, (f.0 + (f.1 - f.0) / 2) as u64)
                    &&& retries(os)[2 * j + 1] == ((f.0 + (f.1 - f.0) / 2 + 1) as u64, f.1)
                } by {
                    if j < failed_ranges(init).len() {
                        assert(failed_ranges(os)[j] == failed_ranges(init)[j]);
                        let f = failed_ranges(init)[j];
                        assert(retries(init)[2 * j] == (f.0, (f.0 + (f.1 - f.0) / 2) as u64));
                    }
                }
            },
        }
    }
}

/// The logs an outcome carries.
pub open spec fn logs_of<L, E>() -> spec_fn(((u64, u64), Result<Vec<L>, E>)) -> Seq<L> {
    |o: ((u64, u64), Result<Vec<L>, E>)| match o.1 {
        Ok(v) => v@,
        Err(_) => Seq::empty(),
    }
}

/// The gathered logs are all the logs of the successful outcomes, each outcome's logs in
/// their order, outcome after outcome.
pub proof fn lemma_gathered_are_the_successful_logs<L, E>(os: Seq<((u64, u64), Result<Vec<L>, E>)>)
    ensures
        gathered(os) == os.filter(is_success::<L, E>()).map_values(logs_of::<L, E>()).flatten_alt(),
    decreases os.len(),
{
    if os.len() == 0 {
        reveal(Seq::filter);
        assert(os.filter(is_success::<L, E>()).map_values(logs_of::<L, E>()) =~= Seq::<Seq<L>>::empty());
    } else {
        let init = os.drop_last();
        let last = os.last();
        lemma_gathered_are_the_successful_logs(init);
        assert(init.push(last) =~= os);
        init.lemma_filter_push(last, is_success::<L, E>());
        let si = init.filter(is_success::<L, E>());
        match last.1 {
            Ok(v) => {
                let m = si.push(last).map_values(logs_of::<L, E>());
                assert(m =~= si.map_values(logs_of::<L, E>()).push(v@));
                assert(m.drop_last() =~= si.map_values(logs_of::<L, E>()));
            },
            Err(_) => {
                assert(gathered(os) =~= gathered(init));
            },
        }
    }
}

} // verus!
