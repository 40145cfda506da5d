//! Parent-hash continuity tracking for reorg observability.
use vstd::prelude::*;

use crate::block_assembly::same_hash;

verus! {

broadcast use vstd::seq::group_seq_axioms;

/// What the detector reads of a block header.
#[derive(Debug, Clone, Copy)]
pub struct BlockHeader {
    pub number: u64,
    pub hash: [u8; 32],
    pub parent_hash: [u8; 32],
}

/// A detected chain discontinuity: a block that does not extend the previously
/// observed one, indicating a reorg deeper than the confirmation depth.
#[derive(Debug, Clone, Copy, PartialEq, Eq)]
pub struct Reorg {
    pub block_number: u64,
    pub parent_block_number: u64,
    pub expected_parent_hash: [u8; 32],
    pub actual_parent_hash: [u8; 32],
}

/// The discontinuity, if any, that `header` shows against the tip `tip`: the header is the
/// block right after the tip, but its parent hash is not the tip's hash.
pub open spec fn reorg_against(tip: Option<(u64, [u8; 32])>, header: BlockHeader) -> Option<Reorg> {
    match tip {
        Some((number, hash)) => if header.number == number + 1 && header.parent_hash@ != hash@ {
            Some(
                Reorg {
                    block_number: header.number,
                    parent_block_number: number,
                    expected_parent_hash: hash,
                    actual_parent_hash: header.parent_hash,
                },
            )
        } else {
            None
        },
        None => None,
    }
}

/// Tracks the last observed block to detect reorgs past the confirmation depth.
/// The first block observed after startup seeds the tip without a check,
/// unless the tip is restored via [`ReorgDetector::seeded`].
#[derive(Debug)]
pub struct ReorgDetector {
    tip: Option<(u64, [u8; 32])>,
}

impl View for ReorgDetector {
    type V = Option<(u64, [u8; 32])>;

    closed spec fn view(&self) -> Option<(u64, [u8; 32])> {
        self.tip
    }
}

impl Default for ReorgDetector {
    fn default() -> (d: Self)
        ensures
            d@ == None::<(u64, [u8; 32])>,
    {
        Self { tip: None }
    }
}

impl ReorgDetector {
    /// A detector whose tip is restored from persistence.
    pub fn seeded(tip: Option<(u64, [u8; 32])>) -> (d: Self)
        ensures
            d@ == tip,
    {
        Self { tip }
    }

    /// Observes a header, returning the discontinuity if the block does not extend the
    /// previously observed one. Advances the tip regardless.
    pub fn observe(&mut self, header: &BlockHeader) -> (reorg: Option<Reorg>)
        ensures
            reorg == reorg_against(old(self)@, *header),
            final(self)@ == Some((header.number, header.hash)),
            old(self)@ is Some && header.number == (old(self)@->0).0 + 1 && header.parent_hash@ != (old(self)@->0).1@
                ==> reorg == Some(
                Reorg {
                    block_number: header.number,
                    parent_block_number: (old(self)@->0).0,
                    expected_parent_hash: (old(self)@->0).1,
                    actual_parent_hash: header.parent_hash,
                },
            ),
            reorg is Some ==> (old(self)@ is Some && header.number == (old(self)@->0).0 + 1
                && header.parent_hash@ != (old(self)@->0).1@),
    {
        let reorg = match self.tip {
            Some((number, hash)) => {
                if header.number > 0 && header.number - 1 == number && !same_hash(&header.parent_hash, &hash) {
                    Some(
                        Reorg {
                            block_number: header.number,
                            parent_block_number: number,
                            expected_parent_hash: hash,
                            actual_parent_hash: header.parent_hash,
                        },
                    )
                } else {
                    None
                }
            },
            None => None,
        };
        self.tip = Some((header.number, header.hash));
        reorg
    }
}

/// A reorg is reported exactly for the block right after the tip whose parent hash is not the
/// tip's hash, at any block number, and the report names both hashes.
pub proof fn lemma_reorg_reported_iff_parent_mismatch(n: u64, h: [u8; 32], header: BlockHeader)
    ensures
        header.number == n + 1 && header.parent_hash@ != h@ ==> reorg_against(Some((n, h)), header) == Some(
            Reorg {
                block_number: header.number,
                parent_block_number: n,
                expected_parent_hash: h,
                actual_parent_hash: header.parent_hash,
            },
        ),
        !(header.number == n + 1 && header.parent_hash@ != h@) ==> reorg_against(Some((n, h)), header) is None,
        reorg_against(None, header) is None,
{
}

/// Whether `header` extends the block `tip`: it is the next block and its parent is the tip.
pub open spec fn extends(tip: (u64, [u8; 32]), header: BlockHeader) -> bool {
    header.number == tip.0 + 1 && header.parent_hash@ == tip.1@
}

/// What a detector starting at `tip` reports for each header of `headers`, in turn.
pub open spec fn reports(tip: Option<(u64, [u8; 32])>, headers: Seq<BlockHeader>) -> Seq<Option<Reorg>>
    decreases headers.len(),
{
    if headers.len() == 0 {
        Seq::empty()
    } else {
        seq![reorg_against(tip, headers[0])]
            + reports(Some((headers[0].number, headers[0].hash)), headers.drop_first())
    }
}

/// A chain in which every header extends the one before it, starting from the tip (or from
/// nothing), produces no detection.
pub proof fn lemma_continuous_chain_reports_nothing(tip: Option<(u64, [u8; 32])>, headers: Seq<BlockHeader>)
    requires
        forall|i: int| 0 < i < headers.len() ==> extends((headers[i - 1].number, headers[i - 1].hash), #[trigger] headers[i]),
        headers.len() > 0 ==> match tip {
            Some(t) => extends(t, headers[0]),
            None => true,
        },
    ensures
        reports(tip, headers).len() == headers.len(),
        forall|i: int| 0 <= i < headers.len() ==> #[trigger] reports(tip, headers)[i] is None,
    decreases headers.len(),
{
    if headers.len() > 0 {
        let tail = headers.drop_first();
        assert forall|i: int| 0 < i < tail.len() implies extends((tail[i - 1].number, tail[i - 1].hash), #[trigger] tail[i]) by {
            assert(tail[i] == headers[i + 1]);
            assert(tail[i - 1] == headers[i]);
        }
        if tail.len() > 0 {
            assert(tail[0] == headers[1]);
        }
        lemma_continuous_chain_reports_nothing(Some((headers[0].number, headers[0].hash)), tail);
        let r = reports(tip, headers);
        assert forall|i: int| 0 <= i < headers.len() implies #[trigger] r[i] is None by {
            if i > 0 {
                assert(r[i] == reports(Some((headers[0].number, headers[0].hash)), tail)[i - 1]);
            }
        }
    }
}

} // verus!
