use vstd::prelude::*;
use crate::multiplex::Slot;
use crate::pubkey::Pubkey;
use crate::block_info::{BLOCKHASH_VALID_SLOTS, BlockInformationStore, Blockhash, Commitment, valid};

verus! {

/// A transaction's first signature: 64 bytes, held as two 32-byte halves.
#[derive(Clone, Copy, Debug, PartialEq, Eq, Structural, Hash)]
pub struct Signature {
    pub lo: Pubkey,
    pub hi: Pubkey,
}

/// Why a transaction was given up.
#[derive(Clone, Copy, Debug, PartialEq, Eq, Structural)]
pub enum DropReason {
    BlockhashExpired,
}

#[derive(Clone, Copy, Debug, PartialEq, Eq, Structural)]
pub enum TxStatus {
    Pending,
    Landed(Slot),
    Dropped(DropReason),
}

/// A transaction that was accepted and is tracked until it lands or expires.
#[derive(Clone, Copy, Debug, PartialEq, Eq, Structural)]
pub struct PendingTx {
    pub signature: Signature,
    /// The last slot at which its blockhash is still valid.
    pub deadline: Slot,
    pub attempts: u32,
    pub max_retries: u32,
}

/// The last slot at which a blockhash introduced at `slot` is valid (the
/// largest slot where that lies beyond it).
pub open spec fn deadline_of(slot: Slot) -> Slot {
    if slot + BLOCKHASH_VALID_SLOTS <= u64::MAX {
        (slot + BLOCKHASH_VALID_SLOTS) as u64
    } else {
        u64::MAX
    }
}

/// How many transactions may be tracked at once.
pub const MAX_PENDING: usize = 1000;

/// Why a submission is refused.
#[derive(Clone, Copy, Debug, PartialEq, Eq, Structural)]
pub enum IngestError {
    /// The blockhash is not known, or no longer valid.
    UnknownBlockhash,
    /// As many transactions as allowed are tracked already.
    Overloaded,
}

/// What becomes of a pending transaction when a block at `slot` is observed:
/// it lands there if the block holds it, is dropped once `slot` passes its
/// deadline, and stays pending otherwise.
pub open spec fn step(tx: PendingTx, slot: Slot, in_block: bool) -> TxStatus {
    if in_block {
        TxStatus::Landed(slot)
    } else if slot > tx.deadline {
        TxStatus::Dropped(DropReason::BlockhashExpired)
    } else {
        TxStatus::Pending
    }
}

pub open spec fn sig_in(sigs: Seq<Signature>, s: Signature) -> bool {
    sigs.contains(s)
}

impl PendingTx {
    /// Tracks a transaction whose blockhash was introduced at `blockhash_slot`.
    pub fn new(signature: Signature, blockhash_slot: Slot, max_retries: u32) -> (r: PendingTx)
        ensures
            r.signature == signature,
            r.deadline == deadline_of(blockhash_slot),
            r.attempts == 0,
            r.max_retries == max_retries,
    {
        let deadline = if blockhash_slot <= u64::MAX - BLOCKHASH_VALID_SLOTS {
            blockhash_slot + BLOCKHASH_VALID_SLOTS
        } else {
            u64::MAX
        };
        PendingTx { signature, deadline, attempts: 0, max_retries }
    }

    /// The transition on a block at `slot`; `in_block` tells whether the
    /// block holds the transaction.
    pub fn on_block(&self, slot: Slot, in_block: bool) -> (r: TxStatus)
        ensures
            r == step(*self, slot, in_block),
    {
        if in_block {
            TxStatus::Landed(slot)
        } else if slot > self.deadline {
            TxStatus::Dropped(DropReason::BlockhashExpired)
        } else {
            TxStatus::Pending
        }
    }

    /// Whether to send the transaction again at `slot`: its blockhash is
    /// still valid and retries are left.
    pub fn should_retry(&self, slot: Slot) -> (r: bool)
        ensures
            r == (slot <= self.deadline && self.attempts < self.max_retries),
    {
        slot <= self.deadline && self.attempts < self.max_retries
    }

    /// Counts one more send.
    pub fn record_attempt(&mut self)
        ensures
            final(self).attempts as int == if old(self).attempts < u32::MAX {
                old(self).attempts + 1
            } else {
                old(self).attempts as int
            },
            final(self).signature == old(self).signature,
            final(self).deadline == old(self).deadline,
            final(self).max_retries == old(self).max_retries,
    {
        if self.attempts < u32::MAX {
            self.attempts = self.attempts + 1;
        }
    }
}

/// The set of transactions sent and not yet settled.
pub struct TxTracker {
    pub pending: Vec<PendingTx>,
}

impl TxTracker {
    pub open spec fn tracks(&self, s: Signature) -> bool {
        exists|i: int| 0 <= i < self.pending@.len() && (#[trigger] self.pending@[i]).signature == s
    }

    pub fn new() -> (r: TxTracker)
        ensures
            r.pending@.len() == 0,
    {
        TxTracker { pending: Vec::new() }
    }

    fn find_index(&self, s: &Signature) -> (r: Option<usize>)
        ensures
            r.is_none() <==> !self.tracks(*s),
            r.is_some() ==> r.unwrap() < self.pending@.len() && self.pending@[r.unwrap() as int].signature
                == *s,
    {
        let mut i: usize = 0;
        while i < self.pending.len()
            invariant
                i <= self.pending@.len(),
                forall|j: int| 0 <= j < i ==> (#[trigger] self.pending@[j]).signature != *s,
            decreases self.pending@.len() - i,
        {
            if self.pending[i].signature == *s {
                return Some(i);
            }
            i = i + 1;
        }
        None
    }

    /// Starts tracking `tx` unless its signature is tracked already; tells
    /// whether it was added (a second submission is idempotent).
    pub fn submit(&mut self, tx: PendingTx) -> (added: bool)
        ensures
            added == !old(self).tracks(tx.signature),
            added ==> final(self).pending@ == old(self).pending@.push(tx),
            !added ==> final(self).pending@ == old(self).pending@,
    {
        match self.find_index(&tx.signature) {
            Some(_) => false,
            None => {
                self.pending.push(tx);
                true
            },
        }
    }

    /// The status of a tracked transaction, `None` where it is not tracked.
    pub fn status_of(&self, s: &Signature) -> (r: Option<PendingTx>)
        ensures
            r.is_none() <==> !self.tracks(*s),
            r.is_some() ==> r.unwrap().signature == *s && self.pending@.contains(r.unwrap()),
    {
        match self.find_index(s) {
            Some(i) => Some(self.pending[i]),
            None => None,
        }
    }

    /// Accepts a transaction signed with `signature` over `blockhash`: it
    /// is refused where the blockhash is not valid at `processed`, accepted
    /// without change where the signature is tracked already (the result is
    /// then `Ok(false)`), refused where the tracker is full, and otherwise
    /// tracked until the blockhash expires (`Ok(true)`).
    pub fn ingest(
        &mut self,
        info: &BlockInformationStore,
        signature: Signature,
        blockhash: &Blockhash,
        max_retries: u32,
    ) -> (r: Result<bool, IngestError>)
        ensures
            !valid(info.entries@, info.tip, *blockhash, Commitment::Processed) ==> r == Err::<
                bool,
                IngestError,
            >(IngestError::UnknownBlockhash),
            valid(info.entries@, info.tip, *blockhash, Commitment::Processed) && old(self).tracks(
                signature,
            ) ==> r == Ok::<bool, IngestError>(false),
            valid(info.entries@, info.tip, *blockhash, Commitment::Processed) && !old(self).tracks(
                signature,
            ) && old(self).pending@.len() >= MAX_PENDING ==> r == Err::<bool, IngestError>(
                IngestError::Overloaded,
            ),
            valid(info.entries@, info.tip, *blockhash, Commitment::Processed) && !old(self).tracks(
                signature,
            ) && old(self).pending@.len() < MAX_PENDING ==> r == Ok::<bool, IngestError>(true)
                && final(self).pending@ == old(self).pending@.push(
                (PendingTx {
                    signature,
                    deadline: deadline_of(info.known(*blockhash).unwrap().slot),
                    attempts: 0,
                    max_retries,
                }),
            ),
            r != Ok::<bool, IngestError>(true) ==> final(self).pending@ == old(self).pending@,
    {
        if !info.is_valid(blockhash, Commitment::Processed) {
            return Err(IngestError::UnknownBlockhash);
        }
        let slot = match info.slot_of(blockhash) {
            Some(s) => s,
            None => {
                return Err(IngestError::UnknownBlockhash);
            },
        };
        if self.find_index(&signature).is_some() {
            return Ok(false);
        }
        if self.pending.len() >= MAX_PENDING {
            return Err(IngestError::Overloaded);
        }
        self.pending.push(PendingTx::new(signature, slot, max_retries));
        Ok(true)
    }

    /// Applies a block at `slot` holding the signatures `landed`: every
    /// tracked transaction that settles is removed and reported with its
    /// final status, in tracking order; the others stay, in order.
    pub fn on_block(&mut self, slot: Slot, landed: &Vec<Signature>) -> (settled: Vec<(Signature, TxStatus)>)
        ensures
            final(self).pending@ == remaining(old(self).pending@, slot, landed@),
            settled@ == old(self).pending@.filter(
                |t: PendingTx| step(t, slot, sig_in(landed@, t.signature)) != TxStatus::Pending,
            ).map_values(|t: PendingTx| (t.signature, step(t, slot, sig_in(landed@, t.signature)))),
    {
        let ghost old_pending = self.pending@;
        let mut kept: Vec<PendingTx> = Vec::new();
        let mut settled: Vec<(Signature, TxStatus)> = Vec::new();
        let mut i: usize = 0;
        while i < self.pending.len()
            invariant
                self.pending@ == old_pending,
                i <= old_pending.len(),
                kept@ == old_pending.take(i as int).filter(
                    |t: PendingTx| step(t, slot, sig_in(landed@, t.signature)) == TxStatus::Pending,
                ),
                settled@ == old_pending.take(i as int).filter(
                    |t: PendingTx| step(t, slot, sig_in(landed@, t.signature)) != TxStatus::Pending,
                ).map_values(|t: PendingTx| (t.signature, step(t, slot, sig_in(landed@, t.signature)))),
            decreases old_pending.len() - i,
        {
            let t = self.pending[i];
            let in_block = contains_signature(landed, &t.signature);
            let st = t.on_block(slot, in_block);
            proof {
                assert(old_pending.take(i + 1).drop_last() == old_pending.take(i as int));
                assert(old_pending.take(i + 1).last() == t);
                reveal(Seq::filter);
            }
            let ghost settled_before = settled@;
            match st {
                TxStatus::Pending => {
                    kept.push(t);
                },
                _ => {
                    settled.push((t.signature, st));
                    proof {
                        let f = old_pending.take(i as int).filter(
                            |t: PendingTx| step(t, slot, sig_in(landed@, t.signature)) != TxStatus::Pending,
                        );
                        assert(f.push(t).map_values(
                            |t: PendingTx| (t.signature, step(t, slot, sig_in(landed@, t.signature))),
                        ) =~= settled_before.push((t.signature, st)));
                    }
                },
            }
            i = i + 1;
        }
        proof {
            assert(old_pending.take(i as int) == old_pending);
        }
        self.pending = kept;
        settled
    }
}

fn contains_signature(sigs: &Vec<Signature>, s: &Signature) -> (r: bool)
    ensures
        r == sig_in(sigs@, *s),
{
    let mut i: usize = 0;
    while i < sigs.len()
        invariant
            i <= sigs@.len(),
            forall|j: int| 0 <= j < i ==> sigs@[j] != *s,
        decreases sigs@.len() - i,
    {
        if sigs[i] == *s {
            proof {
                assert(sigs@[i as int] == *s);
            }
            return true;
        }
        i = i + 1;
    }
    false
}

/// Every tracked transaction settles by the first block past its deadline:
/// it has landed or is dropped, and it is then no longer tracked.
pub proof fn lemma_settles_by_deadline(tx: PendingTx, slot: Slot, in_block: bool)
    requires
        slot > tx.deadline,
    ensures
        step(tx, slot, in_block) != TxStatus::Pending,
        !in_block ==> step(tx, slot, in_block) == TxStatus::Dropped(DropReason::BlockhashExpired),
{
}

/// A transaction lands only in a block that holds it, at that block's slot.
pub proof fn lemma_lands_where_seen(tx: PendingTx, slot: Slot, in_block: bool)
    ensures
        (step(tx, slot, in_block) == TxStatus::Landed(slot)) <==> in_block,
        forall|s: Slot| #[trigger] step(tx, slot, in_block) == TxStatus::Landed(s) ==> s == slot,
{
}

/// The transactions that stay tracked after a block at `slot` holding
/// the signatures `landed`.
pub open spec fn remaining(pending: Seq<PendingTx>, slot: Slot, landed: Seq<Signature>) -> Seq<PendingTx> {
    pending.filter(|t: PendingTx| step(t, slot, sig_in(landed, t.signature)) == TxStatus::Pending)
}

/// After a block at `slot`, no transaction that stays tracked has a
/// deadline before `slot`.
pub proof fn lemma_no_tracked_past_deadline(pending: Seq<PendingTx>, slot: Slot, landed: Seq<Signature>)
    ensures
        forall|i: int|
            0 <= i < remaining(pending, slot, landed).len() ==> slot <= (
            #[trigger] remaining(pending, slot, landed)[i]).deadline,
{
    broadcast use vstd::seq_lib::group_filter_ensures;

    let r = remaining(pending, slot, landed);
    assert forall|i: int| 0 <= i < r.len() implies slot <= (#[trigger] r[i]).deadline by {
        assert(step(r[i], slot, sig_in(landed, r[i].signature)) == TxStatus::Pending);
    }
}

} // verus!
