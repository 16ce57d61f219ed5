use vstd::prelude::*;
use crate::block_info::Commitment;

verus! {

/// A slot number: the cluster's logical clock.
pub type Slot = u64;

/// One block announcement as it reaches the merge point: which source sent
/// it and for which slot.
#[derive(Clone, Copy, Debug, PartialEq, Eq, Structural)]
pub struct Arrival {
    pub source: u32,
    pub slot: Slot,
}

/// Whether `slot` lies above the watermark `w` (every slot is above an empty one).
pub open spec fn above(slot: Slot, w: Option<Slot>) -> bool {
    match w {
        None => true,
        Some(m) => slot > m,
    }
}

/// The highest slot emitted after the arrivals `s`, in order of arrival.
pub open spec fn watermark_after(s: Seq<Arrival>) -> Option<Slot>
    decreases s.len(),
{
    if s.len() == 0 {
        None
    } else {
        let w = watermark_after(s.drop_last());
        if above(s.last().slot, w) {
            Some(s.last().slot)
        } else {
            w
        }
    }
}

/// The arrivals that the fastest-wins policy lets through: an arrival passes
/// exactly when its slot lies above everything that passed before it.
pub open spec fn fastest_wins(s: Seq<Arrival>) -> Seq<Arrival>
    decreases s.len(),
{
    if s.len() == 0 {
        Seq::empty()
    } else {
        let prev = fastest_wins(s.drop_last());
        if above(s.last().slot, watermark_after(s.drop_last())) {
            prev.push(s.last())
        } else {
            prev
        }
    }
}

/// The merge point's state: the highest slot emitted so far.
pub struct FastestWins {
    pub watermark: Option<Slot>,
}

impl FastestWins {
    pub fn new() -> (r: FastestWins)
        ensures
            r.watermark.is_none(),
    {
        FastestWins { watermark: None }
    }

    /// Decides whether a block for `slot` is emitted, and raises the
    /// watermark when it is.
    pub fn offer(&mut self, slot: Slot) -> (emit: bool)
        ensures
            emit == above(slot, old(self).watermark),
            final(self).watermark == if emit { Some(slot) } else { old(self).watermark },
    {
        let emit = match self.watermark {
            None => true,
            Some(w) => slot > w,
        };
        if emit {
            self.watermark = Some(slot);
        }
        emit
    }
}

/// Runs the fastest-wins policy over arrivals in the order in which they
/// reached the merge point, and returns the ones that are emitted.
pub fn multiplex(arrivals: &Vec<Arrival>) -> (out: Vec<Arrival>)
    ensures
        out@ == fastest_wins(arrivals@),
{
    let mut state = FastestWins::new();
    let mut out: Vec<Arrival> = Vec::new();
    let mut i: usize = 0;
    while i < arrivals.len()
        invariant
            i <= arrivals.len(),
            state.watermark == watermark_after(arrivals@.subrange(0, i as int)),
            out@ == fastest_wins(arrivals@.subrange(0, i as int)),
        decreases arrivals.len() - i,
    {
        let a = arrivals[i];
        proof {
            assert(arrivals@.subrange(0, i + 1).drop_last() == arrivals@.subrange(0, i as int));
        }
        if state.offer(a.slot) {
            out.push(a);
        }
        i = i + 1;
    }
    proof {
        assert(arrivals@.subrange(0, arrivals@.len() as int) == arrivals@);
    }
    out
}

/// What passed is bounded by the watermark, and the last arrival that passed
/// sits exactly on it.
proof fn lemma_watermark_bounds(s: Seq<Arrival>)
    ensures
        watermark_after(s).is_none() <==> fastest_wins(s).len() == 0,
        watermark_after(s).is_some() ==> fastest_wins(s).last().slot == watermark_after(s).unwrap(),
        forall|i: int|
            0 <= i < fastest_wins(s).len() ==> fastest_wins(s)[i].slot <= watermark_after(s).unwrap(),
    decreases s.len(),
{
    if s.len() > 0 {
        lemma_watermark_bounds(s.drop_last());
    }
}

/// Whatever the sources deliver and in whatever order, the slots emitted are
/// strictly increasing.
pub proof fn lemma_emitted_strictly_increasing(s: Seq<Arrival>)
    ensures
        forall|i: int, j: int|
            0 <= i < j < fastest_wins(s).len() ==> fastest_wins(s)[i].slot < fastest_wins(s)[j].slot,
    decreases s.len(),
{
    if s.len() > 0 {
        let p = s.drop_last();
        lemma_emitted_strictly_increasing(p);
        lemma_watermark_bounds(p);
    }
}

/// No slot is emitted twice, however many sources deliver it.
pub proof fn lemma_emitted_at_most_once(s: Seq<Arrival>)
    ensures
        forall|i: int, j: int|
            0 <= i < fastest_wins(s).len() && 0 <= j < fastest_wins(s).len() && i != j
                ==> fastest_wins(s)[i].slot != fastest_wins(s)[j].slot,
{
    lemma_emitted_strictly_increasing(s);
}

/// Only what arrived is emitted: each emitted item is one of the arrivals.
pub proof fn lemma_emitted_arrived(s: Seq<Arrival>)
    ensures
        forall|i: int| 0 <= i < fastest_wins(s).len() ==> s.contains(#[trigger] fastest_wins(s)[i]),
    decreases s.len(),
{
    if s.len() > 0 {
        let p = s.drop_last();
        lemma_emitted_arrived(p);
        assert forall|i: int| 0 <= i < fastest_wins(s).len() implies s.contains(#[trigger] fastest_wins(s)[i]) by {
            if i < fastest_wins(p).len() {
                let k = choose|k: int| 0 <= k < p.len() && p[k] == fastest_wins(p)[i];
                assert(s[k] == fastest_wins(s)[i]);
            } else {
                assert(s[s.len() - 1] == fastest_wins(s)[i]);
            }
        }
    }
}

/// Nothing new is lost: every slot that arrives is emitted, unless a slot at
/// least as high was emitted before it arrived.
pub proof fn lemma_new_slot_emitted(s: Seq<Arrival>, a: Arrival)
    ensures
        above(a.slot, watermark_after(s)) ==> fastest_wins(s.push(a)) == fastest_wins(s).push(a),
        !above(a.slot, watermark_after(s)) ==> fastest_wins(s.push(a)) == fastest_wins(s),
{
    assert(s.push(a).drop_last() == s);
}

/// One fastest-wins merge point per commitment level: the levels are
/// independent streams, each deduplicated on its own.
pub struct CommitmentMultiplex {
    pub processed: FastestWins,
    pub confirmed: FastestWins,
    pub finalized: FastestWins,
}

impl CommitmentMultiplex {
    pub open spec fn watermark(&self, c: Commitment) -> Option<Slot> {
        match c {
            Commitment::Processed => self.processed.watermark,
            Commitment::Confirmed => self.confirmed.watermark,
            Commitment::Finalized => self.finalized.watermark,
        }
    }

    pub fn new() -> (r: CommitmentMultiplex)
        ensures
            forall|c: Commitment| #[trigger] r.watermark(c).is_none(),
    {
        CommitmentMultiplex {
            processed: FastestWins::new(),
            confirmed: FastestWins::new(),
            finalized: FastestWins::new(),
        }
    }

    /// Decides whether a block for `slot` observed at commitment `c` is
    /// emitted; the other levels are left as they were.
    pub fn offer(&mut self, c: Commitment, slot: Slot) -> (emit: bool)
        ensures
            emit == above(slot, old(self).watermark(c)),
            final(self).watermark(c) == if emit { Some(slot) } else { old(self).watermark(c) },
            forall|d: Commitment| d != c ==> #[trigger] final(self).watermark(d) == old(self).watermark(d),
    {
        match c {
            Commitment::Processed => self.processed.offer(slot),
            Commitment::Confirmed => self.confirmed.offer(slot),
            Commitment::Finalized => self.finalized.offer(slot),
        }
    }
}

} // verus!
