use vstd::prelude::*;
use crate::multiplex::Slot;
use crate::pubkey::Pubkey;

verus! {

/// A block's hash: 32 bytes compared by value.
pub type Blockhash = Pubkey;

/// How many slots after the slot that introduced it a blockhash stays valid.
pub const BLOCKHASH_VALID_SLOTS: u64 = 150;

/// The confidence at which a block has been observed.
#[derive(Clone, Copy, Debug, PartialEq, Eq, Structural)]
pub enum Commitment {
    Processed,
    Confirmed,
    Finalized,
}

/// The position of a commitment level in `processed < confirmed < finalized`.
pub open spec fn rank(c: Commitment) -> nat {
    match c {
        Commitment::Processed => 0,
        Commitment::Confirmed => 1,
        Commitment::Finalized => 2,
    }
}

impl Commitment {
    pub fn rank(&self) -> (r: u8)
        ensures
            r as nat == rank(*self),
    {
        match self {
            Commitment::Processed => 0,
            Commitment::Confirmed => 1,
            Commitment::Finalized => 2,
        }
    }

    /// The higher of two levels.
    pub fn higher(&self, other: Commitment) -> (r: Commitment)
        ensures
            r == higher(*self, other),
    {
        if other.rank() > self.rank() {
            other
        } else {
            *self
        }
    }
}

pub open spec fn higher(a: Commitment, b: Commitment) -> Commitment {
    if rank(b) > rank(a) {
        b
    } else {
        a
    }
}

/// What the store keeps of a block: its hash, the slot that introduced the
/// hash, and the highest commitment at which it was observed.
#[derive(Clone, Copy, Debug, PartialEq, Eq, Structural)]
pub struct BlockInfo {
    pub blockhash: Blockhash,
    pub slot: Slot,
    pub commitment: Commitment,
}

/// The last entry of `s` with hash `h`.
pub open spec fn find(s: Seq<BlockInfo>, h: Blockhash) -> Option<BlockInfo>
    decreases s.len(),
{
    if s.len() == 0 {
        None
    } else if s.last().blockhash == h {
        Some(s.last())
    } else {
        find(s.drop_last(), h)
    }
}

/// No two entries share a hash.
pub open spec fn distinct_hashes(s: Seq<BlockInfo>) -> bool {
    forall|i: int, j: int|
        0 <= i < j < s.len() ==> (#[trigger] s[i]).blockhash != (#[trigger] s[j]).blockhash
}

/// What the store knows of `h` once block `b` has been observed.
pub open spec fn merged(o: Option<BlockInfo>, b: BlockInfo, h: Blockhash) -> Option<BlockInfo> {
    if h == b.blockhash {
        match o {
            Some(e) => Some(BlockInfo { commitment: higher(e.commitment, b.commitment), ..e }),
            None => Some(b),
        }
    } else {
        o
    }
}

/// Whether a hash introduced at `slot` is still inside the window at `tip`.
pub open spec fn in_window(slot: Slot, tip: Option<Slot>) -> bool {
    match tip {
        None => true,
        Some(t) => t <= slot + BLOCKHASH_VALID_SLOTS,
    }
}

pub open spec fn max_tip(tip: Option<Slot>, slot: Slot) -> Option<Slot> {
    match tip {
        None => Some(slot),
        Some(t) => if slot > t {
            Some(slot)
        } else {
            Some(t)
        },
    }
}

/// Whether `h` is valid at commitment `c`: known at `c` or above, and
/// inside the window.
pub open spec fn valid(s: Seq<BlockInfo>, tip: Option<Slot>, h: Blockhash, c: Commitment) -> bool {
    match find(s, h) {
        Some(e) => rank(c) <= rank(e.commitment) && in_window(e.slot, tip),
        None => false,
    }
}

proof fn lemma_find_none(s: Seq<BlockInfo>, h: Blockhash)
    ensures
        find(s, h).is_none() <==> forall|i: int| 0 <= i < s.len() ==> (#[trigger] s[i]).blockhash != h,
        find(s, h).is_some() ==> find(s, h).unwrap().blockhash == h,
    decreases s.len(),
{
    if s.len() > 0 {
        lemma_find_none(s.drop_last(), h);
        if find(s, h).is_none() {
            assert forall|i: int| 0 <= i < s.len() implies (#[trigger] s[i]).blockhash != h by {
                if i < s.len() - 1 {
                    assert(s[i] == s.drop_last()[i]);
                }
            }
        } else if s.last().blockhash != h {
            let i = choose|i: int| 0 <= i < s.drop_last().len() && (#[trigger] s.drop_last()[i]).blockhash == h;
            assert(s[i] == s.drop_last()[i]);
        }
    }
}

/// The recent-blockhash window: the blocks observed lately and the highest
/// slot observed at any commitment.
pub struct BlockInformationStore {
    pub entries: Vec<BlockInfo>,
    pub tip: Option<Slot>,
}

impl BlockInformationStore {
    pub open spec fn wf(&self) -> bool {
        distinct_hashes(self.entries@)
    }

    pub open spec fn known(&self, h: Blockhash) -> Option<BlockInfo> {
        find(self.entries@, h)
    }

    pub fn new() -> (r: BlockInformationStore)
        ensures
            r.wf(),
            r.tip.is_none(),
            forall|h: Blockhash| r.known(h).is_none(),
    {
        BlockInformationStore { entries: Vec::new(), tip: None }
    }

    /// Records a block: a new hash is kept with the block's slot and
    /// commitment; a known one keeps its slot and rises to the higher
    /// commitment; the tip moves up to the block's slot.
    pub fn add_block(&mut self, b: BlockInfo)
        requires
            old(self).wf(),
        ensures
            final(self).wf(),
            final(self).tip == max_tip(old(self).tip, b.slot),
            forall|h: Blockhash| #[trigger] final(self).known(h) == merged(old(self).known(h), b, h),
    {
        let mut found = false;
        let mut out: Vec<BlockInfo> = Vec::new();
        let mut i: usize = 0;
        while i < self.entries.len()
            invariant
                i <= self.entries@.len(),
                distinct_hashes(self.entries@),
                distinct_hashes(out@),
                found == find(self.entries@.take(i as int), b.blockhash).is_some(),
                forall|h: Blockhash|
                    #[trigger] find(out@, h) == if h == b.blockhash && !found {
                        None
                    } else {
                        merged(find(self.entries@.take(i as int), h), b, h)
                    },
            decreases self.entries@.len() - i,
        {
            let e = self.entries[i];
            let prefix = Ghost(self.entries@.take(i as int));
            proof {
                assert(self.entries@.take(i + 1).drop_last() =~= prefix@);
                assert(self.entries@.take(i + 1).last() == e);
                lemma_find_none(prefix@, e.blockhash);
                lemma_find_none(out@, e.blockhash);
                assert forall|j: int| 0 <= j < prefix@.len() implies (#[trigger] prefix@[j]).blockhash
                    != e.blockhash by {
                    assert(prefix@[j] == self.entries@[j]);
                }
            }
            let ghost before = out@;
            let ghost found0 = found;
            if e.blockhash == b.blockhash {
                found = true;
                out.push(BlockInfo { commitment: e.commitment.higher(b.commitment), ..e });
            } else {
                out.push(e);
            }
            proof {
                assert(out@.drop_last() == before);
                assert forall|h: Blockhash| #[trigger] find(out@, h) == if h == b.blockhash && !found {
                    None
                } else {
                    merged(find(self.entries@.take(i + 1), h), b, h)
                } by {
                    assert(find(before, h) == if h == b.blockhash && !found0 {
                        None
                    } else {
                        merged(find(prefix@, h), b, h)
                    });
                    assert(find(out@, h) == if out@.last().blockhash == h {
                        Some(out@.last())
                    } else {
                        find(before, h)
                    });
                    assert(find(self.entries@.take(i + 1), h) == if e.blockhash == h {
                        Some(e)
                    } else {
                        find(prefix@, h)
                    });
                }
                assert forall|j: int, k: int| 0 <= j < k < out@.len() implies (#[trigger] out@[j]).blockhash
                    != (#[trigger] out@[k]).blockhash by {
                    if k == out@.len() - 1 {
                        assert(out@[j] == before[j]);
                    } else {
                        assert(out@[j] == before[j]);
                        assert(out@[k] == before[k]);
                    }
                }
            }
            i = i + 1;
        }
        proof {
            assert(self.entries@.take(i as int) == self.entries@);
        }
        if !found {
            let ghost before = out@;
            proof {
                lemma_find_none(self.entries@, b.blockhash);
                lemma_find_none(out@, b.blockhash);
            }
            out.push(b);
            proof {
                assert(out@.drop_last() == before);
                assert forall|j: int, k: int| 0 <= j < k < out@.len() implies (#[trigger] out@[j]).blockhash
                    != (#[trigger] out@[k]).blockhash by {
                    assert(out@[j] == before[j]);
                    if k < out@.len() - 1 {
                        assert(out@[k] == before[k]);
                    }
                }
            }
        }
        proof {
            assert forall|h: Blockhash| #[trigger] find(out@, h) == merged(find(self.entries@, h), b, h) by {
                if found {
                    assert(find(out@, h) == merged(find(self.entries@, h), b, h));
                } else if h == b.blockhash {
                    lemma_find_none(self.entries@, b.blockhash);
                } else {
                    assert(find(out@.drop_last(), h) == merged(find(self.entries@, h), b, h));
                }
            }
        }
        self.entries = out;
        self.tip = match self.tip {
            None => Some(b.slot),
            Some(t) => if b.slot > t {
                Some(b.slot)
            } else {
                Some(t)
            },
        };
    }

    fn lookup(&self, h: &Blockhash) -> (r: Option<BlockInfo>)
        ensures
            r == self.known(*h),
    {
        let mut i: usize = self.entries.len();
        proof {
            assert(self.entries@.take(i as int) =~= self.entries@);
        }
        while i > 0
            invariant
                i <= self.entries@.len(),
                find(self.entries@, *h) == find(self.entries@.take(i as int), *h),
            decreases i,
        {
            let e = self.entries[i - 1];
            proof {
                assert(self.entries@.take(i as int).last() == e);
                assert(self.entries@.take(i as int).drop_last() =~= self.entries@.take(i - 1));
            }
            if e.blockhash == *h {
                return Some(e);
            }
            i = i - 1;
        }
        None
    }

    /// Whether a hash introduced at `slot` is still inside the window.
    pub fn within_window(&self, slot: Slot) -> (r: bool)
        ensures
            r == in_window(slot, self.tip),
    {
        match self.tip {
            None => true,
            Some(t) => t <= slot || t - slot <= BLOCKHASH_VALID_SLOTS,
        }
    }

    /// Whether `blockhash` is valid at `commitment`: observed at that level
    /// or above, and introduced at most 150 slots below the tip.
    pub fn is_valid(&self, blockhash: &Blockhash, commitment: Commitment) -> (r: bool)
        ensures
            r == valid(self.entries@, self.tip, *blockhash, commitment),
    {
        match self.lookup(blockhash) {
            Some(e) => commitment.rank() <= e.commitment.rank() && self.within_window(e.slot),
            None => false,
        }
    }

    /// The slot that introduced `blockhash`, where it is known.
    pub fn slot_of(&self, blockhash: &Blockhash) -> (r: Option<Slot>)
        ensures
            r.is_some() == self.known(*blockhash).is_some(),
            r.is_some() ==> r.unwrap() == self.known(*blockhash).unwrap().slot,
    {
        match self.lookup(blockhash) {
            Some(e) => Some(e.slot),
            None => None,
        }
    }

    /// A block of highest slot among those observed at `commitment` or
    /// above.
    pub fn latest_blockhash(&self, commitment: Commitment) -> (r: Option<BlockInfo>)
        ensures
            r.is_none() <==> forall|i: int|
                0 <= i < self.entries@.len() ==> rank(#[trigger] self.entries@[i].commitment) < rank(
                    commitment,
                ),
            r.is_some() ==> self.entries@.contains(r.unwrap()) && rank(commitment) <= rank(
                r.unwrap().commitment,
            ),
            r.is_some() ==> forall|i: int|
                0 <= i < self.entries@.len() && rank(commitment) <= rank(
                    #[trigger] self.entries@[i].commitment,
                ) ==> self.entries@[i].slot <= r.unwrap().slot,
    {
        let mut best: Option<BlockInfo> = None;
        let mut i: usize = 0;
        while i < self.entries.len()
            invariant
                i <= self.entries@.len(),
                best.is_none() <==> forall|j: int|
                    0 <= j < i ==> rank(#[trigger] self.entries@[j].commitment) < rank(commitment),
                best.is_some() ==> self.entries@.contains(best.unwrap()) && rank(commitment) <= rank(
                    best.unwrap().commitment,
                ),
                best.is_some() ==> forall|j: int|
                    0 <= j < i && rank(commitment) <= rank(#[trigger] self.entries@[j].commitment)
                        ==> self.entries@[j].slot <= best.unwrap().slot,
            decreases self.entries@.len() - i,
        {
            let e = self.entries[i];
            if commitment.rank() <= e.commitment.rank() {
                match best {
                    Some(b) => {
                        if e.slot > b.slot {
                            best = Some(e);
                        }
                    },
                    None => {
                        best = Some(e);
                    },
                }
            }
            i = i + 1;
        }
        best
    }

    /// Forgets the hashes that have left the window.
    pub fn prune(&mut self)
        requires
            old(self).wf(),
        ensures
            final(self).wf(),
            final(self).tip == old(self).tip,
            forall|h: Blockhash| #[trigger]
                final(self).known(h) == match old(self).known(h) {
                    Some(e) => if in_window(e.slot, old(self).tip) {
                        Some(e)
                    } else {
                        None
                    },
                    None => None,
                },
    {
        let mut out: Vec<BlockInfo> = Vec::new();
        let mut i: usize = 0;
        while i < self.entries.len()
            invariant
                i <= self.entries@.len(),
                distinct_hashes(self.entries@),
                distinct_hashes(out@),
                forall|h: Blockhash|
                    #[trigger] find(out@, h) == match find(self.entries@.take(i as int), h) {
                        Some(e) => if in_window(e.slot, self.tip) {
                            Some(e)
                        } else {
                            None
                        },
                        None => None,
                    },
                forall|j: int| 0 <= j < out@.len() ==> self.entries@.take(i as int).contains(#[trigger] out@[j]),
            decreases self.entries@.len() - i,
        {
            let e = self.entries[i];
            let prefix = Ghost(self.entries@.take(i as int));
            proof {
                assert(self.entries@.take(i + 1).drop_last() =~= prefix@);
                assert(self.entries@.take(i + 1).last() == e);
                lemma_find_none(prefix@, e.blockhash);
                assert forall|j: int| 0 <= j < prefix@.len() implies (#[trigger] prefix@[j]).blockhash
                    != e.blockhash by {
                    assert(prefix@[j] == self.entries@[j]);
                }
            }
            let ghost before = out@;
            if self.within_window(e.slot) {
                out.push(e);
                proof {
                    assert(out@.drop_last() == before);
                    assert forall|j: int, k: int| 0 <= j < k < out@.len() implies (#[trigger] out@[j]).blockhash
                        != (#[trigger] out@[k]).blockhash by {
                        assert(out@[j] == before[j]);
                        if k < out@.len() - 1 {
                            assert(out@[k] == before[k]);
                        } else {
                            assert(prefix@.contains(before[j]));
                        }
                    }
                }
            }
            proof {
                assert forall|h: Blockhash| #[trigger]
                    find(out@, h) == match find(self.entries@.take(i + 1), h) {
                        Some(x) => if in_window(x.slot, self.tip) {
                            Some(x)
                        } else {
                            None
                        },
                        None => None,
                    } by {
                    assert(find(before, h) == match find(prefix@, h) {
                        Some(x) => if in_window(x.slot, self.tip) {
                            Some(x)
                        } else {
                            None
                        },
                        None => None,
                    });
                    assert(find(self.entries@.take(i + 1), h) == if e.blockhash == h {
                        Some(e)
                    } else {
                        find(prefix@, h)
                    });
                    if out@.len() > before.len() {
                        assert(find(out@, h) == if e.blockhash == h {
                            Some(e)
                        } else {
                            find(before, h)
                        });
                    }
                }
                assert forall|j: int| 0 <= j < out@.len() implies self.entries@.take(i + 1).contains(
                    #[trigger] out@[j],
                ) by {
                    if j < before.len() {
                        assert(out@[j] == before[j]);
                        let k = choose|k: int| 0 <= k < prefix@.len() && prefix@[k] == before[j];
                        assert(self.entries@.take(i + 1)[k] == before[j]);
                    } else {
                        assert(self.entries@.take(i + 1)[i as int] == e);
                    }
                }
            }
            i = i + 1;
        }
        proof {
            assert(self.entries@.take(i as int) == self.entries@);
        }
        self.entries = out;
    }
}

/// A blockhash introduced at slot `S` and observed at commitment `C` is
/// valid at every level up to `C` exactly while the tip stays at or below
/// `S + 150`, never at a level above `C`; and once the window has closed,
/// no later block reopens it, since the tip only rises.
pub proof fn lemma_blockhash_window(
    s: Seq<BlockInfo>,
    tip: Option<Slot>,
    e: BlockInfo,
    c: Commitment,
    later: Slot,
)
    requires
        find(s, e.blockhash) == Some(e),
    ensures
        rank(c) <= rank(e.commitment) ==> (valid(s, tip, e.blockhash, c) <==> in_window(e.slot, tip)),
        rank(c) > rank(e.commitment) ==> !valid(s, tip, e.blockhash, c),
        !in_window(e.slot, tip) ==> !in_window(e.slot, max_tip(tip, later)),
{
}

} // verus!