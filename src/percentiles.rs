use vstd::prelude::*;

verus! {

/// The distance between two percentile buckets, in percent.
pub const PERCENTILE_STEP: usize = 5;

/// The position in a sorted list of `len` values whose value stands for
/// percentile `p`: `len * p / 100`, kept inside the list.
pub open spec fn percentile_position(len: nat, p: nat) -> nat {
    if len * p / 100 < len {
        len * p / 100
    } else {
        (len - 1) as nat
    }
}

/// The position for percentile `p` in a sorted list of `len` values.
pub fn percentile_index(len: usize, p: usize) -> (r: usize)
    requires
        len > 0,
        p <= 100,
    ensures
        r as nat == percentile_position(len as nat, p as nat),
        r < len,
{
    assert((len as int) * (p as int) <= 0xffff_ffff_ffff_ffff * 100) by (nonlinear_arith)
        requires
            len <= 0xffff_ffff_ffff_ffff,
            p <= 100,
    ;
    let wide: u128 = (len as u128) * (p as u128) / 100;
    if wide < len as u128 {
        wide as usize
    } else {
        len - 1
    }
}

/// The positions for the percentiles 0, 5, ..., 100 in a sorted list of
/// `len` values; none where the list is empty.
pub fn percentile_indexes(len: usize) -> (r: Vec<usize>)
    ensures
        len == 0 ==> r@.len() == 0,
        len > 0 ==> r@.len() == 21,
        len > 0 ==> forall|k: int|
            0 <= k < 21 ==> #[trigger] r@[k] as nat == percentile_position(
                len as nat,
                (k * PERCENTILE_STEP) as nat,
            ),
{
    let mut r: Vec<usize> = Vec::new();
    if len == 0 {
        return r;
    }
    let mut k: usize = 0;
    while k < 21
        invariant
            len > 0,
            k <= 21,
            r@.len() == k,
            forall|j: int|
                0 <= j < k ==> #[trigger] r@[j] as nat == percentile_position(
                    len as nat,
                    (j * PERCENTILE_STEP) as nat,
                ),
        decreases 21 - k,
    {
        let i = percentile_index(len, k * PERCENTILE_STEP);
        r.push(i);
        k = k + 1;
    }
    r
}

/// The positions never go backwards as the percentile grows, so on sorted
/// values the bucket values are sorted too.
pub proof fn lemma_positions_monotonic(len: nat, p: nat, q: nat)
    requires
        len > 0,
        p <= q <= 100,
    ensures
        percentile_position(len, p) <= percentile_position(len, q),
        percentile_position(len, p) < len,
{
    assert(len * p <= len * q) by (nonlinear_arith)
        requires
            p <= q,
    ;
    assert(len * p / 100 <= len * q / 100) by (nonlinear_arith)
        requires
            len * p <= len * q,
    ;
}

} // verus!
