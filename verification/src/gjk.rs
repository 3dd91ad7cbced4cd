//! Subset enumeration of the GJK simplex: every non-empty subset of the
//! current simplex vertices is named by a bit mask.
use vstd::prelude::*;

verus! {

/// Whether bit `i` of `mask` is set.
pub open spec fn mask_has(mask: u32, i: usize) -> bool {
    mask & (1u32 << (i as u32)) != 0u32
}

/// The vertex indices `0..n` selected by `mask`, in increasing order.
pub open spec fn mask_members(n: usize, mask: u32) -> Seq<usize> {
    Seq::new(n as nat, |i: int| i as usize).filter(|i: usize| mask_has(mask, i))
}

/// The simplex vertices (indices below `n`) whose bit is set in `mask`.
pub fn simplex_subset(n: usize, mask: u32) -> (subset: Vec<usize>)
    requires
        n <= 32,
    ensures
        subset@ == mask_members(n, mask),
{
    let ghost all = Seq::new(n as nat, |i: int| i as usize);
    let ghost pred = |i: usize| mask_has(mask, i);
    let mut subset: Vec<usize> = Vec::new();
    let mut i: usize = 0;
    while i < n
        invariant
            n <= 32,
            i <= n,
            all == Seq::new(n as nat, |q: int| q as usize),
            pred == (|q: usize| mask_has(mask, q)),
            subset@ == all.subrange(0, i as int).filter(pred),
        decreases n - i,
    {
        assert(all.subrange(0, i + 1) =~= all.subrange(0, i as int).push(i));
        proof {
            all.subrange(0, i as int).lemma_filter_push(i, pred);
        }
        let bit: u32 = 1u32 << (i as u32);
        if mask & bit != 0 {
            subset.push(i);
        }
        i = i + 1;
    }
    assert(all.subrange(0, n as int) =~= all);
    subset
}

} // verus!
