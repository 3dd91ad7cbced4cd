//! Topology of a straight rope: the particles `0..=segments` linked in a chain.
use vstd::prelude::*;

verus! {

/// The distance links of a rope of `segments` segments: particle `k` to
/// particle `k + 1`, for `k` in `0..segments`.
pub fn rope_links(segments: usize) -> (links: Vec<(usize, usize)>)
    ensures
        links@.len() == segments,
        forall|k: int| 0 <= k < segments ==> #[trigger] links@[k] == (k as usize, (k + 1) as usize),
{
    let mut links: Vec<(usize, usize)> = Vec::new();
    let mut k: usize = 0;
    while k < segments
        invariant
            k <= segments,
            links@.len() == k,
            forall|q: int| 0 <= q < k ==> #[trigger] links@[q] == (q as usize, (q + 1) as usize),
        decreases segments - k,
    {
        links.push((k, k + 1));
        k = k + 1;
    }
    links
}

} // verus!
