//! Contact islands and the island-wide sleep decision.
//!
//! An island is a connected component of the graph whose vertices are the
//! bodies and whose edges are the contacts between two **dynamic** bodies;
//! static and kinematic bodies never link two bodies into one island. Each
//! body is labelled with the smallest index of its island, and an island goes
//! to sleep only when every dynamic member has rested long enough.
use crate::body::{is_dynamic, BodyType};
use vstd::prelude::*;

verus! {

/// Root of `x` in a parent array where every parent index is at most its
/// child's index: follow parents until a fixed point.
pub open spec fn root_of(parent: Seq<usize>, x: int) -> int
    decreases x,
{
    if 0 <= x < parent.len() && parent[x] < x {
        root_of(parent, parent[x] as int)
    } else {
        x
    }
}

/// Parent arrays in which every parent index is at most its child's index.
pub open spec fn parents_point_down(parent: Seq<usize>) -> bool {
    forall|i: int| 0 <= i < parent.len() ==> #[trigger] parent[i] <= i
}

proof fn lemma_root_bounds(parent: Seq<usize>, x: int)
    requires
        parents_point_down(parent),
        0 <= x < parent.len(),
    ensures
        0 <= root_of(parent, x) <= x,
        parent[root_of(parent, x)] == root_of(parent, x),
    decreases x,
{
    if parent[x] < x {
        lemma_root_bounds(parent, parent[x] as int);
    }
}

/// Pointing `x` straight at its root leaves every root unchanged.
proof fn lemma_compress_keeps_roots(parent: Seq<usize>, x: int, i: int)
    requires
        parents_point_down(parent),
        0 <= x < parent.len(),
        0 <= i < parent.len(),
    ensures
        root_of(parent.update(x, root_of(parent, x) as usize), i) == root_of(parent, i),
    decreases i,
{
    let r = root_of(parent, x);
    lemma_root_bounds(parent, x);
    assert(parent[r] == r);
    assert((r as usize) as int == r);
    let p2 = parent.update(x, r as usize);
    if i == x {
        assert(p2[x] == r);
        if r < x {
            assert(p2[r] == r);
            assert(root_of(p2, r) == r);
            assert(root_of(p2, x) == root_of(p2, r));
        } else {
            assert(root_of(p2, x) == x);
        }
    } else {
        assert(p2[i] == parent[i]);
        if parent[i] < i {
            lemma_compress_keeps_roots(parent, x, parent[i] as int);
            assert(root_of(p2, i) == root_of(p2, parent[i] as int));
        }
    }
}

/// Hanging root `hi` under the smaller root `lo` relabels exactly the class of `hi`.
proof fn lemma_link_relabels(parent: Seq<usize>, lo: int, hi: int, i: int)
    requires
        parents_point_down(parent),
        0 <= lo < hi < parent.len(),
        parent[lo] == lo,
        parent[hi] == hi,
        0 <= i < parent.len(),
    ensures
        root_of(parent.update(hi, lo as usize), i) == (if root_of(parent, i) == hi {
            lo
        } else {
            root_of(parent, i)
        }),
    decreases i,
{
    assert((lo as usize) as int == lo);
    let p2 = parent.update(hi, lo as usize);
    if parent[i] < i {
        assert(i != hi);
        assert(p2[i] == parent[i]);
        lemma_link_relabels(parent, lo, hi, parent[i] as int);
        assert(root_of(p2, i) == root_of(p2, parent[i] as int));
    } else if i == hi {
        assert(p2[hi] == lo);
        assert(p2[lo] == lo);
        assert(root_of(p2, lo) == lo);
    } else {
        assert(p2[i] == parent[i]);
    }
}

/// Disjoint-set forest over `0..n` whose roots are always the smallest member
/// of their set (union links the larger root under the smaller one).
pub struct UnionFind {
    parent: Vec<usize>,
}

impl UnionFind {
    /// Every parent index is at most its child's index.
    pub closed spec fn wf(&self) -> bool {
        parents_point_down(self.parent@)
    }

    /// Number of elements.
    pub closed spec fn size(&self) -> nat {
        self.parent@.len()
    }

    /// Representative of `x`.
    pub closed spec fn root(&self, x: int) -> int {
        root_of(self.parent@, x)
    }

    /// The parent link of `x` in the forest.
    pub closed spec fn parent_of(&self, x: int) -> int {
        self.parent@[x] as int
    }

    /// Roots are in range, are fixed points and never exceed the element.
    pub proof fn lemma_root_facts(&self, x: int)
        requires
            self.wf(),
            0 <= x < self.size(),
        ensures
            0 <= self.root(x) <= x,
            self.root(self.root(x)) == self.root(x),
    {
        lemma_root_bounds(self.parent@, x);
        let r = root_of(self.parent@, x);
        lemma_root_bounds(self.parent@, r);
    }

    /// `n` singleton sets.
    pub fn new(n: usize) -> (uf: UnionFind)
        ensures
            uf.wf(),
            uf.size() == n,
            forall|i: int| 0 <= i < n ==> #[trigger] uf.root(i) == i,
    {
        let mut parent: Vec<usize> = Vec::new();
        let mut i: usize = 0;
        while i < n
            invariant
                i <= n,
                parent@.len() == i,
                forall|k: int| 0 <= k < i ==> parent@[k] == k,
            decreases n - i,
        {
            parent.push(i);
            i = i + 1;
        }
        UnionFind { parent }
    }

    /// Representative of `x`, compressing the path on the way. The partition
    /// is left as it was.
    pub fn find(&mut self, x: usize) -> (r: usize)
        requires
            old(self).wf(),
            x < old(self).size(),
        ensures
            final(self).wf(),
            final(self).size() == old(self).size(),
            r == old(self).root(x as int),
            r <= x,
            final(self).parent_of(x as int) == r,
            final(self).parent_of(r as int) == r,
            forall|i: int| 0 <= i < old(self).size() ==> #[trigger] final(self).root(i) == old(self).root(i),
        decreases x,
    {
        let px = self.parent[x];
        let ghost before = *self;
        if px != x {
            let r = self.find(px);
            let ghost mid = *self;
            proof {
                assert(before.root(x as int) == before.root(px as int));
                assert(self.root(x as int) == before.root(x as int));
                lemma_root_bounds(self.parent@, x as int);
                assert forall|i: int| 0 <= i < self.parent@.len() implies #[trigger] root_of(
                    self.parent@.update(x as int, r),
                    i,
                ) == root_of(self.parent@, i) by {
                    lemma_compress_keeps_roots(self.parent@, x as int, i);
                }
            }
            self.parent.set(x, r);
            proof {
                assert forall|i: int| 0 <= i < before.size() implies #[trigger] self.root(i)
                    == before.root(i) by {
                    assert(root_of(self.parent@, i) == root_of(mid.parent@, i));
                    assert(mid.root(i) == before.root(i));
                }
            }
            r
        } else {
            x
        }
    }

    /// Merges the sets of `a` and `b`; the smaller root becomes the root of the union.
    pub fn union(&mut self, a: usize, b: usize)
        requires
            old(self).wf(),
            a < old(self).size(),
            b < old(self).size(),
        ensures
            final(self).wf(),
            final(self).size() == old(self).size(),
            ({
                let ra = old(self).root(a as int);
                let rb = old(self).root(b as int);
                let lo = if ra < rb { ra } else { rb };
                let hi = if ra < rb { rb } else { ra };
                forall|i: int|
                    0 <= i < old(self).size() ==> #[trigger] final(self).root(i) == (if old(
                        self,
                    ).root(i) == hi {
                        lo
                    } else {
                        old(self).root(i)
                    })
            }),
    {
        let ghost s0 = *self;
        let ra = self.find(a);
        let ghost s1 = *self;
        let rb = self.find(b);
        proof {
            assert(self.root(a as int) == s1.root(a as int));
            assert(ra == s0.root(a as int));
            assert(rb == s1.root(b as int));
            assert(s1.root(b as int) == s0.root(b as int));
            assert forall|i: int| 0 <= i < s0.size() implies #[trigger] self.root(i) == s0.root(i) by {
                assert(s1.root(i) == s0.root(i));
            }
            lemma_root_bounds(self.parent@, a as int);
            lemma_root_bounds(self.parent@, b as int);
            assert(ra == root_of(self.parent@, a as int));
            assert(self.root(b as int) == s1.root(b as int));
            assert(rb == root_of(self.parent@, b as int));
            assert(ra < self.parent@.len() && rb < self.parent@.len());
        }
        if ra != rb {
            let (lo, hi) = if ra < rb {
                (ra, rb)
            } else {
                (rb, ra)
            };
            proof {
                assert forall|i: int| 0 <= i < self.parent@.len() implies #[trigger] root_of(
                    self.parent@.update(hi as int, lo),
                    i,
                ) == (if root_of(self.parent@, i) == hi {
                    lo as int
                } else {
                    root_of(self.parent@, i)
                }) by {
                    lemma_link_relabels(self.parent@, lo as int, hi as int, i);
                }
            }
            let ghost s2 = *self;
            self.parent.set(hi, lo);
            proof {
                assert forall|i: int| 0 <= i < s0.size() implies #[trigger] self.root(i) == (if s0.root(
                    i,
                ) == hi {
                    lo as int
                } else {
                    s0.root(i)
                }) by {
                    assert(s2.root(i) == s0.root(i));
                }
            }
        }
    }
}

/// Whether contact `k` joins two dynamic bodies.
pub open spec fn dynamic_link(types: Seq<BodyType>, pairs: Seq<(usize, usize)>, k: int) -> bool {
    is_dynamic(types[pairs[k].0 as int]) && is_dynamic(types[pairs[k].1 as int])
}

/// A labelling that gives both ends of every dynamic–dynamic contact the same label.
pub open spec fn respects_contacts(
    label: Seq<int>,
    types: Seq<BodyType>,
    pairs: Seq<(usize, usize)>,
) -> bool {
    forall|k: int|
        0 <= k < pairs.len() && #[trigger] dynamic_link(types, pairs, k) ==> label[pairs[k].0 as int]
            == label[pairs[k].1 as int]
}

/// Bodies `i` and `j` lie in one island: every labelling that respects the
/// dynamic–dynamic contacts labels them alike (the finest such partition is
/// exactly the set of connected components of the contact graph).
pub open spec fn same_island(
    types: Seq<BodyType>,
    pairs: Seq<(usize, usize)>,
    i: int,
    j: int,
) -> bool {
    forall|label: Seq<int>| #[trigger] respects_contacts(label, types, pairs) ==> label[i] == label[j]
}

/// Every contact refers to a body that exists.
pub open spec fn pairs_in_range(n: nat, pairs: Seq<(usize, usize)>) -> bool {
    forall|k: int| 0 <= k < pairs.len() ==> (#[trigger] pairs[k]).0 < n && pairs[k].1 < n
}

/// `roots` labels each body with the smallest index of its island.
pub open spec fn island_labels(
    roots: Seq<usize>,
    types: Seq<BodyType>,
    pairs: Seq<(usize, usize)>,
) -> bool {
    &&& roots.len() == types.len()
    &&& forall|i: int|
        0 <= i < roots.len() ==> {
            &&& #[trigger] roots[i] <= i
            &&& same_island(types, pairs, i, roots[i] as int)
        }
    &&& forall|i: int, j: int|
        0 <= i < roots.len() && 0 <= j < roots.len() ==> (same_island(types, pairs, i, j) <==> #[trigger] roots[i]
            == #[trigger] roots[j])
}

spec fn as_labels(roots: Seq<usize>) -> Seq<int> {
    roots.map_values(|r: usize| r as int)
}

/// Labels every body with the smallest index of its contact island. Contacts
/// that involve a static or kinematic body do not link anything.
pub fn compute_islands(types: &Vec<BodyType>, pairs: &Vec<(usize, usize)>) -> (roots: Vec<usize>)
    requires
        pairs_in_range(types@.len(), pairs@),
    ensures
        island_labels(roots@, types@, pairs@),
{
    let n = types.len();
    let mut uf = UnionFind::new(n);
    let mut k: usize = 0;
    while k < pairs.len()
        invariant
            n == types@.len(),
            pairs_in_range(types@.len(), pairs@),
            k <= pairs@.len(),
            uf.wf(),
            uf.size() == n,
            forall|q: int|
                0 <= q < k && #[trigger] dynamic_link(types@, pairs@, q) ==> uf.root(pairs@[q].0 as int)
                    == uf.root(pairs@[q].1 as int),
            forall|label: Seq<int>|
                #[trigger] respects_contacts(label, types@, pairs@) ==> forall|i: int|
                    0 <= i < n ==> label[i] == label[#[trigger] uf.root(i)],
        decreases pairs@.len() - k,
    {
        let (a, b) = pairs[k];
        assert(pairs@[k as int] == (a, b));
        if types[a] == BodyType::Dynamic && types[b] == BodyType::Dynamic {
            let ghost old_uf = uf;
            assert(dynamic_link(types@, pairs@, k as int));
            uf.union(a, b);
            proof {
                let ra = old_uf.root(a as int);
                let rb = old_uf.root(b as int);
                assert forall|label: Seq<int>| #[trigger]
                    respects_contacts(label, types@, pairs@) implies forall|i: int|
                    0 <= i < n ==> label[i] == label[#[trigger] uf.root(i)] by {
                    assert(label[a as int] == label[b as int]);
                    assert(label[a as int] == label[ra]);
                    assert(label[b as int] == label[rb]);
                    assert forall|i: int| 0 <= i < n implies label[i] == label[#[trigger] uf.root(
                        i,
                    )] by {
                        assert(label[i] == label[old_uf.root(i)]);
                    }
                }
            }
        }
        k = k + 1;
    }
    let mut roots: Vec<usize> = Vec::new();
    let mut i: usize = 0;
    while i < n
        invariant
            n == types@.len(),
            i <= n,
            uf.wf(),
            uf.size() == n,
            roots@.len() == i,
            forall|q: int| 0 <= q < i ==> roots@[q] == #[trigger] uf.root(q),
            forall|q: int|
                0 <= q < pairs@.len() && #[trigger] dynamic_link(types@, pairs@, q) ==> uf.root(
                    pairs@[q].0 as int,
                ) == uf.root(pairs@[q].1 as int),
            forall|label: Seq<int>|
                #[trigger] respects_contacts(label, types@, pairs@) ==> forall|j: int|
                    0 <= j < n ==> label[j] == label[#[trigger] uf.root(j)],
        decreases n - i,
    {
        let r = uf.find(i);
        roots.push(r);
        i = i + 1;
    }
    proof {
        let lab = as_labels(roots@);
        assert forall|q: int| 0 <= q < n implies #[trigger] lab[q] == uf.root(q) && uf.root(q) <= q
            && uf.root(uf.root(q)) == uf.root(q) by {
            uf.lemma_root_facts(q);
        }
        assert(respects_contacts(lab, types@, pairs@)) by {
            assert forall|q: int|
                0 <= q < pairs@.len() && #[trigger] dynamic_link(
                    types@,
                    pairs@,
                    q,
                ) implies lab[pairs@[q].0 as int] == lab[pairs@[q].1 as int] by {
                assert(pairs@[q].0 < n && pairs@[q].1 < n);
            }
        }
        assert forall|x: int| 0 <= x < n implies {
            &&& #[trigger] roots@[x] <= x
            &&& same_island(types@, pairs@, x, roots@[x] as int)
        } by {
            assert(lab[x] == roots@[x]);
            assert forall|label: Seq<int>| #[trigger]
                respects_contacts(label, types@, pairs@) implies label[x] == label[roots@[x] as int] by {
                assert(label[x] == label[uf.root(x)]);
            }
        }
        assert forall|x: int, y: int| 0 <= x < n && 0 <= y < n implies (same_island(
            types@,
            pairs@,
            x,
            y,
        ) <==> #[trigger] roots@[x] == #[trigger] roots@[y]) by {
            assert(lab[x] == roots@[x] && lab[y] == roots@[y]);
            if same_island(types@, pairs@, x, y) {
                assert(lab[x] == lab[y]);
            }
            if roots@[x] == roots@[y] {
                assert forall|label: Seq<int>| #[trigger]
                    respects_contacts(label, types@, pairs@) implies label[x] == label[y] by {
                    assert(label[x] == label[uf.root(x)]);
                    assert(label[y] == label[uf.root(y)]);
                }
            }
        }
    }
    roots
}

/// Being in one island is an equivalence relation.
pub proof fn lemma_same_island_is_equivalence(
    types: Seq<BodyType>,
    pairs: Seq<(usize, usize)>,
    i: int,
    j: int,
    k: int,
)
    ensures
        same_island(types, pairs, i, i),
        same_island(types, pairs, i, j) ==> same_island(types, pairs, j, i),
        same_island(types, pairs, i, j) && same_island(types, pairs, j, k) ==> same_island(
            types,
            pairs,
            i,
            k,
        ),
{
}

/// A contact between two dynamic bodies puts them in one island.
pub proof fn lemma_dynamic_contact_joins(types: Seq<BodyType>, pairs: Seq<(usize, usize)>, k: int)
    requires
        0 <= k < pairs.len(),
        dynamic_link(types, pairs, k),
    ensures
        same_island(types, pairs, pairs[k].0 as int, pairs[k].1 as int),
{
}

/// A static or kinematic body links nothing: its island is itself alone, even
/// when it touches many dynamic bodies (one floor does not make one island).
pub proof fn lemma_non_dynamic_body_is_alone(
    types: Seq<BodyType>,
    pairs: Seq<(usize, usize)>,
    i: int,
    j: int,
)
    requires
        0 <= i < types.len(),
        0 <= j < types.len(),
        !is_dynamic(types[i]),
        pairs_in_range(types.len(), pairs),
        i != j,
    ensures
        !same_island(types, pairs, i, j),
        !same_island(types, pairs, j, i),
{
    let label = Seq::new(types.len(), |x: int| if x == i { 1int } else { 0int });
    assert(respects_contacts(label, types, pairs)) by {
        assert forall|k: int| 0 <= k < pairs.len() && #[trigger] dynamic_link(types, pairs, k) implies label[pairs[k].0 as int] == label[pairs[k].1 as int] by {
            assert(pairs[k].0 < types.len() && pairs[k].1 < types.len());
        }
    }
}

/// Two dynamic bodies of one island always get the same sleep flag.
pub proof fn lemma_island_sleeps_together(
    types: Seq<BodyType>,
    pairs: Seq<(usize, usize)>,
    rested: Seq<bool>,
    i: int,
    j: int,
)
    requires
        same_island(types, pairs, i, j),
    ensures
        island_rested(types, pairs, rested, i) == island_rested(types, pairs, rested, j),
{
    lemma_same_island_is_equivalence(types, pairs, i, j, i);
    if island_rested(types, pairs, rested, i) {
        assert forall|k: int|
            0 <= k < types.len() && is_dynamic(types[k]) && #[trigger] same_island(
                types,
                pairs,
                j,
                k,
            ) implies rested[k] by {
            lemma_same_island_is_equivalence(types, pairs, i, j, k);
            assert(same_island(types, pairs, i, k));
        }
    }
    if island_rested(types, pairs, rested, j) {
        assert forall|k: int|
            0 <= k < types.len() && is_dynamic(types[k]) && #[trigger] same_island(
                types,
                pairs,
                i,
                k,
            ) implies rested[k] by {
            lemma_same_island_is_equivalence(types, pairs, j, i, k);
            assert(same_island(types, pairs, j, k));
        }
    }
}

/// One dynamic member that has not rested keeps its whole island awake; in
/// particular a fresh contact with a moving body wakes a resting island.
pub proof fn lemma_restless_member_keeps_island_awake(
    types: Seq<BodyType>,
    pairs: Seq<(usize, usize)>,
    rested: Seq<bool>,
    i: int,
    j: int,
)
    requires
        0 <= j < types.len(),
        is_dynamic(types[j]),
        !rested[j],
        same_island(types, pairs, i, j),
    ensures
        !island_rested(types, pairs, rested, i),
{
}

/// The island of dynamic body `i` may sleep: every dynamic body of its island
/// has rested long enough.
pub open spec fn island_rested(
    types: Seq<BodyType>,
    pairs: Seq<(usize, usize)>,
    rested: Seq<bool>,
    i: int,
) -> bool {
    forall|j: int|
        0 <= j < types.len() && is_dynamic(types[j]) && #[trigger] same_island(types, pairs, i, j)
            ==> rested[j]
}

/// Sleep flags after one step. `rested[i]` says that dynamic body `i` has been
/// below the speed thresholds for at least the sleep time; `asleep` holds the
/// current flags. A dynamic body sleeps exactly when its whole island has
/// rested (one restless member keeps the island awake, and two islands that
/// merge through a new contact wake together); static and kinematic bodies
/// keep their flag.
pub fn next_sleep_flags(
    types: &Vec<BodyType>,
    pairs: &Vec<(usize, usize)>,
    rested: &Vec<bool>,
    asleep: &Vec<bool>,
) -> (next: Vec<bool>)
    requires
        pairs_in_range(types@.len(), pairs@),
        rested@.len() == types@.len(),
        asleep@.len() == types@.len(),
    ensures
        next@.len() == types@.len(),
        forall|i: int|
            0 <= i < types@.len() ==> #[trigger] next@[i] == (if is_dynamic(types@[i]) {
                island_rested(types@, pairs@, rested@, i)
            } else {
                asleep@[i]
            }),
{
    let n = types.len();
    let roots = compute_islands(types, pairs);
    let mut island_ok: Vec<bool> = Vec::new();
    let mut i: usize = 0;
    while i < n
        invariant
            i <= n,
            island_ok@.len() == i,
            forall|q: int| 0 <= q < i ==> island_ok@[q],
        decreases n - i,
    {
        island_ok.push(true);
        i = i + 1;
    }
    let mut i: usize = 0;
    while i < n
        invariant
            n == types@.len(),
            rested@.len() == n,
            i <= n,
            island_labels(roots@, types@, pairs@),
            island_ok@.len() == n,
            forall|r: int|
                0 <= r < n ==> #[trigger] island_ok@[r] == (forall|j: int|
                    0 <= j < i && is_dynamic(types@[j]) && roots@[j] == r ==> rested@[j]),
        decreases n - i,
    {
        if types[i] == BodyType::Dynamic && !rested[i] {
            assert(roots@[i as int] <= i);
            island_ok.set(roots[i], false);
        }
        i = i + 1;
    }
    let mut next: Vec<bool> = Vec::new();
    let mut i: usize = 0;
    while i < n
        invariant
            n == types@.len(),
            rested@.len() == n,
            asleep@.len() == n,
            i <= n,
            island_labels(roots@, types@, pairs@),
            island_ok@.len() == n,
            forall|r: int|
                0 <= r < n ==> #[trigger] island_ok@[r] == (forall|j: int|
                    0 <= j < n && is_dynamic(types@[j]) && roots@[j] == r ==> rested@[j]),
            next@.len() == i,
            forall|q: int|
                0 <= q < i ==> #[trigger] next@[q] == (if is_dynamic(types@[q]) {
                    island_rested(types@, pairs@, rested@, q)
                } else {
                    asleep@[q]
                }),
        decreases n - i,
    {
        if types[i] == BodyType::Dynamic {
            let ok = island_ok[roots[i]];
            proof {
                let r = roots@[i as int] as int;
                assert(r <= i);
                assert(ok == island_rested(types@, pairs@, rested@, i as int)) by {
                    assert forall|j: int|
                        0 <= j < n && is_dynamic(types@[j]) && #[trigger] same_island(
                            types@,
                            pairs@,
                            i as int,
                            j,
                        ) implies roots@[j] == r by {
                        assert(roots@[i as int] == roots@[j]);
                    }
                    if ok {
                        assert forall|j: int|
                            0 <= j < n && is_dynamic(types@[j]) && #[trigger] same_island(
                                types@,
                                pairs@,
                                i as int,
                                j,
                            ) implies rested@[j] by {
                            assert(roots@[i as int] == roots@[j]);
                        }
                    } else {
                        let j = choose|j: int|
                            0 <= j < n && is_dynamic(types@[j]) && roots@[j] == r && !rested@[j];
                        assert(roots@[i as int] == roots@[j]);
                        assert(same_island(types@, pairs@, i as int, j));
                    }
                }
            }
            next.push(ok);
        } else {
            next.push(asleep[i]);
        }
        i = i + 1;
    }
    next
}

/// A contact still needs solving when at least one side is an awake dynamic
/// body; contacts between sleeping (or non-dynamic) bodies are skipped.
pub fn manifold_is_active(types: &Vec<BodyType>, asleep: &Vec<bool>, a: usize, b: usize) -> (active:
    bool)
    requires
        a < types@.len(),
        b < types@.len(),
        asleep@.len() == types@.len(),
    ensures
        active == ((is_dynamic(types@[a as int]) && !asleep@[a as int]) || (is_dynamic(
            types@[b as int],
        ) && !asleep@[b as int])),
{
    let a_awake_dynamic = types[a] == BodyType::Dynamic && !asleep[a];
    let b_awake_dynamic = types[b] == BodyType::Dynamic && !asleep[b];
    a_awake_dynamic || b_awake_dynamic
}

} // verus!
