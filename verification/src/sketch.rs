//! Discrete rules of the 2D sketch tools: which split edges a polygon boolean
//! keeps, the boolean of an empty operand, and the index bookkeeping of the
//! triangulation (loop ranges in the flattened vertex list, and the splice
//! that bridges a hole into its outer ring).
use vstd::prelude::*;

verus! {

broadcast use vstd::seq_lib::group_seq_properties;

/// Boolean operation between two planar regions.
#[derive(Clone, Copy, PartialEq, Eq, Debug, Structural)]
pub enum BooleanOp {
    /// A ∪ B.
    Union,
    /// A − B (the only operation where the order matters).
    Subtract,
    /// A ∩ B.
    Intersect,
}

/// Where a split directed edge of one region lies relative to the other region
/// (decided at the edge's midpoint).
#[derive(Clone, Copy, PartialEq, Eq, Debug, Structural)]
pub enum EdgeClass {
    /// Strictly inside the other region.
    Inside,
    /// Strictly outside the other region.
    Outside,
    /// On the other region's boundary, running the same way.
    SharedSame,
    /// On the other region's boundary, running the opposite way.
    SharedOpposite,
}

/// The selection table for edges of the subject region A.
pub open spec fn subject_kept(op: BooleanOp, class: EdgeClass) -> bool {
    match op {
        BooleanOp::Union => class is Outside || class is SharedSame,
        BooleanOp::Intersect => class is Inside || class is SharedSame,
        BooleanOp::Subtract => class is Outside || class is SharedOpposite,
    }
}

/// The selection table for edges of the clip region B: `Some(reversed)` keeps
/// the edge (turned around when `reversed`), `None` drops it.
pub open spec fn clip_kept(op: BooleanOp, class: EdgeClass) -> Option<bool> {
    match op {
        BooleanOp::Union => if class is Outside { Some(false) } else { None },
        BooleanOp::Intersect => if class is Inside { Some(false) } else { None },
        BooleanOp::Subtract => if class is Inside { Some(true) } else { None },
    }
}

/// Whether an edge of the subject region A survives `op`. Union keeps A's
/// edges outside B and one copy of the shared boundary; intersection keeps
/// A's edges inside B and one copy of the shared boundary; subtraction keeps
/// A's edges outside B and the boundary where A and B touch back to back.
pub fn keep_subject(op: BooleanOp, class: EdgeClass) -> (keep: bool)
    ensures
        keep == subject_kept(op, class),
{
    match op {
        BooleanOp::Union => match class {
            EdgeClass::Outside | EdgeClass::SharedSame => true,
            _ => false,
        },
        BooleanOp::Intersect => match class {
            EdgeClass::Inside | EdgeClass::SharedSame => true,
            _ => false,
        },
        BooleanOp::Subtract => match class {
            EdgeClass::Outside | EdgeClass::SharedOpposite => true,
            _ => false,
        },
    }
}

/// Whether an edge of the clip region B survives `op`, and if so whether it is
/// turned around. Only subtraction turns edges: B's edges inside A become the
/// clockwise boundary of the hole.
pub fn keep_clip(op: BooleanOp, class: EdgeClass) -> (keep: Option<bool>)
    ensures
        keep == clip_kept(op, class),
{
    match op {
        BooleanOp::Union => match class {
            EdgeClass::Outside => Some(false),
            _ => None,
        },
        BooleanOp::Intersect => match class {
            EdgeClass::Inside => Some(false),
            _ => None,
        },
        BooleanOp::Subtract => match class {
            EdgeClass::Inside => Some(true),
            _ => None,
        },
    }
}

/// A shared boundary edge is taken exactly once, interior edges never reach
/// the result of a union, exterior edges never reach the result of an
/// intersection, and only subtraction turns clip edges around.
pub proof fn lemma_selection_table_laws(op: BooleanOp, class: EdgeClass)
    ensures
        !(subject_kept(op, EdgeClass::SharedSame) && clip_kept(op, EdgeClass::SharedSame) is Some),
        !(subject_kept(op, EdgeClass::SharedOpposite) && clip_kept(op, EdgeClass::SharedOpposite) is Some),
        op is Union ==> !subject_kept(op, EdgeClass::Inside) && clip_kept(op, EdgeClass::Inside) is None,
        op is Intersect ==> !subject_kept(op, EdgeClass::Outside) && clip_kept(op, EdgeClass::Outside) is None,
        op is Subtract ==> !subject_kept(op, EdgeClass::Inside) && clip_kept(op, EdgeClass::Outside) is None,
        clip_kept(op, class) == Some(true) ==> op is Subtract,
{
}

/// A split directed edge between two interned points, with its class.
#[derive(Clone, Copy, PartialEq, Eq, Debug, Structural)]
pub struct Segment {
    pub from: usize,
    pub to: usize,
    pub class: EdgeClass,
}

/// The directed edges that a boolean keeps from the subject's segments, in order.
pub open spec fn subject_selection(op: BooleanOp, segs: Seq<Segment>) -> Seq<(usize, usize)>
    decreases segs.len(),
{
    if segs.len() == 0 {
        Seq::empty()
    } else {
        let rest = subject_selection(op, segs.drop_last());
        let s = segs.last();
        if subject_kept(op, s.class) {
            rest.push((s.from, s.to))
        } else {
            rest
        }
    }
}

/// The directed edges that a boolean keeps from the clip's segments, in order,
/// turned around where the table says so.
pub open spec fn clip_selection(op: BooleanOp, segs: Seq<Segment>) -> Seq<(usize, usize)>
    decreases segs.len(),
{
    if segs.len() == 0 {
        Seq::empty()
    } else {
        let rest = clip_selection(op, segs.drop_last());
        let s = segs.last();
        match clip_kept(op, s.class) {
            Some(false) => rest.push((s.from, s.to)),
            Some(true) => rest.push((s.to, s.from)),
            None => rest,
        }
    }
}

/// Picks the directed edges of a polygon boolean: the kept edges of A in
/// order, then the kept (possibly reversed) edges of B in order. Stitching
/// these edges into loops gives the result region.
pub fn select_boolean_edges(op: BooleanOp, a_segments: &Vec<Segment>, b_segments: &Vec<Segment>) -> (selected:
    Vec<(usize, usize)>)
    ensures
        selected@ == subject_selection(op, a_segments@) + clip_selection(op, b_segments@),
{
    let mut selected: Vec<(usize, usize)> = Vec::new();
    let mut i: usize = 0;
    while i < a_segments.len()
        invariant
            i <= a_segments@.len(),
            selected@ == subject_selection(op, a_segments@.subrange(0, i as int)),
        decreases a_segments@.len() - i,
    {
        let s = a_segments[i];
        assert(a_segments@.subrange(0, i + 1).drop_last() =~= a_segments@.subrange(0, i as int));
        if keep_subject(op, s.class) {
            selected.push((s.from, s.to));
        }
        i = i + 1;
    }
    assert(a_segments@.subrange(0, a_segments@.len() as int) =~= a_segments@);
    let ghost from_a = selected@;
    let mut j: usize = 0;
    while j < b_segments.len()
        invariant
            j <= b_segments@.len(),
            selected@ == from_a + clip_selection(op, b_segments@.subrange(0, j as int)),
        decreases b_segments@.len() - j,
    {
        let s = b_segments[j];
        assert(b_segments@.subrange(0, j + 1).drop_last() =~= b_segments@.subrange(0, j as int));
        match keep_clip(op, s.class) {
            Some(false) => selected.push((s.from, s.to)),
            Some(true) => selected.push((s.to, s.from)),
            None => {},
        }
        proof {
            let prev = clip_selection(op, b_segments@.subrange(0, j as int));
            assert(from_a + prev.push((s.from, s.to)) =~= (from_a + prev).push((s.from, s.to)));
            assert(from_a + prev.push((s.to, s.from)) =~= (from_a + prev).push((s.to, s.from)));
        }
        j = j + 1;
    }
    assert(b_segments@.subrange(0, b_segments@.len() as int) =~= b_segments@);
    selected
}

/// Whether a subject (A) edge of class `class` bounds the result of `op`:
/// a union keeps A's edges outside B and shared edges running the same way,
/// an intersection A's edges inside B and shared same-way edges, a
/// subtraction A's edges outside B and shared edges running against B.
pub open spec fn subject_bounds_result(op: BooleanOp, class: EdgeClass) -> bool {
    ||| op is Union && (class is Outside || class is SharedSame)
    ||| op is Intersect && (class is Inside || class is SharedSame)
    ||| op is Subtract && (class is Outside || class is SharedOpposite)
}

/// Whether the directed edge `e` is what clip (B) segment `s` contributes to
/// the result of `op`: for a union B's edges outside A as they run, for an
/// intersection B's edges inside A as they run, for a subtraction B's edges
/// inside A turned around (they bound the hole cut into A).
pub open spec fn clip_contributes(op: BooleanOp, s: Segment, e: (usize, usize)) -> bool {
    ||| op is Union && s.class is Outside && e == (s.from, s.to)
    ||| op is Intersect && s.class is Inside && e == (s.from, s.to)
    ||| op is Subtract && s.class is Inside && e == (s.to, s.from)
}

/// The subject part of the selection holds exactly the edges of A's segments
/// whose class bounds the result.
pub proof fn lemma_subject_selection_members(op: BooleanOp, segs: Seq<Segment>, e: (usize, usize))
    ensures
        subject_selection(op, segs).contains(e) <==> exists|k: int|
            0 <= k < segs.len() && (#[trigger] segs[k]).from == e.0 && segs[k].to == e.1
                && subject_bounds_result(op, segs[k].class),
    decreases segs.len(),
{
    if segs.len() > 0 {
        let init = segs.drop_last();
        let s = segs.last();
        lemma_subject_selection_members(op, init, e);
        if subject_selection(op, segs).contains(e) {
            if subject_selection(op, init).contains(e) {
                let k = choose|k: int|
                    0 <= k < init.len() && (#[trigger] init[k]).from == e.0 && init[k].to == e.1
                        && subject_bounds_result(op, init[k].class);
                assert(segs[k] == init[k]);
            } else {
                assert(segs[segs.len() - 1] == s);
            }
        }
        if exists|k: int|
            0 <= k < segs.len() && (#[trigger] segs[k]).from == e.0 && segs[k].to == e.1
                && subject_bounds_result(op, segs[k].class) {
            let k = choose|k: int|
                0 <= k < segs.len() && (#[trigger] segs[k]).from == e.0 && segs[k].to == e.1
                    && subject_bounds_result(op, segs[k].class);
            if k < init.len() {
                assert(init[k] == segs[k]);
            }
        }
    }
}

/// The clip part of the selection holds exactly the edges that B's segments
/// contribute to the result.
pub proof fn lemma_clip_selection_members(op: BooleanOp, segs: Seq<Segment>, e: (usize, usize))
    ensures
        clip_selection(op, segs).contains(e) <==> exists|k: int|
            0 <= k < segs.len() && clip_contributes(op, #[trigger] segs[k], e),
    decreases segs.len(),
{
    if segs.len() > 0 {
        let init = segs.drop_last();
        let s = segs.last();
        lemma_clip_selection_members(op, init, e);
        if clip_selection(op, segs).contains(e) {
            if clip_selection(op, init).contains(e) {
                let k = choose|k: int| 0 <= k < init.len() && clip_contributes(op, #[trigger] init[k], e);
                assert(segs[k] == init[k]);
            } else {
                assert(segs[segs.len() - 1] == s);
            }
        }
        if exists|k: int| 0 <= k < segs.len() && clip_contributes(op, #[trigger] segs[k], e) {
            let k = choose|k: int| 0 <= k < segs.len() && clip_contributes(op, #[trigger] segs[k], e);
            if k < init.len() {
                assert(init[k] == segs[k]);
            }
        }
    }
}

/// What a polygon boolean keeps: an edge is selected exactly when it is a
/// subject edge whose class bounds the result, or what a clip segment
/// contributes (in a union every edge of B outside A is selected, in a
/// subtraction every edge of B inside A is selected turned around).
pub proof fn lemma_boolean_selection_members(
    op: BooleanOp,
    a_segments: Seq<Segment>,
    b_segments: Seq<Segment>,
    e: (usize, usize),
)
    ensures
        (subject_selection(op, a_segments) + clip_selection(op, b_segments)).contains(e) <==> (
        (exists|k: int|
            0 <= k < a_segments.len() && (#[trigger] a_segments[k]).from == e.0 && a_segments[k].to
                == e.1 && subject_bounds_result(op, a_segments[k].class)) || (exists|k: int|
            0 <= k < b_segments.len() && clip_contributes(op, #[trigger] b_segments[k], e))),
{
    lemma_subject_selection_members(op, a_segments, e);
    lemma_clip_selection_members(op, b_segments, e);
    let x = subject_selection(op, a_segments);
    let y = clip_selection(op, b_segments);
    if (x + y).contains(e) {
        let i = choose|i: int| 0 <= i < (x + y).len() && (x + y)[i] == e;
        if i < x.len() {
            assert(x[i] == e);
        } else {
            assert(y[i - x.len()] == e);
        }
    }
    if x.contains(e) {
        let i = choose|i: int| 0 <= i < x.len() && x[i] == e;
        assert((x + y)[i] == e);
    }
    if y.contains(e) {
        let i = choose|i: int| 0 <= i < y.len() && y[i] == e;
        assert((x + y)[x.len() + i] == e);
    }
}

/// Whether a clip (B) segment of class `class` contributes to the result of
/// `op` at all (turned around or not).
pub open spec fn clip_bounds_result(op: BooleanOp, class: EdgeClass) -> bool {
    ||| op is Union && class is Outside
    ||| (op is Intersect || op is Subtract) && class is Inside
}

/// The selection in closed form: A's segments whose class bounds the result,
/// in A's order, as they run; then B's contributing segments, in B's order,
/// turned around for a subtraction.
pub proof fn lemma_boolean_selection_in_order(op: BooleanOp, a_segments: Seq<Segment>, b_segments: Seq<
    Segment,
>)
    ensures
        subject_selection(op, a_segments) == a_segments.filter(
            |s: Segment| subject_bounds_result(op, s.class),
        ).map_values(|s: Segment| (s.from, s.to)),
        clip_selection(op, b_segments) == b_segments.filter(
            |s: Segment| clip_bounds_result(op, s.class),
        ).map_values(
            |s: Segment|
                if op is Subtract {
                    (s.to, s.from)
                } else {
                    (s.from, s.to)
                },
        ),
    decreases a_segments.len() + b_segments.len(),
{
    let sp = |s: Segment| subject_bounds_result(op, s.class);
    let sf = |s: Segment| (s.from, s.to);
    let cp = |s: Segment| clip_bounds_result(op, s.class);
    let cf = |s: Segment|
        if op is Subtract {
            (s.to, s.from)
        } else {
            (s.from, s.to)
        };
    if a_segments.len() > 0 {
        let init = a_segments.drop_last();
        let last = a_segments.last();
        lemma_boolean_selection_in_order(op, init, Seq::empty());
        assert(a_segments =~= init.push(last));
        init.lemma_filter_push(last, sp);
        if sp(last) {
            assert(init.filter(sp).push(last).map_values(sf) =~= init.filter(sp).map_values(sf).push(
                sf(last),
            ));
        }
    } else {
        assert(a_segments.filter(sp) =~= Seq::<Segment>::empty()) by {
            reveal(Seq::filter);
        }
        assert(a_segments.filter(sp).map_values(sf) =~= Seq::<(usize, usize)>::empty());
    }
    if b_segments.len() > 0 {
        let init = b_segments.drop_last();
        let last = b_segments.last();
        lemma_boolean_selection_in_order(op, Seq::empty(), init);
        assert(b_segments =~= init.push(last));
        init.lemma_filter_push(last, cp);
        if cp(last) {
            assert(init.filter(cp).push(last).map_values(cf) =~= init.filter(cp).map_values(cf).push(
                cf(last),
            ));
        }
    } else {
        assert(b_segments.filter(cp) =~= Seq::<Segment>::empty()) by {
            reveal(Seq::filter);
        }
        assert(b_segments.filter(cp).map_values(cf) =~= Seq::<(usize, usize)>::empty());
    }
}

/// Result of a boolean whose operand is empty, decided without any geometry.
#[derive(Clone, Copy, PartialEq, Eq, Debug, Structural)]
pub enum BooleanShortcut {
    /// The result is empty.
    Empty,
    /// The result is the subject A unchanged.
    Subject,
    /// The result is the clip B unchanged.
    Clip,
}

/// The boolean of an empty operand: ∅ ∪ B = B, ∅ − B = ∅, ∅ ∩ B = ∅,
/// A ∪ ∅ = A, A − ∅ = A, A ∩ ∅ = ∅. `None` when both operands have a loop
/// and the edges must be split and selected.
pub fn boolean_shortcut(op: BooleanOp, a_is_empty: bool, b_is_empty: bool) -> (r: Option<
    BooleanShortcut,
>)
    ensures
        a_is_empty ==> r == Some(
            if op is Union {
                BooleanShortcut::Clip
            } else {
                BooleanShortcut::Empty
            },
        ),
        !a_is_empty && b_is_empty ==> r == Some(
            if op is Intersect {
                BooleanShortcut::Empty
            } else {
                BooleanShortcut::Subject
            },
        ),
        !a_is_empty && !b_is_empty ==> r is None,
{
    if a_is_empty {
        match op {
            BooleanOp::Union => Some(BooleanShortcut::Clip),
            _ => Some(BooleanShortcut::Empty),
        }
    } else if b_is_empty {
        match op {
            BooleanOp::Intersect => Some(BooleanShortcut::Empty),
            _ => Some(BooleanShortcut::Subject),
        }
    } else {
        None
    }
}

/// Sum of the first `k` loop lengths.
pub open spec fn prefix_total(lens: Seq<usize>, k: int) -> int
    decreases k,
{
    if k <= 0 {
        0
    } else {
        prefix_total(lens, k - 1) + lens[k - 1]
    }
}

proof fn lemma_prefix_total_monotone(lens: Seq<usize>, j: int, k: int)
    requires
        0 <= j <= k <= lens.len(),
    ensures
        0 <= prefix_total(lens, j) <= prefix_total(lens, k),
    decreases k,
{
    if j < k {
        lemma_prefix_total_monotone(lens, j, k - 1);
    } else if k > 0 {
        lemma_prefix_total_monotone(lens, k - 1, k - 1);
    }
}

/// Index range of each loop in the flattened vertex list (all points of loop
/// 0, then of loop 1, …): loop `i` occupies `[start, end)`.
pub fn loop_ranges(lens: &Vec<usize>) -> (ranges: Vec<(usize, usize)>)
    requires
        prefix_total(lens@, lens@.len() as int) <= usize::MAX,
    ensures
        ranges@.len() == lens@.len(),
        forall|i: int|
            0 <= i < lens@.len() ==> #[trigger] ranges@[i] == (
                prefix_total(lens@, i) as usize,
                prefix_total(lens@, i + 1) as usize,
            ),
{
    let mut ranges: Vec<(usize, usize)> = Vec::new();
    let mut base: usize = 0;
    let mut i: usize = 0;
    while i < lens.len()
        invariant
            i <= lens@.len(),
            prefix_total(lens@, lens@.len() as int) <= usize::MAX,
            base == prefix_total(lens@, i as int),
            ranges@.len() == i,
            forall|q: int|
                0 <= q < i ==> #[trigger] ranges@[q] == (
                    prefix_total(lens@, q) as usize,
                    prefix_total(lens@, q + 1) as usize,
                ),
        decreases lens@.len() - i,
    {
        proof {
            lemma_prefix_total_monotone(lens@, i + 1, lens@.len() as int);
        }
        let end = base + lens[i];
        ranges.push((base, end));
        base = end;
        i = i + 1;
    }
    ranges
}

/// Ring obtained by bridging a hole into its outer ring: the outer ring up to
/// the visible vertex `p`, the whole hole starting at its rightmost vertex
/// `m`, the bridge back (`hole[m]`, `ring[p]`), then the rest of the ring.
pub open spec fn bridged_ring(ring: Seq<usize>, hole: Seq<usize>, p: int, m: int) -> Seq<usize> {
    ring.subrange(0, p + 1) + hole.subrange(m, hole.len() as int) + hole.subrange(0, m) + seq![
        hole[m],
        ring[p],
    ] + ring.subrange(p + 1, ring.len() as int)
}

/// The bridged ring holds every vertex of the ring and of the hole once, plus
/// one extra copy of each bridge end (`hole[m]` and `ring[p]`).
pub proof fn lemma_bridged_ring_contents(ring: Seq<usize>, hole: Seq<usize>, p: int, m: int)
    requires
        0 <= p < ring.len(),
        0 <= m < hole.len(),
    ensures
        bridged_ring(ring, hole, p, m).len() == ring.len() + hole.len() + 2,
        bridged_ring(ring, hole, p, m).to_multiset() =~= ring.to_multiset().add(
            hole.to_multiset(),
        ).insert(hole[m]).insert(ring[p]),
{
    broadcast use vstd::multiset::group_multiset_axioms;
    broadcast use vstd::seq_lib::lemma_multiset_commutative;
    broadcast use vstd::seq_lib::to_multiset_build;

    let a = ring.subrange(0, p + 1);
    let b = hole.subrange(m, hole.len() as int);
    let c = hole.subrange(0, m);
    let d = seq![hole[m], ring[p]];
    let e = ring.subrange(p + 1, ring.len() as int);
    assert(a + e =~= ring);
    assert(c + b =~= hole);
    assert(d =~= Seq::<usize>::empty().push(hole[m]).push(ring[p]));
    assert(Seq::<usize>::empty().len() == 0);
    Seq::<usize>::empty().to_multiset_ensures();
    vstd::multiset::lemma_multiset_empty_len(Seq::<usize>::empty().to_multiset());
    Seq::<usize>::empty().push(hole[m]).to_multiset_ensures();
    assert(Seq::<usize>::empty().to_multiset() =~= vstd::multiset::Multiset::empty());
    let ab = a + b;
    let abc = ab + c;
    let abcd = abc + d;
    assert(abcd + e == bridged_ring(ring, hole, p, m));
    assert(ab.to_multiset() =~= a.to_multiset().add(b.to_multiset()));
    assert(abc.to_multiset() =~= ab.to_multiset().add(c.to_multiset()));
    assert(abcd.to_multiset() =~= abc.to_multiset().add(d.to_multiset()));
    assert((abcd + e).to_multiset() =~= abcd.to_multiset().add(e.to_multiset()));
    assert((a + e).to_multiset() =~= a.to_multiset().add(e.to_multiset()));
    assert((c + b).to_multiset() =~= c.to_multiset().add(b.to_multiset()));
}

/// The bridged ring, position by position: the ring up to `ring[p]`, then
/// straight across the bridge onto `hole[m]` and once round the hole from
/// there (`hole[(m + k) % n]`), back across the same bridge (`hole[m]`,
/// `ring[p]`), and on with the rest of the ring.
pub proof fn lemma_bridged_ring_layout(ring: Seq<usize>, hole: Seq<usize>, p: int, m: int)
    requires
        0 <= p < ring.len(),
        0 <= m < hole.len(),
    ensures
        ({
            let r = bridged_ring(ring, hole, p, m);
            let n = hole.len() as int;
            &&& r.len() == ring.len() + n + 2
            &&& forall|i: int| 0 <= i <= p ==> #[trigger] r[i] == ring[i]
            &&& forall|k: int| 0 <= k < n ==> #[trigger] r[p + 1 + k] == hole[(m + k) % n]
            &&& r[p + 1 + n] == hole[m]
            &&& r[p + 2 + n] == ring[p]
            &&& forall|j: int| p < j < ring.len() ==> #[trigger] r[j + n + 2] == ring[j]
        }),
{
    let r = bridged_ring(ring, hole, p, m);
    let n = hole.len() as int;
    assert forall|k: int| 0 <= k < n implies #[trigger] r[p + 1 + k] == hole[(m + k) % n] by {
        if m + k < n {
            assert((m + k) % n == m + k) by (nonlinear_arith)
                requires
                    0 <= m + k < n,
            ;
        } else {
            assert((m + k) % n == m + k - n) by (nonlinear_arith)
                requires
                    n <= m + k < 2 * n,
            ;
        }
    }
}

spec fn rotated_at(hole: Seq<usize>, m: int, q: int) -> usize {
    if m + q < hole.len() {
        hole[m + q]
    } else {
        hole[m + q - hole.len()]
    }
}

/// Splices `hole` into `ring` through the bridge between `ring[p_local]` and
/// `hole[m_local]`, giving one simple index ring to ear-clip.
pub fn splice_hole(ring: &Vec<usize>, hole: &Vec<usize>, p_local: usize, m_local: usize) -> (merged:
    Vec<usize>)
    requires
        p_local < ring@.len(),
        m_local < hole@.len(),
        ring@.len() + hole@.len() + 2 <= usize::MAX,
    ensures
        merged@ == bridged_ring(ring@, hole@, p_local as int, m_local as int),
{
    let mut merged: Vec<usize> = Vec::new();
    let stop = p_local + 1;
    let mut i: usize = 0;
    while i < stop
        invariant
            stop == p_local + 1,
            p_local < ring@.len(),
            i <= stop,
            merged@ == ring@.subrange(0, i as int),
        decreases stop - i,
    {
        merged.push(ring[i]);
        assert(ring@.subrange(0, i + 1) =~= ring@.subrange(0, i as int).push(ring@[i as int]));
        i = i + 1;
    }
    let ghost head = merged@;
    let n = hole.len();
    let mut k: usize = 0;
    while k < n
        invariant
            n == hole@.len(),
            m_local < n,
            k <= n,
            merged@ == head + Seq::new(k as nat, |q: int| rotated_at(hole@, m_local as int, q)),
        decreases n - k,
    {
        let idx = if k < n - m_local { m_local + k } else { k - (n - m_local) };
        merged.push(hole[idx]);
        assert(Seq::new((k + 1) as nat, |q: int| rotated_at(hole@, m_local as int, q)) =~= Seq::new(
            k as nat,
            |q: int| rotated_at(hole@, m_local as int, q),
        ).push(hole@[idx as int]));
        k = k + 1;
    }
    assert(Seq::new(n as nat, |q: int| rotated_at(hole@, m_local as int, q)) =~= hole@.subrange(
        m_local as int,
        n as int,
    ) + hole@.subrange(0, m_local as int));
    merged.push(hole[m_local]);
    merged.push(ring[p_local]);
    let ghost mid = merged@;
    let mut j: usize = p_local + 1;
    while j < ring.len()
        invariant
            p_local < ring@.len(),
            p_local + 1 <= j <= ring@.len(),
            merged@ == mid + ring@.subrange(p_local + 1, j as int),
        decreases ring@.len() - j,
    {
        merged.push(ring[j]);
        assert(ring@.subrange(p_local + 1, j + 1) =~= ring@.subrange(p_local + 1, j as int).push(
            ring@[j as int],
        ));
        j = j + 1;
    }
    assert(merged@ =~= bridged_ring(ring@, hole@, p_local as int, m_local as int));
    merged
}

/// Bottom cap triangle of an extruded prism: vertex `2k` is the bottom copy of
/// profile point `k`; the profile's counter-clockwise winding faces down.
pub open spec fn bottom_cap(c: [usize; 3]) -> [usize; 3] {
    [(2 * c@[0]) as usize, (2 * c@[1]) as usize, (2 * c@[2]) as usize]
}

/// Top cap triangle: vertex `2k + 1` is the top copy of point `k`; the winding
/// is reversed so that it faces up.
pub open spec fn top_cap(c: [usize; 3]) -> [usize; 3] {
    [(2 * c@[0] + 1) as usize, (2 * c@[2] + 1) as usize, (2 * c@[1] + 1) as usize]
}

/// Cap triangles of a prism: for each profile triangle, its bottom then its top.
pub open spec fn cap_triangles(caps: Seq<[usize; 3]>) -> Seq<[usize; 3]>
    decreases caps.len(),
{
    if caps.len() == 0 {
        Seq::empty()
    } else {
        cap_triangles(caps.drop_last()) + seq![bottom_cap(caps.last()), top_cap(caps.last())]
    }
}

/// Side wall of one loop of `n` points whose first point has index `base`:
/// for each edge `a -> b` of the loop, the quad from the bottom edge to the
/// top edge as two outward-wound triangles.
pub open spec fn loop_wall(base: int, n: int) -> Seq<[usize; 3]>
    decreases n,
{
    if n <= 0 {
        Seq::empty()
    } else {
        wall_prefix(base, n, n)
    }
}

/// The first `k` edge quads of the wall of a loop of `n` points.
pub open spec fn wall_prefix(base: int, n: int, k: int) -> Seq<[usize; 3]>
    decreases k,
{
    if k <= 0 {
        Seq::empty()
    } else {
        let i = k - 1;
        let a = base + i;
        let b = base + if i + 1 == n { 0 } else { i + 1 };
        wall_prefix(base, n, k - 1) + seq![
            [(2 * a) as usize, (2 * b + 1) as usize, (2 * b) as usize],
            [(2 * a) as usize, (2 * a + 1) as usize, (2 * b + 1) as usize],
        ]
    }
}

/// Side walls of all loops, loop after loop.
pub open spec fn wall_triangles(lens: Seq<usize>) -> Seq<[usize; 3]>
    decreases lens.len(),
{
    if lens.len() == 0 {
        Seq::empty()
    } else {
        wall_triangles(lens.drop_last()) + loop_wall(
            prefix_total(lens, lens.len() - 1),
            lens.last() as int,
        )
    }
}

/// Triangles of the prism extruded from a triangulated profile: the caps
/// (`caps`, indices into the flattened profile whose loops have the lengths
/// `lens`), then the side walls. Point `k` of the profile becomes vertices
/// `2k` (bottom) and `2k + 1` (top); every triangle winds outwards.
pub fn extrusion_triangles(caps: &Vec<[usize; 3]>, lens: &Vec<usize>) -> (tris: Vec<[usize; 3]>)
    requires
        forall|t: int, c: int|
            0 <= t < caps@.len() && 0 <= c < 3 ==> 2 * (#[trigger] caps@[t]@[c]) + 1 <= usize::MAX,
        2 * prefix_total(lens@, lens@.len() as int) + 1 <= usize::MAX,
    ensures
        tris@ == cap_triangles(caps@) + wall_triangles(lens@),
{
    let mut tris: Vec<[usize; 3]> = Vec::new();
    let mut t: usize = 0;
    while t < caps.len()
        invariant
            t <= caps@.len(),
            forall|t2: int, c: int|
                0 <= t2 < caps@.len() && 0 <= c < 3 ==> 2 * (#[trigger] caps@[t2]@[c]) + 1 <= usize::MAX,
            tris@ == cap_triangles(caps@.subrange(0, t as int)),
        decreases caps@.len() - t,
    {
        let c = caps[t];
        assert(caps@.subrange(0, t + 1).drop_last() =~= caps@.subrange(0, t as int));
        assert(2 * c@[0] + 1 <= usize::MAX && 2 * c@[1] + 1 <= usize::MAX && 2 * c@[2] + 1 <= usize::MAX);
        tris.push([c[0] * 2, c[1] * 2, c[2] * 2]);
        tris.push([c[0] * 2 + 1, c[2] * 2 + 1, c[1] * 2 + 1]);
        proof {
            let prev = cap_triangles(caps@.subrange(0, t as int));
            assert(tris@ =~= prev + seq![bottom_cap(c), top_cap(c)]);
        }
        t = t + 1;
    }
    assert(caps@.subrange(0, caps@.len() as int) =~= caps@);
    let ghost caps_part = tris@;
    let mut base: usize = 0;
    let mut l: usize = 0;
    while l < lens.len()
        invariant
            l <= lens@.len(),
            2 * prefix_total(lens@, lens@.len() as int) + 1 <= usize::MAX,
            base == prefix_total(lens@, l as int),
            tris@ == caps_part + wall_triangles(lens@.subrange(0, l as int)),
        decreases lens@.len() - l,
    {
        let n = lens[l];
        proof {
            lemma_prefix_total_monotone(lens@, l + 1, lens@.len() as int);
            assert(lens@.subrange(0, l + 1).drop_last() =~= lens@.subrange(0, l as int));
            lemma_prefix_total_prefix(lens@, l + 1);
            lemma_prefix_total_prefix(lens@, l as int);
        }
        let ghost before = tris@;
        let mut i: usize = 0;
        while i < n
            invariant
                i <= n,
                2 * (base + n) + 1 <= usize::MAX,
                tris@ == before + wall_prefix(base as int, n as int, i as int),
            decreases n - i,
        {
            let a = base + i;
            let b = base + if i + 1 == n { 0 } else { i + 1 };
            tris.push([a * 2, b * 2 + 1, b * 2]);
            tris.push([a * 2, a * 2 + 1, b * 2 + 1]);
            proof {
                let prev = wall_prefix(base as int, n as int, i as int);
                let a2 = (2 * (base + i)) as usize;
                let b2 = (2 * (base + if i + 1 == n { 0 } else { i + 1 })) as usize;
                assert(wall_prefix(base as int, n as int, i + 1) =~= prev + seq![
                    [a2, (b2 + 1) as usize, b2],
                    [a2, (a2 + 1) as usize, (b2 + 1) as usize],
                ]);
                assert(tris@ =~= before + wall_prefix(base as int, n as int, i + 1));
            }
            i = i + 1;
        }
        proof {
            let sub = lens@.subrange(0, l + 1);
            assert(sub.last() == n);
            assert(prefix_total(sub, sub.len() - 1) == base);
            if n == 0 {
                assert(wall_prefix(base as int, 0, 0) =~= Seq::<[usize; 3]>::empty());
            }
            assert(wall_triangles(sub) =~= wall_triangles(lens@.subrange(0, l as int)) + loop_wall(
                base as int,
                n as int,
            ));
        }
        base = base + n;
        l = l + 1;
    }
    assert(lens@.subrange(0, lens@.len() as int) =~= lens@);
    tris
}

/// Every index of the triangles is below `bound`.
pub open spec fn indices_below(tris: Seq<[usize; 3]>, bound: int) -> bool {
    forall|t: int, c: int| 0 <= t < tris.len() && 0 <= c < 3 ==> #[trigger] tris[t]@[c] < bound
}

proof fn lemma_wall_prefix_shape(base: int, n: int, k: int)
    requires
        0 <= base,
        0 <= k <= n,
        2 * (base + n) + 1 <= usize::MAX,
    ensures
        wall_prefix(base, n, k).len() == 2 * k,
        indices_below(wall_prefix(base, n, k), 2 * (base + n)),
    decreases k,
{
    if k > 0 {
        lemma_wall_prefix_shape(base, n, k - 1);
        let w = wall_prefix(base, n, k);
        let prev = wall_prefix(base, n, k - 1);
        assert forall|t: int, c: int| 0 <= t < w.len() && 0 <= c < 3 implies #[trigger] w[t]@[c] < 2 * (
        base + n) by {
            if t < prev.len() {
                assert(w[t] == prev[t]);
            }
        }
    }
}

proof fn lemma_wall_triangles_shape(lens: Seq<usize>)
    requires
        2 * prefix_total(lens, lens.len() as int) + 1 <= usize::MAX,
    ensures
        wall_triangles(lens).len() == 2 * prefix_total(lens, lens.len() as int),
        indices_below(wall_triangles(lens), 2 * prefix_total(lens, lens.len() as int)),
    decreases lens.len(),
{
    if lens.len() > 0 {
        let init = lens.drop_last();
        let k = lens.len() - 1;
        lemma_prefix_total_prefix(lens, k);
        assert(lens.subrange(0, k) =~= init);
        lemma_prefix_total_monotone(lens, k, lens.len() as int);
        lemma_prefix_total_monotone(lens, 0, k);
        lemma_wall_triangles_shape(init);
        let base = prefix_total(lens, k);
        let n = lens.last() as int;
        lemma_wall_prefix_shape(base, n, n);
        let w = wall_triangles(lens);
        let head = wall_triangles(init);
        let tail = loop_wall(base, n);
        assert(tail.len() == 2 * n);
        assert forall|t: int, c: int| 0 <= t < w.len() && 0 <= c < 3 implies #[trigger] w[t]@[c] < 2
            * prefix_total(lens, lens.len() as int) by {
            if t < head.len() {
                assert(w[t] == head[t]);
            } else {
                assert(w[t] == tail[t - head.len()]);
            }
        }
    }
}

proof fn lemma_cap_triangles_shape(caps: Seq<[usize; 3]>, total: int)
    requires
        indices_below(caps, total),
        2 * total + 1 <= usize::MAX,
    ensures
        cap_triangles(caps).len() == 2 * caps.len(),
        indices_below(cap_triangles(caps), 2 * total),
    decreases caps.len(),
{
    if caps.len() > 0 {
        let init = caps.drop_last();
        assert(indices_below(init, total)) by {
            assert forall|t: int, c: int| 0 <= t < init.len() && 0 <= c < 3 implies #[trigger] init[t]@[c]
                < total by {
                assert(init[t] == caps[t]);
            }
        }
        lemma_cap_triangles_shape(init, total);
        let w = cap_triangles(caps);
        let head = cap_triangles(init);
        let last = caps.last();
        assert(last == caps[caps.len() - 1]);
        assert(last@[0] < total && last@[1] < total && last@[2] < total);
        assert forall|t: int, c: int| 0 <= t < w.len() && 0 <= c < 3 implies #[trigger] w[t]@[c] < 2
            * total by {
            if t < head.len() {
                assert(w[t] == head[t]);
            }
        }
    }
}

/// The extruded mesh has two cap triangles per profile triangle and two wall
/// triangles per profile point, and when the profile triangles refer to
/// existing profile points (below `total`, the number of points), every
/// triangle of the mesh refers to one of the `2 * total` prism vertices.
pub proof fn lemma_extrusion_mesh_is_well_formed(caps: Seq<[usize; 3]>, lens: Seq<usize>)
    requires
        indices_below(caps, prefix_total(lens, lens.len() as int)),
        2 * prefix_total(lens, lens.len() as int) + 1 <= usize::MAX,
    ensures
        (cap_triangles(caps) + wall_triangles(lens)).len() == 2 * caps.len() + 2 * prefix_total(
            lens,
            lens.len() as int,
        ),
        indices_below(cap_triangles(caps) + wall_triangles(lens), 2 * prefix_total(lens, lens.len() as int)),
{
    let total = prefix_total(lens, lens.len() as int);
    lemma_prefix_total_monotone(lens, 0, lens.len() as int);
    lemma_cap_triangles_shape(caps, total);
    lemma_wall_triangles_shape(lens);
    let a = cap_triangles(caps);
    let b = wall_triangles(lens);
    let w = a + b;
    assert forall|t: int, c: int| 0 <= t < w.len() && 0 <= c < 3 implies #[trigger] w[t]@[c] < 2 * total by {
        if t < a.len() {
            assert(w[t] == a[t]);
        } else {
            assert(w[t] == b[t - a.len()]);
        }
    }
}

proof fn lemma_prefix_total_prefix(lens: Seq<usize>, k: int)
    requires
        0 <= k <= lens.len(),
    ensures
        forall|j: int| 0 <= j <= k ==> #[trigger] prefix_total(lens.subrange(0, k), j) == prefix_total(lens, j),
    decreases k,
{
    assert forall|j: int| 0 <= j <= k implies #[trigger] prefix_total(lens.subrange(0, k), j) == prefix_total(lens, j) by {
        lemma_prefix_total_agree(lens.subrange(0, k), lens, j);
    }
}

proof fn lemma_prefix_total_agree(s: Seq<usize>, t: Seq<usize>, j: int)
    requires
        0 <= j <= s.len(),
        j <= t.len(),
        forall|q: int| 0 <= q < j ==> s[q] == t[q],
    ensures
        prefix_total(s, j) == prefix_total(t, j),
    decreases j,
{
    if j > 0 {
        lemma_prefix_total_agree(s, t, j - 1);
    }
}

/// The ear at position `i` of a ring: the vertex with its two ring neighbours.
pub open spec fn ear_at(ring: Seq<usize>, i: int) -> [usize; 3] {
    let n = ring.len() as int;
    [ring[if i == 0 { n - 1 } else { i - 1 }], ring[i], ring[if i == n - 1 { 0 } else { i + 1 }]]
}

/// The ear at position `i` is the vertex with its two ring neighbours, the
/// ring read cyclically: `ring[(i + n - 1) % n]`, `ring[i]`, `ring[(i + 1) % n]`.
pub proof fn lemma_ear_is_vertex_with_its_neighbours(ring: Seq<usize>, i: int)
    requires
        0 <= i < ring.len(),
    ensures
        ({
            let n = ring.len() as int;
            &&& ear_at(ring, i)@[0] == ring[(i + n - 1) % n]
            &&& ear_at(ring, i)@[1] == ring[i]
            &&& ear_at(ring, i)@[2] == ring[(i + 1) % n]
        }),
{
    let n = ring.len() as int;
    if i == 0 {
        assert((i + n - 1) % n == n - 1) by (nonlinear_arith)
            requires
                i == 0,
                n > 0,
        ;
    } else {
        assert((i + n - 1) % n == i - 1) by (nonlinear_arith)
            requires
                0 < i < n,
        ;
    }
    if i == n - 1 {
        assert((i + 1) % n == 0) by (nonlinear_arith)
            requires
                i == n - 1,
                n > 0,
        ;
    } else {
        assert((i + 1) % n == i + 1) by (nonlinear_arith)
            requires
                0 <= i < n - 1,
        ;
    }
}

/// Cuts the ear at position `i` off the ring: returns the triangle
/// (previous, vertex, next) and removes the vertex from the ring.
pub fn clip_ear(ring: &mut Vec<usize>, i: usize) -> (tri: [usize; 3])
    requires
        i < old(ring)@.len(),
    ensures
        tri == ear_at(old(ring)@, i as int),
        final(ring)@ == old(ring)@.remove(i as int),
{
    let n = ring.len();
    let prev = if i == 0 { n - 1 } else { i - 1 };
    let next = if i == n - 1 { 0 } else { i + 1 };
    let tri = [ring[prev], ring[i], ring[next]];
    ring.remove(i);
    tri
}

/// All segments of the walks, walk after walk.
pub open spec fn walked(walks: Seq<Seq<usize>>) -> Seq<usize>
    decreases walks.len(),
{
    if walks.len() == 0 {
        Seq::empty()
    } else {
        walked(walks.drop_last()) + walks.last()
    }
}

/// The first candidate of `cands` that is not taken yet.
pub open spec fn first_free(cands: Seq<usize>, taken: Set<usize>) -> Option<usize>
    decreases cands.len(),
{
    if cands.len() == 0 {
        None
    } else if !taken.contains(cands[0]) {
        Some(cands[0])
    } else {
        first_free(cands.drop_first(), taken)
    }
}

/// Walk `k` obeys the stitching rule: it starts at the smallest segment no
/// earlier walk used; from each segment it continues with the first candidate
/// (in the segment's preference list) not used yet; and it stops as soon as it
/// returns to its starting point, or when no candidate is left.
pub open spec fn follows_stitch_rule(
    segments: Seq<(usize, usize)>,
    order: Seq<Seq<usize>>,
    walks: Seq<Seq<usize>>,
    k: int,
) -> bool {
    let w = walks[k];
    let before = walked(walks.take(k));
    &&& w.len() > 0
    &&& !before.contains(w[0])
    &&& forall|x: usize| x < w[0] ==> #[trigger] before.contains(x)
    &&& steps_follow(segments, order, before.to_set(), w, w[0])
    &&& segments[w.last() as int].1 == segments[w[0] as int].0 || first_free(
        order[w.last() as int],
        before.to_set() + w.to_set(),
    ) is None
}

proof fn lemma_first_free_skip(cands: Seq<usize>, taken: Set<usize>, j: int)
    requires
        0 <= j <= cands.len(),
        forall|q: int| 0 <= q < j ==> taken.contains(#[trigger] cands[q]),
    ensures
        first_free(cands, taken) == first_free(cands.subrange(j, cands.len() as int), taken),
    decreases j,
{
    if j > 0 {
        assert(cands.drop_first().subrange(j - 1, cands.drop_first().len() as int) =~= cands.subrange(
            j,
            cands.len() as int,
        ));
        lemma_first_free_skip(cands.drop_first(), taken, j - 1);
    } else {
        assert(cands.subrange(0, cands.len() as int) =~= cands);
    }
}

/// Number of `false` flags.
spec fn unset_count(flags: Seq<bool>) -> nat
    decreases flags.len(),
{
    if flags.len() == 0 {
        0
    } else {
        unset_count(flags.drop_last()) + if flags.last() {
            0nat
        } else {
            1nat
        }
    }
}

proof fn lemma_unset_count_set(flags: Seq<bool>, i: int)
    requires
        0 <= i < flags.len(),
        !flags[i],
    ensures
        unset_count(flags.update(i, true)) + 1 == unset_count(flags),
    decreases flags.len(),
{
    let f2 = flags.update(i, true);
    if i == flags.len() - 1 {
        assert(f2.drop_last() =~= flags.drop_last());
    } else {
        assert(f2.drop_last() =~= flags.drop_last().update(i, true));
        lemma_unset_count_set(flags.drop_last(), i);
    }
}

/// Step `i` of `walk` (from its segment `i` to segment `i + 1`) did not close
/// the walk and took the first candidate not yet used.
pub open spec fn step_ok(
    segments: Seq<(usize, usize)>,
    order: Seq<Seq<usize>>,
    base: Set<usize>,
    walk: Seq<usize>,
    start: usize,
    i: int,
) -> bool {
    &&& segments[walk[i] as int].1 != segments[start as int].0
    &&& first_free(order[walk[i] as int], base + walk.take(i + 1).to_set()) == Some(walk[i + 1])
}

/// Every step of `walk` is a valid step.
pub open spec fn steps_follow(
    segments: Seq<(usize, usize)>,
    order: Seq<Seq<usize>>,
    base: Set<usize>,
    walk: Seq<usize>,
    start: usize,
) -> bool {
    forall|i: int| 0 <= i < walk.len() - 1 ==> #[trigger] step_ok(segments, order, base, walk, start, i)
}

/// The walks as sequences.
pub open spec fn walk_views(walks: Seq<Vec<usize>>) -> Seq<Seq<usize>> {
    walks.map_values(|w: Vec<usize>| w@)
}

/// Chains directed segments (`(from, to)` point pairs) into walks of segment
/// indices. `order[s]` lists the segments that start where segment `s` ends,
/// most preferred first (the caller ranks them by how far they turn left).
/// Walks start at the smallest unused segment, follow the first unused
/// candidate, and stop on returning to their starting point or running out of
/// candidates. Every segment ends up in exactly one walk.
pub fn stitch_walks(segments: &Vec<(usize, usize)>, order: &Vec<Vec<usize>>) -> (walks: Vec<
    Vec<usize>,
>)
    requires
        order@.len() == segments@.len(),
        forall|s: int, q: int|
            0 <= s < order@.len() && 0 <= q < order@[s]@.len() ==> #[trigger] order@[s]@[q]
                < segments@.len(),
    ensures
        ({
            let ws = walk_views(walks@);
            &&& walked(ws).no_duplicates()
            &&& forall|x: usize| x < segments@.len() <==> #[trigger] walked(ws).contains(x)
            &&& forall|k: int|
                0 <= k < ws.len() ==> #[trigger] follows_stitch_rule(
                    segments@,
                    walk_views(order@),
                    ws,
                    k,
                )
        }),
{
    let m = segments.len();
    let ghost ord = walk_views(order@);
    let mut used: Vec<bool> = Vec::new();
    let mut z: usize = 0;
    while z < m
        invariant
            z <= m,
            used@.len() == z,
            forall|q: int| 0 <= q < z ==> !used@[q],
        decreases m - z,
    {
        used.push(false);
        z = z + 1;
    }
    let mut walks: Vec<Vec<usize>> = Vec::new();
    let mut start: usize = 0;
    assert(walked(walk_views(walks@)) =~= Seq::<usize>::empty());
    while start < m
        invariant
            m == segments@.len(),
            order@.len() == m,
            ord == walk_views(order@),
            forall|s: int, q: int|
                0 <= s < order@.len() && 0 <= q < order@[s]@.len() ==> #[trigger] order@[s]@[q] < m,
            start <= m,
            used@.len() == m,
            forall|x: usize| x < m ==> (used@[x as int] <==> #[trigger] walked(walk_views(walks@)).contains(x)),
            forall|x: usize| #[trigger] walked(walk_views(walks@)).contains(x) ==> x < m,
            walked(walk_views(walks@)).no_duplicates(),
            forall|x: usize| x < start ==> #[trigger] used@[x as int],
            forall|k: int|
                0 <= k < walks@.len() ==> #[trigger] follows_stitch_rule(segments@, ord, walk_views(walks@), k),
        decreases m - start,
    {
        let ghost ws = walk_views(walks@);
        let ghost done = walked(ws);
        if !used[start] {
            let mut walk: Vec<usize> = Vec::new();
            let mut current: usize = start;
            loop
                invariant_except_break
                    current < m,
                    !used@[current as int],
                    walk@.len() == 0 ==> current == start,
                    walk@.len() > 0 ==> segments@[walk@.last() as int].1 != segments@[start as int].0
                        && first_free(ord[walk@.last() as int], done.to_set() + walk@.to_set()) == Some(current),
                invariant
                    m == segments@.len(),
                    order@.len() == m,
                    ord == walk_views(order@),
                    forall|s: int, q: int|
                        0 <= s < order@.len() && 0 <= q < order@[s]@.len() ==> #[trigger] order@[s]@[q] < m,
                    start < m,
                    forall|x: usize| x < start ==> #[trigger] used@[x as int],
                    ws == walk_views(walks@),
                    done == walked(ws),
                    used@.len() == m,
                    forall|x: usize| x < m ==> (used@[x as int] <==> (#[trigger] done.contains(x) || walk@.contains(x))),
                    forall|x: usize| #[trigger] done.contains(x) ==> x < m,
                    forall|x: usize| #[trigger] walk@.contains(x) ==> x < m && !done.contains(x),
                    done.no_duplicates(),
                    walk@.no_duplicates(),
                    !done.contains(start),
                    forall|x: usize| x < start ==> #[trigger] done.contains(x),
                    walk@.len() > 0 ==> walk@[0] == start,
                    steps_follow(segments@, ord, done.to_set(), walk@, start),
                ensures
                    walk@.len() > 0,
                    segments@[walk@.last() as int].1 == segments@[start as int].0 || first_free(
                        ord[walk@.last() as int],
                        done.to_set() + walk@.to_set(),
                    ) is None,
                decreases unset_count(used@),
            {
                let ghost pre_used = used@;
                let ghost pre_walk = walk@;
                proof {
                    lemma_unset_count_set(pre_used, current as int);
                }
                used.set(current, true);
                walk.push(current);
                proof {
                    assert forall|x: usize| x < m implies (used@[x as int] <==> (#[trigger] done.contains(x)
                        || walk@.contains(x))) by {
                        assert(walk@.contains(x) <==> (pre_walk.contains(x) || x == current));
                    }
                    assert forall|i: int| 0 <= i < walk@.len() - 1 implies #[trigger] step_ok(
                        segments@,
                        ord,
                        done.to_set(),
                        walk@,
                        start,
                        i,
                    ) by {
                        assert(walk@.take(i + 1) =~= pre_walk.take(i + 1));
                        assert(walk@[i] == pre_walk[i]);
                        if i == pre_walk.len() - 1 {
                            assert(pre_walk.take(i + 1) =~= pre_walk);
                            assert(walk@[i + 1] == current);
                            assert(pre_walk.last() == pre_walk[i]);
                        } else {
                            assert(walk@[i + 1] == pre_walk[i + 1]);
                            assert(step_ok(segments@, ord, done.to_set(), pre_walk, start, i));
                        }
                    }
                    assert(walk@.take(walk@.len() as int) =~= walk@);
                    assert(!pre_walk.contains(current));
                    assert(walk@.no_duplicates());
                }
                if segments[current].1 == segments[start].0 {

                    break;
                }
                let cands = &order[current];
                assert(cands@ == ord[current as int]);
                let mut j: usize = 0;
                let mut found = false;
                let mut next: usize = 0;
                while j < cands.len() && !found
                    invariant
                        j <= cands@.len(),
                        used@.len() == m,
                        forall|q: int| 0 <= q < cands@.len() ==> #[trigger] cands@[q] < m,
                        found ==> j >= 1 && next == cands@[j - 1] && !used@[next as int],
                        forall|q: int| 0 <= q < j - 1 ==> used@[#[trigger] cands@[q] as int],
                        !found ==> forall|q: int| 0 <= q < j ==> used@[#[trigger] cands@[q] as int],
                    decreases cands@.len() - j,
                {
                    let c = cands[j];
                    if !used[c] {
                        found = true;
                        next = c;
                    }
                    j = j + 1;
                }
                proof {
                    let taken = done.to_set() + walk@.to_set();
                    assert forall|x: usize| x < m implies (used@[x as int] <==> #[trigger] taken.contains(x)) by {
                        assert(done.to_set().contains(x) <==> done.contains(x));
                        assert(walk@.to_set().contains(x) <==> walk@.contains(x));
                    }
                    if found {
                        lemma_first_free_skip(cands@, taken, j - 1);
                        assert(cands@.subrange(j - 1, cands@.len() as int)[0] == next);
                        assert(cands@.subrange(j - 1, cands@.len() as int).drop_first() =~= cands@.subrange(j as int, cands@.len() as int));
                    } else {
                        lemma_first_free_skip(cands@, taken, j as int);
                        assert(cands@.subrange(j as int, cands@.len() as int).len() == 0);
                    }
                }
                if found {
                    current = next;
                } else {
                    break;
                }
            }
            let ghost w = walk@;
            assert(w[0] == start);
            assert(w.contains(start));
            assert(used@[start as int]);
            walks.push(walk);
            proof {
                let ws2 = walk_views(walks@);
                assert(ws2 =~= ws.push(w));
                assert(ws2.drop_last() =~= ws);
                assert(walked(ws2) == done + w);
                assert forall|k: int| 0 <= k < ws2.len() implies follows_stitch_rule(segments@, ord, ws2, k) by {
                    if k < ws.len() {
                        assert(ws2.take(k) =~= ws.take(k));
                        assert(ws2[k] == ws[k]);
                        assert(follows_stitch_rule(segments@, ord, ws, k));
                    } else {
                        assert(ws2.take(k) =~= ws);
                        assert(ws2[k] == w);
                    }
                }
                assert(walked(ws2).no_duplicates()) by {
                    assert forall|a: int, b: int| 0 <= a < b < walked(ws2).len() implies walked(ws2)[a] != walked(ws2)[b] by {
                        if a >= done.len() {
                        } else if b < done.len() {
                        } else {
                            assert(w.contains(walked(ws2)[b]));
                            assert(done.contains(walked(ws2)[a]));
                        }
                    }
                }
            }
        } else {
            proof {
                assert(walked(ws).contains(start));
            }
        }
        start = start + 1;
    }
    walks
}

} // verus!
