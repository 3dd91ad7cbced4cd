//! Broadphase pair admission, narrowphase routing, the box–box separating-axis
//! numbering and axis cache, and contact-feature numbering.
use crate::body::{collision_filter_allows, filter_allows, is_dynamic, BodyType};
use std::collections::BTreeMap;
use vstd::prelude::*;

verus! {

/// A candidate pair reaches the narrowphase when at least one body is dynamic
/// (two static or kinematic bodies never need a contact) and the collision
/// filter lets the pair through.
pub open spec fn admitted(
    types: Seq<BodyType>,
    groups: Seq<u32>,
    masks: Seq<u32>,
    a: int,
    b: int,
) -> bool {
    (is_dynamic(types[a]) || is_dynamic(types[b])) && filter_allows(
        groups[a],
        masks[a],
        groups[b],
        masks[b],
    )
}

/// Whether the candidate pair `(a, b)` must go to the narrowphase.
pub fn needs_narrowphase(
    types: &Vec<BodyType>,
    groups: &Vec<u32>,
    masks: &Vec<u32>,
    a: usize,
    b: usize,
) -> (needed: bool)
    requires
        a < types@.len(),
        b < types@.len(),
        groups@.len() == types@.len(),
        masks@.len() == types@.len(),
    ensures
        needed == admitted(types@, groups@, masks@, a as int, b as int),
{
    if types[a] != BodyType::Dynamic && types[b] != BodyType::Dynamic {
        return false;
    }
    collision_filter_allows(groups[a], masks[a], groups[b], masks[b])
}

/// The admitted candidates, in their order.
pub open spec fn admitted_pairs(
    types: Seq<BodyType>,
    groups: Seq<u32>,
    masks: Seq<u32>,
    candidates: Seq<(usize, usize)>,
) -> Seq<(usize, usize)> {
    candidates.filter(
        |p: (usize, usize)| admitted(types, groups, masks, p.0 as int, p.1 as int),
    )
}

/// Admission spelled out: at least one body is dynamic, A's mask sees B's
/// group and B's mask sees A's group. It follows that admission does not
/// depend on which body is called A, and that a one-sided filter never lets a
/// pair through.
pub proof fn lemma_admission_is_two_sided(
    types: Seq<BodyType>,
    groups: Seq<u32>,
    masks: Seq<u32>,
    a: int,
    b: int,
)
    ensures
        admitted(types, groups, masks, a, b) <==> ((types[a] is Dynamic || types[b] is Dynamic) && (
        masks[a] & groups[b]) != 0 && (masks[b] & groups[a]) != 0),
        admitted(types, groups, masks, a, b) == admitted(types, groups, masks, b, a),
        (masks[a] & groups[b]) == 0 || (masks[b] & groups[a]) == 0 ==> !admitted(
            types,
            groups,
            masks,
            a,
            b,
        ),
{
}

/// A candidate survives the filtering exactly when it was a candidate and is
/// admitted in the two-sided sense.
pub proof fn lemma_admitted_pairs_members(
    types: Seq<BodyType>,
    groups: Seq<u32>,
    masks: Seq<u32>,
    candidates: Seq<(usize, usize)>,
    p: (usize, usize),
)
    ensures
        admitted_pairs(types, groups, masks, candidates).contains(p) <==> (candidates.contains(p) && (
        types[p.0 as int] is Dynamic || types[p.1 as int] is Dynamic) && (masks[p.0 as int]
            & groups[p.1 as int]) != 0 && (masks[p.1 as int] & groups[p.0 as int]) != 0),
{
    let pred = |q: (usize, usize)| admitted(types, groups, masks, q.0 as int, q.1 as int);
    broadcast use vstd::seq_lib::group_filter_ensures;

    lemma_admission_is_two_sided(types, groups, masks, p.0 as int, p.1 as int);
    let kept = candidates.filter(pred);
    assert(admitted_pairs(types, groups, masks, candidates) == kept);
    if candidates.contains(p) && pred(p) {
        let i = choose|i: int| 0 <= i < candidates.len() && candidates[i] == p;
        candidates.lemma_filter_contains(pred, i);
    }
    if kept.contains(p) {
        candidates.lemma_filter_contains_rev(pred, p);
        let i = choose|i: int| 0 <= i < kept.len() && kept[i] == p;
        candidates.lemma_filter_pred(pred, i);
    }
}

/// Keeps the broadphase candidates (sorted `(a, b)` pairs with `a < b`) that
/// need a narrowphase test, preserving their order so that contacts are always
/// generated in the same sequence.
pub fn filter_candidate_pairs(
    types: &Vec<BodyType>,
    groups: &Vec<u32>,
    masks: &Vec<u32>,
    candidates: &Vec<(usize, usize)>,
) -> (pairs: Vec<(usize, usize)>)
    requires
        groups@.len() == types@.len(),
        masks@.len() == types@.len(),
        forall|k: int|
            0 <= k < candidates@.len() ==> (#[trigger] candidates@[k]).0 < types@.len()
                && candidates@[k].1 < types@.len(),
    ensures
        pairs@ == admitted_pairs(types@, groups@, masks@, candidates@),
{
    let ghost pred = |p: (usize, usize)| admitted(types@, groups@, masks@, p.0 as int, p.1 as int);
    let mut pairs: Vec<(usize, usize)> = Vec::new();
    let mut i: usize = 0;
    while i < candidates.len()
        invariant
            i <= candidates@.len(),
            groups@.len() == types@.len(),
            masks@.len() == types@.len(),
            forall|k: int|
                0 <= k < candidates@.len() ==> (#[trigger] candidates@[k]).0 < types@.len()
                    && candidates@[k].1 < types@.len(),
            pred == (|p: (usize, usize)| admitted(types@, groups@, masks@, p.0 as int, p.1 as int)),
            pairs@ == candidates@.subrange(0, i as int).filter(pred),
        decreases candidates@.len() - i,
    {
        let (a, b) = candidates[i];
        assert(candidates@[i as int] == (a, b));
        assert(candidates@.subrange(0, i + 1) =~= candidates@.subrange(0, i as int).push((a, b)));
        proof {
            candidates@.subrange(0, i as int).lemma_filter_push((a, b), pred);
        }
        if needs_narrowphase(types, groups, masks, a, b) {
            pairs.push((a, b));
        }
        i = i + 1;
    }
    assert(candidates@.subrange(0, candidates@.len() as int) =~= candidates@);
    pairs
}

/// The kind of a collision shape.
#[derive(Clone, Copy, PartialEq, Eq, Debug, Structural)]
pub enum ShapeKind {
    Sphere,
    Box,
    Capsule,
    /// Infinite plane (static bodies only).
    Plane,
    /// Rigid assembly of child shapes.
    Compound,
    /// Convex hull of a vertex cloud.
    ConvexMesh,
}

/// Narrowphase routine for a pair of shape kinds. Each routine takes its two
/// shapes in a fixed order (the first kind named first); `Polyhedra` takes any
/// two convex polyhedra (hull or box) and `Compound` splits its first shape
/// into its parts.
#[derive(Clone, Copy, PartialEq, Eq, Debug, Structural)]
pub enum PairRoutine {
    SphereSphere,
    SpherePlane,
    BoxPlane,
    SphereBox,
    BoxBox,
    CapsulePlane,
    CapsuleSphere,
    CapsuleCapsule,
    CapsuleBox,
    MeshPlane,
    MeshSphere,
    Polyhedra,
    Compound,
}

/// How a pair is handed to its routine: which routine, whether body A is the
/// routine's first shape (otherwise the shapes go in swapped), and whether the
/// routine's normal must be turned around to point from A to B.
#[derive(Clone, Copy, PartialEq, Eq, Debug, Structural)]
pub struct PairRoute {
    pub routine: PairRoutine,
    pub a_first: bool,
    pub negate_normal: bool,
}

/// Route with body A first.
pub open spec fn direct(routine: PairRoutine, negate_normal: bool) -> Option<PairRoute> {
    Some(PairRoute { routine, a_first: true, negate_normal })
}

/// Route with the shapes swapped.
pub open spec fn swapped(routine: PairRoutine, negate_normal: bool) -> Option<PairRoute> {
    Some(PairRoute { routine, a_first: false, negate_normal })
}

/// The dispatch table. Routines against a plane, `SphereBox` and `CapsuleBox`
/// report the normal pointing away from their second shape, the others from
/// their first shape to their second; the normal of a manifold always points
/// from A to B. A compound is split into its parts (A's first when both are
/// compounds). Plane–plane and mesh–capsule pairs have no routine.
pub open spec fn route_of(a: ShapeKind, b: ShapeKind) -> Option<PairRoute> {
    match (a, b) {
        (ShapeKind::Sphere, ShapeKind::Sphere) => direct(PairRoutine::SphereSphere, false),
        (ShapeKind::Sphere, ShapeKind::Plane) => direct(PairRoutine::SpherePlane, true),
        (ShapeKind::Plane, ShapeKind::Sphere) => swapped(PairRoutine::SpherePlane, false),
        (ShapeKind::Box, ShapeKind::Plane) => direct(PairRoutine::BoxPlane, true),
        (ShapeKind::Plane, ShapeKind::Box) => swapped(PairRoutine::BoxPlane, false),
        (ShapeKind::Sphere, ShapeKind::Box) => direct(PairRoutine::SphereBox, true),
        (ShapeKind::Box, ShapeKind::Sphere) => swapped(PairRoutine::SphereBox, false),
        (ShapeKind::Box, ShapeKind::Box) => direct(PairRoutine::BoxBox, false),
        (ShapeKind::Plane, ShapeKind::Plane) => None,
        (ShapeKind::Capsule, ShapeKind::Plane) => direct(PairRoutine::CapsulePlane, true),
        (ShapeKind::Plane, ShapeKind::Capsule) => swapped(PairRoutine::CapsulePlane, false),
        (ShapeKind::Capsule, ShapeKind::Sphere) => direct(PairRoutine::CapsuleSphere, false),
        (ShapeKind::Sphere, ShapeKind::Capsule) => swapped(PairRoutine::CapsuleSphere, true),
        (ShapeKind::Capsule, ShapeKind::Capsule) => direct(PairRoutine::CapsuleCapsule, false),
        (ShapeKind::Capsule, ShapeKind::Box) => direct(PairRoutine::CapsuleBox, true),
        (ShapeKind::Box, ShapeKind::Capsule) => swapped(PairRoutine::CapsuleBox, false),
        (ShapeKind::Compound, _) => direct(PairRoutine::Compound, false),
        (_, ShapeKind::Compound) => swapped(PairRoutine::Compound, false),
        (ShapeKind::ConvexMesh, ShapeKind::Plane) => direct(PairRoutine::MeshPlane, true),
        (ShapeKind::Plane, ShapeKind::ConvexMesh) => swapped(PairRoutine::MeshPlane, false),
        (ShapeKind::ConvexMesh, ShapeKind::Sphere) => direct(PairRoutine::MeshSphere, false),
        (ShapeKind::Sphere, ShapeKind::ConvexMesh) => swapped(PairRoutine::MeshSphere, true),
        (ShapeKind::ConvexMesh, ShapeKind::ConvexMesh) => direct(PairRoutine::Polyhedra, false),
        (ShapeKind::ConvexMesh, ShapeKind::Box) => direct(PairRoutine::Polyhedra, false),
        (ShapeKind::Box, ShapeKind::ConvexMesh) => direct(PairRoutine::Polyhedra, false),
        (ShapeKind::ConvexMesh, _) => None,
        (_, ShapeKind::ConvexMesh) => None,
    }
}

/// Picks the narrowphase routine for a pair of shapes of kinds `a` and `b`.
pub fn narrowphase_route(a: ShapeKind, b: ShapeKind) -> (route: Option<PairRoute>)
    ensures
        route == route_of(a, b),
{
    let d = |routine: PairRoutine, negate_normal: bool| -> (r: Option<PairRoute>)
        ensures
            r == direct(routine, negate_normal),
        { Some(PairRoute { routine, a_first: true, negate_normal }) };
    let s = |routine: PairRoutine, negate_normal: bool| -> (r: Option<PairRoute>)
        ensures
            r == swapped(routine, negate_normal),
        { Some(PairRoute { routine, a_first: false, negate_normal }) };
    match (a, b) {
        (ShapeKind::Sphere, ShapeKind::Sphere) => d(PairRoutine::SphereSphere, false),
        (ShapeKind::Sphere, ShapeKind::Plane) => d(PairRoutine::SpherePlane, true),
        (ShapeKind::Plane, ShapeKind::Sphere) => s(PairRoutine::SpherePlane, false),
        (ShapeKind::Box, ShapeKind::Plane) => d(PairRoutine::BoxPlane, true),
        (ShapeKind::Plane, ShapeKind::Box) => s(PairRoutine::BoxPlane, false),
        (ShapeKind::Sphere, ShapeKind::Box) => d(PairRoutine::SphereBox, true),
        (ShapeKind::Box, ShapeKind::Sphere) => s(PairRoutine::SphereBox, false),
        (ShapeKind::Box, ShapeKind::Box) => d(PairRoutine::BoxBox, false),
        (ShapeKind::Plane, ShapeKind::Plane) => None,
        (ShapeKind::Capsule, ShapeKind::Plane) => d(PairRoutine::CapsulePlane, true),
        (ShapeKind::Plane, ShapeKind::Capsule) => s(PairRoutine::CapsulePlane, false),
        (ShapeKind::Capsule, ShapeKind::Sphere) => d(PairRoutine::CapsuleSphere, false),
        (ShapeKind::Sphere, ShapeKind::Capsule) => s(PairRoutine::CapsuleSphere, true),
        (ShapeKind::Capsule, ShapeKind::Capsule) => d(PairRoutine::CapsuleCapsule, false),
        (ShapeKind::Capsule, ShapeKind::Box) => d(PairRoutine::CapsuleBox, true),
        (ShapeKind::Box, ShapeKind::Capsule) => s(PairRoutine::CapsuleBox, false),
        (ShapeKind::Compound, _) => d(PairRoutine::Compound, false),
        (_, ShapeKind::Compound) => s(PairRoutine::Compound, false),
        (ShapeKind::ConvexMesh, ShapeKind::Plane) => d(PairRoutine::MeshPlane, true),
        (ShapeKind::Plane, ShapeKind::ConvexMesh) => s(PairRoutine::MeshPlane, false),
        (ShapeKind::ConvexMesh, ShapeKind::Sphere) => d(PairRoutine::MeshSphere, false),
        (ShapeKind::Sphere, ShapeKind::ConvexMesh) => s(PairRoutine::MeshSphere, true),
        (ShapeKind::ConvexMesh, ShapeKind::ConvexMesh) => d(PairRoutine::Polyhedra, false),
        (ShapeKind::ConvexMesh, ShapeKind::Box) => d(PairRoutine::Polyhedra, false),
        (ShapeKind::Box, ShapeKind::ConvexMesh) => d(PairRoutine::Polyhedra, false),
        (ShapeKind::ConvexMesh, _) => None,
        (_, ShapeKind::ConvexMesh) => None,
    }
}

/// Whether a routine treats its two shapes alike (its normal already points
/// from its first shape to its second, whichever kinds they are).
pub open spec fn symmetric_routine(r: PairRoutine) -> bool {
    r is SphereSphere || r is BoxBox || r is CapsuleCapsule || r is Polyhedra
}

/// Swapping the two bodies of a pair keeps its routine. For an asymmetric
/// routine the shapes go in the other way round and the normal is turned
/// around, so the manifold of (B, A) carries the opposite normal of (A, B);
/// a symmetric routine keeps body A first and gets the flip from the
/// geometry. A pair has a routine exactly when its swap has one.
pub proof fn lemma_swapped_pair_flips_the_normal(a: ShapeKind, b: ShapeKind)
    ensures
        route_of(a, b) is Some <==> route_of(b, a) is Some,
        route_of(a, b) is Some ==> route_of(b, a)->0.routine == route_of(a, b)->0.routine,
        route_of(a, b) is Some && !symmetric_routine(route_of(a, b)->0.routine) && !(a is Compound
            && b is Compound) ==> route_of(b, a)->0.a_first == !route_of(a, b)->0.a_first,
        route_of(a, b) is Some && !symmetric_routine(route_of(a, b)->0.routine) && !(
        route_of(a, b)->0.routine is Compound) ==> route_of(b, a)->0.negate_normal
            == !route_of(a, b)->0.negate_normal,
        route_of(a, b) is Some && symmetric_routine(route_of(a, b)->0.routine) ==> route_of(a, b)->0.a_first
            && !route_of(a, b)->0.negate_normal,
{
}

/// Routines whose natural normal points away from their second shape (a
/// plane or a box) towards their first one.
pub open spec fn normal_points_away_from_second(r: PairRoutine) -> bool {
    r is SpherePlane || r is BoxPlane || r is CapsulePlane || r is MeshPlane || r is SphereBox
        || r is CapsuleBox
}

/// Every manifold normal points from body A to body B. A routine whose normal
/// points away from its second shape needs the flip exactly when A goes first;
/// any other routine (normal from its first shape to its second) needs it
/// exactly when A goes second. Compounds are split and keep the normals of
/// their parts.
pub proof fn lemma_route_normal_points_from_a_to_b(a: ShapeKind, b: ShapeKind)
    requires
        route_of(a, b) is Some,
        !(route_of(a, b)->0.routine is Compound),
    ensures
        route_of(a, b)->0.negate_normal == if normal_points_away_from_second(route_of(a, b)->0.routine) {
            route_of(a, b)->0.a_first
        } else {
            !route_of(a, b)->0.a_first
        },
{
}

/// Against a plane the routine takes the other shape first and reports the
/// normal away from the plane: with the plane as B the normal is turned
/// around (so it points from A into the plane), with the plane as A it is
/// kept. The same holds for spheres and capsules against a box.
pub proof fn lemma_plane_and_box_normals(k: ShapeKind)
    ensures
        !(k is Plane) && !(k is Compound) && route_of(k, ShapeKind::Plane) is Some ==> route_of(
            k,
            ShapeKind::Plane,
        )->0.a_first && route_of(k, ShapeKind::Plane)->0.negate_normal,
        !(k is Plane) && !(k is Compound) && route_of(ShapeKind::Plane, k) is Some ==> !route_of(
            ShapeKind::Plane,
            k,
        )->0.a_first && !route_of(ShapeKind::Plane, k)->0.negate_normal,
        (k is Sphere || k is Capsule) ==> route_of(k, ShapeKind::Box)->0.a_first && route_of(
            k,
            ShapeKind::Box,
        )->0.negate_normal && !route_of(ShapeKind::Box, k)->0.a_first && !route_of(
            ShapeKind::Box,
            k,
        )->0.negate_normal,
        route_of(ShapeKind::Plane, ShapeKind::Plane) is None,
{
}

/// Box–box axis hysteresis cache: for each body pair, the separating-axis
/// index chosen in the previous step.
pub type AxisCache = BTreeMap<(usize, usize), usize>;

/// The axis the previous step chose for `pair`, tried first this step.
pub fn preferred_axis(cache: &AxisCache, pair: (usize, usize)) -> (axis: Option<usize>)
    ensures
        axis == (if cache@.contains_key(pair) {
            Some(cache@[pair])
        } else {
            None
        }),
{
    broadcast use {vstd::std_specs::btree::group_btree_axioms, vstd::laws_cmp::group_laws_cmp};

    match cache.get(&pair) {
        Some(axis) => Some(*axis),
        None => None,
    }
}

/// Records the outcome of this step's box–box test for `pair`: the chosen axis
/// when the boxes touch, nothing (the entry is dropped) when they do not.
pub fn remember_axis(cache: &mut AxisCache, pair: (usize, usize), chosen: Option<usize>)
    ensures
        final(cache)@ == (match chosen {
            Some(axis) => old(cache)@.insert(pair, axis),
            None => old(cache)@.remove(pair),
        }),
{
    broadcast use {vstd::std_specs::btree::group_btree_axioms, vstd::laws_cmp::group_laws_cmp};

    match chosen {
        Some(axis) => {
            cache.insert(pair, axis);
        },
        None => {
            cache.remove(&pair);
        },
    }
}

/// Stride between the feature-number spaces of two compound parts.
pub const PART_FEATURE_STRIDE: u32 = 1_000_003;

/// Feature number of a contact found on part `part_index` of a compound: the
/// part's own feature number shifted by `part_index * PART_FEATURE_STRIDE`,
/// all in wrapping 32-bit arithmetic. Keeping the parts in separate number
/// spaces keeps their warm-start cache keys apart.
pub fn part_feature_id(feature_id: u32, part_index: usize) -> (id: u32)
    ensures
        id as int == (feature_id as int + ((part_index as u32) as int * 1_000_003) % 0x1_0000_0000)
            % 0x1_0000_0000,
{
    let offset = (part_index as u32).wrapping_mul(PART_FEATURE_STRIDE);
    feature_id.wrapping_add(offset)
}

/// Parts of one compound never share a feature number as long as the feature
/// numbers stay below the stride and the offsets do not wrap.
pub proof fn lemma_part_feature_ids_disjoint(f1: u32, p1: usize, f2: u32, p2: usize)
    requires
        f1 < 1_000_003,
        f2 < 1_000_003,
        p1 != p2,
        (p1 + 1) * 1_000_003 < 0x1_0000_0000,
        (p2 + 1) * 1_000_003 < 0x1_0000_0000,
    ensures
        (f1 as int + ((p1 as u32) as int * 1_000_003) % 0x1_0000_0000) % 0x1_0000_0000 != (f2 as int + (
        (p2 as u32) as int * 1_000_003) % 0x1_0000_0000) % 0x1_0000_0000,
{
    assert(p1 < 0x1_0000_0000 && p2 < 0x1_0000_0000) by (nonlinear_arith)
        requires
            (p1 + 1) * 1_000_003 < 0x1_0000_0000,
            (p2 + 1) * 1_000_003 < 0x1_0000_0000,
    ;
    let a = p1 as int * 1_000_003;
    let b = p2 as int * 1_000_003;
    assert(a + 1_000_003 < 0x1_0000_0000 && b + 1_000_003 < 0x1_0000_0000) by (nonlinear_arith)
        requires
            (p1 + 1) * 1_000_003 < 0x1_0000_0000,
            (p2 + 1) * 1_000_003 < 0x1_0000_0000,
            a == p1 * 1_000_003,
            b == p2 * 1_000_003,
    ;
    assert(a % 0x1_0000_0000 == a);
    assert(b % 0x1_0000_0000 == b);
    assert(p1 < p2 ==> a + 1_000_003 <= b) by (nonlinear_arith)
        requires
            a == p1 * 1_000_003,
            b == p2 * 1_000_003,
    ;
    assert(p2 < p1 ==> b + 1_000_003 <= a) by (nonlinear_arith)
        requires
            a == p1 * 1_000_003,
            b == p2 * 1_000_003,
    ;
}


/// One of the fifteen candidate separating axes of two boxes: a face normal of
/// box A, a face normal of box B, or the cross product of edge `i` of A with
/// edge `j` of B. Every index is a local box axis, below 3.
#[derive(PartialEq, Eq, Structural, Clone, Copy, Debug)]
pub enum SatAxis {
    FaceA(usize),
    FaceB(usize),
    EdgeCross(usize, usize),
}

/// The axis that candidate number `idx` stands for: `0..3` are A's faces,
/// `3..6` B's faces, and `6 + 3 i + j` is edge `i` of A crossed with edge `j`
/// of B.
pub open spec fn axis_of_index(idx: int) -> SatAxis {
    if idx < 3 {
        SatAxis::FaceA(idx as usize)
    } else if idx < 6 {
        SatAxis::FaceB((idx - 3) as usize)
    } else {
        SatAxis::EdgeCross(((idx - 6) / 3) as usize, ((idx - 6) % 3) as usize)
    }
}

/// The candidate number of an axis, the inverse of `axis_of_index`.
pub open spec fn index_of_axis(axis: SatAxis) -> int {
    match axis {
        SatAxis::FaceA(i) => i as int,
        SatAxis::FaceB(j) => 3 + j,
        SatAxis::EdgeCross(i, j) => 6 + 3 * i + j,
    }
}

/// Every index of the axis is a local box axis.
pub open spec fn axis_in_range(axis: SatAxis) -> bool {
    match axis {
        SatAxis::FaceA(i) => i < 3,
        SatAxis::FaceB(j) => j < 3,
        SatAxis::EdgeCross(i, j) => i < 3 && j < 3,
    }
}

/// Decodes a candidate number (as kept in the axis cache) into its axis.
pub fn sat_axis(idx: usize) -> (axis: SatAxis)
    requires
        idx < 15,
    ensures
        axis == axis_of_index(idx as int),
        axis_in_range(axis),
{
    if idx < 3 {
        SatAxis::FaceA(idx)
    } else if idx < 6 {
        SatAxis::FaceB(idx - 3)
    } else {
        let e = idx - 6;
        SatAxis::EdgeCross(e / 3, e % 3)
    }
}

/// The candidate number under which an axis is enumerated and cached.
pub fn sat_axis_index(axis: SatAxis) -> (idx: usize)
    requires
        axis_in_range(axis),
    ensures
        idx as int == index_of_axis(axis),
        idx < 15,
{
    match axis {
        SatAxis::FaceA(i) => i,
        SatAxis::FaceB(j) => 3 + j,
        SatAxis::EdgeCross(i, j) => 6 + 3 * i + j,
    }
}

/// The fifteen candidate numbers and the in-range axes correspond one to one:
/// decoding a number and numbering the axis again gives the number back, and
/// the other way round.
pub proof fn lemma_axis_numbering_round_trips(idx: int, axis: SatAxis)
    requires
        0 <= idx < 15,
        axis_in_range(axis),
    ensures
        index_of_axis(axis_of_index(idx)) == idx,
        axis_in_range(axis_of_index(idx)),
        axis_of_index(index_of_axis(axis)) == axis,
{
}


/// Feature number of a box–box face contact point, as a formula: the
/// reference face (axis, positive side), the incident face (axis, positive
/// side) and the quadrant of the reference face the point lies in, packed
/// into bit fields of widths 2, 1, 2, 1 and 2.
pub open spec fn face_feature(
    ref_axis: int,
    ref_positive: bool,
    incident_axis: int,
    incident_positive: bool,
    quadrant: int,
) -> int {
    ref_axis + 4 * (if ref_positive {
        1int
    } else {
        0
    }) + 8 * incident_axis + 32 * (if incident_positive {
        1int
    } else {
        0
    }) + 64 * quadrant
}

/// Quadrant of a point on the reference face: bit 0 says it lies on the
/// positive side of the first side axis, bit 1 of the second.
pub fn face_quadrant(first_positive: bool, second_positive: bool) -> (q: u32)
    ensures
        q == (if first_positive {
            1int
        } else {
            0
        }) + 2 * (if second_positive {
            1int
        } else {
            0
        }),
        q < 4,
{
    let s0: u32 = if first_positive {
        1
    } else {
        0
    };
    let s1: u32 = if second_positive {
        1
    } else {
        0
    };
    let q = s0 | (s1 << 1u32);
    assert(s0 < 2 && s1 < 2 ==> s0 | (s1 << 1u32) == s0 + 2 * s1) by (bit_vector);
    q
}

/// Feature number of a box–box face contact point (see `face_feature`). It
/// depends only on which faces were chosen and where on the reference face
/// the point lies, so a resting stack keeps its numbers from step to step.
pub fn face_contact_feature_id(
    ref_axis: usize,
    ref_positive: bool,
    incident_axis: usize,
    incident_positive: bool,
    quadrant: u32,
) -> (id: u32)
    requires
        ref_axis < 3,
        incident_axis < 3,
        quadrant < 4,
    ensures
        id == face_feature(
            ref_axis as int,
            ref_positive,
            incident_axis as int,
            incident_positive,
            quadrant as int,
        ),
        id < 256,
{
    let ra: u32 = ref_axis as u32;
    let ia: u32 = incident_axis as u32;
    let rs: u32 = if ref_positive {
        1
    } else {
        0
    };
    let is: u32 = if incident_positive {
        1
    } else {
        0
    };
    let id = ra | (rs << 2u32) | (ia << 3u32) | (is << 5u32) | (quadrant << 6u32);
    assert(ra < 3 && rs < 2 && ia < 3 && is < 2 && quadrant < 4 ==> ra | (rs << 2u32) | (ia << 3u32)
        | (is << 5u32) | (quadrant << 6u32) == ra + 4 * rs + 8 * ia + 32 * is + 64 * quadrant)
        by (bit_vector);
    id
}

/// Feature number of the single contact point of a box–box edge contact:
/// edge `i` of A against edge `j` of B.
pub open spec fn edge_feature(i: int, j: int) -> int {
    200 + 3 * i + j
}

/// Feature number of an edge–edge contact, fixed by the edge pair alone.
pub fn edge_contact_feature_id(i: usize, j: usize) -> (id: u32)
    requires
        i < 3,
        j < 3,
    ensures
        id == edge_feature(i as int, j as int),
{
    200 + (i * 3 + j) as u32
}

/// Distinct face contacts (different faces or quadrants) get distinct
/// feature numbers, and so do distinct edge pairs.
pub proof fn lemma_face_and_edge_features_are_injective(
    ra1: int,
    rp1: bool,
    ia1: int,
    ip1: bool,
    q1: int,
    ra2: int,
    rp2: bool,
    ia2: int,
    ip2: bool,
    q2: int,
)
    requires
        0 <= ra1 < 3,
        0 <= ia1 < 3,
        0 <= q1 < 4,
        0 <= ra2 < 3,
        0 <= ia2 < 3,
        0 <= q2 < 4,
    ensures
        face_feature(ra1, rp1, ia1, ip1, q1) == face_feature(ra2, rp2, ia2, ip2, q2) ==> ra1 == ra2
            && rp1 == rp2 && ia1 == ia2 && ip1 == ip2 && q1 == q2,
        edge_feature(ra1, ia1) == edge_feature(ra2, ia2) ==> ra1 == ra2 && ia1 == ia2,
{
}

/// A face contact and an edge contact never share a feature number, except
/// for face contacts in the last quadrant whose incident face is a negative
/// face of axis 1, or the negative face of axis 2 against the negative
/// reference face of axis 0: those land on the edge numbers `200..=208`.
pub proof fn lemma_face_and_edge_features_differ(
    ref_axis: int,
    ref_positive: bool,
    incident_axis: int,
    incident_positive: bool,
    quadrant: int,
    i: int,
    j: int,
)
    requires
        0 <= ref_axis < 3,
        0 <= incident_axis < 3,
        0 <= quadrant < 4,
        0 <= i < 3,
        0 <= j < 3,
        !(quadrant == 3 && !incident_positive && (incident_axis == 1 || (incident_axis == 2
            && ref_axis == 0 && !ref_positive))),
    ensures
        face_feature(ref_axis, ref_positive, incident_axis, incident_positive, quadrant)
            != edge_feature(i, j),
{
}

/// Feature number of a polytope contact at vertex `i` of B, or of A (then
/// with the top bit set).
pub open spec fn vertex_feature(of_a: bool, i: usize) -> u32 {
    if of_a {
        0x8000_0000u32 | (i as u32)
    } else {
        i as u32
    }
}

/// Feature number of a polytope–polytope contact at a vertex: B's vertex `i`
/// keeps its index, A's vertex `i` gets the top bit set on top of it.
pub fn vertex_contact_feature_id(of_a: bool, i: usize) -> (id: u32)
    ensures
        id == vertex_feature(of_a, i),
        i < 0x8000_0000 ==> id == (if of_a {
            0x8000_0000 + i
        } else {
            i as int
        }),
{
    let v: u32 = i as u32;
    let id = if of_a {
        0x8000_0000u32 | v
    } else {
        v
    };
    assert(i < 0x8000_0000 ==> (i as u32) == i);
    assert(v < 0x8000_0000 ==> 0x8000_0000u32 | v == 0x8000_0000 + v) by (bit_vector);
    id
}

/// For vertex indices below 2^31, vertex contacts of A and of B never share a
/// feature number, and distinct vertices of one polytope get distinct ones.
pub proof fn lemma_vertex_features_are_distinct(a1: bool, i1: usize, a2: bool, i2: usize)
    requires
        i1 < 0x8000_0000,
        i2 < 0x8000_0000,
    ensures
        vertex_feature(a1, i1) == vertex_feature(a2, i2) ==> a1 == a2 && i1 == i2,
{
    let v1 = i1 as u32;
    let v2 = i2 as u32;
    assert(v1 == i1 && v2 == i2);
    assert(v1 < 0x8000_0000 ==> 0x8000_0000u32 | v1 == 0x8000_0000 + v1) by (bit_vector);
    assert(v2 < 0x8000_0000 ==> 0x8000_0000u32 | v2 == 0x8000_0000 + v2) by (bit_vector);
}

} // verus!
