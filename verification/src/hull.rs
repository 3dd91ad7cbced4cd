//! Index bookkeeping of incremental convex-hull construction and of mesh
//! compaction: the horizon of the faces a new point sees, the removal of those
//! faces, and the renumbering of the vertices a triangle list really uses.
use vstd::prelude::*;

verus! {

broadcast use vstd::seq_lib::group_seq_properties;

/// The three directed edges of a triangle, in winding order.
pub open spec fn face_edges(f: [usize; 3]) -> Seq<(usize, usize)> {
    seq![(f@[0], f@[1]), (f@[1], f@[2]), (f@[2], f@[0])]
}

/// Directed edges of the visible faces, face by face in the order of `visible`.
pub open spec fn visible_edges(faces: Seq<[usize; 3]>, visible: Seq<usize>) -> Seq<(usize, usize)>
    decreases visible.len(),
{
    if visible.len() == 0 {
        Seq::empty()
    } else {
        visible_edges(faces, visible.drop_last()) + face_edges(faces[visible.last() as int])
    }
}

/// The horizon: visible edges whose reverse is not a visible edge. An edge
/// shared by two visible faces appears once in each direction and is
/// interior; the rest bound the visible patch.
pub open spec fn horizon_of(faces: Seq<[usize; 3]>, visible: Seq<usize>) -> Seq<(usize, usize)> {
    let edges = visible_edges(faces, visible);
    edges.filter(|e: (usize, usize)| !edges.contains((e.1, e.0)))
}

fn holds_edge(v: &Vec<(usize, usize)>, e: (usize, usize)) -> (found: bool)
    ensures
        found == v@.contains(e),
{
    let mut i: usize = 0;
    while i < v.len()
        invariant
            i <= v@.len(),
            forall|k: int| 0 <= k < i ==> v@[k] != e,
        decreases v@.len() - i,
    {
        let p = v[i];
        if p.0 == e.0 && p.1 == e.1 {
            assert(v@[i as int] == e);
            return true;
        }
        i = i + 1;
    }
    false
}

/// The horizon of the faces listed in `visible`, as directed edges in the
/// winding of the removed faces; joining each edge to the new point keeps the
/// new faces wound outwards.
pub fn horizon_edges(faces: &Vec<[usize; 3]>, visible: &Vec<usize>) -> (horizon: Vec<(usize, usize)>)
    requires
        forall|k: int| 0 <= k < visible@.len() ==> #[trigger] visible@[k] < faces@.len(),
        3 * visible@.len() <= usize::MAX,
    ensures
        horizon@ == horizon_of(faces@, visible@),
{
    let mut edges: Vec<(usize, usize)> = Vec::new();
    let mut i: usize = 0;
    while i < visible.len()
        invariant
            i <= visible@.len(),
            forall|k: int| 0 <= k < visible@.len() ==> #[trigger] visible@[k] < faces@.len(),
            edges@ == visible_edges(faces@, visible@.subrange(0, i as int)),
        decreases visible@.len() - i,
    {
        let f = faces[visible[i]];
        assert(visible@.subrange(0, i + 1).drop_last() =~= visible@.subrange(0, i as int));
        edges.push((f[0], f[1]));
        edges.push((f[1], f[2]));
        edges.push((f[2], f[0]));
        proof {
            let prev = visible_edges(faces@, visible@.subrange(0, i as int));
            assert(edges@ =~= prev + face_edges(f));
        }
        i = i + 1;
    }
    assert(visible@.subrange(0, visible@.len() as int) =~= visible@);
    let ghost all = edges@;
    let ghost pred = |e: (usize, usize)| !all.contains((e.1, e.0));
    let mut horizon: Vec<(usize, usize)> = Vec::new();
    let mut j: usize = 0;
    while j < edges.len()
        invariant
            edges@ == all,
            j <= all.len(),
            pred == (|e: (usize, usize)| !all.contains((e.1, e.0))),
            horizon@ == all.subrange(0, j as int).filter(pred),
        decreases all.len() - j,
    {
        let e = edges[j];
        assert(all.subrange(0, j + 1) =~= all.subrange(0, j as int).push(e));
        proof {
            all.subrange(0, j as int).lemma_filter_push(e, pred);
        }
        if !holds_edge(&edges, (e.1, e.0)) {
            horizon.push(e);
        }
        j = j + 1;
    }
    assert(all.subrange(0, all.len() as int) =~= all);
    horizon
}

/// The horizon never holds an edge together with its reverse, and every
/// horizon edge is an edge of a visible face.
pub proof fn lemma_horizon_is_a_boundary(faces: Seq<[usize; 3]>, visible: Seq<usize>, e: (usize, usize))
    requires
        horizon_of(faces, visible).contains(e),
    ensures
        visible_edges(faces, visible).contains(e),
        !horizon_of(faces, visible).contains((e.1, e.0)),
{
    let edges = visible_edges(faces, visible);
    let pred = |x: (usize, usize)| !edges.contains((x.1, x.0));
    edges.lemma_filter_contains_rev(pred, e);
    let k = choose|k: int| 0 <= k < edges.filter(pred).len() && edges.filter(pred)[k] == e;
    edges.lemma_filter_pred(pred, k);
    if edges.filter(pred).contains((e.1, e.0)) {
        edges.lemma_filter_contains_rev(pred, (e.1, e.0));
    }
}

/// `v` is strictly increasing.
pub open spec fn strictly_increasing(v: Seq<usize>) -> bool {
    forall|i: int, j: int| 0 <= i < j < v.len() ==> v[i] < v[j]
}

proof fn lemma_increasing_gap(v: Seq<usize>, j: int)
    requires
        strictly_increasing(v),
        0 <= j < v.len(),
    ensures
        v[j] + (v.len() - 1 - j) <= v[v.len() - 1],
    decreases v.len() - 1 - j,
{
    if j < v.len() - 1 {
        lemma_increasing_gap(v, j + 1);
    }
}

/// `faces` after removing, from the last listed index down, each face at an
/// index of `visible` by moving the current last face into its place.
pub open spec fn swap_removed(faces: Seq<[usize; 3]>, visible: Seq<usize>) -> Seq<[usize; 3]>
    decreases visible.len(),
{
    if visible.len() == 0 {
        faces
    } else {
        let i = visible.last() as int;
        swap_removed(faces.update(i, faces.last()).drop_last(), visible.drop_last())
    }
}

/// The faces listed in `visible`.
pub open spec fn picked_faces(faces: Seq<[usize; 3]>, visible: Seq<usize>) -> Seq<[usize; 3]> {
    visible.map_values(|i: usize| faces[i as int])
}

/// Removes the faces at the (strictly increasing) indices `visible`, from the
/// last one down, each by swapping in the current last face. The surviving
/// faces are exactly the others, in some order.
pub fn remove_faces(faces: &mut Vec<[usize; 3]>, visible: &Vec<usize>)
    requires
        strictly_increasing(visible@),
        forall|k: int| 0 <= k < visible@.len() ==> #[trigger] visible@[k] < old(faces)@.len(),
    ensures
        final(faces)@ == swap_removed(old(faces)@, visible@),
        final(faces)@.len() == old(faces)@.len() - visible@.len(),
        final(faces)@.to_multiset().add(picked_faces(old(faces)@, visible@).to_multiset())
            =~= old(faces)@.to_multiset(),
{
    broadcast use vstd::multiset::group_multiset_axioms;
    broadcast use vstd::seq_lib::group_to_multiset_ensures;

    let ghost original = faces@;
    let n = visible.len();
    if n > 0 {
        proof {
            assert(visible@[n - 1] < original.len());
        }
    }
    let mut k: usize = n;
    assert(visible@.subrange(0, n as int) =~= visible@);
    while k > 0
        invariant
            n == visible@.len(),
            k <= n,
            strictly_increasing(visible@),
            forall|q: int| 0 <= q < n ==> #[trigger] visible@[q] < original.len(),
            n > 0 ==> visible@[n - 1] < original.len(),
            faces@.len() == original.len() - (n - k),
            forall|q: int| 0 <= q < k ==> faces@[#[trigger] visible@[q] as int] == original[visible@[q] as int],
            faces@.to_multiset().add(picked_faces(original, visible@.subrange(k as int, n as int)).to_multiset())
                =~= original.to_multiset(),
            swap_removed(faces@, visible@.subrange(0, k as int)) == swap_removed(original, visible@),
        decreases k,
    {
        let i = visible[k - 1];
        proof {
            lemma_increasing_gap(visible@, k - 1);
        }
        let ghost before = faces@;
        faces.swap_remove(i);
        proof {
            assert(visible@.subrange(0, k as int).drop_last() =~= visible@.subrange(0, k - 1));
            assert(visible@.subrange(0, k as int).last() == i);
            let rest = picked_faces(original, visible@.subrange(k as int, n as int));
            let more = picked_faces(original, visible@.subrange(k - 1, n as int));
            assert(more =~= seq![original[i as int]] + rest);
            vstd::seq_lib::lemma_multiset_commutative(seq![original[i as int]], rest);
            assert(seq![original[i as int]] =~= Seq::<[usize; 3]>::empty().push(original[i as int]));
            Seq::<[usize; 3]>::empty().to_multiset_ensures();
            vstd::multiset::lemma_multiset_empty_len(Seq::<[usize; 3]>::empty().to_multiset());
            let x = original[i as int];
            assert(before[i as int] == x);
            let upd = before.update(i as int, before.last());
            assert(upd.last() == before.last());
            assert(upd =~= upd.drop_last().push(upd.last()));
            assert(upd.drop_last() =~= faces@);
            upd.drop_last().to_multiset_ensures();
            vstd::seq_lib::to_multiset_update(before, i as int, before.last());
            before.to_multiset_ensures();
            assert(before.to_multiset().count(x) > 0);
            assert(upd.to_multiset() =~= faces@.to_multiset().insert(before.last()));
            assert(upd.to_multiset() =~= before.to_multiset().remove(x).insert(before.last()));
            assert forall|z: [usize; 3]| #[trigger] faces@.to_multiset().count(z) == before.to_multiset().remove(
                x,
            ).count(z) by {
                assert(upd.to_multiset().count(z) == faces@.to_multiset().insert(before.last()).count(z));
                assert(upd.to_multiset().count(z) == before.to_multiset().remove(x).insert(
                    before.last(),
                ).count(z));
            }
            assert(faces@.to_multiset() =~= before.to_multiset().remove(x));
            assert(more.to_multiset() =~= rest.to_multiset().insert(x));
            assert forall|q: int| 0 <= q < k - 1 implies faces@[#[trigger] visible@[q] as int]
                == original[visible@[q] as int] by {
                assert(visible@[q] < visible@[k - 1]);
            }
        }
        k = k - 1;
    }
    assert(visible@.subrange(0, n as int) =~= visible@);
    assert(visible@.subrange(0, 0) =~= Seq::<usize>::empty());
}

/// The new faces joining each horizon edge to the added point, wound like the
/// edge.
pub open spec fn fan_of(horizon: Seq<(usize, usize)>, apex: usize) -> Seq<[usize; 3]> {
    horizon.map_values(|e: (usize, usize)| [e.0, e.1, apex])
}

/// One step of incremental hull construction once the faces that point `apex`
/// sees are known (`visible`, strictly increasing): the visible faces are
/// removed and each horizon edge is joined to `apex`. The result holds the
/// faces that were not visible plus the new fan, in some order.
pub fn replace_visible_faces(faces: &mut Vec<[usize; 3]>, visible: &Vec<usize>, apex: usize)
    requires
        strictly_increasing(visible@),
        forall|k: int| 0 <= k < visible@.len() ==> #[trigger] visible@[k] < old(faces)@.len(),
        3 * visible@.len() <= usize::MAX,
    ensures
        final(faces)@ == swap_removed(old(faces)@, visible@) + fan_of(horizon_of(old(faces)@, visible@), apex),
        final(faces)@.to_multiset().add(picked_faces(old(faces)@, visible@).to_multiset())
            =~= old(faces)@.to_multiset().add(fan_of(horizon_of(old(faces)@, visible@), apex).to_multiset()),
{
    broadcast use vstd::multiset::group_multiset_axioms;

    let ghost original = faces@;
    let horizon = horizon_edges(faces, visible);
    remove_faces(faces, visible);
    let ghost mid = faces@;
    let ghost fan = fan_of(horizon@, apex);
    let mut k: usize = 0;
    while k < horizon.len()
        invariant
            k <= horizon@.len(),
            fan == fan_of(horizon@, apex),
            faces@ == mid + fan.subrange(0, k as int),
        decreases horizon@.len() - k,
    {
        let (a, b) = horizon[k];
        faces.push([a, b, apex]);
        assert(fan.subrange(0, k + 1) =~= fan.subrange(0, k as int).push([a, b, apex]));
        assert(mid + fan.subrange(0, k + 1) =~= (mid + fan.subrange(0, k as int)).push([a, b, apex]));
        k = k + 1;
    }
    assert(fan.subrange(0, horizon@.len() as int) =~= fan);
    proof {
        vstd::seq_lib::lemma_multiset_commutative(mid, fan);
    }
}

/// The vertex indices of a triangle list, triangle by triangle.
pub open spec fn flat_indices(tris: Seq<[usize; 3]>) -> Seq<usize>
    decreases tris.len(),
{
    if tris.len() == 0 {
        Seq::empty()
    } else {
        flat_indices(tris.drop_last()) + tris.last()@
    }
}

/// `s` with every repeated value dropped after its first occurrence.
pub open spec fn first_occurrences(s: Seq<usize>) -> Seq<usize>
    decreases s.len(),
{
    if s.len() == 0 {
        Seq::empty()
    } else {
        let r = first_occurrences(s.drop_last());
        if r.contains(s.last()) {
            r
        } else {
            r.push(s.last())
        }
    }
}

/// The used vertices, in order of first use, and the triangles renumbered
/// into that list: triangle `t` of the result refers, corner by corner, to
/// the same original vertices as triangle `t` of the input. The caller keeps
/// vertex `used[j]` as new vertex `j`.
pub fn compact_indices(vertex_count: usize, triangles: &Vec<[usize; 3]>) -> (result: (
    Vec<usize>,
    Vec<[usize; 3]>,
))
    requires
        forall|t: int, c: int|
            0 <= t < triangles@.len() && 0 <= c < 3 ==> #[trigger] triangles@[t]@[c] < vertex_count,
        3 * triangles@.len() < usize::MAX,
    ensures
        result.0@ == first_occurrences(flat_indices(triangles@)),
        result.1@.len() == triangles@.len(),
        forall|t: int, c: int|
            0 <= t < triangles@.len() && 0 <= c < 3 ==> #[trigger] result.1@[t]@[c] < result.0@.len()
                && result.0@[result.1@[t]@[c] as int] == triangles@[t]@[c],
{
    let mut remap: Vec<usize> = Vec::new();
    let mut v: usize = 0;
    while v < vertex_count
        invariant
            v <= vertex_count,
            remap@.len() == v,
            forall|q: int| 0 <= q < v ==> remap@[q] == usize::MAX,
        decreases vertex_count - v,
    {
        remap.push(usize::MAX);
        v = v + 1;
    }
    let mut used: Vec<usize> = Vec::new();
    let mut out: Vec<[usize; 3]> = Vec::new();
    let mut t: usize = 0;
    while t < triangles.len()
        invariant
            t <= triangles@.len(),
            3 * triangles@.len() < usize::MAX,
            forall|t2: int, c: int|
                0 <= t2 < triangles@.len() && 0 <= c < 3 ==> #[trigger] triangles@[t2]@[c] < vertex_count,
            remap@.len() == vertex_count,
            used@ == first_occurrences(flat_indices(triangles@.subrange(0, t as int))),
            used@.len() <= 3 * t,
            forall|x: int|
                0 <= x < vertex_count ==> (#[trigger] remap@[x] == usize::MAX <==> !used@.contains(
                    x as usize,
                )),
            forall|x: int|
                0 <= x < vertex_count && remap@[x] != usize::MAX ==> #[trigger] remap@[x] < used@.len()
                    && used@[remap@[x] as int] == x,
            out@.len() == t,
            forall|t2: int, c: int|
                0 <= t2 < t && 0 <= c < 3 ==> #[trigger] out@[t2]@[c] < used@.len() && used@[out@[t2]@[c] as int]
                    == triangles@[t2]@[c],
        decreases triangles@.len() - t,
    {
        let tri = triangles[t];
        let ghost prefix = triangles@.subrange(0, t as int);
        assert(triangles@.subrange(0, t + 1).drop_last() =~= prefix);
        let mut nt: [usize; 3] = [0, 0, 0];
        let mut c: usize = 0;
        while c < 3
            invariant
                c <= 3,
                t < triangles@.len(),
                3 * triangles@.len() < usize::MAX,
                tri == triangles@[t as int],
                forall|c2: int| 0 <= c2 < 3 ==> #[trigger] tri@[c2] < vertex_count,
                remap@.len() == vertex_count,
                used@ == first_occurrences(flat_indices(prefix) + tri@.subrange(0, c as int)),
                used@.len() <= 3 * t + c,
                forall|x: int|
                    0 <= x < vertex_count ==> (#[trigger] remap@[x] == usize::MAX <==> !used@.contains(
                        x as usize,
                    )),
                forall|x: int|
                    0 <= x < vertex_count && remap@[x] != usize::MAX ==> #[trigger] remap@[x]
                        < used@.len() && used@[remap@[x] as int] == x,
                forall|t2: int, c2: int|
                    0 <= t2 < t && 0 <= c2 < 3 ==> #[trigger] out@[t2]@[c2] < used@.len()
                        && used@[out@[t2]@[c2] as int] == triangles@[t2]@[c2],
                forall|c2: int| 0 <= c2 < c ==> #[trigger] nt@[c2] < used@.len() && used@[nt@[c2] as int] == tri@[c2],
            decreases 3 - c,
        {
            let vi = tri[c];
            let ghost s = flat_indices(prefix) + tri@.subrange(0, c as int);
            assert(flat_indices(prefix) + tri@.subrange(0, c + 1) =~= s.push(vi));
            assert(s.push(vi).drop_last() =~= s);
            if remap[vi] == usize::MAX {
                remap.set(vi, used.len());
                used.push(vi);
            }
            nt[c] = remap[vi];
            c = c + 1;
        }
        assert(tri@.subrange(0, 3) =~= tri@);
        assert(flat_indices(triangles@.subrange(0, t + 1)) =~= flat_indices(prefix) + tri@);
        out.push(nt);
        t = t + 1;
    }
    assert(triangles@.subrange(0, triangles@.len() as int) =~= triangles@);
    (used, out)
}

/// The part of a mesh that a subset of its triangles uses: the used vertices
/// in order of first use, and the triangles renumbered into that list. Each
/// new triangle has, corner by corner, the same vertex values as the input
/// triangle it comes from.
pub fn subset_from_triangles<V: Copy>(vertices: &Vec<V>, triangles: &Vec<[usize; 3]>) -> (result: (
    Vec<V>,
    Vec<[usize; 3]>,
))
    requires
        forall|t: int, c: int|
            0 <= t < triangles@.len() && 0 <= c < 3 ==> #[trigger] triangles@[t]@[c] < vertices@.len(),
        3 * triangles@.len() < usize::MAX,
    ensures
        ({
            let used = first_occurrences(flat_indices(triangles@));
            &&& result.0@.len() == used.len()
            &&& forall|j: int| 0 <= j < used.len() ==> #[trigger] result.0@[j] == vertices@[used[j] as int]
            &&& result.1@.len() == triangles@.len()
            &&& forall|t: int, c: int|
                0 <= t < triangles@.len() && 0 <= c < 3 ==> #[trigger] result.1@[t]@[c] < used.len()
                    && used[result.1@[t]@[c] as int] == triangles@[t]@[c]
        }),
{
    let (used, remapped) = compact_indices(vertices.len(), triangles);
    proof {
        lemma_first_occurrences_unique(flat_indices(triangles@));
        assert forall|j: int| 0 <= j < used@.len() implies #[trigger] used@[j] < vertices@.len() by {
            assert(first_occurrences(flat_indices(triangles@)).contains(used@[j]));
            lemma_flat_indices_below(triangles@, vertices@.len() as int, used@[j]);
        }
    }
    let mut picked: Vec<V> = Vec::new();
    let mut j: usize = 0;
    while j < used.len()
        invariant
            j <= used@.len(),
            forall|q: int| 0 <= q < used@.len() ==> #[trigger] used@[q] < vertices@.len(),
            picked@.len() == j,
            forall|q: int| 0 <= q < j ==> #[trigger] picked@[q] == vertices@[used@[q] as int],
        decreases used@.len() - j,
    {
        picked.push(vertices[used[j]]);
        j = j + 1;
    }
    (picked, remapped)
}

proof fn lemma_flat_indices_below(tris: Seq<[usize; 3]>, bound: int, x: usize)
    requires
        forall|t: int, c: int| 0 <= t < tris.len() && 0 <= c < 3 ==> #[trigger] tris[t]@[c] < bound,
        flat_indices(tris).contains(x),
    ensures
        x < bound,
    decreases tris.len(),
{
    if tris.len() > 0 {
        let init = tris.drop_last();
        let last = tris.last();
        assert(flat_indices(tris) == flat_indices(init) + last@);
        if flat_indices(init).contains(x) {
            assert forall|t: int, c: int| 0 <= t < init.len() && 0 <= c < 3 implies #[trigger] init[t]@[c]
                < bound by {
                assert(init[t] == tris[t]);
            }
            lemma_flat_indices_below(init, bound, x);
        } else {
            let k = choose|k: int| 0 <= k < (flat_indices(init) + last@).len() && (flat_indices(init)
                + last@)[k] == x;
            assert(k >= flat_indices(init).len());
            let c = k - flat_indices(init).len();
            assert(last@[c] == x);
            assert(tris[tris.len() - 1]@[c] < bound);
        }
    }
}

/// Every vertex is kept once: the list of used vertices never repeats one.
pub proof fn lemma_first_occurrences_unique(s: Seq<usize>)
    ensures
        first_occurrences(s).no_duplicates(),
        forall|x: usize| #[trigger] first_occurrences(s).contains(x) <==> s.contains(x),
    decreases s.len(),
{
    if s.len() > 0 {
        lemma_first_occurrences_unique(s.drop_last());
        assert(s =~= s.drop_last().push(s.last()));
    }
}

} // verus!
