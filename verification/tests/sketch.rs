use sim_mechanics::sketch::{
    boolean_shortcut, keep_clip, keep_subject, loop_ranges, select_boolean_edges, splice_hole,
    clip_ear, extrusion_triangles, stitch_walks, BooleanShortcut, EdgeClass, Segment,
};
use sim_mechanics::BooleanOp;

const CLASSES: [EdgeClass; 4] = [
    EdgeClass::Inside,
    EdgeClass::Outside,
    EdgeClass::SharedSame,
    EdgeClass::SharedOpposite,
];

#[test]
fn subject_selection_table() {
    let expect = |op, kept: [bool; 4]| {
        for (c, k) in CLASSES.iter().zip(kept) {
            assert_eq!(keep_subject(op, *c), k, "{op:?} {c:?}");
        }
    };
    expect(BooleanOp::Union, [false, true, true, false]);
    expect(BooleanOp::Intersect, [true, false, true, false]);
    expect(BooleanOp::Subtract, [false, true, false, true]);
}

#[test]
fn clip_selection_table() {
    let expect = |op, kept: [Option<bool>; 4]| {
        for (c, k) in CLASSES.iter().zip(kept) {
            assert_eq!(keep_clip(op, *c), k, "{op:?} {c:?}");
        }
    };
    expect(BooleanOp::Union, [None, Some(false), None, None]);
    expect(BooleanOp::Intersect, [Some(false), None, None, None]);
    expect(BooleanOp::Subtract, [Some(true), None, None, None]);
}

#[test]
fn subtraction_turns_inner_clip_edges_into_a_hole() {
    // A square with a square hole punched through its middle: every edge of A
    // is outside B, every edge of B is inside A.
    let a: Vec<Segment> = (0..4)
        .map(|k| Segment { from: k, to: (k + 1) % 4, class: EdgeClass::Outside })
        .collect();
    let b: Vec<Segment> = (4..8)
        .map(|k| Segment { from: k, to: 4 + (k - 3) % 4, class: EdgeClass::Inside })
        .collect();
    let picked = select_boolean_edges(BooleanOp::Subtract, &a, &b);
    assert_eq!(
        picked,
        vec![(0, 1), (1, 2), (2, 3), (3, 0), (5, 4), (6, 5), (7, 6), (4, 7)]
    );
    assert_eq!(select_boolean_edges(BooleanOp::Intersect, &a, &b), b.iter().map(|s| (s.from, s.to)).collect::<Vec<_>>());
    assert_eq!(select_boolean_edges(BooleanOp::Union, &a, &b), vec![(0, 1), (1, 2), (2, 3), (3, 0)]);
}

#[test]
fn shared_edges_are_taken_once() {
    let a = vec![Segment { from: 0, to: 1, class: EdgeClass::SharedSame }];
    let b = vec![Segment { from: 0, to: 1, class: EdgeClass::SharedSame }];
    assert_eq!(select_boolean_edges(BooleanOp::Union, &a, &b), vec![(0, 1)]);
    assert_eq!(select_boolean_edges(BooleanOp::Intersect, &a, &b), vec![(0, 1)]);
    assert!(select_boolean_edges(BooleanOp::Subtract, &a, &b).is_empty());
}

#[test]
fn empty_operands_short_circuit() {
    assert_eq!(boolean_shortcut(BooleanOp::Union, true, false), Some(BooleanShortcut::Clip));
    assert_eq!(boolean_shortcut(BooleanOp::Subtract, true, false), Some(BooleanShortcut::Empty));
    assert_eq!(boolean_shortcut(BooleanOp::Intersect, true, true), Some(BooleanShortcut::Empty));
    assert_eq!(boolean_shortcut(BooleanOp::Union, false, true), Some(BooleanShortcut::Subject));
    assert_eq!(boolean_shortcut(BooleanOp::Subtract, false, true), Some(BooleanShortcut::Subject));
    assert_eq!(boolean_shortcut(BooleanOp::Intersect, false, true), Some(BooleanShortcut::Empty));
    assert_eq!(boolean_shortcut(BooleanOp::Union, false, false), None);
}

#[test]
fn loop_ranges_tile_the_flattened_vertex_list() {
    assert_eq!(loop_ranges(&vec![4, 3, 5]), vec![(0, 4), (4, 7), (7, 12)]);
    assert!(loop_ranges(&Vec::new()).is_empty());
}

#[test]
fn bridging_a_hole_duplicates_both_bridge_ends() {
    let ring = vec![0, 1, 2, 3];
    let hole = vec![4, 5, 6, 7];
    let merged = splice_hole(&ring, &hole, 1, 2);
    assert_eq!(merged, vec![0, 1, 6, 7, 4, 5, 6, 1, 2, 3]);
    assert_eq!(merged.len(), ring.len() + hole.len() + 2);
}

/// Candidates of each segment: the segments that start where it ends, in index order.
fn outgoing_order(segments: &[(usize, usize)]) -> Vec<Vec<usize>> {
    segments
        .iter()
        .map(|&(_, to)| (0..segments.len()).filter(|&c| segments[c].0 == to).collect())
        .collect()
}

#[test]
fn stitching_closes_a_square() {
    let segments = vec![(0, 1), (1, 2), (2, 3), (3, 0)];
    let walks = stitch_walks(&segments, &outgoing_order(&segments));
    assert_eq!(walks, vec![vec![0, 1, 2, 3]]);
}

#[test]
fn stitching_separates_two_loops_and_stops_open_chains() {
    // Loop A: segments 0, 2, 4 over points 0-1-2; loop B: 1, 3 over 5-6; open: 5.
    let segments = vec![(0, 1), (5, 6), (1, 2), (6, 5), (2, 0), (8, 9)];
    let walks = stitch_walks(&segments, &outgoing_order(&segments));
    assert_eq!(walks, vec![vec![0, 2, 4], vec![1, 3], vec![5]]);
}

#[test]
fn stitching_follows_the_preference_order_at_a_shared_vertex() {
    // Two triangles touching at point 1: 0-1-2 and 1-3-4.
    let segments = vec![(0, 1), (1, 2), (2, 0), (1, 3), (3, 4), (4, 1)];
    let mut order = outgoing_order(&segments);
    assert_eq!(order[0], vec![1, 3]);
    let walks = stitch_walks(&segments, &order);
    assert_eq!(walks, vec![vec![0, 1, 2], vec![3, 4, 5]]);
    // Preferring the detour through the second triangle makes one walk.
    order[0] = vec![3, 1];
    let walks = stitch_walks(&segments, &order);
    assert_eq!(walks, vec![vec![0, 3, 4, 5, 1, 2]]);
}

#[test]
fn clipping_an_ear_takes_its_neighbours_with_wraparound() {
    let mut ring = vec![10, 11, 12, 13];
    assert_eq!(clip_ear(&mut ring, 0), [13, 10, 11]);
    assert_eq!(ring, vec![11, 12, 13]);
    assert_eq!(clip_ear(&mut ring, 2), [12, 13, 11]);
    assert_eq!(ring, vec![11, 12]);
}

#[test]
fn extruded_triangle_has_caps_then_outward_walls() {
    let tris = extrusion_triangles(&vec![[0, 1, 2]], &vec![3]);
    assert_eq!(
        tris,
        vec![
            [0, 2, 4],
            [1, 5, 3],
            [0, 3, 2],
            [0, 1, 3],
            [2, 5, 4],
            [2, 3, 5],
            [4, 1, 0],
            [4, 5, 1],
        ]
    );
}

#[test]
fn extrusion_walls_follow_each_loop_with_its_own_base() {
    let tris = extrusion_triangles(&vec![], &vec![2, 1]);
    assert_eq!(
        tris,
        vec![[0, 3, 2], [0, 1, 3], [2, 1, 0], [2, 3, 1], [4, 5, 4], [4, 5, 5]]
    );
}

#[test]
fn extruded_square_has_twelve_triangles_over_eight_vertices() {
    let tris = extrusion_triangles(&vec![[0, 1, 2], [0, 2, 3]], &vec![4]);
    assert_eq!(tris.len(), 2 * 2 + 2 * 4);
    assert!(tris.iter().all(|t| t.iter().all(|&k| k < 8)));
    let mut used: Vec<usize> = tris.iter().flat_map(|t| t.iter().copied()).collect();
    used.sort_unstable();
    used.dedup();
    assert_eq!(used, (0..8).collect::<Vec<usize>>());
}
