use sim_mechanics::collision::{
    edge_contact_feature_id, face_contact_feature_id, face_quadrant, filter_candidate_pairs,
    narrowphase_route, needs_narrowphase, part_feature_id, vertex_contact_feature_id,
    preferred_axis, remember_axis, sat_axis, sat_axis_index, AxisCache, PairRoute, PairRoutine,
    SatAxis, ShapeKind,
};
use sim_mechanics::BodyType::{Dynamic, Kinematic, Static};
use sim_mechanics::{DEFAULT_COLLISION_GROUP, DEFAULT_COLLISION_MASK};

#[test]
fn static_and_kinematic_pairs_skip_the_narrowphase() {
    let types = vec![Static, Kinematic, Dynamic];
    let groups = vec![DEFAULT_COLLISION_GROUP; 3];
    let masks = vec![DEFAULT_COLLISION_MASK; 3];
    assert!(!needs_narrowphase(&types, &groups, &masks, 0, 1));
    assert!(needs_narrowphase(&types, &groups, &masks, 0, 2));
    assert!(needs_narrowphase(&types, &groups, &masks, 1, 2));
}

#[test]
fn filtered_groups_skip_the_narrowphase_and_order_is_kept() {
    let types = vec![Dynamic, Dynamic, Dynamic, Static];
    let groups = vec![0b01, 0b10, 0b01, 0b01];
    let masks = vec![0b01, 0b11, 0b11, 0b11];
    let candidates = vec![(0, 1), (0, 2), (0, 3), (1, 2), (1, 3), (2, 3)];
    // Body 0 hides group 0b10, so (0, 1) is dropped.
    assert_eq!(
        filter_candidate_pairs(&types, &groups, &masks, &candidates),
        vec![(0, 2), (0, 3), (1, 2), (1, 3), (2, 3)]
    );
}

#[test]
fn compound_parts_get_separate_feature_spaces() {
    assert_eq!(part_feature_id(7, 0), 7);
    assert_eq!(part_feature_id(7, 2), 7 + 2 * 1_000_003);
    // Wrapping arithmetic for very large part numbers.
    assert_eq!(part_feature_id(u32::MAX, 0), u32::MAX);
    assert_eq!(part_feature_id(1, 5000), 1u32.wrapping_add(5000u32.wrapping_mul(1_000_003)));
}

#[test]
fn axis_cache_remembers_hits_and_forgets_misses() {
    let mut cache = AxisCache::new();
    assert_eq!(preferred_axis(&cache, (0, 1)), None);
    remember_axis(&mut cache, (0, 1), Some(4));
    assert_eq!(preferred_axis(&cache, (0, 1)), Some(4));
    remember_axis(&mut cache, (0, 1), Some(2));
    assert_eq!(preferred_axis(&cache, (0, 1)), Some(2));
    remember_axis(&mut cache, (0, 1), None);
    assert_eq!(preferred_axis(&cache, (0, 1)), None);
}

const KINDS: [ShapeKind; 6] = [
    ShapeKind::Sphere,
    ShapeKind::Box,
    ShapeKind::Capsule,
    ShapeKind::Plane,
    ShapeKind::Compound,
    ShapeKind::ConvexMesh,
];

#[test]
fn plane_routes_turn_the_normal_when_the_plane_is_b() {
    assert_eq!(
        narrowphase_route(ShapeKind::Box, ShapeKind::Plane),
        Some(PairRoute { routine: PairRoutine::BoxPlane, a_first: true, negate_normal: true })
    );
    assert_eq!(
        narrowphase_route(ShapeKind::Plane, ShapeKind::Box),
        Some(PairRoute { routine: PairRoutine::BoxPlane, a_first: false, negate_normal: false })
    );
}

#[test]
fn unsupported_pairs_have_no_route() {
    assert_eq!(narrowphase_route(ShapeKind::Plane, ShapeKind::Plane), None);
    assert_eq!(narrowphase_route(ShapeKind::ConvexMesh, ShapeKind::Capsule), None);
    assert_eq!(narrowphase_route(ShapeKind::Capsule, ShapeKind::ConvexMesh), None);
}

#[test]
fn compounds_are_split_first_and_a_wins_a_tie() {
    for k in KINDS {
        let r = narrowphase_route(ShapeKind::Compound, k).unwrap();
        assert_eq!((r.routine, r.a_first), (PairRoutine::Compound, true));
    }
    for k in KINDS.iter().filter(|k| **k != ShapeKind::Compound) {
        let r = narrowphase_route(*k, ShapeKind::Compound).unwrap();
        assert_eq!((r.routine, r.a_first), (PairRoutine::Compound, false));
    }
}

#[test]
fn swapping_a_pair_keeps_the_routine() {
    for a in KINDS {
        for b in KINDS {
            let ab = narrowphase_route(a, b);
            let ba = narrowphase_route(b, a);
            assert_eq!(ab.is_some(), ba.is_some(), "{a:?} {b:?}");
            if let (Some(x), Some(y)) = (ab, ba) {
                assert_eq!(x.routine, y.routine);
            }
        }
    }
    assert_eq!(
        narrowphase_route(ShapeKind::Box, ShapeKind::ConvexMesh).unwrap().routine,
        PairRoutine::Polyhedra
    );
}

#[test]
fn sat_axis_numbering_covers_faces_then_edge_pairs() {
    assert_eq!(sat_axis(0), SatAxis::FaceA(0));
    assert_eq!(sat_axis(2), SatAxis::FaceA(2));
    assert_eq!(sat_axis(3), SatAxis::FaceB(0));
    assert_eq!(sat_axis(5), SatAxis::FaceB(2));
    assert_eq!(sat_axis(6), SatAxis::EdgeCross(0, 0));
    assert_eq!(sat_axis(10), SatAxis::EdgeCross(1, 1));
    assert_eq!(sat_axis(14), SatAxis::EdgeCross(2, 2));
    for idx in 0..15 {
        assert_eq!(sat_axis_index(sat_axis(idx)), idx);
    }
    assert_eq!(sat_axis_index(SatAxis::EdgeCross(2, 0)), 12);
}

#[test]
fn face_contact_features_pack_faces_and_quadrant() {
    assert_eq!(face_quadrant(false, false), 0);
    assert_eq!(face_quadrant(true, false), 1);
    assert_eq!(face_quadrant(false, true), 2);
    assert_eq!(face_quadrant(true, true), 3);
    assert_eq!(face_contact_feature_id(0, false, 0, false, 0), 0);
    assert_eq!(face_contact_feature_id(1, true, 2, false, 0), 1 + 4 + 16);
    assert_eq!(face_contact_feature_id(2, true, 2, true, 3), 2 + 4 + 16 + 32 + 192);
    let mut seen = std::collections::BTreeSet::new();
    for ra in 0..3 {
        for ia in 0..3 {
            for q in 0..4 {
                for rp in [false, true] {
                    for ip in [false, true] {
                        assert!(seen.insert(face_contact_feature_id(ra, rp, ia, ip, q)));
                    }
                }
            }
        }
    }
    assert_eq!(seen.len(), 3 * 3 * 4 * 2 * 2);
}

#[test]
fn edge_contact_features_start_at_two_hundred() {
    assert_eq!(edge_contact_feature_id(0, 0), 200);
    assert_eq!(edge_contact_feature_id(1, 2), 205);
    assert_eq!(edge_contact_feature_id(2, 2), 208);
}

#[test]
fn last_quadrant_face_contacts_can_reach_the_edge_numbers() {
    // Reference face -x, incident face -y, last quadrant: 8 + 192 = 200.
    assert_eq!(face_contact_feature_id(0, false, 1, false, 3), edge_contact_feature_id(0, 0));
    // Outside that case the two numberings stay apart.
    assert!(face_contact_feature_id(2, true, 1, true, 3) > 208);
    assert!(face_contact_feature_id(2, true, 2, true, 2) < 200);
}

#[test]
fn polytope_vertex_features_mark_the_first_body_with_the_top_bit() {
    assert_eq!(vertex_contact_feature_id(false, 5), 5);
    assert_eq!(vertex_contact_feature_id(true, 5), 0x8000_0005);
    assert_ne!(vertex_contact_feature_id(true, 0), vertex_contact_feature_id(false, 0));
}
