use sim_mechanics::ManifoldCache;
use std::collections::BTreeSet;

/// Anchors closer than this (in metres) are the same physical contact point.
const PERSISTENCE_TOLERANCE: f64 = 0.002;

#[derive(Clone, Copy, Debug, PartialEq)]
struct Impulse {
    normal: f64,
}

fn cache_with_one_contact() -> (ManifoldCache<Impulse>, (usize, usize, u32)) {
    let mut cache = ManifoldCache::new();
    let key = (0, 1, 7);
    cache.record(key, Impulse { normal: 9.81 });
    assert_eq!(cache.len(), 1);
    (cache, key)
}

#[test]
fn warm_start_is_inherited_only_while_the_anchors_stay_within_two_millimetres() {
    let (cache, key) = cache_with_one_contact();
    for (slide, kept) in [(0.0, true), (0.001, true), (0.005, false)] {
        let close = slide < PERSISTENCE_TOLERANCE;
        let got = cache.inherited(key, close).copied();
        if kept {
            assert_eq!(got, Some(Impulse { normal: 9.81 }));
        } else {
            assert_eq!(got, None);
        }
    }
}

#[test]
fn disabling_persistence_restores_the_unconditional_pre_migration_inheritance() {
    let (mut cache, key) = cache_with_one_contact();
    cache.persistence_enabled = false;
    // A metre of drift is still inherited.
    let close = 1.0 < PERSISTENCE_TOLERANCE;
    assert_eq!(cache.inherited(key, close).copied(), Some(Impulse { normal: 9.81 }));
    cache.retain_pairs(&BTreeSet::new());
    assert_eq!(cache.len(), 1);
}

#[test]
fn retain_pairs_drops_entries_for_pairs_that_are_no_longer_touching() {
    let (mut cache, key) = cache_with_one_contact();
    let live: BTreeSet<(usize, usize)> = [(key.0, key.1)].into_iter().collect();
    cache.retain_pairs(&live);
    assert_eq!(cache.len(), 1, "a live pair must be kept");
    cache.retain_pairs(&BTreeSet::new());
    assert_eq!(cache.len(), 0, "a pair that stopped touching must be dropped");
}

#[test]
fn unknown_keys_inherit_nothing() {
    let (cache, _) = cache_with_one_contact();
    assert_eq!(cache.inherited((0, 1, 8), true), None);
    assert_eq!(cache.lookup((2, 3, 7)), None);
}

#[test]
fn recording_again_overwrites_the_entry() {
    let (mut cache, key) = cache_with_one_contact();
    cache.record(key, Impulse { normal: 1.5 });
    assert_eq!(cache.len(), 1);
    assert_eq!(cache.lookup(key).copied(), Some(Impulse { normal: 1.5 }));
}

#[test]
fn write_back_drops_vanished_points_of_solved_pairs_only() {
    let mut cache = ManifoldCache::new();
    cache.record((0, 1, 1), Impulse { normal: 1.0 });
    cache.record((0, 1, 2), Impulse { normal: 2.0 });
    cache.record((2, 3, 1), Impulse { normal: 3.0 });
    // Pair (0, 1) was solved and only feature 2 reappeared; pair (2, 3) slept.
    let touched: BTreeSet<(usize, usize, u32)> = [(0, 1, 2)].into_iter().collect();
    let solved: BTreeSet<(usize, usize)> = [(0, 1)].into_iter().collect();
    cache.retain_touched(&touched, &solved);
    assert_eq!(cache.len(), 2);
    assert_eq!(cache.lookup((0, 1, 1)), None);
    assert!(cache.lookup((0, 1, 2)).is_some());
    assert!(cache.lookup((2, 3, 1)).is_some());
}

#[test]
fn write_back_keeps_everything_without_persistence() {
    let mut cache = ManifoldCache::new();
    cache.set_persistence(false);
    cache.record((0, 1, 1), Impulse { normal: 1.0 });
    let solved: BTreeSet<(usize, usize)> = [(0, 1)].into_iter().collect();
    cache.retain_touched(&BTreeSet::new(), &solved);
    assert_eq!(cache.len(), 1);
}
