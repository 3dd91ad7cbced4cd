use sim_mechanics::sleep::{compute_islands, manifold_is_active, next_sleep_flags, UnionFind};
use sim_mechanics::BodyType::{self, Dynamic, Kinematic, Static};

#[test]
fn union_find_starts_with_singletons() {
    let mut uf = UnionFind::new(4);
    for i in 0..4 {
        assert_eq!(uf.find(i), i);
    }
}

#[test]
fn union_links_under_the_smaller_root() {
    let mut uf = UnionFind::new(6);
    uf.union(5, 3);
    assert_eq!(uf.find(5), 3);
    uf.union(4, 5);
    assert_eq!(uf.find(4), 3);
    uf.union(1, 4);
    assert_eq!(uf.find(5), 1);
    assert_eq!(uf.find(3), 1);
    assert_eq!(uf.find(0), 0);
    assert_eq!(uf.find(2), 2);
    // Uniting two members of one set changes nothing.
    uf.union(3, 5);
    assert_eq!(uf.find(5), 1);
}

#[test]
fn islands_follow_chains_of_dynamic_contacts() {
    let types = vec![Dynamic, Dynamic, Dynamic, Dynamic, Dynamic];
    let pairs = vec![(3, 4), (1, 3), (0, 2)];
    assert_eq!(compute_islands(&types, &pairs), vec![0, 1, 0, 1, 1]);
}

#[test]
fn a_shared_static_floor_does_not_join_islands() {
    // Body 0 is the floor; 1 and 2 rest on it without touching each other.
    let types = vec![Static, Dynamic, Dynamic];
    let pairs = vec![(0, 1), (0, 2)];
    assert_eq!(compute_islands(&types, &pairs), vec![0, 1, 2]);
}

#[test]
fn kinematic_bodies_do_not_link_either() {
    let types = vec![Dynamic, Kinematic, Dynamic];
    let pairs = vec![(0, 1), (1, 2)];
    assert_eq!(compute_islands(&types, &pairs), vec![0, 1, 2]);
}

#[test]
fn no_bodies_no_islands() {
    let types: Vec<BodyType> = Vec::new();
    assert!(compute_islands(&types, &Vec::new()).is_empty());
}

#[test]
fn an_island_sleeps_only_when_every_member_rested() {
    let types = vec![Static, Dynamic, Dynamic, Dynamic];
    // 1-2 touch; 3 is alone on the floor.
    let pairs = vec![(0, 1), (1, 2), (0, 3)];
    let asleep = vec![false, false, false, false];
    let rested = vec![false, true, false, true];
    let next = next_sleep_flags(&types, &pairs, &rested, &asleep);
    assert_eq!(next, vec![false, false, false, true]);

    let rested = vec![false, true, true, true];
    let next = next_sleep_flags(&types, &pairs, &rested, &asleep);
    assert_eq!(next, vec![false, true, true, true]);
}

#[test]
fn a_restless_newcomer_wakes_the_island_it_joins() {
    let types = vec![Dynamic, Dynamic, Dynamic];
    let asleep = vec![true, true, false];
    let rested = vec![true, true, false];
    // Body 2 falls onto the sleeping stack 0-1.
    let pairs = vec![(0, 1), (1, 2)];
    assert_eq!(next_sleep_flags(&types, &pairs, &rested, &asleep), vec![false, false, false]);
}

#[test]
fn non_dynamic_bodies_keep_their_sleep_flag() {
    let types = vec![Static, Kinematic];
    let rested = vec![true, true];
    let asleep = vec![true, false];
    assert_eq!(next_sleep_flags(&types, &Vec::new(), &rested, &asleep), vec![true, false]);
}

#[test]
fn a_manifold_is_active_while_one_side_is_an_awake_dynamic_body() {
    let types = vec![Static, Dynamic, Dynamic, Kinematic];
    let asleep = vec![false, true, false, false];
    assert!(!manifold_is_active(&types, &asleep, 0, 1)); // floor and a sleeper
    assert!(manifold_is_active(&types, &asleep, 0, 2));
    assert!(manifold_is_active(&types, &asleep, 1, 2));
    assert!(!manifold_is_active(&types, &asleep, 0, 3)); // no dynamic side
}
