use sim_mechanics::{
    collision_filter_allows, BodyType, ShapeHandle, ShapeStore, DEFAULT_COLLISION_GROUP,
    DEFAULT_COLLISION_MASK,
};

#[test]
fn collision_filter_is_symmetric_and_defaults_to_allow() {
    assert!(collision_filter_allows(
        DEFAULT_COLLISION_GROUP,
        DEFAULT_COLLISION_MASK,
        DEFAULT_COLLISION_GROUP,
        DEFAULT_COLLISION_MASK
    ));
    assert!(!collision_filter_allows(0b01, 0b11, 0b10, 0b10));
    assert!(!collision_filter_allows(0b10, 0b10, 0b01, 0b11));
    assert!(collision_filter_allows(0b01, 0b10, 0b10, 0b01));
}

#[test]
fn shape_store_hands_out_sequential_handles() {
    let mut store: ShapeStore<&str> = ShapeStore::new();
    assert_eq!(store.len(), 0);
    let a = store.insert("sphere");
    let b = store.insert("box");
    assert_eq!(a, ShapeHandle(0));
    assert_eq!(b, ShapeHandle(1));
    assert_eq!(store.len(), 2);
    assert_eq!(*store.get(a), "sphere");
    assert_eq!(*store.get(b), "box");
}

#[test]
fn earlier_handles_survive_later_inserts() {
    let mut store: ShapeStore<u64> = ShapeStore::new();
    let first = store.insert(7);
    for k in 0..10u64 {
        store.insert(100 + k);
    }
    assert_eq!(*store.get(first), 7);
    assert_eq!(*store.get(ShapeHandle(10)), 109);
}

#[test]
fn default_mask_sees_every_nonempty_group() {
    for g in [1u32, 2, 0x8000_0000, 0xffff_ffff] {
        assert!(collision_filter_allows(
            g,
            DEFAULT_COLLISION_MASK,
            g,
            DEFAULT_COLLISION_MASK
        ));
    }
    // An empty group is seen by no one.
    assert!(!collision_filter_allows(0, DEFAULT_COLLISION_MASK, 1, DEFAULT_COLLISION_MASK));
}

#[test]
fn one_sided_mask_drops_the_pair_in_both_argument_orders() {
    // A hides B's group; B would see A.
    assert!(!collision_filter_allows(0b001, 0b001, 0b100, 0b111));
    assert!(!collision_filter_allows(0b100, 0b111, 0b001, 0b001));
}

#[test]
fn body_types_compare_by_variant() {
    assert_eq!(BodyType::Dynamic, BodyType::Dynamic);
    assert_ne!(BodyType::Static, BodyType::Kinematic);
}
