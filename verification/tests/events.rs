use sim_mechanics::events::{
    contact_events, contact_source_id, ContactEvent, ContactEventKind, ContactPairs,
};

#[test]
fn source_id_puts_body_a_in_the_high_word() {
    assert_eq!(contact_source_id(0, 0), 0);
    assert_eq!(contact_source_id(1, 2), (1u64 << 32) + 2);
    assert_eq!(contact_source_id(3, 0xffff_ffff), 3 * 4_294_967_296 + 4_294_967_295);
}

#[test]
fn first_contact_starts_and_separation_ends() {
    let mut pairs = ContactPairs::new();
    let t = pairs.update(&vec![(0, 1), (0, 1), (2, 3)]);
    assert_eq!(t.started, vec![(0, 1), (2, 3)]);
    assert!(t.ended.is_empty());
    assert!(pairs.contains((0, 1)));

    let t = pairs.update(&vec![(2, 3), (4, 5)]);
    assert_eq!(t.started, vec![(4, 5)]);
    assert_eq!(t.ended, vec![(0, 1)]);
    assert!(!pairs.contains((0, 1)));
}

#[test]
fn steady_contacts_emit_no_events() {
    let mut pairs = ContactPairs::new();
    pairs.update(&vec![(0, 1), (1, 2)]);
    let t = pairs.update(&vec![(1, 2), (0, 1)]);
    assert!(t.started.is_empty());
    assert!(t.ended.is_empty());
    assert!(contact_events(&t).is_empty());
}

#[test]
fn events_list_starts_before_ends() {
    let mut pairs = ContactPairs::new();
    pairs.update(&vec![(0, 1)]);
    let t = pairs.update(&vec![(1, 2)]);
    let events = contact_events(&t);
    assert_eq!(
        events,
        vec![
            ContactEvent { source: contact_source_id(1, 2), kind: ContactEventKind::Started },
            ContactEvent { source: contact_source_id(0, 1), kind: ContactEventKind::Ended },
        ]
    );
}
