use sim_mechanics::gjk::simplex_subset;
use sim_mechanics::soft_body::rope_links;

#[test]
fn mask_selects_simplex_vertices_in_order() {
    assert_eq!(simplex_subset(4, 0b1011), vec![0, 1, 3]);
    assert_eq!(simplex_subset(4, 0b1111), vec![0, 1, 2, 3]);
    assert_eq!(simplex_subset(3, 0b1000), Vec::<usize>::new());
    assert_eq!(simplex_subset(1, 1), vec![0]);
}

#[test]
fn rope_links_chain_neighbouring_particles() {
    assert_eq!(rope_links(3), vec![(0, 1), (1, 2), (2, 3)]);
    assert!(rope_links(0).is_empty());
}
