use graphkit::graph::louvain::LouvainLevel;
use graphkit::graph::Graph;

/// A path 0 - 1 - 2 - 3 with weights 1, 2, 3, listed from both ends.
fn path() -> Graph {
    Graph::new(vec![
        vec![(1, 1)],
        vec![(0, 1), (2, 2)],
        vec![(1, 2), (3, 3)],
        vec![(2, 3)],
    ])
}

#[test]
fn a_new_level_separates_and_queues_every_node() {
    let g = path();
    let level = LouvainLevel::new(&g);
    assert_eq!(level.len(), 4);
    assert_eq!(level.communities(), &[0, 1, 2, 3]);
    assert_eq!((0..4).map(|u| level.node_strength(u)).collect::<Vec<_>>(), vec![1, 3, 5, 3]);
    for u in 0..4 {
        assert_eq!(level.strength_without(u, u), 0);
    }
    assert_eq!(level.strength_without(0, 2), 5);
}

#[test]
fn moves_carry_strength_between_communities() {
    let g = path();
    let mut level = LouvainLevel::new(&g);
    level.move_node(0, 1);
    assert_eq!(level.community(0), 1);
    // community 1 now holds nodes 0 and 1
    assert_eq!(level.strength_without(1, 1), 1);
    assert_eq!(level.strength_without(2, 1), 4);
    assert_eq!(level.strength_without(0, 0), 0);
    level.move_node(0, 1);
    assert_eq!(level.communities(), &[1, 1, 2, 3]);
    level.move_node(3, 2);
    level.move_node(1, 2);
    assert_eq!(level.communities(), &[1, 2, 2, 2]);
    assert_eq!(level.strength_without(0, 2), 11);
    assert_eq!(level.strength_without(0, 1), 0);
    assert_eq!(level.strength_without(2, 2), 6);
}

#[test]
fn the_queue_is_visited_in_order_and_refilled_once() {
    let g = path();
    let mut level = LouvainLevel::new(&g);
    assert_eq!(level.pop_active(), Some(0));
    assert_eq!(level.pop_active(), Some(1));
    // 0 and 2 are neighbours of 1; 2 is still queued, 0 is not
    level.enqueue_neighbours(&g, 1);
    assert_eq!(level.pop_active(), Some(2));
    assert_eq!(level.pop_active(), Some(3));
    assert_eq!(level.pop_active(), Some(0));
    assert_eq!(level.pop_active(), None);
    // neighbours in the same community as the node are not queued
    level.move_node(0, 1);
    level.enqueue_neighbours(&g, 1);
    assert_eq!(level.pop_active(), Some(2));
    assert_eq!(level.pop_active(), None);
}
