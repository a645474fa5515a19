use graphkit::graph::partition::PartitionSet;
use graphkit::graph::Graph;

/// Two triangles 0-1-2 and 3-4-5 joined by the edge 2-3, all of weight 1,
/// listed from both ends.
fn two_triangles() -> Graph {
    Graph::new(vec![
        vec![(1, 1), (2, 1)],
        vec![(0, 1), (2, 1)],
        vec![(0, 1), (1, 1), (3, 1)],
        vec![(2, 1), (4, 1), (5, 1)],
        vec![(3, 1), (5, 1)],
        vec![(3, 1), (4, 1)],
    ])
}

fn sorted(mut v: Vec<(usize, usize)>) -> Vec<(usize, usize)> {
    v.sort();
    v
}

#[test]
fn trivial_puts_everything_together() {
    let g = two_triangles();
    let p = PartitionSet::trivial(&g);
    assert_eq!(p.len(), 1);
    assert!(!p.is_empty());
    for u in 0..6 {
        assert_eq!(p.community(u), 0);
    }
    assert_eq!(p.communities(), vec![vec![0, 1, 2, 3, 4, 5]]);
}

#[test]
fn singleton_separates_everything() {
    let g = two_triangles();
    let p = PartitionSet::singleton(&g);
    assert_eq!(p.len(), 6);
    for u in 0..6 {
        assert_eq!(p.community(u), u);
    }
    assert_eq!(p.communities(), vec![vec![0], vec![1], vec![2], vec![3], vec![4], vec![5]]);
    assert_eq!(p.graph().n_nodes(), 6);
}

#[test]
fn empty_graph_partitions() {
    let g = Graph::new(vec![]);
    let p = PartitionSet::singleton(&g);
    assert!(p.is_empty());
    assert_eq!(p.len(), 0);
    assert!(p.communities().is_empty());
}

#[test]
fn compress_relabels_by_first_appearance() {
    let g = two_triangles();
    let p = PartitionSet::singleton(&g);
    // node u moves to community target[u]
    let target = vec![4, 4, 4, 1, 1, 1];
    let q = PartitionSet::compress_partition(&p, &target);
    assert_eq!(q.len(), 2);
    assert_eq!((0..6).map(|u| q.community(u)).collect::<Vec<_>>(), vec![0, 0, 0, 1, 1, 1]);
    assert_eq!(q.communities(), vec![vec![0, 1, 2], vec![3, 4, 5]]);
}

#[test]
fn compress_follows_the_previous_partition() {
    let g = two_triangles();
    let p = PartitionSet::compress_partition(&PartitionSet::singleton(&g), &[1, 0, 1, 0, 2, 2]);
    assert_eq!((0..6).map(|u| p.community(u)).collect::<Vec<_>>(), vec![0, 1, 0, 1, 2, 2]);
    // communities of p: 0 -> 7, 1 -> 7, 2 -> 3
    let q = PartitionSet::compress_partition(&p, &[7, 7, 3]);
    assert_eq!(q.len(), 2);
    assert_eq!((0..6).map(|u| q.community(u)).collect::<Vec<_>>(), vec![0, 0, 0, 0, 1, 1]);
}

#[test]
fn aggregate_of_singleton_is_the_graph() {
    let g = two_triangles();
    let p = PartitionSet::singleton(&g);
    let a = p.aggregate_graph();
    assert_eq!(a.n_nodes(), g.n_nodes());
    assert_eq!(a.n_edges(), g.n_edges());
    for u in 0..6 {
        assert_eq!(a.neighbours(u), g.neighbours(u));
    }
}

#[test]
fn aggregate_sums_weights_between_communities() {
    let g = two_triangles();
    let p = PartitionSet::compress_partition(&PartitionSet::singleton(&g), &[0, 0, 0, 1, 1, 1]);
    let a = p.aggregate_graph();
    assert_eq!(a.n_nodes(), 2);
    // inside each triangle: 6 entries of weight 1; one entry across each way
    assert_eq!(sorted(a.neighbours(0).to_vec()), vec![(0, 6), (1, 1)]);
    assert_eq!(sorted(a.neighbours(1).to_vec()), vec![(0, 1), (1, 6)]);
    assert_eq!(a.n_edges(), 2);
    let total: usize = a.weights().iter().sum();
    assert_eq!(total, g.weights().iter().sum::<usize>());
}

#[test]
fn aggregate_of_trivial_is_one_loop() {
    let g = Graph::new(vec![vec![(1, 3)], vec![(0, 4), (1, 2)]]);
    let a = PartitionSet::trivial(&g).aggregate_graph();
    assert_eq!(a.n_nodes(), 1);
    assert_eq!(a.neighbours(0), &[(0, 9)]);
    assert_eq!(a.n_edges(), 0);
}

#[test]
fn neighbour_weights_skip_self_loops() {
    let g = Graph::new(vec![vec![(0, 5), (1, 2), (2, 3), (1, 4)], vec![], vec![]]);
    let community = vec![0, 1, 1];
    let m = PartitionSet::neighbour_community_weights(&g, 0, &community);
    assert_eq!(m.len(), 1);
    assert_eq!(m.get(&1), Some(&9));
    assert_eq!(m.get(&0), None);
}

#[test]
fn modularity_terms_of_two_triangles() {
    let g = two_triangles();
    let p = PartitionSet::compress_partition(&PartitionSet::singleton(&g), &[0, 0, 0, 1, 1, 1]);
    let (e, a, m2) = p.modularity_terms();
    assert_eq!(e, vec![6, 6]);
    assert_eq!(a, vec![7, 7]);
    assert_eq!(m2, 14);
    let q: f64 = e
        .iter()
        .zip(a.iter())
        .map(|(&ec, &ac)| ec as f64 - (ac * ac) as f64 / m2 as f64)
        .sum::<f64>()
        / m2 as f64;
    assert!((q - 5.0 / 14.0).abs() < 1e-12);
}

#[test]
fn modularity_terms_of_trivial_partition() {
    let g = two_triangles();
    let (e, a, m2) = PartitionSet::trivial(&g).modularity_terms();
    assert_eq!(e, vec![14]);
    assert_eq!(a, vec![14]);
    assert_eq!(m2, 14);
}

#[test]
fn community_strengths_add_up_to_the_total_weight() {
    let g = Graph::new(vec![vec![(1, 3), (2, 1)], vec![(0, 3)], vec![(0, 1), (2, 5)]]);
    for target in [vec![0, 0, 1], vec![2, 1, 0], vec![0, 0, 0]] {
        let p = PartitionSet::compress_partition(&PartitionSet::singleton(&g), &target);
        let (e, a, m2) = p.modularity_terms();
        assert_eq!(a.iter().sum::<usize>(), m2);
        assert!(e.iter().sum::<usize>() <= m2);
        assert_eq!(m2, 13);
    }
}
