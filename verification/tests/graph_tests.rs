use graphkit::graph::painter::Painter;
use graphkit::graph::parser::ParseError as MtxError;
use graphkit::graph::Graph;
use graphkit::matrix::connection_triplets;

fn triangle_path() -> Graph {
    // 0 -> 1 (w 2), 1 -> 2 (w 3), 2 -> 0 (w 1)
    Graph::new(vec![vec![(1, 2)], vec![(2, 3)], vec![(0, 1)]])
}

#[test]
fn new_counts_half_of_the_entries_as_edges() {
    let g = Graph::new(vec![vec![(1, 1)], vec![(0, 1), (2, 1)], vec![(1, 1)]]);
    assert_eq!(g.n_nodes(), 3);
    assert_eq!(g.n_edges(), 2);
    let odd = Graph::new(vec![vec![(1, 1)], vec![]]);
    assert_eq!(odd.n_edges(), 0);
}

#[test]
fn empty_graph_has_nothing() {
    let g = Graph::new(vec![]);
    assert_eq!(g.n_nodes(), 0);
    assert_eq!(g.n_edges(), 0);
    assert!(g.weights().is_empty());
}

#[test]
fn neighbours_degree_and_strength() {
    let g = Graph::new(vec![vec![(1, 4), (2, 5)], vec![], vec![(0, 7)]]);
    assert_eq!(g.neighbours(0), &[(1, 4), (2, 5)]);
    assert_eq!(g.neighbours(1), &[]);
    assert_eq!(g.degree(0), 2);
    assert_eq!(g.degree(1), 0);
    assert_eq!(g.strength(0), 9);
    assert_eq!(g.strength(1), 0);
    assert_eq!(g.strength(2), 7);
}

#[test]
fn is_neighbour_of_looks_at_outgoing_entries_only() {
    let g = triangle_path();
    assert!(g.is_neighbour_of(0, 1));
    assert!(!g.is_neighbour_of(1, 0));
    assert!(g.is_neighbour_of(2, 0));
    assert!(!g.is_neighbour_of(0, 0));
}

#[test]
fn weights_in_node_order() {
    let g = Graph::new(vec![vec![(1, 4), (2, 5)], vec![], vec![(0, 7)]]);
    assert_eq!(g.weights(), vec![4, 5, 7]);
    assert_eq!(g.weights_of(0), vec![4, 5]);
    assert_eq!(g.weights_of(1), Vec::<usize>::new());
}

#[test]
fn make_undirected_adds_missing_reverses() {
    let g = Graph::new(vec![vec![(1, 2)], vec![(2, 3)], vec![(0, 1)]]);
    let n_before = g.n_edges();
    let u = g.make_undirected();
    assert_eq!(u.n_nodes(), 3);
    // the three entries each lacked a reverse
    assert_eq!(u.n_edges(), n_before + 3);
    assert_eq!(u.neighbours(0), &[(1, 2), (2, 1)]);
    assert_eq!(u.neighbours(1), &[(2, 3), (0, 2)]);
    assert_eq!(u.neighbours(2), &[(0, 1), (1, 3)]);
    for x in 0..3 {
        for &(y, _) in u.neighbours(x) {
            assert!(u.is_neighbour_of(y, x));
        }
    }
}

#[test]
fn make_undirected_keeps_existing_reverses() {
    let g = Graph::new(vec![vec![(1, 5)], vec![(0, 9), (2, 1)], vec![]]);
    let u = g.make_undirected();
    assert_eq!(u.neighbours(0), &[(1, 5)]);
    assert_eq!(u.neighbours(1), &[(0, 9), (2, 1)]);
    assert_eq!(u.neighbours(2), &[(1, 1)]);
    assert_eq!(u.n_edges(), g.n_edges() + 1);
}

#[test]
fn make_undirected_twice_changes_nothing_more() {
    let g = triangle_path();
    let once = g.make_undirected();
    let twice = once.make_undirected();
    assert_eq!(twice.n_edges(), once.n_edges());
    for x in 0..3 {
        assert_eq!(twice.neighbours(x), once.neighbours(x));
    }
}

#[test]
fn from_mtx_builds_unit_weight_edges() {
    let text = "%%MatrixMarket matrix coordinate pattern general\n% comment\n3 3 3\n1 2\n2 3\n1 3\n";
    let g = Graph::from_mtx(text).unwrap();
    assert_eq!(g.n_nodes(), 3);
    assert_eq!(g.n_edges(), 3);
    assert_eq!(g.neighbours(0), &[(1, 1), (2, 1)]);
    assert_eq!(g.neighbours(1), &[(2, 1)]);
    assert_eq!(g.neighbours(2), &[]);
}

#[test]
fn from_mtx_reports_reading_errors() {
    assert!(matches!(Graph::from_mtx("% nothing\n"), Err(MtxError::EmptyBody)));
    assert!(matches!(Graph::from_mtx("2 2 2\n1 2\n"), Err(MtxError::TooShort { expected: 2, got: 1 })));
    match Graph::from_mtx("2 2\n") {
        Err(MtxError::BadLine(l)) => assert_eq!(l, "2 2\n"),
        other => panic!("unexpected {:?}", other),
    }
}

#[test]
fn try_from_mtx_refuses_what_would_abort() {
    // index 0 is not a 1-based index
    assert!(Graph::try_from_mtx("2 2 1\n0 1\n").is_none());
    // a source beyond the rows
    assert!(Graph::try_from_mtx("1 3 1\n3 1\n").is_none());
    assert!(matches!(Graph::try_from_mtx("2 2 1\n2 1\n"), Some(Ok(_))));
}

#[test]
fn drawn_edges_keep_each_undirected_edge_once() {
    let g = triangle_path().make_undirected();
    assert_eq!(Painter::drawn_edges(&g), vec![(0, 1, 2), (0, 2, 1), (1, 2, 3)]);
}

#[test]
fn max_weight_is_at_least_one() {
    assert_eq!(Painter::max_weight(&triangle_path()), 3);
    let zero = Graph::new(vec![vec![(0, 0)]]);
    assert_eq!(Painter::max_weight(&zero), 1);
    assert_eq!(Painter::max_weight(&Graph::new(vec![])), 1);
}

#[test]
fn connection_triplets_are_transposed() {
    let g = Graph::new(vec![vec![(1, 4), (2, 5)], vec![], vec![(0, 7)]]);
    assert_eq!(connection_triplets(&g), vec![(1, 0, 4), (2, 0, 5), (0, 2, 7)]);
}

#[test]
fn clone_is_an_equal_copy() {
    let g = triangle_path();
    let h = g.clone();
    assert_eq!(h.n_nodes(), g.n_nodes());
    assert_eq!(h.n_edges(), g.n_edges());
    for u in 0..3 {
        assert_eq!(h.neighbours(u), g.neighbours(u));
    }
}
