//! Weighted directed graphs stored as adjacency lists.

pub mod louvain;
pub mod painter;
pub mod parser;
pub mod partition;

use vstd::prelude::*;
use vstd::utf8::*;

use crate::parser::{spec_parse_mtx, MtxData};
use parser::{ParseError, Parser};

verus! {

/// The content of a graph: the number of edges it records and, for each
/// node, its outgoing `(target, weight)` pairs in order.
pub struct GraphData {
    pub n_edges: nat,
    pub adj: Seq<Seq<(usize, usize)>>,
}

/// Number of entries of all adjacency lists together.
pub open spec fn total_len(adj: Seq<Seq<(usize, usize)>>) -> nat
    decreases adj.len(),
{
    if adj.len() == 0 {
        0
    } else {
        total_len(adj.drop_last()) + adj.last().len()
    }
}

/// Sum of the weights of an adjacency list.
pub open spec fn weight_sum(row: Seq<(usize, usize)>) -> nat
    decreases row.len(),
{
    if row.len() == 0 {
        0
    } else {
        weight_sum(row.drop_last()) + row.last().1 as nat
    }
}

/// The weights of an adjacency list, in order.
pub open spec fn row_weights(row: Seq<(usize, usize)>) -> Seq<usize> {
    row.map_values(|e: (usize, usize)| e.1)
}

/// The weights of all adjacency lists, node after node.
pub open spec fn all_weights(adj: Seq<Seq<(usize, usize)>>) -> Seq<usize>
    decreases adj.len(),
{
    if adj.len() == 0 {
        Seq::empty()
    } else {
        all_weights(adj.drop_last()) + row_weights(adj.last())
    }
}

/// Sum of the weights of all entries of all adjacency lists.
pub open spec fn total_weight(adj: Seq<Seq<(usize, usize)>>) -> nat
    decreases adj.len(),
{
    if adj.len() == 0 {
        0
    } else {
        total_weight(adj.drop_last()) + weight_sum(adj.last())
    }
}

/// `row` has an entry towards `v`.
pub open spec fn has_target(row: Seq<(usize, usize)>, v: usize) -> bool {
    exists|j: int| 0 <= j < row.len() && (#[trigger] row[j]).0 == v
}

/// Every target is a node of the graph.
pub open spec fn targets_in_range(adj: Seq<Seq<(usize, usize)>>) -> bool {
    forall|u: int, j: int|
        0 <= u < adj.len() && 0 <= j < adj[u].len() ==> (#[trigger] adj[u][j]).0 < adj.len()
}

pub proof fn lemma_total_len_push(adj: Seq<Seq<(usize, usize)>>, row: Seq<(usize, usize)>)
    ensures
        total_len(adj.push(row)) == total_len(adj) + row.len(),
{
    assert(adj.push(row).drop_last() =~= adj);
}

pub proof fn lemma_weight_sum_push(row: Seq<(usize, usize)>, e: (usize, usize))
    ensures
        weight_sum(row.push(e)) == weight_sum(row) + e.1,
{
    assert(row.push(e).drop_last() =~= row);
}

/// The entries `(u, w)` that the first `j` entries of the list of `u` add
/// to the list of `v` when the graph is made undirected: one for each entry
/// `(v, w)`, unless `u` is already a target of `v`.
pub open spec fn reverse_row(adj: Seq<Seq<(usize, usize)>>, v: usize, u: int, j: int) -> Seq<
    (usize, usize),
>
    decreases j,
{
    if j <= 0 {
        Seq::empty()
    } else {
        let prev = reverse_row(adj, v, u, j - 1);
        let e = adj[u][j - 1];
        if e.0 == v && !has_target(adj[v as int], u as usize) {
            prev.push((u as usize, e.1))
        } else {
            prev
        }
    }
}

/// All entries that the lists of the nodes `0..n` add to the list of `v`.
pub open spec fn reverse_additions(adj: Seq<Seq<(usize, usize)>>, v: usize, n: int) -> Seq<
    (usize, usize),
>
    decreases n,
{
    if n <= 0 {
        Seq::empty()
    } else {
        reverse_additions(adj, v, n - 1) + reverse_row(adj, v, n - 1, adj[n - 1].len() as int)
    }
}

/// Number of entries among the first `j` of the list of `u` whose target
/// does not list `u`.
pub open spec fn missing_row(adj: Seq<Seq<(usize, usize)>>, u: int, j: int) -> nat
    decreases j,
{
    if j <= 0 {
        0
    } else {
        missing_row(adj, u, j - 1) + if has_target(adj[adj[u][j - 1].0 as int], u as usize) {
            0nat
        } else {
            1nat
        }
    }
}

/// Number of entries of the nodes `0..n` whose target does not list their
/// source.
pub open spec fn missing_reverse(adj: Seq<Seq<(usize, usize)>>, n: int) -> nat
    decreases n,
{
    if n <= 0 {
        0
    } else {
        missing_reverse(adj, n - 1) + missing_row(adj, n - 1, adj[n - 1].len() as int)
    }
}

pub proof fn lemma_has_target_concat(a: Seq<(usize, usize)>, b: Seq<(usize, usize)>, x: usize)
    ensures
        has_target(a + b, x) == (has_target(a, x) || has_target(b, x)),
{
    if has_target(a + b, x) {
        let j = choose|j: int| 0 <= j < (a + b).len() && (#[trigger] (a + b)[j]).0 == x;
        if j < a.len() {
            assert(a[j] == (a + b)[j]);
        } else {
            assert(b[j - a.len()] == (a + b)[j]);
        }
    }
    if has_target(a, x) {
        let j = choose|j: int| 0 <= j < a.len() && (#[trigger] a[j]).0 == x;
        assert((a + b)[j] == a[j]);
    }
    if has_target(b, x) {
        let j = choose|j: int| 0 <= j < b.len() && (#[trigger] b[j]).0 == x;
        assert((a + b)[a.len() + j] == b[j]);
    }
}

pub proof fn lemma_reverse_row(adj: Seq<Seq<(usize, usize)>>, v: usize, u: int, j: int, x: usize)
    requires
        0 <= u < adj.len(),
        0 <= j <= adj[u].len(),
        u <= usize::MAX,
    ensures
        has_target(reverse_row(adj, v, u, j), x) ==> x == u && !has_target(adj[v as int], x),
        has_target(reverse_row(adj, v, u, j), x) ==> exists|k: int|
            0 <= k < j && (#[trigger] adj[u][k]).0 == v,
        (x == u && !has_target(adj[v as int], x) && exists|k: int|
            0 <= k < j && (#[trigger] adj[u][k]).0 == v) ==> has_target(
            reverse_row(adj, v, u, j),
            x,
        ),
    decreases j,
{
    if j > 0 {
        lemma_reverse_row(adj, v, u, j - 1, x);
        let prev = reverse_row(adj, v, u, j - 1);
        let e = adj[u][j - 1];
        if e.0 == v && !has_target(adj[v as int], u as usize) {
            lemma_has_target_concat(prev, seq![(u as usize, e.1)], x);
            assert(prev.push((u as usize, e.1)) =~= prev + seq![(u as usize, e.1)]);
            if x == u {
                assert(seq![(u as usize, e.1)][0].0 == x);
            }
            if has_target(seq![(u as usize, e.1)], x) {
                let t = choose|t: int| 0 <= t < 1 && (#[trigger] seq![(u as usize, e.1)][t]).0 == x;
                assert(x == u);
            }
        } else {
            if x == u && !has_target(adj[v as int], x) && exists|k: int|
                0 <= k < j && (#[trigger] adj[u][k]).0 == v {
                let k = choose|k: int| 0 <= k < j && (#[trigger] adj[u][k]).0 == v;
                assert(k != j - 1);
            }
        }
    }
}

pub proof fn lemma_reverse_additions(adj: Seq<Seq<(usize, usize)>>, v: usize, n: int, x: usize)
    requires
        0 <= n <= adj.len(),
        adj.len() <= usize::MAX + 1,
    ensures
        has_target(reverse_additions(adj, v, n), x) ==> x < n && has_target(adj[x as int], v),
        (x < n && has_target(adj[x as int], v) && !has_target(adj[v as int], x)) ==> has_target(
            reverse_additions(adj, v, n),
            x,
        ),
    decreases n,
{
    if n > 0 {
        lemma_reverse_additions(adj, v, n - 1, x);
        let len = adj[n - 1].len() as int;
        lemma_reverse_row(adj, v, n - 1, len, x);
        lemma_has_target_concat(reverse_additions(adj, v, n - 1), reverse_row(adj, v, n - 1, len), x);
        if has_target(reverse_row(adj, v, n - 1, len), x) {
            let k = choose|k: int| 0 <= k < len && (#[trigger] adj[n - 1][k]).0 == v;
            assert(adj[x as int][k].0 == v);
        }
        if x == n - 1 && has_target(adj[x as int], v) {
            let k = choose|k: int| 0 <= k < adj[x as int].len() && (#[trigger] adj[x as int][k]).0 == v;
            assert(adj[n - 1][k].0 == v);
        }
    }
}

pub proof fn lemma_missing_row_mono(adj: Seq<Seq<(usize, usize)>>, u: int, j: int, k: int)
    requires
        0 <= j <= k,
    ensures
        missing_row(adj, u, j) <= missing_row(adj, u, k),
    decreases k - j,
{
    if j < k {
        lemma_missing_row_mono(adj, u, j, k - 1);
    }
}

pub proof fn lemma_missing_reverse_mono(adj: Seq<Seq<(usize, usize)>>, i: int, n: int)
    requires
        0 <= i <= n,
    ensures
        missing_reverse(adj, i) <= missing_reverse(adj, n),
    decreases n - i,
{
    if i < n {
        lemma_missing_reverse_mono(adj, i, n - 1);
    }
}

/// The adjacency lists of `n` nodes holding, for each edge `(src, dst)` in
/// turn, the entry `(dst, 1)` in the list of `src`.
pub open spec fn edge_lists(edges: Seq<(usize, usize)>, n: nat) -> Seq<Seq<(usize, usize)>>
    decreases edges.len(),
{
    if edges.len() == 0 {
        Seq::new(n, |u: int| Seq::<(usize, usize)>::empty())
    } else {
        let prev = edge_lists(edges.drop_last(), n);
        let e = edges.last();
        if e.0 < n {
            prev.update(e.0 as int, prev[e.0 as int].push((e.1, 1usize)))
        } else {
            prev
        }
    }
}

pub proof fn lemma_edge_lists_len(edges: Seq<(usize, usize)>, n: nat)
    ensures
        edge_lists(edges, n).len() == n,
    decreases edges.len(),
{
    if edges.len() > 0 {
        lemma_edge_lists_len(edges.drop_last(), n);
    }
}

/// One entry `(dst, 1)` for each pair `(u, dst)` of `edges`, in order.
pub open spec fn entries_of_source(edges: Seq<(usize, usize)>, u: int) -> Seq<(usize, usize)> {
    edges.filter(|e: (usize, usize)| e.0 == u).map_values(|e: (usize, usize)| (e.1, 1usize))
}

/// Building the lists from pairs `(src, dst)` whose sources are nodes
/// puts exactly one entry `(dst, 1)` in the list of `src` for each pair, in
/// order, self-loops included: there are as many entries as pairs.
pub proof fn lemma_edge_lists_rows(edges: Seq<(usize, usize)>, n: nat)
    requires
        sources_in_range(edges, n),
    ensures
        forall|u: int| 0 <= u < n ==> #[trigger] edge_lists(edges, n)[u] == entries_of_source(edges, u),
        total_len(edge_lists(edges, n)) == edges.len(),
    decreases edges.len(),
{
    reveal(Seq::filter);
    lemma_edge_lists_len(edges, n);
    if edges.len() == 0 {
        lemma_total_len_empty_rows(n);
        assert forall|u: int| 0 <= u < n implies #[trigger] edge_lists(edges, n)[u] == entries_of_source(
            edges,
            u,
        ) by {
            assert(entries_of_source(edges, u) =~= Seq::<(usize, usize)>::empty());
        }
    } else {
        let init = edges.drop_last();
        let e = edges.last();
        assert(sources_in_range(init, n)) by {
            assert forall|i: int| 0 <= i < init.len() implies (#[trigger] init[i]).0 < n by {
                assert(init[i] == edges[i]);
            }
        }
        assert(e == edges[edges.len() - 1]);
        lemma_edge_lists_rows(init, n);
        lemma_edge_lists_len(init, n);
        let prev = edge_lists(init, n);
        lemma_total_len_update(prev, e.0 as int, prev[e.0 as int].push((e.1, 1usize)));
        assert forall|u: int| 0 <= u < n implies #[trigger] edge_lists(edges, n)[u] == entries_of_source(
            edges,
            u,
        ) by {
            let f = |x: (usize, usize)| x.0 == u;
            let g = |x: (usize, usize)| (x.1, 1usize);
            assert(edges.filter(f) == if f(e) {
                init.filter(f).push(e)
            } else {
                init.filter(f)
            });
            if f(e) {
                assert(init.filter(f).push(e).map_values(g) =~= init.filter(f).map_values(g).push(g(e)));
            }
        }
    }
}

/// Every source of `edges` is below `n`.
pub open spec fn sources_in_range(edges: Seq<(usize, usize)>, n: nat) -> bool {
    forall|i: int| 0 <= i < edges.len() ==> (#[trigger] edges[i]).0 < n
}

/// The Matrix Market bytes `s` describe a graph, or an error: no entry
/// names index 0, and every source is a row of the matrix.
pub open spec fn mtx_graph_ok(s: Seq<u8>) -> bool {
    match spec_parse_mtx(s, false) {
        None => false,
        Some(Err(_)) => true,
        Some(Ok(d)) => sources_in_range(d.edges, d.nrows as nat),
    }
}

#[derive(Debug)]
pub struct Graph {
    n_nodes: usize,
    n_edges: usize,
    adj_list: Vec<Vec<(usize, usize)>>,
}

impl View for Graph {
    type V = GraphData;

    closed spec fn view(&self) -> GraphData {
        GraphData {
            n_edges: self.n_edges as nat,
            adj: self.adj_list@.map_values(|r: Vec<(usize, usize)>| r@),
        }
    }
}

impl Clone for Graph {
    /// An independent copy of the graph.
    fn clone(&self) -> (r: Self)
        ensures
            r@ == self@,
    {
        self.duplicate()
    }
}

impl Graph {
    #[verifier::type_invariant]
    spec fn inv(&self) -> bool {
        &&& self.n_nodes == self.adj_list@.len()
        &&& total_len(self.adj_list@.map_values(|r: Vec<(usize, usize)>| r@)) <= usize::MAX
    }

    /// A graph holds no more entries than a `usize` counts.
    pub fn entries_fit(&self)
        ensures
            total_len(self@.adj) <= usize::MAX,
    {
        proof {
            use_type_invariant(self);
        }
    }

    /// A copy of the graph, list by list.
    pub(crate) fn duplicate(&self) -> (r: Self)
        ensures
            r@ == self@,
    {
        proof {
            use_type_invariant(self);
        }
        let ghost adj = self@.adj;
        let n = self.adj_list.len();
        let mut adj_list: Vec<Vec<(usize, usize)>> = Vec::new();
        let mut c: usize = 0;
        while c < n
            invariant
                adj == self@.adj,
                n == adj.len(),
                c <= n,
                adj_list@.len() == c,
                forall|x: int| 0 <= x < c ==> (#[trigger] adj_list@[x])@ == adj[x],
            decreases n - c,
        {
            let row = &self.adj_list[c];
            let mut copy: Vec<(usize, usize)> = Vec::new();
            let mut j: usize = 0;
            while j < row.len()
                invariant
                    row@ == adj[c as int],
                    j <= row@.len(),
                    copy@ == row@.subrange(0, j as int),
                decreases row@.len() - j,
            {
                copy.push(row[j]);
                proof {
                    assert(row@.subrange(0, (j + 1) as int) =~= row@.subrange(0, j as int).push(row@[j as int]));
                }
                j = j + 1;
            }
            proof {
                assert(row@.subrange(0, row@.len() as int) =~= row@);
            }
            adj_list.push(copy);
            c = c + 1;
        }
        proof {
            assert(adj_list@.map_values(|r: Vec<(usize, usize)>| r@) =~= adj);
        }
        Self { n_nodes: n, n_edges: self.n_edges, adj_list }
    }

    /// The graph with the given adjacency lists; every edge is assumed to
    /// be listed from both of its ends, so the edge count is half the
    /// number of entries.
    pub fn new(adj_list: Vec<Vec<(usize, usize)>>) -> (r: Self)
        requires
            total_len(adj_list@.map_values(|r: Vec<(usize, usize)>| r@)) <= usize::MAX,
        ensures
            r@.adj == adj_list@.map_values(|r: Vec<(usize, usize)>| r@),
            r@.n_edges == total_len(r@.adj) / 2,
    {
        let ghost adj = adj_list@.map_values(|r: Vec<(usize, usize)>| r@);
        let mut total: usize = 0;
        let mut i: usize = 0;
        while i < adj_list.len()
            invariant
                adj == adj_list@.map_values(|r: Vec<(usize, usize)>| r@),
                total_len(adj) <= usize::MAX,
                i <= adj_list@.len(),
                total == total_len(adj.subrange(0, i as int)),
            decreases adj_list@.len() - i,
        {
            proof {
                assert(adj.subrange(0, (i + 1) as int) =~= adj.subrange(0, i as int).push(adj[i as int]));
                lemma_total_len_push(adj.subrange(0, i as int), adj[i as int]);
                lemma_total_len_prefix(adj, (i + 1) as int);
            }
            total = total + adj_list[i].len();
            i = i + 1;
        }
        proof {
            assert(adj.subrange(0, adj.len() as int) =~= adj);
        }
        let n_nodes = adj_list.len();
        Self { n_nodes, n_edges: total / 2, adj_list }
    }

    /// The graph of a Matrix Market text: one node per row, and for each
    /// entry `src dst` the edge `src -> dst` of weight 1; the edge count is
    /// the announced number of entries. `None` when the text has no such
    /// graph: an entry names index 0, or a source beyond the rows.
    pub fn try_from_mtx(content: &str) -> (r: Option<Result<Self, ParseError>>)
        ensures
            match r {
                None => !mtx_graph_ok(encode_utf8(content@)),
                Some(Ok(g)) => exists|d: MtxData|
                    {
                        &&& #[trigger] spec_parse_mtx(encode_utf8(content@), false) == Some(
                            Ok::<MtxData, crate::parser::SpecParseError>(d),
                        )
                        &&& sources_in_range(d.edges, d.nrows as nat)
                        &&& g@.adj == edge_lists(d.edges, d.nrows as nat)
                        &&& g@.n_edges == d.nnz
                        &&& g@.adj.len() == d.nrows
                        &&& total_len(g@.adj) == d.edges.len()
                        &&& forall|u: int|
                            0 <= u < d.nrows ==> #[trigger] g@.adj[u] == entries_of_source(d.edges, u)
                    },
                Some(Err(x)) => spec_parse_mtx(encode_utf8(content@), false) == Some(
                    Err::<MtxData, crate::parser::SpecParseError>(x@),
                ),
            },
    {
        let (meta, edges) = match Parser::try_parse_mtx(content) {
            None => return None,
            Some(Err(x)) => return Some(Err(x)),
            Some(Ok(r)) => r,
        };
        let ghost d = parser::mtx_pair_view(meta, edges@);
        let n = meta.nrows;
        let mut k: usize = 0;
        while k < edges.len()
            invariant
                spec_parse_mtx(encode_utf8(content@), false) == Some(
                    Ok::<MtxData, crate::parser::SpecParseError>(parser::mtx_pair_view(meta, edges@)),
                ),
                n == meta.nrows,
                k <= edges@.len(),
                forall|i: int| 0 <= i < k ==> (#[trigger] edges@[i]).0 < n,
            decreases edges@.len() - k,
        {
            if edges[k].0 >= n {
                proof {
                    assert(!sources_in_range(edges@, n as nat));
                }
                return None;
            }
            k = k + 1;
        }
        let mut adj_list: Vec<Vec<(usize, usize)>> = Vec::new();
        let mut c: usize = 0;
        while c < n
            invariant
                c <= n,
                adj_list@.len() == c,
                forall|x: int| 0 <= x < c ==> (#[trigger] adj_list@[x])@ == Seq::<(usize, usize)>::empty(),
            decreases n - c,
        {
            adj_list.push(Vec::new());
            c = c + 1;
        }
        proof {
            assert(adj_list@.map_values(|r: Vec<(usize, usize)>| r@) =~= edge_lists(
                edges@.subrange(0, 0),
                n as nat,
            ));
        }
        let mut i: usize = 0;
        while i < edges.len()
            invariant
                i <= edges@.len(),
                sources_in_range(edges@, n as nat),
                adj_list@.len() == n,
                adj_list@.map_values(|r: Vec<(usize, usize)>| r@) == edge_lists(
                    edges@.subrange(0, i as int),
                    n as nat,
                ),
            decreases edges@.len() - i,
        {
            let (src, dst) = edges[i];
            assert(edges@[i as int].0 < n);
            let ghost before = adj_list@.map_values(|r: Vec<(usize, usize)>| r@);
            adj_list[src].push((dst, 1));
            proof {
                let sub = edges@.subrange(0, (i + 1) as int);
                assert(sub.drop_last() =~= edges@.subrange(0, i as int));
                lemma_edge_lists_len(edges@.subrange(0, i as int), n as nat);
                assert(adj_list@.map_values(|r: Vec<(usize, usize)>| r@) =~= before.update(
                    src as int,
                    before[src as int].push((dst, 1usize)),
                ));
            }
            i = i + 1;
        }
        proof {
            assert(edges@.subrange(0, edges@.len() as int) =~= edges@);
        }
        proof {
            lemma_edge_lists_total(edges@, n as nat);
            lemma_edge_lists_rows(edges@, n as nat);
            lemma_edge_lists_len(edges@, n as nat);
        }
        let g = Self { n_nodes: n, n_edges: meta.nnz, adj_list };
        proof {
            assert(g@.adj == edge_lists(d.edges, d.nrows as nat));
            assert(spec_parse_mtx(encode_utf8(content@), false) == Some(
                Ok::<MtxData, crate::parser::SpecParseError>(d),
            ));
        }
        Some(Ok(g))
    }

    /// The graph of a Matrix Market text (see `try_from_mtx`).
    pub fn from_mtx(content: &str) -> (r: Result<Self, ParseError>)
        requires
            mtx_graph_ok(encode_utf8(content@)),
        ensures
            match r {
                Ok(g) => exists|d: MtxData|
                    {
                        &&& #[trigger] spec_parse_mtx(encode_utf8(content@), false) == Some(
                            Ok::<MtxData, crate::parser::SpecParseError>(d),
                        )
                        &&& g@.adj == edge_lists(d.edges, d.nrows as nat)
                        &&& g@.n_edges == d.nnz
                        &&& g@.adj.len() == d.nrows
                        &&& total_len(g@.adj) == d.edges.len()
                        &&& forall|u: int|
                            0 <= u < d.nrows ==> #[trigger] g@.adj[u] == entries_of_source(d.edges, u)
                    },
                Err(x) => spec_parse_mtx(encode_utf8(content@), false) == Some(
                    Err::<MtxData, crate::parser::SpecParseError>(x@),
                ),
            },
    {
        match Self::try_from_mtx(content) {
            Some(r) => r,
            None => Err(ParseError::EmptyBody),
        }
    }

    pub fn n_nodes(&self) -> (r: usize)
        ensures
            r == self@.adj.len(),
    {
        proof {
            use_type_invariant(self);
        }
        self.n_nodes
    }

    pub fn n_edges(&self) -> (r: usize)
        ensures
            r == self@.n_edges,
    {
        self.n_edges
    }

    /// The outgoing `(target, weight)` pairs of `u`.
    pub fn neighbours(&self, u: usize) -> (r: &[(usize, usize)])
        requires
            u < self@.adj.len(),
        ensures
            r@ == self@.adj[u as int],
    {
        self.adj_list[u].as_slice()
    }

    /// Number of outgoing entries of `u`.
    pub fn degree(&self, u: usize) -> (r: usize)
        requires
            u < self@.adj.len(),
        ensures
            r == self@.adj[u as int].len(),
    {
        self.adj_list[u].len()
    }

    /// Sum of the weights of the outgoing entries of `v`.
    pub fn strength(&self, v: usize) -> (r: usize)
        requires
            v < self@.adj.len(),
            weight_sum(self@.adj[v as int]) <= usize::MAX,
        ensures
            r == weight_sum(self@.adj[v as int]),
    {
        let row = &self.adj_list[v];
        let mut sum: usize = 0;
        let mut j: usize = 0;
        while j < row.len()
            invariant
                row@ == self@.adj[v as int],
                weight_sum(row@) <= usize::MAX,
                j <= row@.len(),
                sum == weight_sum(row@.subrange(0, j as int)),
            decreases row@.len() - j,
        {
            proof {
                assert(row@.subrange(0, (j + 1) as int) =~= row@.subrange(0, j as int).push(row@[j as int]));
                lemma_weight_sum_push(row@.subrange(0, j as int), row@[j as int]);
                lemma_weight_sum_prefix(row@, (j + 1) as int);
            }
            sum = sum + row[j].1;
            j = j + 1;
        }
        proof {
            assert(row@.subrange(0, row@.len() as int) =~= row@);
        }
        sum
    }

    /// Whether `u` has an entry towards `v`.
    pub fn is_neighbour_of(&self, u: usize, v: usize) -> (r: bool)
        requires
            u < self@.adj.len(),
        ensures
            r == has_target(self@.adj[u as int], v),
    {
        let row = &self.adj_list[u];
        let mut j: usize = 0;
        while j < row.len()
            invariant
                row@ == self@.adj[u as int],
                j <= row@.len(),
                forall|k: int| 0 <= k < j ==> (#[trigger] row@[k]).0 != v,
            decreases row@.len() - j,
        {
            if row[j].0 == v {
                assert((row@[j as int]).0 == v);
                return true;
            }
            j = j + 1;
        }
        false
    }

    /// The same graph with, for every entry `u -> v` whose reverse `v -> u`
    /// is missing, the entry `v -> u` of the same weight added to the list
    /// of `v` and counted as a new edge.
    pub fn make_undirected(&self) -> (r: Self)
        requires
            targets_in_range(self@.adj),
            self@.n_edges + missing_reverse(self@.adj, self@.adj.len() as int) <= usize::MAX,
            total_len(self@.adj) + missing_reverse(self@.adj, self@.adj.len() as int) <= usize::MAX,
        ensures
            r@.adj.len() == self@.adj.len(),
            forall|v: int|
                0 <= v < self@.adj.len() ==> #[trigger] r@.adj[v] == self@.adj[v] + reverse_additions(
                    self@.adj,
                    v as usize,
                    self@.adj.len() as int,
                ),
            r@.n_edges == self@.n_edges + missing_reverse(self@.adj, self@.adj.len() as int),
            targets_in_range(r@.adj),
            is_symmetric(r@.adj),
    {
        proof {
            use_type_invariant(self);
        }
        let ghost adj = self@.adj;
        let n = self.adj_list.len();
        let mut n_edges = self.n_edges;
        let copy = self.duplicate();
        let mut adj_list = copy.adj_list;
        proof {
            assert(adj_list@.map_values(|r: Vec<(usize, usize)>| r@) =~= adj);
            assert forall|x: int| 0 <= x < n implies (#[trigger] adj_list@[x])@ == adj[x] + reverse_additions(
                adj,
                x as usize,
                0,
            ) by {
                assert(adj_list@[x]@ == copy@.adj[x]);
                assert(adj[x] + reverse_additions(adj, x as usize, 0) =~= adj[x]);
            }
        }
        let mut u: usize = 0;
        while u < n
            invariant
                adj == self@.adj,
                n == adj.len(),
                targets_in_range(adj),
                self@.n_edges + missing_reverse(adj, n as int) <= usize::MAX,
                u <= n,
                adj_list@.len() == n,
                forall|x: int|
                    0 <= x < n ==> (#[trigger] adj_list@[x])@ == adj[x] + reverse_additions(
                        adj,
                        x as usize,
                        u as int,
                    ),
                n_edges == self@.n_edges + missing_reverse(adj, u as int),
                total_len(adj) + missing_reverse(adj, n as int) <= usize::MAX,
                total_len(adj_list@.map_values(|r: Vec<(usize, usize)>| r@)) == total_len(adj)
                    + missing_reverse(adj, u as int),
            decreases n - u,
        {
            let row = &self.adj_list[u];
            let mut j: usize = 0;
            proof {
                lemma_missing_reverse_mono(adj, (u + 1) as int, n as int);
            }
            while j < row.len()
                invariant
                    adj == self@.adj,
                    n == adj.len(),
                    targets_in_range(adj),
                    u < n,
                    row@ == adj[u as int],
                    j <= row@.len(),
                    self@.n_edges + missing_reverse(adj, u as int) + missing_row(adj, u as int, row@.len() as int) <= usize::MAX,
                    adj_list@.len() == n,
                    forall|x: int|
                        0 <= x < n ==> (#[trigger] adj_list@[x])@ == adj[x] + reverse_additions(
                            adj,
                            x as usize,
                            u as int,
                        ) + reverse_row(adj, x as usize, u as int, j as int),
                    n_edges == self@.n_edges + missing_reverse(adj, u as int) + missing_row(adj, u as int, j as int),
                    total_len(adj) + missing_reverse(adj, u as int) + missing_row(adj, u as int, row@.len() as int) <= usize::MAX,
                    total_len(adj_list@.map_values(|r: Vec<(usize, usize)>| r@)) == total_len(adj)
                        + missing_reverse(adj, u as int) + missing_row(adj, u as int, j as int),
                decreases row@.len() - j,
            {
                let (v, w) = row[j];
                assert(adj[u as int][j as int].0 < n);
                proof {
                    lemma_missing_row_mono(adj, u as int, (j + 1) as int, row@.len() as int);
                }
                if !self.is_neighbour_of(v, u) {
                    let ghost before = adj_list@;
                    let ghost before_rows = adj_list@.map_values(|r: Vec<(usize, usize)>| r@);
                    adj_list[v].push((u, w));
                    n_edges = n_edges + 1;
                    proof {
                        assert(adj_list@.map_values(|r: Vec<(usize, usize)>| r@) =~= before_rows.update(
                            v as int,
                            before_rows[v as int].push((u, w)),
                        ));
                        lemma_total_len_update(before_rows, v as int, before_rows[v as int].push((u, w)));
                        assert forall|x: int| 0 <= x < n implies (#[trigger] adj_list@[x])@ == adj[x]
                            + reverse_additions(adj, x as usize, u as int) + reverse_row(
                            adj,
                            x as usize,
                            u as int,
                            (j + 1) as int,
                        ) by {
                            if x == v as int {
                                assert((adj[x] + reverse_additions(adj, x as usize, u as int)
                                    + reverse_row(adj, x as usize, u as int, j as int)).push((u, w))
                                    =~= adj[x] + reverse_additions(adj, x as usize, u as int)
                                    + reverse_row(adj, x as usize, u as int, j as int).push((u, w)));
                            } else {
                                assert(adj_list@[x] == before[x]);
                            }
                        }
                    }
                } else {
                    proof {
                        assert forall|x: int| 0 <= x < n implies (#[trigger] adj_list@[x])@ == adj[x]
                            + reverse_additions(adj, x as usize, u as int) + reverse_row(
                            adj,
                            x as usize,
                            u as int,
                            (j + 1) as int,
                        ) by {
                            assert(reverse_row(adj, x as usize, u as int, (j + 1) as int) == reverse_row(
                                adj,
                                x as usize,
                                u as int,
                                j as int,
                            ));
                        }
                    }
                }
                j = j + 1;
            }
            proof {
                assert forall|x: int| 0 <= x < n implies (#[trigger] adj_list@[x])@ == adj[x]
                    + reverse_additions(adj, x as usize, (u + 1) as int) by {
                    assert(reverse_additions(adj, x as usize, (u + 1) as int) == reverse_additions(
                        adj,
                        x as usize,
                        u as int,
                    ) + reverse_row(adj, x as usize, u as int, row@.len() as int));
                    assert(adj[x] + reverse_additions(adj, x as usize, u as int) + reverse_row(
                        adj,
                        x as usize,
                        u as int,
                        row@.len() as int,
                    ) =~= adj[x] + reverse_additions(adj, x as usize, (u + 1) as int));
                }
            }
            u = u + 1;
        }
        let r = Self { n_nodes: n, n_edges, adj_list };
        proof {
            let radj = r@.adj;
            assert forall|v: int| 0 <= v < n implies #[trigger] radj[v] == adj[v]
                + reverse_additions(adj, v as usize, n as int) by {
                assert(radj[v] == adj_list@[v]@);
            }
            assert forall|x: int, y: usize|
                0 <= x < radj.len() && #[trigger] has_target(radj[x], y) implies has_target(
                radj[y as int],
                x as usize,
            ) && y < n by {
                lemma_has_target_concat(adj[x], reverse_additions(adj, x as usize, n as int), y);
                lemma_reverse_additions(adj, x as usize, n as int, y);
                if has_target(adj[x], y) {
                    let k = choose|k: int| 0 <= k < adj[x].len() && (#[trigger] adj[x][k]).0 == y;
                    assert(adj[x][k].0 < n);
                    lemma_reverse_additions(adj, y, n as int, x as usize);
                    lemma_has_target_concat(adj[y as int], reverse_additions(adj, y, n as int), x as usize);
                    assert(radj[y as int] == adj[y as int] + reverse_additions(adj, y, n as int));
                } else {
                    lemma_has_target_concat(adj[y as int], reverse_additions(adj, y, n as int), x as usize);
                    assert(radj[y as int] == adj[y as int] + reverse_additions(adj, y, n as int));
                }
            }
            assert forall|u2: int, j2: int|
                0 <= u2 < radj.len() && 0 <= j2 < radj[u2].len() implies (#[trigger] radj[u2][j2]).0
                < radj.len() by {
                let y = radj[u2][j2].0;
                assert(has_target(radj[u2], y));
            }
        }
        r
    }

    /// The weights of all entries, node after node.
    pub fn weights(&self) -> (r: Vec<usize>)
        ensures
            r@ == all_weights(self@.adj),
    {
        let ghost adj = self@.adj;
        let mut out: Vec<usize> = Vec::new();
        let mut u: usize = 0;
        while u < self.adj_list.len()
            invariant
                adj == self@.adj,
                u <= adj.len(),
                out@ == all_weights(adj.subrange(0, u as int)),
            decreases adj.len() - u,
        {
            let row = self.weights_of(u);
            proof {
                assert(adj.subrange(0, (u + 1) as int).drop_last() =~= adj.subrange(0, u as int));
            }
            let mut j: usize = 0;
            let ghost start = out@;
            while j < row.len()
                invariant
                    j <= row@.len(),
                    out@ == start + row@.subrange(0, j as int),
                decreases row@.len() - j,
            {
                out.push(row[j]);
                proof {
                    assert(row@.subrange(0, (j + 1) as int) =~= row@.subrange(0, j as int).push(row@[j as int]));
                }
                j = j + 1;
            }
            proof {
                assert(row@.subrange(0, row@.len() as int) =~= row@);
            }
            u = u + 1;
        }
        proof {
            assert(adj.subrange(0, adj.len() as int) =~= adj);
        }
        out
    }

    /// The weights of the outgoing entries of `v`, in order.
    pub fn weights_of(&self, v: usize) -> (r: Vec<usize>)
        requires
            v < self@.adj.len(),
        ensures
            r@ == row_weights(self@.adj[v as int]),
    {
        let row = &self.adj_list[v];
        let mut out: Vec<usize> = Vec::new();
        let mut j: usize = 0;
        while j < row.len()
            invariant
                row@ == self@.adj[v as int],
                j <= row@.len(),
                out@ == row_weights(row@.subrange(0, j as int)),
            decreases row@.len() - j,
        {
            out.push(row[j].1);
            proof {
                assert(row_weights(row@.subrange(0, (j + 1) as int)) =~= row_weights(row@.subrange(0, j as int)).push(row@[j as int].1));
            }
            j = j + 1;
        }
        proof {
            assert(row@.subrange(0, row@.len() as int) =~= row@);
        }
        out
    }
}

pub proof fn lemma_total_len_prefix(adj: Seq<Seq<(usize, usize)>>, i: int)
    requires
        0 <= i <= adj.len(),
    ensures
        total_len(adj.subrange(0, i)) <= total_len(adj),
    decreases adj.len() - i,
{
    if i < adj.len() {
        lemma_total_len_prefix(adj, i + 1);
        assert(adj.subrange(0, i + 1).drop_last() =~= adj.subrange(0, i));
    } else {
        assert(adj.subrange(0, i) =~= adj);
    }
}

pub proof fn lemma_weight_sum_prefix(row: Seq<(usize, usize)>, j: int)
    requires
        0 <= j <= row.len(),
    ensures
        weight_sum(row.subrange(0, j)) <= weight_sum(row),
    decreases row.len() - j,
{
    if j < row.len() {
        lemma_weight_sum_prefix(row, j + 1);
        assert(row.subrange(0, j + 1).drop_last() =~= row.subrange(0, j));
    } else {
        assert(row.subrange(0, j) =~= row);
    }
}

pub proof fn lemma_total_len_update(adj: Seq<Seq<(usize, usize)>>, i: int, row: Seq<(usize, usize)>)
    requires
        0 <= i < adj.len(),
    ensures
        total_len(adj.update(i, row)) == total_len(adj) - adj[i].len() + row.len(),
    decreases adj.len(),
{
    let up = adj.update(i, row);
    if i == adj.len() - 1 {
        assert(up.drop_last() =~= adj.drop_last());
    } else {
        lemma_total_len_update(adj.drop_last(), i, row);
        assert(up.drop_last() =~= adj.drop_last().update(i, row));
    }
}

pub proof fn lemma_total_len_empty_rows(n: nat)
    ensures
        total_len(Seq::new(n, |u: int| Seq::<(usize, usize)>::empty())) == 0,
    decreases n,
{
    if n > 0 {
        lemma_total_len_empty_rows((n - 1) as nat);
        assert(Seq::new(n, |u: int| Seq::<(usize, usize)>::empty()).drop_last() =~= Seq::new(
            (n - 1) as nat,
            |u: int| Seq::<(usize, usize)>::empty(),
        ));
    }
}

pub proof fn lemma_edge_lists_total(edges: Seq<(usize, usize)>, n: nat)
    ensures
        total_len(edge_lists(edges, n)) <= edges.len(),
    decreases edges.len(),
{
    if edges.len() == 0 {
        lemma_total_len_empty_rows(n);
    } else {
        let prev = edge_lists(edges.drop_last(), n);
        lemma_edge_lists_total(edges.drop_last(), n);
        lemma_edge_lists_len(edges.drop_last(), n);
        let e = edges.last();
        if e.0 < n {
            lemma_total_len_update(prev, e.0 as int, prev[e.0 as int].push((e.1, 1usize)));
        }
    }
}

pub proof fn lemma_weight_sum_update(row: Seq<(usize, usize)>, p: int, e: (usize, usize))
    requires
        0 <= p < row.len(),
    ensures
        weight_sum(row.update(p, e)) == weight_sum(row) - row[p].1 + e.1,
    decreases row.len(),
{
    let up = row.update(p, e);
    if p == row.len() - 1 {
        assert(up.drop_last() =~= row.drop_last());
    } else {
        lemma_weight_sum_update(row.drop_last(), p, e);
        assert(up.drop_last() =~= row.drop_last().update(p, e));
    }
}

pub proof fn lemma_total_weight_update(adj: Seq<Seq<(usize, usize)>>, i: int, row: Seq<(usize, usize)>)
    requires
        0 <= i < adj.len(),
    ensures
        total_weight(adj.update(i, row)) == total_weight(adj) - weight_sum(adj[i]) + weight_sum(row),
    decreases adj.len(),
{
    let up = adj.update(i, row);
    if i == adj.len() - 1 {
        assert(up.drop_last() =~= adj.drop_last());
    } else {
        lemma_total_weight_update(adj.drop_last(), i, row);
        assert(up.drop_last() =~= adj.drop_last().update(i, row));
    }
}

pub proof fn lemma_total_weight_empty_rows(n: nat)
    ensures
        total_weight(Seq::new(n, |u: int| Seq::<(usize, usize)>::empty())) == 0,
    decreases n,
{
    if n > 0 {
        lemma_total_weight_empty_rows((n - 1) as nat);
        assert(Seq::new(n, |u: int| Seq::<(usize, usize)>::empty()).drop_last() =~= Seq::new(
            (n - 1) as nat,
            |u: int| Seq::<(usize, usize)>::empty(),
        ));
    }
}

pub proof fn lemma_total_weight_prefix(adj: Seq<Seq<(usize, usize)>>, i: int)
    requires
        0 <= i <= adj.len(),
    ensures
        total_weight(adj.subrange(0, i)) <= total_weight(adj),
        i < adj.len() ==> total_weight(adj.subrange(0, i + 1)) == total_weight(adj.subrange(0, i))
            + weight_sum(adj[i]),
    decreases adj.len() - i,
{
    if i < adj.len() {
        lemma_total_weight_prefix(adj, i + 1);
        assert(adj.subrange(0, i + 1).drop_last() =~= adj.subrange(0, i));
    } else {
        assert(adj.subrange(0, i) =~= adj);
    }
}

/// Every entry of the graph has its reverse.
pub open spec fn is_symmetric(adj: Seq<Seq<(usize, usize)>>) -> bool {
    forall|x: int, y: usize|
        0 <= x < adj.len() && #[trigger] has_target(adj[x], y) ==> has_target(adj[y as int], x as usize)
}

proof fn lemma_symmetric_row(adj: Seq<Seq<(usize, usize)>>, v: usize, u: int, j: int)
    requires
        is_symmetric(adj),
        targets_in_range(adj),
        0 <= u < adj.len(),
        0 <= j <= adj[u].len(),
        adj.len() <= usize::MAX + 1,
    ensures
        reverse_row(adj, v, u, j) == Seq::<(usize, usize)>::empty(),
        missing_row(adj, u, j) == 0,
    decreases j,
{
    if j > 0 {
        lemma_symmetric_row(adj, v, u, j - 1);
        let e = adj[u][j - 1];
        assert(has_target(adj[u], e.0));
        assert(e.0 < adj.len());
        assert(has_target(adj[e.0 as int], u as usize));
    }
}

/// A graph whose every entry already has its reverse gains nothing when it
/// is made undirected: no entry is added to any list and no edge is
/// counted.
pub proof fn lemma_undirected_fixed_point(adj: Seq<Seq<(usize, usize)>>)
    requires
        is_symmetric(adj),
        targets_in_range(adj),
        adj.len() <= usize::MAX,
    ensures
        missing_reverse(adj, adj.len() as int) == 0,
        forall|v: int|
            0 <= v < adj.len() ==> #[trigger] reverse_additions(adj, v as usize, adj.len() as int)
                == Seq::<(usize, usize)>::empty(),
{
    lemma_undirected_prefix(adj, adj.len() as int);
}

proof fn lemma_undirected_prefix(adj: Seq<Seq<(usize, usize)>>, n: int)
    requires
        is_symmetric(adj),
        targets_in_range(adj),
        adj.len() <= usize::MAX,
        0 <= n <= adj.len(),
    ensures
        missing_reverse(adj, n) == 0,
        forall|v: int|
            0 <= v < adj.len() ==> #[trigger] reverse_additions(adj, v as usize, n) == Seq::<
                (usize, usize),
            >::empty(),
    decreases n,
{
    if n > 0 {
        lemma_undirected_prefix(adj, n - 1);
        lemma_symmetric_row(adj, 0, n - 1, adj[n - 1].len() as int);
        assert forall|v: int| 0 <= v < adj.len() implies #[trigger] reverse_additions(adj, v as usize, n)
            == Seq::<(usize, usize)>::empty() by {
            lemma_symmetric_row(adj, v as usize, n - 1, adj[n - 1].len() as int);
            assert(reverse_additions(adj, v as usize, n - 1) + Seq::<(usize, usize)>::empty() =~= Seq::<
                (usize, usize),
            >::empty());
        }
    }
}

} // verus!
