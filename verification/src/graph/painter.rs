//! What a drawing of a graph in the DOT language is made of: the edges to
//! draw and the weight that pen widths are measured against.

use vstd::prelude::*;

use super::{lemma_total_len_prefix, total_len, Graph};

verus! {

/// The entries `u -> v` of `row`, the list of `u`, with `u < v`, as
/// `(u, v, w)`.
pub open spec fn row_upper(row: Seq<(usize, usize)>, u: usize) -> Seq<(usize, usize, usize)>
    decreases row.len(),
{
    if row.len() == 0 {
        Seq::empty()
    } else {
        let prev = row_upper(row.drop_last(), u);
        let e = row.last();
        if u < e.0 {
            prev.push((u, e.0, e.1))
        } else {
            prev
        }
    }
}

/// The entries `u -> v` with `u < v` of the lists of the nodes `0..n`, node
/// after node: in an undirected graph, each edge once.
pub open spec fn upper_entries(adj: Seq<Seq<(usize, usize)>>, n: int) -> Seq<(usize, usize, usize)>
    decreases n,
{
    if n <= 0 {
        Seq::empty()
    } else {
        upper_entries(adj, n - 1) + row_upper(adj[n - 1], (n - 1) as usize)
    }
}

/// The largest of `m` and the weights of `row`.
pub open spec fn row_max(row: Seq<(usize, usize)>, m: usize) -> usize
    decreases row.len(),
{
    if row.len() == 0 {
        m
    } else {
        let prev = row_max(row.drop_last(), m);
        if prev < row.last().1 {
            row.last().1
        } else {
            prev
        }
    }
}

/// The largest weight of the lists of the nodes `0..n`, and at least 1.
pub open spec fn max_weight_of(adj: Seq<Seq<(usize, usize)>>, n: int) -> usize
    decreases n,
{
    if n <= 0 {
        1
    } else {
        row_max(adj[n - 1], max_weight_of(adj, n - 1))
    }
}

/// Every entry of the lists of the nodes `0..n`, node after node, as
/// `(u, v, w)` for the entry `u -> v` of weight `w`.
pub open spec fn entry_triples(adj: Seq<Seq<(usize, usize)>>, n: int) -> Seq<(usize, usize, usize)>
    decreases n,
{
    if n <= 0 {
        Seq::empty()
    } else {
        entry_triples(adj, n - 1) + adj[n - 1].map_values(
            |e: (usize, usize)| ((n - 1) as usize, e.0, e.1),
        )
    }
}

/// A triple `(u, v, w)` goes from a node to a later one.
pub open spec fn goes_up(t: (usize, usize, usize)) -> bool {
    t.0 < t.1
}

proof fn lemma_row_upper(row: Seq<(usize, usize)>, u: usize)
    ensures
        row_upper(row, u) == row.map_values(|e: (usize, usize)| (u, e.0, e.1)).filter(
            |t: (usize, usize, usize)| goes_up(t),
        ),
    decreases row.len(),
{
    reveal(Seq::filter);
    let f = |e: (usize, usize)| (u, e.0, e.1);
    if row.len() == 0 {
        assert(row.map_values(f) =~= Seq::<(usize, usize, usize)>::empty());
    } else {
        lemma_row_upper(row.drop_last(), u);
        assert(row.map_values(f).drop_last() =~= row.drop_last().map_values(f));
        assert(row.map_values(f).last() == f(row.last()));
    }
}

/// The entries `(u, v, w)` of the lists of the nodes `0..n`, node after
/// node: each entry with `u < v` appears once, in order, and no other.
pub proof fn lemma_upper_entries(adj: Seq<Seq<(usize, usize)>>, n: int)
    requires
        0 <= n <= adj.len(),
    ensures
        upper_entries(adj, n) == entry_triples(adj, n).filter(|t: (usize, usize, usize)| goes_up(t)),
        forall|i: int| 0 <= i < upper_entries(adj, n).len() ==> (#[trigger] upper_entries(adj, n)[i]).0
            < upper_entries(adj, n)[i].1,
    decreases n,
{
    let p = |t: (usize, usize, usize)| goes_up(t);
    if n <= 0 {
        reveal(Seq::filter);
    } else {
        lemma_upper_entries(adj, n - 1);
        let row = adj[n - 1].map_values(|e: (usize, usize)| ((n - 1) as usize, e.0, e.1));
        lemma_row_upper(adj[n - 1], (n - 1) as usize);
        Seq::filter_distributes_over_add(entry_triples(adj, n - 1), row, p);
    }
    assert forall|i: int| 0 <= i < upper_entries(adj, n).len() implies (#[trigger] upper_entries(adj, n)[i]).0
        < upper_entries(adj, n)[i].1 by {
        entry_triples(adj, n).lemma_filter_pred(p, i);
    }
}

/// Entry `j` of `u` is the triple at position (entries of the nodes before
/// `u`) + `j` of `entry_triples`.
pub proof fn lemma_entry_triples(adj: Seq<Seq<(usize, usize)>>, n: int)
    requires
        0 <= n <= adj.len(),
        adj.len() <= usize::MAX + 1,
    ensures
        entry_triples(adj, n).len() == total_len(adj.subrange(0, n)),
        forall|u: int, j: int|
            0 <= u < n && 0 <= j < adj[u].len() ==> entry_triples(adj, n)[total_len(adj.subrange(0, u))
                + j] == (u as usize, #[trigger] adj[u][j].0, adj[u][j].1),
    decreases n,
{
    if n > 0 {
        lemma_entry_triples(adj, n - 1);
        let row = adj[n - 1].map_values(|e: (usize, usize)| ((n - 1) as usize, e.0, e.1));
        assert(adj.subrange(0, n).drop_last() =~= adj.subrange(0, n - 1));
        assert forall|u: int, j: int| 0 <= u < n && 0 <= j < adj[u].len() implies entry_triples(adj, n)[total_len(
            adj.subrange(0, u),
        ) + j] == (u as usize, #[trigger] adj[u][j].0, adj[u][j].1) by {
            if u < n - 1 {
                let pre = adj.subrange(0, n - 1);
                lemma_total_len_prefix(pre, u + 1);
                assert(pre.subrange(0, u + 1) =~= adj.subrange(0, u + 1));
                assert(adj.subrange(0, u + 1).drop_last() =~= adj.subrange(0, u));
            } else {
                assert(row[j] == (u as usize, adj[u][j].0, adj[u][j].1));
            }
        }
    }
}

/// Drawer of graphs and partitions in the DOT language.
pub struct Painter;

impl Painter {
    /// The edges a drawing shows: each entry `u -> v` with `u < v`, node
    /// after node, as `(u, v, w)`.
    pub fn drawn_edges(graph: &Graph) -> (r: Vec<(usize, usize, usize)>)
        ensures
            r@ == upper_entries(graph@.adj, graph@.adj.len() as int),
            r@ == entry_triples(graph@.adj, graph@.adj.len() as int).filter(
                |t: (usize, usize, usize)| goes_up(t),
            ),
            forall|i: int| 0 <= i < r@.len() ==> (#[trigger] r@[i]).0 < r@[i].1,
    {
        let ghost adj = graph@.adj;
        let n = graph.n_nodes();
        let mut out: Vec<(usize, usize, usize)> = Vec::new();
        let mut u: usize = 0;
        while u < n
            invariant
                adj == graph@.adj,
                n == adj.len(),
                u <= n,
                out@ == upper_entries(adj, u as int),
            decreases n - u,
        {
            let row = graph.neighbours(u);
            let ghost start = out@;
            let mut j: usize = 0;
            while j < row.len()
                invariant
                    row@ == adj[u as int],
                    j <= row@.len(),
                    out@ == start + row_upper(row@.subrange(0, j as int), u),
                decreases row@.len() - j,
            {
                let (v, w) = row[j];
                proof {
                    assert(row@.subrange(0, (j + 1) as int).drop_last() =~= row@.subrange(0, j as int));
                }
                if u < v {
                    out.push((u, v, w));
                    proof {
                        assert(start + row_upper(row@.subrange(0, j as int), u).push((u, v, w)) =~= (start
                            + row_upper(row@.subrange(0, j as int), u)).push((u, v, w)));
                    }
                }
                j = j + 1;
            }
            proof {
                assert(row@.subrange(0, row@.len() as int) =~= row@);
            }
            u = u + 1;
        }
        proof {
            lemma_upper_entries(adj, n as int);
        }
        out
    }

    /// The weight that pen widths are measured against: the largest weight
    /// of the graph, and at least 1.
    pub fn max_weight(graph: &Graph) -> (r: usize)
        ensures
            r == max_weight_of(graph@.adj, graph@.adj.len() as int),
    {
        let ghost adj = graph@.adj;
        let n = graph.n_nodes();
        let mut m: usize = 1;
        let mut u: usize = 0;
        while u < n
            invariant
                adj == graph@.adj,
                n == adj.len(),
                u <= n,
                m == max_weight_of(adj, u as int),
            decreases n - u,
        {
            let row = graph.neighbours(u);
            let ghost start = m;
            let mut j: usize = 0;
            while j < row.len()
                invariant
                    row@ == adj[u as int],
                    j <= row@.len(),
                    m == row_max(row@.subrange(0, j as int), start),
                decreases row@.len() - j,
            {
                proof {
                    assert(row@.subrange(0, (j + 1) as int).drop_last() =~= row@.subrange(0, j as int));
                }
                if m < row[j].1 {
                    m = row[j].1;
                }
                j = j + 1;
            }
            proof {
                assert(row@.subrange(0, row@.len() as int) =~= row@);
            }
            u = u + 1;
        }
        m
    }
}

} // verus!
