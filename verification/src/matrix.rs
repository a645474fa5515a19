//! The integer side of connection matrices: the coordinates that a sparse
//! matrix is built from, read from texts or taken from a graph. An entry
//! `src -> dst` becomes the matrix coordinate `(dst, src)`.

use vstd::prelude::*;
use vstd::utf8::*;

use crate::graph::{lemma_total_len_prefix, total_len, Graph};
use crate::parser::{
    name_positions, read_mtx, spec_articles, spec_links, spec_parse_mtx, GraphMTX, MtxData,
    ParseError, Parser, SpecParseError,
};

verus! {

/// What reading an article list and a link list gives: the number of
/// articles and the links as pairs of positions.
pub open spec fn spec_matrix_tsv(sa: Seq<u8>, sl: Seq<u8>) -> Result<(nat, Seq<(usize, usize)>), SpecParseError> {
    match spec_articles(sa) {
        Err(x) => Err(x),
        Ok(nodes) => match spec_links(sl, name_positions(nodes)) {
            Err(x) => Err(x),
            Ok(edges) => Ok((nodes.len(), edges)),
        },
    }
}

/// For each entry `(v, w)` of the lists of the nodes `u < n`, node after
/// node, the triplet `(v, u, w)`.
pub open spec fn transposed_entries(adj: Seq<Seq<(usize, usize)>>, n: int) -> Seq<(usize, usize, usize)>
    decreases n,
{
    if n <= 0 {
        Seq::empty()
    } else {
        transposed_entries(adj, n - 1) + adj[n - 1].map_values(
            |e: (usize, usize)| (e.0, (n - 1) as usize, e.1),
        )
    }
}

proof fn lemma_total_len_split(adj: Seq<Seq<(usize, usize)>>, u: int, m: int)
    requires
        0 <= u < m <= adj.len(),
    ensures
        total_len(adj.subrange(0, u)) + adj[u].len() <= total_len(adj.subrange(0, m)),
{
    let pre = adj.subrange(0, m);
    lemma_total_len_prefix(pre, u + 1);
    assert(pre.subrange(0, u + 1) =~= adj.subrange(0, u + 1));
    assert(adj.subrange(0, u + 1).drop_last() =~= adj.subrange(0, u));
}

/// The connection triplets of the nodes `0..n` list every entry of their
/// lists once, node after node: the entry `j` of `u`, `u -> v` of weight
/// `w`, is the triplet `(v, u, w)` at position (entries of the nodes before
/// `u`) + `j`, self-loops included.
pub proof fn lemma_transposed_entries(adj: Seq<Seq<(usize, usize)>>, n: int)
    requires
        0 <= n <= adj.len(),
        adj.len() <= usize::MAX + 1,
    ensures
        transposed_entries(adj, n).len() == total_len(adj.subrange(0, n)),
        forall|u: int, j: int|
            0 <= u < n && 0 <= j < adj[u].len() ==> transposed_entries(adj, n)[total_len(
                adj.subrange(0, u),
            ) + j] == (#[trigger] adj[u][j].0, u as usize, adj[u][j].1),
    decreases n,
{
    if n > 0 {
        lemma_transposed_entries(adj, n - 1);
        let prev = transposed_entries(adj, n - 1);
        let row = adj[n - 1].map_values(|e: (usize, usize)| (e.0, (n - 1) as usize, e.1));
        assert(adj.subrange(0, n).drop_last() =~= adj.subrange(0, n - 1));
        assert forall|u: int, j: int| 0 <= u < n && 0 <= j < adj[u].len() implies transposed_entries(
            adj,
            n,
        )[total_len(adj.subrange(0, u)) + j] == (#[trigger] adj[u][j].0, u as usize, adj[u][j].1) by {
            if u < n - 1 {
                lemma_total_len_split(adj, u, n - 1);
            } else {
                assert(row[j] == (adj[u][j].0, u as usize, adj[u][j].1));
            }
        }
    }
}

/// Reader of the texts that connection matrices are built from.
pub struct MatrixParser;

impl MatrixParser {
    /// Reads a Matrix Market text, the destination of each entry before its
    /// source; `None` when an entry names index 0.
    pub fn try_parse_mtx(content: &str) -> (r: Option<Result<GraphMTX, ParseError>>)
        ensures
            match r {
                None => spec_parse_mtx(encode_utf8(content@), true) is None,
                Some(Ok(g)) => spec_parse_mtx(encode_utf8(content@), true) == Some(
                    Ok::<MtxData, SpecParseError>(g@),
                ),
                Some(Err(x)) => spec_parse_mtx(encode_utf8(content@), true) == Some(
                    Err::<MtxData, SpecParseError>(x@),
                ),
            },
    {
        read_mtx(content, true)
    }

    /// Reads a Matrix Market text (see `try_parse_mtx`).
    pub fn parse_mtx(content: &str) -> (r: Result<GraphMTX, ParseError>)
        requires
            spec_parse_mtx(encode_utf8(content@), true) is Some,
        ensures
            match r {
                Ok(g) => spec_parse_mtx(encode_utf8(content@), true) == Some(
                    Ok::<MtxData, SpecParseError>(g@),
                ),
                Err(x) => spec_parse_mtx(encode_utf8(content@), true) == Some(
                    Err::<MtxData, SpecParseError>(x@),
                ),
            },
    {
        match read_mtx(content, true) {
            Some(r) => r,
            None => Err(ParseError::EmptyBody),
        }
    }

    /// Reads the texts of an article list and of a link list; gives the
    /// number of articles and each link as the pair of the positions of its
    /// source and target.
    pub fn parse_tsv(articles: &str, links: &str) -> (r: Result<(usize, Vec<(usize, usize)>), ParseError>)
        ensures
            match r {
                Ok((n, edges)) => spec_matrix_tsv(encode_utf8(articles@), encode_utf8(links@)) == Ok::<
                    (nat, Seq<(usize, usize)>),
                    SpecParseError,
                >((n as nat, edges@)),
                Err(x) => spec_matrix_tsv(encode_utf8(articles@), encode_utf8(links@)) == Err::<
                    (nat, Seq<(usize, usize)>),
                    SpecParseError,
                >(x@),
            },
    {
        let (ids, nodes) = match Parser::parse_articles(articles) {
            Err(x) => return Err(x),
            Ok(r) => r,
        };
        let n = nodes.len();
        let edges = match Parser::parse_links(links, &ids) {
            Err(x) => return Err(x),
            Ok(e) => e,
        };
        Ok((n, edges))
    }
}

/// The coordinates and weights of the connection matrix of a graph: for
/// each entry `u -> v` of weight `w`, node after node, `(v, u, w)`.
pub fn connection_triplets(graph: &Graph) -> (r: Vec<(usize, usize, usize)>)
    ensures
        r@ == transposed_entries(graph@.adj, graph@.adj.len() as int),
        r@.len() == total_len(graph@.adj),
        forall|u: int, j: int|
            0 <= u < graph@.adj.len() && 0 <= j < graph@.adj[u].len() ==> r@[total_len(
                graph@.adj.subrange(0, u),
            ) + j] == (#[trigger] graph@.adj[u][j].0, u as usize, graph@.adj[u][j].1),
{
    let ghost adj = graph@.adj;
    let n = graph.n_nodes();
    let mut out: Vec<(usize, usize, usize)> = Vec::new();
    let mut u: usize = 0;
    while u < n
        invariant
            adj == graph@.adj,
            n == adj.len(),
            u <= n,
            out@ == transposed_entries(adj, u as int),
        decreases n - u,
    {
        let row = graph.neighbours(u);
        let ghost start = out@;
        let ghost mapped = adj[u as int].map_values(|e: (usize, usize)| (e.0, u, e.1));
        let mut j: usize = 0;
        while j < row.len()
            invariant
                row@ == adj[u as int],
                mapped == adj[u as int].map_values(|e: (usize, usize)| (e.0, u, e.1)),
                j <= row@.len(),
                out@ == start + mapped.subrange(0, j as int),
            decreases row@.len() - j,
        {
            let (v, w) = row[j];
            out.push((v, u, w));
            proof {
                assert(mapped.subrange(0, (j + 1) as int) =~= mapped.subrange(0, j as int).push(
                    mapped[j as int],
                ));
            }
            j = j + 1;
        }
        proof {
            assert(mapped.subrange(0, row@.len() as int) =~= mapped);
            assert(transposed_entries(adj, (u + 1) as int) =~= start + mapped);
        }
        u = u + 1;
    }
    proof {
        lemma_transposed_entries(adj, n as int);
        assert(adj.subrange(0, n as int) =~= adj);
    }
    out
}

} // verus!
