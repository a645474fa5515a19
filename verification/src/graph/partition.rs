//! Partitions of the nodes of a graph into communities, and the graph that
//! a partition induces between its communities.

use vstd::prelude::*;

use super::{
    has_target, lemma_total_len_update, lemma_total_weight_prefix, lemma_total_weight_update, lemma_weight_sum_push,
    lemma_weight_sum_update, targets_in_range, total_len, total_weight, weight_sum, Graph,
    GraphData,
};
use std::collections::HashMap;

verus! {

broadcast use vstd::std_specs::hash::group_hash_axioms;

/// Total weight of the entries of `row[..j]` that leave `u` for another
/// node, grouped by the community of their target.
pub open spec fn neighbour_weights(row: Seq<(usize, usize)>, u: usize, comm: Seq<usize>, j: int) -> Map<
    usize,
    usize,
>
    decreases j,
{
    if j <= 0 {
        Map::empty()
    } else {
        let m = neighbour_weights(row, u, comm, j - 1);
        let e = row[j - 1];
        if e.0 == u {
            m
        } else {
            let cv = comm[e.0 as int];
            m.insert(
                cv,
                ((if m.contains_key(cv) {
                    m[cv] as int
                } else {
                    0
                }) + e.1) as usize,
            )
        }
    }
}

/// Total weight of the entries `(v, w)` of `row[..j]` with `v != u` and
/// `v` in community `c`.
pub open spec fn weight_towards(row: Seq<(usize, usize)>, u: usize, comm: Seq<usize>, c: usize, j: int) -> nat
    decreases j,
{
    if j <= 0 {
        0
    } else {
        weight_towards(row, u, comm, c, j - 1) + if row[j - 1].0 != u && comm[row[j - 1].0 as int]
            == c {
            row[j - 1].1 as nat
        } else {
            0nat
        }
    }
}

/// Some entry `(v, w)` of `row[..j]` has `v != u` and `v` in community `c`.
pub open spec fn reaches(row: Seq<(usize, usize)>, u: usize, comm: Seq<usize>, c: usize, j: int) -> bool {
    exists|k: int| 0 <= k < j && (#[trigger] row[k]).0 != u && comm[row[k].0 as int] == c
}

proof fn lemma_weight_towards_bound(row: Seq<(usize, usize)>, u: usize, comm: Seq<usize>, c: usize, j: int)
    requires
        0 <= j <= row.len(),
    ensures
        weight_towards(row, u, comm, c, j) <= weight_sum(row.subrange(0, j)),
    decreases j,
{
    if j > 0 {
        lemma_weight_towards_bound(row, u, comm, c, j - 1);
        assert(row.subrange(0, j).drop_last() =~= row.subrange(0, j - 1));
    }
}

/// The neighbour weights of `u` are, for every community `c`, the total
/// weight of the entries of `u`'s list towards other nodes of `c`: `c` is
/// a key exactly when some such entry exists, whatever the community of
/// `u` itself.
pub proof fn lemma_neighbour_weights_sums(row: Seq<(usize, usize)>, u: usize, comm: Seq<usize>, j: int)
    requires
        0 <= j <= row.len(),
        weight_sum(row) <= usize::MAX,
    ensures
        forall|c: usize|
            #[trigger] neighbour_weights(row, u, comm, j).contains_key(c) == reaches(row, u, comm, c, j),
        forall|c: usize|
            neighbour_weights(row, u, comm, j).contains_key(c) ==> #[trigger] neighbour_weights(
                row,
                u,
                comm,
                j,
            )[c] == weight_towards(row, u, comm, c, j),
    decreases j,
{
    if j > 0 {
        lemma_neighbour_weights_sums(row, u, comm, j - 1);
        let m = neighbour_weights(row, u, comm, j - 1);
        let e = row[j - 1];
        assert forall|c: usize| #[trigger]
            neighbour_weights(row, u, comm, j).contains_key(c) == reaches(row, u, comm, c, j) by {
            if reaches(row, u, comm, c, j) {
                let k = choose|k: int| 0 <= k < j && (#[trigger] row[k]).0 != u && comm[row[k].0 as int] == c;
                if k < j - 1 {
                    assert(reaches(row, u, comm, c, j - 1));
                }
            }
            if reaches(row, u, comm, c, j - 1) {
                let k = choose|k: int| 0 <= k < j - 1 && (#[trigger] row[k]).0 != u && comm[row[k].0 as int] == c;
                assert(0 <= k < j && row[k].0 != u && comm[row[k].0 as int] == c);
            }
        }
        assert forall|c: usize| neighbour_weights(row, u, comm, j).contains_key(c) implies #[trigger] neighbour_weights(
            row,
            u,
            comm,
            j,
        )[c] == weight_towards(row, u, comm, c, j) by {
            if e.0 != u && comm[e.0 as int] == c {
                lemma_weight_towards_bound(row, u, comm, c, j);
                crate::graph::lemma_weight_sum_prefix(row, j);
                if !m.contains_key(c) {
                    if weight_towards(row, u, comm, c, j - 1) > 0 {
                        lemma_weight_towards_reaches(row, u, comm, c, j - 1);
                    }
                }
            }
        }
    }
}

proof fn lemma_weight_towards_reaches(row: Seq<(usize, usize)>, u: usize, comm: Seq<usize>, c: usize, j: int)
    requires
        weight_towards(row, u, comm, c, j) > 0,
    ensures
        reaches(row, u, comm, c, j),
    decreases j,
{
    if j > 0 {
        if weight_towards(row, u, comm, c, j - 1) > 0 {
            lemma_weight_towards_reaches(row, u, comm, c, j - 1);
            let k = choose|k: int| 0 <= k < j - 1 && (#[trigger] row[k]).0 != u && comm[row[k].0 as int] == c;
            assert(0 <= k < j && row[k].0 != u && comm[row[k].0 as int] == c);
        } else {
            assert(row[j - 1].0 != u && comm[row[j - 1].0 as int] == c);
        }
    }
}

/// Relabelling `lab` into `new` with `k` labels keeps exactly the
/// distinctions of `lab` and numbers the classes `0..k` in the order of
/// their first appearance.
pub open spec fn is_first_appearance_relabel(lab: Seq<usize>, new: Seq<usize>, k: nat) -> bool {
    &&& new.len() == lab.len()
    &&& forall|u: int| 0 <= u < new.len() ==> #[trigger] new[u] < k
    &&& forall|u: int, v: int|
        0 <= u < new.len() && 0 <= v < new.len() ==> (#[trigger] new[u] == #[trigger] new[v]) == (
        lab[u] == lab[v])
    &&& forall|c: int| 0 <= c < k ==> #[trigger] appears_before(new, c, new.len() as int)
    &&& forall|u: int, c: int|
        0 <= u < new.len() && 0 <= c < new[u] ==> #[trigger] appears_before(new, c, u)
}

/// Label `c` occurs in `new[..u]`.
pub open spec fn appears_before(new: Seq<usize>, c: int, u: int) -> bool {
    exists|v: int| 0 <= v < u && new[v] == c
}

/// The content of a partition: the graph, the number of communities and
/// the community of each node.
pub struct PartitionData {
    pub graph: GraphData,
    pub n_partitions: nat,
    pub community: Seq<usize>,
}

/// The nodes `u < n` with `comm[u] == c`, in increasing order.
pub open spec fn members(comm: Seq<usize>, c: usize, n: int) -> Seq<usize>
    decreases n,
{
    if n <= 0 {
        Seq::empty()
    } else if comm[n - 1] == c {
        members(comm, c, n - 1).push((n - 1) as usize)
    } else {
        members(comm, c, n - 1)
    }
}

pub proof fn lemma_members(comm: Seq<usize>, c: usize, n: int, u: usize)
    requires
        0 <= n <= comm.len(),
        n <= usize::MAX + 1,
    ensures
        members(comm, c, n).contains(u) <==> (u < n && comm[u as int] == c),
        forall|i: int, j: int|
            0 <= i < j < members(comm, c, n).len() ==> members(comm, c, n)[i] < members(
                comm,
                c,
                n,
            )[j],
        forall|i: int| 0 <= i < members(comm, c, n).len() ==> members(comm, c, n)[i] < n,
    decreases n,
{
    if n > 0 {
        lemma_members(comm, c, n - 1, u);
        let prev = members(comm, c, n - 1);
        if comm[n - 1] == c {
            let cur = prev.push((n - 1) as usize);
            if cur.contains(u) && u != n - 1 {
                let k = choose|k: int| 0 <= k < cur.len() && cur[k] == u;
                assert(prev[k] == u);
            }
            if prev.contains(u) {
                let k = choose|k: int| 0 <= k < prev.len() && prev[k] == u;
                assert(cur[k] == u);
            }
            if u == n - 1 {
                assert(cur[prev.len() as int] == u);
            }
        }
    }
}

/// The links that the entries of `row`, the list of a node of community
/// `cu`, make between communities: for each entry `(v, w)` in order, the
/// triple `(cu, comm[v], w)`.
pub open spec fn row_links(row: Seq<(usize, usize)>, comm: Seq<usize>, cu: usize) -> Seq<
    (usize, usize, usize),
> {
    row.map_values(|e: (usize, usize)| (cu, comm[e.0 as int], e.1))
}

/// The links between communities that the lists of the nodes `0..n` make,
/// node after node.
pub open spec fn community_links(adj: Seq<Seq<(usize, usize)>>, comm: Seq<usize>, n: int) -> Seq<
    (usize, usize, usize),
>
    decreases n,
{
    if n <= 0 {
        Seq::empty()
    } else {
        community_links(adj, comm, n - 1) + row_links(adj[n - 1], comm, comm[n - 1])
    }
}

/// Total weight of the links from community `c` to community `t`.
pub open spec fn link_weight(links: Seq<(usize, usize, usize)>, c: usize, t: usize) -> nat
    decreases links.len(),
{
    if links.len() == 0 {
        0
    } else {
        link_weight(links.drop_last(), c, t) + if links.last().0 == c && links.last().1 == t {
            links.last().2 as nat
        } else {
            0nat
        }
    }
}

/// Some link goes from community `c` to community `t`.
pub open spec fn has_link(links: Seq<(usize, usize, usize)>, c: usize, t: usize) -> bool {
    exists|i: int| 0 <= i < links.len() && (#[trigger] links[i]).0 == c && links[i].1 == t
}

/// Total weight of all links.
pub open spec fn link_total(links: Seq<(usize, usize, usize)>) -> nat
    decreases links.len(),
{
    if links.len() == 0 {
        0
    } else {
        link_total(links.drop_last()) + links.last().2 as nat
    }
}

/// `rows` is the graph between the `k` communities that `links` induce:
/// the list of `c` has one entry for each community `t` that some link
/// goes to from `c`, and no other, weighted with the total weight of
/// those links.
pub open spec fn is_aggregate(rows: Seq<Seq<(usize, usize)>>, links: Seq<(usize, usize, usize)>, k: nat) -> bool {
    &&& rows.len() == k
    &&& forall|c: int, p: int|
        0 <= c < k && 0 <= p < rows[c].len() ==> has_link(links, c as usize, (#[trigger] rows[c][p]).0)
            && rows[c][p].1 == link_weight(links, c as usize, rows[c][p].0)
    &&& forall|c: int, p: int, q: int|
        0 <= c < k && 0 <= p < rows[c].len() && 0 <= q < rows[c].len() && p != q ==> (
        #[trigger] rows[c][p]).0 != (#[trigger] rows[c][q]).0
    &&& forall|c: usize, t: usize| c < k && #[trigger] has_link(links, c, t) ==> has_target(rows[c as int], t)
}

pub proof fn lemma_links_push(links: Seq<(usize, usize, usize)>, x: (usize, usize, usize), c: usize, t: usize)
    ensures
        has_link(links.push(x), c, t) == (has_link(links, c, t) || (x.0 == c && x.1 == t)),
        link_weight(links.push(x), c, t) == link_weight(links, c, t) + if x.0 == c && x.1 == t {
            x.2 as nat
        } else {
            0nat
        },
        link_total(links.push(x)) == link_total(links) + x.2,
{
    let l2 = links.push(x);
    assert(l2.drop_last() =~= links);
    if has_link(l2, c, t) {
        let i = choose|i: int| 0 <= i < l2.len() && (#[trigger] l2[i]).0 == c && l2[i].1 == t;
        if i < links.len() {
            assert(links[i] == l2[i]);
        }
    }
    if has_link(links, c, t) {
        let i = choose|i: int| 0 <= i < links.len() && (#[trigger] links[i]).0 == c && links[i].1 == t;
        assert(l2[i] == links[i]);
    }
    if x.0 == c && x.1 == t {
        assert(l2[links.len() as int] == x);
    }
}

pub proof fn lemma_no_link_no_weight(links: Seq<(usize, usize, usize)>, c: usize, t: usize)
    requires
        !has_link(links, c, t),
    ensures
        link_weight(links, c, t) == 0,
    decreases links.len(),
{
    if links.len() > 0 {
        let l = links.drop_last();
        if has_link(l, c, t) {
            let i = choose|i: int| 0 <= i < l.len() && (#[trigger] l[i]).0 == c && l[i].1 == t;
            assert(links[i] == l[i]);
        }
        lemma_no_link_no_weight(l, c, t);
        if links.last().0 == c && links.last().1 == t {
            assert(links[links.len() - 1] == links.last());
        }
    }
}

pub proof fn lemma_link_weight_concat(a: Seq<(usize, usize, usize)>, b: Seq<(usize, usize, usize)>, c: usize, t: usize)
    ensures
        link_weight(a + b, c, t) == link_weight(a, c, t) + link_weight(b, c, t),
        link_total(a + b) == link_total(a) + link_total(b),
    decreases b.len(),
{
    if b.len() == 0 {
        assert(a + b =~= a);
    } else {
        lemma_link_weight_concat(a, b.drop_last(), c, t);
        assert((a + b).drop_last() =~= a + b.drop_last());
        assert((a + b).last() == b.last());
    }
}

pub proof fn lemma_row_links_total(row: Seq<(usize, usize)>, comm: Seq<usize>, cu: usize)
    ensures
        link_total(row_links(row, comm, cu)) == weight_sum(row),
        row_links(row, comm, cu).len() == row.len(),
    decreases row.len(),
{
    if row.len() > 0 {
        lemma_row_links_total(row.drop_last(), comm, cu);
        assert(row_links(row, comm, cu).drop_last() =~= row_links(row.drop_last(), comm, cu));
    }
}

pub proof fn lemma_community_links(adj: Seq<Seq<(usize, usize)>>, comm: Seq<usize>, n: int)
    requires
        0 <= n <= adj.len(),
    ensures
        link_total(community_links(adj, comm, n)) == total_weight(adj.subrange(0, n)),
        community_links(adj, comm, n).len() == total_len(adj.subrange(0, n)),
    decreases n,
{
    if n > 0 {
        lemma_community_links(adj, comm, n - 1);
        lemma_row_links_total(adj[n - 1], comm, comm[n - 1]);
        lemma_link_weight_concat(
            community_links(adj, comm, n - 1),
            row_links(adj[n - 1], comm, comm[n - 1]),
            0,
            0,
        );
        assert(adj.subrange(0, n).drop_last() =~= adj.subrange(0, n - 1));
    }
}

/// The links of the nodes `0..u` and of the first `j` entries of `u` come
/// first among all links: no pair of communities weighs more in them.
pub proof fn lemma_links_prefix_weight(
    adj: Seq<Seq<(usize, usize)>>,
    comm: Seq<usize>,
    u: int,
    j: int,
    n: int,
    c: usize,
    t: usize,
)
    requires
        0 <= u < n <= adj.len(),
        0 <= j <= adj[u].len(),
    ensures
        link_weight(
            community_links(adj, comm, u) + row_links(adj[u], comm, comm[u]).subrange(0, j),
            c,
            t,
        ) <= link_weight(community_links(adj, comm, n), c, t),
    decreases n - u,
{
    let rl = row_links(adj[u], comm, comm[u]);
    let pre = community_links(adj, comm, u);
    lemma_row_links_total(adj[u], comm, comm[u]);
    assert(pre + rl =~= (pre + rl.subrange(0, j)) + rl.subrange(j, rl.len() as int));
    lemma_link_weight_concat(pre + rl.subrange(0, j), rl.subrange(j, rl.len() as int), c, t);
    assert(community_links(adj, comm, u + 1) == pre + rl);
    if u + 1 < n {
        lemma_links_prefix_weight(adj, comm, u + 1, 0, n, c, t);
        assert(rl.subrange(0, 0) =~= Seq::<(usize, usize, usize)>::empty());
        assert(community_links(adj, comm, u + 1) + row_links(adj[u + 1], comm, comm[u + 1]).subrange(0, 0)
            =~= community_links(adj, comm, u + 1));
    }
}

proof fn lemma_aggregate_update(
    rows: Seq<Seq<(usize, usize)>>,
    links: Seq<(usize, usize, usize)>,
    k: nat,
    c: usize,
    p: int,
    w: usize,
)
    requires
        is_aggregate(rows, links, k),
        c < k <= usize::MAX,
        0 <= p < rows[c as int].len(),
        rows[c as int][p].1 + w <= usize::MAX,
    ensures
        is_aggregate(
            rows.update(
                c as int,
                rows[c as int].update(p, (rows[c as int][p].0, (rows[c as int][p].1 + w) as usize)),
            ),
            links.push((c, rows[c as int][p].0, w)),
            k,
        ),
{
    let t = rows[c as int][p].0;
    let x = (c, t, w);
    let rows1 = rows.update(c as int, rows[c as int].update(p, (t, (rows[c as int][p].1 + w) as usize)));
    let l1 = links.push(x);
    assert forall|c2: int, p2: int| 0 <= c2 < k && 0 <= p2 < rows1[c2].len() implies has_link(
        l1,
        c2 as usize,
        (#[trigger] rows1[c2][p2]).0,
    ) && rows1[c2][p2].1 == link_weight(l1, c2 as usize, rows1[c2][p2].0) by {
        let t2 = rows[c2][p2].0;
        assert(rows1[c2][p2].0 == t2);
        lemma_links_push(links, x, c2 as usize, t2);
        assert(has_link(links, c2 as usize, rows[c2][p2].0));
        assert(rows[c2][p2].1 == link_weight(links, c2 as usize, t2));
        if c2 == c && p2 != p {
            assert(rows[c2][p2].0 != rows[c2][p].0);
            assert(rows1[c2][p2] == rows[c2][p2]);
        } else if c2 == c {
            assert(rows1[c2][p2].1 == rows[c2][p2].1 + w);
            assert(link_weight(l1, c, t) == link_weight(links, c, t) + w);
        } else {
            assert(rows1[c2] == rows[c2]);
        }
    }
    assert forall|c2: int, p2: int, q2: int|
        0 <= c2 < k && 0 <= p2 < rows1[c2].len() && 0 <= q2 < rows1[c2].len() && p2 != q2 implies (
    #[trigger] rows1[c2][p2]).0 != (#[trigger] rows1[c2][q2]).0 by {
        assert(rows1[c2][p2].0 == rows[c2][p2].0);
        assert(rows1[c2][q2].0 == rows[c2][q2].0);
    }
    assert forall|c2: usize, t2: usize| c2 < k && #[trigger] has_link(l1, c2, t2) implies has_target(
        rows1[c2 as int],
        t2,
    ) by {
        lemma_links_push(links, x, c2, t2);
        if has_link(links, c2, t2) {
            assert(has_target(rows[c2 as int], t2));
            let j = choose|j: int| 0 <= j < rows[c2 as int].len() && (#[trigger] rows[c2 as int][j]).0 == t2;
            assert(rows1[c2 as int][j].0 == t2);
        } else {
            assert(rows1[c as int][p].0 == t);
        }
    }
}

proof fn lemma_aggregate_push(
    rows: Seq<Seq<(usize, usize)>>,
    links: Seq<(usize, usize, usize)>,
    k: nat,
    c: usize,
    t: usize,
    w: usize,
)
    requires
        is_aggregate(rows, links, k),
        c < k <= usize::MAX,
        !has_link(links, c, t),
    ensures
        is_aggregate(rows.update(c as int, rows[c as int].push((t, w))), links.push((c, t, w)), k),
{
    let x = (c, t, w);
    let rows1 = rows.update(c as int, rows[c as int].push((t, w)));
    let l1 = links.push(x);
    let len0 = rows[c as int].len() as int;
    assert forall|c2: int, p2: int| 0 <= c2 < k && 0 <= p2 < rows1[c2].len() implies has_link(
        l1,
        c2 as usize,
        (#[trigger] rows1[c2][p2]).0,
    ) && rows1[c2][p2].1 == link_weight(l1, c2 as usize, rows1[c2][p2].0) by {
        if c2 == c && p2 == len0 {
            lemma_links_push(links, x, c, t);
            lemma_no_link_no_weight(links, c, t);
        } else {
            let t2 = rows[c2][p2].0;
            assert(rows1[c2][p2] == rows[c2][p2]);
            assert(has_link(links, c2 as usize, rows[c2][p2].0));
            lemma_links_push(links, x, c2 as usize, t2);
        }
    }
    assert forall|c2: int, p2: int, q2: int|
        0 <= c2 < k && 0 <= p2 < rows1[c2].len() && 0 <= q2 < rows1[c2].len() && p2 != q2 implies (
    #[trigger] rows1[c2][p2]).0 != (#[trigger] rows1[c2][q2]).0 by {
        if c2 == c && p2 == len0 {
            assert(has_link(links, c, rows[c2][q2].0));
        } else if c2 == c && q2 == len0 {
            assert(has_link(links, c, rows[c2][p2].0));
        } else {
            assert(rows1[c2][p2] == rows[c2][p2]);
            assert(rows1[c2][q2] == rows[c2][q2]);
        }
    }
    assert forall|c2: usize, t2: usize| c2 < k && #[trigger] has_link(l1, c2, t2) implies has_target(
        rows1[c2 as int],
        t2,
    ) by {
        lemma_links_push(links, x, c2, t2);
        if has_link(links, c2, t2) {
            assert(has_target(rows[c2 as int], t2));
            let j = choose|j: int| 0 <= j < rows[c2 as int].len() && (#[trigger] rows[c2 as int][j]).0 == t2;
            assert(rows1[c2 as int][j] == rows[c2 as int][j]);
        } else {
            assert(rows1[c as int][len0] == (t, w));
        }
    }
}

/// Every link of the nodes `0..n` joins two communities below `k` when
/// every node has a community below `k` and every target is a node.
pub proof fn lemma_links_in_range(adj: Seq<Seq<(usize, usize)>>, comm: Seq<usize>, n: int, k: nat)
    requires
        0 <= n <= adj.len(),
        comm.len() == adj.len(),
        targets_in_range(adj),
        forall|u: int| 0 <= u < comm.len() ==> #[trigger] comm[u] < k,
    ensures
        forall|i: int|
            0 <= i < community_links(adj, comm, n).len() ==> (#[trigger] community_links(
                adj,
                comm,
                n,
            )[i]).0 < k && community_links(adj, comm, n)[i].1 < k,
    decreases n,
{
    if n > 0 {
        lemma_links_in_range(adj, comm, n - 1, k);
        let pre = community_links(adj, comm, n - 1);
        let rl = row_links(adj[n - 1], comm, comm[n - 1]);
        let all = community_links(adj, comm, n);
        assert forall|i: int| 0 <= i < all.len() implies (#[trigger] all[i]).0 < k && all[i].1 < k by {
            if i < pre.len() {
                assert(all[i] == pre[i]);
            } else {
                let j = i - pre.len();
                assert(all[i] == rl[j]);
                assert(adj[n - 1][j].0 < adj.len());
            }
        }
    }
}

/// Sum of the strengths of the nodes `u < n` of community `c`.
pub open spec fn community_strength(adj: Seq<Seq<(usize, usize)>>, comm: Seq<usize>, c: usize, n: int) -> nat
    decreases n,
{
    if n <= 0 {
        0
    } else {
        community_strength(adj, comm, c, n - 1) + if comm[n - 1] == c {
            weight_sum(adj[n - 1])
        } else {
            0nat
        }
    }
}

pub proof fn lemma_community_strength_bound(adj: Seq<Seq<(usize, usize)>>, comm: Seq<usize>, c: usize, n: int)
    requires
        0 <= n <= adj.len(),
    ensures
        community_strength(adj, comm, c, n) <= total_weight(adj.subrange(0, n)),
    decreases n,
{
    if n > 0 {
        lemma_community_strength_bound(adj, comm, c, n - 1);
        lemma_total_weight_prefix(adj, n - 1);
        assert(adj.subrange(0, n).subrange(0, n - 1) =~= adj.subrange(0, n - 1));
        lemma_total_weight_prefix(adj.subrange(0, n), n - 1);
        assert(adj.subrange(0, n).subrange(0, n) =~= adj.subrange(0, n));
    }
}

/// Sum over the communities `c < k` of their strengths among the nodes
/// `0..n`.
pub open spec fn strengths_sum(adj: Seq<Seq<(usize, usize)>>, comm: Seq<usize>, k: nat, n: int) -> nat
    decreases k,
{
    if k == 0 {
        0
    } else {
        strengths_sum(adj, comm, (k - 1) as nat, n) + community_strength(adj, comm, (k - 1) as usize, n)
    }
}

proof fn lemma_strengths_sum_step(adj: Seq<Seq<(usize, usize)>>, comm: Seq<usize>, k: nat, n: int)
    requires
        0 < n,
        k <= usize::MAX + 1,
    ensures
        strengths_sum(adj, comm, k, n) == strengths_sum(adj, comm, k, n - 1) + if comm[n - 1] < k {
            weight_sum(adj[n - 1])
        } else {
            0nat
        },
    decreases k,
{
    if k > 0 {
        lemma_strengths_sum_step(adj, comm, (k - 1) as nat, n);
    }
}

/// Every node in one of `k` communities: the strengths of the communities
/// add up to the total weight of the graph, the `m2` of the modularity.
pub proof fn lemma_strengths_total(adj: Seq<Seq<(usize, usize)>>, comm: Seq<usize>, k: nat)
    requires
        comm.len() == adj.len(),
        k <= usize::MAX + 1,
        forall|u: int| 0 <= u < comm.len() ==> #[trigger] comm[u] < k,
    ensures
        strengths_sum(adj, comm, k, adj.len() as int) == total_weight(adj),
{
    assert forall|n: int| 0 <= n <= adj.len() implies strengths_sum(adj, comm, k, n) == total_weight(
        #[trigger] adj.subrange(0, n),
    ) by {
        lemma_strengths_prefix(adj, comm, k, n);
    }
    assert(adj.subrange(0, adj.len() as int) =~= adj);
}

proof fn lemma_strengths_prefix(adj: Seq<Seq<(usize, usize)>>, comm: Seq<usize>, k: nat, n: int)
    requires
        comm.len() == adj.len(),
        k <= usize::MAX + 1,
        forall|u: int| 0 <= u < comm.len() ==> #[trigger] comm[u] < k,
        0 <= n <= adj.len(),
    ensures
        strengths_sum(adj, comm, k, n) == total_weight(adj.subrange(0, n)),
    decreases n,
{
    if n == 0 {
        lemma_strengths_zero(adj, comm, k);
        assert(adj.subrange(0, 0) =~= Seq::<Seq<(usize, usize)>>::empty());
    } else {
        lemma_strengths_prefix(adj, comm, k, n - 1);
        lemma_strengths_sum_step(adj, comm, k, n);
        assert(adj.subrange(0, n).drop_last() =~= adj.subrange(0, n - 1));
        assert(comm[n - 1] < k);
    }
}

proof fn lemma_strengths_zero(adj: Seq<Seq<(usize, usize)>>, comm: Seq<usize>, k: nat)
    ensures
        strengths_sum(adj, comm, k, 0) == 0,
    decreases k,
{
    if k > 0 {
        lemma_strengths_zero(adj, comm, (k - 1) as nat);
    }
}

pub proof fn lemma_link_weight_le_total(links: Seq<(usize, usize, usize)>, c: usize, t: usize)
    ensures
        link_weight(links, c, t) <= link_total(links),
    decreases links.len(),
{
    if links.len() > 0 {
        lemma_link_weight_le_total(links.drop_last(), c, t);
    }
}

/// The rows of a graph between communities under construction, with the
/// position of each target in its row.
struct LinkTable {
    rows: Vec<Vec<(usize, usize)>>,
    index: Vec<HashMap<usize, usize>>,
    links: Ghost<Seq<(usize, usize, usize)>>,
}

impl LinkTable {
    spec fn rows_view(&self) -> Seq<Seq<(usize, usize)>> {
        self.rows@.map_values(|r: Vec<(usize, usize)>| r@)
    }

    spec fn wf(&self) -> bool {
        let k = self.index@.len();
        &&& is_aggregate(self.rows_view(), self.links@, k)
        &&& forall|c: int, t: usize|
            0 <= c < k && #[trigger] self.index@[c]@.contains_key(t) ==> self.index@[c]@[t]
                < self.rows@[c]@.len() && self.rows@[c]@[self.index@[c]@[t] as int].0 == t
        &&& forall|c: usize, t: usize|
            c < k && #[trigger] has_link(self.links@, c, t) ==> self.index@[c as int]@.contains_key(t)
        &&& total_len(self.rows_view()) <= self.links@.len()
        &&& total_weight(self.rows_view()) == link_total(self.links@)
    }

    fn new(k: usize) -> (r: Self)
        ensures
            r.wf(),
            r.index@.len() == k,
            r.links@ == Seq::<(usize, usize, usize)>::empty(),
    {
        let mut rows: Vec<Vec<(usize, usize)>> = Vec::new();
        let mut index: Vec<HashMap<usize, usize>> = Vec::new();
        let mut c: usize = 0;
        while c < k
            invariant
                c <= k,
                rows@.len() == c,
                index@.len() == c,
                forall|x: int| 0 <= x < c ==> (#[trigger] rows@[x])@ == Seq::<(usize, usize)>::empty(),
                forall|x: int| 0 <= x < c ==> (#[trigger] index@[x])@ == Map::<usize, usize>::empty(),
            decreases k - c,
        {
            rows.push(Vec::new());
            index.push(HashMap::new());
            c = c + 1;
        }
        let r = LinkTable { rows, index, links: Ghost(Seq::empty()) };
        proof {
            assert(r.rows_view() =~= Seq::new(k as nat, |u: int| Seq::<(usize, usize)>::empty()));
            super::lemma_total_len_empty_rows(k as nat);
            super::lemma_total_weight_empty_rows(k as nat);
        }
        r
    }

    /// Records the link `(c, t, w)`.
    fn add(&mut self, c: usize, t: usize, w: usize)
        requires
            old(self).wf(),
            c < old(self).index@.len(),
            link_weight(old(self).links@.push((c, t, w)), c, t) <= usize::MAX,
        ensures
            final(self).wf(),
            final(self).index@.len() == old(self).index@.len(),
            final(self).links@ == old(self).links@.push((c, t, w)),
    {
        let ghost k = self.index@.len();
        let n_rows = self.index.len();
        assert(n_rows == k);
        let ghost links = self.links@;
        let ghost rows0 = self.rows_view();
        let ghost new_links = links.push((c, t, w));
        proof {
            lemma_links_push(links, (c, t, w), c, t);
        }
        let found = match self.index[c].get(&t) {
            Some(p) => Some(*p),
            None => None,
        };
        match found {
            Some(p) => {
                let (t0, old_w) = self.rows[c][p];
                assert(rows0[c as int][p as int] == self.rows@[c as int]@[p as int]);
                assert(old_w == link_weight(links, c, t));
                let ghost row1 = rows0[c as int].update(p as int, (t, (old_w + w) as usize));
                self.rows[c].set(p, (t, old_w + w));
                self.links = Ghost(new_links);
                proof {
                    let rows1 = self.rows_view();
                    assert(rows1 =~= rows0.update(c as int, row1));
                    lemma_total_len_update(rows0, c as int, row1);
                    lemma_weight_sum_update(rows0[c as int], p as int, (t, (old_w + w) as usize));
                    lemma_total_weight_update(rows0, c as int, row1);
                    lemma_aggregate_update(rows0, links, k, c, p as int, w);
                }
            },
            None => {
                proof {
                    if has_link(links, c, t) {
                        assert(self.index@[c as int]@.contains_key(t));
                    }
                    lemma_no_link_no_weight(links, c, t);
                }
                let pos = self.rows[c].len();
                let ghost row1 = rows0[c as int].push((t, w));
                self.rows[c].push((t, w));
                self.index[c].insert(t, pos);
                self.links = Ghost(new_links);
                proof {
                    let rows1 = self.rows_view();
                    assert(rows1 =~= rows0.update(c as int, row1));
                    lemma_total_len_update(rows0, c as int, row1);
                    lemma_weight_sum_push(rows0[c as int], (t, w));
                    lemma_total_weight_update(rows0, c as int, row1);
                    lemma_aggregate_push(rows0, links, k, c, t, w);
                }
            },
        }
    }
}

pub struct PartitionSet<'g> {
    graph: &'g Graph,
    n_partitions: usize,
    community: Vec<usize>,
}

impl<'g> View for PartitionSet<'g> {
    type V = PartitionData;

    closed spec fn view(&self) -> PartitionData {
        PartitionData {
            graph: self.graph@,
            n_partitions: self.n_partitions as nat,
            community: self.community@,
        }
    }
}

impl<'g> PartitionSet<'g> {
    #[verifier::type_invariant]
    spec fn inv(&self) -> bool {
        &&& self.community@.len() == self.graph@.adj.len()
        &&& forall|u: int| 0 <= u < self.community@.len() ==> #[trigger] self.community@[u] < self.n_partitions
    }

    /// The partition with every node in community 0.
    pub fn trivial(graph: &'g Graph) -> (r: Self)
        ensures
            r@.graph == graph@,
            r@.n_partitions == 1,
            r@.community == Seq::new(graph@.adj.len(), |u: int| 0usize),
    {
        let n = graph.n_nodes();
        let mut community: Vec<usize> = Vec::new();
        let mut i: usize = 0;
        while i < n
            invariant
                i <= n,
                community@ == Seq::new(i as nat, |u: int| 0usize),
            decreases n - i,
        {
            community.push(0);
            proof {
                assert(community@ =~= Seq::new((i + 1) as nat, |u: int| 0usize));
            }
            i = i + 1;
        }
        Self { graph, n_partitions: 1, community }
    }

    /// The partition with every node in a community of its own: node `u`
    /// in community `u`.
    pub fn singleton(graph: &'g Graph) -> (r: Self)
        ensures
            r@.graph == graph@,
            r@.n_partitions == graph@.adj.len(),
            r@.community == Seq::new(graph@.adj.len(), |u: int| u as usize),
    {
        let n = graph.n_nodes();
        let mut community: Vec<usize> = Vec::new();
        let mut i: usize = 0;
        while i < n
            invariant
                i <= n,
                community@ == Seq::new(i as nat, |u: int| u as usize),
            decreases n - i,
        {
            community.push(i);
            proof {
                assert(community@ =~= Seq::new((i + 1) as nat, |u: int| u as usize));
            }
            i = i + 1;
        }
        Self { graph, n_partitions: n, community }
    }

    /// The community of `v`.
    pub fn community(&self, v: usize) -> (r: usize)
        requires
            v < self@.community.len(),
        ensures
            r == self@.community[v as int],
            r < self@.n_partitions,
    {
        proof {
            use_type_invariant(self);
        }
        self.community[v]
    }

    /// The members of each community, in increasing order. Every node is
    /// in exactly one list: the one of its community.
    pub fn communities(&self) -> (r: Vec<Vec<usize>>)
        ensures
            r@.len() == self@.n_partitions,
            forall|c: int|
                0 <= c < r@.len() ==> (#[trigger] r@[c])@ == members(
                    self@.community,
                    c as usize,
                    self@.community.len() as int,
                ),
            forall|u: int|
                0 <= u < self@.community.len() ==> r@[self@.community[u] as int]@.contains(
                    u as usize,
                ),
            forall|c: int, u: usize|
                0 <= c < r@.len() && #[trigger] r@[c]@.contains(u) ==> u
                    < self@.community.len() && self@.community[u as int] == c,
    {
        proof {
            use_type_invariant(self);
        }
        let k = self.n_partitions;
        let n = self.community.len();
        let ghost comm = self.community@;
        let mut out: Vec<Vec<usize>> = Vec::new();
        let mut c: usize = 0;
        while c < k
            invariant
                c <= k,
                out@.len() == c,
                forall|x: int| 0 <= x < c ==> (#[trigger] out@[x])@ == Seq::<usize>::empty(),
            decreases k - c,
        {
            out.push(Vec::new());
            c = c + 1;
        }
        let mut u: usize = 0;
        while u < n
            invariant
                comm == self.community@,
                n == comm.len(),
                k == self.n_partitions,
                forall|x: int| 0 <= x < n ==> #[trigger] comm[x] < k,
                u <= n,
                out@.len() == k,
                forall|x: int| 0 <= x < k ==> (#[trigger] out@[x])@ == members(comm, x as usize, u as int),
            decreases n - u,
        {
            let tag = self.community[u];
            let ghost before = out@;
            out[tag].push(u);
            proof {
                assert forall|x: int| 0 <= x < k implies (#[trigger] out@[x])@ == members(
                    comm,
                    x as usize,
                    (u + 1) as int,
                ) by {
                    if x != tag as int {
                        assert(out@[x] == before[x]);
                    }
                }
            }
            u = u + 1;
        }
        proof {
            assert forall|x: int| 0 <= x < n implies out@[comm[x] as int]@.contains(x as usize) by {
                lemma_members(comm, comm[x], n as int, x as usize);
            }
            assert forall|c: int, x: usize|
                0 <= c < out@.len() && #[trigger] out@[c]@.contains(x) implies x < n && comm[x as int]
                == c by {
                lemma_members(comm, c as usize, n as int, x);
            }
        }
        out
    }

    /// Total weight of the entries of `u` towards other nodes, by the
    /// community of the target.
    pub fn neighbour_community_weights(graph: &Graph, u: usize, community: &[usize]) -> (r: HashMap<
        usize,
        usize,
    >)
        requires
            u < graph@.adj.len(),
            forall|j: int|
                0 <= j < graph@.adj[u as int].len() ==> (#[trigger] graph@.adj[u as int][j]).0
                    < community@.len(),
            weight_sum(graph@.adj[u as int]) <= usize::MAX,
        ensures
            r@ == neighbour_weights(
                graph@.adj[u as int],
                u,
                community@,
                graph@.adj[u as int].len() as int,
            ),
            forall|c: usize|
                #[trigger] r@.contains_key(c) == reaches(
                    graph@.adj[u as int],
                    u,
                    community@,
                    c,
                    graph@.adj[u as int].len() as int,
                ),
            forall|c: usize|
                r@.contains_key(c) ==> #[trigger] r@[c] == weight_towards(
                    graph@.adj[u as int],
                    u,
                    community@,
                    c,
                    graph@.adj[u as int].len() as int,
                ),
    {
        proof {
            lemma_neighbour_weights_sums(
                graph@.adj[u as int],
                u,
                community@,
                graph@.adj[u as int].len() as int,
            );
        }
        let neigs = graph.neighbours(u);
        let mut m: HashMap<usize, usize> = HashMap::new();
        let mut j: usize = 0;
        while j < neigs.len()
            invariant
                neigs@ == graph@.adj[u as int],
                forall|i: int| 0 <= i < neigs@.len() ==> (#[trigger] neigs@[i]).0 < community@.len(),
                weight_sum(neigs@) <= usize::MAX,
                j <= neigs@.len(),
                m@ == neighbour_weights(neigs@, u, community@, j as int),
                forall|x: usize| #[trigger] m@.contains_key(x) ==> m@[x] <= weight_sum(
                    neigs@.subrange(0, j as int),
                ),
            decreases neigs@.len() - j,
        {
            let (v, weight) = neigs[j];
            proof {
                assert(neigs@.subrange(0, (j + 1) as int) =~= neigs@.subrange(0, j as int).push(
                    neigs@[j as int],
                ));
                super::lemma_weight_sum_push(neigs@.subrange(0, j as int), neigs@[j as int]);
                super::lemma_weight_sum_prefix(neigs@, (j + 1) as int);
            }
            if v != u {
                let cv = community[v];
                let old = match m.get(&cv) {
                    Some(w) => *w,
                    None => 0,
                };
                m.insert(cv, old + weight);
            }
            j = j + 1;
        }
        m
    }

    /// The partition of the same graph that puts `u` in the community
    /// `community[prev.community(u)]`, with the communities renumbered
    /// `0, 1, ...` in the order in which they first appear among the nodes.
    pub fn compress_partition(prev_partition: &Self, community: &[usize]) -> (r: Self)
        requires
            forall|u: int|
                0 <= u < prev_partition@.community.len() ==> (
                #[trigger] prev_partition@.community[u]) < community@.len(),
        ensures
            r@.graph == prev_partition@.graph,
            is_first_appearance_relabel(
                Seq::new(
                    prev_partition@.community.len(),
                    |u: int| community@[prev_partition@.community[u] as int],
                ),
                r@.community,
                r@.n_partitions,
            ),
    {
        proof {
            use_type_invariant(prev_partition);
        }
        let n = prev_partition.community.len();
        let ghost lab = Seq::new(n as nat, |u: int| community@[prev_partition@.community[u] as int]);
        let mut new_community: Vec<usize> = Vec::new();
        let mut final_tag: HashMap<usize, usize> = HashMap::new();
        let mut n_partitions: usize = 0;
        let mut u: usize = 0;
        while u < n
            invariant
                n == prev_partition@.community.len(),
                lab == Seq::new(n as nat, |u: int| community@[prev_partition@.community[u] as int]),
                forall|x: int|
                    0 <= x < n ==> (#[trigger] prev_partition@.community[x]) < community@.len(),
                u <= n,
                n_partitions <= u,
                new_community@.len() == u,
                forall|x: usize| #[trigger]
                    final_tag@.contains_key(x) <==> exists|v: int| 0 <= v < u && lab[v] == x,
                forall|v: int| 0 <= v < u ==> final_tag@[lab[v]] == #[trigger] new_community@[v],
                forall|v: int| 0 <= v < u ==> #[trigger] new_community@[v] < n_partitions,
                forall|x: usize, y: usize|
                    #[trigger] final_tag@.contains_key(x) && #[trigger] final_tag@.contains_key(y)
                        && final_tag@[x] == final_tag@[y] ==> x == y,
                forall|c: int|
                    0 <= c < n_partitions ==> #[trigger] appears_before(new_community@, c, u as int),
                forall|v: int, c: int|
                    0 <= v < u && 0 <= c < new_community@[v] ==> #[trigger] appears_before(
                        new_community@,
                        c,
                        v,
                    ),
            decreases n - u,
        {
            let prev_comm = community[prev_partition.community[u]];
            assert(prev_comm == lab[u as int]);
            let ghost old_new = new_community@;
            let ghost old_tag = final_tag@;
            let new_comm = match final_tag.get(&prev_comm) {
                Some(c) => *c,
                None => {
                    let c = n_partitions;
                    n_partitions = n_partitions + 1;
                    final_tag.insert(prev_comm, c);
                    c
                },
            };
            new_community.push(new_comm);
            proof {
                assert forall|c: int, w: int| #[trigger] appears_before(old_new, c, w) && w <= u
                    implies appears_before(new_community@, c, w) by {
                    let v = choose|v: int| 0 <= v < w && old_new[v] == c;
                    assert(new_community@[v] == c);
                }
                if old_tag.contains_key(prev_comm) {
                    let v0 = choose|v: int| 0 <= v < u && lab[v] == prev_comm;
                    assert(old_new[v0] == new_comm);
                    assert forall|c: int| 0 <= c < new_comm implies #[trigger] appears_before(
                        new_community@,
                        c,
                        u as int,
                    ) by {
                        assert(appears_before(old_new, c, v0));
                        let w = choose|w: int| 0 <= w < v0 && old_new[w] == c;
                        assert(new_community@[w] == c);
                    }
                } else {
                    assert forall|c: int| 0 <= c < new_comm implies #[trigger] appears_before(
                        new_community@,
                        c,
                        u as int,
                    ) by {
                        assert(appears_before(old_new, c, u as int));
                    }
                    assert forall|x: usize, y: usize|
                        #[trigger] final_tag@.contains_key(x) && #[trigger] final_tag@.contains_key(y)
                            && final_tag@[x] == final_tag@[y] implies x == y by {
                        if x != prev_comm && old_tag.contains_key(x) {
                            let v = choose|v: int| 0 <= v < u && lab[v] == x;
                            assert(old_new[v] < new_comm);
                        }
                        if y != prev_comm && old_tag.contains_key(y) {
                            let v = choose|v: int| 0 <= v < u && lab[v] == y;
                            assert(old_new[v] < new_comm);
                        }
                    }
                }
                assert forall|x: usize| #[trigger] final_tag@.contains_key(x) <==> exists|v: int|
                    0 <= v < u + 1 && lab[v] == x by {
                    if x == prev_comm {
                        assert(lab[u as int] == x);
                    }
                    if exists|v: int| 0 <= v < u + 1 && lab[v] == x {
                        let v = choose|v: int| 0 <= v < u + 1 && lab[v] == x;
                        if v < u {
                            assert(old_tag.contains_key(x));
                        }
                    }
                }
                assert forall|v: int| 0 <= v < u + 1 implies final_tag@[lab[v]]
                    == #[trigger] new_community@[v] by {
                    if v < u {
                        assert(new_community@[v] == old_new[v]);
                        assert(old_tag.contains_key(lab[v]));
                    }
                }
                assert forall|c: int| 0 <= c < n_partitions implies #[trigger] appears_before(
                    new_community@,
                    c,
                    u + 1,
                ) by {
                    if c == new_comm {
                        assert(new_community@[u as int] == c);
                    } else {
                        assert(appears_before(old_new, c, u as int));
                        let v = choose|v: int| 0 <= v < u && old_new[v] == c;
                        assert(new_community@[v] == c);
                    }
                }
                assert forall|v: int, c: int|
                    0 <= v < u + 1 && 0 <= c < new_community@[v] implies #[trigger] appears_before(
                    new_community@,
                    c,
                    v,
                ) by {
                    if v < u {
                        assert(new_community@[v] == old_new[v]);
                        assert(appears_before(old_new, c, v));
                    }
                }
            }
            u = u + 1;
        }
        let r = Self { community: new_community, n_partitions, graph: prev_partition.graph };
        proof {
            assert forall|a: int, b: int|
                0 <= a < n && 0 <= b < n implies (#[trigger] new_community@[a] == #[trigger] new_community@[b])
                == (lab[a] == lab[b]) by {
                assert(final_tag@.contains_key(lab[a]));
                assert(final_tag@.contains_key(lab[b]));
            }
        }
        r
    }

    /// The graph between the communities. Node `c` of the result stands
    /// for community `c`; its list holds, in no particular order, one entry
    /// `(t, w)` for each community `t` that some entry of a member of `c`
    /// points into, `w` being the total weight of those entries. The total
    /// weight is kept. With as many communities as nodes, the graph itself.
    pub fn aggregate_graph(&self) -> (r: Graph)
        requires
            self@.n_partitions != self@.graph.adj.len() ==> targets_in_range(self@.graph.adj),
            self@.n_partitions != self@.graph.adj.len() ==> forall|c: usize, t: usize|
                #[trigger] link_weight(
                    community_links(self@.graph.adj, self@.community, self@.graph.adj.len() as int),
                    c,
                    t,
                ) <= usize::MAX,
        ensures
            self@.n_partitions == self@.graph.adj.len() ==> r@ == self@.graph,
            self@.n_partitions != self@.graph.adj.len() ==> is_aggregate(
                r@.adj,
                community_links(self@.graph.adj, self@.community, self@.graph.adj.len() as int),
                self@.n_partitions,
            ),
            self@.n_partitions != self@.graph.adj.len() ==> r@.n_edges == total_len(r@.adj) / 2,
            self@.n_partitions != self@.graph.adj.len() ==> targets_in_range(r@.adj),
            total_weight(r@.adj) == total_weight(self@.graph.adj),
    {
        proof {
            use_type_invariant(self);
        }
        let n = self.graph.n_nodes();
        let k = self.n_partitions;
        if k == n {
            return self.graph.duplicate();
        }
        self.graph.entries_fit();
        let ghost adj = self@.graph.adj;
        let ghost comm = self@.community;
        let ghost full = community_links(adj, comm, n as int);
        let mut table = LinkTable::new(k);
        let mut u: usize = 0;
        while u < n
            invariant
                adj == self@.graph.adj,
                comm == self@.community,
                n == adj.len(),
                comm.len() == n,
                k == self@.n_partitions,
                forall|x: int| 0 <= x < n ==> #[trigger] comm[x] < k,
                targets_in_range(adj),
                full == community_links(adj, comm, n as int),
                forall|c: usize, t: usize| #[trigger] link_weight(full, c, t) <= usize::MAX,
                u <= n,
                table.wf(),
                table.index@.len() == k,
                table.links@ == community_links(adj, comm, u as int),
            decreases n - u,
        {
            let cu = self.community[u];
            let row = self.graph.neighbours(u);
            let ghost rl = row_links(adj[u as int], comm, cu);
            let mut j: usize = 0;
            proof {
                assert(rl.subrange(0, 0) =~= Seq::<(usize, usize, usize)>::empty());
                assert(community_links(adj, comm, u as int) + rl.subrange(0, 0) =~= community_links(
                    adj,
                    comm,
                    u as int,
                ));
            }
            while j < row.len()
                invariant
                    adj == self@.graph.adj,
                    comm == self@.community,
                    n == adj.len(),
                    comm.len() == n,
                    k == self@.n_partitions,
                    forall|x: int| 0 <= x < n ==> #[trigger] comm[x] < k,
                    targets_in_range(adj),
                    full == community_links(adj, comm, n as int),
                    forall|c: usize, t: usize| #[trigger] link_weight(full, c, t) <= usize::MAX,
                    u < n,
                    row@ == adj[u as int],
                    cu == comm[u as int],
                    rl == row_links(adj[u as int], comm, cu),
                    j <= row@.len(),
                    table.wf(),
                    table.index@.len() == k,
                    table.links@ == community_links(adj, comm, u as int) + rl.subrange(0, j as int),
                decreases row@.len() - j,
            {
                let (v, w) = row[j];
                assert(adj[u as int][j as int].0 < adj.len());
                let cv = self.community[v];
                proof {
                    assert(rl[j as int] == (cu, cv, w));
                    assert(rl.subrange(0, (j + 1) as int) =~= rl.subrange(0, j as int).push((cu, cv, w)));
                    assert(community_links(adj, comm, u as int) + rl.subrange(0, (j + 1) as int)
                        =~= (community_links(adj, comm, u as int) + rl.subrange(0, j as int)).push(
                        (cu, cv, w),
                    ));
                    lemma_links_prefix_weight(adj, comm, u as int, (j + 1) as int, n as int, cu, cv);
                    assert(link_weight(full, cu, cv) <= usize::MAX);
                }
                table.add(cu, cv, w);
                j = j + 1;
            }
            proof {
                assert(rl.subrange(0, row@.len() as int) =~= rl);
            }
            u = u + 1;
        }
        proof {
            lemma_community_links(adj, comm, n as int);
            assert(adj.subrange(0, n as int) =~= adj);
            lemma_links_in_range(adj, comm, n as int, k as nat);
        }
        let ghost rows = table.rows_view();
        let r = Graph::new(table.rows);
        proof {
            assert forall|c: int, p: int|
                0 <= c < r@.adj.len() && 0 <= p < r@.adj[c].len() implies (#[trigger] r@.adj[c][p]).0
                < r@.adj.len() by {
                assert(has_link(full, c as usize, rows[c][p].0));
                let i = choose|i: int| 0 <= i < full.len() && (#[trigger] full[i]).0 == c as usize && full[i].1 == rows[c][p].0;
            }
        }
        r
    }

    /// The integer terms of the modularity: for each community `c`, the
    /// weight `e[c]` of the entries between members of `c` and the
    /// strength `a[c]` of its members; and the total weight `m2` of the
    /// graph. The modularity is the sum over `c` of
    /// `e[c] - a[c]^2 / m2`, divided by `m2`.
    pub fn modularity_terms(&self) -> (r: (Vec<usize>, Vec<usize>, usize))
        requires
            targets_in_range(self@.graph.adj),
            total_weight(self@.graph.adj) <= usize::MAX,
        ensures
            r.0@.len() == self@.n_partitions,
            r.1@.len() == self@.n_partitions,
            forall|c: int|
                0 <= c < self@.n_partitions ==> #[trigger] r.0@[c] == link_weight(
                    community_links(self@.graph.adj, self@.community, self@.graph.adj.len() as int),
                    c as usize,
                    c as usize,
                ),
            forall|c: int|
                0 <= c < self@.n_partitions ==> #[trigger] r.1@[c] == community_strength(
                    self@.graph.adj,
                    self@.community,
                    c as usize,
                    self@.graph.adj.len() as int,
                ),
            r.2 == total_weight(self@.graph.adj),
    {
        proof {
            use_type_invariant(self);
        }
        let n = self.graph.n_nodes();
        let k = self.n_partitions;
        let ghost adj = self@.graph.adj;
        let ghost comm = self@.community;
        let ghost full = community_links(adj, comm, n as int);
        proof {
            lemma_community_links(adj, comm, n as int);
            assert(adj.subrange(0, n as int) =~= adj);
        }
        let mut e: Vec<usize> = Vec::new();
        let mut a: Vec<usize> = Vec::new();
        let mut c: usize = 0;
        while c < k
            invariant
                c <= k,
                e@.len() == c,
                a@.len() == c,
                forall|x: int| 0 <= x < c ==> #[trigger] e@[x] == 0,
                forall|x: int| 0 <= x < c ==> #[trigger] a@[x] == 0,
            decreases k - c,
        {
            e.push(0);
            a.push(0);
            c = c + 1;
        }
        let mut m2: usize = 0;
        let mut u: usize = 0;
        while u < n
            invariant
                adj == self@.graph.adj,
                comm == self@.community,
                n == adj.len(),
                comm.len() == n,
                k == self@.n_partitions,
                forall|x: int| 0 <= x < n ==> #[trigger] comm[x] < k,
                targets_in_range(adj),
                total_weight(adj) <= usize::MAX,
                full == community_links(adj, comm, n as int),
                link_total(full) == total_weight(adj),
                u <= n,
                e@.len() == k,
                a@.len() == k,
                forall|x: int|
                    0 <= x < k ==> #[trigger] e@[x] == link_weight(
                        community_links(adj, comm, u as int),
                        x as usize,
                        x as usize,
                    ),
                forall|x: int| 0 <= x < k ==> #[trigger] a@[x] == community_strength(adj, comm, x as usize, u as int),
                m2 == total_weight(adj.subrange(0, u as int)),
            decreases n - u,
        {
            let cu = self.community[u];
            proof {
                lemma_total_weight_prefix(adj, u as int);
                lemma_total_weight_prefix(adj, (u + 1) as int);
                lemma_community_strength_bound(adj, comm, cu, (u + 1) as int);
            }
            let s = self.graph.strength(u);
            a.set(cu, a[cu] + s);
            m2 = m2 + s;
            let row = self.graph.neighbours(u);
            let ghost rl = row_links(adj[u as int], comm, cu);
            let ghost before = community_links(adj, comm, u as int);
            proof {
                assert(rl.subrange(0, 0) =~= Seq::<(usize, usize, usize)>::empty());
                assert(before + rl.subrange(0, 0) =~= before);
            }
            let mut j: usize = 0;
            while j < row.len()
                invariant
                    adj == self@.graph.adj,
                    comm == self@.community,
                    n == adj.len(),
                    comm.len() == n,
                    k == self@.n_partitions,
                    forall|x: int| 0 <= x < n ==> #[trigger] comm[x] < k,
                    targets_in_range(adj),
                    total_weight(adj) <= usize::MAX,
                    full == community_links(adj, comm, n as int),
                    link_total(full) == total_weight(adj),
                    u < n,
                    row@ == adj[u as int],
                    cu == comm[u as int],
                    rl == row_links(adj[u as int], comm, cu),
                    before == community_links(adj, comm, u as int),
                    j <= row@.len(),
                    e@.len() == k,
                    forall|x: int|
                        0 <= x < k ==> #[trigger] e@[x] == link_weight(
                            before + rl.subrange(0, j as int),
                            x as usize,
                            x as usize,
                        ),
                decreases row@.len() - j,
            {
                let (v, w) = row[j];
                assert(adj[u as int][j as int].0 < adj.len());
                let cv = self.community[v];
                let ghost old_e = e@;
                proof {
                    assert(rl[j as int] == (cu, cv, w));
                    assert(rl.subrange(0, (j + 1) as int) =~= rl.subrange(0, j as int).push((cu, cv, w)));
                    assert(before + rl.subrange(0, (j + 1) as int) =~= (before + rl.subrange(0, j as int)).push(
                        (cu, cv, w),
                    ));
                    assert forall|x: usize| #[trigger] link_weight(
                        before + rl.subrange(0, (j + 1) as int),
                        x,
                        x,
                    ) == link_weight(before + rl.subrange(0, j as int), x, x) + if cu == x && cv == x {
                        w as nat
                    } else {
                        0nat
                    } by {
                        lemma_links_push(before + rl.subrange(0, j as int), (cu, cv, w), x, x);
                    }
                }
                if cv == cu {
                    proof {
                        lemma_links_prefix_weight(adj, comm, u as int, (j + 1) as int, n as int, cu, cu);
                        lemma_link_weight_le_total(full, cu, cu);
                    }
                    e.set(cu, e[cu] + w);
                }
                proof {
                    assert forall|x: int| 0 <= x < k implies #[trigger] e@[x] == link_weight(
                        before + rl.subrange(0, (j + 1) as int),
                        x as usize,
                        x as usize,
                    ) by {
                        assert(link_weight(before + rl.subrange(0, (j + 1) as int), x as usize, x as usize)
                            == link_weight(before + rl.subrange(0, j as int), x as usize, x as usize)
                            + if cu == x as usize && cv == x as usize {
                            w as nat
                        } else {
                            0nat
                        });
                    }
                }
                j = j + 1;
            }
            proof {
                assert(rl.subrange(0, row@.len() as int) =~= rl);
                assert(community_links(adj, comm, (u + 1) as int) == before + rl);
            }
            u = u + 1;
        }
        proof {
            assert(adj.subrange(0, n as int) =~= adj);
        }
        (e, a, m2)
    }

    /// Number of communities.
    pub fn len(&self) -> (r: usize)
        ensures
            r == self@.n_partitions,
    {
        self.n_partitions
    }

    /// Whether there are no communities.
    pub fn is_empty(&self) -> (r: bool)
        ensures
            r == (self@.n_partitions == 0),
    {
        self.n_partitions == 0
    }

    /// The partitioned graph.
    pub fn graph(&self) -> (r: &'g Graph)
        ensures
            r@ == self@.graph,
    {
        self.graph
    }
}

} // verus!
