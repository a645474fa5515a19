//! The bookkeeping of one level of the Louvain method on a graph: the
//! community of each node, the strength of each community, and the queue
//! of nodes still to visit. Which community a node moves to is decided by
//! comparing floating-point gains, which the caller does; every move keeps
//! each community's strength equal to the sum of its members' strengths.

use vstd::prelude::*;

use super::{lemma_total_weight_prefix, total_weight, weight_sum, Graph};
use std::collections::VecDeque;

verus! {

/// The content of a Louvain level.
pub struct LevelData {
    pub community: Seq<usize>,
    pub strengths: Seq<usize>,
    pub strength_comm: Seq<usize>,
    pub queued: Seq<bool>,
    pub active: Seq<usize>,
}

/// Sum of `strengths[u]` over the nodes `u < n` with `community[u] == c`.
pub open spec fn members_strength(community: Seq<usize>, strengths: Seq<usize>, c: usize, n: int) -> nat
    decreases n,
{
    if n <= 0 {
        0
    } else {
        members_strength(community, strengths, c, n - 1) + if community[n - 1] == c {
            strengths[n - 1] as nat
        } else {
            0nat
        }
    }
}

/// Sum of `strengths[..n]`.
pub open spec fn strength_total(strengths: Seq<usize>, n: int) -> nat
    decreases n,
{
    if n <= 0 {
        0
    } else {
        strength_total(strengths, n - 1) + strengths[n - 1] as nat
    }
}

/// A level is consistent: every node is in one of the `n` communities,
/// each community's strength is the sum of its members' strengths, and a
/// node is queued exactly when it waits, once, in the active queue.
pub open spec fn level_consistent(d: LevelData) -> bool {
    let n = d.community.len();
    &&& d.strengths.len() == n
    &&& d.strength_comm.len() == n
    &&& d.queued.len() == n
    &&& n <= usize::MAX
    &&& strength_total(d.strengths, n as int) <= usize::MAX
    &&& forall|u: int| 0 <= u < n ==> #[trigger] d.community[u] < n
    &&& forall|c: int|
        0 <= c < n ==> #[trigger] d.strength_comm[c] == members_strength(
            d.community,
            d.strengths,
            c as usize,
            n as int,
        )
    &&& forall|i: int| 0 <= i < d.active.len() ==> #[trigger] d.active[i] < n
    &&& forall|i: int, j: int| 0 <= i < j < d.active.len() ==> d.active[i] != d.active[j]
    &&& forall|u: int| 0 <= u < n ==> (#[trigger] d.queued[u] <==> d.active.contains(u as usize))
}

proof fn lemma_members_identity(strengths: Seq<usize>, c: usize, n: int)
    requires
        0 <= n <= strengths.len(),
        strengths.len() <= usize::MAX,
    ensures
        members_strength(
            Seq::new(strengths.len(), |u: int| u as usize),
            strengths,
            c,
            n,
        ) == if c < n {
            strengths[c as int] as nat
        } else {
            0nat
        },
    decreases n,
{
    if n > 0 {
        lemma_members_identity(strengths, c, n - 1);
    }
}

proof fn lemma_members_move(community: Seq<usize>, strengths: Seq<usize>, u: int, b: usize, c: usize, n: int)
    requires
        0 <= u < community.len(),
        0 <= n <= community.len(),
        community.len() == strengths.len(),
    ensures
        members_strength(community.update(u, b), strengths, c, n) + (if u < n && community[u] == c {
            strengths[u] as nat
        } else {
            0nat
        }) == members_strength(community, strengths, c, n) + (if u < n && b == c {
            strengths[u] as nat
        } else {
            0nat
        }),
    decreases n,
{
    if n > 0 {
        lemma_members_move(community, strengths, u, b, c, n - 1);
    }
}

proof fn lemma_members_ge(community: Seq<usize>, strengths: Seq<usize>, u: int, n: int)
    requires
        0 <= u < n <= community.len(),
        community.len() == strengths.len(),
    ensures
        members_strength(community, strengths, community[u], n) >= strengths[u],
    decreases n,
{
    if u < n - 1 {
        lemma_members_ge(community, strengths, u, n - 1);
    }
}

proof fn lemma_members_le_total(community: Seq<usize>, strengths: Seq<usize>, c: usize, n: int)
    requires
        0 <= n <= strengths.len(),
    ensures
        members_strength(community, strengths, c, n) <= strength_total(strengths, n),
    decreases n,
{
    if n > 0 {
        lemma_members_le_total(community, strengths, c, n - 1);
    }
}

proof fn lemma_strength_total_rows(adj: Seq<Seq<(usize, usize)>>, strengths: Seq<usize>, n: int)
    requires
        0 <= n <= adj.len(),
        strengths.len() >= n,
        forall|u: int| 0 <= u < n ==> #[trigger] strengths[u] == weight_sum(adj[u]),
    ensures
        strength_total(strengths, n) == total_weight(adj.subrange(0, n)),
    decreases n,
{
    if n > 0 {
        lemma_strength_total_rows(adj, strengths, n - 1);
        lemma_total_weight_prefix(adj, n - 1);
    }
}

/// One level of the Louvain method.
pub struct LouvainLevel {
    community: Vec<usize>,
    strengths: Vec<usize>,
    strength_comm: Vec<usize>,
    queued: Vec<bool>,
    active: VecDeque<usize>,
}

impl View for LouvainLevel {
    type V = LevelData;

    closed spec fn view(&self) -> LevelData {
        LevelData {
            community: self.community@,
            strengths: self.strengths@,
            strength_comm: self.strength_comm@,
            queued: self.queued@,
            active: self.active@,
        }
    }
}

impl LouvainLevel {
    /// The level in which every node of `graph` is alone in its community
    /// (node `u` in community `u`) and every node is queued, in order.
    pub fn new(graph: &Graph) -> (r: Self)
        requires
            total_weight(graph@.adj) <= usize::MAX,
        ensures
            level_consistent(r@),
            r@.community == Seq::new(graph@.adj.len(), |u: int| u as usize),
            r@.strengths == Seq::new(graph@.adj.len(), |u: int| weight_sum(graph@.adj[u]) as usize),
            r@.strength_comm == r@.strengths,
            r@.queued == Seq::new(graph@.adj.len(), |u: int| true),
            r@.active == r@.community,
    {
        let ghost adj = graph@.adj;
        let n = graph.n_nodes();
        let mut community: Vec<usize> = Vec::new();
        let mut strengths: Vec<usize> = Vec::new();
        let mut queued: Vec<bool> = Vec::new();
        let mut active: VecDeque<usize> = VecDeque::new();
        let mut u: usize = 0;
        while u < n
            invariant
                adj == graph@.adj,
                n == adj.len(),
                total_weight(adj) <= usize::MAX,
                u <= n,
                community@ == Seq::new(u as nat, |x: int| x as usize),
                active@ == community@,
                queued@ == Seq::new(u as nat, |x: int| true),
                strengths@.len() == u,
                forall|x: int| 0 <= x < u ==> #[trigger] strengths@[x] == weight_sum(adj[x]),
            decreases n - u,
        {
            proof {
                lemma_total_weight_prefix(adj, u as int);
                lemma_total_weight_prefix(adj, (u + 1) as int);
            }
            let s = graph.strength(u);
            community.push(u);
            active.push_back(u);
            queued.push(true);
            strengths.push(s);
            proof {
                assert(community@ =~= Seq::new((u + 1) as nat, |x: int| x as usize));
                assert(queued@ =~= Seq::new((u + 1) as nat, |x: int| true));
            }
            u = u + 1;
        }
        let strength_comm = strengths.clone();
        proof {
            lemma_strength_total_rows(adj, strengths@, n as int);
            assert(adj.subrange(0, n as int) =~= adj);
            assert(strengths@ =~= Seq::new(n as nat, |x: int| weight_sum(adj[x]) as usize));
            assert forall|c: int| 0 <= c < n implies #[trigger] strength_comm@[c] == members_strength(
                community@,
                strengths@,
                c as usize,
                n as int,
            ) by {
                lemma_members_identity(strengths@, c as usize, n as int);
            }
            assert forall|x: int| 0 <= x < n implies (#[trigger] queued@[x] <==> active@.contains(
                x as usize,
            )) by {
                assert(active@[x] == x as usize);
            }
        }
        Self { community, strengths, strength_comm, queued, active }
    }

    /// Number of nodes.
    pub fn len(&self) -> (r: usize)
        ensures
            r == self@.community.len(),
    {
        self.community.len()
    }

    /// The community of each node.
    pub fn communities(&self) -> (r: &[usize])
        ensures
            r@ == self@.community,
    {
        self.community.as_slice()
    }

    /// The community of `u`.
    pub fn community(&self, u: usize) -> (r: usize)
        requires
            level_consistent(self@),
            u < self@.community.len(),
        ensures
            r == self@.community[u as int],
            r < self@.community.len(),
    {
        self.community[u]
    }

    /// The strength of `u`.
    pub fn node_strength(&self, u: usize) -> (r: usize)
        requires
            level_consistent(self@),
            u < self@.community.len(),
        ensures
            r == self@.strengths[u as int],
    {
        self.strengths[u]
    }

    /// The strength of community `c`, without `u` counted in it.
    pub fn strength_without(&self, u: usize, c: usize) -> (r: usize)
        requires
            level_consistent(self@),
            u < self@.community.len(),
            c < self@.community.len(),
        ensures
            r + (if self@.community[u as int] == c {
                self@.strengths[u as int] as int
            } else {
                0int
            }) == self@.strength_comm[c as int],
    {
        proof {
            lemma_members_ge(self@.community, self@.strengths, u as int, self@.community.len() as int);
        }
        if self.community[u] == c {
            self.strength_comm[c] - self.strengths[u]
        } else {
            self.strength_comm[c]
        }
    }

    /// Moves `u` into community `best`.
    pub fn move_node(&mut self, u: usize, best: usize)
        requires
            level_consistent(old(self)@),
            u < old(self)@.community.len(),
            best < old(self)@.community.len(),
        ensures
            level_consistent(final(self)@),
            final(self)@.community == old(self)@.community.update(u as int, best),
            final(self)@.strengths == old(self)@.strengths,
            final(self)@.queued == old(self)@.queued,
            final(self)@.active == old(self)@.active,
    {
        let ghost old_view = self@;
        let n = self.community.len();
        let curr = self.community[u];
        let s = self.strengths[u];
        let ghost new_comm = old_view.community.update(u as int, best);
        proof {
            lemma_members_move(old_view.community, old_view.strengths, u as int, best, curr, n as int);
            lemma_members_move(old_view.community, old_view.strengths, u as int, best, best, n as int);
            lemma_members_le_total(new_comm, old_view.strengths, best, n as int);
        }
        if curr != best {
            let a = self.strength_comm[curr] - s;
            let b = self.strength_comm[best] + s;
            self.strength_comm.set(curr, a);
            self.strength_comm.set(best, b);
            self.community.set(u, best);
            proof {
                assert forall|c: int| 0 <= c < n implies #[trigger] self.strength_comm@[c] == members_strength(
                    self.community@,
                    self.strengths@,
                    c as usize,
                    n as int,
                ) by {
                    lemma_members_move(old_view.community, old_view.strengths, u as int, best, c as usize, n as int);
                }
                assert(self.community@ == new_comm);
            }
        }
        proof {
            assert(self@.active == old_view.active);
            assert(self@.queued == old_view.queued);
        }
    }

    /// Takes the first node of the active queue, if any, and unqueues it.
    pub fn pop_active(&mut self) -> (r: Option<usize>)
        requires
            level_consistent(old(self)@),
        ensures
            level_consistent(final(self)@),
            final(self)@.community == old(self)@.community,
            final(self)@.strengths == old(self)@.strengths,
            final(self)@.strength_comm == old(self)@.strength_comm,
            match r {
                None => old(self)@.active.len() == 0 && final(self)@ == old(self)@,
                Some(u) => {
                    &&& old(self)@.active.len() > 0
                    &&& u == old(self)@.active[0]
                    &&& final(self)@.active == old(self)@.active.drop_first()
                    &&& final(self)@.queued == old(self)@.queued.update(u as int, false)
                },
            },
    {
        let ghost old_view = self@;
        let r = self.active.pop_front();
        match r {
            Some(u) => {
                self.queued.set(u, false);
                proof {
                    let n = self.community@.len();
                    let active = self.active;
                    let queued = self.queued;
                    assert(active@ =~= old_view.active.drop_first());
                    assert forall|x: int| 0 <= x < n implies (#[trigger] queued@[x] <==> active@.contains(
                        x as usize,
                    )) by {
                        if x == u as int {
                            if active@.contains(x as usize) {
                                let j = choose|j: int| 0 <= j < active@.len() && active@[j] == x as usize;
                                assert(old_view.active[j + 1] == old_view.active[0]);
                            }
                        } else {
                            if old_view.active.contains(x as usize) {
                                let j = choose|j: int| 0 <= j < old_view.active.len() && old_view.active[j] == x as usize;
                                assert(j != 0);
                                assert(active@[j - 1] == x as usize);
                            }
                            if active@.contains(x as usize) {
                                let j = choose|j: int| 0 <= j < active@.len() && active@[j] == x as usize;
                                assert(old_view.active[j + 1] == x as usize);
                            }
                        }
                    }
                    assert forall|i: int, j: int| 0 <= i < j < active@.len() implies active@[i] != active@[j] by {
                        assert(active@[i] == old_view.active[i + 1]);
                        assert(active@[j] == old_view.active[j + 1]);
                    }
                }
            },
            None => {},
        }
        r
    }

    /// Queues every target of `u` in `graph` that is neither in the
    /// community of `u` nor queued already, in list order.
    pub fn enqueue_neighbours(&mut self, graph: &Graph, u: usize)
        requires
            level_consistent(old(self)@),
            u < old(self)@.community.len(),
            graph@.adj.len() == old(self)@.community.len(),
            forall|j: int|
                0 <= j < graph@.adj[u as int].len() ==> (#[trigger] graph@.adj[u as int][j]).0
                    < old(self)@.community.len(),
        ensures
            level_consistent(final(self)@),
            final(self)@.community == old(self)@.community,
            final(self)@.strengths == old(self)@.strengths,
            final(self)@.strength_comm == old(self)@.strength_comm,
            final(self)@.active == old(self)@.active + waiting_targets(
                graph@.adj[u as int],
                old(self)@.community,
                old(self)@.community[u as int],
                old(self)@.queued,
                graph@.adj[u as int].len() as int,
            ),
            forall|v: int|
                0 <= v < final(self)@.queued.len() ==> #[trigger] final(self)@.queued[v] == (old(
                    self,
                )@.queued[v] || final(self)@.active.contains(v as usize)),
    {
        let ghost old_view = self@;
        let ghost row = graph@.adj[u as int];
        let n = self.community.len();
        let best = self.community[u];
        let neigs = graph.neighbours(u);
        proof {
            assert(self.active@ == old_view.active);
            assert forall|i: int, k: int| 0 <= i < k < self.active@.len() implies self.active@[i]
                != self.active@[k] by {
                assert(old_view.active[i] != old_view.active[k]);
            }
            assert(old_view.active + waiting_targets(row, self.community@, best, old_view.queued, 0)
                =~= old_view.active);
        }
        let mut j: usize = 0;
        while j < neigs.len()
            invariant
                neigs@ == row,
                n == self.community@.len(),
                self.community@ == old_view.community,
                best == old_view.community[u as int],
                forall|k: int| 0 <= k < row.len() ==> (#[trigger] row[k]).0 < n,
                self.queued@.len() == n,
                j <= row.len(),
                self.active@ == old_view.active + waiting_targets(row, self.community@, best, old_view.queued, j as int),
                forall|i: int| 0 <= i < self.active@.len() ==> #[trigger] self.active@[i] < n,
                forall|i: int, k: int| 0 <= i < k < self.active@.len() ==> self.active@[i] != self.active@[k],
                forall|x: int| 0 <= x < n ==> (#[trigger] self.queued@[x] <==> self.active@.contains(x as usize)),
                forall|x: int| 0 <= x < n ==> #[trigger] self.queued@[x] == (old_view.queued[x] || self.active@.contains(x as usize)),
                forall|x: int| 0 <= x < n ==> (#[trigger] old_view.queued[x] <==> old_view.active.contains(x as usize)),
                level_consistent(old_view),
                u < n,
                self.strengths@ == old_view.strengths,
                self.strength_comm@ == old_view.strength_comm,
            decreases row.len() - j,
        {
            let (v, _) = neigs[j];
            assert(row[j as int].0 < n);
            let ghost before = self.active@;
            if self.community[v] != best && !self.queued[v] {
                self.queued.set(v, true);
                self.active.push_back(v);
                proof {
                    let prev = waiting_targets(row, self.community@, best, old_view.queued, j as int);
                    assert(!before.contains(v));
                    assert(!old_view.queued[v as int]);
                    if prev.contains(v) {
                        let i = choose|i: int| 0 <= i < prev.len() && prev[i] == v;
                        assert(before[old_view.active.len() + i] == v);
                    }
                    assert(self.active@ =~= old_view.active + waiting_targets(
                        row,
                        self.community@,
                        best,
                        old_view.queued,
                        (j + 1) as int,
                    ));
                    assert forall|i: int, k: int| 0 <= i < k < self.active@.len() implies self.active@[i] != self.active@[k] by {
                        if k == self.active@.len() - 1 && i < k {
                            assert(before[i] == self.active@[i]);
                            assert(before.contains(before[i]));
                        }
                    }
                    assert forall|x: int| 0 <= x < n implies (#[trigger] self.queued@[x] <==> self.active@.contains(
                        x as usize,
                    )) by {
                        if before.contains(x as usize) {
                            let i = choose|i: int| 0 <= i < before.len() && before[i] == x as usize;
                            assert(self.active@[i] == x as usize);
                        }
                        if self.active@.contains(x as usize) && x != v as int {
                            let i = choose|i: int| 0 <= i < self.active@.len() && self.active@[i] == x as usize;
                            assert(before[i] == x as usize);
                        }
                        if x == v as int {
                            assert(self.active@[self.active@.len() - 1] == v);
                        }
                    }
                    assert forall|x: int| 0 <= x < n implies #[trigger] self.queued@[x] == (old_view.queued[x]
                        || self.active@.contains(x as usize)) by {
                        if before.contains(x as usize) {
                            let i = choose|i: int| 0 <= i < before.len() && before[i] == x as usize;
                            assert(self.active@[i] == x as usize);
                        }
                        if self.active@.contains(x as usize) && x != v as int {
                            let i = choose|i: int| 0 <= i < self.active@.len() && self.active@[i] == x as usize;
                            assert(before[i] == x as usize);
                        }
                        if x == v as int {
                            assert(self.active@[self.active@.len() - 1] == v);
                        }
                    }
                }
            } else {
                proof {
                    assert(old_view.active + waiting_targets(row, self.community@, best, old_view.queued, (j + 1) as int)
                        =~= before) by {
                        let prev = waiting_targets(row, self.community@, best, old_view.queued, j as int);
                        if self.community@[v as int] != best && !old_view.queued[v as int] {
                            assert(self.queued@[v as int]);
                            assert(self.active@.contains(v));
                            let i = choose|i: int| 0 <= i < self.active@.len() && self.active@[i] == v;
                            if i < old_view.active.len() {
                                assert(old_view.active[i] == v);
                                assert(old_view.active.contains(v));
                            }
                            assert(prev[i - old_view.active.len()] == v);
                            assert(prev.contains(v));
                        }
                    }
                }
            }
            j = j + 1;
        }
    }
}

/// The targets among `row[..j]` that get queued by `enqueue_neighbours`:
/// outside community `best`, not queued before, and each only once.
pub open spec fn waiting_targets(
    row: Seq<(usize, usize)>,
    community: Seq<usize>,
    best: usize,
    queued: Seq<bool>,
    j: int,
) -> Seq<usize>
    decreases j,
{
    if j <= 0 {
        Seq::empty()
    } else {
        let prev = waiting_targets(row, community, best, queued, j - 1);
        let v = row[j - 1].0;
        if community[v as int] != best && !queued[v as int] && !prev.contains(v) {
            prev.push(v)
        } else {
            prev
        }
    }
}

} // verus!
