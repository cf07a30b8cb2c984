//! Shortest-route search over the graph store: a Dijkstra search that keeps
//! every route tied for the lowest cost.
use vstd::prelude::*;

use crate::entities::{extend_all, Edge, EdgeView, Node, NodeView, Paths, PathsView};
use crate::scores::ScoreMap;
use crate::state::{get_edges, lemma_out_edges_contains, out_edges, Graph, GraphError};

verus! {

/// How a search weighs an edge.
pub trait EdgeCost {
    /// The weight of an edge.
    spec fn weight(&self, e: EdgeView) -> nat;

    fn cost(&self, e: &Edge) -> (r: usize)
        ensures
            r as nat == self.weight(e@),
    ;
}

/// A weighting by kind of hop: one weight for native swaps (edges without
/// pair metadata), another for swaps through a pair contract.
#[derive(Clone, Copy, Debug, PartialEq, Eq, Structural)]
pub struct HopWeights {
    pub native: usize,
    pub pair: usize,
}

impl EdgeCost for HopWeights {
    open spec fn weight(&self, e: EdgeView) -> nat {
        if e.pair is Some {
            self.pair as nat
        } else {
            self.native as nat
        }
    }

    fn cost(&self, e: &Edge) -> (r: usize) {
        match &e.pair_info {
            Some(_) => self.pair,
            None => self.native,
        }
    }
}

/// A cost as a machine word holds it: sums past `usize::MAX` stay there.
pub open spec fn clamp(x: nat) -> nat {
    if x > usize::MAX {
        usize::MAX as nat
    } else {
        x
    }
}

/// The summed weight of a route.
pub open spec fn walk_cost<C: EdgeCost>(c: &C, p: Seq<EdgeView>) -> nat
    decreases p.len(),
{
    if p.len() == 0 {
        0
    } else {
        walk_cost(c, p.drop_last()) + c.weight(p.last())
    }
}

/// `p` is a route of `g` from `s` to `t`: contiguous edges of the graph, or
/// no edge at all when `s` is `t`.
pub open spec fn is_walk(g: Seq<EdgeView>, s: NodeView, t: NodeView, p: Seq<EdgeView>) -> bool {
    &&& p.len() == 0 ==> s == t
    &&& p.len() > 0 ==> p[0].from == s && p.last().to == t
    &&& forall|i: int| 0 <= i < p.len() ==> g.contains(#[trigger] p[i])
    &&& forall|i: int| 0 <= i < p.len() - 1 ==> (#[trigger] p[i]).to == p[i + 1].from
}

/// Some route of `g` leads from `s` to `t`.
pub open spec fn reachable(g: Seq<EdgeView>, s: NodeView, t: NodeView) -> bool {
    exists|p: Seq<EdgeView>| is_walk(g, s, t, p)
}

/// A queue entry: a node and the cost it was queued with. Its order is the
/// reverse of the costs', so that the greatest entry is the cheapest.
#[derive(Debug)]
pub struct MinScored(pub usize, pub Node);

impl MinScored {
    /// Compares by cost, reversed.
    pub fn cmp(&self, other: &MinScored) -> (r: core::cmp::Ordering)
        ensures
            (r == core::cmp::Ordering::Less) == (self.0 > other.0),
            (r == core::cmp::Ordering::Equal) == (self.0 == other.0),
            (r == core::cmp::Ordering::Greater) == (self.0 < other.0),
    {
        let a = self.0;
        let b = other.0;
        if a == b {
            core::cmp::Ordering::Equal
        } else if a < b {
            core::cmp::Ordering::Greater
        } else {
            core::cmp::Ordering::Less
        }
    }
}

/// Takes out the greatest entry, that is one of least cost.
pub fn pop_min(queue: &mut Vec<MinScored>) -> (r: MinScored)
    requires
        old(queue)@.len() > 0,
    ensures
        exists|i: int|
            0 <= i < old(queue)@.len() && old(queue)@[i] == r && final(queue)@ == old(queue)@.remove(i),
        forall|j: int| 0 <= j < old(queue)@.len() ==> r.0 <= #[trigger] old(queue)@[j].0,
{
    let mut best: usize = 0;
    let mut i: usize = 1;
    while i < queue.len()
        invariant
            queue@ == old(queue)@,
            0 <= best < i <= queue@.len(),
            forall|j: int| 0 <= j < i ==> queue@[best as int].0 <= #[trigger] queue@[j].0,
        decreases queue@.len() - i,
    {
        match queue[i].cmp(&queue[best]) {
            core::cmp::Ordering::Greater => {
                best = i;
            },
            _ => {},
        }
        i = i + 1;
    }
    queue.remove(best)
}


pub open spec fn opt_view(n: Option<&Node>) -> Option<NodeView> {
    match n {
        Some(x) => Some(x@),
        None => None,
    }
}

/// Every recorded route is a route of the graph from the start and costs what
/// its entry says; every node but the start has at least one. The start's
/// entry is the empty route at cost zero.
pub open spec fn sound_scores<C: EdgeCost>(
    c: &C,
    g: Seq<EdgeView>,
    s: NodeView,
    d: Map<NodeView, PathsView>,
) -> bool {
    &&& d.contains_key(s)
    &&& d[s] == PathsView { paths: Seq::empty(), cost: 0 }
    &&& forall|u: NodeView| #[trigger] d.contains_key(u) && u != s ==> d[u].paths.len() > 0
    &&& forall|u: NodeView, k: int|
        d.contains_key(u) && 0 <= k < d[u].paths.len() ==> is_walk(g, s, u, #[trigger] d[u].paths[k])
    &&& forall|u: NodeView, k: int|
        d.contains_key(u) && 0 <= k < d[u].paths.len() ==> clamp(walk_cost(c, #[trigger] d[u].paths[k])) == d[u].cost
}

pub proof fn lemma_walk_push<C: EdgeCost>(c: &C, g: Seq<EdgeView>, s: NodeView, u: NodeView, p: Seq<EdgeView>, e: EdgeView)
    requires
        is_walk(g, s, u, p),
        g.contains(e),
        e.from == u,
    ensures
        is_walk(g, s, e.to, p.push(e)),
        walk_cost(c, p.push(e)) == walk_cost(c, p) + c.weight(e),
{
    let q = p.push(e);
    assert(q.drop_last() =~= p);
    assert forall|i: int| 0 <= i < q.len() implies g.contains(#[trigger] q[i]) by {
        if i < p.len() {
            assert(q[i] == p[i]);
        }
    }
    assert forall|i: int| 0 <= i < q.len() - 1 implies (#[trigger] q[i]).to == q[i + 1].from by {
        assert(q[i] == p[i]);
        if i < p.len() - 1 {
            assert(q[i + 1] == p[i + 1]);
        }
    }
}

pub proof fn lemma_walk_drop_last(g: Seq<EdgeView>, s: NodeView, u: NodeView, p: Seq<EdgeView>)
    requires
        is_walk(g, s, u, p),
        p.len() > 0,
    ensures
        is_walk(g, s, p.last().from, p.drop_last()),
        g.contains(p.last()),
{
    let q = p.drop_last();
    assert(g.contains(p[p.len() - 1]));
    if q.len() > 0 {
        assert(p[p.len() - 2].to == p[p.len() - 1].from);
        assert(q.last() == p[p.len() - 2]);
    }
    assert forall|i: int| 0 <= i < q.len() implies g.contains(#[trigger] q[i]) by {
        assert(q[i] == p[i]);
    }
    assert forall|i: int| 0 <= i < q.len() - 1 implies (#[trigger] q[i]).to == q[i + 1].from by {
        assert(q[i] == p[i]);
        assert(q[i + 1] == p[i + 1]);
    }
}

/// A set of nodes that holds the start and every edge's end whose origin it
/// holds contains every node reachable from the start.
pub proof fn lemma_closed_holds_reachable(g: Seq<EdgeView>, s: NodeView, d: Set<NodeView>, t: NodeView, p: Seq<EdgeView>)
    requires
        d.contains(s),
        forall|e: EdgeView| g.contains(e) && d.contains(e.from) ==> d.contains(e.to),
        is_walk(g, s, t, p),
    ensures
        d.contains(t),
    decreases p.len(),
{
    if p.len() > 0 {
        lemma_walk_drop_last(g, s, t, p);
        lemma_closed_holds_reachable(g, s, d, p.last().from, p.drop_last());
    }
}

fn contains_node(v: &Vec<Node>, n: &Node) -> (r: bool)
    ensures
        r == exists|i: int| 0 <= i < v@.len() && v@[i]@ == n@,
{
    let mut i: usize = 0;
    while i < v.len()
        invariant
            0 <= i <= v@.len(),
            forall|j: int| 0 <= j < i ==> v@[j]@ != n@,
        decreases v@.len() - i,
    {
        if v[i].same(n) {
            return true;
        }
        i = i + 1;
    }
    false
}

fn is_target(target: Option<&Node>, n: &Node) -> (r: bool)
    ensures
        r == (opt_view(target) == Some(n@)),
{
    match target {
        Some(t) => t.same(n),
        None => false,
    }
}

pub open spec fn graph_nodes(g: Seq<EdgeView>, s: NodeView) -> Set<NodeView> {
    g.map_values(|e: EdgeView| e.to).to_set().insert(s)
}

proof fn lemma_edge_end_in_nodes(g: Seq<EdgeView>, s: NodeView, e: EdgeView)
    requires
        g.contains(e),
    ensures
        graph_nodes(g, s).contains(e.to),
{
    let i = choose|i: int| 0 <= i < g.len() && g[i] == e;
    assert(g.map_values(|e: EdgeView| e.to)[i] == e.to);
}

/// Some queue entry holds `n` at a cost of at most `b`.
pub open spec fn queued_within(q: Seq<MinScored>, n: NodeView, b: nat) -> bool {
    exists|k: int| 0 <= k < q.len() && q[k].1@ == n && q[k].0 <= b
}

/// The state of a search without target once the nodes of `vis` are
/// expanded: their costs are final and no greater than `floor`, every queue
/// entry costs at least `floor` and at least its node's cost, and every edge
/// out of `vis` into a node not in `done` is relaxed in the queue.
pub open spec fn settled<C: EdgeCost>(
    c: &C,
    g: Seq<EdgeView>,
    s: NodeView,
    d: Map<NodeView, PathsView>,
    vis: Set<NodeView>,
    done: Set<NodeView>,
    q: Seq<MinScored>,
    floor: nat,
) -> bool {
    &&& forall|v: NodeView| #[trigger] vis.contains(v) ==> d[v].cost <= floor
    &&& forall|i: int| #![trigger q[i]] 0 <= i < q.len() ==> floor <= q[i].0 && d[q[i].1@].cost <= q[i].0
    &&& forall|v: NodeView, p: Seq<EdgeView>|
        vis.contains(v) && #[trigger] is_walk(g, s, v, p) ==> d[v].cost <= clamp(walk_cost(c, p))
    &&& forall|i: int| #![trigger g[i]]
        0 <= i < g.len() && vis.contains(g[i].from) && !done.contains(g[i].to) && g[i].to != s
            ==> queued_within(q, g[i].to, clamp(d[g[i].from].cost + c.weight(g[i])))
}

/// The cheapest queue entry bounds the cost of every route to a node not yet
/// expanded.
#[verifier::rlimit(40)]
proof fn lemma_pop_optimal<C: EdgeCost>(
    c: &C,
    g: Seq<EdgeView>,
    s: NodeView,
    d: Map<NodeView, PathsView>,
    vis: Set<NodeView>,
    q: Seq<MinScored>,
    floor: nat,
    k: nat,
    x: NodeView,
    p: Seq<EdgeView>,
)
    requires
        is_walk(g, s, x, p),
        !vis.contains(x),
        vis.contains(s),
        forall|i: int| 0 <= i < q.len() ==> k <= #[trigger] q[i].0,
        settled(c, g, s, d, vis, vis, q, floor),
    ensures
        k <= clamp(walk_cost(c, p)),
    decreases p.len(),
{
    let e = p.last();
    let y = e.from;
    let p2 = p.drop_last();
    lemma_walk_drop_last(g, s, x, p);
    assert(walk_cost(c, p) == walk_cost(c, p2) + c.weight(e));
    if vis.contains(y) {
        let i = choose|i: int| 0 <= i < g.len() && g[i] == e;
        assert(g[i] == e);
        assert(queued_within(q, e.to, clamp(d[y].cost + c.weight(e))));
        let kk = choose|kk: int| 0 <= kk < q.len() && q[kk].1@ == e.to && q[kk].0 <= clamp(d[y].cost + c.weight(e));
        assert(k <= q[kk].0);
        assert(is_walk(g, s, y, p2));
        assert(d[y].cost <= clamp(walk_cost(c, p2)));
        lemma_clamp_add(walk_cost(c, p2), c.weight(e));
        assert(clamp(d[y].cost + c.weight(e)) <= clamp(clamp(walk_cost(c, p2)) + c.weight(e)));
    } else {
        lemma_pop_optimal(c, g, s, d, vis, q, floor, k, y, p2);
    }
}

proof fn lemma_queued_remove(q: Seq<MinScored>, i: int, n: NodeView, b: nat)
    requires
        0 <= i < q.len(),
        queued_within(q, n, b),
        q[i].1@ != n,
    ensures
        queued_within(q.remove(i), n, b),
{
    let k = choose|k: int| 0 <= k < q.len() && q[k].1@ == n && q[k].0 <= b;
    if k < i {
        assert(q.remove(i)[k] == q[k]);
    } else {
        assert(q.remove(i)[k - 1] == q[k]);
    }
}

proof fn lemma_queued_push(q: Seq<MinScored>, x: MinScored, n: NodeView, b: nat)
    requires
        queued_within(q, n, b),
    ensures
        queued_within(q.push(x), n, b),
{
    let k = choose|k: int| 0 <= k < q.len() && q[k].1@ == n && q[k].0 <= b;
    assert(q.push(x)[k] == q[k]);
}

/// Taking an entry out of the queue leaves the search settled, with the
/// entry's node counted as done.
proof fn lemma_settled_after_pop<C: EdgeCost>(
    c: &C,
    g: Seq<EdgeView>,
    s: NodeView,
    d: Map<NodeView, PathsView>,
    vis: Set<NodeView>,
    done: Set<NodeView>,
    q: Seq<MinScored>,
    pi: int,
    floor: nat,
    f2: nat,
)
    requires
        settled(c, g, s, d, vis, done, q, floor),
        0 <= pi < q.len(),
        floor <= f2,
        forall|i: int| 0 <= i < q.len() && i != pi ==> f2 <= #[trigger] q[i].0,
    ensures
        settled(c, g, s, d, vis, done.insert(q[pi].1@), q.remove(pi), f2),
{
    let q2 = q.remove(pi);
    assert forall|i: int| #![trigger q2[i]] 0 <= i < q2.len() implies f2 <= q2[i].0 && d[q2[i].1@].cost <= q2[i].0 by {
        if i < pi {
            assert(q2[i] == q[i]);
        } else {
            assert(q2[i] == q[i + 1]);
        }
    }
    assert forall|i: int| #![trigger g[i]]
        0 <= i < g.len() && vis.contains(g[i].from) && !done.insert(q[pi].1@).contains(g[i].to) && g[i].to != s
            implies queued_within(q2, g[i].to, clamp(d[g[i].from].cost + c.weight(g[i]))) by {
        lemma_queued_remove(q, pi, g[i].to, clamp(d[g[i].from].cost + c.weight(g[i])));
    }
}

/// Recording a cost for `n` that is no greater than before, and unchanged for
/// an expanded node, and queueing it keeps the search settled.
proof fn lemma_settled_after_relax<C: EdgeCost>(
    c: &C,
    g: Seq<EdgeView>,
    s: NodeView,
    d: Map<NodeView, PathsView>,
    vis: Set<NodeView>,
    done: Set<NodeView>,
    q: Seq<MinScored>,
    floor: nat,
    n: NodeView,
    v: PathsView,
    entry: MinScored,
)
    requires
        settled(c, g, s, d, vis, done, q, floor),
        forall|i: int| 0 <= i < q.len() ==> d.contains_key(#[trigger] q[i].1@),
        d.contains_key(n) ==> v.cost <= d[n].cost,
        vis.contains(n) ==> d.contains_key(n) && v.cost == d[n].cost,
        floor <= v.cost,
        entry.1@ == n,
        entry.0 == v.cost,
    ensures
        settled(c, g, s, d.insert(n, v), vis, done, q.push(entry), floor),
{
    let d2 = d.insert(n, v);
    let q2 = q.push(entry);
    assert forall|i: int| #![trigger q2[i]] 0 <= i < q2.len() implies floor <= q2[i].0 && d2[q2[i].1@].cost <= q2[i].0 by {
        if i < q.len() {
            assert(q2[i] == q[i]);
            assert(d.contains_key(q[i].1@));
        }
    }
    assert forall|i: int| #![trigger g[i]]
        0 <= i < g.len() && vis.contains(g[i].from) && !done.contains(g[i].to) && g[i].to != s
            implies queued_within(q2, g[i].to, clamp(d2[g[i].from].cost + c.weight(g[i]))) by {
        lemma_queued_push(q, entry, g[i].to, clamp(d[g[i].from].cost + c.weight(g[i])));
    }
    assert forall|u: NodeView, p: Seq<EdgeView>|
        vis.contains(u) && #[trigger] is_walk(g, s, u, p) implies d2[u].cost <= clamp(walk_cost(c, p)) by {
        assert(d[u].cost <= clamp(walk_cost(c, p)));
    }
}

/// Every edge of `g` weighs at least one.
pub open spec fn positive_weights<C: EdgeCost>(c: &C, g: Seq<EdgeView>) -> bool {
    forall|e: EdgeView| g.contains(e) ==> #[trigger] c.weight(e) >= 1
}

/// The routes an entry stands for: its routes, or the empty route when it
/// has none (the start's entry).
pub open spec fn routes(ps: PathsView) -> Seq<Seq<EdgeView>> {
    if ps.paths.len() == 0 {
        seq![Seq::<EdgeView>::empty()]
    } else {
        ps.paths
    }
}

/// Every route to `v` of exactly the entry's cost, below the largest word,
/// is among the entry's routes.
pub open spec fn all_ties<C: EdgeCost>(c: &C, g: Seq<EdgeView>, s: NodeView, v: NodeView, ps: PathsView) -> bool {
    forall|q: Seq<EdgeView>|
        #[trigger] is_walk(g, s, v, q) && walk_cost(c, q) == ps.cost && walk_cost(c, q) < usize::MAX
            ==> routes(ps).contains(q)
}

/// Each edge `e` out of an expanded node bounds the cost of its end, and when
/// it meets that cost, the routes to its origin extended by `e` are recorded
/// at its end. With positive weights, the expanded nodes have all their ties.
pub open spec fn tied<C: EdgeCost>(c: &C, g: Seq<EdgeView>, s: NodeView, d: Map<NodeView, PathsView>, vis: Set<NodeView>) -> bool {
    &&& forall|e: EdgeView|
        #[trigger] g.contains(e) && vis.contains(e.from) && e.to != s ==> d[e.to].cost <= clamp(d[e.from].cost + c.weight(e))
    &&& positive_weights(c, g) ==> forall|e: EdgeView, p: Seq<EdgeView>|
        #![trigger g.contains(e), routes(d[e.from]).contains(p)]
        g.contains(e) && vis.contains(e.from) && e.to != s && routes(d[e.from]).contains(p)
            && d[e.to].cost == d[e.from].cost + c.weight(e) ==> d[e.to].paths.contains(p.push(e))
    &&& positive_weights(c, g) ==> forall|v: NodeView| #[trigger] vis.contains(v) ==> all_ties(c, g, s, v, d[v])
}

/// The edges of `es`, all leaving a node whose routes were `fp`, are relaxed
/// as `tied` says.
pub open spec fn relaxed_from<C: EdgeCost>(c: &C, s: NodeView, d: Map<NodeView, PathsView>, fp: PathsView, es: Seq<EdgeView>) -> bool {
    &&& forall|i: int| #![trigger es[i]] 0 <= i < es.len() && es[i].to != s ==> d[es[i].to].cost <= clamp(fp.cost + c.weight(es[i]))
    &&& forall|i: int, p: Seq<EdgeView>| #![trigger es[i], routes(fp).contains(p)]
        0 <= i < es.len() && es[i].to != s && routes(fp).contains(p) && d[es[i].to].cost == fp.cost + c.weight(es[i])
            ==> d[es[i].to].paths.contains(p.push(es[i]))
}

/// Every recorded cost fits in a word.
pub open spec fn costs_fit(d: Map<NodeView, PathsView>) -> bool {
    forall|u: NodeView| #[trigger] d.contains_key(u) ==> d[u].cost <= usize::MAX
}

/// Extending the routes of an entry by `e` gives each of them extended.
proof fn lemma_extend_contains(ps: PathsView, e: EdgeView, p: Seq<EdgeView>)
    requires
        routes(ps).contains(p),
    ensures
        extend_all(ps.paths, e).contains(p.push(e)),
{
    let k = choose|k: int| 0 <= k < routes(ps).len() && routes(ps)[k] == p;
    if ps.paths.len() == 0 {
        assert(p =~= Seq::<EdgeView>::empty());
        assert(extend_all(ps.paths, e)[0] =~= p.push(e));
    } else {
        assert(extend_all(ps.paths, e)[k] == p.push(e));
    }
}

/// Recording a cost for `n` no greater than before, keeping the routes when
/// the cost stays, and keeping an expanded node's entry, keeps `tied`.
proof fn lemma_tied_after_relax<C: EdgeCost>(
    c: &C,
    g: Seq<EdgeView>,
    s: NodeView,
    d: Map<NodeView, PathsView>,
    vis: Set<NodeView>,
    n: NodeView,
    v: PathsView,
)
    requires
        tied(c, g, s, d, vis),
        costs_fit(d),
        v.cost <= usize::MAX,
        forall|e: EdgeView| #[trigger] g.contains(e) && vis.contains(e.from) ==> d.contains_key(e.to),
        forall|k: NodeView| #[trigger] vis.contains(k) ==> d.contains_key(k),
        n != s,
        d.contains_key(n) ==> v.cost <= d[n].cost,
        d.contains_key(n) && v.cost == d[n].cost ==> forall|p: Seq<EdgeView>| d[n].paths.contains(p) ==> #[trigger] v.paths.contains(p),
        vis.contains(n) ==> v.cost == d[n].cost,
        positive_weights(c, g) && vis.contains(n) && d[n].cost < usize::MAX ==> v == d[n],
    ensures
        tied(c, g, s, d.insert(n, v), vis),
{
    let d2 = d.insert(n, v);
    assert forall|e: EdgeView|
        #[trigger] g.contains(e) && vis.contains(e.from) && e.to != s implies d2[e.to].cost <= clamp(d2[e.from].cost + c.weight(e)) by {
        assert(d.contains_key(e.to));
        assert(d.contains_key(e.from));
    }
    if positive_weights(c, g) {
        assert forall|e: EdgeView, p: Seq<EdgeView>|
            #![trigger g.contains(e), routes(d2[e.from]).contains(p)]
            g.contains(e) && vis.contains(e.from) && e.to != s && routes(d2[e.from]).contains(p)
                && d2[e.to].cost == d2[e.from].cost + c.weight(e) implies d2[e.to].paths.contains(p.push(e)) by {
            assert(d.contains_key(e.to));
            assert(d.contains_key(e.from));
            assert(c.weight(e) >= 1);
            assert(d[e.from].cost < usize::MAX);
            assert(d2[e.from] == d[e.from]);
            assert(g.contains(e) && routes(d[e.from]).contains(p));
            if e.to == n {
                assert(d[e.to].cost <= clamp(d[e.from].cost + c.weight(e)));
            }
        }
        assert forall|u: NodeView| #[trigger] vis.contains(u) implies all_ties(c, g, s, u, d2[u]) by {
            assert(all_ties(c, g, s, u, d[u]));
            if u == n && d[n].cost == usize::MAX {
                assert forall|q: Seq<EdgeView>|
                    #[trigger] is_walk(g, s, u, q) && walk_cost(c, q) == d2[u].cost && walk_cost(c, q) < usize::MAX
                        implies routes(d2[u]).contains(q) by {}
            }
        }
    }
}

/// Relaxing one more node keeps the earlier relaxed edges relaxed.
proof fn lemma_relaxed_after_relax<C: EdgeCost>(
    c: &C,
    s: NodeView,
    d: Map<NodeView, PathsView>,
    fp: PathsView,
    es: Seq<EdgeView>,
    n: NodeView,
    v: PathsView,
)
    requires
        relaxed_from(c, s, d, fp, es),
        forall|i: int| 0 <= i < es.len() ==> d.contains_key(#[trigger] es[i].to),
        d.contains_key(n) ==> v.cost <= d[n].cost,
        d.contains_key(n) && v.cost == d[n].cost ==> forall|p: Seq<EdgeView>| d[n].paths.contains(p) ==> #[trigger] v.paths.contains(p),
    ensures
        relaxed_from(c, s, d.insert(n, v), fp, es),
{
    let d2 = d.insert(n, v);
    assert forall|i: int, p: Seq<EdgeView>| #![trigger es[i], routes(fp).contains(p)]
        0 <= i < es.len() && es[i].to != s && routes(fp).contains(p) && d2[es[i].to].cost == fp.cost + c.weight(es[i])
            implies d2[es[i].to].paths.contains(p.push(es[i])) by {
        assert(d.contains_key(es[i].to));
        assert(d[es[i].to].cost <= clamp(fp.cost + c.weight(es[i])));
    }
    assert forall|i: int| #![trigger es[i]] 0 <= i < es.len() && es[i].to != s implies d2[es[i].to].cost <= clamp(fp.cost + c.weight(es[i])) by {
        assert(d.contains_key(es[i].to));
    }
}

proof fn lemma_relaxed_push<C: EdgeCost>(c: &C, s: NodeView, d: Map<NodeView, PathsView>, fp: PathsView, es: Seq<EdgeView>, e: EdgeView)
    requires
        relaxed_from(c, s, d, fp, es),
        e.to != s ==> d[e.to].cost <= clamp(fp.cost + c.weight(e)),
        e.to != s ==> forall|p: Seq<EdgeView>|
            routes(fp).contains(p) && d[e.to].cost == fp.cost + c.weight(e) ==> #[trigger] d[e.to].paths.contains(p.push(e)),
    ensures
        relaxed_from(c, s, d, fp, es.push(e)),
{
    let es1 = es.push(e);
    assert forall|i: int| #![trigger es1[i]] 0 <= i < es1.len() && es1[i].to != s implies d[es1[i].to].cost <= clamp(fp.cost + c.weight(es1[i])) by {
        if i < es.len() {
            assert(es1[i] == es[i]);
        }
    }
    assert forall|i: int, p: Seq<EdgeView>| #![trigger es1[i], routes(fp).contains(p)]
        0 <= i < es1.len() && es1[i].to != s && routes(fp).contains(p) && d[es1[i].to].cost == fp.cost + c.weight(es1[i])
            implies d[es1[i].to].paths.contains(p.push(es1[i])) by {
        if i < es.len() {
            assert(es1[i] == es[i]);
        }
    }
}

/// Once every edge out of `x` is relaxed, `x` can count as expanded.
proof fn lemma_tied_add<C: EdgeCost>(
    c: &C,
    g: Seq<EdgeView>,
    s: NodeView,
    d: Map<NodeView, PathsView>,
    vis: Set<NodeView>,
    x: NodeView,
    fp: PathsView,
    es: Seq<EdgeView>,
)
    requires
        tied(c, g, s, d, vis),
        relaxed_from(c, s, d, fp, es),
        es == out_edges(g, x),
        d.contains_key(x),
        d[x].cost == fp.cost,
        positive_weights(c, g) && fp.cost < usize::MAX ==> d[x] == fp,
        positive_weights(c, g) ==> all_ties(c, g, s, x, fp),
        costs_fit(d),
        forall|e: EdgeView| #[trigger] g.contains(e) && e.from == x ==> d.contains_key(e.to),
    ensures
        tied(c, g, s, d, vis.insert(x)),
{
    let v2 = vis.insert(x);
    assert forall|e: EdgeView|
        #[trigger] g.contains(e) && v2.contains(e.from) && e.to != s implies d[e.to].cost <= clamp(d[e.from].cost + c.weight(e)) by {
        if e.from == x {
            lemma_out_edges_contains(g, x, e);
            let i = choose|i: int| 0 <= i < es.len() && es[i] == e;
            assert(es[i] == e);
        }
    }
    if positive_weights(c, g) {
        assert forall|e: EdgeView, p: Seq<EdgeView>|
            #![trigger g.contains(e), routes(d[e.from]).contains(p)]
            g.contains(e) && v2.contains(e.from) && e.to != s && routes(d[e.from]).contains(p)
                && d[e.to].cost == d[e.from].cost + c.weight(e) implies d[e.to].paths.contains(p.push(e)) by {
            if e.from == x {
                assert(d.contains_key(e.to));
                assert(c.weight(e) >= 1);
                assert(fp.cost < usize::MAX);
                lemma_out_edges_contains(g, x, e);
                let i = choose|i: int| 0 <= i < es.len() && es[i] == e;
                assert(es[i] == e);
                assert(routes(fp).contains(p));
            } else {
                assert(vis.contains(e.from));
            }
        }
        assert forall|v: NodeView| #[trigger] v2.contains(v) implies all_ties(c, g, s, v, d[v]) by {
            if v == x && fp.cost == usize::MAX {
                assert forall|q: Seq<EdgeView>|
                    #[trigger] is_walk(g, s, v, q) && walk_cost(c, q) == d[v].cost && walk_cost(c, q) < usize::MAX
                        implies routes(d[v]).contains(q) by {}
            } else if v != x {
                assert(vis.contains(v));
            }
        }
    }
}

/// A non-empty route among an entry's routes is among its recorded routes.
pub proof fn lemma_routes_nonempty(ps: PathsView, q: Seq<EdgeView>)
    requires
        routes(ps).contains(q),
        q.len() > 0,
    ensures
        ps.paths.contains(q),
{
    if ps.paths.len() == 0 {
        let k = choose|k: int| 0 <= k < routes(ps).len() && routes(ps)[k] == q;
        assert(routes(ps)[k].len() == 0);
    }
}

/// A node leaving the queue at the least cost has all its ties recorded.
proof fn lemma_ties_at_pop<C: EdgeCost>(
    c: &C,
    g: Seq<EdgeView>,
    s: NodeView,
    d: Map<NodeView, PathsView>,
    vis: Set<NodeView>,
    q: Seq<MinScored>,
    floor: nat,
    k: nat,
    x: NodeView,
)
    requires
        positive_weights(c, g),
        tied(c, g, s, d, vis),
        settled(c, g, s, d, vis, vis, q, floor),
        sound_scores(c, g, s, d),
        forall|i: int| 0 <= i < q.len() ==> k <= #[trigger] q[i].0,
        d.contains_key(x),
        d[x].cost == k,
        !vis.contains(x),
        vis.contains(s) || x == s,
    ensures
        all_ties(c, g, s, x, d[x]),
{
    assert forall|w: Seq<EdgeView>|
        #[trigger] is_walk(g, s, x, w) && walk_cost(c, w) == d[x].cost && walk_cost(c, w) < usize::MAX
            implies routes(d[x]).contains(w) by {
        if w.len() == 0 {
            assert(x == s);
            assert(routes(d[x])[0] =~= w);
        } else {
            let e = w.last();
            let y = e.from;
            let w2 = w.drop_last();
            lemma_walk_drop_last(g, s, x, w);
            assert(walk_cost(c, w) == walk_cost(c, w2) + c.weight(e));
            assert(c.weight(e) >= 1);
            if x == s {
                assert(k == 0);
            }
            assert(vis.contains(s));
            if !vis.contains(y) {
                lemma_pop_optimal(c, g, s, d, vis, q, floor, k, y, w2);
            }
            assert(vis.contains(y));
            assert(d[x].cost <= clamp(d[y].cost + c.weight(e)));
            assert(is_walk(g, s, y, w2));
            assert(d[y].cost <= clamp(walk_cost(c, w2)));
            assert(d[y].cost == walk_cost(c, w2));
            assert(all_ties(c, g, s, y, d[y]));
            assert(routes(d[y]).contains(w2));
            assert(g.contains(e) && routes(d[y]).contains(w2));
            assert(w2.push(e) =~= w);
            assert(d[x].paths.contains(w));
        }
    }
}

/// Runs the search from `start`. With a target, the search stops when the
/// target comes out of the queue, its cost and routes then being final.
#[verifier::rlimit(100)]
fn search<C: EdgeCost>(graph: &Graph, start: &Node, target: Option<&Node>, cost: &C) -> (r: ScoreMap)
    ensures
        r.wf(),
        sound_scores(cost, graph@, start@, r@),
        opt_view(target) is None ==> forall|u: NodeView| reachable(graph@, start@, u) ==> #[trigger] r@.contains_key(u),
        opt_view(target) matches Some(t) ==> (reachable(graph@, start@, t) ==> r@.contains_key(t)),
        opt_view(target) is None ==> forall|u: NodeView, p: Seq<EdgeView>|
            r@.contains_key(u) && #[trigger] is_walk(graph@, start@, u, p) ==> r@[u].cost <= clamp(walk_cost(cost, p)),
        opt_view(target) matches Some(t) ==> (r@.contains_key(t) ==> forall|p: Seq<EdgeView>|
            #[trigger] is_walk(graph@, start@, t, p) ==> r@[t].cost <= clamp(walk_cost(cost, p))),
        positive_weights(cost, graph@) && opt_view(target) is None ==> forall|u: NodeView|
            #[trigger] r@.contains_key(u) ==> all_ties(cost, graph@, start@, u, r@[u]),
        positive_weights(cost, graph@) ==> (opt_view(target) matches Some(t) ==> (r@.contains_key(t) ==> all_ties(cost, graph@, start@, t, r@[t]))),
{
    let ghost g = graph@;
    let ghost s = start@;
    let ghost tv = opt_view(target);
    let ghost univ = graph_nodes(g, s);
    let zero = Paths { paths: Vec::new(), cost: 0 };
    let mut scores = ScoreMap::new(start.clone(), zero);
    proof {
        assert(scores@[s].paths =~= Seq::<Seq<EdgeView>>::empty());
    }
    let mut queue: Vec<MinScored> = Vec::new();
    queue.push(MinScored(0, start.clone()));
    let mut visited: Vec<Node> = Vec::new();
    let ghost mut vis: Set<NodeView> = Set::empty();
    let mut found: bool = false;
    let ghost mut floor: nat = 0;
    proof {
        assert(g.map_values(|e: EdgeView| e.to).to_set().finite());
        assert(queue@[0].1@ == s);
        assert forall|u: NodeView| #[trigger] scores@.contains_key(u) && !vis.contains(u) implies exists|i: int|
            0 <= i < queue@.len() && queue@[i].1@ == u && queue@[i].0 <= scores@[u].cost by {
            assert(u == s);
            assert(queue@[0].1@ == u);
        }
    }
    while !found && queue.len() > 0
        invariant
            g == graph@,
            s == start@,
            tv == opt_view(target),
            univ == graph_nodes(g, s),
            univ.finite(),
            scores.wf(),
            sound_scores(cost, g, s, scores@),
            forall|k: NodeView| vis.contains(k) <==> exists|i: int| 0 <= i < visited@.len() && visited@[i]@ == k,
            vis.subset_of(univ),
            forall|k: NodeView| #[trigger] vis.contains(k) ==> scores@.contains_key(k),
            forall|i: int| 0 <= i < queue@.len() ==> scores@.contains_key(#[trigger] queue@[i].1@) && univ.contains(queue@[i].1@),
            forall|e: EdgeView| #[trigger] g.contains(e) && vis.contains(e.from) ==> scores@.contains_key(e.to),
            !found ==> forall|u: NodeView| #[trigger] scores@.contains_key(u) && !vis.contains(u) ==> exists|i: int|
                0 <= i < queue@.len() && queue@[i].1@ == u && queue@[i].0 <= scores@[u].cost,
            found ==> (tv is Some && scores@.contains_key(tv.unwrap())),
            !vis.contains(s) ==> forall|i: int| 0 <= i < queue@.len() ==> #[trigger] queue@[i].1@ == s,
            !found ==> settled(cost, g, s, scores@, vis, vis, queue@, floor),
            tv is Some ==> !vis.contains(tv.unwrap()),
            found ==> forall|p: Seq<EdgeView>| #[trigger] is_walk(g, s, tv.unwrap(), p)
                ==> scores@[tv.unwrap()].cost <= clamp(walk_cost(cost, p)),
            costs_fit(scores@),
            tied(cost, g, s, scores@, vis),
            found && positive_weights(cost, g) ==> all_ties(cost, g, s, tv.unwrap(), scores@[tv.unwrap()]),
        ensures
            found || queue@.len() == 0,
        decreases univ.len() - vis.len(), queue@.len(),
    {
        let ghost q0 = queue@;
        let popped = pop_min(&mut queue);
        let ghost pi = choose|i: int| 0 <= i < q0.len() && q0[i] == popped && queue@ == q0.remove(i);
        let MinScored(_, cur) = popped;
        proof {
            assert(scores@.contains_key(q0[pi].1@));
            assert forall|i: int| 0 <= i < queue@.len() implies scores@.contains_key(#[trigger] queue@[i].1@) && univ.contains(queue@[i].1@) by {
                if i < pi {
                    assert(queue@[i] == q0[i]);
                } else {
                    assert(queue@[i] == q0[i + 1]);
                }
            }
            assert(q0[pi].1@ == cur@);
            assert forall|u: NodeView| #[trigger] scores@.contains_key(u) && !vis.contains(u) && u != cur@ implies exists|i: int|
                0 <= i < queue@.len() && queue@[i].1@ == u && queue@[i].0 <= scores@[u].cost by {
                let i = choose|i: int| 0 <= i < q0.len() && q0[i].1@ == u && q0[i].0 <= scores@[u].cost;
                if i < pi {
                    assert(queue@[i] == q0[i]);
                } else {
                    assert(i != pi);
                    assert(queue@[i - 1] == q0[i]);
                }
            }
            {
                assert forall|i: int| 0 <= i < q0.len() && i != pi implies popped.0 <= #[trigger] q0[i].0 by {}
                lemma_settled_after_pop(cost, g, s, scores@, vis, vis, q0, pi, floor, popped.0 as nat);
            }
            if !vis.contains(s) {
                assert(q0[pi].1@ == s);
            }
        }
        if contains_node(&visited, &cur) {
            proof {
                {
                    assert(vis.insert(cur@) =~= vis);
                    lemma_settled_after_pop(cost, g, s, scores@, vis, vis, q0, pi, floor, floor);
                }
            }
            continue;
        }
        if is_target(target, &cur) {
            proof {
                assert(!vis.contains(cur@));
                assert(scores@[cur@].cost <= q0[pi].0);
                let kk = choose|i: int| 0 <= i < q0.len() && q0[i].1@ == cur@ && q0[i].0 <= scores@[cur@].cost;
                assert(popped.0 <= q0[kk].0);
                assert forall|p: Seq<EdgeView>| #[trigger] is_walk(g, s, cur@, p) implies scores@[cur@].cost <= clamp(walk_cost(cost, p)) by {
                    if vis.contains(s) {
                        lemma_pop_optimal(cost, g, s, scores@, vis, q0, floor, popped.0 as nat, cur@, p);
                    } else {
                        assert(cur@ == s);
                    }
                }
                if positive_weights(cost, g) {
                    lemma_ties_at_pop(cost, g, s, scores@, vis, q0, floor, popped.0 as nat, cur@);
                }
            }
            found = true;
            continue;
        }
        let cur_paths = match scores.get(&cur) {
            Some(p) => p.clone(),
            None => Paths { paths: Vec::new(), cost: 0 },
        };
        let ghost cp = cur_paths@;
        let edges = get_edges(graph, &cur);
        proof {
            assert(!vis.contains(cur@));
            assert(cp == scores@[cur@]);
            if cp.paths.len() == 0 {
                assert(cur@ == s);
            }
            {
                assert(scores@[cur@].cost <= q0[pi].0);
                let kk = choose|i: int| 0 <= i < q0.len() && q0[i].1@ == cur@ && q0[i].0 <= scores@[cur@].cost;
                assert(popped.0 <= q0[kk].0);
                assert(cp.cost == popped.0);
                assert forall|p: Seq<EdgeView>| #[trigger] is_walk(g, s, cur@, p) implies cp.cost <= clamp(walk_cost(cost, p)) by {
                    if vis.contains(s) {
                        lemma_pop_optimal(cost, g, s, scores@, vis, q0, floor, popped.0 as nat, cur@, p);
                    } else {
                        assert(cur@ == s);
                    }
                }
                if positive_weights(cost, g) {
                    lemma_ties_at_pop(cost, g, s, scores@, vis, q0, floor, popped.0 as nat, cur@);
                }
            }
            assert(crate::entities::edges_view(edges@).take(0) =~= Seq::<EdgeView>::empty());
        }
        let mut j: usize = 0;
        while j < edges.len()
            invariant
                g == graph@,
                s == start@,
                tv == opt_view(target),
                univ == graph_nodes(g, s),
                scores.wf(),
                sound_scores(cost, g, s, scores@),
                crate::entities::edges_view(edges@) == out_edges(g, cur@),
                !vis.contains(cur@),
                tv != Some(cur@),
                scores@.contains_key(cur@),
                cp.paths.len() == 0 ==> cur@ == s && cp.cost == 0,
                forall|k: int| 0 <= k < cp.paths.len() ==> is_walk(g, s, cur@, #[trigger] cp.paths[k]) && clamp(walk_cost(cost, cp.paths[k])) == cp.cost,
                cur_paths@ == cp,
                forall|k: NodeView| #[trigger] vis.contains(k) ==> scores@.contains_key(k),
                forall|i: int| 0 <= i < queue@.len() ==> scores@.contains_key(#[trigger] queue@[i].1@) && univ.contains(queue@[i].1@),
                forall|e: EdgeView| #[trigger] g.contains(e) && vis.contains(e.from) ==> scores@.contains_key(e.to),
                forall|jj: int| 0 <= jj < j ==> scores@.contains_key(#[trigger] edges@[jj].to@),
                forall|u: NodeView| #[trigger] scores@.contains_key(u) && !vis.contains(u) && u != cur@ ==> exists|i: int|
                    0 <= i < queue@.len() && queue@[i].1@ == u && queue@[i].0 <= scores@[u].cost,
                settled(cost, g, s, scores@, vis, vis.insert(cur@), queue@, cp.cost),
                scores@[cur@].cost == cp.cost,
                forall|p: Seq<EdgeView>| #[trigger] is_walk(g, s, cur@, p) ==> cp.cost <= clamp(walk_cost(cost, p)),
                forall|jj: int|
                    0 <= jj < j && !vis.contains(#[trigger] edges@[jj].to@) && edges@[jj].to@ != cur@ && edges@[jj].to@ != s
                        ==> queued_within(queue@, edges@[jj].to@, clamp(cp.cost + cost.weight(edges@[jj]@))),
                j <= edges@.len(),
                costs_fit(scores@),
                tied(cost, g, s, scores@, vis),
                relaxed_from(cost, s, scores@, cp, crate::entities::edges_view(edges@).take(j as int)),
                positive_weights(cost, g) && cp.cost < usize::MAX ==> scores@[cur@] == cp,
                positive_weights(cost, g) ==> all_ties(cost, g, s, cur@, cp),
            decreases edges@.len() - j,
        {
            let edge = &edges[j];
            proof {
                assert(crate::entities::edges_view(edges@)[j as int] == edge@);
                assert(out_edges(g, cur@).contains(edge@));
                lemma_out_edges_contains(g, cur@, edge@);
                lemma_edge_end_in_nodes(g, s, edge@);
            }
            if !edge.to.same(start) {
                let w = cost.cost(edge);
                let tentative = cur_paths.cost.saturating_add(w);
                let mut np = cur_paths.clone();
                np.add_edge_to_paths(edge);
                np.cost = tentative;
                proof {
                    lemma_extend_sound(cost, g, s, cur@, cp, edge@, tentative as nat);
                }
                let ghost d0 = scores@;
                let ghost q1 = queue@;
                let ghost ql = queue@.len();
                match scores.find(&edge.to) {
                    None => {
                        scores.insert(edge.to.clone(), np);
                        queue.push(MinScored(tentative, edge.to.clone()));
                        proof {
                            lemma_sound_update(cost, g, s, d0, edge.to@, scores@[edge.to@]);
                            assert(queue@[ql as int].1@ == edge.to@);
                            assert(queue@[ql as int].0 == scores@[edge.to@].cost);
                        }
                    },
                    Some(i) => {
                        let prev = scores.paths_at(i).cost;
                        if prev == tentative {
                            let mut merged = scores.paths_at(i).clone();
                            let mut extra = np;
                            let ghost old_paths = merged@.paths;
                            merged.paths.append(&mut extra.paths);
                            merged.cost = prev;
                            proof {
                                assert(merged@.paths =~= old_paths + extend_all(cp.paths, edge@));
                                let ext = extend_all(cp.paths, edge@);
                                assert forall|x: Seq<EdgeView>| ext.contains(x) implies #[trigger] merged@.paths.contains(x) by {
                                    let k = choose|k: int| 0 <= k < ext.len() && ext[k] == x;
                                    assert(merged@.paths[old_paths.len() + k] == x);
                                }
                                assert forall|x: Seq<EdgeView>| old_paths.contains(x) implies #[trigger] merged@.paths.contains(x) by {
                                    let k = choose|k: int| 0 <= k < old_paths.len() && old_paths[k] == x;
                                    assert(merged@.paths[k] == x);
                                }
                            }
                            let mc = merged.cost;
                            scores.set(i, merged);
                            queue.push(MinScored(mc, edge.to.clone()));
                            proof {
                                lemma_sound_update(cost, g, s, d0, edge.to@, scores@[edge.to@]);
                                assert(queue@[ql as int].1@ == edge.to@);
                                assert(queue@[ql as int].0 == scores@[edge.to@].cost);
                            }
                        } else if prev > tentative {
                            scores.set(i, np);
                            queue.push(MinScored(tentative, edge.to.clone()));
                            proof {
                                    lemma_sound_update(cost, g, s, d0, edge.to@, scores@[edge.to@]);
                                assert(queue@[ql as int].1@ == edge.to@);
                                assert(queue@[ql as int].0 == scores@[edge.to@].cost);
                            }
                        }
                    },
                }
                proof {
                    {
                        let nx = edge.to@;
                        if queue@.len() > ql {
                            assert(scores@ =~= d0.insert(nx, scores@[nx]));
                            assert(queue@ =~= q1.push(queue@[ql as int]));
                            lemma_settled_after_relax(cost, g, s, d0, vis, vis.insert(cur@), q1, cp.cost, nx, scores@[nx], queue@[ql as int]);
                        }
                        assert forall|jj: int|
                            0 <= jj < j + 1 && !vis.contains(#[trigger] edges@[jj].to@) && edges@[jj].to@ != cur@ && edges@[jj].to@ != s
                                implies queued_within(queue@, edges@[jj].to@, clamp(cp.cost + cost.weight(edges@[jj]@))) by {
                            if jj < j {
                                if queue@.len() > ql {
                                    lemma_queued_push(q1, queue@[ql as int], edges@[jj].to@, clamp(cp.cost + cost.weight(edges@[jj]@)));
                                }
                            } else {
                                assert(edges@[jj] == *edge);
                                if queue@.len() > ql {
                                    assert(queue@[ql as int].1@ == nx);
                                } else {
                                    let i = choose|i: int| 0 <= i < q1.len() && q1[i].1@ == nx && q1[i].0 <= d0[nx].cost;
                                    assert(queue@[i] == q1[i]);
                                }
                            }
                        }
                    }
                    assert forall|u: NodeView| #[trigger] scores@.contains_key(u) && !vis.contains(u) && u != cur@ implies exists|i: int|
                        0 <= i < queue@.len() && queue@[i].1@ == u && queue@[i].0 <= scores@[u].cost by {
                        if u != edge.to@ || queue@.len() == ql {
                            let i = choose|i: int| 0 <= i < q1.len() && q1[i].1@ == u && q1[i].0 <= d0[u].cost;
                            assert(queue@[i] == q1[i]);
                        } else {
                            assert(queue@[ql as int].1@ == u);
                        }
                    }
                }
                proof {
                    let nx = edge.to@;
                    let es = crate::entities::edges_view(edges@).take(j as int);
                    assert(crate::entities::edges_view(edges@).take(j + 1) =~= es.push(edge@));
                    assert forall|i: int| 0 <= i < es.len() implies d0.contains_key(#[trigger] es[i].to) by {
                        assert(es[i] == edges@[i]@);
                    }
                    if positive_weights(cost, g) {
                        assert(cost.weight(edge@) >= 1);
                    }
                    if queue@.len() > ql {
                        lemma_tied_after_relax(cost, g, s, d0, vis, nx, scores@[nx]);
                        lemma_relaxed_after_relax(cost, s, d0, cp, es, nx, scores@[nx]);
                    }
                    assert forall|p: Seq<EdgeView>|
                        routes(cp).contains(p) && scores@[nx].cost == cp.cost + cost.weight(edge@)
                            implies #[trigger] scores@[nx].paths.contains(p.push(edge@)) by {
                        lemma_extend_contains(cp, edge@, p);
                    }
                    lemma_relaxed_push(cost, s, scores@, cp, es, edge@);
                }
            } else {
                proof {
                    let es = crate::entities::edges_view(edges@).take(j as int);
                    assert(crate::entities::edges_view(edges@).take(j + 1) =~= es.push(edge@));
                    lemma_relaxed_push(cost, s, scores@, cp, es, edge@);
                }
            }
            j = j + 1;
        }
        proof {
            assert forall|e: EdgeView| #[trigger] g.contains(e) && vis.insert(cur@).contains(e.from) implies scores@.contains_key(e.to) by {
                if e.from == cur@ {
                    lemma_out_edges_contains(g, cur@, e);
                    let jj = choose|jj: int| 0 <= jj < out_edges(g, cur@).len() && out_edges(g, cur@)[jj] == e;
                    assert(crate::entities::edges_view(edges@)[jj] == edges@[jj]@);
                    assert(scores@.contains_key(edges@[jj].to@));
                }
            }
            vstd::set_lib::lemma_len_subset(vis, univ);
            vstd::set_lib::lemma_len_subset(vis.insert(cur@), univ);
            assert(j == edges@.len());
            assert(crate::entities::edges_view(edges@).take(j as int) =~= crate::entities::edges_view(edges@));
            assert(relaxed_from(cost, s, scores@, cp, crate::entities::edges_view(edges@)));
            assert forall|e: EdgeView| #[trigger] g.contains(e) && e.from == cur@ implies scores@.contains_key(e.to) by {
                assert(vis.insert(cur@).contains(e.from));
            }
            lemma_tied_add(cost, g, s, scores@, vis, cur@, cp, crate::entities::edges_view(edges@));
            {
                let vis2 = vis.insert(cur@);
                assert forall|v: NodeView| #[trigger] vis2.contains(v) implies scores@[v].cost <= cp.cost by {
                    if v != cur@ {
                        assert(vis.contains(v));
                    }
                }
                assert forall|v: NodeView, p: Seq<EdgeView>|
                    vis2.contains(v) && #[trigger] is_walk(g, s, v, p) implies scores@[v].cost <= clamp(walk_cost(cost, p)) by {
                    if v != cur@ {
                        assert(vis.contains(v));
                    }
                }
                assert forall|i: int| #![trigger g[i]]
                    0 <= i < g.len() && vis2.contains(g[i].from) && !vis2.contains(g[i].to) && g[i].to != s
                        implies queued_within(queue@, g[i].to, clamp(scores@[g[i].from].cost + cost.weight(g[i]))) by {
                    if g[i].from == cur@ {
                        assert(g.contains(g[i]));
                        lemma_out_edges_contains(g, cur@, g[i]);
                        let jj = choose|jj: int| 0 <= jj < out_edges(g, cur@).len() && out_edges(g, cur@)[jj] == g[i];
                        assert(crate::entities::edges_view(edges@)[jj] == edges@[jj]@);
                        assert(edges@[jj]@ == g[i]);
                        assert(!vis.contains(edges@[jj].to@));
                    } else {
                        assert(vis.contains(g[i].from));
                    }
                }
                assert(settled(cost, g, s, scores@, vis2, vis2, queue@, cp.cost));
            }
            floor = cp.cost;
        }
        let ghost old_visited = visited@;
        visited.push(cur);
        proof {
            vis = vis.insert(cur@);
            assert forall|k: NodeView| vis.contains(k) <==> exists|i: int| 0 <= i < visited@.len() && visited@[i]@ == k by {
                if vis.contains(k) && k != cur@ {
                    let i = choose|i: int| 0 <= i < old_visited.len() && old_visited[i]@ == k;
                    assert(visited@[i] == old_visited[i]);
                }
                if k == cur@ {
                    assert(visited@[visited@.len() - 1]@ == k);
                }
            }
        }
    }
    proof {
        if tv is None {
            assert forall|u: NodeView| reachable(g, s, u) implies #[trigger] scores@.contains_key(u) by {
                let p = choose|p: Seq<EdgeView>| is_walk(g, s, u, p);
                lemma_closed_holds_reachable(g, s, scores@.dom(), u, p);
            }
            if positive_weights(cost, g) {
                assert forall|u: NodeView| #[trigger] scores@.contains_key(u) implies all_ties(cost, g, s, u, scores@[u]) by {
                    if !vis.contains(u) {
                        let i = choose|i: int| 0 <= i < queue@.len() && queue@[i].1@ == u && queue@[i].0 <= scores@[u].cost;
                    }
                }
            }
        }
        if tv is Some {
            let t = tv.unwrap();
            if !found && scores@.contains_key(t) {
                assert(!vis.contains(t));
                let i = choose|i: int| 0 <= i < queue@.len() && queue@[i].1@ == t && queue@[i].0 <= scores@[t].cost;
            }
            if !found && reachable(g, s, t) {
                let p = choose|p: Seq<EdgeView>| is_walk(g, s, t, p);
                lemma_closed_holds_reachable(g, s, scores@.dom(), t, p);
            }
        }
    }
    scores
}

proof fn lemma_clamp_add(x: nat, w: nat)
    ensures
        clamp(x + w) == clamp(clamp(x) + w),
{
}

/// Extending the routes to `u` by an edge leaving `u` gives routes to the
/// edge's end, each costing the extended cost.
proof fn lemma_extend_sound<C: EdgeCost>(c: &C, g: Seq<EdgeView>, s: NodeView, u: NodeView, cp: PathsView, e: EdgeView, t: nat)
    requires
        g.contains(e),
        e.from == u,
        c.weight(e) <= usize::MAX,
        cp.cost <= usize::MAX,
        t == (if cp.cost + c.weight(e) > usize::MAX { usize::MAX as nat } else { cp.cost + c.weight(e) }),
        cp.paths.len() == 0 ==> u == s && cp.cost == 0,
        forall|k: int| 0 <= k < cp.paths.len() ==> is_walk(g, s, u, #[trigger] cp.paths[k]) && clamp(walk_cost(c, cp.paths[k])) == cp.cost,
    ensures
        extend_all(cp.paths, e).len() > 0,
        forall|k: int| 0 <= k < extend_all(cp.paths, e).len() ==> is_walk(g, s, e.to, #[trigger] extend_all(cp.paths, e)[k])
            && clamp(walk_cost(c, extend_all(cp.paths, e)[k])) == t,
{
    let ext = extend_all(cp.paths, e);
    assert forall|k: int| 0 <= k < ext.len() implies is_walk(g, s, e.to, #[trigger] ext[k])
        && clamp(walk_cost(c, ext[k])) == t by {
        if cp.paths.len() == 0 {
            let p = Seq::<EdgeView>::empty();
            assert(is_walk(g, s, u, p));
            lemma_walk_push(c, g, s, u, p, e);
            assert(p.push(e) =~= seq![e]);
        } else {
            let p = cp.paths[k];
            lemma_walk_push(c, g, s, u, p, e);
            lemma_clamp_add(walk_cost(c, p), c.weight(e));
        }
    }
}

proof fn lemma_sound_update<C: EdgeCost>(
    c: &C,
    g: Seq<EdgeView>,
    s: NodeView,
    d: Map<NodeView, PathsView>,
    n: NodeView,
    v: PathsView,
)
    requires
        sound_scores(c, g, s, d),
        n != s,
        v.paths.len() > 0,
        forall|k: int| 0 <= k < v.paths.len() ==> is_walk(g, s, n, #[trigger] v.paths[k]),
        forall|k: int| 0 <= k < v.paths.len() ==> clamp(walk_cost(c, #[trigger] v.paths[k])) == v.cost,
    ensures
        sound_scores(c, g, s, d.insert(n, v)),
{
}

pub open spec fn owned_view(n: Option<Node>) -> Option<NodeView> {
    match n {
        Some(x) => Some(x@),
        None => None,
    }
}

/// The empty route at no cost: what the start has.
pub open spec fn empty_paths() -> PathsView {
    PathsView { paths: Seq::empty(), cost: 0 }
}

/// The routes recorded for `u` are routes of `g` from `s` to `u`, at least
/// one unless `u` is `s`.
pub open spec fn routes_to(g: Seq<EdgeView>, s: NodeView, u: NodeView, ps: PathsView) -> bool {
    &&& u != s ==> ps.paths.len() > 0
    &&& forall|k: int| 0 <= k < ps.paths.len() ==> is_walk(g, s, u, #[trigger] ps.paths[k])
}

proof fn lemma_recorded_is_reachable<C: EdgeCost>(c: &C, g: Seq<EdgeView>, s: NodeView, d: Map<NodeView, PathsView>, u: NodeView)
    requires
        sound_scores(c, g, s, d),
        d.contains_key(u),
    ensures
        reachable(g, s, u),
        routes_to(g, s, u, d[u]),
{
    if u == s {
        assert(is_walk(g, s, u, Seq::<EdgeView>::empty()));
    } else {
        assert(is_walk(g, s, u, d[u].paths[0]));
    }
}

/// Searches from `start` to every node reachable from it. Each reached node
/// gets its tied cheapest routes and their cost; the start gets the empty
/// route at cost zero. With a target, the search stops once the target leaves
/// the queue; the target's entry is then complete, the other entries may not be.
pub fn dijkstra<C: EdgeCost>(graph: &Graph, start: Node, target: Option<Node>, cost: &C) -> (r: ScoreMap)
    ensures
        r.wf(),
        r@.contains_key(start@),
        r@[start@] == empty_paths(),
        forall|u: NodeView| #[trigger] r@.contains_key(u) ==> reachable(graph@, start@, u) && routes_to(graph@, start@, u, r@[u]),
        forall|u: NodeView, k: int|
            r@.contains_key(u) && 0 <= k < r@[u].paths.len() ==> clamp(walk_cost(cost, #[trigger] r@[u].paths[k])) == r@[u].cost,
        target is None ==> forall|u: NodeView| reachable(graph@, start@, u) <==> #[trigger] r@.contains_key(u),
        target is None ==> forall|u: NodeView, p: Seq<EdgeView>|
            r@.contains_key(u) && #[trigger] is_walk(graph@, start@, u, p) ==> r@[u].cost <= clamp(walk_cost(cost, p)),
        target matches Some(t) ==> (reachable(graph@, start@, t@) <==> r@.contains_key(t@)),
        target matches Some(t) ==> (r@.contains_key(t@) ==> forall|p: Seq<EdgeView>|
            #[trigger] is_walk(graph@, start@, t@, p) ==> r@[t@].cost <= clamp(walk_cost(cost, p))),
        target is None && positive_weights(cost, graph@) ==> forall|u: NodeView, q: Seq<EdgeView>|
            r@.contains_key(u) && #[trigger] is_walk(graph@, start@, u, q) && q.len() > 0
                && walk_cost(cost, q) == r@[u].cost && walk_cost(cost, q) < usize::MAX ==> r@[u].paths.contains(q),
        target matches Some(t) ==> (positive_weights(cost, graph@) && r@.contains_key(t@) ==> forall|q: Seq<EdgeView>|
            #[trigger] is_walk(graph@, start@, t@, q) && q.len() > 0 && walk_cost(cost, q) == r@[t@].cost
                && walk_cost(cost, q) < usize::MAX ==> r@[t@].paths.contains(q)),
{
    let tr = target.as_ref();
    proof {
        assert(opt_view(tr) == owned_view(target));
    }
    let r = search(graph, &start, tr, cost);
    proof {
        assert forall|u: NodeView| #[trigger] r@.contains_key(u) implies reachable(graph@, start@, u) && routes_to(graph@, start@, u, r@[u]) by {
            lemma_recorded_is_reachable(cost, graph@, start@, r@, u);
        }
        assert(r@[start@] =~= empty_paths());
        if positive_weights(cost, graph@) {
            assert forall|u: NodeView, q: Seq<EdgeView>|
                r@.contains_key(u) && #[trigger] is_walk(graph@, start@, u, q) && q.len() > 0
                    && walk_cost(cost, q) == r@[u].cost && walk_cost(cost, q) < usize::MAX
                    && (target is None || owned_view(target) == Some(u)) implies r@[u].paths.contains(q) by {
                assert(all_ties(cost, graph@, start@, u, r@[u]));
                lemma_routes_nonempty(r@[u], q);
            }
        }
    }
    r
}

/// The tied cheapest routes from `start` to `target` and their cost. When
/// the target is the start, that is the empty route at cost zero. Fails with
/// `NoPathFound` when no route leads to the target.
pub fn shortest_paths<C: EdgeCost>(graph: &Graph, start: Node, target: Node, cost: &C) -> (r: Result<Paths, GraphError>)
    ensures
        r is Ok <==> reachable(graph@, start@, target@),
        !reachable(graph@, start@, target@) ==> r == Err::<Paths, GraphError>(GraphError::NoPathFound),
        target@ == start@ ==> (r matches Ok(p) && p@ == empty_paths()),
        r matches Ok(p) ==> routes_to(graph@, start@, target@, p@)
            && (forall|k: int| 0 <= k < p@.paths.len() ==> clamp(walk_cost(cost, #[trigger] p@.paths[k])) == p@.cost)
            && (forall|q: Seq<EdgeView>| #[trigger] is_walk(graph@, start@, target@, q) ==> p@.cost <= clamp(walk_cost(cost, q))),
        positive_weights(cost, graph@) ==> (r matches Ok(p) ==> forall|q: Seq<EdgeView>|
            #[trigger] is_walk(graph@, start@, target@, q) && q.len() > 0 && walk_cost(cost, q) == p@.cost
                && walk_cost(cost, q) < usize::MAX ==> p@.paths.contains(q)),
{
    let scores = dijkstra(graph, start, Some(target.clone()), cost);
    match scores.get(&target) {
        Some(p) => Ok(p.clone()),
        None => Err(GraphError::NoPathFound),
    }
}

/// The triangle inequality: when `pu` holds routes to `u` at their cost and
/// `pv` costs no more than any route to `v`, an edge from `u` to `v` bounds
/// `pv`'s cost by `pu`'s cost plus the edge's weight.
pub proof fn lemma_triangle<C: EdgeCost>(
    c: &C,
    g: Seq<EdgeView>,
    s: NodeView,
    u: NodeView,
    pu: PathsView,
    pv: PathsView,
    e: EdgeView,
)
    requires
        g.contains(e),
        e.from == u,
        u == s ==> pu == empty_paths(),
        routes_to(g, s, u, pu),
        forall|k: int| 0 <= k < pu.paths.len() ==> clamp(walk_cost(c, #[trigger] pu.paths[k])) == pu.cost,
        forall|q: Seq<EdgeView>| #[trigger] is_walk(g, s, e.to, q) ==> pv.cost <= clamp(walk_cost(c, q)),
    ensures
        pv.cost <= clamp(pu.cost + c.weight(e)),
{
    if u == s {
        let p = Seq::<EdgeView>::empty();
        assert(is_walk(g, s, u, p));
        lemma_walk_push(c, g, s, u, p, e);
    } else {
        let p = pu.paths[0];
        lemma_walk_push(c, g, s, u, p, e);
        lemma_clamp_add(walk_cost(c, p), c.weight(e));
    }
}

} // verus!
