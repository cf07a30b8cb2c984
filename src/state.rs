//! The graph store: the edges leaving each node, in insertion order, kept
//! free of duplicates and inserted in symmetric pairs.
use vstd::prelude::*;

use crate::entities::{edges_match, edges_view, Edge, EdgeView, Node, NodeView, PairInfo, PairInfoView, pair_view};

verus! {

/// Why a graph operation failed.
#[derive(Clone, Copy, Debug, PartialEq, Eq, Structural)]
pub enum GraphError {
    /// An edge equal to the one inserted already leaves its node.
    DuplicateEdge,
    /// The search target cannot be reached from the start node.
    NoPathFound,
}

/// The asset graph. All edges are kept in one list in insertion order; the
/// edges leaving a node are those of the list whose origin it is.
#[derive(Debug)]
pub struct Graph {
    edges: Vec<Edge>,
}

impl View for Graph {
    type V = Seq<EdgeView>;

    closed spec fn view(&self) -> Seq<EdgeView> {
        edges_view(self.edges@)
    }
}

/// The edges leaving `n`, in insertion order.
pub open spec fn out_edges(g: Seq<EdgeView>, n: NodeView) -> Seq<EdgeView> {
    g.filter(|e: EdgeView| e.from == n)
}

/// Some edge leaving the origin of `e` is equal to `e`.
pub open spec fn has_duplicate(g: Seq<EdgeView>, e: EdgeView) -> bool {
    exists|i: int| 0 <= i < g.len() && g[i].from == e.from && #[trigger] edges_match(g[i], e)
}

pub open spec fn edge_of(a: NodeView, b: NodeView, p: Option<PairInfoView>) -> EdgeView {
    EdgeView { from: a, to: b, pair: p }
}

/// Inserting the pair `a <-> b` would repeat an edge: one direction is there
/// already, or both directions are one self-loop.
pub open spec fn pair_conflict(g: Seq<EdgeView>, a: NodeView, b: NodeView, p: Option<PairInfoView>) -> bool {
    has_duplicate(g, edge_of(a, b, p)) || has_duplicate(g, edge_of(b, a, p)) || a == b
}

/// The graph after the pair `a <-> b` went in.
pub open spec fn with_pair(g: Seq<EdgeView>, a: NodeView, b: NodeView, p: Option<PairInfoView>) -> Seq<EdgeView> {
    g.push(edge_of(a, b, p)).push(edge_of(b, a, p))
}

/// Every edge has its reverse, with the same metadata.
pub open spec fn symmetric(g: Seq<EdgeView>) -> bool {
    forall|i: int| 0 <= i < g.len() ==> #[trigger] g.contains(edge_of(g[i].to, g[i].from, g[i].pair))
}

pub proof fn lemma_filter_push(s: Seq<EdgeView>, x: EdgeView, n: NodeView)
    ensures
        out_edges(s.push(x), n) == if x.from == n {
            out_edges(s, n).push(x)
        } else {
            out_edges(s, n)
        },
{
    reveal(Seq::filter);
    assert(s.push(x).drop_last() =~= s);
}

/// The edges of `g` leaving `n` are exactly those of the filtered list.
pub proof fn lemma_out_edges_contains(g: Seq<EdgeView>, n: NodeView, e: EdgeView)
    ensures
        out_edges(g, n).contains(e) <==> (g.contains(e) && e.from == n),
    decreases g.len(),
{
    if g.len() > 0 {
        let s = g.drop_last();
        assert(s.push(g.last()) =~= g);
        lemma_filter_push(s, g.last(), n);
        lemma_out_edges_contains(s, n, e);
        if g.contains(e) && e.from == n && e != g.last() {
            let i = choose|i: int| 0 <= i < g.len() && g[i] == e;
            assert(s[i] == e);
        }
        if s.contains(e) {
            let i = choose|i: int| 0 <= i < s.len() && s[i] == e;
            assert(g[i] == e);
        }
        if out_edges(g, n).contains(e) && e == g.last() {
            assert(g[g.len() - 1] == e);
        }
    } else {
        assert(out_edges(g, n) =~= Seq::<EdgeView>::empty()) by {
            reveal(Seq::filter);
        }
    }
}

impl Graph {
    /// A graph without nodes.
    pub fn new() -> (r: Graph)
        ensures
            r@ == Seq::<EdgeView>::empty(),
    {
        let r = Graph { edges: Vec::new() };
        assert(r@ =~= Seq::<EdgeView>::empty());
        r
    }
}

/// The edges leaving `node`, empty when the node is unknown.
pub fn get_edges(graph: &Graph, node: &Node) -> (r: Vec<Edge>)
    ensures
        edges_view(r@) == out_edges(graph@, node@),
{
    let mut out: Vec<Edge> = Vec::new();
    let mut i: usize = 0;
    proof {
        assert(out_edges(graph@.take(0), node@) =~= Seq::<EdgeView>::empty()) by {
            reveal(Seq::filter);
        }
        assert(edges_view(out@) =~= Seq::<EdgeView>::empty());
    }
    while i < graph.edges.len()
        invariant
            0 <= i <= graph.edges.len(),
            edges_view(out@) == out_edges(graph@.take(i as int), node@),
        decreases graph.edges.len() - i,
    {
        proof {
            assert(graph@.take(i as int).push(graph@[i as int]) =~= graph@.take(i + 1));
            lemma_filter_push(graph@.take(i as int), graph@[i as int], node@);
        }
        if graph.edges[i].from.same(node) {
            let ghost before = out@;
            out.push(graph.edges[i].clone());
            assert(edges_view(out@) =~= edges_view(before).push(graph@[i as int]));
        }
        i = i + 1;
    }
    assert(graph@.take(i as int) =~= graph@);
    out
}

/// Tells whether an edge equal to `edge` already leaves its origin.
fn find_duplicate(graph: &Graph, edge: &Edge) -> (r: bool)
    ensures
        r == has_duplicate(graph@, edge@),
{
    let mut i: usize = 0;
    while i < graph.edges.len()
        invariant
            0 <= i <= graph.edges.len(),
            forall|j: int|
                0 <= j < i ==> !(graph@[j].from == edge@.from && #[trigger] edges_match(graph@[j], edge@)),
        decreases graph.edges.len() - i,
    {
        let e = &graph.edges[i];
        if e.from.same(&edge.from) && *e == *edge {
            assert(edges_match(graph@[i as int], edge@));
            return true;
        }
        i = i + 1;
    }
    false
}

/// Appends `edge` to the edges leaving its origin, unless an equal edge
/// (same pair, same endpoints in either order) is already there.
pub fn add_edge(graph: &mut Graph, edge: &Edge) -> (r: Result<(), GraphError>)
    ensures
        has_duplicate(old(graph)@, edge@) ==> r == Err::<(), GraphError>(GraphError::DuplicateEdge) && final(graph)@ == old(graph)@,
        !has_duplicate(old(graph)@, edge@) ==> r is Ok && final(graph)@ == old(graph)@.push(edge@),
{
    if find_duplicate(graph, edge) {
        Err(GraphError::DuplicateEdge)
    } else {
        graph.edges.push(edge.clone());
        assert(graph@ =~= old(graph)@.push(edge@));
        Ok(())
    }
}

/// Inserts `a -> b` and `b -> a` with the same metadata. Either both go in or,
/// when one of them would repeat an edge, neither does.
pub fn add_edges(graph: &mut Graph, a: Node, b: Node, pair_info: Option<PairInfo>) -> (r: Result<(), GraphError>)
    ensures
        pair_conflict(old(graph)@, a@, b@, pair_view(pair_info)) ==> r == Err::<(), GraphError>(GraphError::DuplicateEdge) && final(graph)@ == old(graph)@,
        !pair_conflict(old(graph)@, a@, b@, pair_view(pair_info)) ==> r is Ok && final(graph)@ == with_pair(old(graph)@, a@, b@, pair_view(pair_info)),
{
    let forward = Edge { from: a.clone(), to: b.clone(), pair_info: clone_pair(&pair_info) };
    let backward = Edge { from: b, to: a, pair_info };
    if a_is_b(&forward) || find_duplicate(graph, &backward) {
        return Err(GraphError::DuplicateEdge);
    }
    let r = add_edge(graph, &forward);
    if r.is_err() {
        return r;
    }
    proof {
        if has_duplicate(graph@, backward@) {
            let i = choose|i: int| 0 <= i < graph@.len() && graph@[i].from == backward@.from && #[trigger] edges_match(graph@[i], backward@);
            if i < old(graph)@.len() {
                assert(edges_match(old(graph)@[i], backward@));
            }
        }
    }
    add_edge(graph, &backward)
}

fn a_is_b(e: &Edge) -> (r: bool)
    ensures
        r == (e.from@ == e.to@),
{
    e.from.same(&e.to)
}

fn clone_pair(p: &Option<PairInfo>) -> (r: Option<PairInfo>)
    ensures
        r == *p,
{
    match p {
        Some(x) => Some(x.clone()),
        None => None,
    }
}

/// After the pair `a <-> b` went in, `a` has an edge to `b` and `b` one to
/// `a`, both with metadata `p`.
pub proof fn lemma_add_edges_symmetric(g: Seq<EdgeView>, a: NodeView, b: NodeView, p: Option<PairInfoView>)
    requires
        !pair_conflict(g, a, b, p),
    ensures
        out_edges(with_pair(g, a, b, p), a).contains(edge_of(a, b, p)),
        out_edges(with_pair(g, a, b, p), b).contains(edge_of(b, a, p)),
{
    let g2 = with_pair(g, a, b, p);
    assert(g2[g.len() as int] == edge_of(a, b, p));
    assert(g2[g.len() + 1int] == edge_of(b, a, p));
    lemma_out_edges_contains(g2, a, edge_of(a, b, p));
    lemma_out_edges_contains(g2, b, edge_of(b, a, p));
}

/// Once the pair `a <-> b` went in, inserting it again fails, in either
/// order of its endpoints.
pub proof fn lemma_add_edges_twice_rejected(g: Seq<EdgeView>, a: NodeView, b: NodeView, p: Option<PairInfoView>)
    requires
        !pair_conflict(g, a, b, p),
    ensures
        pair_conflict(with_pair(g, a, b, p), a, b, p),
        pair_conflict(with_pair(g, a, b, p), b, a, p),
{
    let g2 = with_pair(g, a, b, p);
    assert(g2[g.len() as int] == edge_of(a, b, p));
    assert(edges_match(g2[g.len() as int], edge_of(a, b, p)));
    assert(g2[g.len() + 1int] == edge_of(b, a, p));
    assert(edges_match(g2[g.len() + 1int], edge_of(b, a, p)));
}

/// Inserting a pair keeps a symmetric graph symmetric.
pub proof fn lemma_add_edges_keeps_symmetry(g: Seq<EdgeView>, a: NodeView, b: NodeView, p: Option<PairInfoView>)
    requires
        symmetric(g),
    ensures
        symmetric(with_pair(g, a, b, p)),
{
    let g2 = with_pair(g, a, b, p);
    assert forall|i: int| 0 <= i < g2.len() implies #[trigger] g2.contains(edge_of(g2[i].to, g2[i].from, g2[i].pair)) by {
        if i < g.len() {
            assert(g.contains(edge_of(g[i].to, g[i].from, g[i].pair)));
            let j = choose|j: int| 0 <= j < g.len() && g[j] == edge_of(g[i].to, g[i].from, g[i].pair);
            assert(g2[j] == g[j]);
        } else if i == g.len() {
            assert(g2[g.len() + 1int] == edge_of(b, a, p));
        } else {
            assert(g2[g.len() as int] == edge_of(a, b, p));
        }
    }
}

} // verus!
