//! The graph's data model: nodes, pair metadata, directed edges and routes.
use vstd::prelude::*;

use crate::asset::{Addr, AssetInfo};

verus! {

/// A node is known by the identifier text of its asset.
pub type NodeView = Seq<char>;

/// A graph vertex: one tradeable asset.
#[derive(Debug)]
pub struct Node {
    pub asset: AssetInfo,
}

impl View for Node {
    type V = NodeView;

    open spec fn view(&self) -> NodeView {
        self.asset.id()
    }
}

impl Clone for Node {
    fn clone(&self) -> (r: Self)
        ensures
            r == *self,
    {
        Node { asset: self.asset.clone() }
    }
}

impl PartialEq for Node {
    fn eq(&self, other: &Node) -> bool {
        let a: &str = self.asset.as_str();
        let b: &str = other.asset.as_str();
        str_eq(a, b)
    }
}

impl vstd::std_specs::cmp::PartialEqSpecImpl for Node {
    open spec fn obeys_eq_spec() -> bool {
        true
    }

    open spec fn eq_spec(&self, other: &Node) -> bool {
        self@ == other@
    }
}

impl Eq for Node {}

impl From<AssetInfo> for Node {
    fn from(asset: AssetInfo) -> Node {
        Node { asset }
    }
}

impl vstd::std_specs::convert::FromSpecImpl<AssetInfo> for Node {
    open spec fn obeys_from_spec() -> bool {
        true
    }

    open spec fn from_spec(v: AssetInfo) -> Node {
        Node { asset: v }
    }
}

impl From<Node> for AssetInfo {
    fn from(node: Node) -> AssetInfo {
        node.asset
    }
}

impl vstd::std_specs::convert::FromSpecImpl<Node> for AssetInfo {
    open spec fn obeys_from_spec() -> bool {
        true
    }

    open spec fn from_spec(v: Node) -> AssetInfo {
        v.asset
    }
}

impl Node {
    pub fn from_asset(asset: AssetInfo) -> (r: Node)
        ensures
            r.asset == asset,
    {
        Node { asset }
    }

    pub fn into_asset(self) -> (r: AssetInfo)
        ensures
            r == self.asset,
    {
        self.asset
    }

    /// Orders nodes by their asset identifiers.
    pub fn cmp(&self, other: &Node) -> (r: core::cmp::Ordering)
        ensures
            r == id_order(self@, other@),
    {
        id_cmp(self.asset.as_str(), other.asset.as_str())
    }

    /// Nodes are equal when their asset identifiers are.
    pub fn same(&self, other: &Node) -> (r: bool)
        ensures
            r == (self@ == other@),
    {
        str_eq(self.asset.as_str(), other.asset.as_str())
    }
}

/// The order of identifiers: character by character, a proper prefix first.
/// On the text's bytes this is the same order.
pub open spec fn id_order(a: Seq<char>, b: Seq<char>) -> core::cmp::Ordering
    decreases a.len(),
{
    if a.len() == 0 {
        if b.len() == 0 {
            core::cmp::Ordering::Equal
        } else {
            core::cmp::Ordering::Less
        }
    } else if b.len() == 0 {
        core::cmp::Ordering::Greater
    } else if a[0] == b[0] {
        id_order(a.drop_first(), b.drop_first())
    } else if (a[0] as u32) < (b[0] as u32) {
        core::cmp::Ordering::Less
    } else {
        core::cmp::Ordering::Greater
    }
}

/// Identifiers are in the order `Equal` exactly when they are the same.
pub proof fn lemma_id_order_equal(a: Seq<char>, b: Seq<char>)
    ensures
        (id_order(a, b) == core::cmp::Ordering::Equal) == (a == b),
    decreases a.len(),
{
    if a.len() > 0 && b.len() > 0 {
        lemma_id_order_equal(a.drop_first(), b.drop_first());
        if a[0] == b[0] && a.drop_first() == b.drop_first() {
            assert(a =~= seq![a[0]] + a.drop_first());
            assert(b =~= seq![b[0]] + b.drop_first());
        }
        if a == b {
            assert(a.drop_first() == b.drop_first());
        }
    } else if a.len() == 0 && b.len() == 0 {
        assert(a =~= b);
    }
}

fn id_cmp(a: &str, b: &str) -> (r: core::cmp::Ordering)
    ensures
        r == id_order(a@, b@),
{
    let n: usize = a.unicode_len();
    let m: usize = b.unicode_len();
    let mut i: usize = 0;
    assert(a@.skip(0) =~= a@);
    assert(b@.skip(0) =~= b@);
    while i < n && i < m
        invariant
            n == a@.len(),
            m == b@.len(),
            0 <= i <= n,
            i <= m,
            id_order(a@, b@) == id_order(a@.skip(i as int), b@.skip(i as int)),
        decreases n - i,
    {
        let x = a.get_char(i);
        let y = b.get_char(i);
        assert(a@.skip(i as int)[0] == x);
        assert(b@.skip(i as int)[0] == y);
        if x != y {
            if (x as u32) < (y as u32) {
                return core::cmp::Ordering::Less;
            } else {
                return core::cmp::Ordering::Greater;
            }
        }
        assert(a@.skip(i as int).drop_first() =~= a@.skip(i + 1));
        assert(b@.skip(i as int).drop_first() =~= b@.skip(i + 1));
        i = i + 1;
    }
    if n == m {
        core::cmp::Ordering::Equal
    } else if i == n {
        core::cmp::Ordering::Less
    } else {
        core::cmp::Ordering::Greater
    }
}

/// Compares two strings character by character.
pub fn str_eq(a: &str, b: &str) -> (r: bool)
    ensures
        r == (a@ == b@),
{
    let n: usize = a.unicode_len();
    if n != b.unicode_len() {
        return false;
    }
    let mut i: usize = 0;
    while i < n
        invariant
            n == a@.len(),
            n == b@.len(),
            0 <= i <= n,
            forall|j: int| 0 <= j < i ==> a@[j] == b@[j],
        decreases n - i,
    {
        if a.get_char(i) != b.get_char(i) {
            return false;
        }
        i = i + 1;
    }
    assert(a@ =~= b@);
    true
}

/// Metadata of an edge: the exchange adaptor and the pair contract that trade it.
#[derive(Debug)]
pub struct PairInfo {
    pub dex_id: u8,
    pub contract_addr: Addr,
}

pub struct PairInfoView {
    pub dex_id: u8,
    pub contract_addr: Seq<char>,
}

impl View for PairInfo {
    type V = PairInfoView;

    open spec fn view(&self) -> PairInfoView {
        PairInfoView { dex_id: self.dex_id, contract_addr: self.contract_addr@ }
    }
}

impl Clone for PairInfo {
    fn clone(&self) -> (r: Self)
        ensures
            r == *self,
    {
        PairInfo { dex_id: self.dex_id, contract_addr: self.contract_addr.clone() }
    }
}

/// Two pair metadata values name the same pair when their contract addresses
/// agree; the adaptor id is informational.
pub open spec fn same_pair(a: Option<PairInfoView>, b: Option<PairInfoView>) -> bool {
    match (a, b) {
        (None, None) => true,
        (Some(x), Some(y)) => x.contract_addr == y.contract_addr,
        _ => false,
    }
}

pub open spec fn pair_view(p: Option<PairInfo>) -> Option<PairInfoView> {
    match p {
        Some(x) => Some(x@),
        None => None,
    }
}

impl PartialEq for PairInfo {
    fn eq(&self, other: &PairInfo) -> bool {
        str_eq(self.contract_addr.as_str(), other.contract_addr.as_str())
    }
}

impl vstd::std_specs::cmp::PartialEqSpecImpl for PairInfo {
    open spec fn obeys_eq_spec() -> bool {
        true
    }

    open spec fn eq_spec(&self, other: &PairInfo) -> bool {
        self.contract_addr@ == other.contract_addr@
    }
}

/// A directed edge `from -> to`; without pair metadata it is a native swap.
#[derive(Debug)]
pub struct Edge {
    pub from: Node,
    pub to: Node,
    pub pair_info: Option<PairInfo>,
}

pub struct EdgeView {
    pub from: NodeView,
    pub to: NodeView,
    pub pair: Option<PairInfoView>,
}

impl View for Edge {
    type V = EdgeView;

    open spec fn view(&self) -> EdgeView {
        EdgeView { from: self.from@, to: self.to@, pair: pair_view(self.pair_info) }
    }
}

impl Clone for Edge {
    fn clone(&self) -> (r: Self)
        ensures
            r == *self,
    {
        let pair_info = match &self.pair_info {
            Some(p) => Some(p.clone()),
            None => None,
        };
        Edge { from: self.from.clone(), to: self.to.clone(), pair_info }
    }
}

/// Edges are equal when they carry the same pair and join the same two
/// endpoints, in either direction.
pub open spec fn edges_match(a: EdgeView, b: EdgeView) -> bool {
    &&& same_pair(a.pair, b.pair)
    &&& ((a.from == b.from && a.to == b.to) || (a.from == b.to && a.to == b.from))
}

pub fn same_pair_exec(a: &Option<PairInfo>, b: &Option<PairInfo>) -> (r: bool)
    ensures
        r == same_pair(pair_view(*a), pair_view(*b)),
{
    match (a, b) {
        (None, None) => true,
        (Some(x), Some(y)) => str_eq(x.contract_addr.as_str(), y.contract_addr.as_str()),
        _ => false,
    }
}

impl PartialEq for Edge {
    fn eq(&self, other: &Edge) -> bool {
        same_pair_exec(&self.pair_info, &other.pair_info) && ((self.from.same(&other.from)
            && self.to.same(&other.to)) || (self.from.same(&other.to) && self.to.same(
            &other.from,
        )))
    }
}

impl vstd::std_specs::cmp::PartialEqSpecImpl for Edge {
    open spec fn obeys_eq_spec() -> bool {
        true
    }

    open spec fn eq_spec(&self, other: &Edge) -> bool {
        edges_match(self@, other@)
    }
}


pub open spec fn edges_view(v: Seq<Edge>) -> Seq<EdgeView> {
    v.map_values(|e: Edge| e@)
}

/// One route: a contiguous sequence of edges.
#[derive(Debug)]
pub struct Path {
    pub edges: Vec<Edge>,
}

impl View for Path {
    type V = Seq<EdgeView>;

    open spec fn view(&self) -> Seq<EdgeView> {
        edges_view(self.edges@)
    }
}

impl Clone for Path {
    fn clone(&self) -> (r: Self)
        ensures
            r@ == self@,
    {
        let mut edges: Vec<Edge> = Vec::new();
        let mut i: usize = 0;
        while i < self.edges.len()
            invariant
                0 <= i <= self.edges.len(),
                edges@.len() == i,
                forall|j: int| 0 <= j < i ==> edges@[j] == self.edges@[j],
            decreases self.edges.len() - i,
        {
            edges.push(self.edges[i].clone());
            i = i + 1;
        }
        let r = Path { edges };
        assert(r@ =~= self@);
        r
    }
}

/// A set of tied routes and the cost they share.
#[derive(Debug)]
pub struct Paths {
    pub paths: Vec<Path>,
    pub cost: usize,
}

pub struct PathsView {
    pub paths: Seq<Seq<EdgeView>>,
    pub cost: nat,
}

pub open spec fn paths_view(v: Seq<Path>) -> Seq<Seq<EdgeView>> {
    v.map_values(|p: Path| p@)
}

impl View for Paths {
    type V = PathsView;

    open spec fn view(&self) -> PathsView {
        PathsView { paths: paths_view(self.paths@), cost: self.cost as nat }
    }
}

/// Extends every route by `e`; the empty set of routes stands for the empty
/// route at the start, which becomes the one-edge route `[e]`.
pub open spec fn extend_all(ps: Seq<Seq<EdgeView>>, e: EdgeView) -> Seq<Seq<EdgeView>> {
    if ps.len() == 0 {
        seq![seq![e]]
    } else {
        ps.map_values(|p: Seq<EdgeView>| p.push(e))
    }
}

pub fn clone_paths(v: &Vec<Path>) -> (r: Vec<Path>)
    ensures
        paths_view(r@) == paths_view(v@),
{
    let mut out: Vec<Path> = Vec::new();
    let mut i: usize = 0;
    while i < v.len()
        invariant
            0 <= i <= v.len(),
            out@.len() == i,
            forall|j: int| 0 <= j < i ==> out@[j]@ == v@[j]@,
        decreases v.len() - i,
    {
        out.push(v[i].clone());
        i = i + 1;
    }
    assert(paths_view(out@) =~= paths_view(v@));
    out
}

impl Clone for Paths {
    fn clone(&self) -> (r: Self)
        ensures
            r@ == self@,
    {
        Paths { paths: clone_paths(&self.paths), cost: self.cost }
    }
}

impl Paths {
    /// Appends `edge` to every route, or starts the first route with it.
    pub fn add_edge_to_paths(&mut self, edge: &Edge)
        ensures
            final(self)@.paths == extend_all(old(self)@.paths, edge@),
            final(self).cost == old(self).cost,
    {
        if self.paths.len() == 0 {
            let mut edges: Vec<Edge> = Vec::new();
            edges.push(edge.clone());
            let mut paths: Vec<Path> = Vec::new();
            paths.push(Path { edges });
            self.paths = paths;
            assert(paths_view(self.paths@)[0] =~= seq![edge@]);
            assert(paths_view(self.paths@) =~= extend_all(paths_view(old(self).paths@), edge@));
        } else {
            let mut out: Vec<Path> = Vec::new();
            let mut i: usize = 0;
            while i < self.paths.len()
                invariant
                    0 <= i <= self.paths.len(),
                    out@.len() == i,
                    forall|j: int| 0 <= j < i ==> out@[j]@ == self.paths@[j]@.push(edge@),
                decreases self.paths.len() - i,
            {
                let mut p = self.paths[i].clone();
                p.edges.push(edge.clone());
                proof {
                    assert(p@ =~= self.paths@[i as int]@.push(edge@));
                }
                out.push(p);
                i = i + 1;
            }
            self.paths = out;
            assert(paths_view(self.paths@) =~= extend_all(paths_view(old(self).paths@), edge@));
        }
    }
}

} // verus!
