use apollo_graph::algo::{dijkstra, shortest_paths, HopWeights};
use apollo_graph::asset::{Addr, AssetInfo};
use apollo_graph::entities::{Edge, Node, PairInfo, Path};
use apollo_graph::state::{add_edge, add_edges, get_edges, Graph, GraphError};

fn native(denom: &str) -> Node {
    Node {
        asset: AssetInfo::NativeToken {
            denom: denom.to_string(),
        },
    }
}

fn token(addr: &str) -> Node {
    Node {
        asset: AssetInfo::Token {
            contract_addr: Addr::unchecked(addr),
        },
    }
}

fn pair(dex_id: u8, addr: &str) -> Option<PairInfo> {
    Some(PairInfo {
        dex_id,
        contract_addr: Addr::unchecked(addr),
    })
}

fn edge(from: &Node, to: &Node, pair_info: Option<PairInfo>) -> Edge {
    Edge {
        from: from.clone(),
        to: to.clone(),
        pair_info,
    }
}

#[test]
fn test_read_write_graph() {
    let mut graph = Graph::new();

    let node_a = native("uusd");
    let node_b = native("uluna");

    // nodes dont exist in graph yet
    let res = get_edges(&graph, &node_a);
    assert!(res.is_empty());
    let res = get_edges(&graph, &node_b);
    assert!(res.is_empty());

    // add edges from a to b and b to a
    add_edges(&mut graph, node_a.clone(), node_b.clone(), pair(1, "pair")).unwrap();

    let edges_a = get_edges(&graph, &node_a);
    let edges_b = get_edges(&graph, &node_b);
    assert_eq!(1, edges_a.len());
    assert_eq!(1, edges_b.len());
    // edges are equal even though to/from are in different order
    assert_eq!(edges_a[0], edges_b[0]);
    assert_eq!(edges_a[0].to, edges_b[0].from);
    assert_eq!(edges_a[0].from, edges_b[0].to);
    assert_ne!(edges_a[0].from, edges_b[0].from);
    assert_ne!(edges_a[0].to, edges_b[0].to);
}

#[test]
fn test_dijkstra() {
    let mut graph = Graph::new();

    let ust = native("uusd");
    let luna = native("uluna");
    let bluna = token("bluna");
    let nluna = token("nluna");
    let psi = token("psi");

    let astro = pair(1, "astro");

    // ust > luna (native/non-native) > bluna
    // ust > psi > (luna | nluna) > bluna
    add_edges(&mut graph, ust.clone(), luna.clone(), astro.clone()).unwrap();
    add_edges(&mut graph, ust.clone(), luna.clone(), None).unwrap();
    add_edges(&mut graph, ust.clone(), psi.clone(), astro.clone()).unwrap();
    add_edges(&mut graph, luna.clone(), psi.clone(), astro.clone()).unwrap();
    add_edges(&mut graph, nluna.clone(), psi.clone(), astro.clone()).unwrap();
    add_edges(&mut graph, nluna.clone(), bluna.clone(), astro.clone()).unwrap();
    add_edges(&mut graph, luna.clone(), bluna.clone(), astro.clone()).unwrap();

    // get min paths from ust to all others in graph
    let weights = HopWeights { native: 1, pair: 2 };
    let res = dijkstra(&graph, ust.clone(), None, &weights);

    let min_path_bluna = res.get(&bluna).unwrap();
    assert_eq!(min_path_bluna.paths.len(), 1);
    assert_eq!(
        min_path_bluna.paths[0].edges,
        vec![edge(&ust, &luna, None), edge(&luna, &bluna, astro.clone())]
    );
    assert_eq!(min_path_bluna.cost, 3);

    let min_path_nluna = res.get(&nluna).unwrap();
    assert_eq!(min_path_nluna.paths.len(), 1);
    assert_eq!(
        min_path_nluna.paths[0].edges,
        vec![edge(&ust, &psi, astro.clone()), edge(&psi, &nluna, astro.clone())]
    );
    assert_eq!(min_path_nluna.cost, 4);

    let min_path_psi = res.get(&psi).unwrap();
    assert_eq!(min_path_psi.paths.len(), 1);
    assert_eq!(min_path_psi.paths[0].edges, vec![edge(&ust, &psi, astro.clone())]);
    assert_eq!(min_path_psi.cost, 2);

    let min_path_ust = res.get(&ust).unwrap();
    assert!(min_path_ust.paths.is_empty());
    assert_eq!(min_path_ust.cost, 0);
}

/// The six pairs of the routing scenario.
fn scenario_graph() -> (Graph, Node, Node, Node, Node, Node, Option<PairInfo>) {
    let mut graph = Graph::new();
    let ust = native("uusd");
    let luna = native("uluna");
    let bluna = token("bluna");
    let nluna = token("nluna");
    let psi = token("psi");
    let p = pair(1, "astro");
    add_edges(&mut graph, ust.clone(), luna.clone(), None).unwrap();
    add_edges(&mut graph, ust.clone(), psi.clone(), p.clone()).unwrap();
    add_edges(&mut graph, luna.clone(), psi.clone(), p.clone()).unwrap();
    add_edges(&mut graph, psi.clone(), nluna.clone(), p.clone()).unwrap();
    add_edges(&mut graph, nluna.clone(), bluna.clone(), p.clone()).unwrap();
    add_edges(&mut graph, luna.clone(), bluna.clone(), p.clone()).unwrap();
    (graph, ust, luna, bluna, nluna, psi, p)
}

#[test]
fn scenario_native_hops_cheaper() {
    let (graph, ust, luna, bluna, nluna, psi, p) = scenario_graph();
    let weights = HopWeights { native: 1, pair: 2 };
    let res = dijkstra(&graph, ust.clone(), None, &weights);

    let b = res.get(&bluna).unwrap();
    assert_eq!(b.cost, 3);
    assert_eq!(b.paths.len(), 1);
    assert_eq!(b.paths[0].edges, vec![edge(&ust, &luna, None), edge(&luna, &bluna, p.clone())]);

    let n = res.get(&nluna).unwrap();
    assert_eq!(n.cost, 4);
    assert_eq!(n.paths.len(), 1);
    assert_eq!(n.paths[0].edges, vec![edge(&ust, &psi, p.clone()), edge(&psi, &nluna, p.clone())]);

    let s = res.get(&psi).unwrap();
    assert_eq!(s.cost, 2);
    assert_eq!(s.paths.len(), 1);
    assert_eq!(s.paths[0].edges, vec![edge(&ust, &psi, p.clone())]);

    let u = res.get(&ust).unwrap();
    assert_eq!(u.cost, 0);
    assert!(u.paths.is_empty());
}

#[test]
fn scenario_pair_hops_cheaper_keeps_ties() {
    let (graph, ust, luna, bluna, nluna, psi, p) = scenario_graph();
    let weights = HopWeights { native: 2, pair: 1 };
    let res = dijkstra(&graph, ust.clone(), None, &weights);

    let s = res.get(&psi).unwrap();
    assert_eq!(s.cost, 1);
    assert_eq!(s.paths.len(), 1);

    let l = res.get(&luna).unwrap();
    assert_eq!(l.cost, 2);
    assert_eq!(l.paths.len(), 2);
    assert_eq!(l.paths[0].edges, vec![edge(&ust, &luna, None)]);
    assert_eq!(l.paths[1].edges, vec![edge(&ust, &psi, p.clone()), edge(&psi, &luna, p.clone())]);

    let n = res.get(&nluna).unwrap();
    assert_eq!(n.cost, 2);
    assert_eq!(n.paths.len(), 1);

    let b = res.get(&bluna).unwrap();
    assert_eq!(b.cost, 3);
    assert_eq!(b.paths.len(), 3);
    assert_eq!(b.paths[2].edges, vec![edge(&ust, &psi, p.clone()), edge(&psi, &nluna, p.clone()), edge(&nluna, &bluna, p.clone())]);
}

#[test]
fn shortest_paths_to_self_is_empty() {
    let (graph, ust, luna, _bluna, _nluna, _psi, _p) = scenario_graph();
    let weights = HopWeights { native: 1, pair: 2 };
    let r = shortest_paths(&graph, ust.clone(), ust.clone(), &weights).unwrap();
    assert_eq!(r.cost, 0);
    assert!(r.paths.is_empty());
    let r = shortest_paths(&graph, luna.clone(), luna.clone(), &weights).unwrap();
    assert_eq!(r.cost, 0);
    assert!(r.paths.is_empty());
}

#[test]
fn shortest_paths_to_target() {
    let (graph, ust, luna, bluna, nluna, psi, p) = scenario_graph();
    let weights = HopWeights { native: 1, pair: 2 };
    let r = shortest_paths(&graph, ust.clone(), bluna.clone(), &weights).unwrap();
    assert_eq!(r.cost, 3);
    assert_eq!(r.paths.len(), 1);
    assert_eq!(r.paths[0].edges, vec![edge(&ust, &luna, None), edge(&luna, &bluna, p.clone())]);
    let r = shortest_paths(&graph, ust.clone(), psi.clone(), &weights).unwrap();
    assert_eq!(r.cost, 2);
    assert_eq!(r.paths.len(), 1);
    assert_eq!(r.paths[0].edges, vec![edge(&ust, &psi, p.clone())]);
    let r = shortest_paths(&graph, ust.clone(), nluna.clone(), &weights).unwrap();
    assert_eq!(r.cost, 4);
    assert_eq!(r.paths.len(), 1);
    assert_eq!(r.paths[0].edges, vec![edge(&ust, &psi, p.clone()), edge(&psi, &nluna, p.clone())]);
}

#[test]
fn target_search_keeps_only_the_cheapest_route() {
    let mut graph = Graph::new();
    let s0 = native("s");
    let a = token("a");
    let t = token("t");
    add_edges(&mut graph, s0.clone(), t.clone(), None).unwrap();
    add_edges(&mut graph, s0.clone(), a.clone(), pair(1, "sa")).unwrap();
    add_edges(&mut graph, a.clone(), t.clone(), pair(1, "at")).unwrap();
    let weights = HopWeights { native: 5, pair: 1 };
    let r = shortest_paths(&graph, s0.clone(), t.clone(), &weights).unwrap();
    assert_eq!(r.cost, 2);
    assert_eq!(r.paths.len(), 1);
    assert_eq!(r.paths[0].edges, vec![edge(&s0, &a, pair(1, "sa")), edge(&a, &t, pair(1, "at"))]);
}

#[test]
fn tie_accumulation_two_routes() {
    let mut graph = Graph::new();
    let a = native("a");
    let b = token("b");
    let c = token("c");
    let t = token("t");
    add_edges(&mut graph, a.clone(), b.clone(), pair(1, "ab")).unwrap();
    add_edges(&mut graph, a.clone(), c.clone(), pair(2, "ac")).unwrap();
    add_edges(&mut graph, b.clone(), t.clone(), pair(1, "bt")).unwrap();
    add_edges(&mut graph, c.clone(), t.clone(), pair(2, "ct")).unwrap();
    let weights = HopWeights { native: 1, pair: 1 };
    let r = shortest_paths(&graph, a.clone(), t.clone(), &weights).unwrap();
    assert_eq!(r.cost, 2);
    assert_eq!(r.paths.len(), 2);
    assert_eq!(r.paths[0].edges, vec![edge(&a, &b, pair(1, "ab")), edge(&b, &t, pair(1, "bt"))]);
    assert_eq!(r.paths[1].edges, vec![edge(&a, &c, pair(2, "ac")), edge(&c, &t, pair(2, "ct"))]);

    let tree = dijkstra(&graph, a.clone(), None, &weights);
    let tt = tree.get(&t).unwrap();
    assert_eq!(tt.cost, 2);
    assert_eq!(tt.paths.len(), 2);
}

#[test]
fn unreachable_target_fails() {
    let (mut graph, ust, _luna, _bluna, _nluna, _psi, _p) = scenario_graph();
    let x = token("x");
    let y = token("y");
    let weights = HopWeights { native: 1, pair: 2 };
    assert_eq!(shortest_paths(&graph, ust.clone(), x.clone(), &weights).unwrap_err(), GraphError::NoPathFound);
    add_edges(&mut graph, x.clone(), y.clone(), pair(3, "xy")).unwrap();
    assert_eq!(shortest_paths(&graph, ust.clone(), y.clone(), &weights).unwrap_err(), GraphError::NoPathFound);
    let tree = dijkstra(&graph, ust.clone(), None, &weights);
    assert!(tree.get(&y).is_none());
    assert!(tree.get(&x).is_none());
}

#[test]
fn add_edges_is_symmetric() {
    let mut graph = Graph::new();
    let a = native("uusd");
    let b = token("psi");
    add_edges(&mut graph, a.clone(), b.clone(), pair(4, "pool")).unwrap();
    let ea = get_edges(&graph, &a);
    let eb = get_edges(&graph, &b);
    assert_eq!(ea.len(), 1);
    assert_eq!(eb.len(), 1);
    assert_eq!(ea[0].from, a);
    assert_eq!(ea[0].to, b);
    assert_eq!(ea[0].pair_info.as_ref().unwrap().dex_id, 4);
    assert_eq!(eb[0].from, b);
    assert_eq!(eb[0].to, a);
    assert_eq!(eb[0].pair_info.as_ref().unwrap().contract_addr.as_str(), "pool");
}

#[test]
fn add_edges_twice_is_rejected() {
    let mut graph = Graph::new();
    let a = native("uusd");
    let b = token("psi");
    add_edges(&mut graph, a.clone(), b.clone(), pair(1, "pool")).unwrap();
    assert_eq!(add_edges(&mut graph, a.clone(), b.clone(), pair(1, "pool")), Err(GraphError::DuplicateEdge));
    assert_eq!(add_edges(&mut graph, b.clone(), a.clone(), pair(1, "pool")), Err(GraphError::DuplicateEdge));
    // the adaptor id does not tell pairs apart
    assert_eq!(add_edges(&mut graph, a.clone(), b.clone(), pair(9, "pool")), Err(GraphError::DuplicateEdge));
    // another pair contract between the same assets is a new edge
    add_edges(&mut graph, a.clone(), b.clone(), pair(1, "other")).unwrap();
    // so is a native swap
    add_edges(&mut graph, a.clone(), b.clone(), None).unwrap();
    assert_eq!(get_edges(&graph, &a).len(), 3);
    assert_eq!(get_edges(&graph, &b).len(), 3);
}

#[test]
fn add_edges_failure_leaves_graph_unchanged() {
    let mut graph = Graph::new();
    let a = native("uusd");
    let b = token("psi");
    // only one direction is there
    add_edge(&mut graph, &edge(&b, &a, None)).unwrap();
    assert_eq!(add_edges(&mut graph, a.clone(), b.clone(), None), Err(GraphError::DuplicateEdge));
    assert!(get_edges(&graph, &a).is_empty());
    assert_eq!(get_edges(&graph, &b).len(), 1);
    // a self-loop pair repeats its own edge
    assert_eq!(add_edges(&mut graph, a.clone(), a.clone(), None), Err(GraphError::DuplicateEdge));
    assert!(get_edges(&graph, &a).is_empty());
}

#[test]
fn add_edge_rejects_reversed_duplicate() {
    let mut graph = Graph::new();
    let a = native("uusd");
    let b = token("psi");
    add_edge(&mut graph, &edge(&a, &b, pair(1, "pool"))).unwrap();
    assert_eq!(add_edge(&mut graph, &edge(&a, &b, pair(2, "pool"))), Err(GraphError::DuplicateEdge));
    add_edge(&mut graph, &edge(&b, &a, pair(1, "pool"))).unwrap();
    assert_eq!(get_edges(&graph, &a), vec![edge(&a, &b, pair(1, "pool"))]);
}

#[test]
fn nodes_compare_by_identifier() {
    assert_eq!(native("abc"), token("abc"));
    assert_ne!(native("abc"), native("abd"));
    assert_eq!(
        edge(&native("x"), &token("y"), None),
        edge(&token("y"), &native("x"), None)
    );
    assert_ne!(
        edge(&native("x"), &token("y"), None),
        edge(&native("x"), &token("y"), pair(1, "p"))
    );
}

#[test]
fn add_edge_to_paths_extends_each_route() {
    let a = native("a");
    let b = token("b");
    let c = token("c");
    let mut ps = apollo_graph::entities::Paths { paths: vec![], cost: 0 };
    ps.add_edge_to_paths(&edge(&a, &b, None));
    assert_eq!(ps.paths.len(), 1);
    assert_eq!(ps.paths[0].edges, vec![edge(&a, &b, None)]);
    ps.paths.push(Path { edges: vec![edge(&a, &c, None)] });
    ps.add_edge_to_paths(&edge(&b, &c, None));
    assert_eq!(ps.paths.len(), 2);
    assert_eq!(ps.paths[0].edges.len(), 2);
    assert_eq!(ps.paths[1].edges, vec![edge(&a, &c, None), edge(&b, &c, None)]);
}

#[test]
fn nodes_order_by_identifier() {
    assert_eq!(native("abc").cmp(&token("abd")), std::cmp::Ordering::Less);
    assert_eq!(token("b").cmp(&native("ab")), std::cmp::Ordering::Greater);
    assert_eq!(native("ab").cmp(&native("abc")), std::cmp::Ordering::Less);
    assert_eq!(token("uusd").cmp(&native("uusd")), std::cmp::Ordering::Equal);
    assert_eq!(native("").cmp(&native("")), std::cmp::Ordering::Equal);
}

#[test]
fn node_converts_from_and_into_asset() {
    let n: Node = Node::from(AssetInfo::NativeToken { denom: "uusd".to_string() });
    assert_eq!(n, native("uusd"));
    let a: AssetInfo = n.into();
    assert!(a.equal(&AssetInfo::NativeToken { denom: "uusd".to_string() }));
    let t = Node::from_asset(AssetInfo::Token { contract_addr: Addr::unchecked("psi") });
    assert!(t.into_asset().equal(&AssetInfo::Token { contract_addr: Addr::unchecked("psi") }));
}

#[test]
fn scenario_stated_weights_target_search() {
    let (graph, ust, luna, bluna, nluna, psi, p) = scenario_graph();
    let weights = HopWeights { native: 2, pair: 1 };
    let r = shortest_paths(&graph, ust.clone(), bluna.clone(), &weights).unwrap();
    assert_eq!(r.cost, 3);
    assert_eq!(r.paths.len(), 3);
    assert_eq!(r.paths[0].edges, vec![edge(&ust, &luna, None), edge(&luna, &bluna, p.clone())]);
    assert_eq!(
        r.paths[1].edges,
        vec![edge(&ust, &psi, p.clone()), edge(&psi, &luna, p.clone()), edge(&luna, &bluna, p.clone())]
    );
    assert_eq!(
        r.paths[2].edges,
        vec![edge(&ust, &psi, p.clone()), edge(&psi, &nluna, p.clone()), edge(&nluna, &bluna, p.clone())]
    );
    let r = shortest_paths(&graph, ust.clone(), psi.clone(), &weights).unwrap();
    assert_eq!(r.cost, 1);
    assert_eq!(r.paths.len(), 1);
    let r = shortest_paths(&graph, ust.clone(), nluna.clone(), &weights).unwrap();
    assert_eq!(r.cost, 2);
    assert_eq!(r.paths.len(), 1);
    let r = shortest_paths(&graph, ust.clone(), ust.clone(), &weights).unwrap();
    assert_eq!(r.cost, 0);
    assert!(r.paths.is_empty());
}
