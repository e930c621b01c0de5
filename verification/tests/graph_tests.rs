use amure_db::edge::{Edge, EdgeKind};
use amure_db::graph::{AmureGraph, Direction, EdgeError};
use amure_db::node::{Experiment, ExperimentKind, Node, NodeStatus, Verdict};

fn make_hypothesis(statement: &str) -> Node {
    Node::new(statement.into())
}

#[test]
fn test_add_and_get() {
    let mut g = AmureGraph::new();
    let node = make_hypothesis("OI는 momentum 선행지표");
    let id = g.add_node(node);
    assert!(g.get_node(&id).is_some());
    assert_eq!(g.node_count(), 1);
}

#[test]
fn test_remove_node_cascades_edges() {
    let mut g = AmureGraph::new();
    let c = g.add_node(make_hypothesis("hypothesis 1"));
    let r = g.add_node(make_hypothesis("hypothesis 2"));
    g.add_edge(Edge::new(r, c, EdgeKind::Reference, "관련".into()));
    assert_eq!(g.edge_count(), 1);

    g.remove_node(&c);
    assert_eq!(g.node_count(), 1);
    assert_eq!(g.edge_count(), 0);
}

#[test]
fn test_neighbors() {
    let mut g = AmureGraph::new();
    let c = g.add_node(make_hypothesis("hypothesis 1"));
    let r1 = g.add_node(make_hypothesis("hypothesis 2"));
    let r2 = g.add_node(make_hypothesis("hypothesis 3"));
    g.add_edge(Edge::new(r1, c, EdgeKind::Reference, "ref".into()));
    g.add_edge(Edge::new(r2, c, EdgeKind::Superset, "sup".into()));

    let neighbors = g.neighbors(&c, Direction::In, None);
    assert_eq!(neighbors.len(), 2);

    let ref_only = g.neighbors(&c, Direction::In, Some(&[EdgeKind::Reference]));
    assert_eq!(ref_only.len(), 1);
}

#[test]
fn test_walk_bfs() {
    let mut g = AmureGraph::new();
    let a = g.add_node(make_hypothesis("h1"));
    let b = g.add_node(make_hypothesis("h2"));
    let c = g.add_node(make_hypothesis("h3"));
    g.add_edge(Edge::new(b, a, EdgeKind::Reference, "r".into()));
    g.add_edge(Edge::new(c, b, EdgeKind::Subset, "s".into()));

    let walked = g.walk(&a, 2, None);
    assert_eq!(walked.len(), 3);

    let walked_1 = g.walk(&a, 1, None);
    assert_eq!(walked_1.len(), 2);
}

#[test]
fn test_walk_exclude_orthogonal() {
    let mut g = AmureGraph::new();
    let a = g.add_node(make_hypothesis("h1"));
    let b = g.add_node(make_hypothesis("h2"));
    let c = g.add_node(make_hypothesis("h3"));
    g.add_edge(Edge::new(b, a, EdgeKind::Reference, "r".into()));
    g.add_edge(Edge::new(c, a, EdgeKind::Orthogonal, "o".into()));

    let walked = g.walk_exclude_orthogonal(&a, 2);
    assert_eq!(walked.len(), 2);

    let walked_all = g.walk(&a, 2, None);
    assert_eq!(walked_all.len(), 3);
}

#[test]
fn test_subgraph() {
    let mut g = AmureGraph::new();
    let a = g.add_node(make_hypothesis("h1"));
    let b = g.add_node(make_hypothesis("h2"));
    let c = g.add_node(make_hypothesis("h3"));
    g.add_edge(Edge::new(b, a, EdgeKind::Reference, "r".into()));

    let (nodes, edges) = g.subgraph(&[a, b]);
    assert_eq!(nodes.len(), 2);
    assert_eq!(edges.len(), 1);

    let (nodes2, _) = g.subgraph(&[a, c]);
    assert_eq!(nodes2.len(), 2);
}

#[test]
fn test_summary() {
    let mut g = AmureGraph::new();
    g.add_node(make_hypothesis("h1"));
    let mut h2 = make_hypothesis("h2");
    h2.status = NodeStatus::Decline;
    g.add_node(h2);
    let s = g.summary();
    assert_eq!(s.n_nodes, 2);
    assert_eq!(s.n_experiments, 0);
}

#[test]
fn test_summary_counts_experiments() {
    let mut g = AmureGraph::new();
    let mut h = make_hypothesis("h1");
    h.experiments.push(Experiment {
        id: uuid::Uuid::new_v4().as_u128(),
        kind: ExperimentKind::Universe,
        target: "BTC".into(),
        result: serde_json::Value::Object(serde_json::Map::new()),
        verdict: Verdict::Support,
        note: None,
    });
    g.add_node(h);
    let s = g.summary();
    assert_eq!(s.n_experiments, 1);
}

fn chain(n: usize) -> (AmureGraph, Vec<u128>) {
    let mut g = AmureGraph::new();
    let mut ids = Vec::new();
    for i in 0..n {
        ids.push(g.add_node(make_hypothesis(&format!("h{}", i))));
    }
    for i in 1..n {
        g.add_edge(Edge::new(ids[i - 1], ids[i], EdgeKind::Reference, "next".into()));
    }
    (g, ids)
}

#[test]
fn walk_reports_fewest_hops_nearest_first() {
    let (mut g, ids) = chain(4);
    // a shortcut from the start to the last node
    g.add_edge(Edge::new(ids[3], ids[0], EdgeKind::Subset, "shortcut".into()));
    let walked = g.walk(&ids[0], 10, None);
    assert_eq!(walked[0], (ids[0], 0));
    assert_eq!(walked.len(), 4);
    let depth = |id: u128| walked.iter().find(|(n, _)| *n == id).unwrap().1;
    assert_eq!(depth(ids[1]), 1);
    assert_eq!(depth(ids[3]), 1);
    assert_eq!(depth(ids[2]), 2);
    assert!(walked.windows(2).all(|w| w[0].1 <= w[1].1));
}

#[test]
fn walk_with_no_hops_is_the_start() {
    let (g, ids) = chain(3);
    assert_eq!(g.walk(&ids[1], 0, None), vec![(ids[1], 0)]);
    // a start with no node still starts the walk
    assert_eq!(g.walk(&7, 3, None), vec![(7, 0)]);
}

#[test]
fn walk_longer_contains_shorter() {
    let (g, ids) = chain(5);
    let short = g.walk(&ids[2], 1, None);
    let long = g.walk(&ids[2], 2, None);
    assert_eq!(short.len(), 3);
    assert_eq!(long.len(), 5);
    for entry in &short {
        assert!(long.contains(entry));
    }
}

#[test]
fn neighbors_in_both_directions_list_out_then_in() {
    let mut g = AmureGraph::new();
    let a = g.add_node(make_hypothesis("a"));
    let b = g.add_node(make_hypothesis("b"));
    let c = g.add_node(make_hypothesis("c"));
    g.add_edge(Edge::new(a, b, EdgeKind::Superset, "ab".into()));
    g.add_edge(Edge::new(c, a, EdgeKind::Orthogonal, "ca".into()));
    let both = g.neighbors(&a, Direction::Both, None);
    assert_eq!(both.len(), 2);
    assert_eq!(both[0].0, b);
    assert_eq!(both[1].0, c);
    let out = g.neighbors(&a, Direction::Out, None);
    assert_eq!(out.len(), 1);
    assert_eq!(out[0].1.reason, "ab");
    let none = g.neighbors(&a, Direction::Both, Some(&[EdgeKind::Reference]));
    assert!(none.is_empty());
}

#[test]
fn remove_edge_returns_it_once() {
    let mut g = AmureGraph::new();
    let a = g.add_node(make_hypothesis("a"));
    let b = g.add_node(make_hypothesis("b"));
    let e = g.add_edge(Edge::new(a, b, EdgeKind::Reference, "r".into()));
    assert_eq!(g.get_edge(&e).unwrap().source, a);
    let removed = g.remove_edge(&e).unwrap();
    assert_eq!(removed.id, e);
    assert!(g.remove_edge(&e).is_none());
    assert!(g.get_edge(&e).is_none());
    assert!(g.neighbors(&a, Direction::Both, None).is_empty());
}

#[test]
fn remove_missing_node_is_none() {
    let mut g = AmureGraph::new();
    g.add_node(make_hypothesis("a"));
    assert!(g.remove_node(&5).is_none());
    assert_eq!(g.node_count(), 1);
}

#[test]
fn remove_node_keeps_unrelated_edges() {
    let (mut g, ids) = chain(4);
    g.add_edge(Edge::new(ids[1], ids[1], EdgeKind::Reference, "self".into()));
    let removed = g.remove_node(&ids[1]).unwrap();
    assert_eq!(removed.id, ids[1]);
    assert_eq!(g.edge_count(), 1);
    assert_eq!(g.incident_edges(&ids[3]).len(), 1);
    assert!(g.incident_edges(&ids[1]).is_empty());
}

#[test]
fn add_edge_with_reverse_draws_both_ways() {
    let mut g = AmureGraph::new();
    let a = g.add_node(make_hypothesis("a"));
    let b = g.add_node(make_hypothesis("b"));
    let (f, r) = g.add_edge_with_reverse(a, b, EdgeKind::Subset, "part of".into()).unwrap();
    let fe = g.get_edge(&f).unwrap();
    let re = g.get_edge(&r).unwrap();
    assert_eq!((fe.source, fe.target, fe.kind), (a, b, EdgeKind::Subset));
    assert_eq!((re.source, re.target, re.kind), (b, a, EdgeKind::Superset));
    assert_eq!(re.reason, "part of");
    assert_eq!(g.edge_count(), 2);
}

#[test]
fn add_edge_with_reverse_needs_a_reason() {
    let mut g = AmureGraph::new();
    assert_eq!(g.add_edge_with_reverse(1, 2, EdgeKind::Reference, " \t\n".into()), Err(EdgeError::ReasonRequired));
    assert_eq!(g.add_edge_with_reverse(1, 2, EdgeKind::Reference, String::new()), Err(EdgeError::ReasonRequired));
    assert_eq!(g.edge_count(), 0);
}

#[test]
fn nodes_by_status_and_summary_counts() {
    let mut g = AmureGraph::new();
    let mut a = make_hypothesis("a");
    a.status = NodeStatus::Accept;
    g.add_node(a);
    g.add_node(make_hypothesis("b"));
    let mut c = make_hypothesis("c");
    c.status = NodeStatus::Accept;
    g.add_node(c);
    assert_eq!(g.nodes_by_status(NodeStatus::Accept).len(), 2);
    assert_eq!(g.nodes_by_status(NodeStatus::Draft).len(), 1);
    assert!(g.nodes_by_status(NodeStatus::Decline).is_empty());
    let ids: Vec<u128> = g.node_ids();
    g.add_edge(Edge::new(ids[0], ids[1], EdgeKind::Orthogonal, "o".into()));
    let s = g.summary();
    assert_eq!(s.n_edges, 1);
    assert_eq!(s.status_counts, vec![("Draft".to_string(), 1), ("Accept".to_string(), 2)]);
    assert_eq!(s.edge_kinds, vec![("Orthogonal".to_string(), 1)]);
}

#[test]
fn get_node_mut_changes_only_that_node() {
    let mut g = AmureGraph::new();
    let a = g.add_node(make_hypothesis("a"));
    let b = g.add_node(make_hypothesis("b"));
    g.get_node_mut(&a).unwrap().status = NodeStatus::Accept;
    assert_eq!(g.get_node(&a).unwrap().status, NodeStatus::Accept);
    assert_eq!(g.get_node(&b).unwrap().status, NodeStatus::Draft);
    assert!(g.get_node_mut(&9).is_none());
}

#[test]
fn add_node_replaces_same_id() {
    let mut g = AmureGraph::default();
    let mut n = make_hypothesis("first");
    let id = g.add_node(n.clone());
    n.statement = "second".into();
    assert_eq!(g.add_node(n), id);
    assert_eq!(g.node_count(), 1);
    assert_eq!(g.get_node(&id).unwrap().statement, "second");
}

#[test]
fn edge_ids_and_node_ids_list_everything_once() {
    let (g, mut ids) = chain(3);
    let mut got = g.node_ids();
    got.sort();
    ids.sort();
    assert_eq!(got, ids);
    assert_eq!(g.edge_ids().len(), 2);
}

#[test]
fn neighbors_follow_insertion_order() {
    let mut g = AmureGraph::new();
    let c = g.add_node(make_hypothesis("center"));
    let r1 = g.add_node(make_hypothesis("one"));
    let r2 = g.add_node(make_hypothesis("two"));
    let r3 = g.add_node(make_hypothesis("three"));
    let e1 = g.add_edge(Edge::new(r1, c, EdgeKind::Reference, "a".into()));
    let e2 = g.add_edge(Edge::new(c, r2, EdgeKind::Subset, "b".into()));
    let e3 = g.add_edge(Edge::new(r3, c, EdgeKind::Orthogonal, "c".into()));

    let both: Vec<u128> = g.neighbors(&c, Direction::Both, None).iter().map(|p| p.0).collect();
    assert_eq!(both, vec![r2, r1, r3]);
    let incoming: Vec<u128> = g.neighbors(&c, Direction::In, None).iter().map(|p| p.1.id).collect();
    assert_eq!(incoming, vec![e1, e3]);

    // Storing an edge again under its identifier lists it once more; the first entry stays.
    let mut again = g.get_edge(&e1).unwrap().clone();
    again.reason = "again".into();
    g.add_edge(again);
    let incoming: Vec<u128> = g.neighbors(&c, Direction::In, None).iter().map(|p| p.1.id).collect();
    assert_eq!(incoming, vec![e1, e3, e1]);
    let reasons: Vec<String> = g.neighbors(&c, Direction::In, None).iter().map(|p| p.1.reason.clone()).collect();
    assert_eq!(reasons, vec!["again".to_string(), "c".to_string(), "again".to_string()]);

    g.remove_edge(&e3);
    let incoming: Vec<u128> = g.neighbors(&c, Direction::In, None).iter().map(|p| p.1.id).collect();
    assert_eq!(incoming, vec![e1, e1]);

    // Removing the edge takes out every entry of it.
    g.remove_edge(&e1);
    assert!(g.neighbors(&c, Direction::In, None).is_empty());
    let out: Vec<u128> = g.neighbors(&c, Direction::Out, Some(&[EdgeKind::Subset])).iter().map(|p| p.1.id).collect();
    assert_eq!(out, vec![e2]);
}

#[test]
fn walk_lists_each_layer_in_discovery_order() {
    let mut g = AmureGraph::new();
    let a = g.add_node(make_hypothesis("a"));
    let b = g.add_node(make_hypothesis("b"));
    let c = g.add_node(make_hypothesis("c"));
    let d = g.add_node(make_hypothesis("d"));
    let e = g.add_node(make_hypothesis("e"));
    g.add_edge(Edge::new(b, a, EdgeKind::Reference, "r".into()));
    g.add_edge(Edge::new(a, c, EdgeKind::Superset, "s".into()));
    g.add_edge(Edge::new(c, e, EdgeKind::Reference, "r".into()));
    g.add_edge(Edge::new(b, d, EdgeKind::Subset, "s".into()));

    // out-edges of a first (c), then in-edges (b); then c's new neighbours, then b's.
    assert_eq!(g.walk(&a, 2, None), vec![(a, 0), (c, 1), (b, 1), (e, 2), (d, 2)]);
    assert_eq!(g.walk(&a, 1, None), vec![(a, 0), (c, 1), (b, 1)]);
    assert_eq!(g.walk(&a, 5, None), g.walk(&a, 2, None));
}

#[test]
fn shorter_walk_is_longer_walk_cut_at_bound() {
    let mut g = AmureGraph::new();
    let a = g.add_node(make_hypothesis("a"));
    let b = g.add_node(make_hypothesis("b"));
    let c = g.add_node(make_hypothesis("c"));
    let d = g.add_node(make_hypothesis("d"));
    g.add_edge(Edge::new(a, b, EdgeKind::Reference, "r".into()));
    g.add_edge(Edge::new(b, c, EdgeKind::Orthogonal, "o".into()));
    g.add_edge(Edge::new(c, d, EdgeKind::Subset, "s".into()));
    for k in 0..4usize {
        let cut: Vec<(u128, usize)> = g.walk(&a, k + 1, None).into_iter().filter(|p| p.1 <= k).collect();
        assert_eq!(g.walk(&a, k, None), cut);
    }
    // Skipping orthogonal edges walks the graph with them removed.
    let ortho: Vec<u128> = g.edge_ids().into_iter().filter(|e| g.get_edge(e).unwrap().kind == EdgeKind::Orthogonal).collect();
    let mut g2 = AmureGraph::new();
    for id in g.node_ids() {
        g2.add_node(g.get_node(&id).unwrap().clone());
    }
    for id in g.edge_ids() {
        g2.add_edge(g.get_edge(&id).unwrap().clone());
    }
    for e in ortho {
        g2.remove_edge(&e);
    }
    assert_eq!(g.walk_exclude_orthogonal(&a, 3), g2.walk(&a, 3, None));
}

#[test]
fn replaced_edge_keeps_entries_of_the_edge_it_replaced() {
    let mut g = AmureGraph::new();
    let a = g.add_node(make_hypothesis("a"));
    let b = g.add_node(make_hypothesis("b"));
    let c = g.add_node(make_hypothesis("c"));
    let d = g.add_node(make_hypothesis("d"));
    let id = g.add_edge(Edge::new(a, b, EdgeKind::Reference, "first".into()));
    let mut moved = g.get_edge(&id).unwrap().clone();
    moved.source = c;
    moved.target = d;
    assert_eq!(g.add_edge(moved), id);
    assert_eq!(g.edge_count(), 1);

    // The entry under `a` stays and now names the stored edge, whose target is `d`.
    let from_a: Vec<u128> = g.neighbors(&a, Direction::Out, None).iter().map(|p| p.0).collect();
    assert_eq!(from_a, vec![d]);
    let from_c: Vec<u128> = g.neighbors(&c, Direction::Out, None).iter().map(|p| p.0).collect();
    assert_eq!(from_c, vec![d]);
    let into_b: Vec<u128> = g.neighbors(&b, Direction::In, None).iter().map(|p| p.0).collect();
    assert_eq!(into_b, vec![c]);

    // Removing it clears the lists of the stored edge's ends only.
    g.remove_edge(&id);
    assert_eq!(g.edge_count(), 0);
    assert!(g.neighbors(&c, Direction::Out, None).is_empty());
    assert!(g.neighbors(&d, Direction::In, None).is_empty());
    assert!(g.neighbors(&a, Direction::Out, None).is_empty());
}

#[test]
fn remove_node_removes_every_edge_its_indexes_list() {
    let mut g = AmureGraph::new();
    let a = g.add_node(make_hypothesis("a"));
    let b = g.add_node(make_hypothesis("b"));
    let c = g.add_node(make_hypothesis("c"));
    let d = g.add_node(make_hypothesis("d"));
    let id = g.add_edge(Edge::new(a, b, EdgeKind::Reference, "first".into()));
    let mut moved = g.get_edge(&id).unwrap().clone();
    moved.source = c;
    moved.target = d;
    g.add_edge(moved);
    let kept = g.add_edge(Edge::new(c, d, EdgeKind::Subset, "kept".into()));

    // `a` still lists the identifier, so removing `a` removes the edge now from `c` to `d`.
    g.remove_node(&a);
    assert_eq!(g.edge_count(), 1);
    assert!(g.get_edge(&id).is_none());
    assert!(g.get_edge(&kept).is_some());
    let from_c: Vec<u128> = g.neighbors(&c, Direction::Out, None).iter().map(|p| p.1.id).collect();
    assert_eq!(from_c, vec![kept]);
}
