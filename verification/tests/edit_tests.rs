use amure_db::edge::{Edge, EdgeKind};
use amure_db::edit::NodeUpdate;
use amure_db::graph::AmureGraph;
use amure_db::node::{ExperimentKind, Node, NodeStatus, Verdict};

fn no_update() -> NodeUpdate {
    NodeUpdate { status: None, statement: None, abstract_: None, discussion: None }
}

#[test]
fn update_sets_only_given_fields() {
    let mut g = AmureGraph::new();
    let mut n = Node::new("first".into());
    n.discussion = "kept".into();
    let id = g.add_node(n);
    let update = NodeUpdate {
        status: Some(NodeStatus::Accept),
        abstract_: Some("short".into()),
        ..no_update()
    };
    assert!(g.update_node(&id, update));
    let n = g.get_node(&id).unwrap();
    assert_eq!(n.status, NodeStatus::Accept);
    assert_eq!(n.abstract_, "short");
    assert_eq!(n.statement, "first");
    assert_eq!(n.discussion, "kept");
    assert!(n.updated_at.secs >= n.created_at.secs);
}

#[test]
fn update_of_missing_node_changes_nothing() {
    let mut g = AmureGraph::new();
    let id = g.add_node(Node::new("a".into()));
    let update = NodeUpdate { statement: Some("b".into()), ..no_update() };
    assert!(!g.update_node(&(id ^ 1), update));
    assert_eq!(g.get_node(&id).unwrap().statement, "a");
    assert_eq!(g.node_count(), 1);
}

#[test]
fn experiment_is_recorded_last() {
    let mut g = AmureGraph::new();
    let id = g.add_node(Node::new("h".into()));
    let first = g
        .add_experiment(&id, ExperimentKind::Regime, "BTC".into(), serde_json::Value::Null, Verdict::Rebut, None)
        .unwrap();
    let second = g
        .add_experiment(
            &id,
            ExperimentKind::Combo,
            "ETH".into(),
            serde_json::Value::Bool(true),
            Verdict::Support,
            Some("note".into()),
        )
        .unwrap();
    let n = g.get_node(&id).unwrap();
    assert_eq!(n.experiments.len(), 2);
    assert_eq!(n.experiments[0].id, first);
    assert_eq!(n.experiments[0].kind, ExperimentKind::Regime);
    assert_eq!(n.experiments[0].verdict, Verdict::Rebut);
    assert_eq!(n.experiments[1].id, second);
    assert_eq!(n.experiments[1].target, "ETH");
    assert_eq!(n.experiments[1].result, serde_json::Value::Bool(true));
    assert_eq!(n.experiments[1].note.as_deref(), Some("note"));
    assert_eq!(n.statement, "h");
}

#[test]
fn experiment_on_missing_node_is_refused() {
    let mut g = AmureGraph::new();
    let id = g.add_node(Node::new("h".into()));
    let r = g.add_experiment(&(id ^ 1), ExperimentKind::Universe, "x".into(), serde_json::Value::Null, Verdict::Support, None);
    assert!(r.is_none());
    assert!(g.get_node(&id).unwrap().experiments.is_empty());
}

#[test]
fn attach_embedding_sets_vector() {
    let mut g = AmureGraph::new();
    let id = g.add_node(Node::new("h".into()));
    assert!(g.attach_embedding(&id, vec![1, 2, 3]));
    assert_eq!(g.get_node(&id).unwrap().embedding, Some(vec![1, 2, 3]));
    assert!(!g.attach_embedding(&(id ^ 1), vec![4]));
}

#[test]
fn embedding_inputs_list_every_node() {
    let mut g = AmureGraph::new();
    let mut a = Node::new("alpha".into());
    a.abstract_ = "sum".into();
    let a = g.add_node(a);
    let mut b = Node::new("beta".into());
    b.embedding = Some(vec![7]);
    let b = g.add_node(b);
    let (texts, ids) = g.embedding_inputs();
    assert_eq!(ids.len(), 2);
    for (t, id) in texts.iter().zip(ids.iter()) {
        let expected = if *id == a { "alpha sum" } else { "beta" };
        assert!(*id == a || *id == b);
        assert_eq!(t, expected);
    }

    // Embedding every node replaces an embedding already there.
    let embs: Vec<Vec<u32>> = ids.iter().map(|id| vec![(*id % 1000) as u32 + 1]).collect();
    let count = g.set_embeddings(&ids, embs.clone());
    assert_eq!(count, g.node_count());
    for (id, e) in ids.iter().zip(embs.iter()) {
        assert_eq!(g.get_node(id).unwrap().embedding.as_ref(), Some(e));
    }
}

#[test]
fn set_embeddings_pairs_positions() {
    let mut g = AmureGraph::new();
    let a = g.add_node(Node::new("a".into()));
    let b = g.add_node(Node::new("b".into()));
    let missing = a ^ b ^ 1;
    let ids = vec![a, missing, b];
    let count = g.set_embeddings(&ids, vec![vec![10], vec![20]]);
    assert_eq!(count, 1);
    assert_eq!(g.get_node(&a).unwrap().embedding, Some(vec![10]));
    assert_eq!(g.get_node(&b).unwrap().embedding, None);

    let count = g.set_embeddings(&vec![b, b], vec![vec![1], vec![2], vec![3]]);
    assert_eq!(count, 2);
    assert_eq!(g.get_node(&b).unwrap().embedding, Some(vec![2]));
}

#[test]
fn node_with_fields() {
    let n = Node::with_fields("s".into(), NodeStatus::Decline, Some("abs".into()), None);
    assert_eq!(n.status, NodeStatus::Decline);
    assert_eq!(n.abstract_, "abs");
    assert!(n.discussion.is_empty());
    assert!(n.experiments.is_empty());
    assert!(n.embedding.is_none());
    assert_eq!(n.created_at, n.updated_at);
    assert_eq!(n.embed_text(), "s abs");
}

#[test]
fn search_pool_rules() {
    let mut g = AmureGraph::new();
    let mut accept = Node::new("a".into());
    accept.status = NodeStatus::Accept;
    accept.embedding = Some(vec![1]);
    let accept = g.add_node(accept);
    let mut decline = Node::new("d".into());
    decline.status = NodeStatus::Decline;
    decline.embedding = Some(vec![2]);
    let decline = g.add_node(decline);
    let mut draft = Node::new("x".into());
    draft.embedding = Some(vec![3]);
    g.add_node(draft);
    let mut bare = Node::new("b".into());
    bare.status = NodeStatus::Accept;
    g.add_node(bare);

    let pool = g.search_pool(false);
    assert_eq!(pool.len(), 1);
    assert_eq!(pool[0].0, accept);
    assert_eq!(*pool[0].1, vec![1]);

    let mut ids: Vec<u128> = g.search_pool(true).iter().map(|p| p.0).collect();
    ids.sort();
    let mut expected = vec![accept, decline];
    expected.sort();
    assert_eq!(ids, expected);
}

#[test]
fn rebuild_from_listing_gives_back_graph() {
    let mut g = AmureGraph::new();
    let a = g.add_node(Node::new("a".into()));
    let b = g.add_node(Node::new("b".into()));
    g.add_edge_with_reverse(a, b, EdgeKind::Subset, "part".into()).unwrap();
    let nodes: Vec<Node> = g.node_ids().iter().map(|k| g.get_node(k).unwrap().clone()).collect();
    let edges: Vec<Edge> = g.edge_ids().iter().map(|k| g.get_edge(k).unwrap().clone()).collect();
    let h = AmureGraph::from_parts(nodes, edges);
    assert_eq!(h.node_count(), 2);
    assert_eq!(h.edge_count(), 2);
    for k in g.node_ids() {
        assert_eq!(h.get_node(&k).unwrap().statement, g.get_node(&k).unwrap().statement);
    }
    for k in g.edge_ids() {
        let (x, y) = (h.get_edge(&k).unwrap(), g.get_edge(&k).unwrap());
        assert_eq!((x.source, x.target, x.kind, &x.reason), (y.source, y.target, y.kind, &y.reason));
    }
    assert_eq!(h.walk(&a, 1, None).len(), 2);
}

#[test]
fn rebuild_later_entry_wins() {
    let mut first = Node::new("first".into());
    let mut second = Node::new("second".into());
    second.id = first.id;
    first.status = NodeStatus::Accept;
    let h = AmureGraph::from_parts(vec![first, second], Vec::new());
    let id = h.node_ids()[0];
    assert_eq!(h.node_count(), 1);
    assert_eq!(h.get_node(&id).unwrap().statement, "second");
    assert_eq!(h.get_node(&id).unwrap().status, NodeStatus::Draft);
}

#[test]
fn recorded_experiments_are_counted() {
    let mut g = AmureGraph::new();
    let a = g.add_node(Node::new("a".into()));
    g.add_node(Node::new("b".into()));
    assert_eq!(g.summary().n_experiments, 0);
    g.add_experiment(&a, ExperimentKind::Temporal, "t".into(), serde_json::Value::Null, Verdict::Support, None);
    assert_eq!(g.summary().n_experiments, 1);
    g.add_experiment(&a, ExperimentKind::Temporal, "t".into(), serde_json::Value::Null, Verdict::Rebut, None);
    assert_eq!(g.summary().n_experiments, 2);
}
