use amure_db::node::{tokenize, Experiment, ExperimentKind, Node, NodeKind, NodeStatus, Verdict};

#[test]
fn test_node_creation() {
    let node = Node::new("OI는 momentum의 선행지표다".into());
    assert_eq!(node.kind, NodeKind::Hypothesis);
    assert_eq!(node.status, NodeStatus::Draft);
    assert!(node.abstract_.is_empty());
    assert!(node.experiments.is_empty());
}

#[test]
fn test_node_status() {
    let mut node = Node::new("test".into());
    node.status = NodeStatus::Accept;
    assert_eq!(node.status, NodeStatus::Accept);
    node.status = NodeStatus::Decline;
    assert_eq!(node.status, NodeStatus::Decline);
}

#[test]
fn test_embed_text() {
    let mut node = Node::new("statement".into());
    assert_eq!(node.embed_text(), "statement");
    node.abstract_ = "abstract summary".into();
    assert_eq!(node.embed_text(), "statement abstract summary");
}

#[test]
fn test_experiment() {
    let mut result = serde_json::Map::new();
    result.insert("IR".to_string(), serde_json::Value::from(0.5));
    result.insert("t_stat".to_string(), serde_json::Value::from(2.1));
    let exp = Experiment {
        id: uuid::Uuid::new_v4().as_u128(),
        kind: ExperimentKind::Universe,
        target: "BTC,ETH".into(),
        result: serde_json::Value::Object(result),
        verdict: Verdict::Support,
        note: Some("좋은 결과".into()),
    };
    assert_eq!(exp.kind, ExperimentKind::Universe);
    assert_eq!(exp.verdict, Verdict::Support);
}

#[test]
fn test_tokenize() {
    let tokens = tokenize("OI momentum은 크립토에서 continuation alpha가 있다");
    assert!(tokens.contains(&"momentum".to_string()));
    assert!(tokens.contains(&"continuation".to_string()));
    assert!(tokens.contains(&"alpha".to_string()));
}

#[test]
fn test_tokenize_underscore() {
    let tokens = tokenize("open_interest cross_sectional");
    assert!(tokens.contains(&"open_interest".to_string()));
    assert!(tokens.contains(&"cross_sectional".to_string()));
}

#[test]
fn tokenize_splits_at_script_changes_and_lowercases() {
    let tokens = tokenize("OI momentum은 크립토에서 continuation alpha가 있다");
    assert_eq!(
        tokens,
        vec!["oi", "momentum", "은", "크립토에서", "continuation", "alpha", "가", "있다"]
    );
}

#[test]
fn tokenize_drops_single_ascii_characters() {
    assert_eq!(tokenize("a b-c d_ e"), vec!["b-c", "d_"]);
    assert_eq!(tokenize(""), Vec::<String>::new());
    assert_eq!(tokenize("x"), Vec::<String>::new());
}

#[test]
fn tokenize_keeps_single_hangul_syllable() {
    assert_eq!(tokenize("가"), vec!["가"]);
}

#[test]
fn tokenize_lowercased_leaves_case() {
    assert_eq!(amure_db::node::tokenize_lowercased("AB cd"), vec!["AB", "cd"]);
}

#[test]
fn node_tokens_cover_all_text_fields() {
    let mut node = Node::new("Funding rate".into());
    node.abstract_ = "mean reversion".into();
    node.discussion = "noise".into();
    assert_eq!(node.tokens(), vec!["funding", "rate", "mean", "reversion", "noise"]);
}

#[test]
fn new_nodes_get_version_four_ids() {
    let a = Node::new("a".into());
    let b = Node::new("b".into());
    assert_eq!((a.id >> 76) & 0xf, 4);
    assert_ne!(a.id, b.id);
    assert_eq!(a.created_at, a.updated_at);
    assert!(a.embedding.is_none());
}

#[test]
fn status_names() {
    assert_eq!(NodeStatus::Draft.name(), "Draft");
    assert_eq!(NodeStatus::Accept.name(), "Accept");
    assert_eq!(NodeStatus::Decline.name(), "Decline");
}
