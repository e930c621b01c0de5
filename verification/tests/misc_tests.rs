use amure_db::embedding::{first_embedding, order_by_index};
use amure_db::node::{tokenize_lowercased, Node, NodeStatus, ExperimentKind, Verdict};
use amure_db::edge::EdgeKind;
use amure_db::parse::{parse_edge_kind, parse_experiment_kind, parse_node_status, parse_verdict};
use amure_db::search::{search_eligible, status_matches, status_quotas};
use amure_db::text::{char_is_whitespace, is_blank, str_eq, str_eq_ignore_ascii_case};

#[test]
fn parse_words() {
    assert_eq!(parse_node_status("accepted"), NodeStatus::Accept);
    assert_eq!(parse_node_status("Rejected"), NodeStatus::Decline);
    assert_eq!(parse_node_status("declined"), NodeStatus::Decline);
    assert_eq!(parse_node_status("draft"), NodeStatus::Draft);
    assert_eq!(parse_node_status("ACCEPT"), NodeStatus::Draft);
    assert_eq!(parse_edge_kind("subset"), EdgeKind::Subset);
    assert_eq!(parse_edge_kind("Orthogonal"), EdgeKind::Orthogonal);
    assert_eq!(parse_edge_kind("superset"), EdgeKind::Superset);
    assert_eq!(parse_edge_kind("whatever"), EdgeKind::Reference);
    assert_eq!(parse_experiment_kind("temporal"), ExperimentKind::Temporal);
    assert_eq!(parse_experiment_kind("Combo"), ExperimentKind::Combo);
    assert_eq!(parse_experiment_kind("regime"), ExperimentKind::Regime);
    assert_eq!(parse_experiment_kind("x"), ExperimentKind::Universe);
    assert_eq!(parse_verdict("rebut"), Verdict::Rebut);
    assert_eq!(parse_verdict("nope"), Verdict::Support);
}

#[test]
fn parse_names_round_trip() {
    for s in [NodeStatus::Draft, NodeStatus::Accept, NodeStatus::Decline] {
        assert_eq!(parse_node_status(&s.name()), s);
    }
    for k in [EdgeKind::Reference, EdgeKind::Superset, EdgeKind::Subset, EdgeKind::Orthogonal] {
        assert_eq!(parse_edge_kind(&k.name()), k);
    }
}

#[test]
fn drafts_are_never_searched() {
    let mut n = Node::new("x".into());
    assert!(!search_eligible(&n, true));
    assert!(!search_eligible(&n, false));
    n.status = NodeStatus::Decline;
    assert!(search_eligible(&n, true));
    assert!(!search_eligible(&n, false));
    n.status = NodeStatus::Accept;
    assert!(search_eligible(&n, false));
}

#[test]
fn status_filter_ignores_ascii_case() {
    assert!(status_matches(NodeStatus::Accept, &None));
    assert!(status_matches(NodeStatus::Accept, &Some("accept".to_string())));
    assert!(status_matches(NodeStatus::Decline, &Some("DECLINE".to_string())));
    assert!(!status_matches(NodeStatus::Decline, &Some("Accept".to_string())));
    assert!(!status_matches(NodeStatus::Draft, &Some("drafts".to_string())));
}

#[test]
fn status_filter_all_lets_every_status_through() {
    for s in [NodeStatus::Draft, NodeStatus::Accept, NodeStatus::Decline] {
        assert!(status_matches(s, &Some("all".to_string())));
        assert!(status_matches(s, &Some("ALL".to_string())));
        assert!(status_matches(s, &Some("All".to_string())));
    }
    assert!(!status_matches(NodeStatus::Accept, &Some("al".to_string())));
}

#[test]
fn string_helpers() {
    assert!(is_blank(""));
    assert!(is_blank(" \t\u{3000}"));
    assert!(!is_blank(" a "));
    assert!(str_eq("가나", "가나"));
    assert!(!str_eq("ab", "abc"));
    assert!(str_eq_ignore_ascii_case("HeLLo", "hello"));
    assert!(!str_eq_ignore_ascii_case("Ä", "ä"));
}

#[test]
fn embeddings_come_back_in_index_order() {
    let data = vec![(2usize, vec![20u32]), (0, vec![0]), (1, vec![10]), (0, vec![1])];
    assert_eq!(order_by_index(data), vec![vec![0u32], vec![1], vec![10], vec![20]]);
    assert_eq!(order_by_index(Vec::new()), Vec::<Vec<u32>>::new());
}

#[test]
fn first_embedding_of_a_reply() {
    assert_eq!(first_embedding(vec![vec![1u32, 2], vec![3]]), Some(vec![1u32, 2]));
    assert_eq!(first_embedding(Vec::new()), None);
}

#[test]
fn embedding_bits_round_trip() {
    let v = vec![0.5f32, -1.25];
    let bits: Vec<u32> = v.iter().map(|x| x.to_bits()).collect();
    let mut n = Node::new("e".into());
    n.embedding = Some(bits);
    let back: Vec<f32> = n.embedding.unwrap().iter().map(|b| f32::from_bits(*b)).collect();
    assert_eq!(back, v);
}

#[test]
fn white_space_is_the_unicode_property() {
    for u in 0u32..=0x10FFFF {
        if let Some(c) = char::from_u32(u) {
            assert_eq!(char_is_whitespace(c), c.is_whitespace(), "U+{:04X}", u);
        }
    }
}

#[test]
fn status_quotas_accept_then_decline() {
    assert_eq!(status_quotas(Some(3), Some(2)), vec![(NodeStatus::Accept, 3), (NodeStatus::Decline, 2)]);
    assert_eq!(status_quotas(None, Some(2)), vec![(NodeStatus::Decline, 2)]);
    assert!(status_quotas(None, None).is_empty());
}

#[test]
fn tokens_split_at_a_space_and_are_idempotent() {
    let a = "open_interest 크립토에서";
    let b = "x momentum-alpha";
    let joined = format!("{} {}", a, b);
    let mut expected = tokenize_lowercased(a);
    expected.extend(tokenize_lowercased(b));
    assert_eq!(tokenize_lowercased(&joined), expected);
    let once = tokenize_lowercased("oi 모멘텀은 (momentum) alpha가 a 있다");
    assert_eq!(tokenize_lowercased(&once.join(" ")), once);
}
