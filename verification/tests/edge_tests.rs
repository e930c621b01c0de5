use amure_db::edge::{Edge, EdgeKind};

#[test]
fn test_edge_creation() {
    let a = uuid::Uuid::new_v4().as_u128();
    let b = uuid::Uuid::new_v4().as_u128();
    let edge = Edge::new(a, b, EdgeKind::Reference, "공통 시그널 사용".into());
    assert_eq!(edge.source, a);
    assert_eq!(edge.target, b);
    assert_eq!(edge.kind, EdgeKind::Reference);
    assert_eq!(edge.reason, "공통 시그널 사용");
}

#[test]
fn test_edge_kinds() {
    let a = uuid::Uuid::new_v4().as_u128();
    let b = uuid::Uuid::new_v4().as_u128();
    assert_eq!(Edge::new(a, b, EdgeKind::Superset, "r".into()).kind, EdgeKind::Superset);
    assert_eq!(Edge::new(a, b, EdgeKind::Subset, "r".into()).kind, EdgeKind::Subset);
    assert_eq!(Edge::new(a, b, EdgeKind::Orthogonal, "r".into()).kind, EdgeKind::Orthogonal);
}

#[test]
fn reverse_kinds() {
    assert_eq!(EdgeKind::Subset.reverse(), EdgeKind::Superset);
    assert_eq!(EdgeKind::Superset.reverse(), EdgeKind::Subset);
    assert_eq!(EdgeKind::Reference.reverse(), EdgeKind::Reference);
    assert_eq!(EdgeKind::Orthogonal.reverse(), EdgeKind::Orthogonal);
    for k in [EdgeKind::Reference, EdgeKind::Superset, EdgeKind::Subset, EdgeKind::Orthogonal] {
        assert_eq!(k.reverse().reverse(), k);
    }
}

#[test]
fn edge_kind_names() {
    assert_eq!(EdgeKind::Reference.name(), "Reference");
    assert_eq!(EdgeKind::Superset.name(), "Superset");
    assert_eq!(EdgeKind::Subset.name(), "Subset");
    assert_eq!(EdgeKind::Orthogonal.name(), "Orthogonal");
}

#[test]
fn edges_get_fresh_ids() {
    let e1 = Edge::new(1, 2, EdgeKind::Reference, "r".into());
    let e2 = Edge::new(1, 2, EdgeKind::Reference, "r".into());
    assert_ne!(e1.id, e2.id);
    assert_eq!((e1.id >> 76) & 0xf, 4);
}
