use refactor_core::dynamic::{merge_from_dynamic, to_dynamic, DynRecord};
use refactor_core::error::RewriteError;
use refactor_core::node::{Head, Node, NodeKind, Span};

fn node(id: u64, kind: NodeKind, text: &str, children: Vec<Node>) -> Node {
    Node::new(id, kind, Span { lo: id as u32, hi: id as u32 + 1 }, Head::Form(text.to_string()), children)
}

fn sample() -> Node {
    node(1, NodeKind::Expression, "+", vec![node(2, NodeKind::Expression, "a", vec![]), node(3, NodeKind::Expression, "b", vec![])])
}

#[test]
fn record_mirrors_node() {
    let r = to_dynamic(&sample());
    assert_eq!(r.kind, NodeKind::Expression);
    assert_eq!(r.head, Head::Form("+".to_string()));
    assert_eq!(r.children.len(), 2);
    assert_eq!(r.children[1].head, Head::Form("b".to_string()));
}

#[test]
fn merging_own_record_changes_nothing() {
    let mut n = sample();
    let r = to_dynamic(&n);
    assert_eq!(merge_from_dynamic(&mut n, &r), Ok(()));
    assert_eq!(n, sample());
}

#[test]
fn merge_writes_changed_heads() {
    let mut n = sample();
    let mut r = to_dynamic(&n);
    r.head = Head::Form("-".to_string());
    r.children[0].head = Head::Form("x".to_string());
    assert_eq!(merge_from_dynamic(&mut n, &r), Ok(()));
    assert_eq!(n.head, Head::Form("-".to_string()));
    assert_eq!(n.children[0].head, Head::Form("x".to_string()));
    assert_eq!(n.children[0].id, 2);
    assert_eq!(n.span, Span { lo: 1, hi: 2 });
    assert_eq!(to_dynamic(&n), r);
}

#[test]
fn merge_refuses_other_shapes() {
    let mut n = sample();
    let r = DynRecord { kind: NodeKind::Type, head: Head::Form("u8".to_string()), children: vec![] };
    assert_eq!(merge_from_dynamic(&mut n, &r), Err(RewriteError::KindMismatch));
    assert_eq!(n, sample());
    let mut short = to_dynamic(&n);
    short.children.pop();
    assert_eq!(merge_from_dynamic(&mut n, &short), Err(RewriteError::KindMismatch));
    assert_eq!(n, sample());
}
