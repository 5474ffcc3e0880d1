use refactor_core::error::RewriteError;
use refactor_core::marks::group_marks;
use refactor_core::node::{Head, NodeKind};
use refactor_core::scripting::{
    assign_expr, binary_expr, cast_expr, ident_path_expr, is_binary_op, ident_path_ty, vec_mac_init_num, DUMMY_NODE_ID,
};

fn head_text(h: &Head) -> &str {
    match h {
        Head::Form(s) => s,
        Head::Placeholder(s) => s,
    }
}

#[test]
fn binary_expr_builds_operator_node() {
    let e = binary_expr("Add", ident_path_expr("a"), ident_path_expr("b")).expect("known operator");
    assert_eq!(e.kind, NodeKind::Expression);
    assert_eq!(head_text(&e.head), "+");
    assert_eq!(e.id, DUMMY_NODE_ID);
    assert_eq!(e.children.len(), 2);
    assert_eq!(head_text(&e.children[1].head), "b");
    let d = binary_expr("Div", ident_path_expr("a"), ident_path_expr("b")).expect("known operator");
    assert_eq!(head_text(&d.head), "/");
}

#[test]
fn binary_expr_rejects_unknown_operator() {
    assert!(!is_binary_op("Shl"));
    assert!(is_binary_op("Add"));
    assert!(is_binary_op("Div"));
}

#[test]
fn builders_check_kinds() {
    assert_eq!(assign_expr(ident_path_ty("u8"), ident_path_expr("b")), Err(RewriteError::KindMismatch));
    assert_eq!(cast_expr(ident_path_expr("x"), ident_path_expr("y")), Err(RewriteError::KindMismatch));
    let c = cast_expr(ident_path_expr("x"), ident_path_ty("u32")).expect("expression and type");
    assert_eq!(head_text(&c.head), "as");
    assert_eq!(c.children[1].kind, NodeKind::Type);
    let a = assign_expr(ident_path_expr("x"), ident_path_expr("y")).expect("two expressions");
    assert_eq!(head_text(&a.head), "=");
    let v = vec_mac_init_num(ident_path_expr("0"), ident_path_expr("n")).expect("two expressions");
    assert_eq!(head_text(&v.head), "vec!");
    assert_eq!(v.attrs.len(), 0);
}

#[test]
fn marks_are_grouped_by_node() {
    let marks = vec![
        (3u64, "target".to_string()),
        (5u64, "other".to_string()),
        (3u64, "second".to_string()),
    ];
    let g = group_marks(&marks);
    assert_eq!(g.len(), 2);
    assert_eq!(g.get(&3), Some(&vec!["target".to_string(), "second".to_string()]));
    assert_eq!(g.get(&5), Some(&vec!["other".to_string()]));
    assert!(group_marks(&Vec::new()).is_empty());
}

#[test]
fn int_literal_text() {
    let e = refactor_core::scripting::int_lit_expr(42);
    assert_eq!(head_text(&e.head), "42");
    assert_eq!(e.kind, NodeKind::Expression);
    let n = refactor_core::scripting::int_lit_expr(-7);
    assert_eq!(head_text(&n.head), "-7");
    let z = refactor_core::scripting::int_lit_expr(0);
    assert_eq!(head_text(&z.head), "0");
}
