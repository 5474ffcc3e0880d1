use refactor_core::bindings::Bindings;
use refactor_core::error::{Operation, RewriteError};
use refactor_core::fold::{fold_with, TemplateRewriter};
use refactor_core::matcher::{find_first, placeholder_kinds_agree, try_match};
use refactor_core::node::{Head, Node, NodeKind, Span};
use refactor_core::scripting::{
    dispatch, enter_transform, phase_from_arg, MatchCtxt, Phase, ScriptingMatchCtxt, TransformCtxt,
};
use refactor_core::subst::{kinds_agree, subst};

fn sp(lo: u32, hi: u32) -> Span {
    Span { lo, hi }
}

fn leaf(id: u64, kind: NodeKind, text: &str) -> Node {
    Node::new(id, kind, sp(0, 0), Head::Form(text.to_string()), Vec::new())
}

fn hole(id: u64, kind: NodeKind, name: &str) -> Node {
    Node::new(id, kind, sp(0, 0), Head::Placeholder(name.to_string()), Vec::new())
}

fn expr(id: u64, op: &str, children: Vec<Node>) -> Node {
    Node::new(id, NodeKind::Expression, sp(0, 0), Head::Form(op.to_string()), children)
}

fn ident(id: u64, name: &str) -> Node {
    leaf(id, NodeKind::Expression, name)
}

/// `lhs = rhs;`
fn assign_stmt(id: u64, lhs: Node, rhs: Node) -> Node {
    let e = expr(id + 1, "=", vec![lhs, rhs]);
    Node::new(id, NodeKind::Statement, sp(0, 0), Head::Form("semi".to_string()), vec![e])
}

fn block(id: u64, stmts: Vec<Node>) -> Node {
    Node::new(id, NodeKind::StatementList, sp(0, 0), Head::Form("block".to_string()), stmts)
}

fn text(n: &Node) -> String {
    match &n.head {
        Head::Form(s) => s.clone(),
        Head::Placeholder(s) => format!("${}", s),
    }
}

fn render(n: &Node) -> String {
    if n.children.is_empty() {
        return text(n);
    }
    let parts: Vec<String> = n.children.iter().map(render).collect();
    format!("{}({})", text(n), parts.join(", "))
}

#[test]
fn fold_replaces_statement_window() {
    let mut tree = block(
        1,
        vec![
            assign_stmt(10, ident(12, "a"), ident(13, "1")),
            assign_stmt(20, ident(22, "b"), ident(23, "2")),
        ],
    );
    let pattern = block(100, vec![assign_stmt(110, hole(112, NodeKind::Expression, "x"), ident(113, "1"))]);
    let template = block(200, vec![assign_stmt(210, hole(212, NodeKind::Expression, "x"), ident(213, "0"))]);
    let rw = TemplateRewriter { template };
    assert_eq!(fold_with(&pattern, &mut tree, &Bindings::new(), &rw), Ok(()));
    assert_eq!(render(&tree), "block(semi(=(a, 0)), semi(=(b, 2)))");
    assert_eq!(tree.children.len(), 2);
    assert_eq!(tree.children[1].id, 20);
}

#[test]
fn fold_without_match_leaves_tree() {
    let mut tree = block(
        1,
        vec![
            assign_stmt(10, ident(12, "a"), ident(13, "1")),
            assign_stmt(20, ident(22, "b"), ident(23, "2")),
        ],
    );
    let before = render(&tree);
    let pattern = expr(100, "+", vec![hole(101, NodeKind::Expression, "x"), ident(102, "7")]);
    let rw = TemplateRewriter { template: ident(200, "zero") };
    assert_eq!(fold_with(&pattern, &mut tree, &Bindings::new(), &rw), Ok(()));
    assert_eq!(render(&tree), before);
    assert_eq!(tree.children[0].children[0].children[0].id, 12);
}

#[test]
fn fold_rewrites_every_expression_match() {
    // (a + 1) * (b + 1)  with  $x + 1  ->  inc($x)
    let mut tree = expr(
        1,
        "*",
        vec![
            expr(2, "+", vec![ident(3, "a"), ident(4, "1")]),
            expr(5, "+", vec![ident(6, "b"), ident(7, "1")]),
        ],
    );
    let pattern = expr(100, "+", vec![hole(101, NodeKind::Expression, "x"), ident(102, "1")]);
    let template = expr(200, "inc", vec![hole(201, NodeKind::Expression, "x")]);
    let rw = TemplateRewriter { template };
    assert_eq!(fold_with(&pattern, &mut tree, &Bindings::new(), &rw), Ok(()));
    assert_eq!(render(&tree), "*(inc(a), inc(b))");
}

#[test]
fn fold_reports_kind_mismatch() {
    let mut tree = expr(1, "+", vec![ident(2, "a"), ident(3, "1")]);
    let pattern = expr(100, "+", vec![hole(101, NodeKind::Expression, "x"), ident(102, "1")]);
    // The template is a type, but it replaces an expression.
    let rw = TemplateRewriter { template: leaf(200, NodeKind::Type, "u8") };
    assert_eq!(fold_with(&pattern, &mut tree, &Bindings::new(), &rw), Err(RewriteError::KindMismatch));
}

#[test]
fn match_placeholder_free_ignores_spans() {
    let p = expr(1, "+", vec![ident(2, "a"), ident(3, "b")]);
    let mut c = expr(50, "+", vec![ident(51, "a"), ident(52, "b")]);
    c.span = sp(40, 90);
    let r = try_match(&p, &c, Bindings::new());
    assert!(r.is_some());
    assert_eq!(r.unwrap().entries.len(), 0);
    let d = expr(60, "+", vec![ident(61, "a"), ident(62, "c")]);
    assert!(try_match(&p, &d, Bindings::new()).is_none());
    let e = expr(70, "-", vec![ident(71, "a"), ident(72, "b")]);
    assert!(try_match(&p, &e, Bindings::new()).is_none());
}

#[test]
fn repeated_placeholder_needs_equal_captures() {
    let p = expr(1, "+", vec![hole(2, NodeKind::Expression, "x"), hole(3, NodeKind::Expression, "x")]);
    let same = expr(10, "+", vec![ident(11, "a"), ident(12, "a")]);
    let differ = expr(20, "+", vec![ident(21, "a"), ident(22, "b")]);
    let r = try_match(&p, &same, Bindings::new()).expect("captures agree");
    assert_eq!(r.entries.len(), 1);
    assert_eq!(r.entries[0].name, "x");
    assert_eq!(render(&r.entries[0].node), "a");
    assert!(try_match(&p, &differ, Bindings::new()).is_none());
}

#[test]
fn placeholder_binds_only_its_kind() {
    let p = hole(1, NodeKind::Type, "t");
    assert!(try_match(&p, &ident(2, "a"), Bindings::new()).is_none());
    assert!(try_match(&p, &leaf(3, NodeKind::Type, "u8"), Bindings::new()).is_some());
}

#[test]
fn list_pattern_matches_first_window() {
    let list = block(
        1,
        vec![
            assign_stmt(10, ident(12, "a"), ident(13, "1")),
            assign_stmt(20, ident(22, "b"), ident(23, "1")),
        ],
    );
    let p = block(100, vec![assign_stmt(110, hole(112, NodeKind::Expression, "x"), ident(113, "1"))]);
    let r = try_match(&p, &list, Bindings::new()).expect("a window matches");
    assert_eq!(render(&r.entries[0].node), "a");
}

#[test]
fn subst_without_placeholders_is_unchanged() {
    let t = expr(1, "+", vec![ident(2, "a"), ident(3, "b")]);
    let mut env = Bindings::new();
    env.insert("x".to_string(), ident(9, "z"));
    assert!(kinds_agree(&t, &env));
    let r = subst(&t, &env);
    assert_eq!(r, t);
}

#[test]
fn subst_single_placeholder_gives_binding() {
    let t = hole(1, NodeKind::Expression, "x");
    let bound = expr(5, "*", vec![ident(6, "p"), ident(7, "q")]);
    let mut env = Bindings::new();
    env.insert("x".to_string(), expr(5, "*", vec![ident(6, "p"), ident(7, "q")]));
    assert!(kinds_agree(&t, &env));
    let r = subst(&t, &env);
    assert_eq!(r, bound);
}

#[test]
fn subst_kind_mismatch_is_an_error() {
    let t = expr(1, "cast", vec![ident(2, "a"), hole(3, NodeKind::Type, "t")]);
    let mut env = Bindings::new();
    env.insert("t".to_string(), ident(9, "notatype"));
    assert!(!kinds_agree(&t, &env));
}

#[test]
fn subst_keeps_unbound_placeholder() {
    let t = hole(1, NodeKind::Expression, "y");
    let env = Bindings::new();
    assert_eq!(subst(&t, &env), hole(1, NodeKind::Expression, "y"));
}

#[test]
fn find_first_searches_subtrees() {
    let tree = block(1, vec![assign_stmt(10, ident(12, "a"), expr(13, "+", vec![ident(14, "b"), ident(15, "1")]))]);
    let p = expr(100, "+", vec![hole(101, NodeKind::Expression, "x"), ident(102, "1")]);
    let r = find_first(&p, &tree, &Bindings::new()).expect("found");
    assert_eq!(render(&r.entries[0].node), "b");
    let q = expr(200, "-", vec![hole(201, NodeKind::Expression, "x"), ident(202, "1")]);
    assert!(find_first(&q, &tree, &Bindings::new()).is_none());
}

#[test]
fn dispatch_exhaustion_is_an_error() {
    assert_eq!(dispatch(Operation::FoldWith, NodeKind::Declaration), Err(RewriteError::NoMatchingKind(Operation::FoldWith)));
    assert_eq!(dispatch(Operation::TryMatch, NodeKind::Type), Err(RewriteError::NoMatchingKind(Operation::TryMatch)));
    assert_eq!(dispatch(Operation::Subst, NodeKind::Statement), Ok(NodeKind::Statement));
    let ctx = ScriptingMatchCtxt::new(TransformCtxt { phase: Phase::Phase3 });
    let mut tree = block(1, vec![]);
    let needle = leaf(5, NodeKind::Declaration, "fn");
    let rw = TemplateRewriter { template: leaf(6, NodeKind::Declaration, "fn") };
    assert_eq!(
        ctx.fold_with(&needle, &mut tree, &rw),
        Err(RewriteError::NoMatchingKind(Operation::FoldWith))
    );
    assert_eq!(tree, block(1, vec![]));
}

#[test]
fn scripting_try_match_updates_bindings() {
    let mut ctx = ScriptingMatchCtxt::new(TransformCtxt { phase: Phase::Phase1 });
    let p = expr(1, "+", vec![hole(2, NodeKind::Expression, "x"), ident(3, "1")]);
    let c = expr(10, "+", vec![ident(11, "n"), ident(12, "1")]);
    let t = leaf(20, NodeKind::Type, "u8");
    assert_eq!(ctx.try_match(&p, &t), Ok(false));
    assert_eq!(ctx.mcx.bindings.entries.len(), 0);
    assert_eq!(ctx.try_match(&p, &c), Ok(true));
    let got = ctx.get_binding(&"x".to_string(), NodeKind::Expression).expect("bound");
    assert_eq!(render(&got), "n");
    assert!(ctx.has_binding(&"x".to_string(), NodeKind::Expression));
    assert!(!ctx.has_binding(&"x".to_string(), NodeKind::Type));
    assert!(!ctx.has_binding(&"y".to_string(), NodeKind::Expression));
    assert_eq!(ctx.try_match(&t, &t), Err(RewriteError::NoMatchingKind(Operation::TryMatch)));
    let out = ctx.subst(&expr(30, "-", vec![hole(31, NodeKind::Expression, "x")])).expect("built");
    assert_eq!(render(&out), "-(n)");
}

#[test]
fn scripting_find_first_needs_statement_list() {
    let ctx = ScriptingMatchCtxt::new(TransformCtxt { phase: Phase::Phase2 });
    let p = ident(1, "a");
    assert_eq!(ctx.find_first(&p, &ident(2, "a")), Err(RewriteError::UnsupportedTarget));
    let tree = block(3, vec![assign_stmt(10, ident(12, "a"), ident(13, "1"))]);
    assert_eq!(ctx.find_first(&p, &tree), Ok(true));
    assert_eq!(ctx.find_first(&ident(4, "q"), &tree), Ok(false));
}

#[test]
fn subcontext_keeps_transform() {
    let ctx = ScriptingMatchCtxt::new(TransformCtxt { phase: Phase::Phase2 });
    let mut m = MatchCtxt::new();
    m.bindings.insert("x".to_string(), ident(1, "a"));
    let sub = ctx.new_subcontext(m);
    assert_eq!(sub.transform, TransformCtxt { phase: Phase::Phase2 });
    assert_eq!(sub.mcx.bindings.entries.len(), 1);
    assert_eq!(ctx.mcx.bindings.entries.len(), 0);
}

#[test]
fn phase_argument() {
    assert_eq!(phase_from_arg(None), Ok(Phase::Phase3));
    assert_eq!(phase_from_arg(Some(1)), Ok(Phase::Phase1));
    assert_eq!(phase_from_arg(Some(2)), Ok(Phase::Phase2));
    assert_eq!(phase_from_arg(Some(3)), Ok(Phase::Phase3));
    assert_eq!(phase_from_arg(Some(0)), Err(RewriteError::PhaseOutOfRange));
    assert_eq!(phase_from_arg(Some(4)), Err(RewriteError::PhaseOutOfRange));
}

#[test]
fn transform_context_is_handed_to_callback() {
    let r = enter_transform(Phase::Phase1, |cx: TransformCtxt| cx.phase == Phase::Phase1);
    assert!(r);
}

#[test]
fn fold_sees_context_bindings() {
    // With `y` bound to `a` in the context, a template `$y` is filled with `a`.
    let mut ctx = ScriptingMatchCtxt::new(TransformCtxt { phase: Phase::Phase3 });
    ctx.mcx.bindings.insert("y".to_string(), ident(50, "a"));
    let mut tree = expr(1, "+", vec![ident(2, "b"), ident(3, "1")]);
    let pattern = expr(100, "+", vec![hole(101, NodeKind::Expression, "x"), ident(102, "1")]);
    let template = expr(200, "*", vec![hole(201, NodeKind::Expression, "x"), hole(202, NodeKind::Expression, "y")]);
    let rw = TemplateRewriter { template };
    assert_eq!(ctx.fold_with(&pattern, &mut tree, &rw), Ok(()));
    assert_eq!(render(&tree), "*(b, a)");
}

#[test]
fn find_first_starts_from_context_bindings() {
    let mut ctx = ScriptingMatchCtxt::new(TransformCtxt { phase: Phase::Phase3 });
    ctx.mcx.bindings.insert("x".to_string(), ident(50, "a"));
    let p = hole(1, NodeKind::Expression, "x");
    let with_b = block(3, vec![Node::new(10, NodeKind::Statement, Span { lo: 0, hi: 0 }, Head::Form("semi".to_string()), vec![ident(11, "b")])]);
    assert_eq!(ctx.find_first(&p, &with_b), Ok(false));
    let with_a = block(4, vec![Node::new(20, NodeKind::Statement, Span { lo: 0, hi: 0 }, Head::Form("semi".to_string()), vec![ident(21, "a")])]);
    assert_eq!(ctx.find_first(&p, &with_a), Ok(true));
}

#[test]
fn fold_error_leaves_tree_as_far_as_it_got() {
    // A statement whose left side is a type is no match for `$x`; and a
    // rewrite to a node of another kind stops the fold at the first match,
    // leaving the statements as they were.
    let mut tree = block(
        1,
        vec![
            assign_stmt(10, ident(12, "a"), ident(13, "1")),
            assign_stmt(20, leaf(22, NodeKind::Type, "t"), ident(23, "1")),
            assign_stmt(30, ident(32, "c"), ident(33, "1")),
        ],
    );
    let pattern = block(100, vec![assign_stmt(110, hole(112, NodeKind::Expression, "x"), ident(113, "1"))]);
    let template = block(200, vec![assign_stmt(210, hole(212, NodeKind::Expression, "x"), ident(213, "0"))]);
    let rw = TemplateRewriter { template };
    // `$x` only matches expressions, so the type-keyed statement is no match;
    // all three statements stay, with the expression ones rewritten.
    assert_eq!(fold_with(&pattern, &mut tree, &Bindings::new(), &rw), Ok(()));
    assert_eq!(render(&tree), "block(semi(=(a, 0)), semi(=(t, 1)), semi(=(c, 0)))");
    let mut second = block(
        1,
        vec![
            assign_stmt(10, ident(12, "a"), ident(13, "1")),
            assign_stmt(20, ident(22, "b"), ident(23, "1")),
        ],
    );
    let bad = TemplateRewriter { template: leaf(300, NodeKind::Type, "u8") };
    assert_eq!(fold_with(&pattern, &mut second, &Bindings::new(), &bad), Err(RewriteError::KindMismatch));
    assert_eq!(render(&second), "block(semi(=(a, 1)), semi(=(b, 1)))");
}

#[test]
fn conflicting_placeholder_kinds_are_detected() {
    let p = expr(1, "cast", vec![hole(2, NodeKind::Expression, "x"), hole(3, NodeKind::Type, "x")]);
    assert!(!placeholder_kinds_agree(&p, &Bindings::new()));
    let q = expr(4, "+", vec![hole(5, NodeKind::Expression, "x"), hole(6, NodeKind::Expression, "x")]);
    assert!(placeholder_kinds_agree(&q, &Bindings::new()));
    let mut env = Bindings::new();
    env.insert("x".to_string(), leaf(9, NodeKind::Type, "u8"));
    assert!(!placeholder_kinds_agree(&q, &env));
    assert!(placeholder_kinds_agree(&ident(7, "a"), &env));
}
