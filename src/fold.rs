use vstd::prelude::*;
use crate::bindings::Bindings;
use crate::error::RewriteError;
use crate::matcher::{copy_bindings, placeholder_kinds_ok, lemma_trees_of_children, match_children, match_from, match_node, match_tree, trees, Env};
use crate::node::{lemma_view_children, Attribute, Head, Node, NodeKind, Tree};
use crate::subst::{kinds_agree, subst, subst_tree, subst_ok};

verus! {

/// What a fold does at each match: from the matched node and a fresh
/// environment holding that match's captures, it builds the replacement.
pub trait Rewriter {
    /// The replacement, or the error, for a matched tree and its captures.
    spec fn rewrite_spec(&self, matched: Tree, env: Env) -> Result<Tree, RewriteError>;

    fn rewrite(&self, matched: &Node, env: Bindings) -> (r: Result<Node, RewriteError>)
        requires
            env.wf(),
        ensures
            match r {
                Ok(n) => self.rewrite_spec(matched@, env@) == Ok::<Tree, RewriteError>(n@),
                Err(e) => self.rewrite_spec(matched@, env@) == Err::<Tree, RewriteError>(e),
            },
    ;
}

/// Rewrites each match into a template with the match's captures in it.
pub struct TemplateRewriter {
    pub template: Node,
}

impl Rewriter for TemplateRewriter {
    open spec fn rewrite_spec(&self, matched: Tree, env: Env) -> Result<Tree, RewriteError> {
        if subst_ok(self.template@, env) {
            Ok(subst_tree(self.template@, env))
        } else {
            Err(RewriteError::KindMismatch)
        }
    }

    fn rewrite(&self, matched: &Node, env: Bindings) -> (r: Result<Node, RewriteError>) {
        if kinds_agree(&self.template, &env) {
            Ok(subst(&self.template, &env))
        } else {
            Err(RewriteError::KindMismatch)
        }
    }
}

/// Whether `p` is a statement-list pattern that looks for windows of
/// statements.
pub open spec fn list_mode(p: Tree) -> bool {
    p.kind == NodeKind::StatementList && p.head is Form && p.children.len() > 0
}

pub open spec fn prepend(s: Seq<Tree>, r: Result<Seq<Tree>, RewriteError>) -> Result<Seq<Tree>, RewriteError> {
    match r {
        Ok(rest) => Ok(s + rest),
        Err(e) => Err(e),
    }
}

pub open spec fn with_children(t: Tree, r: Result<Seq<Tree>, RewriteError>) -> Result<Tree, RewriteError> {
    match r {
        Ok(cs) => Ok(Tree { children: cs, ..t }),
        Err(e) => Err(e),
    }
}

/// A replacement stands only where it keeps the kind of what it replaces.
pub open spec fn checked_kind(r: Result<Tree, RewriteError>, kind: NodeKind) -> Result<Tree, RewriteError> {
    match r {
        Ok(n) => if n.kind == kind {
            Ok(n)
        } else {
            Err(RewriteError::KindMismatch)
        },
        Err(e) => Err(e),
    }
}

/// The node that a window `t.children[i..i + k]` of a statement list stands
/// for when it is handed to a rewriter.
pub open spec fn window_tree(t: Tree, i: int, k: int) -> Tree {
    Tree { attrs: Seq::empty(), children: t.children.subrange(i, i + k), ..t }
}

/// The fold: a pre-order walk that replaces each match of `p` by what the
/// rewriter builds from it and goes on after the replacement, without
/// entering it. The first error ends the walk.
pub open spec fn fold_tree<R: Rewriter>(p: Tree, t: Tree, env: Env, rw: R) -> Result<Tree, RewriteError>
    decreases t, 2nat, 0nat,
{
    if !list_mode(p) && p.kind == t.kind && match_tree(p, t, env) is Some {
        checked_kind(rw.rewrite_spec(t, match_tree(p, t, env)->0), t.kind)
    } else if list_mode(p) && t.kind == NodeKind::StatementList && p.head.same_as(t.head) {
        with_children(t, fold_list(p, t, 0, env, rw))
    } else {
        with_children(t, fold_children(p, t, 0, env, rw))
    }
}

/// The fold of the children of `t` from index `i` on.
pub open spec fn fold_children<R: Rewriter>(p: Tree, t: Tree, i: int, env: Env, rw: R) -> Result<
    Seq<Tree>,
    RewriteError,
>
    decreases t, 1nat, t.children.len() - i,
{
    if i < 0 || i >= t.children.len() {
        Ok(Seq::empty())
    } else {
        match fold_tree(p, t.children[i], env, rw) {
            Ok(c) => prepend(seq![c], fold_children(p, t, i + 1, env, rw)),
            Err(e) => Err(e),
        }
    }
}

/// The fold of the statements of the list `t` from index `i` on: a window
/// that the list pattern `p` matches is replaced by the statements of the
/// rewriter's result; any other statement is folded on its own.
pub open spec fn fold_list<R: Rewriter>(p: Tree, t: Tree, i: int, env: Env, rw: R) -> Result<Seq<Tree>, RewriteError>
    decreases t, 1nat, t.children.len() - i,
{
    let k = p.children.len() as int;
    if i < 0 || i >= t.children.len() {
        Ok(Seq::empty())
    } else if k > 0 && i + k <= t.children.len() && match_from(p, t.children, i, 0, env) is Some {
        match checked_kind(
            rw.rewrite_spec(window_tree(t, i, k), match_from(p, t.children, i, 0, env)->0),
            NodeKind::StatementList,
        ) {
            Ok(n) => prepend(n.children, fold_list(p, t, i + k, env, rw)),
            Err(e) => Err(e),
        }
    } else {
        match fold_tree(p, t.children[i], env, rw) {
            Ok(c) => prepend(seq![c], fold_list(p, t, i + 1, env, rw)),
            Err(e) => Err(e),
        }
    }
}

proof fn lemma_match_from_shift(p: Tree, cs1: Seq<Tree>, off1: int, cs2: Seq<Tree>, off2: int, i: int, env: Env)
    requires
        0 <= i <= p.children.len(),
        forall|j: int| 0 <= j < p.children.len() ==> cs1[off1 + j] == #[trigger] cs2[off2 + j],
    ensures
        match_from(p, cs1, off1, i, env) == match_from(p, cs2, off2, i, env),
    decreases p.children.len() - i,
{
    if i < p.children.len() {
        assert(cs1[off1 + i] == cs2[off2 + i]);
        let r = match_tree(p.children[i], cs1[off1 + i], env);
        if r is Some {
            lemma_match_from_shift(p, cs1, off1, cs2, off2, i + 1, r->0);
        }
    }
}

/// Folds the tree `t` in place.
pub fn fold_node<R: Rewriter>(p: &Node, t: &mut Node, env: &Bindings, rw: &R) -> (r: Result<(), RewriteError>)
    requires
        env.wf(),
    ensures
        match r {
            Ok(()) => fold_tree(p@, old(t)@, env@, *rw) == Ok::<Tree, RewriteError>(final(t)@),
            Err(e) => fold_tree(p@, old(t)@, env@, *rw) == Err::<Tree, RewriteError>(e) && final(t)@
                == fold_stop(p@, old(t)@, env@, *rw),
        },
    decreases *old(t), 2nat,
{
    proof {
        lemma_view_children(t);
        lemma_view_children(p);
    }
    let list = p.kind == NodeKind::StatementList && matches!(p.head, Head::Form(_)) && p.children.len() > 0;
    if !list && p.kind == t.kind {
        match match_node(p, t, copy_bindings(env)) {
            Some(menv) => {
                let kind = t.kind;
                match rw.rewrite(t, menv) {
                    Ok(n) => {
                        if n.kind != kind {
                            return Err(RewriteError::KindMismatch);
                        }
                        *t = n;
                        return Ok(());
                    },
                    Err(e) => {
                        return Err(e);
                    },
                }
            },
            None => {},
        }
    }
    if list && t.kind == NodeKind::StatementList && p.head.equals(&t.head) {
        fold_statements(p, t, env, rw)
    } else {
        fold_each_child(p, t, env, rw)
    }
}

/// Folds each child of `t` in place.
fn fold_each_child<R: Rewriter>(p: &Node, t: &mut Node, env: &Bindings, rw: &R) -> (r: Result<(), RewriteError>)
    requires
        env.wf(),
    ensures
        final(t).id == old(t).id && final(t).kind == old(t).kind && final(t).span == old(t).span,
        final(t).attrs == old(t).attrs && final(t).head == old(t).head,
        match r {
            Ok(()) => with_children(old(t)@, fold_children(p@, old(t)@, 0, env@, *rw)) == Ok::<Tree, RewriteError>(final(t)@),
            Err(e) => fold_children(p@, old(t)@, 0, env@, *rw) == Err::<Seq<Tree>, RewriteError>(e)
                && final(t)@.children == children_stop(p@, old(t)@, 0, env@, *rw),
        },
    decreases *old(t), 1nat,
{
    let ghost t0 = t@;
    proof {
        lemma_view_children(t);
    }
    let n: usize = t.children.len();
    let mut i: usize = 0;
    while i < n
        invariant
            env.wf(),
            n == t.children@.len(),
            n == t0.children.len(),
            i <= n,
            t.id == t0.id && t.kind == t0.kind && t.span == t0.span,
            t.attrs@ == t0.attrs && t.head == t0.head,
            t.id == old(t).id && t.kind == old(t).kind && t.span == old(t).span,
            t.attrs == old(t).attrs && t.head == old(t).head,
            t0 == old(t)@,
            forall|j: int| i <= j < n ==> (#[trigger] t.children@[j])@ == t0.children[j],
            forall|j: int| i <= j < n ==> #[trigger] t.children@[j] == old(t).children@[j],
            fold_children(p@, t0, 0, env@, *rw) == prepend(
                trees(t.children@).subrange(0, i as int),
                fold_children(p@, t0, i as int, env@, *rw),
            ),
            children_stop(p@, t0, 0, env@, *rw) == trees(t.children@).subrange(0, i as int)
                + children_stop(p@, t0, i as int, env@, *rw),
        decreases n - i,
    {
        let ghost before = t.children@;
        proof {
            lemma_view_children(old(t));
            assert(t.children@[i as int] == old(t).children@[i as int]);
        }
        let res = fold_node(p, &mut t.children[i], env, rw);
        match res {
            Ok(()) => {},
            Err(e) => {
                proof {
                    lemma_view_children(t);
                    let stop = trees(before).subrange(0, i as int) + (seq![fold_stop(p@, t0.children[i as int], env@, *rw)]
                        + t0.children.subrange(i + 1, n as int));
                    assert forall|j: int| 0 <= j < n implies #[trigger] t@.children[j] == stop[j] by {
                        if j > i {
                            assert(t.children@[j] == before[j]);
                        }
                    }
                    assert(t@.children =~= stop);
                }
                return Err(e);
            },
        }
        proof {
            let c = t.children@[i as int]@;
            assert(trees(before).subrange(0, i as int) + (seq![c] + children_stop(p@, t0, i + 1, env@, *rw)) =~= trees(
                t.children@,
            ).subrange(0, i + 1) + children_stop(p@, t0, i + 1, env@, *rw));
            assert(trees(t.children@).subrange(0, i + 1) =~= trees(before).subrange(0, i as int).push(c));
            assert(seq![c] + seq![] =~= seq![c]);
            let rest = fold_children(p@, t0, i + 1, env@, *rw);
            if rest is Ok {
                assert(trees(before).subrange(0, i as int) + (seq![c] + rest->Ok_0) =~= trees(
                    t.children@,
                ).subrange(0, i + 1) + rest->Ok_0);
            }
        }
        i = i + 1;
    }
    proof {
        lemma_view_children(t);
        assert(trees(t.children@).subrange(0, n as int) + Seq::<Tree>::empty() =~= t@.children);
    }
    Ok(())
}

/// Folds the statements of the list `t` in place, replacing windows that the
/// list pattern `p` matches.
fn fold_statements<R: Rewriter>(p: &Node, t: &mut Node, env: &Bindings, rw: &R) -> (r: Result<(), RewriteError>)
    requires
        env.wf(),
        p@.children.len() > 0,
    ensures
        final(t).id == old(t).id && final(t).kind == old(t).kind && final(t).span == old(t).span,
        final(t).attrs == old(t).attrs && final(t).head == old(t).head,
        match r {
            Ok(()) => with_children(old(t)@, fold_list(p@, old(t)@, 0, env@, *rw)) == Ok::<Tree, RewriteError>(final(t)@),
            Err(e) => fold_list(p@, old(t)@, 0, env@, *rw) == Err::<Seq<Tree>, RewriteError>(e)
                && final(t)@.children == list_stop(p@, old(t)@, 0, env@, *rw),
        },
    decreases *old(t), 1nat,
{
    let ghost t0 = t@;
    proof {
        lemma_view_children(t);
        lemma_view_children(p);
        lemma_trees_of_children(t);
    }
    let k: usize = p.children.len();
    let mut rest: Vec<Node> = Vec::new();
    std::mem::swap(&mut t.children, &mut rest);
    let mut out: Vec<Node> = Vec::new();
    let ghost mut i: int = 0;
    assert(trees(out@) + list_stop(p@, t0, 0, env@, *rw) =~= list_stop(p@, t0, 0, env@, *rw));
    while rest.len() > 0
        invariant
            env.wf(),
            k == p@.children.len(),
            k > 0,
            0 <= i <= t0.children.len(),
            trees(rest@) == t0.children.subrange(i, t0.children.len() as int),
            t.id == old(t).id && t.kind == old(t).kind && t.span == old(t).span,
            t.attrs == old(t).attrs && t.head == old(t).head,
            t0 == old(t)@,
            forall|j: int| 0 <= j < rest@.len() ==> #[trigger] rest@[j] == old(t).children@[i + j],
            fold_list(p@, t0, 0, env@, *rw) == prepend(trees(out@), fold_list(p@, t0, i, env@, *rw)),
            list_stop(p@, t0, 0, env@, *rw) == trees(out@) + list_stop(p@, t0, i, env@, *rw),
        decreases rest@.len(),
    {
        let ghost suffix = rest@;
        assert(trees(rest@).len() == rest@.len());
        let mut window_env: Option<Bindings> = None;
        if k <= rest.len() {
            let start = copy_bindings(env);
            assert(start@ == env@);
            window_env = match_children(p, &rest, 0, start);
            proof {
                lemma_match_from_shift(p@, trees(rest@), 0, t0.children, i, 0, env@);
            }
        } else {
            assert(i + k > t0.children.len());
        }
        match window_env {
            Some(menv) => {
                let mut taken: Vec<Node> = Vec::new();
                let mut m: usize = 0;
                while m < k
                    invariant
                        k <= suffix.len(),
                        m <= k,
                        taken@ == suffix.subrange(0, m as int),
                        rest@ == suffix.subrange(m as int, suffix.len() as int),
                    decreases k - m,
                {
                    let x = rest.remove(0);
                    taken.push(x);
                    m = m + 1;
                    assert(taken@ =~= suffix.subrange(0, m as int));
                    assert(rest@ =~= suffix.subrange(m as int, suffix.len() as int));
                }
                let mut window = Node {
                    id: t.id,
                    kind: t.kind,
                    span: t.span,
                    attrs: Vec::new(),
                    head: t.head.copy(),
                    children: taken,
                };
                proof {
                    lemma_trees_of_children(&window);
                    assert(trees(suffix.subrange(0, k as int)) =~= t0.children.subrange(i, i + k));
                    assert(window@.attrs =~= Seq::<Attribute>::empty());
                    assert(window@ == window_tree(t0, i, k as int));
                }
                let ghost out_start = out@;
                let ghost rest_start = rest@;
                let outcome = rw.rewrite(&window, menv);
                match outcome {
                    Ok(mut n) => {
                        if n.kind != NodeKind::StatementList {
                            out.append(&mut window.children);
                            out.append(&mut rest);
                            t.children = out;
                            proof {
                                lemma_trees_of_children(t);
                                assert(trees(t.children@) =~= trees(out_start) + t0.children.subrange(
                                    i,
                                    t0.children.len() as int,
                                ));
                            }
                            return Err(RewriteError::KindMismatch);
                        }
                        proof {
                            lemma_trees_of_children(&n);
                        }
                        let ghost out_before = out@;
                        let ghost nv = n@;
                        let ghost nc = n.children@;
                        out.append(&mut n.children);
                        proof {
                            assert(trees(nc) == nv.children);
                            assert(trees(out@) =~= trees(out_before) + trees(nc));
                            let r = fold_list(p@, t0, i + k, env@, *rw);
                            if r is Ok {
                                assert(trees(out_before) + (nv.children + r->Ok_0) =~= trees(out@) + r->Ok_0);
                            }
                            assert(trees(out_before) + (nv.children + list_stop(p@, t0, i + k, env@, *rw)) =~= trees(
                                out@,
                            ) + list_stop(p@, t0, i + k, env@, *rw));
                            assert(trees(rest@) =~= t0.children.subrange(i + k, t0.children.len() as int));
                            i = i + k;
                        }
                    },
                    Err(e) => {
                        out.append(&mut window.children);
                        out.append(&mut rest);
                        t.children = out;
                        proof {
                            lemma_trees_of_children(t);
                            assert(trees(t.children@) =~= trees(out_start) + t0.children.subrange(
                                i,
                                t0.children.len() as int,
                            ));
                        }
                        return Err(e);
                    },
                }
            },
            None => {
                let mut x = rest.remove(0);
                proof {
                    assert(x@ == t0.children[i]);
                    assert(x == old(t).children@[i]);
                }
                let res = fold_node(p, &mut x, env, rw);
                match res {
                    Ok(()) => {},
                    Err(e) => {
                        let ghost out_start = out@;
                        let ghost xv = x@;
                        out.push(x);
                        out.append(&mut rest);
                        t.children = out;
                        proof {
                            lemma_trees_of_children(t);
                            assert(trees(t.children@) =~= trees(out_start) + (seq![xv] + t0.children.subrange(
                                i + 1,
                                t0.children.len() as int,
                            )));
                        }
                        return Err(e);
                    },
                }
                let ghost out_before = out@;
                out.push(x);
                proof {
                    assert(trees(out@) =~= trees(out_before).push(x@));
                    let r = fold_list(p@, t0, i + 1, env@, *rw);
                    if r is Ok {
                        assert(trees(out_before) + (seq![x@] + r->Ok_0) =~= trees(out@) + r->Ok_0);
                    }
                    assert(trees(out_before) + (seq![x@] + list_stop(p@, t0, i + 1, env@, *rw)) =~= trees(out@)
                        + list_stop(p@, t0, i + 1, env@, *rw));
                    assert(trees(rest@) =~= t0.children.subrange(i + 1, t0.children.len() as int));
                    i = i + 1;
                }
            },
        }
    }
    proof {
        assert(i == t0.children.len());
        assert(trees(out@) + Seq::<Tree>::empty() =~= trees(out@));
    }
    t.children = out;
    proof {
        lemma_trees_of_children(t);
        lemma_view_children(t);
    }
    Ok(())
}

/// The tree as the fold leaves it when it stops at an error: the
/// replacements made before the error stay, and the rest is as it was.
pub open spec fn fold_stop<R: Rewriter>(p: Tree, t: Tree, env: Env, rw: R) -> Tree
    decreases t, 2nat, 0nat,
{
    if !list_mode(p) && p.kind == t.kind && match_tree(p, t, env) is Some {
        t
    } else if list_mode(p) && t.kind == NodeKind::StatementList && p.head.same_as(t.head) {
        Tree { children: list_stop(p, t, 0, env, rw), ..t }
    } else {
        Tree { children: children_stop(p, t, 0, env, rw), ..t }
    }
}

/// The children of `t` from index `i` on when the fold stops at an error.
pub open spec fn children_stop<R: Rewriter>(p: Tree, t: Tree, i: int, env: Env, rw: R) -> Seq<Tree>
    decreases t, 1nat, t.children.len() - i,
{
    if i < 0 || i >= t.children.len() {
        Seq::empty()
    } else {
        match fold_tree(p, t.children[i], env, rw) {
            Ok(c) => seq![c] + children_stop(p, t, i + 1, env, rw),
            Err(_) => seq![fold_stop(p, t.children[i], env, rw)] + t.children.subrange(
                i + 1,
                t.children.len() as int,
            ),
        }
    }
}

/// The statements of the list `t` from index `i` on when the fold stops at
/// an error.
pub open spec fn list_stop<R: Rewriter>(p: Tree, t: Tree, i: int, env: Env, rw: R) -> Seq<Tree>
    decreases t, 1nat, t.children.len() - i,
{
    let k = p.children.len() as int;
    if i < 0 || i >= t.children.len() {
        Seq::empty()
    } else if k > 0 && i + k <= t.children.len() && match_from(p, t.children, i, 0, env) is Some {
        match checked_kind(
            rw.rewrite_spec(window_tree(t, i, k), match_from(p, t.children, i, 0, env)->0),
            NodeKind::StatementList,
        ) {
            Ok(n) => n.children + list_stop(p, t, i + k, env, rw),
            Err(_) => t.children.subrange(i, t.children.len() as int),
        }
    } else {
        match fold_tree(p, t.children[i], env, rw) {
            Ok(c) => seq![c] + list_stop(p, t, i + 1, env, rw),
            Err(_) => seq![fold_stop(p, t.children[i], env, rw)] + t.children.subrange(
                i + 1,
                t.children.len() as int,
            ),
        }
    }
}

/// Folds `tree` in place with the pattern `pattern`: each match is replaced
/// by what `rw` builds from it, as `fold_tree` says. On an error, the
/// replacements already made stay, as `fold_stop` says.
pub fn fold_with<R: Rewriter>(pattern: &Node, tree: &mut Node, env: &Bindings, rw: &R) -> (r: Result<(), RewriteError>)
    requires
        env.wf(),
        placeholder_kinds_ok(pattern@, env@),
    ensures
        match r {
            Ok(()) => fold_tree(pattern@, old(tree)@, env@, *rw) == Ok::<Tree, RewriteError>(final(tree)@),
            Err(e) => fold_tree(pattern@, old(tree)@, env@, *rw) == Err::<Tree, RewriteError>(e)
                && final(tree)@ == fold_stop(pattern@, old(tree)@, env@, *rw),
        },
{
    fold_node(pattern, tree, env, rw)
}

/// Whether the fold of `p` over `t` finds no match anywhere.
pub open spec fn no_match(p: Tree, t: Tree, env: Env) -> bool
    decreases t, 2nat, 0nat,
{
    &&& !(!list_mode(p) && p.kind == t.kind && match_tree(p, t, env) is Some)
    &&& if list_mode(p) && t.kind == NodeKind::StatementList && p.head.same_as(t.head) {
        no_match_list(p, t, 0, env)
    } else {
        no_match_from(p, t, 0, env)
    }
}

pub open spec fn no_match_from(p: Tree, t: Tree, i: int, env: Env) -> bool
    decreases t, 1nat, t.children.len() - i,
{
    if i < 0 || i >= t.children.len() {
        true
    } else {
        no_match(p, t.children[i], env) && no_match_from(p, t, i + 1, env)
    }
}

pub open spec fn no_match_list(p: Tree, t: Tree, i: int, env: Env) -> bool
    decreases t, 1nat, t.children.len() - i,
{
    if i < 0 || i >= t.children.len() {
        true
    } else {
        &&& !(i + p.children.len() <= t.children.len() && match_from(p, t.children, i, 0, env) is Some)
        &&& no_match(p, t.children[i], env)
        &&& no_match_list(p, t, i + 1, env)
    }
}

proof fn lemma_fold_children_without_match<R: Rewriter>(p: Tree, t: Tree, i: int, env: Env, rw: R)
    requires
        no_match_from(p, t, i, env),
        0 <= i <= t.children.len(),
    ensures
        fold_children(p, t, i, env, rw) == Ok::<Seq<Tree>, RewriteError>(t.children.subrange(i, t.children.len() as int)),
    decreases t, 1nat, t.children.len() - i,
{
    if i < t.children.len() {
        lemma_fold_without_match(p, t.children[i], env, rw);
        lemma_fold_children_without_match(p, t, i + 1, env, rw);
        assert(seq![t.children[i]] + t.children.subrange(i + 1, t.children.len() as int) =~= t.children.subrange(
            i,
            t.children.len() as int,
        ));
    } else {
        assert(t.children.subrange(i, t.children.len() as int) =~= Seq::<Tree>::empty());
    }
}

proof fn lemma_fold_list_without_match<R: Rewriter>(p: Tree, t: Tree, i: int, env: Env, rw: R)
    requires
        no_match_list(p, t, i, env),
        0 <= i <= t.children.len(),
    ensures
        fold_list(p, t, i, env, rw) == Ok::<Seq<Tree>, RewriteError>(t.children.subrange(i, t.children.len() as int)),
    decreases t, 1nat, t.children.len() - i,
{
    if i < t.children.len() {
        lemma_fold_without_match(p, t.children[i], env, rw);
        lemma_fold_list_without_match(p, t, i + 1, env, rw);
        assert(seq![t.children[i]] + t.children.subrange(i + 1, t.children.len() as int) =~= t.children.subrange(
            i,
            t.children.len() as int,
        ));
    } else {
        assert(t.children.subrange(i, t.children.len() as int) =~= Seq::<Tree>::empty());
    }
}

/// A fold that finds no match leaves the tree exactly as it was and calls
/// the rewriter nowhere.
pub proof fn lemma_fold_without_match<R: Rewriter>(p: Tree, t: Tree, env: Env, rw: R)
    requires
        no_match(p, t, env),
    ensures
        fold_tree(p, t, env, rw) == Ok::<Tree, RewriteError>(t),
    decreases t, 2nat, 0nat,
{
    if list_mode(p) && t.kind == NodeKind::StatementList && p.head.same_as(t.head) {
        lemma_fold_list_without_match(p, t, 0, env, rw);
    } else {
        lemma_fold_children_without_match(p, t, 0, env, rw);
    }
    assert(t.children.subrange(0, t.children.len() as int) =~= t.children);
}

} // verus!
