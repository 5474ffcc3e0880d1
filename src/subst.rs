use vstd::prelude::*;
use crate::bindings::Bindings;
use crate::matcher::Env;
use crate::node::{
    copy_attrs, lemma_placeholder_free_from, lemma_view_children, placeholder_free,
    placeholder_free_from, Head, Node, Tree,
};

verus! {

/// Every placeholder of `t` that `env` binds is bound to a node of the
/// placeholder's own kind.
pub open spec fn subst_ok(t: Tree, env: Env) -> bool
    decreases t, 1nat, 0nat,
{
    match t.head {
        Head::Placeholder(name) => env.contains_key(name@) ==> env[name@].kind == t.kind,
        Head::Form(_) => subst_ok_from(t, 0, env),
    }
}

pub open spec fn subst_ok_from(t: Tree, i: int, env: Env) -> bool
    decreases t, 0nat, t.children.len() - i,
{
    if i < 0 || i >= t.children.len() {
        true
    } else {
        subst_ok(t.children[i], env) && subst_ok_from(t, i + 1, env)
    }
}

proof fn lemma_subst_ok_from(t: Tree, i: int, env: Env)
    requires
        0 <= i <= t.children.len(),
    ensures
        subst_ok_from(t, i, env) <==> forall|j: int|
            i <= j < t.children.len() ==> #[trigger] subst_ok(t.children[j], env),
    decreases t.children.len() - i,
{
    if i < t.children.len() {
        lemma_subst_ok_from(t, i + 1, env);
        assert(subst_ok_from(t, i, env) == (subst_ok(t.children[i], env) && subst_ok_from(t, i + 1, env)));
        if forall|j: int| i <= j < t.children.len() ==> #[trigger] subst_ok(t.children[j], env) {
            assert(subst_ok(t.children[i], env));
        }
        if subst_ok_from(t, i, env) {
            assert forall|j: int| i <= j < t.children.len() implies #[trigger] subst_ok(t.children[j], env) by {
                if j > i {
                    assert(i + 1 <= j);
                }
            }
        }
    }
}

/// The template `t` with each bound placeholder replaced by its capture;
/// everything else is kept as it is.
pub open spec fn subst_tree(t: Tree, env: Env) -> Tree
    decreases t,
{
    match t.head {
        Head::Placeholder(name) => if env.contains_key(name@) {
            env[name@]
        } else {
            t
        },
        Head::Form(_) => Tree {
            children: Seq::new(
                t.children.len(),
                |i: int|
                    if 0 <= i < t.children.len() {
                        subst_tree(t.children[i], env)
                    } else {
                        arbitrary()
                    },
            ),
            ..t
        },
    }
}

/// Whether every placeholder of `t` that `env` binds is bound to a node of
/// the placeholder's own kind.
pub fn kinds_agree(t: &Node, env: &Bindings) -> (r: bool)
    requires
        env.wf(),
    ensures
        r == subst_ok(t@, env@),
    decreases t,
{
    proof {
        lemma_view_children(t);
    }
    match &t.head {
        Head::Placeholder(name) => {
            match env.get(name) {
                Some(bound) => bound.kind == t.kind,
                None => true,
            }
        },
        Head::Form(_) => {
            let mut i: usize = 0;
            while i < t.children.len()
                invariant
                    env.wf(),
                    t.head is Form,
                    i <= t.children@.len(),
                    t@.children.len() == t.children@.len(),
                    forall|k: int| 0 <= k < t.children@.len() ==> #[trigger] t@.children[k] == t.children@[k]@,
                    forall|j: int| 0 <= j < i ==> #[trigger] subst_ok(t@.children[j], env@),
                decreases t.children@.len() - i,
            {
                if !kinds_agree(&t.children[i], env) {
                    proof {
                        lemma_subst_ok_from(t@, 0, env@);
                        assert(!subst_ok(t@.children[i as int], env@));
                    }
                    return false;
                }
                i = i + 1;
            }
            proof {
                lemma_subst_ok_from(t@, 0, env@);
            }
            true
        },
    }
}

/// Builds the template `t` with the captures of `env` in place of its
/// placeholders. A placeholder bound to a node of another kind is a
/// contract violation, left out here: `kinds_agree` tests for it.
pub fn subst(t: &Node, env: &Bindings) -> (r: Node)
    requires
        env.wf(),
        subst_ok(t@, env@),
    ensures
        r@ == subst_tree(t@, env@),
    decreases t,
{
    proof {
        lemma_view_children(t);
    }
    match &t.head {
        Head::Placeholder(name) => {
            match env.get(name) {
                Some(bound) => bound.copy(),
                None => t.copy(),
            }
        },
        Head::Form(_) => {
            proof {
                assert(t@.head == t.head);
                assert(subst_ok_from(t@, 0, env@));
                lemma_subst_ok_from(t@, 0, env@);
            }
            let mut ch: Vec<Node> = Vec::new();
            let mut i: usize = 0;
            while i < t.children.len()
                invariant
                    env.wf(),
                    t.head is Form,
                    i <= t.children@.len(),
                    t@.children.len() == t.children@.len(),
                    forall|k: int| 0 <= k < t.children@.len() ==> #[trigger] t@.children[k] == t.children@[k]@,
                    forall|j: int| 0 <= j < t.children@.len() ==> #[trigger] subst_ok(t@.children[j], env@),
                    ch@.len() == i,
                    forall|j: int| 0 <= j < i ==> #[trigger] ch@[j]@ == subst_tree(t@.children[j], env@),
                decreases t.children@.len() - i,
            {
                assert(subst_ok(t@.children[i as int], env@));
                assert(t@.children[i as int] == t.children@[i as int]@);
                let n = subst(&t.children[i], env);
                ch.push(n);
                i = i + 1;
            }
            let r = Node {
                id: t.id,
                kind: t.kind,
                span: t.span,
                attrs: copy_attrs(&t.attrs),
                head: t.head.copy(),
                children: ch,
            };
            proof {
                lemma_view_children(&r);
                assert(r@.children =~= subst_tree(t@, env@).children);
            }
            r
        },
    }
}

/// A template without placeholders is returned unchanged, and can always be
/// built.
pub proof fn lemma_subst_placeholder_free(t: Tree, env: Env)
    requires
        placeholder_free(t),
    ensures
        subst_ok(t, env),
        subst_tree(t, env) == t,
    decreases t,
{
    lemma_placeholder_free_from(t, 0);
    assert forall|i: int| 0 <= i < t.children.len() implies #[trigger] subst_tree(t.children[i], env)
        == t.children[i] by {
        lemma_subst_placeholder_free(t.children[i], env);
    }
    assert forall|i: int| 0 <= i < t.children.len() implies #[trigger] subst_ok(t.children[i], env) by {
        lemma_subst_placeholder_free(t.children[i], env);
    }
    lemma_subst_ok_from(t, 0, env);
    assert(t.head is Form);
    let s = subst_tree(t, env);
    assert(s.children.len() == t.children.len());
    assert forall|i: int| 0 <= i < t.children.len() implies s.children[i] == t.children[i] by {
        assert(s.children[i] == subst_tree(t.children[i], env));
    }
    assert(s.children =~= t.children);

}

/// A template that is a single placeholder bound in the environment yields
/// exactly the bound subtree.
pub proof fn lemma_subst_single_placeholder(t: Tree, env: Env)
    requires
        t.head is Placeholder,
        env.contains_key(t.head.placeholder_name()),
    ensures
        subst_tree(t, env) == env[t.head.placeholder_name()],
{
}

} // verus!
