use vstd::prelude::*;
use crate::node::{
    lemma_shape_eq_refl, lemma_view_children, placeholder_free, placeholder_free_from, shape_eq,
    shape_eq_from, Head, Node, NodeKind, Tree,
};
use crate::bindings::Bindings;

verus! {

/// The mathematical binding environment.
pub type Env = Map<Seq<char>, Tree>;

/// The trees of a list of nodes.
pub open spec fn trees(ns: Seq<Node>) -> Seq<Tree> {
    ns.map_values(|n: Node| n@)
}

/// Structural match of `p` against `c`, extending `env`.
pub open spec fn match_tree(p: Tree, c: Tree, env: Env) -> Option<Env>
    decreases p, 1nat, 0nat,
{
    match p.head {
        Head::Placeholder(name) => {
            if p.kind != c.kind {
                None
            } else if env.contains_key(name@) {
                if shape_eq(env[name@], c) {
                    Some(env)
                } else {
                    None
                }
            } else {
                Some(env.insert(name@, c))
            }
        },
        Head::Form(_) => {
            if p.kind == c.kind && p.head.same_as(c.head) && p.children.len() == c.children.len() {
                match_from(p, c.children, 0, 0, env)
            } else {
                None
            }
        },
    }
}

/// Matches the children of `p` from index `i` on against `cs[off + i]`,
/// `cs[off + i + 1]`, ..., left to right, stopping at the first failure.
pub open spec fn match_from(p: Tree, cs: Seq<Tree>, off: int, i: int, env: Env) -> Option<Env>
    decreases p, 0nat, p.children.len() - i,
{
    if i < 0 || i >= p.children.len() {
        Some(env)
    } else {
        match match_tree(p.children[i], cs[off + i], env) {
            Some(e) => match_from(p, cs, off, i + 1, e),
            None => None,
        }
    }
}

/// The first offset at or after `off` where the children of the list pattern
/// `p` match a contiguous window of `cs`, with the environment it yields.
pub open spec fn first_window(p: Tree, cs: Seq<Tree>, off: int, env: Env) -> Option<(int, Env)>
    decreases cs.len() - off,
{
    if off < 0 || off + p.children.len() > cs.len() {
        None
    } else {
        match match_from(p, cs, off, 0, env) {
            Some(e) => Some((off, e)),
            None => first_window(p, cs, off + 1, env),
        }
    }
}

/// Whether a match of `p` against `c` looks for a window of statements.
pub open spec fn is_window_match(p: Tree, c: Tree) -> bool {
    p.kind == NodeKind::StatementList && c.kind == NodeKind::StatementList && p.head is Form
        && p.head.same_as(c.head)
}

/// The matcher's result: a statement-list pattern matches the first window of
/// a statement list that it matches; every other pattern matches the whole
/// candidate.
pub open spec fn match_spec(p: Tree, c: Tree, env: Env) -> Option<Env> {
    if is_window_match(p, c) {
        match first_window(p, c.children, 0, env) {
            Some(r) => Some(r.1),
            None => None,
        }
    } else {
        match_tree(p, c, env)
    }
}

pub proof fn lemma_trees_of_children(n: &Node)
    ensures
        trees(n.children@) == n@.children,
{
    lemma_view_children(n);
    assert(trees(n.children@) =~= n@.children);
}

/// An exact copy of an environment.
pub fn copy_bindings(env: &Bindings) -> (r: Bindings)
    requires
        env.wf(),
    ensures
        r.wf(),
        r@ == env@,
{
    let mut out = Bindings::new();
    let mut i: usize = 0;
    while i < env.entries.len()
        invariant
            env.wf(),
            out.wf(),
            i <= env.entries@.len(),
            out.entries@.len() == i,
            forall|j: int| 0 <= j < i ==> (#[trigger] out.entries@[j]).name@ == env.entries@[j].name@
                && out.entries@[j].node@ == env.entries@[j].node@,
        decreases env.entries@.len() - i,
    {
        let b = crate::bindings::Binding {
            name: env.entries[i].name.clone(),
            node: env.entries[i].node.copy(),
        };
        out.entries.push(b);
        i = i + 1;
        proof {
            assert forall|a: int, c: int|
                0 <= a < out.entries@.len() && 0 <= c < out.entries@.len() && a != c
                    implies #[trigger] out.entries@[a].name@ != #[trigger] out.entries@[c].name@ by {
                assert(env.entries@[a].name@ != env.entries@[c].name@);
            }
        }
    }
    proof {
        assert forall|k: Seq<char>| #[trigger] out@.contains_key(k) <==> env@.contains_key(k) by {
            if out@.contains_key(k) {
                let c = choose|j: int| 0 <= j < out.entries@.len() && #[trigger] out.entries@[j].name@ == k;
                assert(env.entries@[c].name@ == k);
            }
            if env@.contains_key(k) {
                let c = choose|j: int| 0 <= j < env.entries@.len() && #[trigger] env.entries@[j].name@ == k;
                assert(out.entries@[c].name@ == k);
            }
        }
        assert forall|k: Seq<char>| #[trigger] out@.contains_key(k) implies out@[k] == env@[k] by {
            let c = choose|j: int| 0 <= j < out.entries@.len() && #[trigger] out.entries@[j].name@ == k;
            let d = choose|j: int| 0 <= j < env.entries@.len() && #[trigger] env.entries@[j].name@ == k;
            assert(env.entries@[c].name@ == k);
            assert(c == d);
        }
        assert(out@ =~= env@);
    }
    out
}

/// Matches `p` against the whole of `c`.
pub fn match_node(p: &Node, c: &Node, env: Bindings) -> (r: Option<Bindings>)
    requires
        env.wf(),
    ensures
        match r {
            Some(e) => e.wf() && match_tree(p@, c@, env@) == Some(e@),
            None => match_tree(p@, c@, env@) is None,
        },
    decreases p, 1nat,
{
    match &p.head {
        Head::Placeholder(name) => {
            if p.kind != c.kind {
                return None;
            }
            let mut env = env;
            match env.get(name) {
                Some(bound) => {
                    if bound.same_shape(c) {
                        Some(env)
                    } else {
                        None
                    }
                },
                None => {
                    env.insert(name.clone(), c.copy());
                    Some(env)
                },
            }
        },
        Head::Form(_) => {
            if p.kind != c.kind || !p.head.equals(&c.head) || p.children.len() != c.children.len() {
                return None;
            }
            proof {
                lemma_trees_of_children(c);
                lemma_view_children(p);
            }
            match_children(p, &c.children, 0, env)
        },
    }
}

/// Matches the children of `p` against `cs[off..off + p.children.len()]`.
pub fn match_children(p: &Node, cs: &Vec<Node>, off: usize, env: Bindings) -> (r: Option<Bindings>)
    requires
        env.wf(),
        off + p.children@.len() <= cs@.len(),
    ensures
        match r {
            Some(e) => e.wf() && match_from(p@, trees(cs@), off as int, 0, env@) == Some(e@),
            None => match_from(p@, trees(cs@), off as int, 0, env@) is None,
        },
    decreases p, 0nat,
{
    proof {
        lemma_view_children(p);
    }
    let ghost env0 = env@;
    let mut cur = env;
    let n: usize = cs.len();
    let mut i: usize = 0;
    while i < p.children.len()
        invariant
            n == cs@.len(),
            env0 == env@,
            cur.wf(),
            i <= p.children@.len(),
            off + p.children@.len() <= cs@.len(),
            p@.children.len() == p.children@.len(),
            forall|k: int| 0 <= k < p.children@.len() ==> #[trigger] p@.children[k] == p.children@[k]@,
            match_from(p@, trees(cs@), off as int, 0, env0) == match_from(
                p@,
                trees(cs@),
                off as int,
                i as int,
                cur@,
            ),
        decreases p.children@.len() - i,
    {
        let ghost before = cur@;
        assert(off + i < cs@.len());
        let j: usize = off + i;
        assert(trees(cs@)[j as int] == cs@[j as int]@);
        match match_node(&p.children[i], &cs[j], cur) {
            Some(e) => {
                cur = e;
            },
            None => {
                assert(match_from(p@, trees(cs@), off as int, i as int, before) is None);
                assert(match_from(p@, trees(cs@), off as int, 0, env0) is None);
                return None;
            },
        }
        i = i + 1;
    }
    Some(cur)
}

/// The first window of the statement list `c` that the list pattern `p`
/// matches: its offset and the environment it yields.
pub fn find_window(p: &Node, c: &Node, env: &Bindings) -> (r: Option<(usize, Bindings)>)
    requires
        env.wf(),
    ensures
        match r {
            Some((off, e)) => e.wf() && first_window(p@, c@.children, 0, env@) == Some(
                (off as int, e@),
            ),
            None => first_window(p@, c@.children, 0, env@) is None,
        },
{
    proof {
        lemma_trees_of_children(c);
        lemma_view_children(p);
    }
    if p.children.len() > c.children.len() {
        return None;
    }
    let last: usize = c.children.len() - p.children.len();
    let mut off: usize = 0;
    while off <= last
        invariant
            env.wf(),
            last == c.children@.len() - p.children@.len(),
            trees(c.children@) == c@.children,
            p@.children.len() == p.children@.len(),
            off <= last + 1,
            first_window(p@, c@.children, 0, env@) == first_window(p@, c@.children, off as int, env@),
        decreases last + 1 - off,
    {
        let attempt = copy_bindings(env);
        match match_children(p, &c.children, off, attempt) {
            Some(e) => {
                return Some((off, e));
            },
            None => {
                assert(first_window(p@, c@.children, off as int, env@) == first_window(
                    p@,
                    c@.children,
                    off + 1,
                    env@,
                ));
            },
        }
        if off == last {
            assert(first_window(p@, c@.children, off + 1, env@) is None);
            return None;
        }
        off = off + 1;
    }
    None
}

/// The matcher: matches `p` against `c` as `match_spec` says. A pattern
/// that would re-bind a placeholder at another kind is a contract violation,
/// left out by `requires`; `placeholder_kinds_agree` tests for it.
pub fn try_match(p: &Node, c: &Node, env: Bindings) -> (r: Option<Bindings>)
    requires
        env.wf(),
        placeholder_kinds_ok(p@, env@),
    ensures
        match r {
            Some(e) => e.wf() && match_spec(p@, c@, env@) == Some(e@),
            None => match_spec(p@, c@, env@) is None,
        },
{
    let window = p.kind == NodeKind::StatementList && c.kind == NodeKind::StatementList
        && matches!(p.head, Head::Form(_)) && p.head.equals(&c.head);
    if window {
        match find_window(p, c, &env) {
            Some((_, e)) => Some(e),
            None => None,
        }
    } else {
        match_node(p, c, env)
    }
}

proof fn lemma_match_from_placeholder_free(p: Tree, c: Tree, i: int, env: Env)
    requires
        placeholder_free_from(p, i),
        p.children.len() == c.children.len(),
        0 <= i <= p.children.len(),
    ensures
        match_from(p, c.children, 0, i, env) == (if shape_eq_from(p, c, i) {
            Some(env)
        } else {
            None
        }),
    decreases p, 0nat, p.children.len() - i,
{
    if i < p.children.len() {
        lemma_match_placeholder_free(p.children[i], c.children[i], env);
        lemma_match_from_placeholder_free(p, c, i + 1, env);
    }
}

/// A pattern without placeholders matches a candidate exactly when the two
/// are structurally equal (identities, spans and attributes aside), and a
/// match leaves the environment as it was.
pub proof fn lemma_match_placeholder_free(p: Tree, c: Tree, env: Env)
    requires
        placeholder_free(p),
    ensures
        match_tree(p, c, env) == (if shape_eq(p, c) {
            Some(env)
        } else {
            None
        }),
    decreases p, 1nat, 0nat,
{
    if p.kind == c.kind && p.head.same_as(c.head) && p.children.len() == c.children.len() {
        lemma_match_from_placeholder_free(p, c, 0, env);
    }
}

/// The matcher on a placeholder-free pattern succeeds exactly on structurally
/// equal candidates. A statement-list pattern that is shorter than the list it
/// is matched against looks for a window instead, so that case is left out.
pub proof fn lemma_match_spec_placeholder_free(p: Tree, c: Tree, env: Env)
    requires
        placeholder_free(p),
        !(is_window_match(p, c) && p.children.len() < c.children.len()),
    ensures
        match_spec(p, c, env) == (if shape_eq(p, c) {
            Some(env)
        } else {
            None
        }),
{
    if is_window_match(p, c) {
        if p.children.len() == c.children.len() {
            lemma_match_from_placeholder_free(p, c, 0, env);
            assert(first_window(p, c.children, 1, env) is None);
        }
    } else {
        lemma_match_placeholder_free(p, c, env);
    }
}

/// Every placeholder of `p` stands over a subtree of `c` that is structurally
/// equal to the capture that `e` binds to its name.
pub open spec fn captures_consistent(p: Tree, c: Tree, e: Env) -> bool
    decreases p, 1nat, 0nat,
{
    match p.head {
        Head::Placeholder(name) => e.contains_key(name@) && shape_eq(e[name@], c),
        Head::Form(_) => consistent_from(p, c.children, 0, 0, e),
    }
}

pub open spec fn consistent_from(p: Tree, cs: Seq<Tree>, off: int, i: int, e: Env) -> bool
    decreases p, 0nat, p.children.len() - i,
{
    if i < 0 || i >= p.children.len() {
        true
    } else {
        captures_consistent(p.children[i], cs[off + i], e) && consistent_from(p, cs, off, i + 1, e)
    }
}

proof fn lemma_consistent_mono(p: Tree, c: Tree, e1: Env, e2: Env)
    requires
        captures_consistent(p, c, e1),
        e1.submap_of(e2),
    ensures
        captures_consistent(p, c, e2),
    decreases p, 1nat, 0nat,
{
    match p.head {
        Head::Placeholder(name) => {
            assert(e1.contains_key(name@));
            assert(e2.contains_key(name@) && e2[name@] == e1[name@]);
        },
        Head::Form(_) => {
            lemma_consistent_from_mono(p, c.children, 0, 0, e1, e2);
        },
    }
}

proof fn lemma_consistent_from_mono(p: Tree, cs: Seq<Tree>, off: int, i: int, e1: Env, e2: Env)
    requires
        consistent_from(p, cs, off, i, e1),
        e1.submap_of(e2),
    ensures
        consistent_from(p, cs, off, i, e2),
    decreases p, 0nat, p.children.len() - i,
{
    if 0 <= i < p.children.len() {
        lemma_consistent_mono(p.children[i], cs[off + i], e1, e2);
        lemma_consistent_from_mono(p, cs, off, i + 1, e1, e2);
    }
}

proof fn lemma_match_from_captures(p: Tree, cs: Seq<Tree>, off: int, i: int, env: Env)
    requires
        match_from(p, cs, off, i, env) is Some,
    ensures
        env.submap_of(match_from(p, cs, off, i, env)->0),
        consistent_from(p, cs, off, i, match_from(p, cs, off, i, env)->0),
    decreases p, 0nat, p.children.len() - i,
{
    if 0 <= i < p.children.len() {
        let e1 = match_tree(p.children[i], cs[off + i], env)->0;
        lemma_match_tree_captures(p.children[i], cs[off + i], env);
        lemma_match_from_captures(p, cs, off, i + 1, e1);
        let e = match_from(p, cs, off, i + 1, e1)->0;
        lemma_consistent_mono(p.children[i], cs[off + i], e1, e);
        assert forall|k: Seq<char>| #[trigger] env.contains_key(k) implies e.contains_key(k) && env[k] == e[k] by {
            assert(e1.contains_key(k));
        }
    }
}

/// A successful match keeps every earlier binding, and every placeholder of
/// the pattern, however often its name recurs, stands over a subtree that is
/// structurally equal to the one capture bound to that name.
pub proof fn lemma_match_tree_captures(p: Tree, c: Tree, env: Env)
    requires
        match_tree(p, c, env) is Some,
    ensures
        env.submap_of(match_tree(p, c, env)->0),
        captures_consistent(p, c, match_tree(p, c, env)->0),
    decreases p, 1nat, 0nat,
{
    match p.head {
        Head::Placeholder(name) => {
            if !env.contains_key(name@) {
                lemma_shape_eq_refl(c);
            }
        },
        Head::Form(_) => {
            lemma_match_from_captures(p, c.children, 0, 0, env);
        },
    }
}

proof fn lemma_first_window_found(p: Tree, cs: Seq<Tree>, off: int, env: Env)
    requires
        first_window(p, cs, off, env) is Some,
    ensures
        match_from(p, cs, (first_window(p, cs, off, env)->0).0, 0, env) == Some(
            (first_window(p, cs, off, env)->0).1,
        ),
    decreases cs.len() - off,
{
    if match_from(p, cs, off, 0, env) is None {
        lemma_first_window_found(p, cs, off + 1, env);
    }
}

/// Placeholder consistency of the matcher: a successful match keeps the
/// earlier bindings, and each occurrence of a placeholder stands over a
/// subtree structurally equal to its capture, in the whole candidate or in
/// the window of statements that was matched.
pub proof fn lemma_placeholder_consistency(p: Tree, c: Tree, env: Env)
    requires
        match_spec(p, c, env) is Some,
    ensures
        env.submap_of(match_spec(p, c, env)->0),
        is_window_match(p, c) ==> exists|off: int|
            consistent_from(p, c.children, off, 0, match_spec(p, c, env)->0),
        !is_window_match(p, c) ==> captures_consistent(p, c, match_spec(p, c, env)->0),
{
    if is_window_match(p, c) {
        let r = first_window(p, c.children, 0, env)->0;
        lemma_first_window_found(p, c.children, 0, env);
        lemma_match_from_captures(p, c.children, r.0, 0, env);
    } else {
        lemma_match_tree_captures(p, c, env);
    }
}

/// The first subtree of `t`, in pre-order, that `p` matches as a whole when
/// matching starts from `env`, with the environment of that match.
pub open spec fn find_in(p: Tree, t: Tree, env: Env) -> Option<Env>
    decreases t, 1nat, 0nat,
{
    match match_tree(p, t, env) {
        Some(e) => Some(e),
        None => find_from(p, t, 0, env),
    }
}

pub open spec fn find_from(p: Tree, t: Tree, i: int, env: Env) -> Option<Env>
    decreases t, 0nat, t.children.len() - i,
{
    if i < 0 || i >= t.children.len() {
        None
    } else {
        match find_in(p, t.children[i], env) {
            Some(e) => Some(e),
            None => find_from(p, t, i + 1, env),
        }
    }
}

/// Searches `t` in pre-order for the first subtree that `p` matches, each
/// attempt starting from a copy of `env`.
pub fn find_first(p: &Node, t: &Node, env: &Bindings) -> (r: Option<Bindings>)
    requires
        env.wf(),
        placeholder_kinds_ok(p@, env@),
    ensures
        match r {
            Some(e) => e.wf() && find_in(p@, t@, env@) == Some(e@),
            None => find_in(p@, t@, env@) is None,
        },
    decreases t,
{
    match match_node(p, t, copy_bindings(env)) {
        Some(e) => {
            return Some(e);
        },
        None => {},
    }
    proof {
        lemma_view_children(t);
    }
    let mut i: usize = 0;
    while i < t.children.len()
        invariant
            env.wf(),
            placeholder_kinds_ok(p@, env@),
            i <= t.children@.len(),
            t@.children.len() == t.children@.len(),
            forall|k: int| 0 <= k < t.children@.len() ==> #[trigger] t@.children[k] == t.children@[k]@,
            find_in(p@, t@, env@) == find_from(p@, t@, i as int, env@),
        decreases t.children@.len() - i,
    {
        match find_first(p, &t.children[i], env) {
            Some(e) => {
                return Some(e);
            },
            None => {},
        }
        i = i + 1;
    }
    None
}

/// Whether `p` holds a placeholder named `x` at kind `k`.
pub open spec fn has_placeholder(p: Tree, x: Seq<char>, k: NodeKind) -> bool
    decreases p, 1nat, 0nat,
{
    match p.head {
        Head::Placeholder(n) => n@ == x && p.kind == k,
        Head::Form(_) => has_placeholder_from(p, 0, x, k),
    }
}

pub open spec fn has_placeholder_from(p: Tree, i: int, x: Seq<char>, k: NodeKind) -> bool
    decreases p, 0nat, p.children.len() - i,
{
    if i < 0 || i >= p.children.len() {
        false
    } else {
        has_placeholder(p.children[i], x, k) || has_placeholder_from(p, i + 1, x, k)
    }
}

/// Each placeholder name of `p` is used at one kind, and where `env` binds
/// the name, the capture is of that kind. A pattern that would re-bind a
/// name at another kind is a contract violation.
pub open spec fn placeholder_kinds_ok(p: Tree, env: Env) -> bool {
    &&& forall|x: Seq<char>, k1: NodeKind, k2: NodeKind|
        #[trigger] has_placeholder(p, x, k1) && #[trigger] has_placeholder(p, x, k2) ==> k1 == k2
    &&& forall|x: Seq<char>, k: NodeKind|
        #[trigger] has_placeholder(p, x, k) && env.contains_key(x) ==> env[x].kind == k
}

proof fn lemma_has_placeholder_from(p: Tree, i: int, x: Seq<char>, k: NodeKind)
    requires
        0 <= i <= p.children.len(),
    ensures
        has_placeholder_from(p, i, x, k) <==> exists|j: int|
            i <= j < p.children.len() && #[trigger] has_placeholder(p.children[j], x, k),
    decreases p.children.len() - i,
{
    if i < p.children.len() {
        lemma_has_placeholder_from(p, i + 1, x, k);
        if exists|j: int| i <= j < p.children.len() && #[trigger] has_placeholder(p.children[j], x, k) {
            let j = choose|j: int| i <= j < p.children.len() && #[trigger] has_placeholder(p.children[j], x, k);
            if j > i {
                assert(i + 1 <= j);
            }
        }
        if has_placeholder(p.children[i], x, k) {
            assert(exists|j: int| i <= j < p.children.len() && #[trigger] has_placeholder(p.children[j], x, k));
        }
        if has_placeholder_from(p, i + 1, x, k) {
            let j = choose|j: int| i + 1 <= j < p.children.len() && #[trigger] has_placeholder(p.children[j], x, k);
            assert(i <= j);
        }
    }
}

/// Whether `s[lo..hi]` lists placeholder `x` at kind `k`.
pub open spec fn listed(s: Seq<(String, NodeKind)>, lo: int, hi: int, x: Seq<char>, k: NodeKind) -> bool {
    exists|j: int| lo <= j < hi && (#[trigger] s[j]).0@ == x && s[j].1 == k
}

/// Whether one of the first `hi` children of `p` holds placeholder `x` at
/// kind `k`.
pub open spec fn in_children(p: Tree, hi: int, x: Seq<char>, k: NodeKind) -> bool {
    exists|c: int| 0 <= c < hi && #[trigger] has_placeholder(p.children[c], x, k)
}

/// The placeholders of `p`, with their kinds, appended to `out`.
fn collect_placeholders(p: &Node, out: &mut Vec<(String, NodeKind)>)
    ensures
        final(out)@.len() >= old(out)@.len(),
        forall|j: int| 0 <= j < old(out)@.len() ==> #[trigger] final(out)@[j] == old(out)@[j],
        forall|x: Seq<char>, k: NodeKind|
            #[trigger] has_placeholder(p@, x, k) <==> listed(final(out)@, old(out)@.len() as int, final(out)@.len() as int, x, k),
    decreases p,
{
    proof {
        lemma_view_children(p);
    }
    match &p.head {
        Head::Placeholder(name) => {
            let ghost o = out@;
            out.push((name.clone(), p.kind));
            proof {
                assert forall|x: Seq<char>, k: NodeKind|
                    #[trigger] has_placeholder(p@, x, k) <==> listed(out@, o.len() as int, out@.len() as int, x, k) by {
                    if has_placeholder(p@, x, k) {
                        assert(out@[o.len() as int].0@ == x);
                    }
                }
            }
        },
        Head::Form(_) => {
            let ghost o = out@;
            let mut i: usize = 0;
            while i < p.children.len()
                invariant
                    p.head is Form,
                    i <= p.children@.len(),
                    p@.children.len() == p.children@.len(),
                    forall|q: int| 0 <= q < p.children@.len() ==> #[trigger] p@.children[q] == p.children@[q]@,
                    out@.len() >= o.len(),
                    forall|j: int| 0 <= j < o.len() ==> #[trigger] out@[j] == o[j],
                    forall|x: Seq<char>, k: NodeKind|
                        #[trigger] in_children(p@, i as int, x, k) <==> listed(out@, o.len() as int, out@.len() as int, x, k),
                decreases p.children@.len() - i,
            {
                let ghost before = out@;
                collect_placeholders(&p.children[i], out);
                proof {
                    assert forall|x: Seq<char>, k: NodeKind|
                        #[trigger] in_children(p@, i + 1, x, k) <==> listed(out@, o.len() as int, out@.len() as int, x, k) by {
                        let child = p.children@[i as int]@;
                        assert(child == p@.children[i as int]);
                        if in_children(p@, i + 1, x, k) {
                            let c = choose|c: int| 0 <= c < i + 1 && #[trigger] has_placeholder(p@.children[c], x, k);
                            if c < i {
                                assert(in_children(p@, i as int, x, k));
                                let j = choose|j: int| o.len() <= j < before.len() && (#[trigger] before[j]).0@ == x && before[j].1 == k;
                                assert(out@[j] == before[j]);
                            } else {
                                assert(has_placeholder(child, x, k));
                                let j = choose|j: int| before.len() <= j < out@.len() && (#[trigger] out@[j]).0@ == x && out@[j].1 == k;
                            }
                        }
                        if listed(out@, o.len() as int, out@.len() as int, x, k) {
                            let j = choose|j: int| o.len() <= j < out@.len() && (#[trigger] out@[j]).0@ == x && out@[j].1 == k;
                            if j < before.len() {
                                assert(before[j] == out@[j]);
                                assert(listed(before, o.len() as int, before.len() as int, x, k));
                                assert(in_children(p@, i as int, x, k));
                                let c = choose|c: int| 0 <= c < i && #[trigger] has_placeholder(p@.children[c], x, k);
                                assert(0 <= c < i + 1);
                                assert(has_placeholder(p@.children[c], x, k));
                            } else {
                                assert(listed(out@, before.len() as int, out@.len() as int, x, k));
                                assert(has_placeholder(child, x, k));
                            }
                        }
                    }
                }
                i = i + 1;
            }
            proof {
                assert forall|x: Seq<char>, k: NodeKind| #[trigger] has_placeholder(p@, x, k) <==> in_children(p@, p.children@.len() as int, x, k) by {
                    lemma_has_placeholder_from(p@, 0, x, k);
                }
            }
        },
    }
}

/// Whether `p` and `env` meet `placeholder_kinds_ok`.
pub fn placeholder_kinds_agree(p: &Node, env: &Bindings) -> (r: bool)
    requires
        env.wf(),
    ensures
        r == placeholder_kinds_ok(p@, env@),
{
    let mut found: Vec<(String, NodeKind)> = Vec::new();
    collect_placeholders(p, &mut found);
    let n = found.len();
    assert(found@.len() == n);
    let mut i: usize = 0;
    while i < n
        invariant
            env.wf(),
            n == found@.len(),
            i <= n,
            forall|x: Seq<char>, k: NodeKind|
                #[trigger] has_placeholder(p@, x, k) <==> listed(found@, 0, found@.len() as int, x, k),
            forall|a: int, b: int|
                0 <= a < i && 0 <= b < n && (#[trigger] found@[a]).0@ == (#[trigger] found@[b]).0@
                    ==> found@[a].1 == found@[b].1,
            forall|a: int|
                0 <= a < i && env@.contains_key((#[trigger] found@[a]).0@) ==> env@[found@[a].0@].kind
                    == found@[a].1,
        decreases n - i,
    {
        let mut j: usize = 0;
        while j < n
            invariant
                env.wf(),
                n == found@.len(),
                i < n,
                j <= n,
                forall|x: Seq<char>, k: NodeKind|
                    #[trigger] has_placeholder(p@, x, k) <==> listed(found@, 0, found@.len() as int, x, k),
                forall|b: int|
                    0 <= b < j && found@[i as int].0@ == (#[trigger] found@[b]).0@ ==> found@[i as int].1
                        == found@[b].1,
            decreases n - j,
        {
            if found[i].0 == found[j].0 && found[i].1 != found[j].1 {
                proof {
                    assert(has_placeholder(p@, found@[i as int].0@, found@[i as int].1));
                    assert(has_placeholder(p@, found@[i as int].0@, found@[j as int].1));
                }
                return false;
            }
            j = j + 1;
        }
        match env.get(&found[i].0) {
            Some(b) => {
                if b.kind != found[i].1 {
                    proof {
                        assert(has_placeholder(p@, found@[i as int].0@, found@[i as int].1));
                    }
                    return false;
                }
            },
            None => {},
        }
        i = i + 1;
    }
    proof {
        assert forall|x: Seq<char>, k1: NodeKind, k2: NodeKind|
            #[trigger] has_placeholder(p@, x, k1) && #[trigger] has_placeholder(p@, x, k2) implies k1 == k2 by {
            let a = choose|q: int| 0 <= q < found@.len() && (#[trigger] found@[q]).0@ == x && found@[q].1 == k1;
            let b = choose|q: int| 0 <= q < found@.len() && (#[trigger] found@[q]).0@ == x && found@[q].1 == k2;
            assert(found@[a].0@ == found@[b].0@);
        }
        assert forall|x: Seq<char>, k: NodeKind|
            #[trigger] has_placeholder(p@, x, k) && env@.contains_key(x) implies env@[x].kind == k by {
            let a = choose|q: int| 0 <= q < found@.len() && (#[trigger] found@[q]).0@ == x && found@[q].1 == k;
        }
    }
    true
}

} // verus!
