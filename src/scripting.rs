use vstd::prelude::*;
use crate::bindings::Bindings;
use crate::error::{Operation, RewriteError};
use crate::fold::{fold_stop, fold_tree, fold_with as fold_tree_with, Rewriter};
use crate::matcher::{copy_bindings, placeholder_kinds_ok, find_first as find_first_match, find_in, match_spec, try_match as match_candidate};
use crate::node::{Head, Node, NodeId, NodeKind, Span, Tree};
use crate::subst::{subst as subst_template, subst_ok, subst_tree};

verus! {

/// The compiler phase that a transform runs in.
#[derive(Clone, Copy, Debug, PartialEq, Eq, Structural)]
pub enum Phase {
    Phase1,
    Phase2,
    Phase3,
}

/// The phase that a script asks for: 1, 2 or 3, and 3 when it names none.
pub open spec fn phase_spec(arg: Option<u8>) -> Option<Phase> {
    match arg {
        None => Some(Phase::Phase3),
        Some(n) => if n == 1 {
            Some(Phase::Phase1)
        } else if n == 2 {
            Some(Phase::Phase2)
        } else if n == 3 {
            Some(Phase::Phase3)
        } else {
            None
        },
    }
}

/// Reads the phase argument of a transform request.
pub fn phase_from_arg(arg: Option<u8>) -> (r: Result<Phase, RewriteError>)
    ensures
        match phase_spec(arg) {
            Some(ph) => r == Ok::<Phase, RewriteError>(ph),
            None => r == Err::<Phase, RewriteError>(RewriteError::PhaseOutOfRange),
        },
{
    match arg {
        Some(1) => Ok(Phase::Phase1),
        Some(2) => Ok(Phase::Phase2),
        Some(3) | None => Ok(Phase::Phase3),
        _ => Err(RewriteError::PhaseOutOfRange),
    }
}

/// The context of one transform.
#[derive(Clone, Copy, Debug, PartialEq, Eq, Structural)]
pub struct TransformCtxt {
    pub phase: Phase,
}

/// Runs `f` with a fresh transform context for `phase`.
pub fn enter_transform<F, R>(phase: Phase, f: F) -> (r: R)
    where
        F: Fn(TransformCtxt) -> R,
    requires
        f.requires(((TransformCtxt { phase }),)),
    ensures
        f.ensures(((TransformCtxt { phase }),), r),
{
    let ctx = TransformCtxt { phase };
    f(ctx)
}

/// A match context: the bindings that matches made so far.
#[derive(Debug)]
pub struct MatchCtxt {
    pub bindings: Bindings,
}

impl MatchCtxt {
    /// A context without bindings.
    pub fn new() -> (r: MatchCtxt)
        ensures
            r.bindings.wf(),
            r.bindings@ == Map::<Seq<char>, Tree>::empty(),
    {
        MatchCtxt { bindings: Bindings::new() }
    }
}

/// The kinds of node that each operation of the scripting layer accepts as
/// its pattern or template handle, in the order in which they are tried.
pub open spec fn accepted_kinds(op: Operation) -> Seq<NodeKind> {
    match op {
        Operation::FoldWith => seq![NodeKind::Expression, NodeKind::Type, NodeKind::StatementList],
        Operation::TryMatch => seq![NodeKind::Expression],
        Operation::FindFirst => seq![NodeKind::Expression],
        Operation::Subst => seq![NodeKind::Expression, NodeKind::StatementList, NodeKind::Statement],
        Operation::GetBinding => seq![
            NodeKind::Expression,
            NodeKind::Type,
            NodeKind::Statement,
            NodeKind::StatementList,
        ],
    }
}

/// Tries the kinds that `op` accepts, in order, against the kind of a
/// handle: the first that fits is the one the operation runs at; when none
/// does, the operation fails.
pub fn dispatch(op: Operation, kind: NodeKind) -> (r: Result<NodeKind, RewriteError>)
    ensures
        match r {
            Ok(k) => k == kind && accepted_kinds(op).contains(kind),
            Err(e) => e == RewriteError::NoMatchingKind(op) && !accepted_kinds(op).contains(kind),
        },
{
    let accepted: Vec<NodeKind> = match op {
        Operation::FoldWith => vec![NodeKind::Expression, NodeKind::Type, NodeKind::StatementList],
        Operation::TryMatch => vec![NodeKind::Expression],
        Operation::FindFirst => vec![NodeKind::Expression],
        Operation::Subst => vec![NodeKind::Expression, NodeKind::StatementList, NodeKind::Statement],
        Operation::GetBinding => vec![
            NodeKind::Expression,
            NodeKind::Type,
            NodeKind::Statement,
            NodeKind::StatementList,
        ],
    };
    assert(accepted@ =~= accepted_kinds(op));
    let mut i: usize = 0;
    while i < accepted.len()
        invariant
            accepted@ == accepted_kinds(op),
            i <= accepted@.len(),
            forall|j: int| 0 <= j < i ==> accepted@[j] != kind,
        decreases accepted@.len() - i,
    {
        if accepted[i] == kind {
            assert(accepted@[i as int] == kind);
            return Ok(kind);
        }
        i = i + 1;
    }
    Err(RewriteError::NoMatchingKind(op))
}

/// The match context that the scripting layer hands to scripts.
#[derive(Debug)]
pub struct ScriptingMatchCtxt {
    pub mcx: MatchCtxt,
    pub transform: TransformCtxt,
}

impl ScriptingMatchCtxt {
    /// A context without bindings for the transform `transform`.
    pub fn new(transform: TransformCtxt) -> (r: Self)
        ensures
            r.mcx.bindings.wf(),
            r.mcx.bindings@ == Map::<Seq<char>, Tree>::empty(),
            r.transform == transform,
    {
        ScriptingMatchCtxt { mcx: MatchCtxt::new(), transform }
    }

    /// A context for the same transform with the bindings of `mcx`.
    pub fn new_subcontext(&self, mcx: MatchCtxt) -> (r: Self)
        ensures
            r.mcx == mcx,
            r.transform == self.transform,
    {
        ScriptingMatchCtxt { mcx, transform: self.transform }
    }

    /// Folds `krate` with the pattern `needle`, replacing each match by what
    /// `callback` builds from it. The pattern must be an expression, a type or
    /// a statement list. Each match starts from its own copy of this
    /// context's bindings, so the callback sees them together with that
    /// match's captures.
    pub fn fold_with<R: Rewriter>(&self, needle: &Node, krate: &mut Node, callback: &R) -> (r: Result<
        (),
        RewriteError,
    >)
        requires
            self.mcx.bindings.wf(),
            placeholder_kinds_ok(needle@, self.mcx.bindings@),
        ensures
            !accepted_kinds(Operation::FoldWith).contains(needle.kind) ==> r == Err::<(), RewriteError>(
                RewriteError::NoMatchingKind(Operation::FoldWith),
            ) && final(krate)@ == old(krate)@,
            accepted_kinds(Operation::FoldWith).contains(needle.kind) ==> match r {
                Ok(()) => fold_tree(needle@, old(krate)@, self.mcx.bindings@, *callback) == Ok::<Tree, RewriteError>(final(krate)@),
                Err(e) => fold_tree(needle@, old(krate)@, self.mcx.bindings@, *callback) == Err::<Tree, RewriteError>(e)
                    && final(krate)@ == fold_stop(needle@, old(krate)@, self.mcx.bindings@, *callback),
            },
    {
        match dispatch(Operation::FoldWith, needle.kind) {
            Ok(_) => fold_tree_with(needle, krate, &self.mcx.bindings, callback),
            Err(e) => Err(e),
        }
    }

    /// Matches `target` against `pat`, an expression pattern. On a match the
    /// bindings of this context take the captures; otherwise they stay.
    pub fn try_match(&mut self, pat: &Node, target: &Node) -> (r: Result<bool, RewriteError>)
        requires
            old(self).mcx.bindings.wf(),
            placeholder_kinds_ok(pat@, old(self).mcx.bindings@),
        ensures
            final(self).mcx.bindings.wf(),
            final(self).transform == old(self).transform,
            !accepted_kinds(Operation::TryMatch).contains(pat.kind) ==> r == Err::<bool, RewriteError>(
                RewriteError::NoMatchingKind(Operation::TryMatch),
            ) && final(self).mcx.bindings@ == old(self).mcx.bindings@,
            accepted_kinds(Operation::TryMatch).contains(pat.kind) ==> {
                let m = match_spec(pat@, target@, old(self).mcx.bindings@);
                &&& r == Ok::<bool, RewriteError>(target.kind == pat.kind && m is Some)
                &&& final(self).mcx.bindings@ == if target.kind == pat.kind && m is Some {
                    m->0
                } else {
                    old(self).mcx.bindings@
                }
            },
    {
        match dispatch(Operation::TryMatch, pat.kind) {
            Ok(_) => {},
            Err(e) => {
                return Err(e);
            },
        }
        if target.kind != pat.kind {
            return Ok(false);
        }
        let attempt = copy_bindings(&self.mcx.bindings);
        match match_candidate(pat, target, attempt) {
            Some(e) => {
                self.mcx.bindings = e;
                Ok(true)
            },
            None => Ok(false),
        }
    }

    /// Whether some subtree of `target`, a statement list, matches `pat`, an
    /// expression pattern, starting from a copy of this context's bindings.
    /// The bindings of this context are not changed.
    pub fn find_first(&self, pat: &Node, target: &Node) -> (r: Result<bool, RewriteError>)
        requires
            self.mcx.bindings.wf(),
            placeholder_kinds_ok(pat@, self.mcx.bindings@),
        ensures
            target.kind != NodeKind::StatementList ==> r == Err::<bool, RewriteError>(
                RewriteError::UnsupportedTarget,
            ),
            target.kind == NodeKind::StatementList && !accepted_kinds(Operation::FindFirst).contains(
                pat.kind,
            ) ==> r == Err::<bool, RewriteError>(RewriteError::NoMatchingKind(Operation::FindFirst)),
            target.kind == NodeKind::StatementList && accepted_kinds(Operation::FindFirst).contains(
                pat.kind,
            ) ==> r == Ok::<bool, RewriteError>(find_in(pat@, target@, self.mcx.bindings@) is Some),
    {
        if target.kind != NodeKind::StatementList {
            return Err(RewriteError::UnsupportedTarget);
        }
        match dispatch(Operation::FindFirst, pat.kind) {
            Ok(_) => {},
            Err(e) => {
                return Err(e);
            },
        }
        match find_first_match(pat, target, &self.mcx.bindings) {
            Some(_) => Ok(true),
            None => Ok(false),
        }
    }

    /// Builds `replacement`, an expression, statement or statement list, with
    /// the bindings of this context in place of its placeholders. A
    /// placeholder bound to a node of another kind is a contract violation,
    /// left out by `requires`; `kinds_agree` tests for it.
    pub fn subst(&self, replacement: &Node) -> (r: Result<Node, RewriteError>)
        requires
            self.mcx.bindings.wf(),
            subst_ok(replacement@, self.mcx.bindings@),
        ensures
            !accepted_kinds(Operation::Subst).contains(replacement.kind) ==> r == Err::<Node, RewriteError>(
                RewriteError::NoMatchingKind(Operation::Subst),
            ),
            accepted_kinds(Operation::Subst).contains(replacement.kind) ==> r is Ok && r->Ok_0@ == subst_tree(
                replacement@,
                self.mcx.bindings@,
            ),
    {
        match dispatch(Operation::Subst, replacement.kind) {
            Ok(_) => Ok(subst_template(replacement, &self.mcx.bindings)),
            Err(e) => Err(e),
        }
    }

    /// Whether this context binds `name` to a node of kind `kind`.
    pub fn has_binding(&self, name: &String, kind: NodeKind) -> (r: bool)
        requires
            self.mcx.bindings.wf(),
        ensures
            r == (self.mcx.bindings@.contains_key(name@) && self.mcx.bindings@[name@].kind == kind),
    {
        match self.mcx.bindings.get(name) {
            Some(n) => n.kind == kind,
            None => false,
        }
    }

    /// A copy of the capture bound to `name`, which must be bound to a node
    /// of kind `kind`: asking for another is a contract violation, left out by
    /// `requires`; `has_binding` tests for it.
    pub fn get_binding(&self, name: &String, kind: NodeKind) -> (r: Result<Node, RewriteError>)
        requires
            self.mcx.bindings.wf(),
            self.mcx.bindings@.contains_key(name@),
            self.mcx.bindings@[name@].kind == kind,
        ensures
            !accepted_kinds(Operation::GetBinding).contains(kind) ==> r == Err::<Node, RewriteError>(
                RewriteError::NoMatchingKind(Operation::GetBinding),
            ),
            accepted_kinds(Operation::GetBinding).contains(kind) ==> r is Ok && r->Ok_0@
                == self.mcx.bindings@[name@],
    {
        match dispatch(Operation::GetBinding, kind) {
            Ok(_) => {},
            Err(e) => {
                return Err(e);
            },
        }
        match self.mcx.bindings.get(name) {
            Some(n) => Ok(n.copy()),
            None => Err(RewriteError::Unbound),
        }
    }
}

/// The identity of a node that no tree holds yet.
pub const DUMMY_NODE_ID: NodeId = 0xFFFF_FFFF;

/// The span of a node that no source text produced.
pub open spec fn dummy_span() -> Span {
    Span { lo: 0, hi: 0 }
}

/// The text of a concrete head.
pub open spec fn form_text(h: Head) -> Seq<char> {
    match h {
        Head::Form(s) => s@,
        Head::Placeholder(_) => Seq::empty(),
    }
}

/// A fresh node: no identity yet, no span, no attributes.
pub open spec fn is_fresh(r: Tree, kind: NodeKind, text: Seq<char>, children: Seq<Tree>) -> bool {
    &&& r.id == DUMMY_NODE_ID
    &&& r.kind == kind
    &&& r.span == dummy_span()
    &&& r.attrs.len() == 0
    &&& r.head is Form
    &&& form_text(r.head) == text
    &&& r.children == children
}

fn fresh_node(kind: NodeKind, text: String, children: Vec<Node>) -> (r: Node)
    ensures
        is_fresh(r@, kind, text@, crate::matcher::trees(children@)),
{
    let r = Node::new(DUMMY_NODE_ID, kind, Span { lo: 0, hi: 0 }, Head::Form(text), children);
    proof {
        crate::matcher::lemma_trees_of_children(&r);
    }
    r
}

/// The operator text of a binary operator name that scripts may use.
pub open spec fn binary_op_text(op: Seq<char>) -> Option<Seq<char>> {
    if op == "Add"@ {
        Some("+"@)
    } else if op == "Div"@ {
        Some("/"@)
    } else {
        None
    }
}

/// Whether `op` names a binary operator that scripts may use.
pub fn is_binary_op(op: &str) -> (r: bool)
    ensures
        r == binary_op_text(op@) is Some,
{
    proof {
        reveal_strlit("Add");
        reveal_strlit("Div");
    }
    let given = op.to_owned();
    given == "Add".to_owned() || given == "Div".to_owned()
}

/// Builds `lhs op rhs` from two expressions. An operator name other than
/// `Add` or `Div` is a contract violation, left out by `requires`;
/// `is_binary_op` tests for it.
pub fn binary_expr(op: &str, lhs: Node, rhs: Node) -> (r: Result<Node, RewriteError>)
    requires
        binary_op_text(op@) is Some,
    ensures
        lhs.kind != NodeKind::Expression || rhs.kind != NodeKind::Expression ==> r == Err::<
            Node,
            RewriteError,
        >(RewriteError::KindMismatch),
        lhs.kind == NodeKind::Expression && rhs.kind == NodeKind::Expression ==> r is Ok && is_fresh(
            r->Ok_0@,
            NodeKind::Expression,
            binary_op_text(op@)->0,
            seq![lhs@, rhs@],
        ),
{
    proof {
        reveal_strlit("Add");
        reveal_strlit("+");
        reveal_strlit("/");
    }
    let add = "Add".to_owned();
    let given = op.to_owned();
    let text = if given == add {
        "+".to_owned()
    } else {
        "/".to_owned()
    };
    if lhs.kind != NodeKind::Expression || rhs.kind != NodeKind::Expression {
        return Err(RewriteError::KindMismatch);
    }
    let ghost children = seq![lhs@, rhs@];
    let v = vec![lhs, rhs];
    assert(crate::matcher::trees(v@) =~= children);
    Ok(fresh_node(NodeKind::Expression, text, v))
}

/// Builds `lhs = rhs` from two expressions.
pub fn assign_expr(lhs: Node, rhs: Node) -> (r: Result<Node, RewriteError>)
    ensures
        lhs.kind != NodeKind::Expression || rhs.kind != NodeKind::Expression ==> r == Err::<
            Node,
            RewriteError,
        >(RewriteError::KindMismatch),
        lhs.kind == NodeKind::Expression && rhs.kind == NodeKind::Expression ==> r is Ok && is_fresh(
            r->Ok_0@,
            NodeKind::Expression,
            "="@,
            seq![lhs@, rhs@],
        ),
{
    proof {
        reveal_strlit("=");
    }
    if lhs.kind != NodeKind::Expression || rhs.kind != NodeKind::Expression {
        return Err(RewriteError::KindMismatch);
    }
    let ghost children = seq![lhs@, rhs@];
    let v = vec![lhs, rhs];
    assert(crate::matcher::trees(v@) =~= children);
    Ok(fresh_node(NodeKind::Expression, "=".to_owned(), v))
}

/// Builds `expr as ty` from an expression and a type.
pub fn cast_expr(expr: Node, ty: Node) -> (r: Result<Node, RewriteError>)
    ensures
        expr.kind != NodeKind::Expression || ty.kind != NodeKind::Type ==> r == Err::<Node, RewriteError>(
            RewriteError::KindMismatch,
        ),
        expr.kind == NodeKind::Expression && ty.kind == NodeKind::Type ==> r is Ok && is_fresh(
            r->Ok_0@,
            NodeKind::Expression,
            "as"@,
            seq![expr@, ty@],
        ),
{
    proof {
        reveal_strlit("as");
    }
    if expr.kind != NodeKind::Expression || ty.kind != NodeKind::Type {
        return Err(RewriteError::KindMismatch);
    }
    let ghost children = seq![expr@, ty@];
    let v = vec![expr, ty];
    assert(crate::matcher::trees(v@) =~= children);
    Ok(fresh_node(NodeKind::Expression, "as".to_owned(), v))
}

/// Builds `vec![init; num]` from two expressions.
pub fn vec_mac_init_num(init: Node, num: Node) -> (r: Result<Node, RewriteError>)
    ensures
        init.kind != NodeKind::Expression || num.kind != NodeKind::Expression ==> r == Err::<
            Node,
            RewriteError,
        >(RewriteError::KindMismatch),
        init.kind == NodeKind::Expression && num.kind == NodeKind::Expression ==> r is Ok && is_fresh(
            r->Ok_0@,
            NodeKind::Expression,
            "vec!"@,
            seq![init@, num@],
        ),
{
    proof {
        reveal_strlit("vec!");
    }
    if init.kind != NodeKind::Expression || num.kind != NodeKind::Expression {
        return Err(RewriteError::KindMismatch);
    }
    let ghost children = seq![init@, num@];
    let v = vec![init, num];
    assert(crate::matcher::trees(v@) =~= children);
    Ok(fresh_node(NodeKind::Expression, "vec!".to_owned(), v))
}

/// An expression that names `path`.
pub fn ident_path_expr(path: &str) -> (r: Node)
    ensures
        is_fresh(r@, NodeKind::Expression, path@, Seq::empty()),
{
    let r = fresh_node(NodeKind::Expression, path.to_owned(), Vec::new());
    assert(crate::matcher::trees(Seq::<Node>::empty()) =~= Seq::<Tree>::empty());
    r
}

/// A type that names `path`.
pub fn ident_path_ty(path: &str) -> (r: Node)
    ensures
        is_fresh(r@, NodeKind::Type, path@, Seq::empty()),
{
    let r = fresh_node(NodeKind::Type, path.to_owned(), Vec::new());
    assert(crate::matcher::trees(Seq::<Node>::empty()) =~= Seq::<Tree>::empty());
    r
}

/// The decimal digits of `n`, most significant first.
pub open spec fn decimal_digits(n: nat) -> Seq<char>
    decreases n,
{
    if n < 10 {
        seq!["0123456789"@[n as int]]
    } else {
        decimal_digits(n / 10).push("0123456789"@[(n % 10) as int])
    }
}

/// The decimal text of `n`, with a leading `-` when it is negative.
pub open spec fn decimal_text(n: int) -> Seq<char> {
    if n < 0 {
        seq!['-'] + decimal_digits((-n) as nat)
    } else {
        decimal_digits(n as nat)
    }
}

/// Relies on the `Display` impl of `i64` (through `ToString::to_string`),
/// which writes the number in decimal, with a `-` sign when it is negative
/// and without leading zeros.
#[verifier::external_body]
fn decimal_string(n: i64) -> (r: String)
    ensures
        r@ == decimal_text(n as int),
{
    n.to_string()
}

/// An integer literal expression without a suffix.
pub fn int_lit_expr(value: i64) -> (r: Node)
    ensures
        is_fresh(r@, NodeKind::Expression, decimal_text(value as int), Seq::empty()),
{
    let r = fresh_node(NodeKind::Expression, decimal_string(value), Vec::new());
    assert(crate::matcher::trees(Seq::<Node>::empty()) =~= Seq::<Tree>::empty());
    r
}

} // verus!
