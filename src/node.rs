use vstd::prelude::*;

verus! {

/// Identity of a node: unique within a tree at any instant.
pub type NodeId = u64;

/// The closed set of node kinds.
#[derive(Clone, Copy, Debug, PartialEq, Eq, Structural)]
pub enum NodeKind {
    Declaration,
    Statement,
    Expression,
    Type,
    TraitMember,
    ImplMember,
    ExternMember,
    StatementList,
}

/// A half-open source range `lo..hi`.
#[derive(Clone, Copy, Debug, PartialEq, Eq, Structural)]
pub struct Span {
    pub lo: u32,
    pub hi: u32,
}

impl Span {
    pub open spec fn spec_contains(self, other: Span) -> bool {
        self.lo <= other.lo && other.hi <= self.hi
    }

    /// Whether `other` lies within this span.
    pub fn contains(&self, other: Span) -> (r: bool)
        ensures
            r == self.spec_contains(other),
    {
        self.lo <= other.lo && other.hi <= self.hi
    }
}

/// An attribute directive attached to a node.
#[derive(Clone, Debug, PartialEq, Eq)]
pub struct Attribute {
    pub name: String,
    pub args: String,
    pub span: Span,
}

/// The name that marks a conditional (configuration-gated) directive.
pub open spec fn conditional_name() -> Seq<char> {
    "cfg_attr"@
}

impl Attribute {
    pub open spec fn is_conditional_spec(self) -> bool {
        self.name@ == conditional_name()
    }

    pub fn new(name: String, args: String, span: Span) -> (r: Attribute)
        ensures
            r == (Attribute { name, args, span }),
    {
        Attribute { name, args, span }
    }

    /// Whether this directive selects attributes by build configuration.
    pub fn is_conditional(&self) -> (r: bool)
        ensures
            r == self.is_conditional_spec(),
    {
        let marker = "cfg_attr".to_owned();
        proof {
            reveal_strlit("cfg_attr");
        }
        self.name == marker
    }

    /// An exact copy.
    pub fn copy(&self) -> (r: Attribute)
        ensures
            r == *self,
    {
        Attribute { name: self.name.clone(), args: self.args.clone(), span: self.span }
    }
}

/// Copies a list of attributes exactly.
pub fn copy_attrs(attrs: &Vec<Attribute>) -> (r: Vec<Attribute>)
    ensures
        r@ == attrs@,
{
    let mut out: Vec<Attribute> = Vec::new();
    let mut i: usize = 0;
    while i < attrs.len()
        invariant
            i <= attrs@.len(),
            out@ == attrs@.subrange(0, i as int),
        decreases attrs@.len() - i,
    {
        out.push(attrs[i].copy());
        i = i + 1;
        assert(out@ =~= attrs@.subrange(0, i as int));
    }
    assert(attrs@.subrange(0, attrs@.len() as int) =~= attrs@);
    out
}

/// What a node is, apart from its children: a concrete form (an operator, a
/// name, a literal) or, in a pattern or a template, a named placeholder.
#[derive(Clone, Debug, PartialEq, Eq)]
pub enum Head {
    Form(String),
    Placeholder(String),
}

impl Head {
    pub open spec fn same_as(self, other: Head) -> bool {
        match self {
            Head::Form(a) => other is Form && a@ == other->Form_0@,
            Head::Placeholder(a) => other is Placeholder && a@ == other->Placeholder_0@,
        }
    }

    pub open spec fn is_placeholder(self) -> bool {
        self is Placeholder
    }

    pub open spec fn placeholder_name(self) -> Seq<char> {
        match self {
            Head::Placeholder(n) => n@,
            Head::Form(_) => Seq::empty(),
        }
    }

    /// Compares two heads by their text.
    pub fn equals(&self, other: &Head) -> (r: bool)
        ensures
            r == self.same_as(*other),
    {
        match (self, other) {
            (Head::Form(a), Head::Form(b)) => *a == *b,
            (Head::Placeholder(a), Head::Placeholder(b)) => *a == *b,
            _ => false,
        }
    }

    /// An exact copy.
    pub fn copy(&self) -> (r: Head)
        ensures
            r == *self,
    {
        match self {
            Head::Form(s) => Head::Form(s.clone()),
            Head::Placeholder(s) => Head::Placeholder(s.clone()),
        }
    }
}

/// A syntax node.
#[derive(Debug, PartialEq, Eq)]
pub struct Node {
    pub id: NodeId,
    pub kind: NodeKind,
    pub span: Span,
    pub attrs: Vec<Attribute>,
    pub head: Head,
    pub children: Vec<Node>,
}

/// The mathematical value of a node.
pub struct Tree {
    pub id: NodeId,
    pub kind: NodeKind,
    pub span: Span,
    pub attrs: Seq<Attribute>,
    pub head: Head,
    pub children: Seq<Tree>,
}

pub open spec fn tree_of(n: Node) -> Tree
    decreases n,
{
    Tree {
        id: n.id,
        kind: n.kind,
        span: n.span,
        attrs: n.attrs@,
        head: n.head,
        children: Seq::new(
            n.children@.len(),
            |i: int|
                if 0 <= i < n.children@.len() {
                    tree_of(n.children@[i])
                } else {
                    arbitrary()
                },
        ),
    }
}

impl View for Node {
    type V = Tree;

    open spec fn view(&self) -> Tree {
        tree_of(*self)
    }
}

pub proof fn lemma_view_children(n: &Node)
    ensures
        n@.children.len() == n.children@.len(),
        forall|i: int| 0 <= i < n.children@.len() ==> #[trigger] n@.children[i] == n.children@[i]@,
{
}

/// Structural equality: same kind, same head and pairwise equal children;
/// identities, spans and attributes are ignored.
pub open spec fn shape_eq(a: Tree, b: Tree) -> bool
    decreases a, 1nat, 0nat,
{
    &&& a.kind == b.kind
    &&& a.head.same_as(b.head)
    &&& a.children.len() == b.children.len()
    &&& shape_eq_from(a, b, 0)
}

/// The children of `a` and `b` from index `i` on are pairwise structurally equal.
pub open spec fn shape_eq_from(a: Tree, b: Tree, i: int) -> bool
    decreases a, 0nat, a.children.len() - i,
{
    if i < 0 || i >= a.children.len() {
        true
    } else {
        shape_eq(a.children[i], b.children[i]) && shape_eq_from(a, b, i + 1)
    }
}

pub proof fn lemma_shape_eq_from(a: Tree, b: Tree, i: int)
    requires
        0 <= i <= a.children.len(),
    ensures
        shape_eq_from(a, b, i) <==> forall|j: int|
            i <= j < a.children.len() ==> #[trigger] shape_eq(a.children[j], b.children[j]),
    decreases a.children.len() - i,
{
    if i < a.children.len() {
        lemma_shape_eq_from(a, b, i + 1);
        assert(shape_eq_from(a, b, i) == (shape_eq(a.children[i], b.children[i]) && shape_eq_from(a, b, i + 1)));
        if shape_eq_from(a, b, i) {
            assert forall|j: int| i <= j < a.children.len() implies #[trigger] shape_eq(a.children[j], b.children[j]) by {
                if j > i {
                    assert(i + 1 <= j);
                }
            }
        }
        if forall|j: int| i <= j < a.children.len() ==> #[trigger] shape_eq(a.children[j], b.children[j]) {
            assert(shape_eq(a.children[i], b.children[i]));
        }
    }
}

/// Whether no placeholder occurs in the tree.
pub open spec fn placeholder_free(t: Tree) -> bool
    decreases t, 1nat, 0nat,
{
    !t.head.is_placeholder() && placeholder_free_from(t, 0)
}

pub open spec fn placeholder_free_from(t: Tree, i: int) -> bool
    decreases t, 0nat, t.children.len() - i,
{
    if i < 0 || i >= t.children.len() {
        true
    } else {
        placeholder_free(t.children[i]) && placeholder_free_from(t, i + 1)
    }
}

pub proof fn lemma_placeholder_free_from(t: Tree, i: int)
    requires
        0 <= i <= t.children.len(),
    ensures
        placeholder_free_from(t, i) <==> forall|j: int|
            i <= j < t.children.len() ==> #[trigger] placeholder_free(t.children[j]),
    decreases t.children.len() - i,
{
    if i < t.children.len() {
        lemma_placeholder_free_from(t, i + 1);
        assert(placeholder_free_from(t, i) == (placeholder_free(t.children[i]) && placeholder_free_from(t, i + 1)));
        if placeholder_free_from(t, i) {
            assert forall|j: int| i <= j < t.children.len() implies #[trigger] placeholder_free(t.children[j]) by {
                if j > i {
                    assert(i + 1 <= j);
                }
            }
        }
        if forall|j: int| i <= j < t.children.len() ==> #[trigger] placeholder_free(t.children[j]) {
            assert(placeholder_free(t.children[i]));
        }
    }
}

impl Node {
    /// A node without attributes.
    pub fn new(id: NodeId, kind: NodeKind, span: Span, head: Head, children: Vec<Node>) -> (r: Node)
        ensures
            r.id == id && r.kind == kind && r.span == span && r.attrs@.len() == 0,
            r.head == head && r.children == children,
    {
        Node { id, kind, span, attrs: Vec::new(), head, children }
    }

    /// An exact copy of the whole subtree.
    pub fn copy(&self) -> (r: Node)
        ensures
            r@ == self@,
        decreases self,
    {
        let mut ch: Vec<Node> = Vec::new();
        let mut i: usize = 0;
        while i < self.children.len()
            invariant
                i <= self.children@.len(),
                ch@.len() == i,
                forall|j: int| 0 <= j < i ==> #[trigger] ch@[j]@ == self.children@[j]@,
            decreases self.children@.len() - i,
        {
            let c = self.children[i].copy();
            ch.push(c);
            i = i + 1;
        }
        let r = Node {
            id: self.id,
            kind: self.kind,
            span: self.span,
            attrs: copy_attrs(&self.attrs),
            head: self.head.copy(),
            children: ch,
        };
        proof {
            lemma_view_children(&r);
            lemma_view_children(self);
        }
        assert(r@.children =~= self@.children);
        r
    }

    /// Structural equality, ignoring identities, spans and attributes.
    pub fn same_shape(&self, other: &Node) -> (r: bool)
        ensures
            r == shape_eq(self@, other@),
        decreases self,
    {
        proof {
            lemma_view_children(self);
            lemma_view_children(other);
        }
        if self.kind != other.kind || !self.head.equals(&other.head)
            || self.children.len() != other.children.len() {
            return false;
        }
        let mut i: usize = 0;
        while i < self.children.len()
            invariant
                i <= self.children@.len(),
                self.children@.len() == other.children@.len(),
                self@.children.len() == self.children@.len(),
                other@.children.len() == other.children@.len(),
                forall|k: int| 0 <= k < self.children@.len() ==> #[trigger] self@.children[k] == self.children@[k]@,
                forall|k: int| 0 <= k < other.children@.len() ==> #[trigger] other@.children[k] == other.children@[k]@,
                forall|j: int| 0 <= j < i ==> #[trigger] shape_eq(self@.children[j], other@.children[j]),
            decreases self.children@.len() - i,
        {
            if !self.children[i].same_shape(&other.children[i]) {
                proof {
                    lemma_shape_eq_from(self@, other@, 0);
                    assert(!shape_eq(self@.children[i as int], other@.children[i as int]));
                }
                return false;
            }
            i = i + 1;
        }
        proof {
            lemma_shape_eq_from(self@, other@, 0);
        }
        true
    }
}

/// Structural equality is reflexive.
pub proof fn lemma_shape_eq_refl(a: Tree)
    ensures
        shape_eq(a, a),
    decreases a,
{
    assert forall|i: int| 0 <= i < a.children.len() implies #[trigger] shape_eq(a.children[i], a.children[i]) by {
        lemma_shape_eq_refl(a.children[i]);
    }
    lemma_shape_eq_from(a, a, 0);
}

} // verus!
