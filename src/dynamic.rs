use vstd::prelude::*;
use crate::error::RewriteError;
use crate::node::{lemma_view_children, Head, Node, NodeKind, Tree};

verus! {

/// The record that the scripting layer sees of a node: its kind, its head
/// and the records of its children. Identities, spans and attributes stay
/// on the native side.
#[derive(Debug, PartialEq, Eq)]
pub struct DynRecord {
    pub kind: NodeKind,
    pub head: Head,
    pub children: Vec<DynRecord>,
}

/// The mathematical value of a record.
pub struct DynView {
    pub kind: NodeKind,
    pub head: Head,
    pub children: Seq<DynView>,
}

pub open spec fn dyn_view_of(r: DynRecord) -> DynView
    decreases r,
{
    DynView {
        kind: r.kind,
        head: r.head,
        children: Seq::new(
            r.children@.len(),
            |i: int|
                if 0 <= i < r.children@.len() {
                    dyn_view_of(r.children@[i])
                } else {
                    arbitrary()
                },
        ),
    }
}

impl View for DynRecord {
    type V = DynView;

    open spec fn view(&self) -> DynView {
        dyn_view_of(*self)
    }
}

pub proof fn lemma_record_children(r: &DynRecord)
    ensures
        r@.children.len() == r.children@.len(),
        forall|i: int| 0 <= i < r.children@.len() ==> #[trigger] r@.children[i] == r.children@[i]@,
{
}

/// The record of a tree.
pub open spec fn dyn_of(t: Tree) -> DynView
    decreases t,
{
    DynView {
        kind: t.kind,
        head: t.head,
        children: Seq::new(
            t.children.len(),
            |i: int|
                if 0 <= i < t.children.len() {
                    dyn_of(t.children[i])
                } else {
                    arbitrary()
                },
        ),
    }
}

/// Whether `d` can be written back onto `t`: same kinds and the same number
/// of children everywhere.
pub open spec fn mergeable(t: Tree, d: DynView) -> bool
    decreases t, 1nat, 0nat,
{
    t.kind == d.kind && t.children.len() == d.children.len() && mergeable_from(t, d, 0)
}

pub open spec fn mergeable_from(t: Tree, d: DynView, i: int) -> bool
    decreases t, 0nat, t.children.len() - i,
{
    if i < 0 || i >= t.children.len() {
        true
    } else {
        mergeable(t.children[i], d.children[i]) && mergeable_from(t, d, i + 1)
    }
}

proof fn lemma_mergeable_from(t: Tree, d: DynView, i: int)
    requires
        0 <= i <= t.children.len(),
    ensures
        mergeable_from(t, d, i) <==> forall|j: int|
            i <= j < t.children.len() ==> #[trigger] mergeable(t.children[j], d.children[j]),
    decreases t.children.len() - i,
{
    if i < t.children.len() {
        lemma_mergeable_from(t, d, i + 1);
        if forall|j: int| i <= j < t.children.len() ==> #[trigger] mergeable(t.children[j], d.children[j]) {
            assert(mergeable(t.children[i], d.children[i]));
        }
        if mergeable_from(t, d, i) {
            assert forall|j: int| i <= j < t.children.len() implies #[trigger] mergeable(t.children[j], d.children[j]) by {
                if j > i {
                    assert(i + 1 <= j);
                }
            }
        }
    }
}

/// `t` with the heads of `d` written onto its nodes.
pub open spec fn merged(t: Tree, d: DynView) -> Tree
    decreases t,
{
    Tree {
        head: d.head,
        children: Seq::new(
            t.children.len(),
            |i: int|
                if 0 <= i < t.children.len() {
                    merged(t.children[i], d.children[i])
                } else {
                    arbitrary()
                },
        ),
        ..t
    }
}

/// The record of a node, for the scripting layer.
pub fn to_dynamic(n: &Node) -> (r: DynRecord)
    ensures
        r@ == dyn_of(n@),
    decreases n,
{
    proof {
        lemma_view_children(n);
    }
    let mut ch: Vec<DynRecord> = Vec::new();
    let mut i: usize = 0;
    while i < n.children.len()
        invariant
            i <= n.children@.len(),
            n@.children.len() == n.children@.len(),
            forall|k: int| 0 <= k < n.children@.len() ==> #[trigger] n@.children[k] == n.children@[k]@,
            ch@.len() == i,
            forall|j: int| 0 <= j < i ==> #[trigger] ch@[j]@ == dyn_of(n@.children[j]),
        decreases n.children@.len() - i,
    {
        ch.push(to_dynamic(&n.children[i]));
        i = i + 1;
    }
    let r = DynRecord { kind: n.kind, head: n.head.copy(), children: ch };
    proof {
        lemma_record_children(&r);
        assert(r@.children =~= dyn_of(n@).children);
    }
    r
}

fn can_merge(n: &Node, d: &DynRecord) -> (r: bool)
    ensures
        r == mergeable(n@, d@),
    decreases n,
{
    proof {
        lemma_view_children(n);
        lemma_record_children(d);
    }
    if n.kind != d.kind || n.children.len() != d.children.len() {
        return false;
    }
    let mut i: usize = 0;
    while i < n.children.len()
        invariant
            i <= n.children@.len(),
            n.kind == d.kind,
            n.children@.len() == d.children@.len(),
            n@.children.len() == n.children@.len(),
            d@.children.len() == d.children@.len(),
            forall|k: int| 0 <= k < n.children@.len() ==> #[trigger] n@.children[k] == n.children@[k]@,
            forall|k: int| 0 <= k < d.children@.len() ==> #[trigger] d@.children[k] == d.children@[k]@,
            forall|j: int| 0 <= j < i ==> #[trigger] mergeable(n@.children[j], d@.children[j]),
        decreases n.children@.len() - i,
    {
        if !can_merge(&n.children[i], &d.children[i]) {
            proof {
                lemma_mergeable_from(n@, d@, 0);
                assert(!mergeable(n@.children[i as int], d@.children[i as int]));
            }
            return false;
        }
        i = i + 1;
    }
    proof {
        lemma_mergeable_from(n@, d@, 0);
    }
    true
}

fn merge_into(n: &mut Node, d: &DynRecord)
    requires
        mergeable(old(n)@, d@),
    ensures
        final(n)@ == merged(old(n)@, d@),
    decreases *old(n),
{
    let ghost t0 = n@;
    proof {
        lemma_view_children(n);
        lemma_record_children(d);
        lemma_mergeable_from(n@, d@, 0);
    }
    n.head = d.head.copy();
    let len: usize = n.children.len();
    let mut i: usize = 0;
    while i < len
        invariant
            len == n.children@.len(),
            len == t0.children.len(),
            len == d.children@.len(),
            d@.children.len() == d.children@.len(),
            forall|k: int| 0 <= k < d.children@.len() ==> #[trigger] d@.children[k] == d.children@[k]@,
            forall|j: int| 0 <= j < len ==> #[trigger] mergeable(t0.children[j], d@.children[j]),
            i <= len,
            t0 == old(n)@,
            n.id == t0.id && n.kind == t0.kind && n.span == t0.span && n.attrs@ == t0.attrs,
            n.head == d.head,
            forall|j: int| i <= j < len ==> #[trigger] n.children@[j] == old(n).children@[j],
            forall|j: int| 0 <= j < i ==> (#[trigger] n.children@[j])@ == merged(
                t0.children[j],
                d@.children[j],
            ),
        decreases len - i,
    {
        proof {
            lemma_view_children(old(n));
        }
        merge_into(&mut n.children[i], &d.children[i]);
        i = i + 1;
    }
    proof {
        lemma_view_children(n);
        lemma_view_children(old(n));
        assert(n@.children =~= merged(t0, d@).children);
    }
}

/// Writes a record, possibly changed by a script, back onto the node it was
/// made from. A record whose kinds or numbers of children differ from the
/// node's is refused and the node is left as it was.
pub fn merge_from_dynamic(n: &mut Node, d: &DynRecord) -> (r: Result<(), RewriteError>)
    ensures
        mergeable(old(n)@, d@) ==> r is Ok && final(n)@ == merged(old(n)@, d@),
        !mergeable(old(n)@, d@) ==> r == Err::<(), RewriteError>(RewriteError::KindMismatch)
            && final(n)@ == old(n)@,
{
    if !can_merge(n, d) {
        return Err(RewriteError::KindMismatch);
    }
    merge_into(n, d);
    Ok(())
}

/// The record of a tree can always be written back, and writing it back
/// changes nothing.
pub proof fn lemma_merge_own_record(t: Tree)
    ensures
        mergeable(t, dyn_of(t)),
        merged(t, dyn_of(t)) == t,
    decreases t,
{
    let d = dyn_of(t);
    assert forall|i: int| 0 <= i < t.children.len() implies #[trigger] mergeable(t.children[i], d.children[i]) by {
        lemma_merge_own_record(t.children[i]);
    }
    assert forall|i: int| 0 <= i < t.children.len() implies merged(t.children[i], d.children[i]) == t.children[i] by {
        lemma_merge_own_record(t.children[i]);
    }
    lemma_mergeable_from(t, d, 0);
    assert(merged(t, d).children =~= t.children);
}

/// Writing a record back overwrites exactly what the record shows: the
/// record of the result is the record that was written.
pub proof fn lemma_record_of_merged(t: Tree, d: DynView)
    requires
        mergeable(t, d),
    ensures
        dyn_of(merged(t, d)) == d,
    decreases t,
{
    lemma_mergeable_from(t, d, 0);
    let m = merged(t, d);
    assert forall|i: int| 0 <= i < t.children.len() implies dyn_of(m.children[i]) == d.children[i] by {
        lemma_record_of_merged(t.children[i], d.children[i]);
    }
    assert(dyn_of(m).children =~= d.children);
}

} // verus!
