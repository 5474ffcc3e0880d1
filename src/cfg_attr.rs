use std::collections::HashMap;
use vstd::prelude::*;
use crate::node::{copy_attrs, lemma_view_children, Attribute, Node, NodeId, Tree};

verus! {

broadcast use vstd::std_specs::hash::group_hash_axioms;

/// The side table of the preservation protocol: for each node identity, the
/// conditional directives that the node carried.
pub type AttrTable = Map<NodeId, Seq<Attribute>>;

/// The mathematical value of a side table.
pub open spec fn table_view(m: Map<NodeId, Vec<Attribute>>) -> AttrTable {
    Map::new(|k: NodeId| m.contains_key(k), |k: NodeId| m[k]@)
}

/// The conditional directives of a list, in order.
pub open spec fn conditional_attrs(s: Seq<Attribute>) -> Seq<Attribute>
    decreases s.len(),
{
    if s.len() == 0 {
        Seq::empty()
    } else {
        let r = conditional_attrs(s.drop_last());
        if s.last().is_conditional_spec() {
            r.push(s.last())
        } else {
            r
        }
    }
}

/// The table after visiting the node `t` itself.
pub open spec fn record(m: AttrTable, t: Tree) -> AttrTable {
    if conditional_attrs(t.attrs).len() > 0 {
        m.insert(t.id, conditional_attrs(t.attrs))
    } else {
        m
    }
}

/// The table after a pre-order walk of `t` that starts from `m`.
pub open spec fn collect_tree(m: AttrTable, t: Tree) -> AttrTable
    decreases t, 1nat, 0nat,
{
    collect_from(record(m, t), t, 0)
}

/// The table after walking the children of `t` from index `i` on.
pub open spec fn collect_from(m: AttrTable, t: Tree, i: int) -> AttrTable
    decreases t, 0nat, t.children.len() - i,
{
    if i < 0 || i >= t.children.len() {
        m
    } else {
        collect_from(collect_tree(m, t.children[i]), t, i + 1)
    }
}

/// Whether the span of `a` lies within the span of one of the directives
/// `saved`: such an attribute was produced by evaluating one of them.
pub open spec fn covered(saved: Seq<Attribute>, a: Attribute) -> bool {
    exists|j: int| 0 <= j < saved.len() && #[trigger] saved[j].span.spec_contains(a.span)
}

/// The attributes of `s` that no directive of `saved` covers, in order.
pub open spec fn uncovered(s: Seq<Attribute>, saved: Seq<Attribute>) -> Seq<Attribute>
    decreases s.len(),
{
    if s.len() == 0 {
        Seq::empty()
    } else {
        let r = uncovered(s.drop_last(), saved);
        if covered(saved, s.last()) {
            r
        } else {
            r.push(s.last())
        }
    }
}

/// A node's attributes after restoring the directives `saved` onto it.
pub open spec fn restored_attrs(attrs: Seq<Attribute>, saved: Seq<Attribute>) -> Seq<Attribute> {
    uncovered(attrs, saved) + saved
}

/// The tree `t` after a restoring walk with the table `table`.
pub open spec fn restore_tree(t: Tree, table: AttrTable) -> Tree
    decreases t,
{
    Tree {
        attrs: if table.contains_key(t.id) {
            restored_attrs(t.attrs, table[t.id])
        } else {
            t.attrs
        },
        children: Seq::new(
            t.children.len(),
            |i: int|
                if 0 <= i < t.children.len() {
                    restore_tree(t.children[i], table)
                } else {
                    arbitrary()
                },
        ),
        ..t
    }
}

/// The conditional directives among `attrs`, copied.
fn conditional_of(attrs: &Vec<Attribute>) -> (r: Vec<Attribute>)
    ensures
        r@ == conditional_attrs(attrs@),
{
    let mut out: Vec<Attribute> = Vec::new();
    let mut i: usize = 0;
    while i < attrs.len()
        invariant
            i <= attrs@.len(),
            out@ == conditional_attrs(attrs@.subrange(0, i as int)),
        decreases attrs@.len() - i,
    {
        assert(attrs@.subrange(0, i + 1).drop_last() =~= attrs@.subrange(0, i as int));
        if attrs[i].is_conditional() {
            out.push(attrs[i].copy());
        }
        i = i + 1;
    }
    assert(attrs@.subrange(0, attrs@.len() as int) =~= attrs@);
    out
}

fn collect_node(n: &Node, table: &mut HashMap<NodeId, Vec<Attribute>>)
    ensures
        table_view(final(table)@) == collect_tree(table_view(old(table)@), n@),
    decreases n,
{
    let attrs = conditional_of(&n.attrs);
    proof {
        lemma_view_children(n);
    }
    if attrs.len() > 0 {
        let ghost before = table@;
        table.insert(n.id, attrs);
        proof {
            assert(table_view(table@) =~= table_view(before).insert(n.id, conditional_attrs(n@.attrs)));
        }
    }
    let ghost start = table_view(table@);
    assert(start == record(table_view(old(table)@), n@));
    let mut i: usize = 0;
    while i < n.children.len()
        invariant
            i <= n.children@.len(),
            n@.children.len() == n.children@.len(),
            forall|k: int| 0 <= k < n.children@.len() ==> #[trigger] n@.children[k] == n.children@[k]@,
            collect_from(start, n@, 0) == collect_from(table_view(table@), n@, i as int),
        decreases n.children@.len() - i,
    {
        collect_node(&n.children[i], table);
        i = i + 1;
    }
    proof {
        assert(collect_tree(table_view(old(table)@), n@) == collect_from(start, n@, 0));
    }
}

/// Records, for every node of `krate` that carries conditional directives,
/// its identity and those directives, in a pre-order walk.
pub fn collect_cfg_attrs(krate: &Node) -> (r: HashMap<NodeId, Vec<Attribute>>)
    ensures
        table_view(r@) == collect_tree(Map::empty(), krate@),
{
    let mut table: HashMap<NodeId, Vec<Attribute>> = HashMap::new();
    assert(table_view(table@) =~= Map::<NodeId, Seq<Attribute>>::empty());
    collect_node(krate, &mut table);
    table
}

/// Whether one of `saved` covers `a`.
fn is_covered(saved: &Vec<Attribute>, a: &Attribute) -> (r: bool)
    ensures
        r == covered(saved@, *a),
{
    let mut j: usize = 0;
    while j < saved.len()
        invariant
            j <= saved@.len(),
            forall|k: int| 0 <= k < j ==> !(#[trigger] saved@[k].span.spec_contains(a.span)),
        decreases saved@.len() - j,
    {
        if saved[j].span.contains(a.span) {
            return true;
        }
        j = j + 1;
    }
    false
}

/// Drops the attributes that one of `saved` covers, then appends `saved`.
fn restore_attrs(attrs: &mut Vec<Attribute>, saved: &Vec<Attribute>)
    ensures
        final(attrs)@ == restored_attrs(old(attrs)@, saved@),
{
    let mut out: Vec<Attribute> = Vec::new();
    let mut i: usize = 0;
    while i < attrs.len()
        invariant
            i <= attrs@.len(),
            *attrs == *old(attrs),
            out@ == uncovered(attrs@.subrange(0, i as int), saved@),
        decreases attrs@.len() - i,
    {
        assert(attrs@.subrange(0, i + 1).drop_last() =~= attrs@.subrange(0, i as int));
        if !is_covered(saved, &attrs[i]) {
            out.push(attrs[i].copy());
        }
        i = i + 1;
    }
    assert(attrs@.subrange(0, attrs@.len() as int) =~= attrs@);
    let mut again = copy_attrs(saved);
    out.append(&mut again);
    *attrs = out;
}

fn restore_node(n: &mut Node, table: &HashMap<NodeId, Vec<Attribute>>)
    ensures
        final(n)@ == restore_tree(old(n)@, table_view(table@)),
    decreases *old(n),
{
    let ghost t0 = n@;
    proof {
        lemma_view_children(n);
    }
    match table.get(&n.id) {
        Some(saved) => {
            restore_attrs(&mut n.attrs, saved);
        },
        None => {},
    }
    let len: usize = n.children.len();
    let mut i: usize = 0;
    while i < len
        invariant
            len == n.children@.len(),
            len == t0.children.len(),
            i <= len,
            t0 == old(n)@,
            n.id == t0.id && n.kind == t0.kind && n.span == t0.span && n.head == t0.head,
            n.attrs@ == restore_tree(t0, table_view(table@)).attrs,
            forall|j: int| i <= j < len ==> #[trigger] n.children@[j] == old(n).children@[j],
            forall|j: int| 0 <= j < i ==> (#[trigger] n.children@[j])@ == restore_tree(
                t0.children[j],
                table_view(table@),
            ),
        decreases len - i,
    {
        proof {
            lemma_view_children(old(n));
        }
        restore_node(&mut n.children[i], table);
        i = i + 1;
    }
    proof {
        lemma_view_children(n);
        lemma_view_children(old(n));
        assert(n@.children =~= restore_tree(t0, table_view(table@)).children);
    }
}

/// Puts the saved conditional directives back: on each node whose identity
/// the table holds, drops the attributes that a saved directive covers and
/// appends the saved directives in their order. Nodes whose identity the
/// table lacks are left as they are, and entries for identities that no
/// longer occur are dropped.
pub fn restore_cfg_attrs(krate: &mut Node, node_attrs: HashMap<NodeId, Vec<Attribute>>)
    ensures
        final(krate)@ == restore_tree(old(krate)@, table_view(node_attrs@)),
{
    restore_node(krate, &node_attrs);
}

proof fn lemma_uncovered_concat(a: Seq<Attribute>, b: Seq<Attribute>, saved: Seq<Attribute>)
    ensures
        uncovered(a + b, saved) == uncovered(a, saved) + uncovered(b, saved),
    decreases b.len(),
{
    if b.len() == 0 {
        assert(a + b =~= a);
        assert(uncovered(a, saved) + uncovered(b, saved) =~= uncovered(a, saved));
    } else {
        assert((a + b).drop_last() =~= a + b.drop_last());
        assert((a + b).last() == b.last());
        lemma_uncovered_concat(a, b.drop_last(), saved);
        if covered(saved, b.last()) {
        } else {
            assert(uncovered(a, saved) + uncovered(b.drop_last(), saved).push(b.last()) =~= (uncovered(
                a,
                saved,
            ) + uncovered(b.drop_last(), saved)).push(b.last()));
        }
    }
}

proof fn lemma_uncovered_is_uncovered(s: Seq<Attribute>, saved: Seq<Attribute>)
    ensures
        forall|i: int| 0 <= i < uncovered(s, saved).len() ==> !covered(saved, #[trigger] uncovered(s, saved)[i]),
    decreases s.len(),
{
    if s.len() > 0 {
        lemma_uncovered_is_uncovered(s.drop_last(), saved);
        let r = uncovered(s.drop_last(), saved);
        let u = uncovered(s, saved);
        assert forall|i: int| 0 <= i < u.len() implies !covered(saved, #[trigger] u[i]) by {
            if i < r.len() {
                assert(u[i] == r[i]);
            }
        }
    }
}

proof fn lemma_uncovered_none(s: Seq<Attribute>, saved: Seq<Attribute>)
    requires
        forall|i: int| 0 <= i < s.len() ==> !covered(saved, #[trigger] s[i]),
    ensures
        uncovered(s, saved) == s,
    decreases s.len(),
{
    if s.len() > 0 {
        lemma_uncovered_none(s.drop_last(), saved);
        assert(s.drop_last().push(s.last()) =~= s);
    }
}

proof fn lemma_uncovered_all(s: Seq<Attribute>, saved: Seq<Attribute>)
    requires
        forall|i: int| 0 <= i < s.len() ==> covered(saved, #[trigger] s[i]),
    ensures
        uncovered(s, saved) == Seq::<Attribute>::empty(),
    decreases s.len(),
{
    if s.len() > 0 {
        assert(covered(saved, s[s.len() - 1]));
        lemma_uncovered_all(s.drop_last(), saved);
    }
}

proof fn lemma_saved_covered(saved: Seq<Attribute>)
    ensures
        uncovered(saved, saved) == Seq::<Attribute>::empty(),
{
    assert forall|i: int| 0 <= i < saved.len() implies covered(saved, #[trigger] saved[i]) by {
        assert(saved[i].span.spec_contains(saved[i].span));
    }
    lemma_uncovered_all(saved, saved);
}

/// Restoring the same directives twice gives what restoring them once gave.
pub proof fn lemma_restored_attrs_idempotent(attrs: Seq<Attribute>, saved: Seq<Attribute>)
    ensures
        restored_attrs(restored_attrs(attrs, saved), saved) == restored_attrs(attrs, saved),
{
    let u = uncovered(attrs, saved);
    lemma_uncovered_concat(u, saved, saved);
    lemma_saved_covered(saved);
    lemma_uncovered_is_uncovered(attrs, saved);
    lemma_uncovered_none(u, saved);
    assert(u + Seq::<Attribute>::empty() =~= u);
}

/// A second restoring walk with the same side table changes nothing: the
/// directives that the first walk appended are not appended again.
pub proof fn lemma_restore_idempotent(t: Tree, table: AttrTable)
    ensures
        restore_tree(restore_tree(t, table), table) == restore_tree(t, table),
    decreases t,
{
    let once = restore_tree(t, table);
    let twice = restore_tree(once, table);
    if table.contains_key(t.id) {
        lemma_restored_attrs_idempotent(t.attrs, table[t.id]);
    }
    assert forall|i: int| 0 <= i < t.children.len() implies twice.children[i] == once.children[i] by {
        lemma_restore_idempotent(t.children[i], table);
    }
    assert(twice.children =~= once.children);
}

/// The directives of `attrs` come last, and no other attribute of `attrs`
/// lies within the span of one of them.
pub open spec fn directives_last(attrs: Seq<Attribute>) -> bool {
    let c = conditional_attrs(attrs);
    let n = attrs.len() - c.len();
    &&& 0 <= n
    &&& attrs.subrange(n, attrs.len() as int) == c
    &&& forall|i: int| 0 <= i < n ==> !covered(c, #[trigger] attrs[i])
}

/// Each node of `t` whose identity `table` holds is saved there with its own
/// conditional directives, and carries them last.
pub open spec fn holds_own_directives(t: Tree, table: AttrTable) -> bool
    decreases t, 1nat, 0nat,
{
    &&& table.contains_key(t.id) ==> table[t.id] == conditional_attrs(t.attrs) && directives_last(t.attrs)
    &&& holds_own_directives_from(t, table, 0)
}

pub open spec fn holds_own_directives_from(t: Tree, table: AttrTable, i: int) -> bool
    decreases t, 0nat, t.children.len() - i,
{
    if i < 0 || i >= t.children.len() {
        true
    } else {
        holds_own_directives(t.children[i], table) && holds_own_directives_from(t, table, i + 1)
    }
}

proof fn lemma_holds_from(t: Tree, table: AttrTable, i: int)
    requires
        0 <= i <= t.children.len(),
        holds_own_directives_from(t, table, i),
    ensures
        forall|j: int| i <= j < t.children.len() ==> #[trigger] holds_own_directives(t.children[j], table),
    decreases t.children.len() - i,
{
    if i < t.children.len() {
        lemma_holds_from(t, table, i + 1);
        assert(holds_own_directives(t.children[i], table));
        assert forall|j: int| i <= j < t.children.len() implies #[trigger] holds_own_directives(t.children[j], table) by {
            if j > i {
                assert(i + 1 <= j);
            }
        }
    }
}

/// Round trip of the protocol: where the side table holds each node's own
/// conditional directives and the node carries them after its other
/// attributes, none of which lies within their spans, restoring after a pass
/// that changed nothing gives back the tree as it was.
pub proof fn lemma_restore_round_trip(t: Tree, table: AttrTable)
    requires
        holds_own_directives(t, table),
    ensures
        restore_tree(t, table) == t,
    decreases t,
{
    let r = restore_tree(t, table);
    if table.contains_key(t.id) {
        let c = conditional_attrs(t.attrs);
        let n = t.attrs.len() - c.len();
        let plain = t.attrs.subrange(0, n);
        assert(plain + c =~= t.attrs);
        lemma_uncovered_concat(plain, c, c);
        lemma_saved_covered(c);
        assert forall|i: int| 0 <= i < plain.len() implies !covered(c, #[trigger] plain[i]) by {
            assert(plain[i] == t.attrs[i]);
        }
        lemma_uncovered_none(plain, c);
        assert(plain + Seq::<Attribute>::empty() =~= plain);
        assert(r.attrs == t.attrs);
    }
    lemma_holds_from(t, table, 0);
    assert forall|i: int| 0 <= i < t.children.len() implies r.children[i] == t.children[i] by {
        lemma_restore_round_trip(t.children[i], table);
    }
    assert(r.children =~= t.children);
}

/// The identities of all nodes of `t`.
pub open spec fn ids(t: Tree) -> Set<NodeId>
    decreases t, 1nat, 0nat,
{
    set![t.id].union(ids_from(t, 0))
}

pub open spec fn ids_from(t: Tree, i: int) -> Set<NodeId>
    decreases t, 0nat, t.children.len() - i,
{
    if i < 0 || i >= t.children.len() {
        Set::empty()
    } else {
        ids(t.children[i]).union(ids_from(t, i + 1))
    }
}

/// No two nodes of `t` share an identity.
pub open spec fn unique_ids(t: Tree) -> bool
    decreases t, 1nat, 0nat,
{
    !ids_from(t, 0).contains(t.id) && unique_from(t, 0)
}

pub open spec fn unique_from(t: Tree, i: int) -> bool
    decreases t, 0nat, t.children.len() - i,
{
    if i < 0 || i >= t.children.len() {
        true
    } else {
        &&& unique_ids(t.children[i])
        &&& ids(t.children[i]).disjoint(ids_from(t, i + 1))
        &&& unique_from(t, i + 1)
    }
}

/// Every node of `t` carries its conditional directives last (see
/// `directives_last`).
pub open spec fn directives_last_all(t: Tree) -> bool
    decreases t, 1nat, 0nat,
{
    directives_last(t.attrs) && directives_last_from(t, 0)
}

pub open spec fn directives_last_from(t: Tree, i: int) -> bool
    decreases t, 0nat, t.children.len() - i,
{
    if i < 0 || i >= t.children.len() {
        true
    } else {
        directives_last_all(t.children[i]) && directives_last_from(t, i + 1)
    }
}

/// The two tables agree on every identity of `s`.
pub open spec fn agree_on(a: AttrTable, b: AttrTable, s: Set<NodeId>) -> bool {
    forall|k: NodeId| #[trigger] s.contains(k) ==> (a.contains_key(k) == b.contains_key(k) && a[k] == b[k])
}

proof fn lemma_collect_frame(m: AttrTable, t: Tree, k: NodeId)
    requires
        !ids(t).contains(k),
    ensures
        collect_tree(m, t).contains_key(k) == m.contains_key(k),
        collect_tree(m, t)[k] == m[k],
    decreases t, 1nat, 0nat,
{
    lemma_collect_from_frame(record(m, t), t, 0, k);
}

proof fn lemma_collect_from_frame(m: AttrTable, t: Tree, i: int, k: NodeId)
    requires
        0 <= i,
        !ids_from(t, i).contains(k),
    ensures
        collect_from(m, t, i).contains_key(k) == m.contains_key(k),
        collect_from(m, t, i)[k] == m[k],
    decreases t, 0nat, t.children.len() - i,
{
    if i < t.children.len() {
        lemma_collect_frame(m, t.children[i], k);
        lemma_collect_from_frame(collect_tree(m, t.children[i]), t, i + 1, k);
    }
}

proof fn lemma_collect_dom(m: AttrTable, t: Tree)
    ensures
        collect_tree(m, t).dom().subset_of(m.dom().union(ids(t))),
    decreases t, 1nat, 0nat,
{
    lemma_collect_from_dom(record(m, t), t, 0);
}

proof fn lemma_collect_from_dom(m: AttrTable, t: Tree, i: int)
    requires
        0 <= i,
    ensures
        collect_from(m, t, i).dom().subset_of(m.dom().union(ids_from(t, i))),
    decreases t, 0nat, t.children.len() - i,
{
    if i < t.children.len() {
        lemma_collect_dom(m, t.children[i]);
        lemma_collect_from_dom(collect_tree(m, t.children[i]), t, i + 1);
    }
}

proof fn lemma_holds_transfer(t: Tree, a: AttrTable, b: AttrTable)
    requires
        holds_own_directives(t, a),
        agree_on(a, b, ids(t)),
    ensures
        holds_own_directives(t, b),
    decreases t, 1nat, 0nat,
{
    assert(ids(t).contains(t.id));
    assert forall|k: NodeId| #[trigger] ids_from(t, 0).contains(k) implies (a.contains_key(k) == b.contains_key(k)
        && a[k] == b[k]) by {
        assert(ids(t).contains(k));
    }
    lemma_holds_from_transfer(t, 0, a, b);
}

proof fn lemma_holds_from_transfer(t: Tree, i: int, a: AttrTable, b: AttrTable)
    requires
        0 <= i,
        holds_own_directives_from(t, a, i),
        agree_on(a, b, ids_from(t, i)),
    ensures
        holds_own_directives_from(t, b, i),
    decreases t, 0nat, t.children.len() - i,
{
    if i < t.children.len() {
        assert forall|k: NodeId| #[trigger] ids(t.children[i]).contains(k) implies (a.contains_key(k)
            == b.contains_key(k) && a[k] == b[k]) by {
            assert(ids_from(t, i).contains(k));
        }
        assert forall|k: NodeId| #[trigger] ids_from(t, i + 1).contains(k) implies (a.contains_key(k)
            == b.contains_key(k) && a[k] == b[k]) by {
            assert(ids_from(t, i).contains(k));
        }
        lemma_holds_transfer(t.children[i], a, b);
        lemma_holds_from_transfer(t, i + 1, a, b);
    }
}

proof fn lemma_collect_holds(m: AttrTable, t: Tree)
    requires
        unique_ids(t),
        directives_last_all(t),
        m.dom().disjoint(ids(t)),
    ensures
        holds_own_directives(t, collect_tree(m, t)),
    decreases t, 1nat, 0nat,
{
    let m1 = record(m, t);
    assert(ids(t).contains(t.id));
    assert forall|k: NodeId| #[trigger] ids_from(t, 0).contains(k) implies !m1.dom().contains(k) by {
        assert(ids(t).contains(k));
    }
    assert(m1.dom().disjoint(ids_from(t, 0)));
    lemma_collect_from_holds(m1, t, 0);
    lemma_collect_from_frame(m1, t, 0, t.id);
}

proof fn lemma_collect_from_holds(m: AttrTable, t: Tree, i: int)
    requires
        0 <= i,
        unique_from(t, i),
        directives_last_from(t, i),
        m.dom().disjoint(ids_from(t, i)),
    ensures
        holds_own_directives_from(t, collect_from(m, t, i), i),
    decreases t, 0nat, t.children.len() - i,
{
    if i < t.children.len() {
        let c = t.children[i];
        let mi = collect_tree(m, c);
        assert forall|k: NodeId| #[trigger] ids(c).contains(k) implies !m.dom().contains(k) by {
            assert(ids_from(t, i).contains(k));
        }
        assert(m.dom().disjoint(ids(c)));
        lemma_collect_holds(m, c);
        lemma_collect_dom(m, c);
        assert forall|k: NodeId| #[trigger] ids_from(t, i + 1).contains(k) implies !mi.dom().contains(k) by {
            assert(ids_from(t, i).contains(k));
            assert(!ids(c).contains(k));
        }
        assert(mi.dom().disjoint(ids_from(t, i + 1)));
        lemma_collect_from_holds(mi, t, i + 1);
        let fin = collect_from(mi, t, i + 1);
        assert forall|k: NodeId| #[trigger] ids(c).contains(k) implies (mi.contains_key(k) == fin.contains_key(k)
            && mi[k] == fin[k]) by {
            assert(!ids_from(t, i + 1).contains(k));
            lemma_collect_from_frame(mi, t, i + 1, k);
        }
        lemma_holds_transfer(c, mi, fin);
    }
}

/// Round trip of the protocol on a whole tree: when identities are unique and
/// every node carries its conditional directives after its other attributes
/// (none of which lies within their spans), restoring with what collecting
/// saved, after a pass that changed nothing, gives back the tree as it was.
pub proof fn lemma_collect_restore_round_trip(t: Tree)
    requires
        unique_ids(t),
        directives_last_all(t),
    ensures
        restore_tree(t, collect_tree(Map::empty(), t)) == t,
{
    let m = Map::<NodeId, Seq<Attribute>>::empty();
    assert(m.dom() =~= Set::<NodeId>::empty());
    lemma_collect_holds(m, t);
    lemma_restore_round_trip(t, collect_tree(m, t));
}

} // verus!
