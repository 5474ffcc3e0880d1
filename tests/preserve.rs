use refactor_core::cfg_attr::{collect_cfg_attrs, restore_cfg_attrs};
use refactor_core::node::{Attribute, Head, Node, NodeKind, Span};

fn sp(lo: u32, hi: u32) -> Span {
    Span { lo, hi }
}

fn attr(name: &str, args: &str, lo: u32, hi: u32) -> Attribute {
    Attribute::new(name.to_string(), args.to_string(), sp(lo, hi))
}

fn item(id: u64, attrs: Vec<Attribute>, children: Vec<Node>) -> Node {
    let mut n = Node::new(id, NodeKind::Declaration, sp(0, 100), Head::Form("fn".to_string()), children);
    n.attrs = attrs;
    n
}

#[test]
fn conditional_directive_comes_back() {
    let cond = attr("cfg_attr", "target = \"foo\", attr1", 0, 40);
    let mut krate = item(1, vec![attr("cfg_attr", "target = \"foo\", attr1", 0, 40)], vec![]);
    let table = collect_cfg_attrs(&krate);
    assert_eq!(table.len(), 1);
    assert_eq!(table.get(&1), Some(&vec![attr("cfg_attr", "target = \"foo\", attr1", 0, 40)]));
    // The evaluating pass leaves only the residue `attr1`, inside the directive's span.
    krate.attrs = vec![attr("attr1", "", 25, 30)];
    restore_cfg_attrs(&mut krate, table);
    assert_eq!(krate.attrs, vec![cond]);
}

#[test]
fn round_trip_keeps_attributes() {
    let attrs = vec![attr("inline", "", 0, 5), attr("cfg_attr", "test, allow(dead_code)", 10, 40)];
    let child_attrs = vec![attr("cfg_attr", "unix, cold", 50, 70)];
    let child = item(2, vec![attr("cfg_attr", "unix, cold", 50, 70)], vec![]);
    let mut krate = item(1, vec![attr("inline", "", 0, 5), attr("cfg_attr", "test, allow(dead_code)", 10, 40)], vec![child]);
    let table = collect_cfg_attrs(&krate);
    assert_eq!(table.len(), 2);
    restore_cfg_attrs(&mut krate, table);
    assert_eq!(krate.attrs, attrs);
    assert_eq!(krate.children[0].attrs, child_attrs);
}

#[test]
fn restoring_twice_appends_once() {
    let mut krate = item(1, vec![attr("doc", "", 0, 5), attr("cfg_attr", "test, cold", 10, 40)], vec![]);
    let table = collect_cfg_attrs(&krate);
    let again = collect_cfg_attrs(&krate);
    restore_cfg_attrs(&mut krate, table);
    let once = krate.attrs.clone();
    restore_cfg_attrs(&mut krate, again);
    assert_eq!(krate.attrs, once);
    assert_eq!(krate.attrs.len(), 2);
}

#[test]
fn directive_moves_after_other_attributes() {
    // A directive that came first is appended after the others on restore.
    let mut krate = item(1, vec![attr("cfg_attr", "test, cold", 0, 20), attr("inline", "", 30, 35)], vec![]);
    let table = collect_cfg_attrs(&krate);
    restore_cfg_attrs(&mut krate, table);
    assert_eq!(krate.attrs, vec![attr("inline", "", 30, 35), attr("cfg_attr", "test, cold", 0, 20)]);
}

#[test]
fn nodes_without_directives_are_not_recorded() {
    let krate = item(1, vec![attr("inline", "", 0, 5)], vec![item(2, vec![], vec![])]);
    let table = collect_cfg_attrs(&krate);
    assert!(table.is_empty());
}

#[test]
fn entries_for_missing_identities_are_dropped() {
    let krate = item(1, vec![], vec![item(2, vec![attr("cfg_attr", "test, cold", 10, 20)], vec![])]);
    let table = collect_cfg_attrs(&krate);
    // The pass replaced the child by a fresh node with another identity.
    let mut after = item(1, vec![], vec![item(7, vec![attr("cold", "", 12, 16)], vec![])]);
    restore_cfg_attrs(&mut after, table);
    assert_eq!(after.children[0].attrs, vec![attr("cold", "", 12, 16)]);
    assert_eq!(after.attrs, vec![]);
}
