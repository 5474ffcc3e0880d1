use std::collections::HashMap;
use vstd::prelude::*;
use crate::node::NodeId;

verus! {

broadcast use vstd::std_specs::hash::group_hash_axioms;

/// The mark names of each marked node, in the order in which `marks` lists
/// them.
pub open spec fn group_spec(marks: Seq<(NodeId, String)>) -> Map<NodeId, Seq<String>>
    decreases marks.len(),
{
    if marks.len() == 0 {
        Map::empty()
    } else {
        let m = group_spec(marks.drop_last());
        let (id, name) = marks.last();
        let before = if m.contains_key(id) {
            m[id]
        } else {
            Seq::empty()
        };
        m.insert(id, before.push(name))
    }
}

/// The mathematical value of a table of grouped marks.
pub open spec fn groups_view(m: Map<NodeId, Vec<String>>) -> Map<NodeId, Seq<String>> {
    Map::new(|k: NodeId| m.contains_key(k), |k: NodeId| m[k]@)
}

/// Groups marks, given as pairs of a node identity and a mark name, by node.
pub fn group_marks(marks: &Vec<(NodeId, String)>) -> (r: HashMap<NodeId, Vec<String>>)
    ensures
        groups_view(r@) == group_spec(marks@),
{
    let mut table: HashMap<NodeId, Vec<String>> = HashMap::new();
    assert(groups_view(table@) =~= group_spec(marks@.subrange(0, 0)));
    let mut i: usize = 0;
    while i < marks.len()
        invariant
            i <= marks@.len(),
            groups_view(table@) == group_spec(marks@.subrange(0, i as int)),
        decreases marks@.len() - i,
    {
        let id = marks[i].0;
        let name = marks[i].1.clone();
        let mut names = match table.remove(&id) {
            Some(v) => v,
            None => Vec::new(),
        };
        names.push(name);
        table.insert(id, names);
        proof {
            assert(marks@.subrange(0, i + 1).drop_last() =~= marks@.subrange(0, i as int));
            assert(groups_view(table@) =~= group_spec(marks@.subrange(0, i + 1)));
        }
        i = i + 1;
    }
    assert(marks@.subrange(0, marks@.len() as int) =~= marks@);
    table
}

} // verus!
