use vstd::prelude::*;
use crate::node::{Node, Tree};

verus! {

/// One captured placeholder: its name and the subtree it matched.
#[derive(Debug)]
pub struct Binding {
    pub name: String,
    pub node: Node,
}

/// A binding environment: placeholder names mapped to captured subtrees.
/// The kind of a capture is the kind of its node.
#[derive(Debug)]
pub struct Bindings {
    pub entries: Vec<Binding>,
}

impl View for Bindings {
    type V = Map<Seq<char>, Tree>;

    open spec fn view(&self) -> Map<Seq<char>, Tree> {
        Map::new(
            |k: Seq<char>| exists|i: int| 0 <= i < self.entries@.len() && #[trigger] self.entries@[i].name@ == k,
            |k: Seq<char>|
                self.entries@[choose|i: int| 0 <= i < self.entries@.len() && #[trigger] self.entries@[i].name@ == k].node@,
        )
    }
}

impl Bindings {
    /// Each name is bound at most once.
    pub open spec fn wf(&self) -> bool {
        forall|i: int, j: int|
            0 <= i < self.entries@.len() && 0 <= j < self.entries@.len() && i != j
                ==> #[trigger] self.entries@[i].name@ != #[trigger] self.entries@[j].name@
    }

    /// An empty environment.
    pub fn new() -> (r: Bindings)
        ensures
            r.wf(),
            r.entries@.len() == 0,
            r@ == Map::<Seq<char>, Tree>::empty(),
    {
        let r = Bindings { entries: Vec::new() };
        assert(r@ =~= Map::<Seq<char>, Tree>::empty());
        r
    }

    proof fn lemma_entry(&self, i: int)
        requires
            self.wf(),
            0 <= i < self.entries@.len(),
        ensures
            self@.contains_key(self.entries@[i].name@),
            self@[self.entries@[i].name@] == self.entries@[i].node@,
    {
        let k = self.entries@[i].name@;
        assert(self@.contains_key(k));
        let c = choose|j: int| 0 <= j < self.entries@.len() && #[trigger] self.entries@[j].name@ == k;
        assert(c == i);
    }

    /// The capture bound to `name`, if any.
    pub fn get(&self, name: &String) -> (r: Option<&Node>)
        requires
            self.wf(),
        ensures
            match r {
                Some(n) => self@.contains_key(name@) && n@ == self@[name@],
                None => !self@.contains_key(name@),
            },
    {
        let mut i: usize = 0;
        while i < self.entries.len()
            invariant
                self.wf(),
                i <= self.entries@.len(),
                forall|j: int| 0 <= j < i ==> #[trigger] self.entries@[j].name@ != name@,
            decreases self.entries@.len() - i,
        {
            if self.entries[i].name == *name {
                proof {
                    self.lemma_entry(i as int);
                }
                return Some(&self.entries[i].node);
            }
            i = i + 1;
        }
        None
    }

    /// Binds a fresh name.
    pub fn insert(&mut self, name: String, node: Node)
        requires
            old(self).wf(),
            !old(self)@.contains_key(name@),
        ensures
            final(self).wf(),
            final(self)@ == old(self)@.insert(name@, node@),
    {
        let ghost old_self = *self;
        let ghost k = name@;
        let ghost v = node@;
        self.entries.push(Binding { name, node });
        proof {
            let n = self.entries@.len() - 1;
            assert forall|i: int, j: int|
                0 <= i < self.entries@.len() && 0 <= j < self.entries@.len() && i != j
                    implies #[trigger] self.entries@[i].name@ != #[trigger] self.entries@[j].name@ by {
                if i == n {
                    assert(old_self.entries@[j].name@ != k);
                } else if j == n {
                    assert(old_self.entries@[i].name@ != k);
                } else {
                    assert(self.entries@[i] == old_self.entries@[i]);
                    assert(self.entries@[j] == old_self.entries@[j]);
                }
            }
            assert forall|key: Seq<char>| #[trigger] self@.contains_key(key) <==> old_self@.insert(k, v).contains_key(key) by {
                if old_self@.contains_key(key) {
                    let c = choose|j: int| 0 <= j < old_self.entries@.len() && #[trigger] old_self.entries@[j].name@ == key;
                    assert(self.entries@[c] == old_self.entries@[c]);
                }
                if self@.contains_key(key) && key != k {
                    let c = choose|j: int| 0 <= j < self.entries@.len() && #[trigger] self.entries@[j].name@ == key;
                    assert(c != n);
                    assert(old_self.entries@[c] == self.entries@[c]);
                }
                if key == k {
                    assert(self.entries@[n].name@ == k);
                }
            }
            assert forall|key: Seq<char>| #[trigger] self@.contains_key(key) implies self@[key] == old_self@.insert(k, v)[key] by {
                let c = choose|j: int| 0 <= j < self.entries@.len() && #[trigger] self.entries@[j].name@ == key;
                self.lemma_entry(c);
                if c < n {
                    assert(old_self.entries@[c] == self.entries@[c]);
                    old_self.lemma_entry(c);
                }
            }
            assert(self@ =~= old_self@.insert(k, v));
        }
    }
}

} // verus!
