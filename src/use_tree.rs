use vstd::prelude::*;
use crate::error::RewriteError;

verus! {

/// A key of a use-item description: a list position, a module name, or
/// anything else.
#[derive(Debug, PartialEq, Eq)]
pub enum UseKey {
    Index(i64),
    Name(String),
    Other,
}

/// A value of a use-item description.
#[derive(Debug, PartialEq, Eq)]
pub enum UseValue {
    Text(String),
    Table(Vec<UseEntry>),
    Other,
}

/// One key and value of a use-item description.
#[derive(Debug, PartialEq, Eq)]
pub struct UseEntry {
    pub key: UseKey,
    pub value: UseValue,
}

/// What a use item imports under its prefix.
#[derive(Debug, PartialEq, Eq)]
pub enum UseTreeKind {
    Simple,
    Glob,
    Nested(Vec<UseTree>),
}

/// A use tree: a path prefix and what it imports.
#[derive(Debug, PartialEq, Eq)]
pub struct UseTree {
    pub prefix: Vec<String>,
    pub kind: UseTreeKind,
}

pub enum UseKindView {
    Simple,
    Glob,
    Nested(Seq<UseTreeView>),
}

/// The mathematical value of a use tree.
pub struct UseTreeView {
    pub prefix: Seq<Seq<char>>,
    pub kind: UseKindView,
}

pub open spec fn use_view(t: UseTree) -> UseTreeView
    decreases t,
{
    UseTreeView {
        prefix: Seq::new(t.prefix@.len(), |i: int| t.prefix@[i]@),
        kind: match t.kind {
            UseTreeKind::Simple => UseKindView::Simple,
            UseTreeKind::Glob => UseKindView::Glob,
            UseTreeKind::Nested(v) => UseKindView::Nested(
                Seq::new(
                    v@.len(),
                    |i: int|
                        if 0 <= i < v@.len() {
                            use_view(v@[i])
                        } else {
                            arbitrary()
                        },
                ),
            ),
        },
    }
}

impl View for UseTree {
    type V = UseTreeView;

    open spec fn view(&self) -> UseTreeView {
        use_view(*self)
    }
}

/// The use tree that a description denotes under the module name `ident`:
/// one entry gives that entry's tree with `ident` put in front of its prefix;
/// any other number of entries gives a nested tree under `ident` (or under an
/// empty name).
pub open spec fn use_tree_spec(items: Vec<UseEntry>, ident: Option<Seq<char>>) -> Result<
    UseTreeView,
    RewriteError,
>
    decreases items, 1nat, 0nat,
{
    match use_trees_from(items, 0) {
        Err(e) => Err(e),
        Ok(trees) => if trees.len() == 1 {
            match ident {
                Some(s) => Ok(UseTreeView { prefix: seq![s] + trees[0].prefix, kind: trees[0].kind }),
                None => Ok(trees[0]),
            }
        } else {
            Ok(
                UseTreeView {
                    prefix: seq![
                        match ident {
                            Some(s) => s,
                            None => Seq::empty(),
                        },
                    ],
                    kind: UseKindView::Nested(trees),
                },
            )
        },
    }
}

/// The trees of the entries from index `i` on, in order; the first entry of
/// the wrong shape is an error, which tells a bad key from a bad value.
pub open spec fn use_trees_from(items: Vec<UseEntry>, i: int) -> Result<Seq<UseTreeView>, RewriteError>
    decreases items, 0nat, items@.len() - i,
{
    if i < 0 || i >= items@.len() {
        Ok(Seq::empty())
    } else {
        let e = items@[i];
        let first: Result<UseTreeView, RewriteError> = match e.key {
            UseKey::Index(_) => match e.value {
                UseValue::Text(s) => Ok(UseTreeView { prefix: seq![s@], kind: UseKindView::Simple }),
                _ => Err(RewriteError::UseTreeValue),
            },
            UseKey::Name(n) => match e.value {
                UseValue::Text(g) => if g@ == "*"@ {
                    Ok(UseTreeView { prefix: seq![n@], kind: UseKindView::Glob })
                } else {
                    Err(RewriteError::UseTreeValue)
                },
                UseValue::Table(sub) => use_tree_spec(sub, Some(n@)),
                UseValue::Other => Err(RewriteError::UseTreeValue),
            },
            UseKey::Other => Err(RewriteError::UseTreeKey),
        };
        match first {
            Err(err) => Err(err),
            Ok(t) => match use_trees_from(items, i + 1) {
                Err(err) => Err(err),
                Ok(rest) => Ok(seq![t] + rest),
            },
        }
    }
}

pub open spec fn name_of(ident: Option<String>) -> Option<Seq<char>> {
    match ident {
        Some(s) => Some(s@),
        None => None,
    }
}

fn simple_tree(name: &String, kind: UseTreeKind) -> (r: UseTree)
    requires
        !(kind is Nested),
    ensures
        r@.prefix == seq![name@],
        kind is Simple ==> r@.kind is Simple,
        kind is Glob ==> r@.kind is Glob,
{
    let r = UseTree { prefix: vec![name.clone()], kind };
    assert(r@.prefix =~= seq![name@]);
    r
}

/// Builds the use tree that `items` describes under the module name `ident`,
/// as `use_tree_spec` says.
pub fn create_use_tree(items: &Vec<UseEntry>, ident: Option<String>) -> (r: Result<UseTree, RewriteError>)
    ensures
        match r {
            Ok(t) => use_tree_spec(*items, name_of(ident)) == Ok::<UseTreeView, RewriteError>(t@),
            Err(e) => use_tree_spec(*items, name_of(ident)) == Err::<UseTreeView, RewriteError>(e),
        },
    decreases *items, 1nat,
{
    let mut trees: Vec<UseTree> = Vec::new();
    let mut i: usize = 0;
    proof {
        reveal_strlit("*");
    }
    let star = "*".to_owned();
    while i < items.len()
        invariant
            i <= items@.len(),
            star@ == "*"@,
            use_trees_from(*items, 0) == match use_trees_from(*items, i as int) {
                Ok(rest) => Ok(Seq::new(trees@.len(), |j: int| trees@[j]@) + rest),
                Err(e) => Err::<Seq<UseTreeView>, RewriteError>(e),
            },
        decreases items@.len() - i,
    {
        let ghost before = trees@;
        let e = &items[i];
        let t = match &e.key {
            UseKey::Index(_) => match &e.value {
                UseValue::Text(s) => simple_tree(s, UseTreeKind::Simple),
                _ => {
                    return Err(RewriteError::UseTreeValue);
                },
            },
            UseKey::Name(n) => match &e.value {
                UseValue::Text(g) => {
                    if *g == star {
                        simple_tree(n, UseTreeKind::Glob)
                    } else {
                        return Err(RewriteError::UseTreeValue);
                    }
                },
                UseValue::Table(sub) => match create_use_tree(sub, Some(n.clone())) {
                    Ok(t) => t,
                    Err(err) => {
                        return Err(err);
                    },
                },
                UseValue::Other => {
                    return Err(RewriteError::UseTreeValue);
                },
            },
            UseKey::Other => {
                return Err(RewriteError::UseTreeKey);
            },
        };
        trees.push(t);
        proof {
            let a = Seq::new(before.len(), |j: int| before[j]@);
            let b = Seq::new(trees@.len(), |j: int| trees@[j]@);
            assert(b =~= a.push(t@));
            let rest = use_trees_from(*items, i + 1);
            if rest is Ok {
                assert(a + (seq![t@] + rest->Ok_0) =~= b + rest->Ok_0);
            }
        }
        i = i + 1;
    }
    let ghost all = Seq::new(trees@.len(), |j: int| trees@[j]@);
    assert(all + Seq::<UseTreeView>::empty() =~= all);
    if trees.len() == 1 {
        let t = trees.pop().unwrap();
        assert(t@ == all[0]);
        match ident {
            Some(s) => {
                let UseTree { prefix, kind } = t;
                let mut p: Vec<String> = vec![s];
                let mut rest = prefix;
                p.append(&mut rest);
                let r = UseTree { prefix: p, kind };
                proof {
                    assert(r@.prefix =~= seq![s@] + all[0].prefix);
                }
                Ok(r)
            },
            None => Ok(t),
        }
    } else {
        let name = match ident {
            Some(s) => s,
            None => String::new(),
        };
        let ghost tv = trees@;
        let r = UseTree { prefix: vec![name], kind: UseTreeKind::Nested(trees) };
        proof {
            assert(r@.prefix =~= seq![name@]);
            assert(r.kind->Nested_0@ == tv);
            assert(r@.kind->Nested_0 =~= all);
        }
        Ok(r)
    }
}

} // verus!
