use vstd::prelude::*;

verus! {

/// An operation that the scripting layer can request on a node handle.
#[derive(Clone, Copy, Debug, PartialEq, Eq, Structural)]
pub enum Operation {
    FoldWith,
    TryMatch,
    FindFirst,
    Subst,
    GetBinding,
}

/// The errors of the rewrite engine. All of them are fatal to the operation
/// that raised them.
#[derive(Clone, Copy, Debug, PartialEq, Eq, Structural)]
pub enum RewriteError {
    /// A node was put where a node of another kind belongs: a template
    /// placeholder bound to a node of another kind, or a rewrite that returned
    /// a node of another kind than the one it replaces.
    KindMismatch,
    /// A handle's kind is none of the kinds that the operation accepts.
    NoMatchingKind(Operation),
    /// The target of a search is not a statement list.
    UnsupportedTarget,
    /// A placeholder name that the environment does not bind.
    Unbound,
    /// A phase number other than 1, 2 or 3.
    PhaseOutOfRange,
    /// A key of a use-item description that is neither a list position nor a
    /// module name.
    UseTreeKey,
    /// A value of a use-item description of the wrong shape for its key.
    UseTreeValue,
    /// The scripting host raised an error in a callback.
    Script,
}

} // verus!
