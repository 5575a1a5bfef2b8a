use vstd::prelude::*;

verus! {

/// Why a chip definition was rejected.
#[derive(Clone, Copy, Debug, PartialEq, Eq, Structural)]
pub enum SemanticError {
    /// A name was declared twice in one chip's namespace.
    DuplicateName,
    /// A reference to an alias, pin or chip that was never declared.
    UnresolvedName,
    /// A connection joins two sources or two sinks.
    DirectionConflict,
    /// A connection joins two rails directly.
    RailToRailConflict,
    /// A primitive tag for which the backend has no operation.
    UnknownPrimitive,
    /// Import resolution was asked for, and nothing provides it.
    NotImplemented,
    /// A pin feeds back into itself through the connections.
    CyclicDependency,
    /// An input pin of a sub-component instance has no incoming connection.
    UnconnectedInput,
}


/// A rejected statement: what is wrong, and the position of the statement in
/// the list that was handed in.
#[derive(Clone, Copy, Debug, PartialEq, Eq, Structural)]
pub struct Diagnostic {
    pub error: SemanticError,
    pub statement: usize,
}

} // verus!
