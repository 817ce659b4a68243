//! What the store, a merge and a script report when they fail.

use vstd::prelude::*;

verus! {

/// Why the store refused an operation.
#[derive(Clone, Copy, Debug, PartialEq, Eq, Structural)]
pub enum StoreError {
    /// The vertex is in the graph already.
    Present(u32),
    /// The graph has no such vertex.
    Absent(u32),
    /// The vertex has an outgoing edge under that label already.
    Taken(u32),
    /// No identifier above those in use is left.
    Exhausted,
}

/// Why a merge did not complete.
#[derive(Clone, Copy, Debug, PartialEq, Eq, Structural)]
pub enum MergeError {
    /// The store refused an operation; the destination keeps what was done
    /// before.
    Store(StoreError),
    /// Only `merged` of the source's `scope` vertices can be reached from the
    /// vertex the merge started at.
    Coverage { merged: usize, scope: usize },
}

/// Why a command of a script was not carried out.
#[derive(Debug, PartialEq, Eq)]
pub enum CommandError {
    /// The text is no name in upper-case letters with arguments in brackets
    /// behind it.
    Syntax,
    /// The command has fewer arguments than it takes.
    Arity,
    /// No command has this name.
    Unknown(String),
    /// An argument that stands for a vertex is neither a variable nor a
    /// number.
    Vertex,
    /// The payload is not written as pairs of hexadecimal digits.
    Data,
    /// The store refused what the command asked for.
    Store(StoreError),
}

/// A `CommandError` with its text as a sequence of characters.
pub enum CommandFault {
    Syntax,
    Arity,
    Unknown(Seq<char>),
    Vertex,
    Data,
    Store(StoreError),
}

impl View for CommandError {
    type V = CommandFault;

    open spec fn view(&self) -> CommandFault {
        match self {
            CommandError::Syntax => CommandFault::Syntax,
            CommandError::Arity => CommandFault::Arity,
            CommandError::Unknown(name) => CommandFault::Unknown(name@),
            CommandError::Vertex => CommandFault::Vertex,
            CommandError::Data => CommandFault::Data,
            CommandError::Store(e) => CommandFault::Store(*e),
        }
    }
}

/// The command at which the deployment of a script stopped: its place among
/// the commands, counted from one, its text, and why it was not carried out.
#[derive(Debug, PartialEq, Eq)]
pub struct ScriptError {
    pub position: usize,
    pub command: String,
    pub cause: CommandError,
}

} // verus!
