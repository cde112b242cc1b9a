//! What can go wrong, in either half of the crate.

use vstd::prelude::*;
use vstd::string::*;

verus! {

/// The kinds of failed input or output that the library itself reports.
#[derive(Clone, Copy, Debug, PartialEq, Eq, Structural)]
pub enum IoKind {
    InvalidInput,
    BrokenPipe,
    OutOfMemory,
    Other,
}

/// A failed input or output operation.
#[derive(Clone, Debug, PartialEq, Eq)]
pub struct IoFault {
    pub kind: IoKind,
    pub message: String,
}

#[derive(Clone, Debug, PartialEq, Eq)]
pub enum Error {
    Io(IoFault),
    Corruption(String),
}

pub type Result<T> = core::result::Result<T, Error>;

/// An error by what it says: the kind (none for corruption) and the message.
#[verifier::ext_equal]
pub struct Fault {
    pub kind: Option<IoKind>,
    pub message: Seq<char>,
}

impl View for Error {
    type V = Fault;

    open spec fn view(&self) -> Fault {
        match self {
            Error::Io(fault) => Fault { kind: Some(fault.kind), message: fault.message@ },
            Error::Corruption(message) => Fault { kind: None, message: message@ },
        }
    }
}

/// Corrupt data, described by `message`.
pub open spec fn corrupt(message: Seq<char>) -> Fault {
    Fault { kind: None, message }
}

/// A failed operation of the given kind.
pub open spec fn io_fault(kind: IoKind, message: Seq<char>) -> Fault {
    Fault { kind: Some(kind), message }
}

pub fn corruption(message: &str) -> (e: Error)
    ensures
        e@ == corrupt(message@),
{
    Error::Corruption(message.to_owned())
}

pub fn io_error(kind: IoKind, message: &str) -> (e: Error)
    ensures
        e@ == io_fault(kind, message@),
{
    Error::Io(IoFault { kind, message: message.to_owned() })
}

} // verus!
