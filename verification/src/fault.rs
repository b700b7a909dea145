//! What can go wrong.

use vstd::prelude::*;

use crate::text::copied;

verus! {

/// An error, by the kind that callers tell apart, with a message for people.
#[derive(Debug)]
pub enum Fault {
    /// The caller asked for something that cannot be asked for.
    InvalidInput(String),
    /// What was read cannot be trusted.
    InvalidData(String),
    /// What was asked for is not there.
    NotFound(String),
    /// Anything else.
    Other(String),
}

/// An error, as contracts speak of it.
pub enum FaultView {
    InvalidInput(Seq<char>),
    InvalidData(Seq<char>),
    NotFound(Seq<char>),
    Other(Seq<char>),
}

impl View for Fault {
    type V = FaultView;

    open spec fn view(&self) -> FaultView {
        match self {
            Fault::InvalidInput(message) => FaultView::InvalidInput(message@),
            Fault::InvalidData(message) => FaultView::InvalidData(message@),
            Fault::NotFound(message) => FaultView::NotFound(message@),
            Fault::Other(message) => FaultView::Other(message@),
        }
    }
}

/// The message of an error.
pub open spec fn message_of(fault: FaultView) -> Seq<char> {
    match fault {
        FaultView::InvalidInput(message) => message,
        FaultView::InvalidData(message) => message,
        FaultView::NotFound(message) => message,
        FaultView::Other(message) => message,
    }
}

impl Fault {
    /// The message for people.
    pub fn message(&self) -> (message: String)
        ensures
            message@ == message_of(self@),
    {
        match self {
            Fault::InvalidInput(message) => copied(message.as_str()),
            Fault::InvalidData(message) => copied(message.as_str()),
            Fault::NotFound(message) => copied(message.as_str()),
            Fault::Other(message) => copied(message.as_str()),
        }
    }
}

/// The message of an error is the one that it was made with, whatever its kind.
pub proof fn messages_are_kept(message: Seq<char>)
    ensures
        message_of(FaultView::InvalidInput(message)) == message,
        message_of(FaultView::InvalidData(message)) == message,
        message_of(FaultView::NotFound(message)) == message,
        message_of(FaultView::Other(message)) == message,
{
}

} // verus!
