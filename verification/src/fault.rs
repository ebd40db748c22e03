//! Failures of the front end: an error, and the message to report with it.

use crate::api::{Error, Status};
use vstd::prelude::*;
use vstd::string::*;

verus! {

/// A failure with the message that goes to the log, where there is one.
#[derive(Debug)]
pub struct Fault {
    pub error: Error,
    pub message: Option<String>,
}

/// The mathematical value of a [`Fault`].
pub struct FaultView {
    pub error: Error,
    pub message: Option<Seq<char>>,
}

/// The value of an optional text.
pub open spec fn text_view(t: Option<String>) -> Option<Seq<char>> {
    match t {
        Some(s) => Some(s@),
        None => None,
    }
}

impl View for Fault {
    type V = FaultView;

    open spec fn view(&self) -> FaultView {
        FaultView { error: self.error, message: text_view(self.message) }
    }
}

/// An invalid input, with nothing more to say than the detail code.
pub open spec fn invalid(detail: u32) -> FaultView {
    FaultView {
        error: Error { status: Status::Invalid, detail, byte_offset: 0 },
        message: None,
    }
}

/// Builds [`invalid`].
pub fn reject(detail: u32) -> (r: Fault)
    ensures
        r@ == invalid(detail),
{
    Fault { error: Error { status: Status::Invalid, detail, byte_offset: 0 }, message: None }
}

/// An invalid input, with a place and a message.
pub open spec fn invalid_at(detail: u32, offset: usize, message: Seq<char>) -> FaultView {
    FaultView {
        error: Error { status: Status::Invalid, detail, byte_offset: offset as u64 },
        message: Some(message),
    }
}

/// Builds [`invalid_at`].
pub fn reject_at(detail: u32, offset: usize, message: String) -> (r: Fault)
    ensures
        r@ == invalid_at(detail, offset, message@),
{
    Fault {
        error: Error { status: Status::Invalid, detail, byte_offset: offset as u64 },
        message: Some(message),
    }
}

} // verus!
