//! Status codes and messages of replies.

use vstd::prelude::*;

verus! {

/// The reply categories the server uses.
#[derive(Clone, Copy, Debug, PartialEq, Eq, Structural)]
pub enum Code {
    InvalidArgument,
    NotFound,
    AlreadyExists,
    ResourceExhausted,
    FailedPrecondition,
    Aborted,
    Unimplemented,
    Internal,
    Unavailable,
}

/// An error reply.
#[derive(Debug)]
pub struct Status {
    pub code: Code,
    pub message: String,
}

/// What a status says.
#[verifier::ext_equal]
pub struct StatusView {
    pub code: Code,
    pub message: Seq<char>,
}

impl View for Status {
    type V = StatusView;

    open spec fn view(&self) -> StatusView {
        StatusView { code: self.code, message: self.message@ }
    }
}

/// The status with this code and message.
pub open spec fn says(code: Code, message: Seq<char>) -> StatusView {
    StatusView { code, message }
}

impl Status {
    /// A status with a ready-made message.
    pub fn new(code: Code, message: String) -> (s: Status)
        ensures
            s@ == says(code, message@),
    {
        Status { code, message }
    }

    /// A status with a fixed message.
    pub fn of(code: Code, message: &str) -> (s: Status)
        ensures
            s@ == says(code, message@),
    {
        Status { code, message: String::from_str(message) }
    }

    /// The category.
    pub fn code(&self) -> (c: Code)
        ensures
            c == self@.code,
    {
        self.code
    }

    /// The text.
    pub fn message(&self) -> (m: &str)
        ensures
            m@ == self@.message,
    {
        self.message.as_str()
    }
}

} // verus!
