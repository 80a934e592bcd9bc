//! Why a classification failed, and what its caller is told.

use vstd::prelude::*;

verus! {

/// The two ways a classification fails.
#[derive(Debug)]
pub enum ClassifyError {
    /// The request cannot be served as it stands.
    BadRequest(String),
    /// The model service failed, or what it said cannot be used.
    Upstream(String),
}

/// What a `ClassifyError` says.
pub enum Failure {
    BadRequest(Seq<char>),
    Upstream(Seq<char>),
}

impl View for ClassifyError {
    type V = Failure;

    open spec fn view(&self) -> Failure {
        match self {
            ClassifyError::BadRequest(message) => Failure::BadRequest(message@),
            ClassifyError::Upstream(message) => Failure::Upstream(message@),
        }
    }
}

impl Failure {
    /// The message to the caller.
    pub open spec fn message(self) -> Seq<char> {
        match self {
            Failure::BadRequest(message) => message,
            Failure::Upstream(message) => message,
        }
    }

    /// The HTTP status of the answer: 400 for a bad request, 502 where the
    /// model service failed.
    pub open spec fn status(self) -> u16 {
        match self {
            Failure::BadRequest(_) => 400,
            Failure::Upstream(_) => 502,
        }
    }
}

impl ClassifyError {
    /// The HTTP status and the message with which a failure is answered.
    pub fn into_answer(self) -> (answer: (u16, String))
        ensures
            answer.0 == self@.status(),
            answer.1@ == self@.message(),
    {
        match self {
            ClassifyError::BadRequest(message) => (400, message),
            ClassifyError::Upstream(message) => (502, message),
        }
    }
}

/// The status of an answer tells the two kinds of failure apart.
pub proof fn law_status_tells_kind(failure: Failure)
    ensures
        failure.status() == 400 <==> failure is BadRequest,
        failure.status() == 502 <==> failure is Upstream,
{
}

/// What an error says is what it was made with, and so is the message to the
/// caller.
pub proof fn law_error_says(message: String)
    ensures
        ClassifyError::BadRequest(message)@ == Failure::BadRequest(message@),
        ClassifyError::Upstream(message)@ == Failure::Upstream(message@),
        ClassifyError::BadRequest(message)@.message() == message@,
        ClassifyError::Upstream(message)@.message() == message@,
{
}

} // verus!
