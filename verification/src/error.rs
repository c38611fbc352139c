//! The error that every operation reports to the user interface.

use vstd::prelude::*;

verus! {

/// An error with a stable code, a message for the user, advice on what to do
/// next, and whether trying again can help.
#[derive(Debug, Clone, PartialEq, Eq)]
pub struct AppError {
    pub code: String,
    pub message: String,
    pub suggestion: String,
    pub retryable: bool,
}

/// What an [`AppError`] says.
#[verifier::ext_equal]
pub struct ErrorModel {
    pub code: Seq<char>,
    pub message: Seq<char>,
    pub suggestion: Seq<char>,
    pub retryable: bool,
}

impl View for AppError {
    type V = ErrorModel;

    open spec fn view(&self) -> ErrorModel {
        ErrorModel {
            code: self.code@,
            message: self.message@,
            suggestion: self.suggestion@,
            retryable: self.retryable,
        }
    }
}

/// The error that [`AppError::new`] makes of its arguments.
pub open spec fn error_model(
    code: Seq<char>,
    message: Seq<char>,
    suggestion: Seq<char>,
    retryable: bool,
) -> ErrorModel {
    ErrorModel { code, message, suggestion, retryable }
}

impl AppError {
    /// Puts an error together.
    pub fn new(code: &str, message: String, suggestion: &str, retryable: bool) -> (res: AppError)
        ensures
            res@ == error_model(code@, message@, suggestion@, retryable),
            res.code@ == code@,
            res.message@ == message@,
            res.suggestion@ == suggestion@,
            res.retryable == retryable,
    {
        AppError { code: code.to_owned(), message, suggestion: suggestion.to_owned(), retryable }
    }
}

/// An error says what it was made of, part by part.
pub proof fn law_error_keeps_its_parts(
    code: Seq<char>,
    message: Seq<char>,
    suggestion: Seq<char>,
    retryable: bool,
)
    ensures
        error_model(code, message, suggestion, retryable).code == code,
        error_model(code, message, suggestion, retryable).message == message,
        error_model(code, message, suggestion, retryable).suggestion == suggestion,
        error_model(code, message, suggestion, retryable).retryable == retryable,
{
}

/// The outcome of an operation that gives nothing back.
pub open spec fn unit_outcome(outcome: Result<(), AppError>) -> Result<(), ErrorModel> {
    match outcome {
        Ok(()) => Ok(()),
        Err(error) => Err(error@),
    }
}

/// That nothing went wrong, and what did, is told in full.
pub proof fn law_unit_outcome(outcome: Result<(), AppError>)
    ensures
        match outcome {
            Ok(()) => unit_outcome(outcome) is Ok,
            Err(error) => unit_outcome(outcome) matches Err(told) && told.code == error.code@
                && told.message == error.message@ && told.suggestion == error.suggestion@
                && told.retryable == error.retryable,
        },
{
}

} // verus!
