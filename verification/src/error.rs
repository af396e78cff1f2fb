//! The single error type of the library.

use vstd::prelude::*;
use vstd::string::*;

verus! {

/// A failure of the store or of a decoder, with its message.
#[derive(Debug, Clone, PartialEq)]
pub struct RedrockError {
    message: String,
}

impl View for RedrockError {
    type V = Seq<char>;

    /// The message.
    closed spec fn view(&self) -> Seq<char> {
        self.message@
    }
}

impl RedrockError {
    /// An error that carries `message`.
    pub fn new(message: String) -> (e: RedrockError)
        ensures
            e@ == message@,
    {
        RedrockError { message }
    }

    /// The message.
    pub fn message(&self) -> (m: &str)
        ensures
            m@ == self@,
    {
        self.message.as_str()
    }

    /// The message, as an owned string.
    pub fn to_string(&self) -> (m: String)
        ensures
            m@ == self@,
    {
        self.message.clone()
    }

    /// Gives up the error for its message.
    pub fn into_string(self) -> (m: String)
        ensures
            m@ == self@,
    {
        self.message
    }
}

impl From<RedrockError> for String {
    /// The message of the error.
    fn from(e: RedrockError) -> (m: String) {
        e.message
    }
}

impl vstd::std_specs::convert::FromSpecImpl<RedrockError> for String {
    open spec fn obeys_from_spec() -> bool {
        true
    }

    closed spec fn from_spec(e: RedrockError) -> String {
        e.message
    }
}

/// The string that an error converts to is its message.
pub proof fn lemma_string_from_error(e: RedrockError)
    ensures
        <String as vstd::std_specs::convert::FromSpec<RedrockError>>::from_spec(e)@ == e@,
{
}

} // verus!
