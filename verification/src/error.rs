//! The engine's error type.

use vstd::prelude::*;
use vstd::string::StringExecFns;

verus! {

/// Declares `std::io::Error`, which the library only carries.
#[verifier::external_type_specification]
#[verifier::external_body]
pub struct ExIoError(std::io::Error);

/// What can go wrong in the engine.
#[derive(Debug)]
pub enum EngineError {
    /// A file operation failed.
    Io(std::io::Error),
    /// A file does not hold what it should.
    Corruption(String),
    /// The key is not stored.
    KeyNotFound,
}

/// Calls `to_string` on a `std::io::Error`. Nothing is claimed of the text: it can come from the
/// operating system.
#[verifier::external_body]
fn io_error_text(e: &std::io::Error) -> String {
    e.to_string()
}

/// `detail` is what the call of `to_string` on `e` may give.
pub closed spec fn shown_as(e: std::io::Error, detail: String) -> bool {
    call_ensures(io_error_text, (&e,), detail)
}

impl From<std::io::Error> for EngineError {
    fn from(e: std::io::Error) -> (r: Self) {
        EngineError::Io(e)
    }
}

impl vstd::std_specs::convert::FromSpecImpl<std::io::Error> for EngineError {
    open spec fn obeys_from_spec() -> bool {
        true
    }

    open spec fn from_spec(e: std::io::Error) -> Self {
        EngineError::Io(e)
    }
}

/// The message for a failed file operation, given the text of its error.
pub fn io_message(detail: &str) -> (r: String)
    ensures
        r@ == "IO error: "@ + detail@,
{
    let mut text = String::from_str("IO error: ");
    text.append(detail);
    text
}

impl EngineError {
    /// The message shown to users. For a failed file operation it is that of `io_message`, with the
    /// text that the call of `to_string` on the error gave; nothing is known of that text itself.
    pub fn message(&self) -> (r: String)
        ensures
            match self {
                EngineError::Io(e) => exists|detail: String| #[trigger]
                    shown_as(*e, detail) && r@ == "IO error: "@ + detail@,
                EngineError::Corruption(msg) => r@ == "Corruption: "@ + msg@,
                EngineError::KeyNotFound => r@ == "Key not found"@,
            },
    {
        match self {
            EngineError::Io(e) => {
                let detail = io_error_text(e);
                assert(shown_as(*e, detail));
                io_message(detail.as_str())
            },
            EngineError::Corruption(msg) => {
                let mut text = String::from_str("Corruption: ");
                text.append(msg.as_str());
                text
            },
            EngineError::KeyNotFound => String::from_str("Key not found"),
        }
    }
}

} // verus!
