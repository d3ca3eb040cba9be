//! Why a message could not be converted.

use vstd::prelude::*;

verus! {

/// Why a message could not be converted.
#[derive(Debug)]
pub enum ConvertError {
    /// The message is sound, but holds nothing that can be shown as text.
    Unsupported(String),
    /// The message is broken.
    Malformed(String),
}

/// What a [`ConvertError`] says.
pub enum Problem {
    /// The message is sound, but holds nothing that can be shown as text.
    Unsupported(Seq<char>),
    /// The message is broken.
    Malformed(Seq<char>),
}

impl View for ConvertError {
    type V = Problem;

    open spec fn view(&self) -> Problem {
        match self {
            ConvertError::Unsupported(m) => Problem::Unsupported(m@),
            ConvertError::Malformed(m) => Problem::Malformed(m@),
        }
    }
}

impl ConvertError {
    /// The error for a broken message.
    pub fn malformed(message: &str) -> (r: ConvertError)
        ensures
            r@ == Problem::Malformed(message@),
    {
        ConvertError::Malformed(message.to_string())
    }

    /// The error for a message that holds nothing to show.
    pub fn unsupported(message: &str) -> (r: ConvertError)
        ensures
            r@ == Problem::Unsupported(message@),
    {
        ConvertError::Unsupported(message.to_string())
    }
}

} // verus!
