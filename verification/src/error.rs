use vstd::prelude::*;

verus! {

/// Errors reported while reading a dictionary.
#[derive(PartialEq, Eq)]
pub enum Error {
    /// The underlying stream has no more data.
    EOF,
    /// Any other failure, described by a message.
    UnknownErr(String),
}

impl Error {
    /// The text that describes this error: `"eof"` for the end of the stream,
    /// the carried message otherwise.
    pub open spec fn spec_message(&self) -> Seq<char> {
        match self {
            Error::EOF => "eof"@,
            Error::UnknownErr(e) => e@,
        }
    }

    /// Renders the error as text.
    pub fn to_string(&self) -> (s: String)
        ensures
            s@ == self.spec_message(),
    {
        match self {
            Error::EOF => String::from_str("eof"),
            Error::UnknownErr(e) => e.clone(),
        }
    }
}

} // verus!
