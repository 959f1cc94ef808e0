use vstd::prelude::*;

verus! {

/// The errors that library operations can report. Scanner and parser
/// failures are `SyntaxError`s; operations applied to a value of the wrong
/// variant, malformed escape sequences, and empty-collection edge cases are
/// `ValueError`s; object key lookups and duplicate-key inserts that violate
/// the presence or uniqueness contract are `KeyError`s; array positions
/// outside the valid insertion or removal range are `IndexError`s.
#[derive(Debug)]
pub enum JSONError {
    /// Malformed input text: an unterminated string, an invalid byte, an
    /// unexpected token, or a missing expected token.
    SyntaxError(String),
    /// An operation was applied to a value of the wrong variant, or a string
    /// escape sequence was malformed, or an array operation hit an
    /// empty-collection edge case.
    ValueError(String),
    /// An object key lookup or duplicate-key insert violated the presence or
    /// uniqueness contract.
    KeyError(String),
    /// An array position is out of the valid insertion or removal range.
    IndexError(String),
}

impl JSONError {
    /// The bare message carried by the error, without the kind prefix.
    pub fn message(&self) -> (r: &String)
        ensures
            r@ == self.spec_message(),
    {
        match self {
            JSONError::SyntaxError(what) => what,
            JSONError::ValueError(what) => what,
            JSONError::KeyError(what) => what,
            JSONError::IndexError(what) => what,
        }
    }

    pub open spec fn spec_message(&self) -> Seq<char> {
        match self {
            JSONError::SyntaxError(what) => what@,
            JSONError::ValueError(what) => what@,
            JSONError::KeyError(what) => what@,
            JSONError::IndexError(what) => what@,
        }
    }

    /// The full human-readable text of the error, kind prefix included.
    pub fn describe(&self) -> (r: String)
        ensures
            r@ == self.spec_describe(),
    {
        let prefix = match self {
            JSONError::SyntaxError(_) => "JSON Syntax Error: ",
            JSONError::ValueError(_) => "JSON Value Error: ",
            JSONError::KeyError(_) => "JSON Key Error: ",
            JSONError::IndexError(_) => "JSON Index Error: ",
        };
        let mut out = String::from_str(prefix);
        out.append(self.message().as_str());
        out
    }

    pub open spec fn spec_describe(&self) -> Seq<char> {
        let prefix = match self {
            JSONError::SyntaxError(_) => "JSON Syntax Error: "@,
            JSONError::ValueError(_) => "JSON Value Error: "@,
            JSONError::KeyError(_) => "JSON Key Error: "@,
            JSONError::IndexError(_) => "JSON Index Error: "@,
        };
        prefix + self.spec_message()
    }
}

} // verus!
