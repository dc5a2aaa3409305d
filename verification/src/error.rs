use vstd::prelude::*;

verus! {

/// `std::io::Error`, declared so that an error can carry one; nothing is claimed
/// of what it holds.
#[verifier::external_type_specification]
#[verifier::external_body]
pub struct ExIoError(std::io::Error);

/// `std::num::ParseIntError`, declared so that an error can carry one; nothing is
/// claimed of what it holds.
#[verifier::external_type_specification]
#[verifier::external_body]
pub struct ExParseIntError(std::num::ParseIntError);

/// `serde_json::Error`, declared so that it can be converted; nothing is claimed of
/// what it holds.
#[verifier::external_type_specification]
#[verifier::external_body]
pub struct ExJsonError(serde_json::Error);

/// What can go wrong in the tokenizer.
#[derive(Debug)]
pub enum TokenizerError {
    IoError(std::io::Error),
    ParseError(std::num::ParseIntError),
    InvalidToken(String),
    InvalidPair(String),
    InvalidConfig(String),
}

/// The result of an operation of the tokenizer.
pub type TokenizerResult<T> = Result<T, TokenizerError>;

impl From<std::io::Error> for TokenizerError {
    fn from(error: std::io::Error) -> (r: TokenizerError) {
        TokenizerError::IoError(error)
    }
}

impl vstd::std_specs::convert::FromSpecImpl<std::io::Error> for TokenizerError {
    open spec fn obeys_from_spec() -> bool {
        true
    }

    open spec fn from_spec(v: std::io::Error) -> TokenizerError {
        TokenizerError::IoError(v)
    }
}

impl From<std::num::ParseIntError> for TokenizerError {
    fn from(error: std::num::ParseIntError) -> (r: TokenizerError) {
        TokenizerError::ParseError(error)
    }
}

impl vstd::std_specs::convert::FromSpecImpl<std::num::ParseIntError> for TokenizerError {
    open spec fn obeys_from_spec() -> bool {
        true
    }

    open spec fn from_spec(v: std::num::ParseIntError) -> TokenizerError {
        TokenizerError::ParseError(v)
    }
}

impl From<serde_json::Error> for TokenizerError {
    /// A configuration error whose message is what the error displays (by its
    /// `to_string`, which states no more of the message than that).
    fn from(error: serde_json::Error) -> (r: TokenizerError)
        ensures
            r matches TokenizerError::InvalidConfig(m)
                && vstd::string::to_string_from_display_ensures::<serde_json::Error>(&error, m),
    {
        TokenizerError::InvalidConfig(error.to_string())
    }
}

impl vstd::std_specs::convert::FromSpecImpl<serde_json::Error> for TokenizerError {
    open spec fn obeys_from_spec() -> bool {
        false
    }

    open spec fn from_spec(v: serde_json::Error) -> TokenizerError {
        arbitrary()
    }
}

} // verus!
