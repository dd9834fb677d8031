//! A regex engine built on Brzozowski derivatives, with intersection (`&`),
//! complement (`~(...)`) and the universal wildcard (`_`). Matches are
//! leftmost-longest.

pub mod types;
pub mod charset;
pub mod semantics;
pub mod fxmap;
pub mod builder;
pub mod algorithm;
pub mod grammar;
pub mod meaning;
pub mod parser;
pub mod engine;

pub use engine::Regex;
pub use parser::ParseError;
pub use types::{NodeFlags, RegexNodeId, StateFlags, ASCII_RANGE, BYTE_RANGE};

use vstd::prelude::*;
use vstd::string::StringExecFns;

verus! {

/// The result of a regex operation.
pub type Result<T> = std::result::Result<T, Error>;

/// What can go wrong with a regex.
#[derive(Debug, Clone)]
pub enum Error {
    /// The pattern could not be parsed.
    Parse(ParseError),
    /// The pattern could not be compiled.
    Compile(String),
    /// The automaton grew beyond its state limit.
    DfaStateLimitExceeded,
}

impl Error {
    /// The error as text: a parse error's own text, a compilation error's
    /// message after `Compilation error: `, or the state limit's notice.
    pub fn to_string(&self) -> (r: String)
        ensures
            match self {
                Error::Parse(e) => r@ == "Parse error at position "@ + parser::decimal_chars(e.position as nat) + ": "@
                    + e.message@,
                Error::Compile(msg) => r@ == "Compilation error: "@ + msg@,
                Error::DfaStateLimitExceeded => r@ == "DFA state limit exceeded (pattern too complex)"@,
            },
    {
        match self {
            Error::Parse(e) => e.to_string(),
            Error::Compile(msg) => {
                let mut text = "Compilation error: ".to_owned();
                text.append(msg.as_str());
                text
            },
            Error::DfaStateLimitExceeded => {
                let text = "DFA state limit exceeded (pattern too complex)";
                text.to_owned()
            },
        }
    }
}

impl From<ParseError> for Error {
    fn from(e: ParseError) -> (r: Self) {
        Error::Parse(e)
    }
}

impl vstd::std_specs::convert::FromSpecImpl<ParseError> for Error {
    open spec fn obeys_from_spec() -> bool {
        true
    }

    open spec fn from_spec(v: ParseError) -> Self {
        Error::Parse(v)
    }
}

} // verus!
