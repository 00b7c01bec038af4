use vstd::prelude::*;
use crate::text::{append, decimal, decimal_string, owned};
use crate::token::TokenPosition;

verus! {

/// What went wrong, in words.
#[derive(Debug)]
pub enum ParserErrorValue {
    Constant(String),
}

/// A diagnostic: a message, and where the offending token starts when that is known.
#[derive(Debug)]
pub struct ParserError {
    pub value: ParserErrorValue,
    pub position: Option<TokenPosition>,
}

pub type ParserResult<T> = Result<T, ParserError>;

impl ParserError {
    pub fn new(value: &str) -> (r: ParserError)
        ensures
            r.message() == value@,
            r.position is None,
    {
        ParserError { value: ParserErrorValue::Constant(String::from_str(value)), position: None }
    }

    pub fn new_pos(position: TokenPosition, value: &str) -> (r: ParserError)
        ensures
            r.message() == value@,
            r.position == Some(position),
    {
        ParserError {
            value: ParserErrorValue::Constant(String::from_str(value)),
            position: Some(position),
        }
    }

    /// The message of the error.
    pub open spec fn message(&self) -> Seq<char> {
        match self.value {
            ParserErrorValue::Constant(s) => s@,
        }
    }

    /// The error as a diagnostic line: `(line L col C): message`, or the bare message when
    /// the position is unknown.
    pub fn describe(&self) -> (r: String)
        ensures
            r@ == match self.position {
                Some(p) => "(line "@ + decimal(p.line as nat) + " col "@ + decimal(p.col as nat) + "): "@
                    + self.message(),
                None => self.message(),
            },
    {
        match self.position {
            Some(p) => {
                let mut r = owned("(line ");
                append(&mut r, decimal_string(p.line as u64).as_str());
                append(&mut r, " col ");
                append(&mut r, decimal_string(p.col as u64).as_str());
                append(&mut r, "): ");
                append(&mut r, self.text().as_str());
                r
            },
            None => self.text().clone(),
        }
    }

    /// The message of the error.
    pub fn text(&self) -> (r: &String)
        ensures
            r@ == self.message(),
    {
        match &self.value {
            ParserErrorValue::Constant(s) => s,
        }
    }
}

/// A failure to address a scope slot.
#[derive(Debug)]
pub struct RunError {
    pub message: String,
}

pub type RunResult<T> = Result<T, RunError>;

impl RunError {
    pub fn new(message: &str) -> (r: RunError)
        ensures
            r.message@ == message@,
    {
        RunError { message: String::from_str(message) }
    }
}

} // verus!
