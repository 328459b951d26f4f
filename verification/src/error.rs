//! Errors produced during any season of the compiler pipeline.
use vstd::prelude::*;
use crate::text::{decimal, push_decimal};

verus! {

/// Errors produced during any season of the compiler pipeline.
#[derive(Debug, PartialEq)]
pub enum GroveError {
    /// Lexer error during Spring.
    Lex { message: String, pos: usize },
    /// Parser error during Spring.
    Parse { message: String, pos: usize },
    /// Type-check / scope error during Summer.
    TypeCheck { message: String },
    /// Optimizer error during Autumn.
    Optimize { message: String },
    /// Emission error during Winter.
    Emit { message: String },
}

/// The model of an error: its kind, message text and position.
pub enum SpecError {
    Lex { message: Seq<char>, pos: nat },
    Parse { message: Seq<char>, pos: nat },
    TypeCheck { message: Seq<char> },
    Optimize { message: Seq<char> },
    Emit { message: Seq<char> },
}

impl View for GroveError {
    type V = SpecError;

    open spec fn view(&self) -> SpecError {
        match self {
            GroveError::Lex { message, pos } => SpecError::Lex { message: message@, pos: *pos as nat },
            GroveError::Parse { message, pos } => SpecError::Parse {
                message: message@,
                pos: *pos as nat,
            },
            GroveError::TypeCheck { message } => SpecError::TypeCheck { message: message@ },
            GroveError::Optimize { message } => SpecError::Optimize { message: message@ },
            GroveError::Emit { message } => SpecError::Emit { message: message@ },
        }
    }
}

/// The text shown for an error.
pub open spec fn error_text(e: SpecError) -> Seq<char> {
    match e {
        SpecError::Lex { message, pos } => "lex error at "@ + decimal(pos) + ": "@ + message,
        SpecError::Parse { message, pos } => "parse error at "@ + decimal(pos) + ": "@ + message,
        SpecError::TypeCheck { message } => "type error: "@ + message,
        SpecError::Optimize { message } => "optimize error: "@ + message,
        SpecError::Emit { message } => "emit error: "@ + message,
    }
}

impl Clone for GroveError {
    fn clone(&self) -> (r: GroveError)
        ensures
            r@ == self@,
    {
        match self {
            GroveError::Lex { message, pos } => GroveError::Lex { message: message.clone(), pos: *pos },
            GroveError::Parse { message, pos } => GroveError::Parse {
                message: message.clone(),
                pos: *pos,
            },
            GroveError::TypeCheck { message } => GroveError::TypeCheck { message: message.clone() },
            GroveError::Optimize { message } => GroveError::Optimize { message: message.clone() },
            GroveError::Emit { message } => GroveError::Emit { message: message.clone() },
        }
    }
}

impl GroveError {
    /// The text shown for this error, such as `lex error at 3: ...`.
    pub fn to_string(&self) -> (r: String)
        ensures
            r@ == error_text(self@),
    {
        match self {
            GroveError::Lex { message, pos } => {
                let mut s = String::from_str("lex error at ");
                push_decimal(&mut s, *pos);
                s.append(": ");
                s.append(message.as_str());
                s
            },
            GroveError::Parse { message, pos } => {
                let mut s = String::from_str("parse error at ");
                push_decimal(&mut s, *pos);
                s.append(": ");
                s.append(message.as_str());
                s
            },
            GroveError::TypeCheck { message } => {
                let mut s = String::from_str("type error: ");
                s.append(message.as_str());
                s
            },
            GroveError::Optimize { message } => {
                let mut s = String::from_str("optimize error: ");
                s.append(message.as_str());
                s
            },
            GroveError::Emit { message } => {
                let mut s = String::from_str("emit error: ");
                s.append(message.as_str());
                s
            },
        }
    }
}

} // verus!
