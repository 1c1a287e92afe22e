//! The errors of the engine.
use vstd::prelude::*;

use crate::config::Config;
use crate::text;

verus! {

#[derive(Debug)]
pub enum SkvsError {
    Config(String),
    Io(String),
    Serialization(String),
    SqlParse(String),
    ConstraintViolation(String),
    Unsupported(String),
    Transaction(String),
    Schema(String),
    Storage(String),
    Trigger(String),
    View(String),
    Json(String),
    Fts(String),
}

/// What an error is.
pub enum ErrorV {
    Config(Seq<char>),
    Io(Seq<char>),
    Serialization(Seq<char>),
    SqlParse(Seq<char>),
    ConstraintViolation(Seq<char>),
    Unsupported(Seq<char>),
    Transaction(Seq<char>),
    Schema(Seq<char>),
    Storage(Seq<char>),
    Trigger(Seq<char>),
    View(Seq<char>),
    Json(Seq<char>),
    Fts(Seq<char>),
}

impl View for SkvsError {
    type V = ErrorV;

    open spec fn view(&self) -> ErrorV {
        match self {
            SkvsError::Config(s) => ErrorV::Config(s@),
            SkvsError::Io(s) => ErrorV::Io(s@),
            SkvsError::Serialization(s) => ErrorV::Serialization(s@),
            SkvsError::SqlParse(s) => ErrorV::SqlParse(s@),
            SkvsError::ConstraintViolation(s) => ErrorV::ConstraintViolation(s@),
            SkvsError::Unsupported(s) => ErrorV::Unsupported(s@),
            SkvsError::Transaction(s) => ErrorV::Transaction(s@),
            SkvsError::Schema(s) => ErrorV::Schema(s@),
            SkvsError::Storage(s) => ErrorV::Storage(s@),
            SkvsError::Trigger(s) => ErrorV::Trigger(s@),
            SkvsError::View(s) => ErrorV::View(s@),
            SkvsError::Json(s) => ErrorV::Json(s@),
            SkvsError::Fts(s) => ErrorV::Fts(s@),
        }
    }
}

/// The message that is shown for an error.
pub open spec fn error_message(e: ErrorV) -> Seq<char> {
    match e {
        ErrorV::Config(s) => "Config error: "@ + s,
        ErrorV::Io(s) => "I/O error: "@ + s,
        ErrorV::Serialization(s) => "Serialization error: "@ + s,
        ErrorV::SqlParse(s) => "SQL parse error: "@ + s,
        ErrorV::ConstraintViolation(s) => "Constraint violation: "@ + s,
        ErrorV::Unsupported(s) => "Unsupported operation: "@ + s,
        ErrorV::Transaction(s) => "Transaction error: "@ + s,
        ErrorV::Schema(s) => "Schema error: "@ + s,
        ErrorV::Storage(s) => "Storage error: "@ + s,
        ErrorV::Trigger(s) => "Trigger error: "@ + s,
        ErrorV::View(s) => "View error: "@ + s,
        ErrorV::Json(s) => "JSON error: "@ + s,
        ErrorV::Fts(s) => "FTS error: "@ + s,
    }
}

impl SkvsError {
    /// The message that is shown for the error.
    pub fn message(&self) -> (r: String)
        ensures
            r@ == error_message(self@),
    {
        match self {
            SkvsError::Config(s) => text::text2("Config error: ", s.as_str()),
            SkvsError::Io(s) => text::text2("I/O error: ", s.as_str()),
            SkvsError::Serialization(s) => text::text2("Serialization error: ", s.as_str()),
            SkvsError::SqlParse(s) => text::text2("SQL parse error: ", s.as_str()),
            SkvsError::ConstraintViolation(s) => text::text2("Constraint violation: ", s.as_str()),
            SkvsError::Unsupported(s) => text::text2("Unsupported operation: ", s.as_str()),
            SkvsError::Transaction(s) => text::text2("Transaction error: ", s.as_str()),
            SkvsError::Schema(s) => text::text2("Schema error: ", s.as_str()),
            SkvsError::Storage(s) => text::text2("Storage error: ", s.as_str()),
            SkvsError::Trigger(s) => text::text2("Trigger error: ", s.as_str()),
            SkvsError::View(s) => text::text2("View error: ", s.as_str()),
            SkvsError::Json(s) => text::text2("JSON error: ", s.as_str()),
            SkvsError::Fts(s) => text::text2("FTS error: ", s.as_str()),
        }
    }
}

pub type KvsError = SkvsError;

/// What a fallible operation gives, seen through the views.
pub open spec fn outcome<T: View>(r: Result<T, SkvsError>) -> Result<T::V, ErrorV> {
    match r {
        Ok(x) => Ok(x@),
        Err(e) => Err(e@),
    }
}

/// What an operation that gives nothing back gives.
pub open spec fn outcome_unit(r: Result<(), SkvsError>) -> Result<(), ErrorV> {
    match r {
        Ok(_) => Ok(()),
        Err(e) => Err(e@),
    }
}

} // verus!
