//! The error kinds of statement preparation and execution.
use crate::cursor::CursorError;
use crate::table::TableError;
use vstd::prelude::*;

verus! {

#[derive(Debug)]
pub enum MetaCommandError {
    Unrecognized(String),
}

#[derive(Debug)]
pub enum PrepareError {
    SyntaxError,
    StringTooLong,
    NegativeId,
    Unrecognized(String),
}

#[derive(Debug)]
pub enum ExecuteError {
    TableFull,
    PageNotFound,
    DuplicateKey,
    TableError(TableError),
    CursorError(CursorError),
}

impl ExecuteError {
    /// Whether the error ends the session: only a full table and a duplicate key do not.
    pub fn is_fatal(&self) -> (r: bool)
        ensures
            r == !(self is TableFull || self is DuplicateKey),
    {
        match self {
            ExecuteError::TableFull => false,
            ExecuteError::PageNotFound => true,
            ExecuteError::DuplicateKey => false,
            ExecuteError::TableError(_) => true,
            ExecuteError::CursorError(_) => true,
        }
    }
}

} // verus!
