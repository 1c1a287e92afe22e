//! Views: queries under a name.
use vstd::prelude::*;

use crate::ast::{Statement, StatementV};
use crate::catalog;
use crate::constraint;
use crate::error;
use crate::error::{ErrorV, SkvsError};
use crate::sql::parser;
use crate::state;
use crate::state::{KvsState, StateV};

verus! {

/// What the creation of a view does: its text has to be one SELECT.
pub open spec fn view_created(s: StateV, db: u32, name: Seq<char>, query: Seq<char>) -> (StateV, Option<ErrorV>) {
    match parser::statements_in(query) {
        Err(e) => (s, Some(e)),
        Ok(stmts) => if stmts.len() != 1 {
            (s, Some(ErrorV::Unsupported("View definition must be a single SELECT"@)))
        } else {
            match stmts[0] {
                StatementV::Query(_) => (StateV { views: catalog::with(s.views, db, name, query), ..s }, None),
                _ => (s, Some(ErrorV::Unsupported("View must be a SELECT query"@))),
            }
        },
    }
}

/// Creates a view.
pub fn create_view(state: &mut KvsState, db_id: u32, view_name: &str, query: &str) -> (r: Result<(), SkvsError>)
    ensures
        (final(state)@, constraint::failure(r)) == view_created(old(state)@, db_id, view_name@, query@),
{
    let stmts = match parser::parse_statements(query) {
        Ok(stmts) => stmts,
        Err(e) => {
            return Err(e);
        },
    };
    if stmts.len() != 1 {
        return Err(SkvsError::Unsupported("View definition must be a single SELECT".to_owned()));
    }
    assert(stmts.deep_view()[0] == stmts@[0]@);
    match &stmts[0] {
        Statement::Query(_) => state.add_view(db_id, view_name, query),
        _ => Err(SkvsError::Unsupported("View must be a SELECT query".to_owned())),
    }
}

/// Drops a view.
pub fn drop_view(state: &mut KvsState, db_id: u32, view_name: &str) -> (r: Result<(), SkvsError>)
    ensures
        (final(state)@, error::outcome_unit(r)) == state::view_removed(old(state)@, db_id, view_name@),
{
    state.remove_view(db_id, view_name)
}

/// The text of a view, where the name is one.
pub fn resolve_view(state: &KvsState, db_id: u32, name: &str) -> (r: Option<String>)
    ensures
        r.deep_view() == catalog::find(state@.views, db_id, name@),
{
    state.get_view_definition(db_id, name)
}

} // verus!
