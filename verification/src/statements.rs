//! What an SQL text does: the one statement in it, in a transaction or by itself.
use vstd::prelude::*;

use crate::assoc;
use crate::ast::{Query, StatementV};
use crate::error::ErrorV;
use crate::schema::{TriggerV, ValueV};
use crate::sql;
use crate::sql::ddl;
use crate::sql::parser;
use crate::sql::select;
use crate::state;
use crate::state::StateV;
use crate::transaction;

verus! {

/// Whether a statement does its work by itself, and begins or ends no transaction.
pub open spec fn is_work(stmt: StatementV) -> bool {
    stmt != StatementV::StartTransaction && stmt != StatementV::Commit && stmt != StatementV::Rollback
}

/// Whether two states hold the same but for what is under way in transactions.
pub open spec fn same_but_transactions(a: StateV, b: StateV) -> bool {
    b == (StateV { txns: b.txns, ..a })
}

/// A text with one statement does what the statement does: in a transaction on the state as it is,
/// and by itself in a transaction of its own, of which only the work is left where it succeeds. It
/// answers what the statement answers, and fails as it fails.
pub proof fn lemma_one_statement(s: StateV, db: u32, sql: Seq<char>, stmt: StatementV, ps: Seq<ValueV>, tx: Option<u32>) -> (begun:
    StateV)
    requires
        !sql::is_trigger_text(sql),
        parser::statements_in(sql) == Ok::<Seq<StatementV>, ErrorV>(seq![stmt]),
        is_work(stmt),
    ensures
        same_but_transactions(s, begun),
        tx is Some ==> sql::executed(s, db, sql, ps, tx) == sql::ran(u64::MAX as nat, s, db, stmt, ps, tx),
        stmt is Query ==> sql::executed(s, db, sql, ps, tx) == (s, select::query_result(s, db, stmt->Query_0, ps)),
        tx is None && sql::is_write(stmt) ==> ({
            let (t, r) = sql::ran(u64::MAX as nat, begun, db, stmt, ps, Some(s.txns.next_id));
            let (u, a) = sql::executed(s, db, sql, ps, tx);
            &&& a == r
            &&& r is Ok ==> same_but_transactions(t, u)
        }),
{
    assert(seq![stmt][0] == stmt);
    let begun = StateV { txns: transaction::begun(s.txns, db), ..s };
    begun
}

/// A text with no statement or with several does nothing and fails.
pub proof fn lemma_not_one_statement(s: StateV, db: u32, sql: Seq<char>, stmts: Seq<StatementV>, ps: Seq<ValueV>, tx: Option<u32>)
    requires
        !sql::is_trigger_text(sql),
        parser::statements_in(sql) == Ok::<Seq<StatementV>, ErrorV>(stmts),
        stmts.len() != 1,
    ensures
        sql::executed(s, db, sql, ps, tx).0 == s,
        sql::executed(s, db, sql, ps, tx).1 is Err,
{
}

/// CREATE TRIGGER puts the trigger behind those of its table, and leaves those of all others.
pub proof fn lemma_create_trigger(s: StateV, db: u32, sql: Seq<char>, ps: Seq<ValueV>, tx: Option<u32>, t: TriggerV, other: Seq<char>)
    requires
        sql::is_trigger_text(sql),
        ddl::trigger_of(sql) == Some(t),
        other != t.table,
    ensures
        ({
            let (u, r) = sql::executed(s, db, sql, ps, tx);
            &&& r is Ok
            &&& state::triggers_of(u, db, t.table) == state::triggers_of(s, db, t.table).push(t)
            &&& state::triggers_of(u, db, other) == state::triggers_of(s, db, other)
            &&& u == (StateV { triggers: u.triggers, ..s })
        }),
{
    let l = state::triggers_of(s, db, t.table).push(t);
    assoc::lemma_get_put(s.triggers.items, (db, t.table), l);
    assoc::lemma_get_put_other(s.triggers.items, (db, t.table), l, (db, other));
}

} // verus!
