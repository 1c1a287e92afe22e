//! The SQL engine.
pub mod ddl;
pub mod dml;
pub mod parser;
pub mod select;

use vstd::prelude::*;

use crate::ast::{ObjectType, ObjectTypeV, Statement, StatementV};
use crate::error::{ErrorV, SkvsError};
use crate::row::RowV;
use crate::schema::{Row, Value, ValueV};
use crate::state::{KvsState, StateV};
use crate::text;
use crate::transaction;
use crate::transaction::TxnManager;
use crate::view;

verus! {

/// What a statement gives back.
#[derive(Debug)]
pub struct QueryResult {
    pub columns: Vec<String>,
    pub rows: Vec<Row>,
    pub affected_rows: Option<u64>,
    /// Set only by `BEGIN`: the new transaction's id, which the caller passes back on every
    /// later statement that belongs to the transaction.
    pub tx_id: Option<u32>,
}

/// What a result is.
pub struct ResultV {
    pub columns: Seq<Seq<char>>,
    pub rows: Seq<RowV>,
    pub affected: Option<u64>,
    pub tx: Option<u32>,
}

impl View for QueryResult {
    type V = ResultV;

    open spec fn view(&self) -> ResultV {
        ResultV {
            columns: self.columns.deep_view(),
            rows: select::rows_view(self.rows@),
            affected: self.affected_rows,
            tx: self.tx_id,
        }
    }
}

/// A result with nothing in it.
pub open spec fn no_result() -> ResultV {
    ResultV { columns: Seq::empty(), rows: Seq::empty(), affected: None, tx: None }
}

/// The result of a statement that changed `n` rows.
pub open spec fn affected_result(n: u64) -> ResultV {
    ResultV { columns: Seq::empty(), rows: Seq::empty(), affected: Some(n), tx: None }
}

/// The result of a query.
pub open spec fn rows_result(rows: Seq<RowV>, columns: Seq<Seq<char>>) -> ResultV {
    ResultV { columns, rows, affected: None, tx: None }
}

/// The result of a `BEGIN`.
pub open spec fn began_result(tx: u32) -> ResultV {
    ResultV { columns: Seq::empty(), rows: Seq::empty(), affected: None, tx: Some(tx) }
}

impl QueryResult {
    pub fn empty() -> (r: Self)
        ensures
            r@ == no_result(),
    {
        let r = QueryResult { columns: Vec::new(), rows: Vec::new(), affected_rows: None, tx_id: None };
        assert(r@.columns =~= Seq::empty());
        assert(r@.rows =~= Seq::empty());
        r
    }

    pub fn affected(n: u64) -> (r: Self)
        ensures
            r@ == affected_result(n),
    {
        let r = QueryResult { columns: Vec::new(), rows: Vec::new(), affected_rows: Some(n), tx_id: None };
        assert(r@.columns =~= Seq::empty());
        assert(r@.rows =~= Seq::empty());
        r
    }

    pub fn rows(rows: Vec<Row>, columns: Vec<String>) -> (r: Self)
        ensures
            r@ == rows_result(select::rows_view(rows@), columns.deep_view()),
    {
        QueryResult { columns, rows, affected_rows: None, tx_id: None }
    }

    pub fn began(tx_id: u32) -> (r: Self)
        ensures
            r@ == began_result(tx_id),
    {
        let r = QueryResult { columns: Vec::new(), rows: Vec::new(), affected_rows: None, tx_id: Some(tx_id) };
        assert(r@.columns =~= Seq::empty());
        assert(r@.rows =~= Seq::empty());
        r
    }
}

/// What a statement does. Triggers may run in each other at most `depth` deep.
pub open spec fn ran(depth: nat, s: StateV, db: u32, stmt: StatementV, ps: Seq<ValueV>, tx: Option<u32>) -> (
    StateV,
    Result<ResultV, ErrorV>,
)
    decreases depth, 7nat, 0int,
{
    match stmt {
        StatementV::Query(q) => (s, select::query_result(s, db, q, ps)),
        StatementV::Insert { table, columns, source } => dml::inserted(depth, s, db, table, columns, source, ps, tx),
        StatementV::Update { table, assignments, selection } => dml::updated(
            depth,
            s,
            db,
            table,
            assignments,
            selection,
            ps,
            tx,
        ),
        StatementV::Delete { table, selection } => dml::deleted(depth, s, db, table, selection, ps, tx),
        StatementV::CreateTable { name, columns, constraints, if_not_exists } => ddl::table_created(
            s,
            db,
            name,
            columns,
            constraints,
            if_not_exists,
        ),
        StatementV::AlterTable { name, if_exists, operations } => ddl::alter_result(s, db, name, if_exists, operations),
        StatementV::CreateIndex { name, table, columns, unique, if_not_exists } => ddl::index_created(
            s,
            db,
            name,
            table,
            columns,
            unique,
            if_not_exists,
        ),
        StatementV::CreateView { name, query } => ddl::done(view::view_created(s, db, name, query)),
        StatementV::CreateVirtualTable { name, if_not_exists, module_name, module_args } => ddl::fts_created(
            s,
            db,
            name,
            if_not_exists,
            module_name,
            module_args,
        ),
        StatementV::Drop { object, if_exists, names } => match object {
            ObjectTypeV::Table => ddl::done(ddl::tables_dropped(s, db, names, if_exists, names.len() as int)),
            ObjectTypeV::Index => if s.schemas.known.contains(db) {
                ddl::done(ddl::indexes_removed(s, db, names, if_exists, names.len() as int))
            } else {
                (s, Err(ddl::database_missing(db)))
            },
            ObjectTypeV::View => ddl::done(ddl::views_dropped(s, db, names, if_exists, names.len() as int)),
            ObjectTypeV::Other(t) => (s, Err(ErrorV::Unsupported("DROP "@ + t + " not implemented"@))),
        },
        StatementV::StartTransaction => (s, Err(not_a_statement())),
        StatementV::Commit => (s, Err(not_a_statement())),
        StatementV::Rollback => (s, Err(not_a_statement())),
        StatementV::Other(d) => (s, Err(ErrorV::Unsupported("Statement not implemented: "@ + d))),
    }
}

pub open spec fn not_a_statement() -> ErrorV {
    ErrorV::Unsupported("BEGIN/COMMIT/ROLLBACK must go through SqlEngine::execute, not execute_single_statement"@)
}

/// Runs a statement; triggers may run at most `depth` deep in each other.
pub fn run_within(state: &mut KvsState, db_id: u32, stmt: &Statement, params: &[Value], tx_id: Option<u32>, depth: u64) -> (r:
    Result<QueryResult, SkvsError>)
    ensures
        ddl::step(final(state)@, r) == ran(
            depth as nat,
            old(state)@,
            db_id,
            stmt@,
            params.deep_view(),
            tx_id,
        ),
    decreases depth, 7nat,
{
    match stmt {
        Statement::Query(q) => select::execute_select(state, db_id, q, params, tx_id),
        Statement::Insert { table, columns, source } => dml::insert_within(state, db_id, stmt, params, tx_id, depth),
        Statement::Update { table, assignments, selection } => dml::update_within(state, db_id, stmt, params, tx_id, depth),
        Statement::Delete { table, selection } => dml::delete_within(state, db_id, stmt, params, tx_id, depth),
        Statement::CreateTable { name, columns, constraints, if_not_exists } => ddl::create_table(state, db_id, stmt),
        Statement::AlterTable { name, if_exists, operations } => ddl::alter_table(state, db_id, stmt),
        Statement::CreateIndex { name, table, columns, unique, if_not_exists } => ddl::create_index(state, db_id, stmt),
        Statement::CreateView { name, query } => ddl::create_view(state, db_id, stmt),
        Statement::CreateVirtualTable { name, if_not_exists, module_name, module_args } => ddl::create_virtual_table(
            state,
            db_id,
            stmt,
        ),
        Statement::Drop { object, if_exists, names } => match object {
            ObjectType::Table => ddl::drop_table(state, db_id, stmt),
            ObjectType::Index => ddl::drop_index(state, db_id, stmt),
            ObjectType::View => ddl::drop_view(state, db_id, stmt),
            ObjectType::Other(t) => Err(SkvsError::Unsupported(text::text3("DROP ", t.as_str(), " not implemented"))),
        },
        Statement::StartTransaction => Err(needs_execute()),
        Statement::Commit => Err(needs_execute()),
        Statement::Rollback => Err(needs_execute()),
        Statement::Other(d) => Err(SkvsError::Unsupported(text::text2("Statement not implemented: ", d.as_str()))),
    }
}

fn needs_execute() -> (r: SkvsError)
    ensures
        r@ == not_a_statement(),
{
    SkvsError::Unsupported(
        "BEGIN/COMMIT/ROLLBACK must go through SqlEngine::execute, not execute_single_statement".to_owned(),
    )
}

/// Whether a text is a CREATE TRIGGER, which the SQL parser does not know.
pub open spec fn is_trigger_text(sql: Seq<char>) -> bool {
    text::stands_at(text::uppercase(text::trimmed_start(sql)), "CREATE TRIGGER"@, 0)
}

/// Whether a statement writes rows.
pub open spec fn is_write(stmt: StatementV) -> bool {
    stmt is Insert || stmt is Update || stmt is Delete
}

/// The state in which a transaction is over and its writes stay.
pub open spec fn committed(s: StateV, id: u32) -> StateV {
    StateV { txns: transaction::ended(s.txns, id), ..s }
}

/// What a write outside of a transaction does: all of it, or nothing but what a rollback leaves.
pub open spec fn ran_alone(s: StateV, db: u32, stmt: StatementV, ps: Seq<ValueV>) -> (StateV, Result<ResultV, ErrorV>) {
    let id = s.txns.next_id;
    let (t, r) = ran(u64::MAX as nat, StateV { txns: transaction::begun(s.txns, db), ..s }, db, stmt, ps, Some(id));
    match r {
        Ok(x) => (committed(t, id), Ok(x)),
        Err(e) => (
            if t.txns.active.contains_key(id) {
                transaction::rolled_back(t, id)
            } else {
                committed(t, id)
            },
            Err(e),
        ),
    }
}

/// What one statement does.
pub open spec fn executed_statement(s: StateV, db: u32, stmt: StatementV, ps: Seq<ValueV>, tx: Option<u32>) -> (
    StateV,
    Result<ResultV, ErrorV>,
) {
    match stmt {
        StatementV::StartTransaction => (
            StateV { txns: transaction::begun(s.txns, db), ..s },
            Ok(began_result(s.txns.next_id)),
        ),
        StatementV::Commit => match tx {
            None => (s, Err(ErrorV::Transaction("COMMIT with no active transaction id"@))),
            Some(id) => (
                committed(s, id),
                if s.txns.active.contains_key(id) {
                    Ok(no_result())
                } else {
                    Err(transaction::no_transaction(id))
                },
            ),
        },
        StatementV::Rollback => match tx {
            None => (s, Err(ErrorV::Transaction("ROLLBACK with no active transaction id"@))),
            Some(id) => if s.txns.active.contains_key(id) {
                (transaction::rolled_back(s, id), Ok(no_result()))
            } else {
                (committed(s, id), Err(transaction::no_transaction(id)))
            },
        },
        _ => if tx is None && is_write(stmt) {
            ran_alone(s, db, stmt, ps)
        } else {
            ran(u64::MAX as nat, s, db, stmt, ps, tx)
        },
    }
}

/// What an SQL text does: it holds one statement.
pub open spec fn executed(s: StateV, db: u32, sql: Seq<char>, ps: Seq<ValueV>, tx: Option<u32>) -> (
    StateV,
    Result<ResultV, ErrorV>,
) {
    if is_trigger_text(sql) {
        ddl::trigger_created(s, db, sql)
    } else {
        match parser::statements_in(sql) {
            Err(e) => (s, Err(e)),
            Ok(stmts) => if stmts.len() != 1 {
                (s, Err(ErrorV::Unsupported("Multiple statements not supported"@)))
            } else {
                executed_statement(s, db, stmts[0], ps, tx)
            },
        }
    }
}

fn looks_like_trigger(sql: &str) -> (r: bool)
    ensures
        r == is_trigger_text(sql@),
{
    let t = text::trim_start(sql);
    let upper = text::chars_of(text::to_upper(t.as_str()).as_str());
    let start = text::chars_of("CREATE TRIGGER");
    text::stands(&upper, &start, 0)
}

/// To end a transaction that is not under way changes nothing.
proof fn lemma_nothing_ended(s: StateV, id: u32)
    requires
        !s.txns.active.contains_key(id),
    ensures
        committed(s, id) == s,
{
    assert(transaction::ended(s.txns, id).active =~= s.txns.active);
}

fn run_alone(state: &mut KvsState, db_id: u32, stmt: &Statement, params: &[Value]) -> (r: Result<QueryResult, SkvsError>)
    ensures
        ddl::step(final(state)@, r) == ran_alone(old(state)@, db_id, stmt@, params.deep_view()),
{
    let shadow: u32 = state.txns.begin(db_id);
    match run_within(state, db_id, stmt, params, Some(shadow), u64::MAX) {
        Ok(result) => {
            let _ = state.txns.commit(shadow);
            Ok(result)
        },
        Err(e) => {
            proof {
                if !state@.txns.active.contains_key(shadow) {
                    lemma_nothing_ended(state@, shadow);
                }
            }
            let _ = TxnManager::rollback(state, shadow);
            Err(e)
        },
    }
}

fn run_statement(state: &mut KvsState, db_id: u32, stmt: &Statement, params: &[Value], tx_id: Option<u32>) -> (r: Result<
    QueryResult,
    SkvsError,
>)
    ensures
        ddl::step(final(state)@, r) == executed_statement(old(state)@, db_id, stmt@, params.deep_view(), tx_id),
{
    match stmt {
        Statement::StartTransaction => {
            let id: u32 = state.txns.begin(db_id);
            return Ok(QueryResult::began(id));
        },
        Statement::Commit => {
            return match tx_id {
                None => Err(SkvsError::Transaction("COMMIT with no active transaction id".to_owned())),
                Some(id) => match state.txns.commit(id) {
                    Ok(_) => Ok(QueryResult::empty()),
                    Err(e) => Err(e),
                },
            };
        },
        Statement::Rollback => {
            proof {
                match tx_id {
                    Some(id) => if !state@.txns.active.contains_key(id) {
                        lemma_nothing_ended(state@, id);
                    },
                    None => {},
                }
            }
            return match tx_id {
                None => Err(SkvsError::Transaction("ROLLBACK with no active transaction id".to_owned())),
                Some(id) => match TxnManager::rollback(state, id) {
                    Ok(_) => Ok(QueryResult::empty()),
                    Err(e) => Err(e),
                },
            };
        },
        _ => {},
    }
    let writes: bool = match stmt {
        Statement::Insert { table, columns, source } => true,
        Statement::Update { table, assignments, selection } => true,
        Statement::Delete { table, selection } => true,
        _ => false,
    };
    if tx_id.is_none() && writes {
        run_alone(state, db_id, stmt, params)
    } else {
        run_within(state, db_id, stmt, params, tx_id, u64::MAX)
    }
}

/// The engine that runs SQL.
pub struct SqlEngine;

impl SqlEngine {
    /// Runs one SQL statement. A write that is not part of a transaction takes effect as a
    /// whole or not at all.
    pub fn execute(state: &mut KvsState, db_id: u32, sql: &str, params: &[Value], tx_id: Option<u32>) -> (r: Result<
        QueryResult,
        SkvsError,
    >)
        ensures
            ddl::step(final(state)@, r) == executed(old(state)@, db_id, sql@, params.deep_view(), tx_id),
    {
        if looks_like_trigger(sql) {
            return ddl::create_trigger(state, db_id, sql);
        }
        let stmts = match parser::parse_statements(sql) {
            Ok(stmts) => stmts,
            Err(e) => {
                return Err(e);
            },
        };
        if stmts.len() != 1 {
            return Err(SkvsError::Unsupported("Multiple statements not supported".to_owned()));
        }
        assert(stmts.deep_view()[0] == stmts@[0]@);
        run_statement(state, db_id, &stmts[0], params, tx_id)
    }

    /// Runs a statement that is already read.
    pub fn execute_single_statement(
        state: &mut KvsState,
        db_id: u32,
        stmt: Statement,
        params: &[Value],
        tx_id: Option<u32>,
    ) -> (r: Result<QueryResult, SkvsError>)
        ensures
            ddl::step(final(state)@, r) == ran(
                u64::MAX as nat,
                old(state)@,
                db_id,
                stmt@,
                params.deep_view(),
                tx_id,
            ),
    {
        run_within(state, db_id, &stmt, params, tx_id, u64::MAX)
    }
}

} // verus!
