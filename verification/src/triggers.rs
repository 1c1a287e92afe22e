//! Triggers: statements that run when the rows of a table change.
use vstd::prelude::*;

use crate::assoc;
use crate::ast::{Statement, StatementV};
use crate::codec;
use crate::constraint;
use crate::decimal;
use crate::error::{ErrorV, SkvsError};
use crate::row;
use crate::row::RowV;
use crate::schema::{Row, TriggerDef, TriggerEvent, TriggerTiming, TriggerV, Value, ValueV};
use crate::sql;
use crate::sql::parser;
use crate::sql::select;
use crate::state;
use crate::state::{KvsState, StateV};
use crate::text;

verus! {

/// A value as it is written in SQL.
pub open spec fn literal_text(v: ValueV) -> Seq<char> {
    match v {
        ValueV::Null => "NULL"@,
        ValueV::Integer(i) => text::int_text(i as int),
        ValueV::Real(b) => decimal::real_text(b),
        ValueV::Text(s) => "'"@ + text::replaced(s, "'"@, "''"@) + "'"@,
        ValueV::Blob(b) => "X'"@ + codec::hex_text(b) + "'"@,
    }
}

fn value_to_sql_literal(v: &Value) -> (r: String)
    ensures
        r@ == literal_text(v@),
{
    match v {
        Value::Null => "NULL".to_owned(),
        Value::Integer(i) => text::int_to_text(*i),
        Value::Real(x) => decimal::real_to_text(*x),
        Value::Text(s) => {
            let t = text::replace_text(s.as_str(), "'", "''");
            text::text3("'", t.as_str(), "'")
        },
        Value::Blob(b) => {
            let t = codec::hex_encode(b);
            text::text3("X'", t.as_str(), "'")
        },
    }
}

/// Whether a character can stand in a name.
pub open spec fn in_name(c: char) -> bool {
    text::is_digit(c) || 'a' <= c <= 'z' || 'A' <= c <= 'Z' || c == '_' || c >= '\u{80}'
}

fn can_stand_in_name(c: char) -> (r: bool)
    ensures
        r == in_name(c),
{
    ('0' <= c && c <= '9') || ('a' <= c && c <= 'z') || ('A' <= c && c <= 'Z') || c == '_' || c >= '\u{80}'
}

/// Whether a pattern stands at a place of a text as a whole name: no name goes on before or behind
/// it.
pub open spec fn whole_at(s: Seq<char>, pat: Seq<char>, i: int) -> bool {
    &&& pat.len() > 0
    &&& text::stands_at(s, pat, i)
    &&& i == 0 || !in_name(s[i - 1])
    &&& i + pat.len() == s.len() || !in_name(s[i + pat.len()])
}

/// The references to the columns of a row behind a prefix, each with its value.
pub open spec fn row_references(prefix: Seq<char>, row: Option<RowV>) -> Seq<(Seq<char>, Seq<char>)> {
    match row {
        Some(r) => Seq::new(r.len(), |k: int| (prefix + r[k].0, literal_text(r[k].1))),
        None => Seq::empty(),
    }
}

/// The references that a trigger can make: `OLD.column` and `NEW.column`.
pub open spec fn references(old_row: Option<RowV>, new_row: Option<RowV>) -> Seq<(Seq<char>, Seq<char>)> {
    row_references("OLD."@, old_row) + row_references("NEW."@, new_row)
}

/// The reference, from the `k`-th on, that stands at a place of a text.
pub open spec fn reference_at(s: Seq<char>, refs: Seq<(Seq<char>, Seq<char>)>, i: int, k: int) -> Option<int>
    decreases refs.len() - k,
{
    if k < 0 || k >= refs.len() {
        None
    } else if whole_at(s, refs[k].0, i) {
        Some(k)
    } else {
        reference_at(s, refs, i, k + 1)
    }
}

/// A text from `i` on with the values of the references that stand in it.
pub open spec fn filled_from(s: Seq<char>, refs: Seq<(Seq<char>, Seq<char>)>, i: int) -> Seq<char>
    decreases s.len() - i,
{
    if i < 0 || i >= s.len() {
        Seq::empty()
    } else {
        match reference_at(s, refs, i, 0) {
            Some(k) => if 0 <= k < refs.len() && 0 < refs[k].0.len() <= s.len() - i {
                refs[k].1 + filled_from(s, refs, i + refs[k].0.len())
            } else {
                Seq::empty()
            },
            None => seq![s[i]] + filled_from(s, refs, i + 1),
        }
    }
}

/// The statements of a trigger for given rows: `OLD.column` and `NEW.column` are their values.
pub open spec fn body_text(body: Seq<char>, old_row: Option<RowV>, new_row: Option<RowV>) -> Seq<char> {
    filled_from(body, references(old_row, new_row), 0)
}

/// A reference and its value.
struct Reference {
    pattern: Vec<char>,
    value: Vec<char>,
}

spec fn reference_views(v: Seq<Reference>) -> Seq<(Seq<char>, Seq<char>)> {
    Seq::new(v.len(), |k: int| (v[k].pattern@, v[k].value@))
}

fn add_references(out: &mut Vec<Reference>, prefix: &str, row: Option<&Row>)
    ensures
        reference_views(final(out)@) == reference_views(old(out)@) + row_references(prefix@, row_opt(row)),
{
    let ghost start = reference_views(out@);
    let ghost all = row_references(prefix@, row_opt(row));
    match row {
        Some(r) => {
            let n: usize = row::row_len(r);
            let mut i: usize = 0;
            assert(start + all.take(0) =~= start);
            while i < n
                invariant
                    i <= n,
                    n == row::cells(*r).len(),
                    all == row_references(prefix@, Some(row::cells(*r))),
                    reference_views(out@) == start + all.take(i as int),
                decreases n - i,
            {
                let ghost before = reference_views(out@);
                match row::row_at(r, i) {
                    Some((k, v)) => {
                        let p = text::text2(prefix, k.as_str());
                        let t = value_to_sql_literal(v);
                        out.push(Reference { pattern: text::chars_of(p.as_str()), value: text::chars_of(t.as_str()) });
                        assert(all[i as int] == (p@, t@));
                        assert(reference_views(out@) =~= before.push((p@, t@)));
                        assert(reference_views(out@) =~= start + all.take(i + 1));
                    },
                    None => {},
                }
                i = i + 1;
            }
            assert(all.take(all.len() as int) =~= all);
        },
        None => {
            assert(start + all =~= start);
        },
    }
}

fn find_reference(s: &Vec<char>, refs: &Vec<Reference>, i: usize) -> (r: Option<usize>)
    requires
        i < s@.len(),
    ensures
        match r {
            Some(k) => k < refs@.len() && reference_at(s@, reference_views(refs@), i as int, 0) == Some(k as int) && whole_at(
                s@,
                refs@[k as int].pattern@,
                i as int,
            ),
            None => reference_at(s@, reference_views(refs@), i as int, 0) is None,
        },
{
    let ghost rv = reference_views(refs@);
    let mut k: usize = 0;
    while k < refs.len()
        invariant
            k <= refs@.len(),
            i < s@.len(),
            rv == reference_views(refs@),
            reference_at(s@, rv, i as int, k as int) == reference_at(s@, rv, i as int, 0),
        decreases refs@.len() - k,
    {
        assert(rv[k as int].0 == refs@[k as int].pattern@);
        let n: usize = refs[k].pattern.len();
        if n > 0 && text::stands(s, &refs[k].pattern, i) {
            let before: bool = i > 0 && can_stand_in_name(s[i - 1]);
            let behind: bool = n < s.len() - i && can_stand_in_name(s[i + n]);
            if !before && !behind {
                return Some(k);
            }
        }
        k = k + 1;
    }
    None
}

/// What a row is that may be missing.
pub open spec fn row_opt(r: Option<&Row>) -> Option<RowV> {
    match r {
        Some(row) => Some(row::cells(*row)),
        None => None,
    }
}

fn substitute_trigger_variables(body: &str, old_row: Option<&Row>, new_row: Option<&Row>) -> (r: String)
    ensures
        r@ == body_text(body@, row_opt(old_row), row_opt(new_row)),
{
    let mut refs: Vec<Reference> = Vec::new();
    assert(reference_views(refs@) =~= Seq::empty());
    add_references(&mut refs, "OLD.", old_row);
    add_references(&mut refs, "NEW.", new_row);
    let ghost rv = references(row_opt(old_row), row_opt(new_row));
    assert(reference_views(refs@) =~= rv);
    let s = text::chars_of(body);
    let mut out: Vec<char> = Vec::new();
    let mut i: usize = 0;
    assert(out@ + filled_from(s@, rv, 0) =~= filled_from(s@, rv, 0));
    while i < s.len()
        invariant
            i <= s@.len(),
            rv == reference_views(refs@),
            out@ + filled_from(s@, rv, i as int) == filled_from(s@, rv, 0),
        decreases s@.len() - i,
    {
        let ghost before = out@;
        match find_reference(&s, &refs, i) {
            Some(k) => {
                assert(rv[k as int] == (refs@[k as int].pattern@, refs@[k as int].value@));
                let n: usize = refs[k].pattern.len();
                let ghost rest = filled_from(s@, rv, i + n);
                let mut j: usize = 0;
                assert(before + refs@[k as int].value@.take(0) =~= before);
                while j < refs[k].value.len()
                    invariant
                        k < refs@.len(),
                        j <= refs@[k as int].value@.len(),
                        out@ == before + refs@[k as int].value@.take(j as int),
                    decreases refs@[k as int].value@.len() - j,
                {
                    out.push(refs[k].value[j]);
                    assert(out@ =~= before + refs@[k as int].value@.take(j + 1));
                    j = j + 1;
                }
                assert(refs@[k as int].value@.take(j as int) =~= refs@[k as int].value@);
                assert(out@ + rest =~= before + (refs@[k as int].value@ + rest));
                i = i + n;
            },
            None => {
                let ghost rest = filled_from(s@, rv, i + 1);
                out.push(s[i]);
                assert(out@ + rest =~= before + (seq![s@[i as int]] + rest));
                i = i + 1;
            },
        }
    }
    assert(out@ + filled_from(s@, rv, i as int) =~= out@);
    text::string_of(&out)
}

/// A row with the first `n` cells of another added behind a prefix.
pub open spec fn prefixed(into: RowV, prefix: Seq<char>, row: RowV, n: int) -> RowV
    decreases n,
{
    if n <= 0 || n > row.len() {
        into
    } else {
        assoc::assoc_put(prefixed(into, prefix, row, n - 1), prefix + row[n - 1].0, row[n - 1].1)
    }
}

/// The row that a trigger's condition sees.
pub open spec fn condition_row(old_row: Option<RowV>, new_row: Option<RowV>) -> RowV {
    let a = match old_row {
        Some(r) => prefixed(Seq::empty(), "OLD."@, r, r.len() as int),
        None => Seq::empty(),
    };
    match new_row {
        Some(r) => prefixed(a, "NEW."@, r, r.len() as int),
        None => a,
    }
}

fn add_prefixed(into: &mut Row, prefix: &str, row: &Row)
    ensures
        row::cells(*final(into)) == prefixed(row::cells(*old(into)), prefix@, row::cells(*row), row::cells(*row).len() as int),
{
    let ghost start = row::cells(*into);
    let n: usize = row::row_len(row);
    let mut i: usize = 0;
    while i < n
        invariant
            i <= n,
            n == row::cells(*row).len(),
            row::cells(*into) == prefixed(start, prefix@, row::cells(*row), i as int),
        decreases n - i,
    {
        match row::row_at(row, i) {
            Some((k, v)) => row::row_put(into, text::text2(prefix, k.as_str()), v.clone()),
            None => {},
        }
        i = i + 1;
    }
}

fn read_condition_row(old_row: Option<&Row>, new_row: Option<&Row>) -> (r: Row)
    ensures
        row::cells(r) == condition_row(row_opt(old_row), row_opt(new_row)),
{
    let mut out = row::row_new();
    match old_row {
        Some(row) => add_prefixed(&mut out, "OLD.", row),
        None => {},
    }
    match new_row {
        Some(row) => add_prefixed(&mut out, "NEW.", row),
        None => {},
    }
    out
}

/// Whether a trigger fires: its condition, where it has one, holds of the rows.
pub open spec fn fires(s: StateV, db: u32, t: TriggerV, old_row: Option<RowV>, new_row: Option<RowV>) -> Result<
    bool,
    ErrorV,
> {
    match t.condition {
        Some(c) => match parser::expression_in(c) {
            Ok(e) => Ok(select::holds(s.fts, db, condition_row(old_row, new_row), e, Seq::empty(), 0).0),
            Err(x) => Err(x),
        },
        None => Ok(true),
    }
}

fn does_fire(state: &KvsState, db_id: u32, t: &TriggerDef, old_row: Option<&Row>, new_row: Option<&Row>) -> (r: Result<
    bool,
    SkvsError,
>)
    ensures
        match r {
            Ok(b) => fires(state@, db_id, t@, row_opt(old_row), row_opt(new_row)) == Ok::<bool, ErrorV>(b),
            Err(e) => fires(state@, db_id, t@, row_opt(old_row), row_opt(new_row)) == Err::<bool, ErrorV>(e@),
        },
{
    match &t.condition {
        Some(c) => match parser::parse_expression(c.as_str()) {
            Ok(e) => {
                let row = read_condition_row(old_row, new_row);
                let empty: Vec<Value> = Vec::new();
                assert(empty.deep_view() =~= Seq::empty());
                let mut idx: usize = 0;
                Ok(select::evaluate_where_ctx(state, db_id, &row, &e, empty.as_slice(), &mut idx))
            },
            Err(e) => Err(e),
        },
        None => Ok(true),
    }
}

pub open spec fn nested_too_deep() -> ErrorV {
    ErrorV::Trigger("Triggers are nested too deep"@)
}

/// What one trigger does on a change of a row. Triggers may run in each other at most `depth`
/// deep.
pub open spec fn fired_one(
    depth: nat,
    s: StateV,
    db: u32,
    t: TriggerV,
    old_row: Option<RowV>,
    new_row: Option<RowV>,
    tx: Option<u32>,
) -> (StateV, Option<ErrorV>)
    decreases depth, 0nat, 0int,
{
    match fires(s, db, t, old_row, new_row) {
        Err(x) => (s, Some(x)),
        Ok(false) => (s, None),
        Ok(true) => match parser::statements_in(body_text(t.body, old_row, new_row)) {
            Err(x) => (s, Some(x)),
            Ok(stmts) => if depth == 0 {
                (s, Some(nested_too_deep()))
            } else {
                ran_upto((depth - 1) as nat, s, db, stmts, tx, stmts.len() as int)
            },
        },
    }
}

/// What a trigger of a table does on a change of a row: nothing where it is for another event
/// or another time.
pub open spec fn fired_listed(
    depth: nat,
    s: StateV,
    db: u32,
    t: TriggerV,
    event: TriggerEvent,
    timing: TriggerTiming,
    old_row: Option<RowV>,
    new_row: Option<RowV>,
    tx: Option<u32>,
) -> (StateV, Option<ErrorV>)
    decreases depth, 1nat, 0int,
{
    if t.event == event && t.timing == timing {
        fired_one(depth, s, db, t, old_row, new_row, tx)
    } else {
        (s, None)
    }
}

/// What the first `n` triggers of a list do on a change of a row.
pub open spec fn fired_upto(
    depth: nat,
    s: StateV,
    db: u32,
    ts: Seq<TriggerV>,
    event: TriggerEvent,
    timing: TriggerTiming,
    old_row: Option<RowV>,
    new_row: Option<RowV>,
    tx: Option<u32>,
    n: int,
) -> (StateV, Option<ErrorV>)
    decreases depth, 2nat, n,
{
    if n <= 0 || n > ts.len() {
        (s, None)
    } else {
        let (p, e) = fired_upto(depth, s, db, ts, event, timing, old_row, new_row, tx, n - 1);
        if e is Some {
            (p, e)
        } else {
            fired_listed(depth, p, db, ts[n - 1], event, timing, old_row, new_row, tx)
        }
    }
}

/// What the triggers of a table do on a change of a row.
pub open spec fn fired(
    depth: nat,
    s: StateV,
    db: u32,
    table: Seq<char>,
    event: TriggerEvent,
    timing: TriggerTiming,
    old_row: Option<RowV>,
    new_row: Option<RowV>,
    tx: Option<u32>,
) -> (StateV, Option<ErrorV>)
    decreases depth, 3nat, 0int,
{
    let ts = state::triggers_of(s, db, table);
    fired_upto(depth, s, db, ts, event, timing, old_row, new_row, tx, ts.len() as int)
}

/// What the first `n` statements of a trigger do.
pub open spec fn ran_upto(depth: nat, s: StateV, db: u32, stmts: Seq<StatementV>, tx: Option<u32>, n: int) -> (
    StateV,
    Option<ErrorV>,
)
    decreases depth, 8nat, n,
{
    if n <= 0 || n > stmts.len() {
        (s, None)
    } else {
        let (p, e) = ran_upto(depth, s, db, stmts, tx, n - 1);
        if e is Some {
            (p, e)
        } else {
            let (q, r) = sql::ran(depth, p, db, stmts[n - 1], Seq::empty(), tx);
            match r {
                Ok(_) => (q, None),
                Err(x) => (q, Some(x)),
            }
        }
    }
}

proof fn lemma_fire_fails(
    depth: nat,
    s: StateV,
    db: u32,
    ts: Seq<TriggerV>,
    event: TriggerEvent,
    timing: TriggerTiming,
    old_row: Option<RowV>,
    new_row: Option<RowV>,
    tx: Option<u32>,
    m: int,
    n: int,
)
    requires
        0 <= m <= n <= ts.len(),
        fired_upto(depth, s, db, ts, event, timing, old_row, new_row, tx, m).1 is Some,
    ensures
        fired_upto(depth, s, db, ts, event, timing, old_row, new_row, tx, n) == fired_upto(
            depth,
            s,
            db,
            ts,
            event,
            timing,
            old_row,
            new_row,
            tx,
            m,
        ),
    decreases n,
{
    if m < n {
        lemma_fire_fails(depth, s, db, ts, event, timing, old_row, new_row, tx, m, n - 1);
    }
}

proof fn lemma_run_fails(depth: nat, s: StateV, db: u32, stmts: Seq<StatementV>, tx: Option<u32>, m: int, n: int)
    requires
        0 <= m <= n <= stmts.len(),
        ran_upto(depth, s, db, stmts, tx, m).1 is Some,
    ensures
        ran_upto(depth, s, db, stmts, tx, n) == ran_upto(depth, s, db, stmts, tx, m),
    decreases n,
{
    if m < n {
        lemma_run_fails(depth, s, db, stmts, tx, m, n - 1);
    }
}

fn run_all(state: &mut KvsState, db_id: u32, stmts: &Vec<Statement>, tx_id: Option<u32>, depth: u64) -> (r: Result<
    (),
    SkvsError,
>)
    ensures
        (final(state)@, constraint::failure(r)) == ran_upto(
            depth as nat,
            old(state)@,
            db_id,
            stmts.deep_view(),
            tx_id,
            stmts@.len() as int,
        ),
    decreases depth, 8nat,
{
    let ghost start = state@;
    let ghost sv = stmts.deep_view();
    let empty: Vec<Value> = Vec::new();
    assert(empty.deep_view() =~= Seq::empty());
    let mut i: usize = 0;
    while i < stmts.len()
        invariant
            i <= stmts@.len(),
            sv == stmts.deep_view(),
            sv.len() == stmts@.len(),
            start == old(state)@,
            empty.deep_view() == Seq::<ValueV>::empty(),
            (state@, None::<ErrorV>) == ran_upto(depth as nat, start, db_id, sv, tx_id, i as int),
        decreases stmts@.len() - i,
    {
        assert(sv[i as int] == stmts@[i as int]@);
        match sql::run_within(state, db_id, &stmts[i], empty.as_slice(), tx_id, depth) {
            Ok(_) => {},
            Err(e) => {
                proof {
                    lemma_run_fails(depth as nat, start, db_id, sv, tx_id, i + 1, sv.len() as int);
                }
                return Err(e);
            },
        }
        i = i + 1;
    }
    Ok(())
}

fn fire_one(
    state: &mut KvsState,
    db_id: u32,
    t: &TriggerDef,
    old_row: Option<&Row>,
    new_row: Option<&Row>,
    tx_id: Option<u32>,
    depth: u64,
) -> (r: Result<(), SkvsError>)
    ensures
        (final(state)@, constraint::failure(r)) == fired_one(
            depth as nat,
            old(state)@,
            db_id,
            t@,
            row_opt(old_row),
            row_opt(new_row),
            tx_id,
        ),
    decreases depth, 0nat,
{
    match does_fire(state, db_id, t, old_row, new_row) {
        Err(e) => Err(e),
        Ok(yes) => {
            if !yes {
                return Ok(());
            }
            let body = substitute_trigger_variables(t.body.as_str(), old_row, new_row);
            match parser::parse_statements(body.as_str()) {
                Err(e) => Err(e),
                Ok(stmts) => {
                    if depth == 0 {
                        return Err(SkvsError::Trigger("Triggers are nested too deep".to_owned()));
                    }
                    run_all(state, db_id, &stmts, tx_id, depth - 1)
                },
            }
        },
    }
}

fn fire_listed(
    state: &mut KvsState,
    db_id: u32,
    t: &TriggerDef,
    event: TriggerEvent,
    timing: TriggerTiming,
    old_row: Option<&Row>,
    new_row: Option<&Row>,
    tx_id: Option<u32>,
    depth: u64,
) -> (r: Result<(), SkvsError>)
    ensures
        (final(state)@, constraint::failure(r)) == fired_listed(
            depth as nat,
            old(state)@,
            db_id,
            t@,
            event,
            timing,
            row_opt(old_row),
            row_opt(new_row),
            tx_id,
        ),
    decreases depth, 1nat,
{
    if t.event == event && t.timing == timing {
        fire_one(state, db_id, t, old_row, new_row, tx_id, depth)
    } else {
        Ok(())
    }
}

proof fn lemma_fire_next(
    depth: nat,
    s: StateV,
    db: u32,
    ts: Seq<TriggerV>,
    event: TriggerEvent,
    timing: TriggerTiming,
    old_row: Option<RowV>,
    new_row: Option<RowV>,
    tx: Option<u32>,
    p: StateV,
    i: int,
)
    requires
        0 <= i < ts.len(),
        fired_upto(depth, s, db, ts, event, timing, old_row, new_row, tx, i) == (p, None::<ErrorV>),
    ensures
        fired_upto(depth, s, db, ts, event, timing, old_row, new_row, tx, i + 1) == fired_listed(
            depth,
            p,
            db,
            ts[i],
            event,
            timing,
            old_row,
            new_row,
            tx,
        ),
{
}

#[verifier::spinoff_prover]
#[verifier::rlimit(50)]
fn fire_list(
    state: &mut KvsState,
    db_id: u32,
    list: &Vec<TriggerDef>,
    event: TriggerEvent,
    timing: TriggerTiming,
    old_row: Option<&Row>,
    new_row: Option<&Row>,
    tx_id: Option<u32>,
    depth: u64,
) -> (r: Result<(), SkvsError>)
    ensures
        (final(state)@, constraint::failure(r)) == fired_upto(
            depth as nat,
            old(state)@,
            db_id,
            list.deep_view(),
            event,
            timing,
            row_opt(old_row),
            row_opt(new_row),
            tx_id,
            list@.len() as int,
        ),
    decreases depth, 2nat,
{
    let ghost start = state@;
    let ghost ov = row_opt(old_row);
    let ghost nv = row_opt(new_row);
    let ghost ts = list.deep_view();
    let mut i: usize = 0;
    while i < list.len()
        invariant
            i <= list@.len(),
            ts == list.deep_view(),
            ov == row_opt(old_row),
            nv == row_opt(new_row),
            start == old(state)@,
            fired_upto(depth as nat, start, db_id, ts, event, timing, ov, nv, tx_id, i as int) == (
                state@,
                None::<ErrorV>,
            ),
        decreases list@.len() - i,
    {
        assert(ts[i as int] == list@[i as int]@);
        proof {
            lemma_fire_next(depth as nat, start, db_id, ts, event, timing, ov, nv, tx_id, state@, i as int);
        }
        let r = fire_listed(state, db_id, &list[i], event, timing, old_row, new_row, tx_id, depth);
        i = i + 1;
        assert(fired_upto(depth as nat, start, db_id, ts, event, timing, ov, nv, tx_id, i as int) == (
            state@,
            constraint::failure(r),
        ));
        if r.is_err() {
            proof {
                lemma_fire_fails(
                    depth as nat,
                    start,
                    db_id,
                    ts,
                    event,
                    timing,
                    ov,
                    nv,
                    tx_id,
                    i as int,
                    ts.len() as int,
                );
            }
            return r;
        }
    }
    Ok(())
}

/// Runs the triggers of a table for a change of a row, at most `depth` deep in each other.
pub fn fire_within(
    state: &mut KvsState,
    db_id: u32,
    table: &str,
    event: TriggerEvent,
    timing: TriggerTiming,
    old_row: Option<&Row>,
    new_row: Option<&Row>,
    tx_id: Option<u32>,
    depth: u64,
) -> (r: Result<(), SkvsError>)
    ensures
        (final(state)@, constraint::failure(r)) == fired(
            depth as nat,
            old(state)@,
            db_id,
            table@,
            event,
            timing,
            row_opt(old_row),
            row_opt(new_row),
            tx_id,
        ),
    decreases depth, 3nat,
{
    let list = state.get_triggers(db_id, table);
    fire_list(state, db_id, &list, event, timing, old_row, new_row, tx_id, depth)
}

/// Runs the triggers of a table for a change of a row.
pub fn fire_triggers(
    state: &mut KvsState,
    db_id: u32,
    table: &str,
    event: TriggerEvent,
    timing: TriggerTiming,
    old_row: Option<&Row>,
    new_row: Option<&Row>,
    tx_id: Option<u32>,
) -> (r: Result<(), SkvsError>)
    ensures
        (final(state)@, constraint::failure(r)) == fired(
            u64::MAX as nat,
            old(state)@,
            db_id,
            table@,
            event,
            timing,
            row_opt(old_row),
            row_opt(new_row),
            tx_id,
        ),
{
    fire_within(state, db_id, table, event, timing, old_row, new_row, tx_id, u64::MAX)
}

} // verus!
