//! What a table asks of its rows: NOT NULL, UNIQUE and PRIMARY KEY, FOREIGN KEY, and CHECK.
use vstd::prelude::*;

use crate::assoc;
use crate::ast::{ExprV, SelectItem, SelectItemV, SetExpr, SetExprV, Statement, StatementV};
use crate::error::{ErrorV, SkvsError};
use crate::expr;
use crate::expr::EvalCtx;
use crate::index;
use crate::row;
use crate::row::RowV;
use crate::schema;
use crate::schema::{ColumnV, ForeignKeyDef, ForeignKeyV, Row, RowId, SchemaV, TableSchema, UniqueGroup, UniqueV, Value, ValueV};
use crate::sql::parser;
use crate::sql::select;
use crate::state;
use crate::state::{KvsState, StateV};
use crate::store;
use crate::text;

verus! {

pub open spec fn violation(message: Seq<char>) -> ErrorV {
    ErrorV::ConstraintViolation(message)
}

/// Whether a row has the given values in the given columns.
pub open spec fn has_values(row: RowV, columns: Seq<Seq<char>>, values: Seq<ValueV>) -> bool {
    forall|i: int|
        0 <= i < columns.len() && i < values.len() ==> match assoc::assoc_get(row, #[trigger] columns[i]) {
            Some(w) => schema::same_value(w, values[i]),
            None => false,
        }
}

/// Whether a row other than the excluded one has the given values in the given columns.
pub open spec fn other_has(m: Map<u64, RowV>, columns: Seq<Seq<char>>, values: Seq<ValueV>, exclude: u64) -> bool {
    exists|id: u64| #[trigger] m.contains_key(id) && id != exclude && has_values(m[id], columns, values)
}

/// The rows among which a combination of values is looked for: those that an index on the one
/// column offers, where there is one, else all.
pub open spec fn searched(s: StateV, db: u32, d: SchemaV, m: Map<u64, RowV>, columns: Seq<Seq<char>>, values: Seq<ValueV>) -> Map<
    u64,
    RowV,
> {
    if columns.len() == 1 && values.len() == 1 {
        match select::index_on(d.indices, columns[0], 0) {
            Some(name) => m.restrict(index::index_ids(state::index_of(s, db, d.name, name), values[0]).to_set()),
            None => m,
        }
    } else {
        m
    }
}

/// Whether another row of a table has the given values in the given columns.
pub open spec fn taken(
    s: StateV,
    db: u32,
    d: SchemaV,
    columns: Seq<Seq<char>>,
    values: Seq<ValueV>,
    exclude: u64,
) -> bool {
    match state::table_rows(s, db, d.name) {
        Some(m) => other_has(searched(s, db, d, m, columns, values), columns, values, exclude),
        None => false,
    }
}

/// The first NOT NULL column from the `k`-th on that a row leaves out.
pub open spec fn null_violation(columns: Seq<(Seq<char>, ColumnV)>, row: RowV, k: int) -> Option<ErrorV>
    decreases columns.len() - k,
{
    if k < 0 || k >= columns.len() {
        None
    } else if columns[k].1.not_null && is_missing(row, columns[k].0) {
        Some(violation(columns[k].0 + " cannot be NULL"@))
    } else {
        null_violation(columns, row, k + 1)
    }
}

/// Whether a row has no value in a column.
pub open spec fn is_missing(row: RowV, column: Seq<char>) -> bool {
    match assoc::assoc_get(row, column) {
        Some(v) => v == ValueV::Null,
        None => true,
    }
}

pub open spec fn key_kind(primary: bool) -> Seq<char> {
    if primary {
        "PRIMARY KEY"@
    } else {
        "UNIQUE"@
    }
}

/// Whether a row's value in a column is already another row's.
pub open spec fn column_taken(s: StateV, db: u32, d: SchemaV, column: Seq<char>, row: RowV, rowid: u64) -> bool {
    match assoc::assoc_get(row, column) {
        Some(v) => v != ValueV::Null && taken(s, db, d, seq![column], seq![v], rowid),
        None => false,
    }
}

/// The first unique column from the `k`-th on whose value another row has.
pub open spec fn unique_violation(s: StateV, db: u32, d: SchemaV, row: RowV, rowid: u64, k: int) -> Option<ErrorV>
    decreases d.columns.len() - k,
{
    if k < 0 || k >= d.columns.len() {
        None
    } else {
        let (name, c) = d.columns[k];
        if (c.unique || c.primary_key) && column_taken(s, db, d, name, row, rowid) {
            Some(violation(key_kind(c.primary_key) + " constraint failed: "@ + d.name + "."@ + name))
        } else {
            unique_violation(s, db, d, row, rowid, k + 1)
        }
    }
}

/// A row's values in the given columns; a column that it leaves out is null.
pub open spec fn values_of(row: RowV, columns: Seq<Seq<char>>) -> Seq<ValueV> {
    Seq::new(
        columns.len(),
        |i: int|
            match assoc::assoc_get(row, columns[i]) {
                Some(v) => v,
                None => ValueV::Null,
            },
    )
}

pub open spec fn some_null(values: Seq<ValueV>) -> bool {
    exists|i: int| 0 <= i < values.len() && #[trigger] values[i] == ValueV::Null
}

/// Whether a row breaks a UNIQUE or PRIMARY KEY over several columns. Nulls differ from each
/// other, and a primary key has none.
pub open spec fn breaks_group(s: StateV, db: u32, d: SchemaV, g: UniqueV, row: RowV, rowid: u64) -> bool {
    let values = values_of(row, g.columns);
    if some_null(values) {
        g.is_primary
    } else {
        taken(s, db, d, g.columns, values, rowid)
    }
}

/// The first group from the `k`-th on that a row breaks.
pub open spec fn group_violation(s: StateV, db: u32, d: SchemaV, row: RowV, rowid: u64, k: int) -> Option<ErrorV>
    decreases d.unique_groups.len() - k,
{
    if k < 0 || k >= d.unique_groups.len() {
        None
    } else if breaks_group(s, db, d, d.unique_groups[k], row, rowid) {
        Some(
            violation(
                key_kind(d.unique_groups[k].is_primary) + " constraint failed: "@ + d.name + "("@ + text::joined(
                    d.unique_groups[k].columns,
                    ", "@,
                ) + ")"@,
            ),
        )
    } else {
        group_violation(s, db, d, row, rowid, k + 1)
    }
}

/// Whether a table has a row with a value in a column.
pub open spec fn refers(m: Map<u64, RowV>, column: Seq<char>, v: ValueV) -> bool {
    exists|id: u64| #[trigger] m.contains_key(id) && match assoc::assoc_get(m[id], column) {
        Some(w) => schema::same_value(w, v),
        None => false,
    }
}

/// Whether a row refers to a row that is not there.
pub open spec fn breaks_key(s: StateV, db: u32, k: ForeignKeyV, row: RowV) -> bool {
    k.column.len() > 0 && match assoc::assoc_get(row, k.column) {
        Some(v) => v != ValueV::Null && match state::table_rows(s, db, k.ref_table) {
            Some(m) => !refers(m, k.ref_column, v),
            None => false,
        },
        None => false,
    }
}

/// The first foreign key from the `k`-th on that a row breaks.
pub open spec fn key_violation(s: StateV, db: u32, d: SchemaV, row: RowV, k: int) -> Option<ErrorV>
    decreases d.foreign_keys.len() - k,
{
    if k < 0 || k >= d.foreign_keys.len() {
        None
    } else if breaks_key(s, db, d.foreign_keys[k], row) {
        let f = d.foreign_keys[k];
        Some(
            violation(
                "FOREIGN KEY constraint failed: "@ + d.name + "."@ + f.column + " -> "@ + f.ref_table + "."@
                    + f.ref_column,
            ),
        )
    } else {
        key_violation(s, db, d, row, k + 1)
    }
}

/// The expression of a check's text, where it reads as one.
pub open spec fn check_expression(sql: Seq<char>) -> Option<ExprV> {
    match parser::statements_in("SELECT "@ + sql) {
        Ok(stmts) => if stmts.len() == 0 {
            None
        } else {
            match stmts[0] {
                StatementV::Query(q) => match q.body {
                    SetExprV::Select(sel) => if sel.projection.len() == 0 {
                        None
                    } else {
                        match sel.projection[0] {
                            SelectItemV::Unnamed { expr, text } => Some(expr),
                            _ => None,
                        }
                    },
                    _ => None,
                },
                _ => None,
            }
        },
        Err(_) => None,
    }
}

/// Whether a row passes a check. A check that cannot be read passes every row.
pub open spec fn passes(row: RowV, sql: Seq<char>) -> bool {
    match check_expression(sql) {
        Some(e) => expr::is_true(expr::eval_v(e, Some(row), Seq::empty(), 0).0),
        None => true,
    }
}

/// The first column check from the `k`-th column on that a row fails.
pub open spec fn check_violation(d: SchemaV, row: RowV, k: int) -> Option<ErrorV>
    decreases d.columns.len() - k,
{
    if k < 0 || k >= d.columns.len() {
        None
    } else {
        match d.columns[k].1.check_expr {
            Some(sql) => if passes(row, sql) {
                check_violation(d, row, k + 1)
            } else {
                Some(
                    violation("CHECK constraint failed: "@ + d.name + "."@ + d.columns[k].0 + " ("@ + sql + ")"@),
                )
            },
            None => check_violation(d, row, k + 1),
        }
    }
}

/// The first check of the table from the `k`-th on that a row fails.
pub open spec fn table_check_violation(d: SchemaV, row: RowV, k: int) -> Option<ErrorV>
    decreases d.table_checks.len() - k,
{
    if k < 0 || k >= d.table_checks.len() {
        None
    } else if passes(row, d.table_checks[k]) {
        table_check_violation(d, row, k + 1)
    } else {
        Some(violation("CHECK constraint failed: "@ + d.name + " ("@ + d.table_checks[k] + ")"@))
    }
}

pub open spec fn first_of(a: Option<ErrorV>, b: Option<ErrorV>) -> Option<ErrorV> {
    match a {
        Some(e) => Some(e),
        None => b,
    }
}

/// The first constraint that a row breaks: NOT NULL comes first, then the keys, the references,
/// and the checks.
pub open spec fn first_violation(s: StateV, db: u32, d: SchemaV, row: RowV, rowid: u64) -> Option<ErrorV> {
    first_of(
        null_violation(d.columns, row, 0),
        first_of(
            unique_violation(s, db, d, row, rowid, 0),
            first_of(
                group_violation(s, db, d, row, rowid, 0),
                first_of(
                    key_violation(s, db, d, row, 0),
                    first_of(check_violation(d, row, 0), table_check_violation(d, row, 0)),
                ),
            ),
        ),
    )
}

fn row_has_values(row: &Row, columns: &Vec<String>, values: &Vec<Value>) -> (r: bool)
    requires
        columns@.len() == values@.len(),
    ensures
        r == has_values(row::cells(*row), columns.deep_view(), values.deep_view()),
{
    let ghost cv: Seq<Seq<char>> = columns.deep_view();
    let ghost vv = values.deep_view();
    let mut i: usize = 0;
    while i < columns.len()
        invariant
            i <= columns@.len(),
            columns@.len() == values@.len(),
            cv == columns.deep_view(),
            vv == values.deep_view(),
            forall|j: int|
                0 <= j < i ==> match assoc::assoc_get(row::cells(*row), #[trigger] cv[j]) {
                    Some(w) => schema::same_value(w, vv[j]),
                    None => false,
                },
        decreases columns@.len() - i,
    {
        assert(cv[i as int] == columns@[i as int]@);
        assert(vv[i as int] == values@[i as int]@);
        let found: bool = match row::row_get(row, columns[i].as_str()) {
            Some(w) => w.same(&values[i]),
            None => false,
        };
        if !found {
            assert(!(match assoc::assoc_get(row::cells(*row), cv[i as int]) {
                Some(w) => schema::same_value(w, vv[i as int]),
                None => false,
            }));
            return false;
        }
        i = i + 1;
    }
    true
}

fn search_entries(entries: &Vec<(RowId, Row)>, columns: &Vec<String>, values: &Vec<Value>, exclude: RowId) -> (r: bool)
    requires
        columns@.len() == values@.len(),
    ensures
        forall|m: Map<u64, RowV>|
            #[trigger] store::row_list(m) == store::row_pairs(entries@) ==> r == other_has(
                m,
                columns.deep_view(),
                values.deep_view(),
                exclude,
            ),
{
    let ghost cv: Seq<Seq<char>> = columns.deep_view();
    let ghost vv = values.deep_view();
    let ghost ps = store::row_pairs(entries@);
    let mut i: usize = 0;
    while i < entries.len()
        invariant
            i <= entries@.len(),
            columns@.len() == values@.len(),
            cv == columns.deep_view(),
            vv == values.deep_view(),
            ps == store::row_pairs(entries@),
            forall|j: int| 0 <= j < i ==> !((#[trigger] ps[j]).0 != exclude && has_values(ps[j].1, cv, vv)),
        decreases entries@.len() - i,
    {
        assert(ps[i as int] == (entries@[i as int].0, row::cells(entries@[i as int].1)));
        if entries[i].0 != exclude && row_has_values(&entries[i].1, columns, values) {
            proof {
                assert forall|m: Map<u64, RowV>| #[trigger] store::row_list(m) == ps implies other_has(m, cv, vv, exclude) by {
                    store::lemma_listed(m, i as int);
                    assert(m.contains_key(ps[i as int].0));
                }
            }
            return true;
        }
        i = i + 1;
    }
    proof {
        assert forall|m: Map<u64, RowV>| #[trigger] store::row_list(m) == ps implies !other_has(m, cv, vv, exclude) by {
            if other_has(m, cv, vv, exclude) {
                let id = choose|id: u64| #[trigger] m.contains_key(id) && id != exclude && has_values(m[id], cv, vv);
                let j = store::lemma_place_in_list(m, id);
                assert(ps[j].0 == id);
            }
        }
    }
    false
}

/// Whether another row of the table has the given values in the given columns. An index on the
/// one column narrows the search.
fn value_exists_elsewhere(
    state: &KvsState,
    db_id: u32,
    schema: &TableSchema,
    columns: &Vec<String>,
    values: &Vec<Value>,
    exclude_rowid: RowId,
) -> (r: bool)
    requires
        columns@.len() == values@.len(),
    ensures
        r == taken(state@, db_id, schema@, columns.deep_view(), values.deep_view(), exclude_rowid),
{
    let ghost cv: Seq<Seq<char>> = columns.deep_view();
    let ghost vv = values.deep_view();
    let store = match state.get_table_store(db_id, schema.name.as_str()) {
        Some(store) => store,
        None => {
            return false;
        },
    };
    if columns.len() == 1 {
        assert(cv[0] == columns@[0]@);
        assert(vv[0] == values@[0]@);
        match select::find_index_on(schema, columns[0].as_str()) {
            Some(name) => {
                let ids = index::lookup_index(state, db_id, schema.name.as_str(), name.as_str(), &values[0]);
                let entries = store.entries_among(&ids);
                return search_entries(&entries, columns, values, exclude_rowid);
            },
            None => {},
        }
    }
    let entries = store.entries();
    search_entries(&entries, columns, values, exclude_rowid)
}

fn check_nulls(schema: &TableSchema, row: &Row) -> (r: Result<(), SkvsError>)
    ensures
        failure(r) == null_violation(schema@.columns, row::cells(*row), 0),
{
    let ghost cs = schema@.columns;
    let n: usize = row::columns_len(&schema.columns);
    let mut k: usize = 0;
    while k < n
        invariant
            k <= n,
            n == cs.len(),
            cs == row::column_list(schema.columns),
            null_violation(cs, row::cells(*row), k as int) == null_violation(cs, row::cells(*row), 0),
        decreases n - k,
    {
        match row::columns_at(&schema.columns, k) {
            Some((name, c)) => {
                if c.not_null {
                    let missing: bool = match row::row_get(row, name.as_str()) {
                        Some(v) => v.is_null(),
                        None => true,
                    };
                    if missing {
                        return Err(SkvsError::ConstraintViolation(text::text2(name.as_str(), " cannot be NULL")));
                    }
                }
            },
            None => {},
        }
        k = k + 1;
    }
    Ok(())
}

/// The error that a check gives, where it gives one.
pub open spec fn failure(r: Result<(), SkvsError>) -> Option<ErrorV> {
    match r {
        Ok(_) => None,
        Err(e) => Some(e@),
    }
}

fn kind_of_key(primary: bool) -> (r: &'static str)
    ensures
        r@ == key_kind(primary),
{
    if primary {
        "PRIMARY KEY"
    } else {
        "UNIQUE"
    }
}

fn is_column_taken(state: &KvsState, db_id: u32, schema: &TableSchema, column: &String, row: &Row, rowid: RowId) -> (r: bool)
    ensures
        r == column_taken(state@, db_id, schema@, column@, row::cells(*row), rowid),
{
    match row::row_get(row, column.as_str()) {
        Some(v) => {
            if v.is_null() {
                return false;
            }
            let mut columns: Vec<String> = Vec::new();
            columns.push(column.clone());
            let mut values: Vec<Value> = Vec::new();
            values.push(v.clone());
            assert(columns.deep_view() =~= seq![column@]);
            assert(values.deep_view() =~= seq![v@]);
            value_exists_elsewhere(state, db_id, schema, &columns, &values, rowid)
        },
        None => false,
    }
}

fn check_unique(state: &KvsState, db_id: u32, schema: &TableSchema, row: &Row, rowid: RowId) -> (r: Result<(), SkvsError>)
    ensures
        failure(r) == unique_violation(state@, db_id, schema@, row::cells(*row), rowid, 0),
{
    let ghost d = schema@;
    let n: usize = row::columns_len(&schema.columns);
    let mut k: usize = 0;
    while k < n
        invariant
            k <= n,
            d == schema@,
            n == d.columns.len(),
            d.columns == row::column_list(schema.columns),
            unique_violation(state@, db_id, d, row::cells(*row), rowid, k as int) == unique_violation(
                state@,
                db_id,
                d,
                row::cells(*row),
                rowid,
                0,
            ),
        decreases n - k,
    {
        match row::columns_at(&schema.columns, k) {
            Some((name, c)) => {
                if (c.unique || c.primary_key) && is_column_taken(state, db_id, schema, name, row, rowid) {
                    let head = text::text3(kind_of_key(c.primary_key), " constraint failed: ", schema.name.as_str());
                    return Err(SkvsError::ConstraintViolation(text::text3(head.as_str(), ".", name.as_str())));
                }
            },
            None => {},
        }
        k = k + 1;
    }
    Ok(())
}

fn read_values(row: &Row, columns: &Vec<String>) -> (r: Vec<Value>)
    ensures
        r@.len() == columns@.len(),
        r.deep_view() == values_of(row::cells(*row), columns.deep_view()),
{
    let ghost cv: Seq<Seq<char>> = columns.deep_view();
    let ghost all = values_of(row::cells(*row), cv);
    let mut out: Vec<Value> = Vec::new();
    let mut i: usize = 0;
    while i < columns.len()
        invariant
            i <= columns@.len(),
            cv == columns.deep_view(),
            all == values_of(row::cells(*row), cv),
            out@.len() == i,
            forall|j: int| 0 <= j < i ==> (#[trigger] out@[j])@ == all[j],
        decreases columns@.len() - i,
    {
        assert(cv[i as int] == columns@[i as int]@);
        let v = match row::row_get(row, columns[i].as_str()) {
            Some(v) => v.clone(),
            None => Value::Null,
        };
        out.push(v);
        i = i + 1;
    }
    assert(out.deep_view() =~= all);
    out
}

fn has_null(values: &Vec<Value>) -> (r: bool)
    ensures
        r == some_null(values.deep_view()),
{
    let ghost vv = values.deep_view();
    let mut i: usize = 0;
    while i < values.len()
        invariant
            i <= values@.len(),
            vv == values.deep_view(),
            forall|j: int| 0 <= j < i ==> #[trigger] vv[j] != ValueV::Null,
        decreases values@.len() - i,
    {
        assert(vv[i as int] == values@[i as int]@);
        if values[i].is_null() {
            return true;
        }
        i = i + 1;
    }
    false
}

fn does_break_group(state: &KvsState, db_id: u32, schema: &TableSchema, g: &UniqueGroup, row: &Row, rowid: RowId) -> (r: bool)
    ensures
        r == breaks_group(state@, db_id, schema@, g@, row::cells(*row), rowid),
{
    let values = read_values(row, &g.columns);
    if has_null(&values) {
        g.is_primary
    } else {
        value_exists_elsewhere(state, db_id, schema, &g.columns, &values, rowid)
    }
}

fn check_groups(state: &KvsState, db_id: u32, schema: &TableSchema, row: &Row, rowid: RowId) -> (r: Result<(), SkvsError>)
    ensures
        failure(r) == group_violation(state@, db_id, schema@, row::cells(*row), rowid, 0),
{
    let ghost d = schema@;
    let mut k: usize = 0;
    while k < schema.unique_groups.len()
        invariant
            k <= schema.unique_groups@.len(),
            d == schema@,
            d.unique_groups == schema.unique_groups.deep_view(),
            group_violation(state@, db_id, d, row::cells(*row), rowid, k as int) == group_violation(
                state@,
                db_id,
                d,
                row::cells(*row),
                rowid,
                0,
            ),
        decreases schema.unique_groups@.len() - k,
    {
        let g = &schema.unique_groups[k];
        assert(d.unique_groups[k as int] == g@);
        if does_break_group(state, db_id, schema, g, row, rowid) {
            let head = text::text3(kind_of_key(g.is_primary), " constraint failed: ", schema.name.as_str());
            let list = text::join(&g.columns, ", ");
            return Err(SkvsError::ConstraintViolation(text::text4(head.as_str(), "(", list.as_str(), ")")));
        }
        k = k + 1;
    }
    Ok(())
}

fn does_refer(entries: &Vec<(RowId, Row)>, column: &str, v: &Value) -> (r: bool)
    ensures
        forall|m: Map<u64, RowV>| #[trigger] store::row_list(m) == store::row_pairs(entries@) ==> r == refers(m, column@, v@),
{
    let ghost ps = store::row_pairs(entries@);
    let mut i: usize = 0;
    while i < entries.len()
        invariant
            i <= entries@.len(),
            ps == store::row_pairs(entries@),
            forall|j: int|
                0 <= j < i ==> !(match assoc::assoc_get((#[trigger] ps[j]).1, column@) {
                    Some(w) => schema::same_value(w, v@),
                    None => false,
                }),
        decreases entries@.len() - i,
    {
        assert(ps[i as int] == (entries@[i as int].0, row::cells(entries@[i as int].1)));
        let found: bool = match row::row_get(&entries[i].1, column) {
            Some(w) => w.same(v),
            None => false,
        };
        if found {
            proof {
                assert forall|m: Map<u64, RowV>| #[trigger] store::row_list(m) == ps implies refers(m, column@, v@) by {
                    store::lemma_listed(m, i as int);
                    assert(m.contains_key(ps[i as int].0));
                }
            }
            return true;
        }
        i = i + 1;
    }
    proof {
        assert forall|m: Map<u64, RowV>| #[trigger] store::row_list(m) == ps implies !refers(m, column@, v@) by {
            if refers(m, column@, v@) {
                let id = choose|id: u64| #[trigger]
                    m.contains_key(id) && match assoc::assoc_get(m[id], column@) {
                        Some(w) => schema::same_value(w, v@),
                        None => false,
                    };
                let j = store::lemma_place_in_list(m, id);
                assert(ps[j].0 == id);
            }
        }
    }
    false
}

fn does_break_key(state: &KvsState, db_id: u32, fk: &ForeignKeyDef, row: &Row) -> (r: bool)
    ensures
        r == breaks_key(state@, db_id, fk@, row::cells(*row)),
{
    if fk.column.as_str().is_empty() {
        return false;
    }
    match row::row_get(row, fk.column.as_str()) {
        Some(v) => {
            if v.is_null() {
                return false;
            }
            match state.get_table_store(db_id, fk.ref_table.as_str()) {
                Some(store) => {
                    let entries = store.entries();
                    !does_refer(&entries, fk.ref_column.as_str(), v)
                },
                None => false,
            }
        },
        None => false,
    }
}

fn check_keys(state: &KvsState, db_id: u32, schema: &TableSchema, row: &Row) -> (r: Result<(), SkvsError>)
    ensures
        failure(r) == key_violation(state@, db_id, schema@, row::cells(*row), 0),
{
    let ghost d = schema@;
    let mut k: usize = 0;
    while k < schema.foreign_keys.len()
        invariant
            k <= schema.foreign_keys@.len(),
            d == schema@,
            d.foreign_keys == schema.foreign_keys.deep_view(),
            key_violation(state@, db_id, d, row::cells(*row), k as int) == key_violation(state@, db_id, d, row::cells(*row), 0),
        decreases schema.foreign_keys@.len() - k,
    {
        let f = &schema.foreign_keys[k];
        assert(d.foreign_keys[k as int] == f@);
        if does_break_key(state, db_id, f, row) {
            let a = text::text4("FOREIGN KEY constraint failed: ", schema.name.as_str(), ".", f.column.as_str());
            let b = text::text4(a.as_str(), " -> ", f.ref_table.as_str(), ".");
            return Err(SkvsError::ConstraintViolation(text::text2(b.as_str(), f.ref_column.as_str())));
        }
        k = k + 1;
    }
    Ok(())
}

fn eval_check(row: &Row, check_sql: &str) -> (r: bool)
    ensures
        r == passes(row::cells(*row), check_sql@),
{
    let sql = text::text2("SELECT ", check_sql);
    let stmts = match parser::parse_statements(sql.as_str()) {
        Ok(stmts) => stmts,
        Err(_) => {
            return true;
        },
    };
    if stmts.len() == 0 {
        return true;
    }
    assert(stmts.deep_view()[0] == stmts@[0]@);
    match &stmts[0] {
        Statement::Query(q) => match &q.body {
            SetExpr::Select(sel) => {
                if sel.projection.len() == 0 {
                    return true;
                }
                assert(sel@.projection[0] == sel.projection@[0]@);
                match &sel.projection[0] {
                    SelectItem::Unnamed { expr, text } => {
                        let empty: Vec<Value> = Vec::new();
                        assert(empty.deep_view() =~= Seq::empty());
                        let ctx = EvalCtx::with_row(row);
                        let mut idx: usize = 0;
                        expr::truthy(&expr::eval(expr, &ctx, empty.as_slice(), &mut idx))
                    },
                    _ => true,
                }
            },
            _ => true,
        },
        _ => true,
    }
}

fn check_columns(schema: &TableSchema, row: &Row) -> (r: Result<(), SkvsError>)
    ensures
        failure(r) == check_violation(schema@, row::cells(*row), 0),
{
    let ghost d = schema@;
    let n: usize = row::columns_len(&schema.columns);
    let mut k: usize = 0;
    while k < n
        invariant
            k <= n,
            d == schema@,
            n == d.columns.len(),
            d.columns == row::column_list(schema.columns),
            check_violation(d, row::cells(*row), k as int) == check_violation(d, row::cells(*row), 0),
        decreases n - k,
    {
        match row::columns_at(&schema.columns, k) {
            Some((name, c)) => match &c.check_expr {
                Some(sql) => {
                    if !eval_check(row, sql.as_str()) {
                        let a = text::text4("CHECK constraint failed: ", schema.name.as_str(), ".", name.as_str());
                        return Err(SkvsError::ConstraintViolation(text::text4(a.as_str(), " (", sql.as_str(), ")")));
                    }
                },
                None => {},
            },
            None => {},
        }
        k = k + 1;
    }
    Ok(())
}

fn check_table(schema: &TableSchema, row: &Row) -> (r: Result<(), SkvsError>)
    ensures
        failure(r) == table_check_violation(schema@, row::cells(*row), 0),
{
    let ghost d = schema@;
    let mut k: usize = 0;
    while k < schema.table_checks.len()
        invariant
            k <= schema.table_checks@.len(),
            d == schema@,
            d.table_checks == schema.table_checks.deep_view(),
            table_check_violation(d, row::cells(*row), k as int) == table_check_violation(d, row::cells(*row), 0),
        decreases schema.table_checks@.len() - k,
    {
        assert(d.table_checks[k as int] == schema.table_checks@[k as int]@);
        let sql = schema.table_checks[k].as_str();
        if !eval_check(row, sql) {
            let a = text::text4("CHECK constraint failed: ", schema.name.as_str(), " (", sql);
            return Err(SkvsError::ConstraintViolation(text::text2(a.as_str(), ")")));
        }
        k = k + 1;
    }
    Ok(())
}

/// Holds a row that is about to be written against every constraint of its table. `rowid` is the
/// row's own id: a row does not collide with itself.
pub fn validate_constraints(
    state: &KvsState,
    db_id: u32,
    schema: &TableSchema,
    row: &Row,
    rowid: RowId,
    old_row: Option<&Row>,
) -> (r: Result<(), SkvsError>)
    ensures
        failure(r) == first_violation(state@, db_id, schema@, row::cells(*row), rowid),
{
    match check_nulls(schema, row) {
        Ok(_) => {},
        Err(e) => {
            return Err(e);
        },
    }
    match check_unique(state, db_id, schema, row, rowid) {
        Ok(_) => {},
        Err(e) => {
            return Err(e);
        },
    }
    match check_groups(state, db_id, schema, row, rowid) {
        Ok(_) => {},
        Err(e) => {
            return Err(e);
        },
    }
    match check_keys(state, db_id, schema, row) {
        Ok(_) => {},
        Err(e) => {
            return Err(e);
        },
    }
    match check_columns(schema, row) {
        Ok(_) => {},
        Err(e) => {
            return Err(e);
        },
    }
    check_table(schema, row)
}

} // verus!
