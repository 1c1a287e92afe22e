//! Which rows a table takes in: those that break none of its constraints.
use vstd::prelude::*;

use crate::assoc;
use crate::constraint;
use crate::covering;
use crate::expr;
use crate::integrity;
use crate::operators;
use crate::row::RowV;
use crate::schema;
use crate::schema::{ForeignKeyV, SchemaV, UniqueV, ValueV};
use crate::state;
use crate::state::StateV;

verus! {

/// Whether a row has a value in a column that is not null.
pub open spec fn is_filled(row: RowV, c: Seq<char>) -> bool {
    match assoc::assoc_get(row, c) {
        Some(v) => v != ValueV::Null,
        None => false,
    }
}

/// Whether two rows have equal values in a column.
pub open spec fn meet_in(a: RowV, b: RowV, c: Seq<char>) -> bool {
    match (assoc::assoc_get(a, c), assoc::assoc_get(b, c)) {
        (Some(v), Some(w)) => operators::alike(w, v),
        _ => false,
    }
}

/// Whether a row has a value in each of some columns that is not null.
pub open spec fn all_filled(row: RowV, columns: Seq<Seq<char>>) -> bool {
    forall|k: int| 0 <= k < columns.len() ==> is_filled(row, #[trigger] columns[k])
}

/// Whether two rows have equal values in each of some columns.
pub open spec fn meet_in_all(a: RowV, b: RowV, columns: Seq<Seq<char>>) -> bool {
    forall|k: int| 0 <= k < columns.len() ==> meet_in(a, b, #[trigger] columns[k])
}

/// Whether a row under an id would have the values of no other row in some columns.
pub open spec fn alone_in(m: Map<u64, RowV>, row: RowV, id: u64, columns: Seq<Seq<char>>) -> bool {
    forall|other: u64| #[trigger] m.contains_key(other) && other != id ==> !meet_in_all(row, m[other], columns)
}

/// Whether a row keeps a foreign key: it refers to nothing, or to a row that is there.
pub open spec fn keeps_reference(s: StateV, db: u32, k: ForeignKeyV, row: RowV) -> bool {
    k.column.len() > 0 && is_filled(row, k.column) ==> match state::table_rows(s, db, k.ref_table) {
        Some(m) => exists|id: u64| #[trigger] m.contains_key(id) && refers_to(row, k.column, m[id], k.ref_column),
        None => true,
    }
}

/// Whether a value of one row stands in a column of another.
pub open spec fn refers_to(row: RowV, c: Seq<char>, other: RowV, d: Seq<char>) -> bool {
    match (assoc::assoc_get(row, c), assoc::assoc_get(other, d)) {
        (Some(v), Some(w)) => operators::alike(w, v),
        _ => false,
    }
}

/// Whether a row keeps a check: the value of its expression over the row counts as true.
pub open spec fn keeps_check(row: RowV, sql: Seq<char>) -> bool {
    match constraint::check_expression(sql) {
        Some(e) => operators::counts(expr::eval_v(e, Some(row), Seq::empty(), 0).0),
        None => true,
    }
}

/// Whether a row under an id breaks no constraint of a table.
pub open spec fn breaks_nothing(s: StateV, db: u32, d: SchemaV, m: Map<u64, RowV>, row: RowV, id: u64) -> bool {
    &&& forall|k: int| 0 <= k < d.columns.len() && (#[trigger] d.columns[k]).1.not_null ==> is_filled(row, d.columns[k].0)
    &&& forall|k: int|
        0 <= k < d.columns.len() && ((#[trigger] d.columns[k]).1.unique || d.columns[k].1.primary_key) && is_filled(
            row,
            d.columns[k].0,
        ) ==> alone_in(m, row, id, seq![d.columns[k].0])
    &&& forall|k: int|
        0 <= k < d.unique_groups.len() ==> if all_filled(row, (#[trigger] d.unique_groups[k]).columns) {
            alone_in(m, row, id, d.unique_groups[k].columns)
        } else {
            !d.unique_groups[k].is_primary
        }
    &&& forall|k: int| 0 <= k < d.foreign_keys.len() ==> keeps_reference(s, db, #[trigger] d.foreign_keys[k], row)
    &&& forall|k: int|
        0 <= k < d.columns.len() ==> match (#[trigger] d.columns[k]).1.check_expr {
            Some(sql) => keeps_check(row, sql),
            None => true,
        }
    &&& forall|k: int| 0 <= k < d.table_checks.len() ==> keeps_check(row, #[trigger] d.table_checks[k])
}

proof fn lemma_alone(m: Map<u64, RowV>, row: RowV, id: u64, columns: Seq<Seq<char>>)
    requires
        all_filled(row, columns),
    ensures
        alone_in(m, row, id, columns) == !constraint::other_has(m, columns, constraint::values_of(row, columns), id),
{
    let values = constraint::values_of(row, columns);
    assert forall|other: u64| m.contains_key(other) implies meet_in_all(row, #[trigger] m[other], columns) == constraint::has_values(
        m[other],
        columns,
        values,
    ) by {
        let b = m[other];
        assert forall|k: int| 0 <= k < columns.len() implies meet_in(row, b, #[trigger] columns[k]) == (match assoc::assoc_get(
            b,
            columns[k],
        ) {
            Some(w) => schema::same_value(w, values[k]),
            None => false,
        }) by {
            assert(is_filled(row, columns[k]));
            match assoc::assoc_get(b, columns[k]) {
                Some(w) => operators::lemma_smaller(w, values[k]),
                None => {},
            }
        }
        if meet_in_all(row, b, columns) {
            assert(constraint::has_values(b, columns, values));
        } else {
            let k = choose|k: int| 0 <= k < columns.len() && !meet_in(row, b, #[trigger] columns[k]);
            assert(!constraint::has_values(b, columns, values));
        }
    }
    if constraint::other_has(m, columns, values, id) {
        let other = choose|other: u64| #[trigger] m.contains_key(other) && other != id && constraint::has_values(m[other], columns, values);
        assert(meet_in_all(row, m[other], columns));
    }
    if !alone_in(m, row, id, columns) {
        let other = choose|other: u64| #[trigger] m.contains_key(other) && other != id && meet_in_all(row, m[other], columns);
        assert(constraint::has_values(m[other], columns, values));
    }
}

proof fn lemma_reference(s: StateV, db: u32, k: ForeignKeyV, row: RowV)
    ensures
        keeps_reference(s, db, k, row) == !constraint::breaks_key(s, db, k, row),
{
    match (assoc::assoc_get(row, k.column), state::table_rows(s, db, k.ref_table)) {
        (Some(v), Some(m)) => {
            assert forall|id: u64| m.contains_key(id) implies refers_to(row, k.column, #[trigger] m[id], k.ref_column) == (
            match assoc::assoc_get(m[id], k.ref_column) {
                Some(w) => schema::same_value(w, v),
                None => false,
            }) by {
                match assoc::assoc_get(m[id], k.ref_column) {
                    Some(w) => operators::lemma_smaller(w, v),
                    None => {},
                }
            }
            if constraint::refers(m, k.ref_column, v) {
                let id = choose|id: u64| #[trigger] m.contains_key(id) && match assoc::assoc_get(m[id], k.ref_column) {
                    Some(w) => schema::same_value(w, v),
                    None => false,
                };
                assert(refers_to(row, k.column, m[id], k.ref_column));
            }
            if exists|id: u64| #[trigger] m.contains_key(id) && refers_to(row, k.column, m[id], k.ref_column) {
                let id = choose|id: u64| #[trigger] m.contains_key(id) && refers_to(row, k.column, m[id], k.ref_column);
                assert(constraint::refers(m, k.ref_column, v));
            }
        },
        _ => {},
    }
}

proof fn lemma_check(row: RowV, sql: Seq<char>)
    ensures
        keeps_check(row, sql) == constraint::passes(row, sql),
{
    match constraint::check_expression(sql) {
        Some(e) => operators::lemma_counts(expr::eval_v(e, Some(row), Seq::empty(), 0).0),
        None => {},
    }
}

proof fn lemma_column_alone(m: Map<u64, RowV>, row: RowV, id: u64, c: Seq<char>)
    ensures
        integrity::key_free(m, c, row, id) == (is_filled(row, c) ==> alone_in(m, row, id, seq![c])),
{
    if is_filled(row, c) {
        let v = assoc::assoc_get(row, c)->0;
        assert forall|k: int| 0 <= k < seq![c].len() implies is_filled(row, #[trigger] seq![c][k]) by {}
        lemma_alone(m, row, id, seq![c]);
        assert(constraint::values_of(row, seq![c]) =~= seq![v]);
    }
}

proof fn lemma_group_alone(m: Map<u64, RowV>, row: RowV, id: u64, g: UniqueV)
    ensures
        integrity::group_free(m, g, row, id) == (if all_filled(row, g.columns) {
            alone_in(m, row, id, g.columns)
        } else {
            !g.is_primary
        }),
{
    let values = constraint::values_of(row, g.columns);
    if all_filled(row, g.columns) {
        assert forall|k: int| 0 <= k < values.len() implies #[trigger] values[k] != ValueV::Null by {
            assert(is_filled(row, g.columns[k]));
        }
        lemma_alone(m, row, id, g.columns);
    } else {
        let k = choose|k: int| 0 <= k < g.columns.len() && !is_filled(row, #[trigger] g.columns[k]);
        assert(values[k] == ValueV::Null);
    }
}

/// A row is taken into a table if and only if it breaks none of its constraints: it has a value
/// in each column that may not be null, no other row has its values in a key, it refers to rows
/// that are there, and its checks are true.
pub proof fn lemma_taken_in(s: StateV, db: u32, d: SchemaV, m: Map<u64, RowV>, row: RowV, id: u64)
    requires
        covering::covered(s),
        state::table_schema(s, db, d.name) == Some(d),
        state::table_rows(s, db, d.name) == Some(m),
    ensures
        (constraint::first_violation(s, db, d, row, id) is None) == breaks_nothing(s, db, d, m, row, id),
{
    integrity::lemma_accepted(s, db, d, m, row, id);
    assert forall|k: int| 0 <= k < d.columns.len() implies constraint::is_missing(row, (#[trigger] d.columns[k]).0) == !is_filled(
        row,
        d.columns[k].0,
    ) by {}
    assert forall|k: int| 0 <= k < d.columns.len() implies integrity::key_free(m, (#[trigger] d.columns[k]).0, row, id) == (is_filled(
        row,
        d.columns[k].0,
    ) ==> alone_in(m, row, id, seq![d.columns[k].0])) by {
        lemma_column_alone(m, row, id, d.columns[k].0);
    }
    assert forall|k: int| 0 <= k < d.unique_groups.len() implies integrity::group_free(m, #[trigger] d.unique_groups[k], row, id) == (
    if all_filled(row, d.unique_groups[k].columns) {
        alone_in(m, row, id, d.unique_groups[k].columns)
    } else {
        !d.unique_groups[k].is_primary
    }) by {
        lemma_group_alone(m, row, id, d.unique_groups[k]);
    }
    assert forall|k: int| 0 <= k < d.foreign_keys.len() implies keeps_reference(s, db, #[trigger] d.foreign_keys[k], row)
        == !constraint::breaks_key(s, db, d.foreign_keys[k], row) by {
        lemma_reference(s, db, d.foreign_keys[k], row);
    }
    assert forall|sql: Seq<char>| #[trigger] keeps_check(row, sql) == constraint::passes(row, sql) by {
        lemma_check(row, sql);
    }
    assert forall|k: int| 0 <= k < d.columns.len() implies (match (#[trigger] d.columns[k]).1.check_expr {
        Some(sql) => keeps_check(row, sql) == constraint::passes(row, sql),
        None => true,
    }) by {}
    assert forall|k: int| 0 <= k < d.table_checks.len() implies keeps_check(row, #[trigger] d.table_checks[k]) == constraint::passes(
        row,
        d.table_checks[k],
    ) by {}
}

} // verus!
