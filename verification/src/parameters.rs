//! Which parameters the parts of a statement read.
use vstd::prelude::*;

use crate::ast::{AssignmentV, ExprV};
use crate::expr;
use crate::row::RowV;
use crate::schema::ValueV;
use crate::sql::dml;

verus! {

/// The condition of an UPDATE reads its own parameters and not those of SET: the assignments,
/// whatever the row is, read exactly those before the first parameter of the condition.
pub proof fn lemma_set_reads_its_own(assignments: Seq<AssignmentV>, row: RowV, ps: Seq<ValueV>, n: int)
    requires
        0 <= n <= assignments.len(),
    ensures
        dml::assigned(assignments, row, ps, n).1 == dml::set_placeholders(assignments, n),
        0 <= dml::set_placeholders(assignments, n) <= usize::MAX,
    decreases n,
{
    if n > 0 {
        lemma_set_reads_its_own(assignments, row, ps, n - 1);
        expr::lemma_eval_counts(assignments[n - 1].value, Some(row), ps, dml::assigned(assignments, row, ps, n - 1).1);
    }
}

/// The lists of VALUES read the parameters one after the other: a list that fills as many columns
/// as it has items ends where the next begins.
pub proof fn lemma_values_read_in_turn(names: Seq<Seq<char>>, lists: Seq<Seq<ExprV>>, ps: Seq<ValueV>, k: int, n: int)
    requires
        0 <= k < lists.len(),
        0 <= n <= lists[k].len(),
        lists[k].len() <= names.len(),
    ensures
        dml::values_row(names, lists[k], ps, dml::values_start(lists, k), n).1 == expr::count_sum(
            dml::values_start(lists, k),
            expr::list_placeholders(lists[k], n),
        ),
        dml::values_row(names, lists[k], ps, dml::values_start(lists, k), lists[k].len() as int).1 == dml::values_start(lists, k + 1),
        0 <= dml::values_start(lists, k) <= usize::MAX,
{
    lemma_values_start(lists, k);
    lemma_values_row_reads(names, lists[k], ps, dml::values_start(lists, k), n);
    lemma_values_row_reads(names, lists[k], ps, dml::values_start(lists, k), lists[k].len() as int);
}

proof fn lemma_values_start(lists: Seq<Seq<ExprV>>, k: int)
    ensures
        0 <= dml::values_start(lists, k) <= usize::MAX,
    decreases k,
{
    if k > 0 && k <= lists.len() {
        lemma_values_start(lists, k - 1);
        expr::lemma_list_placeholders(lists[k - 1], lists[k - 1].len() as int);
    }
}

proof fn lemma_values_row_reads(names: Seq<Seq<char>>, exprs: Seq<ExprV>, ps: Seq<ValueV>, start: int, n: int)
    requires
        0 <= start <= usize::MAX,
        0 <= n <= exprs.len(),
        n <= names.len(),
    ensures
        dml::values_row(names, exprs, ps, start, n).1 == expr::count_sum(start, expr::list_placeholders(exprs, n)),
    decreases n,
{
    if n > 0 {
        lemma_values_row_reads(names, exprs, ps, start, n - 1);
        expr::lemma_list_placeholders(exprs, n - 1);
        expr::lemma_eval_counts(exprs[n - 1], None, ps, dml::values_row(names, exprs, ps, start, n - 1).1);
    }
}

} // verus!
