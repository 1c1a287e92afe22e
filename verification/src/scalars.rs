//! What the scalar functions answer, over the values of their arguments.
use vstd::prelude::*;

use crate::ast::{ExprV, FunctionArgV};
use crate::codec;
use crate::double;
use crate::expr;
use crate::json;
use crate::numbers;
use crate::operators;
use crate::row::RowV;
use crate::schema::ValueV;
use crate::text;

verus! {

/// The value of an argument of a call, which reads the parameters behind those of the arguments
/// before it.
pub open spec fn given(args: Seq<FunctionArgV>, row: Option<RowV>, ps: Seq<ValueV>, i: int, k: int) -> ValueV {
    if 0 <= k < args.len() {
        let at = expr::count_sum(i, expr::arg_placeholders(args, k));
        match args[k] {
            FunctionArgV::Unnamed(x) => expr::eval_v(x, row, ps, at).0,
            FunctionArgV::Named(x) => expr::eval_v(x, row, ps, at).0,
            _ => ValueV::Null,
        }
    } else {
        ValueV::Null
    }
}

/// The value of a call.
pub open spec fn called(name: Seq<char>, args: Seq<FunctionArgV>, row: Option<RowV>, ps: Seq<ValueV>, i: int) -> ValueV {
    expr::eval_v(ExprV::Function { name, distinct: false, args }, row, ps, i).0
}

proof fn lemma_arguments(e: ExprV, args: Seq<FunctionArgV>, row: Option<RowV>, ps: Seq<ValueV>, i: int, n: int)
    requires
        e matches ExprV::Function { name: _, distinct: _, args: a } && a == args,
        0 <= i <= usize::MAX,
        0 <= n <= args.len(),
    ensures
        expr::args_upto(e, n, row, ps, i).0.len() == n,
        expr::args_upto(e, n, row, ps, i).1 == expr::count_sum(i, expr::arg_placeholders(args, n)),
        forall|k: int| 0 <= k < n ==> #[trigger] expr::args_upto(e, n, row, ps, i).0[k] == given(args, row, ps, i, k),
    decreases n,
{
    if n > 0 {
        lemma_arguments(e, args, row, ps, i, n - 1);
        expr::lemma_arg_placeholders(args, n - 1);
        let j = expr::args_upto(e, n - 1, row, ps, i).1;
        match args[n - 1] {
            FunctionArgV::Unnamed(x) => expr::lemma_eval_counts(x, row, ps, j),
            FunctionArgV::Named(x) => expr::lemma_eval_counts(x, row, ps, j),
            _ => {},
        }
    }
}

proof fn lemma_called(name: Seq<char>, args: Seq<FunctionArgV>, row: Option<RowV>, ps: Seq<ValueV>, i: int) -> (vs: Seq<ValueV>)
    requires
        0 <= i <= usize::MAX,
    ensures
        called(name, args, row, ps, i) == expr::function_value(text::lowercase(name), vs),
        vs.len() == args.len(),
        forall|k: int| 0 <= k < vs.len() ==> #[trigger] vs[k] == given(args, row, ps, i, k),
        expr::argument(vs, 0) == given(args, row, ps, i, 0),
        expr::argument(vs, 1) == given(args, row, ps, i, 1),
        expr::argument(vs, 2) == given(args, row, ps, i, 2),
{
    let e = ExprV::Function { name, distinct: false, args };
    lemma_arguments(e, args, row, ps, i, args.len() as int);
    expr::args_upto(e, args.len() as int, row, ps, i).0
}

proof fn lemma_is_upper()
    ensures
        "upper"@ != "json_extract"@,
        "upper"@ != "json_array"@,
        "upper"@ != "json_object"@,
        "upper"@ != "json_set"@,
{
    reveal_strlit("upper");
    reveal_strlit("json_extract");
    reveal_strlit("json_array");
    reveal_strlit("json_object");
    reveal_strlit("json_set");
    assert("upper"@.len() != "json_extract"@.len());
    assert("upper"@.len() != "json_array"@.len());
    assert("upper"@.len() != "json_object"@.len());
    assert("upper"@.len() != "json_set"@.len());
}

proof fn lemma_is_lower()
    ensures
        "lower"@ != "json_extract"@,
        "lower"@ != "json_array"@,
        "lower"@ != "json_object"@,
        "lower"@ != "json_set"@,
        "lower"@ != "upper"@,
{
    reveal_strlit("lower");
    reveal_strlit("json_extract");
    reveal_strlit("json_array");
    reveal_strlit("json_object");
    reveal_strlit("json_set");
    reveal_strlit("upper");
    assert("lower"@.len() != "json_extract"@.len());
    assert("lower"@.len() != "json_array"@.len());
    assert("lower"@.len() != "json_object"@.len());
    assert("lower"@.len() != "json_set"@.len());
    assert("lower"@[0] != "upper"@[0]);
}

proof fn lemma_is_length()
    ensures
        "length"@ != "json_extract"@,
        "length"@ != "json_array"@,
        "length"@ != "json_object"@,
        "length"@ != "json_set"@,
        "length"@ != "upper"@,
        "length"@ != "lower"@,
{
    reveal_strlit("length");
    reveal_strlit("json_extract");
    reveal_strlit("json_array");
    reveal_strlit("json_object");
    reveal_strlit("json_set");
    reveal_strlit("upper");
    reveal_strlit("lower");
    assert("length"@.len() != "json_extract"@.len());
    assert("length"@.len() != "json_array"@.len());
    assert("length"@.len() != "json_object"@.len());
    assert("length"@.len() != "json_set"@.len());
    assert("length"@.len() != "upper"@.len());
    assert("length"@.len() != "lower"@.len());
}

proof fn lemma_is_len()
    ensures
        "len"@ != "json_extract"@,
        "len"@ != "json_array"@,
        "len"@ != "json_object"@,
        "len"@ != "json_set"@,
        "len"@ != "upper"@,
        "len"@ != "lower"@,
        "len"@ != "length"@,
{
    reveal_strlit("len");
    reveal_strlit("json_extract");
    reveal_strlit("json_array");
    reveal_strlit("json_object");
    reveal_strlit("json_set");
    reveal_strlit("upper");
    reveal_strlit("lower");
    reveal_strlit("length");
    assert("len"@.len() != "json_extract"@.len());
    assert("len"@.len() != "json_array"@.len());
    assert("len"@.len() != "json_object"@.len());
    assert("len"@.len() != "json_set"@.len());
    assert("len"@.len() != "upper"@.len());
    assert("len"@.len() != "lower"@.len());
    assert("len"@.len() != "length"@.len());
}

proof fn lemma_is_abs()
    ensures
        "abs"@ != "json_extract"@,
        "abs"@ != "json_array"@,
        "abs"@ != "json_object"@,
        "abs"@ != "json_set"@,
        "abs"@ != "upper"@,
        "abs"@ != "lower"@,
        "abs"@ != "length"@,
        "abs"@ != "len"@,
{
    reveal_strlit("abs");
    reveal_strlit("json_extract");
    reveal_strlit("json_array");
    reveal_strlit("json_object");
    reveal_strlit("json_set");
    reveal_strlit("upper");
    reveal_strlit("lower");
    reveal_strlit("length");
    reveal_strlit("len");
    assert("abs"@.len() != "json_extract"@.len());
    assert("abs"@.len() != "json_array"@.len());
    assert("abs"@.len() != "json_object"@.len());
    assert("abs"@.len() != "json_set"@.len());
    assert("abs"@.len() != "upper"@.len());
    assert("abs"@.len() != "lower"@.len());
    assert("abs"@.len() != "length"@.len());
    assert("abs"@[0] != "len"@[0]);
}

proof fn lemma_is_round()
    ensures
        "round"@ != "json_extract"@,
        "round"@ != "json_array"@,
        "round"@ != "json_object"@,
        "round"@ != "json_set"@,
        "round"@ != "upper"@,
        "round"@ != "lower"@,
        "round"@ != "length"@,
        "round"@ != "len"@,
        "round"@ != "abs"@,
{
    reveal_strlit("round");
    reveal_strlit("json_extract");
    reveal_strlit("json_array");
    reveal_strlit("json_object");
    reveal_strlit("json_set");
    reveal_strlit("upper");
    reveal_strlit("lower");
    reveal_strlit("length");
    reveal_strlit("len");
    reveal_strlit("abs");
    assert("round"@.len() != "json_extract"@.len());
    assert("round"@.len() != "json_array"@.len());
    assert("round"@.len() != "json_object"@.len());
    assert("round"@.len() != "json_set"@.len());
    assert("round"@[0] != "upper"@[0]);
    assert("round"@[0] != "lower"@[0]);
    assert("round"@.len() != "length"@.len());
    assert("round"@.len() != "len"@.len());
    assert("round"@.len() != "abs"@.len());
}

proof fn lemma_is_coalesce()
    ensures
        "coalesce"@ != "json_extract"@,
        "coalesce"@ != "json_array"@,
        "coalesce"@ != "json_object"@,
        "coalesce"@ != "json_set"@,
        "coalesce"@ != "upper"@,
        "coalesce"@ != "lower"@,
        "coalesce"@ != "length"@,
        "coalesce"@ != "len"@,
        "coalesce"@ != "abs"@,
        "coalesce"@ != "round"@,
{
    reveal_strlit("coalesce");
    reveal_strlit("json_extract");
    reveal_strlit("json_array");
    reveal_strlit("json_object");
    reveal_strlit("json_set");
    reveal_strlit("upper");
    reveal_strlit("lower");
    reveal_strlit("length");
    reveal_strlit("len");
    reveal_strlit("abs");
    reveal_strlit("round");
    assert("coalesce"@.len() != "json_extract"@.len());
    assert("coalesce"@.len() != "json_array"@.len());
    assert("coalesce"@.len() != "json_object"@.len());
    assert("coalesce"@[0] != "json_set"@[0]);
    assert("coalesce"@.len() != "upper"@.len());
    assert("coalesce"@.len() != "lower"@.len());
    assert("coalesce"@.len() != "length"@.len());
    assert("coalesce"@.len() != "len"@.len());
    assert("coalesce"@.len() != "abs"@.len());
    assert("coalesce"@.len() != "round"@.len());
}

proof fn lemma_is_ifnull()
    ensures
        "ifnull"@ != "json_extract"@,
        "ifnull"@ != "json_array"@,
        "ifnull"@ != "json_object"@,
        "ifnull"@ != "json_set"@,
        "ifnull"@ != "upper"@,
        "ifnull"@ != "lower"@,
        "ifnull"@ != "length"@,
        "ifnull"@ != "len"@,
        "ifnull"@ != "abs"@,
        "ifnull"@ != "round"@,
        "ifnull"@ != "coalesce"@,
{
    reveal_strlit("ifnull");
    reveal_strlit("json_extract");
    reveal_strlit("json_array");
    reveal_strlit("json_object");
    reveal_strlit("json_set");
    reveal_strlit("upper");
    reveal_strlit("lower");
    reveal_strlit("length");
    reveal_strlit("len");
    reveal_strlit("abs");
    reveal_strlit("round");
    reveal_strlit("coalesce");
    assert("ifnull"@.len() != "json_extract"@.len());
    assert("ifnull"@.len() != "json_array"@.len());
    assert("ifnull"@.len() != "json_object"@.len());
    assert("ifnull"@.len() != "json_set"@.len());
    assert("ifnull"@.len() != "upper"@.len());
    assert("ifnull"@.len() != "lower"@.len());
    assert("ifnull"@[0] != "length"@[0]);
    assert("ifnull"@.len() != "len"@.len());
    assert("ifnull"@.len() != "abs"@.len());
    assert("ifnull"@.len() != "round"@.len());
    assert("ifnull"@.len() != "coalesce"@.len());
}

proof fn lemma_is_nullif()
    ensures
        "nullif"@ != "json_extract"@,
        "nullif"@ != "json_array"@,
        "nullif"@ != "json_object"@,
        "nullif"@ != "json_set"@,
        "nullif"@ != "upper"@,
        "nullif"@ != "lower"@,
        "nullif"@ != "length"@,
        "nullif"@ != "len"@,
        "nullif"@ != "abs"@,
        "nullif"@ != "round"@,
        "nullif"@ != "coalesce"@,
        "nullif"@ != "ifnull"@,
{
    reveal_strlit("nullif");
    reveal_strlit("json_extract");
    reveal_strlit("json_array");
    reveal_strlit("json_object");
    reveal_strlit("json_set");
    reveal_strlit("upper");
    reveal_strlit("lower");
    reveal_strlit("length");
    reveal_strlit("len");
    reveal_strlit("abs");
    reveal_strlit("round");
    reveal_strlit("coalesce");
    reveal_strlit("ifnull");
    assert("nullif"@.len() != "json_extract"@.len());
    assert("nullif"@.len() != "json_array"@.len());
    assert("nullif"@.len() != "json_object"@.len());
    assert("nullif"@.len() != "json_set"@.len());
    assert("nullif"@.len() != "upper"@.len());
    assert("nullif"@.len() != "lower"@.len());
    assert("nullif"@[0] != "length"@[0]);
    assert("nullif"@.len() != "len"@.len());
    assert("nullif"@.len() != "abs"@.len());
    assert("nullif"@.len() != "round"@.len());
    assert("nullif"@.len() != "coalesce"@.len());
    assert("nullif"@[0] != "ifnull"@[0]);
}

proof fn lemma_is_trim()
    ensures
        "trim"@ != "json_extract"@,
        "trim"@ != "json_array"@,
        "trim"@ != "json_object"@,
        "trim"@ != "json_set"@,
        "trim"@ != "upper"@,
        "trim"@ != "lower"@,
        "trim"@ != "length"@,
        "trim"@ != "len"@,
        "trim"@ != "abs"@,
        "trim"@ != "round"@,
        "trim"@ != "coalesce"@,
        "trim"@ != "ifnull"@,
        "trim"@ != "nullif"@,
{
    reveal_strlit("trim");
    reveal_strlit("json_extract");
    reveal_strlit("json_array");
    reveal_strlit("json_object");
    reveal_strlit("json_set");
    reveal_strlit("upper");
    reveal_strlit("lower");
    reveal_strlit("length");
    reveal_strlit("len");
    reveal_strlit("abs");
    reveal_strlit("round");
    reveal_strlit("coalesce");
    reveal_strlit("ifnull");
    reveal_strlit("nullif");
    assert("trim"@.len() != "json_extract"@.len());
    assert("trim"@.len() != "json_array"@.len());
    assert("trim"@.len() != "json_object"@.len());
    assert("trim"@.len() != "json_set"@.len());
    assert("trim"@.len() != "upper"@.len());
    assert("trim"@.len() != "lower"@.len());
    assert("trim"@.len() != "length"@.len());
    assert("trim"@.len() != "len"@.len());
    assert("trim"@.len() != "abs"@.len());
    assert("trim"@.len() != "round"@.len());
    assert("trim"@.len() != "coalesce"@.len());
    assert("trim"@.len() != "ifnull"@.len());
    assert("trim"@.len() != "nullif"@.len());
}

proof fn lemma_is_ltrim()
    ensures
        "ltrim"@ != "json_extract"@,
        "ltrim"@ != "json_array"@,
        "ltrim"@ != "json_object"@,
        "ltrim"@ != "json_set"@,
        "ltrim"@ != "upper"@,
        "ltrim"@ != "lower"@,
        "ltrim"@ != "length"@,
        "ltrim"@ != "len"@,
        "ltrim"@ != "abs"@,
        "ltrim"@ != "round"@,
        "ltrim"@ != "coalesce"@,
        "ltrim"@ != "ifnull"@,
        "ltrim"@ != "nullif"@,
        "ltrim"@ != "trim"@,
{
    reveal_strlit("ltrim");
    reveal_strlit("json_extract");
    reveal_strlit("json_array");
    reveal_strlit("json_object");
    reveal_strlit("json_set");
    reveal_strlit("upper");
    reveal_strlit("lower");
    reveal_strlit("length");
    reveal_strlit("len");
    reveal_strlit("abs");
    reveal_strlit("round");
    reveal_strlit("coalesce");
    reveal_strlit("ifnull");
    reveal_strlit("nullif");
    reveal_strlit("trim");
    assert("ltrim"@.len() != "json_extract"@.len());
    assert("ltrim"@.len() != "json_array"@.len());
    assert("ltrim"@.len() != "json_object"@.len());
    assert("ltrim"@.len() != "json_set"@.len());
    assert("ltrim"@[0] != "upper"@[0]);
    assert("ltrim"@[1] != "lower"@[1]);
    assert("ltrim"@.len() != "length"@.len());
    assert("ltrim"@.len() != "len"@.len());
    assert("ltrim"@.len() != "abs"@.len());
    assert("ltrim"@[0] != "round"@[0]);
    assert("ltrim"@.len() != "coalesce"@.len());
    assert("ltrim"@.len() != "ifnull"@.len());
    assert("ltrim"@.len() != "nullif"@.len());
    assert("ltrim"@.len() != "trim"@.len());
}

proof fn lemma_is_rtrim()
    ensures
        "rtrim"@ != "json_extract"@,
        "rtrim"@ != "json_array"@,
        "rtrim"@ != "json_object"@,
        "rtrim"@ != "json_set"@,
        "rtrim"@ != "upper"@,
        "rtrim"@ != "lower"@,
        "rtrim"@ != "length"@,
        "rtrim"@ != "len"@,
        "rtrim"@ != "abs"@,
        "rtrim"@ != "round"@,
        "rtrim"@ != "coalesce"@,
        "rtrim"@ != "ifnull"@,
        "rtrim"@ != "nullif"@,
        "rtrim"@ != "trim"@,
        "rtrim"@ != "ltrim"@,
{
    reveal_strlit("rtrim");
    reveal_strlit("json_extract");
    reveal_strlit("json_array");
    reveal_strlit("json_object");
    reveal_strlit("json_set");
    reveal_strlit("upper");
    reveal_strlit("lower");
    reveal_strlit("length");
    reveal_strlit("len");
    reveal_strlit("abs");
    reveal_strlit("round");
    reveal_strlit("coalesce");
    reveal_strlit("ifnull");
    reveal_strlit("nullif");
    reveal_strlit("trim");
    reveal_strlit("ltrim");
    assert("rtrim"@.len() != "json_extract"@.len());
    assert("rtrim"@.len() != "json_array"@.len());
    assert("rtrim"@.len() != "json_object"@.len());
    assert("rtrim"@.len() != "json_set"@.len());
    assert("rtrim"@[0] != "upper"@[0]);
    assert("rtrim"@[0] != "lower"@[0]);
    assert("rtrim"@.len() != "length"@.len());
    assert("rtrim"@.len() != "len"@.len());
    assert("rtrim"@.len() != "abs"@.len());
    assert("rtrim"@[1] != "round"@[1]);
    assert("rtrim"@.len() != "coalesce"@.len());
    assert("rtrim"@.len() != "ifnull"@.len());
    assert("rtrim"@.len() != "nullif"@.len());
    assert("rtrim"@.len() != "trim"@.len());
    assert("rtrim"@[0] != "ltrim"@[0]);
}

proof fn lemma_is_substr()
    ensures
        "substr"@ != "json_extract"@,
        "substr"@ != "json_array"@,
        "substr"@ != "json_object"@,
        "substr"@ != "json_set"@,
        "substr"@ != "upper"@,
        "substr"@ != "lower"@,
        "substr"@ != "length"@,
        "substr"@ != "len"@,
        "substr"@ != "abs"@,
        "substr"@ != "round"@,
        "substr"@ != "coalesce"@,
        "substr"@ != "ifnull"@,
        "substr"@ != "nullif"@,
        "substr"@ != "trim"@,
        "substr"@ != "ltrim"@,
        "substr"@ != "rtrim"@,
{
    reveal_strlit("substr");
    reveal_strlit("json_extract");
    reveal_strlit("json_array");
    reveal_strlit("json_object");
    reveal_strlit("json_set");
    reveal_strlit("upper");
    reveal_strlit("lower");
    reveal_strlit("length");
    reveal_strlit("len");
    reveal_strlit("abs");
    reveal_strlit("round");
    reveal_strlit("coalesce");
    reveal_strlit("ifnull");
    reveal_strlit("nullif");
    reveal_strlit("trim");
    reveal_strlit("ltrim");
    reveal_strlit("rtrim");
    assert("substr"@.len() != "json_extract"@.len());
    assert("substr"@.len() != "json_array"@.len());
    assert("substr"@.len() != "json_object"@.len());
    assert("substr"@.len() != "json_set"@.len());
    assert("substr"@.len() != "upper"@.len());
    assert("substr"@.len() != "lower"@.len());
    assert("substr"@[0] != "length"@[0]);
    assert("substr"@.len() != "len"@.len());
    assert("substr"@.len() != "abs"@.len());
    assert("substr"@.len() != "round"@.len());
    assert("substr"@.len() != "coalesce"@.len());
    assert("substr"@[0] != "ifnull"@[0]);
    assert("substr"@[0] != "nullif"@[0]);
    assert("substr"@.len() != "trim"@.len());
    assert("substr"@.len() != "ltrim"@.len());
    assert("substr"@.len() != "rtrim"@.len());
}

proof fn lemma_is_substring()
    ensures
        "substring"@ != "json_extract"@,
        "substring"@ != "json_array"@,
        "substring"@ != "json_object"@,
        "substring"@ != "json_set"@,
        "substring"@ != "upper"@,
        "substring"@ != "lower"@,
        "substring"@ != "length"@,
        "substring"@ != "len"@,
        "substring"@ != "abs"@,
        "substring"@ != "round"@,
        "substring"@ != "coalesce"@,
        "substring"@ != "ifnull"@,
        "substring"@ != "nullif"@,
        "substring"@ != "trim"@,
        "substring"@ != "ltrim"@,
        "substring"@ != "rtrim"@,
        "substring"@ != "substr"@,
{
    reveal_strlit("substring");
    reveal_strlit("json_extract");
    reveal_strlit("json_array");
    reveal_strlit("json_object");
    reveal_strlit("json_set");
    reveal_strlit("upper");
    reveal_strlit("lower");
    reveal_strlit("length");
    reveal_strlit("len");
    reveal_strlit("abs");
    reveal_strlit("round");
    reveal_strlit("coalesce");
    reveal_strlit("ifnull");
    reveal_strlit("nullif");
    reveal_strlit("trim");
    reveal_strlit("ltrim");
    reveal_strlit("rtrim");
    reveal_strlit("substr");
    assert("substring"@.len() != "json_extract"@.len());
    assert("substring"@.len() != "json_array"@.len());
    assert("substring"@.len() != "json_object"@.len());
    assert("substring"@.len() != "json_set"@.len());
    assert("substring"@.len() != "upper"@.len());
    assert("substring"@.len() != "lower"@.len());
    assert("substring"@.len() != "length"@.len());
    assert("substring"@.len() != "len"@.len());
    assert("substring"@.len() != "abs"@.len());
    assert("substring"@.len() != "round"@.len());
    assert("substring"@.len() != "coalesce"@.len());
    assert("substring"@.len() != "ifnull"@.len());
    assert("substring"@.len() != "nullif"@.len());
    assert("substring"@.len() != "trim"@.len());
    assert("substring"@.len() != "ltrim"@.len());
    assert("substring"@.len() != "rtrim"@.len());
    assert("substring"@.len() != "substr"@.len());
}

proof fn lemma_is_replace()
    ensures
        "replace"@ != "json_extract"@,
        "replace"@ != "json_array"@,
        "replace"@ != "json_object"@,
        "replace"@ != "json_set"@,
        "replace"@ != "upper"@,
        "replace"@ != "lower"@,
        "replace"@ != "length"@,
        "replace"@ != "len"@,
        "replace"@ != "abs"@,
        "replace"@ != "round"@,
        "replace"@ != "coalesce"@,
        "replace"@ != "ifnull"@,
        "replace"@ != "nullif"@,
        "replace"@ != "trim"@,
        "replace"@ != "ltrim"@,
        "replace"@ != "rtrim"@,
        "replace"@ != "substr"@,
        "replace"@ != "substring"@,
{
    reveal_strlit("replace");
    reveal_strlit("json_extract");
    reveal_strlit("json_array");
    reveal_strlit("json_object");
    reveal_strlit("json_set");
    reveal_strlit("upper");
    reveal_strlit("lower");
    reveal_strlit("length");
    reveal_strlit("len");
    reveal_strlit("abs");
    reveal_strlit("round");
    reveal_strlit("coalesce");
    reveal_strlit("ifnull");
    reveal_strlit("nullif");
    reveal_strlit("trim");
    reveal_strlit("ltrim");
    reveal_strlit("rtrim");
    reveal_strlit("substr");
    reveal_strlit("substring");
    assert("replace"@.len() != "json_extract"@.len());
    assert("replace"@.len() != "json_array"@.len());
    assert("replace"@.len() != "json_object"@.len());
    assert("replace"@.len() != "json_set"@.len());
    assert("replace"@.len() != "upper"@.len());
    assert("replace"@.len() != "lower"@.len());
    assert("replace"@.len() != "length"@.len());
    assert("replace"@.len() != "len"@.len());
    assert("replace"@.len() != "abs"@.len());
    assert("replace"@.len() != "round"@.len());
    assert("replace"@.len() != "coalesce"@.len());
    assert("replace"@.len() != "ifnull"@.len());
    assert("replace"@.len() != "nullif"@.len());
    assert("replace"@.len() != "trim"@.len());
    assert("replace"@.len() != "ltrim"@.len());
    assert("replace"@.len() != "rtrim"@.len());
    assert("replace"@.len() != "substr"@.len());
    assert("replace"@.len() != "substring"@.len());
}

proof fn lemma_is_typeof()
    ensures
        "typeof"@ != "json_extract"@,
        "typeof"@ != "json_array"@,
        "typeof"@ != "json_object"@,
        "typeof"@ != "json_set"@,
        "typeof"@ != "upper"@,
        "typeof"@ != "lower"@,
        "typeof"@ != "length"@,
        "typeof"@ != "len"@,
        "typeof"@ != "abs"@,
        "typeof"@ != "round"@,
        "typeof"@ != "coalesce"@,
        "typeof"@ != "ifnull"@,
        "typeof"@ != "nullif"@,
        "typeof"@ != "trim"@,
        "typeof"@ != "ltrim"@,
        "typeof"@ != "rtrim"@,
        "typeof"@ != "substr"@,
        "typeof"@ != "substring"@,
        "typeof"@ != "replace"@,
{
    reveal_strlit("typeof");
    reveal_strlit("json_extract");
    reveal_strlit("json_array");
    reveal_strlit("json_object");
    reveal_strlit("json_set");
    reveal_strlit("upper");
    reveal_strlit("lower");
    reveal_strlit("length");
    reveal_strlit("len");
    reveal_strlit("abs");
    reveal_strlit("round");
    reveal_strlit("coalesce");
    reveal_strlit("ifnull");
    reveal_strlit("nullif");
    reveal_strlit("trim");
    reveal_strlit("ltrim");
    reveal_strlit("rtrim");
    reveal_strlit("substr");
    reveal_strlit("substring");
    reveal_strlit("replace");
    assert("typeof"@.len() != "json_extract"@.len());
    assert("typeof"@.len() != "json_array"@.len());
    assert("typeof"@.len() != "json_object"@.len());
    assert("typeof"@.len() != "json_set"@.len());
    assert("typeof"@.len() != "upper"@.len());
    assert("typeof"@.len() != "lower"@.len());
    assert("typeof"@[0] != "length"@[0]);
    assert("typeof"@.len() != "len"@.len());
    assert("typeof"@.len() != "abs"@.len());
    assert("typeof"@.len() != "round"@.len());
    assert("typeof"@.len() != "coalesce"@.len());
    assert("typeof"@[0] != "ifnull"@[0]);
    assert("typeof"@[0] != "nullif"@[0]);
    assert("typeof"@.len() != "trim"@.len());
    assert("typeof"@.len() != "ltrim"@.len());
    assert("typeof"@.len() != "rtrim"@.len());
    assert("typeof"@[0] != "substr"@[0]);
    assert("typeof"@.len() != "substring"@.len());
    assert("typeof"@.len() != "replace"@.len());
}

proof fn lemma_is_hex()
    ensures
        "hex"@ != "json_extract"@,
        "hex"@ != "json_array"@,
        "hex"@ != "json_object"@,
        "hex"@ != "json_set"@,
        "hex"@ != "upper"@,
        "hex"@ != "lower"@,
        "hex"@ != "length"@,
        "hex"@ != "len"@,
        "hex"@ != "abs"@,
        "hex"@ != "round"@,
        "hex"@ != "coalesce"@,
        "hex"@ != "ifnull"@,
        "hex"@ != "nullif"@,
        "hex"@ != "trim"@,
        "hex"@ != "ltrim"@,
        "hex"@ != "rtrim"@,
        "hex"@ != "substr"@,
        "hex"@ != "substring"@,
        "hex"@ != "replace"@,
        "hex"@ != "typeof"@,
{
    reveal_strlit("hex");
    reveal_strlit("json_extract");
    reveal_strlit("json_array");
    reveal_strlit("json_object");
    reveal_strlit("json_set");
    reveal_strlit("upper");
    reveal_strlit("lower");
    reveal_strlit("length");
    reveal_strlit("len");
    reveal_strlit("abs");
    reveal_strlit("round");
    reveal_strlit("coalesce");
    reveal_strlit("ifnull");
    reveal_strlit("nullif");
    reveal_strlit("trim");
    reveal_strlit("ltrim");
    reveal_strlit("rtrim");
    reveal_strlit("substr");
    reveal_strlit("substring");
    reveal_strlit("replace");
    reveal_strlit("typeof");
    assert("hex"@.len() != "json_extract"@.len());
    assert("hex"@.len() != "json_array"@.len());
    assert("hex"@.len() != "json_object"@.len());
    assert("hex"@.len() != "json_set"@.len());
    assert("hex"@.len() != "upper"@.len());
    assert("hex"@.len() != "lower"@.len());
    assert("hex"@.len() != "length"@.len());
    assert("hex"@[0] != "len"@[0]);
    assert("hex"@[0] != "abs"@[0]);
    assert("hex"@.len() != "round"@.len());
    assert("hex"@.len() != "coalesce"@.len());
    assert("hex"@.len() != "ifnull"@.len());
    assert("hex"@.len() != "nullif"@.len());
    assert("hex"@.len() != "trim"@.len());
    assert("hex"@.len() != "ltrim"@.len());
    assert("hex"@.len() != "rtrim"@.len());
    assert("hex"@.len() != "substr"@.len());
    assert("hex"@.len() != "substring"@.len());
    assert("hex"@.len() != "replace"@.len());
    assert("hex"@.len() != "typeof"@.len());
}

/// LENGTH of a text is the number of its characters, of a blob that of its bytes, and null of all else.
pub proof fn lemma_length(name: Seq<char>, args: Seq<FunctionArgV>, row: Option<RowV>, ps: Seq<ValueV>, i: int)
    requires
        0 <= i <= usize::MAX,
        text::lowercase(name) == "length"@ || text::lowercase(name) == "len"@,
    ensures
        match given(args, row, ps, i, 0) {
            ValueV::Text(s) => called(name, args, row, ps, i) == ValueV::Integer(s.len() as i64),
            ValueV::Blob(s) => called(name, args, row, ps, i) == ValueV::Integer(s.len() as i64),
            _ => called(name, args, row, ps, i) == ValueV::Null,
        },
{
    lemma_is_length();
    lemma_is_len();
    let vs = lemma_called(name, args, row, ps, i);
}

/// ABS of an integer is the one of it and its opposite that is not negative, ABS of a double has
/// its size and no sign, and ABS of all else is null.
pub proof fn lemma_abs(name: Seq<char>, args: Seq<FunctionArgV>, row: Option<RowV>, ps: Seq<ValueV>, i: int)
    requires
        0 <= i <= usize::MAX,
        text::lowercase(name) == "abs"@,
    ensures
        match given(args, row, ps, i, 0) {
            ValueV::Integer(x) => x > i64::MIN ==> match called(name, args, row, ps, i) {
                ValueV::Integer(y) => y >= 0 && (y == x || y == -x),
                _ => false,
            },
            ValueV::Real(x) => match called(name, args, row, ps, i) {
                ValueV::Real(y) => y < 0x8000_0000_0000_0000 && (y == x || y + 0x8000_0000_0000_0000 == x),
                _ => false,
            },
            _ => called(name, args, row, ps, i) == ValueV::Null,
        },
{
    lemma_is_abs();
    let vs = lemma_called(name, args, row, ps, i);
}

/// IFNULL is its first argument, or the second where the first is null.
pub proof fn lemma_ifnull(name: Seq<char>, args: Seq<FunctionArgV>, row: Option<RowV>, ps: Seq<ValueV>, i: int)
    requires
        0 <= i <= usize::MAX,
        text::lowercase(name) == "ifnull"@,
    ensures
        given(args, row, ps, i, 0) != ValueV::Null ==> called(name, args, row, ps, i) == given(args, row, ps, i, 0),
        given(args, row, ps, i, 0) == ValueV::Null ==> called(name, args, row, ps, i) == given(args, row, ps, i, 1),
{
    lemma_is_ifnull();
    let vs = lemma_called(name, args, row, ps, i);
}

/// NULLIF is null where its arguments are equal, and else the first of them.
pub proof fn lemma_nullif(name: Seq<char>, args: Seq<FunctionArgV>, row: Option<RowV>, ps: Seq<ValueV>, i: int)
    requires
        0 <= i <= usize::MAX,
        text::lowercase(name) == "nullif"@,
    ensures
        called(name, args, row, ps, i) == (if operators::alike(given(args, row, ps, i, 0), given(args, row, ps, i, 1)) {
            ValueV::Null
        } else {
            given(args, row, ps, i, 0)
        }),
{
    lemma_is_nullif();
    let vs = lemma_called(name, args, row, ps, i);
    operators::lemma_smaller(given(args, row, ps, i, 0), given(args, row, ps, i, 1));
}

proof fn lemma_first_present(vs: Seq<ValueV>, k: int, j: int)
    requires
        0 <= k <= j < vs.len(),
        vs[j] != ValueV::Null,
        forall|h: int| k <= h < j ==> #[trigger] vs[h] == ValueV::Null,
    ensures
        expr::first_present(vs, k) == vs[j],
    decreases j - k,
{
    if k < j {
        assert(vs[k] == ValueV::Null);
        lemma_first_present(vs, k + 1, j);
    }
}

proof fn lemma_none_present(vs: Seq<ValueV>, k: int)
    requires
        0 <= k <= vs.len(),
        forall|h: int| k <= h < vs.len() ==> #[trigger] vs[h] == ValueV::Null,
    ensures
        expr::first_present(vs, k) == ValueV::Null,
    decreases vs.len() - k,
{
    if k < vs.len() {
        assert(vs[k] == ValueV::Null);
        lemma_none_present(vs, k + 1);
    }
}

/// ROUND without places gives the whole number that is nearest to a number, a half going away from
/// zero; it keeps an integer, and is null for what is no number.
pub proof fn lemma_round(name: Seq<char>, args: Seq<FunctionArgV>, row: Option<RowV>, ps: Seq<ValueV>, i: int) -> (n: int)
    requires
        0 <= i <= usize::MAX,
        text::lowercase(name) == "round"@,
        args.len() == 1,
    ensures
        match (given(args, row, ps, i, 0), called(name, args, row, ps, i)) {
            (ValueV::Integer(x), ValueV::Real(y)) => -0x10_0000_0000_0000 < x < 0x10_0000_0000_0000 ==> numbers::is_exactly(
                y,
                x as int,
            ),
            (ValueV::Real(x), ValueV::Real(y)) => double::is_finite(x) && -0x10_0000_0000_0000 * double::one() < double::exact(x)
                < 0x10_0000_0000_0000 * double::one() ==> numbers::is_exactly(y, n) && numbers::is_nearest_to(n, x),
            (ValueV::Integer(_), _) => false,
            (ValueV::Real(_), _) => false,
            (_, v) => v == ValueV::Null,
        },
{
    lemma_is_round();
    let vs = lemma_called(name, args, row, ps, i);
    match given(args, row, ps, i, 0) {
        ValueV::Integer(x) => {
            if -0x10_0000_0000_0000 < x < 0x10_0000_0000_0000 {
                numbers::lemma_round_integer(x as int);
            }
            0
        },
        ValueV::Real(x) => if double::is_finite(x) && -0x10_0000_0000_0000 * double::one() < double::exact(x)
            < 0x10_0000_0000_0000 * double::one() {
            numbers::lemma_rounds_to_nearest(x)
        } else {
            0
        },
        _ => 0,
    }
}

/// COALESCE is the first of its arguments that is not null, and null where all are.
pub proof fn lemma_coalesce(name: Seq<char>, args: Seq<FunctionArgV>, row: Option<RowV>, ps: Seq<ValueV>, i: int, k: int)
    requires
        0 <= i <= usize::MAX,
        text::lowercase(name) == "coalesce"@,
    ensures
        0 <= k < args.len() && given(args, row, ps, i, k) != ValueV::Null && (forall|h: int|
            0 <= h < k ==> #[trigger] given(args, row, ps, i, h) == ValueV::Null) ==> called(name, args, row, ps, i) == given(
            args,
            row,
            ps,
            i,
            k,
        ),
        (forall|h: int| 0 <= h < args.len() ==> #[trigger] given(args, row, ps, i, h) == ValueV::Null) ==> called(
            name,
            args,
            row,
            ps,
            i,
        ) == ValueV::Null,
{
    lemma_is_coalesce();
    let vs = lemma_called(name, args, row, ps, i);
    if 0 <= k < args.len() && given(args, row, ps, i, k) != ValueV::Null && (forall|h: int|
        0 <= h < k ==> #[trigger] given(args, row, ps, i, h) == ValueV::Null) {
        assert(vs[k] == given(args, row, ps, i, k));
        assert forall|h: int| 0 <= h < k implies #[trigger] vs[h] == ValueV::Null by {
            assert(given(args, row, ps, i, h) == ValueV::Null);
        }
        lemma_first_present(vs, 0, k);
    }
    if forall|h: int| 0 <= h < args.len() ==> #[trigger] given(args, row, ps, i, h) == ValueV::Null {
        assert forall|h: int| 0 <= h < vs.len() implies #[trigger] vs[h] == ValueV::Null by {
            assert(given(args, row, ps, i, h) == ValueV::Null);
        }
        lemma_none_present(vs, 0);
    }
}

/// SUBSTR takes characters out of a text: from a place that is counted from one, or from the end
/// where it is negative, as many as are asked for or are there.
pub proof fn lemma_substr(name: Seq<char>, args: Seq<FunctionArgV>, row: Option<RowV>, ps: Seq<ValueV>, i: int)
    requires
        0 <= i <= usize::MAX,
        text::lowercase(name) == "substr"@ || text::lowercase(name) == "substring"@,
    ensures
        match given(args, row, ps, i, 0) {
            ValueV::Text(s) => match called(name, args, row, ps, i) {
                ValueV::Text(t) => {
                    let n = s.len() as int;
                    let from = match given(args, row, ps, i, 1) {
                        ValueV::Integer(x) => if x > 0 {
                            x - 1
                        } else if n + x > 0 {
                            n + x
                        } else {
                            0
                        },
                        _ => 0,
                    };
                    let rest = if from < n {
                        n - from
                    } else {
                        0
                    };
                    &&& t.len() == (match given(args, row, ps, i, 2) {
                        ValueV::Integer(c) => if c <= 0 {
                            0
                        } else if c < rest {
                            c as int
                        } else {
                            rest
                        },
                        _ => rest,
                    })
                    &&& forall|k: int| 0 <= k < t.len() ==> #[trigger] t[k] == s[from + k]
                },
                _ => false,
            },
            _ => called(name, args, row, ps, i) == ValueV::Null,
        },
{
    lemma_is_substr();
    lemma_is_substring();
    let vs = lemma_called(name, args, row, ps, i);
}

/// Whether all characters of a text are white.
pub open spec fn is_blank(s: Seq<char>) -> bool {
    forall|k: int| 0 <= k < s.len() ==> text::white(#[trigger] s[k])
}

proof fn lemma_white_until(s: Seq<char>, i: int)
    requires
        0 <= i <= s.len(),
    ensures
        i <= text::white_until(s, i) <= s.len(),
        forall|k: int| i <= k < text::white_until(s, i) ==> text::white(#[trigger] s[k]),
        text::white_until(s, i) < s.len() ==> !text::white(s[text::white_until(s, i)]),
    decreases s.len() - i,
{
    if i < s.len() && text::white(s[i]) {
        lemma_white_until(s, i + 1);
    }
}

proof fn lemma_white_back(s: Seq<char>, e: int)
    requires
        0 <= e <= s.len(),
    ensures
        0 <= text::white_back(s, e) <= e,
        forall|k: int| text::white_back(s, e) <= k < e ==> text::white(#[trigger] s[k]),
        text::white_back(s, e) > 0 ==> !text::white(s[text::white_back(s, e) - 1]),
    decreases e,
{
    if e > 0 && text::white(s[e - 1]) {
        lemma_white_back(s, e - 1);
    }
}

/// Whether a text begins with no white character.
pub open spec fn starts_black(s: Seq<char>) -> bool {
    s.len() > 0 ==> !text::white(s[0])
}

/// Whether a text ends with no white character.
pub open spec fn ends_black(s: Seq<char>) -> bool {
    s.len() > 0 ==> !text::white(s.last())
}

/// LTRIM takes the white characters from the front of a text, all of them and no others.
pub proof fn lemma_ltrim(name: Seq<char>, args: Seq<FunctionArgV>, row: Option<RowV>, ps: Seq<ValueV>, i: int) -> (parts: (Seq<char>, Seq<char>))
    requires
        0 <= i <= usize::MAX,
        text::lowercase(name) == "ltrim"@,
    ensures
        match given(args, row, ps, i, 0) {
            ValueV::Text(s) => match called(name, args, row, ps, i) {
                ValueV::Text(t) => s == parts.0 + t && is_blank(parts.0) && starts_black(t),
                _ => false,
            },
            v => called(name, args, row, ps, i) == v,
        },
{
    lemma_is_ltrim();
    let vs = lemma_called(name, args, row, ps, i);
    match given(args, row, ps, i, 0) {
        ValueV::Text(s) => {
            lemma_white_until(s, 0);
            let k = text::white_until(s, 0);
            assert(s =~= s.take(k) + text::trimmed_start(s));
            (s.take(k), Seq::empty())
        },
        _ => (Seq::empty(), Seq::empty()),
    }
}

/// RTRIM takes the white characters from the end of a text, all of them and no others.
pub proof fn lemma_rtrim(name: Seq<char>, args: Seq<FunctionArgV>, row: Option<RowV>, ps: Seq<ValueV>, i: int) -> (parts: (Seq<char>, Seq<char>))
    requires
        0 <= i <= usize::MAX,
        text::lowercase(name) == "rtrim"@,
    ensures
        match given(args, row, ps, i, 0) {
            ValueV::Text(s) => match called(name, args, row, ps, i) {
                ValueV::Text(t) => s == t + parts.1 && is_blank(parts.1) && ends_black(t),
                _ => false,
            },
            v => called(name, args, row, ps, i) == v,
        },
{
    lemma_is_rtrim();
    let vs = lemma_called(name, args, row, ps, i);
    match given(args, row, ps, i, 0) {
        ValueV::Text(s) => {
            lemma_white_back(s, s.len() as int);
            let k = text::white_back(s, s.len() as int);
            assert(s =~= text::trimmed_end(s) + s.skip(k));
            (Seq::empty(), s.skip(k))
        },
        _ => (Seq::empty(), Seq::empty()),
    }
}

/// TRIM takes the white characters from both ends of a text, all of them and no others.
pub proof fn lemma_trim(name: Seq<char>, args: Seq<FunctionArgV>, row: Option<RowV>, ps: Seq<ValueV>, i: int) -> (parts: (Seq<char>, Seq<char>))
    requires
        0 <= i <= usize::MAX,
        text::lowercase(name) == "trim"@,
    ensures
        match given(args, row, ps, i, 0) {
            ValueV::Text(s) => match called(name, args, row, ps, i) {
                ValueV::Text(t) => {
                    &&& s == parts.0 + t + parts.1
                    &&& is_blank(parts.0)
                    &&& is_blank(parts.1)
                    &&& starts_black(t)
                    &&& ends_black(t)
                },
                _ => false,
            },
            v => called(name, args, row, ps, i) == v,
        },
{
    lemma_is_trim();
    let vs = lemma_called(name, args, row, ps, i);
    match given(args, row, ps, i, 0) {
        ValueV::Text(s) => {
            lemma_white_until(s, 0);
            let k = text::white_until(s, 0);
            let m = text::trimmed_start(s);
            lemma_white_back(m, m.len() as int);
            let j = text::white_back(m, m.len() as int);
            assert(s =~= s.take(k) + text::trimmed_end(m) + m.skip(j));
            assert forall|h: int| 0 <= h < s.take(k).len() implies text::white(#[trigger] s.take(k)[h]) by {
                assert(text::white(s[h]));
            }
            assert forall|h: int| 0 <= h < m.skip(j).len() implies text::white(#[trigger] m.skip(j)[h]) by {
                assert(text::white(m[j + h]));
            }
            (s.take(k), m.skip(j))
        },
        _ => (Seq::empty(), Seq::empty()),
    }
}

proof fn lemma_replaced_before(s: Seq<char>, pat: Seq<char>, to: Seq<char>, i: int, j: int)
    requires
        0 <= i <= j <= s.len(),
        pat.len() > 0,
        forall|k: int| i <= k < j ==> !#[trigger] text::stands_at(s, pat, k),
    ensures
        text::replaced_from(s, pat, to, i) == s.subrange(i, j) + text::replaced_from(s, pat, to, j),
    decreases j - i,
{
    let rest = text::replaced_from(s, pat, to, j);
    if i < j {
        assert(!text::stands_at(s, pat, i));
        lemma_replaced_before(s, pat, to, i + 1, j);
        assert(seq![s[i]] + (s.subrange(i + 1, j) + rest) =~= s.subrange(i, j) + rest);
    } else {
        assert(s.subrange(i, j) + rest =~= rest);
    }
}

proof fn lemma_replaced_behind(s: Seq<char>, pat: Seq<char>, to: Seq<char>, i: int, j: int)
    requires
        0 <= i <= s.len(),
        0 <= j <= s.len() - i,
        pat.len() > 0,
    ensures
        text::replaced_from(s, pat, to, i + j) == text::replaced_from(s.skip(i), pat, to, j),
    decreases s.len() - i - j,
{
    let t = s.skip(i);
    if i + j < s.len() {
        assert(text::stands_at(s, pat, i + j) == text::stands_at(t, pat, j)) by {
            if i + j + pat.len() <= s.len() {
                assert(s.subrange(i + j, i + j + pat.len()) =~= t.subrange(j, j + pat.len()));
            }
        }
        if text::stands_at(s, pat, i + j) {
            lemma_replaced_behind(s, pat, to, i, j + pat.len() as int);
        } else {
            lemma_replaced_behind(s, pat, to, i, j + 1);
        }
    }
}

/// A text in which a pattern stands nowhere stays with each of it replaced; one in which it
/// first stands behind some characters has them, the replacement, and what is behind with each of
/// it replaced.
pub proof fn lemma_replaced_text(a: Seq<char>, pat: Seq<char>, b: Seq<char>, to: Seq<char>)
    requires
        pat.len() > 0,
    ensures
        (forall|k: int| 0 <= k < a.len() ==> !#[trigger] text::stands_at(a, pat, k)) ==> text::replaced(a, pat, to) == a,
        (forall|k: int| 0 <= k < a.len() ==> !#[trigger] text::stands_at(a + pat + b, pat, k)) ==> text::replaced(
            a + pat + b,
            pat,
            to,
        ) == a + to + text::replaced(b, pat, to),
{
    let s = a + pat + b;
    let n = a.len() as int;
    if forall|k: int| 0 <= k < a.len() ==> !#[trigger] text::stands_at(a, pat, k) {
        lemma_replaced_before(a, pat, to, 0, n);
        assert(a.subrange(0, n) + text::replaced_from(a, pat, to, n) =~= a);
    }
    if forall|k: int| 0 <= k < a.len() ==> !#[trigger] text::stands_at(s, pat, k) {
        lemma_replaced_before(s, pat, to, 0, n);
        assert(s.subrange(n, n + pat.len()) =~= pat);
        assert(text::stands_at(s, pat, n));
        let j = n + pat.len();
        lemma_replaced_behind(s, pat, to, j, 0);
        assert(s.skip(j) =~= b);
        assert(s.subrange(0, n) =~= a);
        assert(a + (to + text::replaced(b, pat, to)) =~= a + to + text::replaced(b, pat, to));
    }
}

/// REPLACE puts the third text in place of each of the second in the first, and is null where one of them is no text.
pub proof fn lemma_replace(name: Seq<char>, args: Seq<FunctionArgV>, row: Option<RowV>, ps: Seq<ValueV>, i: int)
    requires
        0 <= i <= usize::MAX,
        text::lowercase(name) == "replace"@,
    ensures
        called(name, args, row, ps, i) == (match (given(args, row, ps, i, 0), given(args, row, ps, i, 1), given(args, row, ps, i, 2)) {
            (ValueV::Text(s), ValueV::Text(f), ValueV::Text(t)) => ValueV::Text(text::replaced(s, f, t)),
            _ => ValueV::Null,
        }),
{
    lemma_is_replace();
    let vs = lemma_called(name, args, row, ps, i);
}

/// UPPER is the text in upper case, and all else as it is.
pub proof fn lemma_upper(name: Seq<char>, args: Seq<FunctionArgV>, row: Option<RowV>, ps: Seq<ValueV>, i: int)
    requires
        0 <= i <= usize::MAX,
        text::lowercase(name) == "upper"@,
    ensures
        called(name, args, row, ps, i) == (match given(args, row, ps, i, 0) {
            ValueV::Text(s) => ValueV::Text(text::uppercase(s)),
            v => v,
        }),
{
    lemma_is_upper();
    let vs = lemma_called(name, args, row, ps, i);
}

/// LOWER is the text in lower case, and all else as it is.
pub proof fn lemma_lower(name: Seq<char>, args: Seq<FunctionArgV>, row: Option<RowV>, ps: Seq<ValueV>, i: int)
    requires
        0 <= i <= usize::MAX,
        text::lowercase(name) == "lower"@,
    ensures
        called(name, args, row, ps, i) == (match given(args, row, ps, i, 0) {
            ValueV::Text(s) => ValueV::Text(text::lowercase(s)),
            v => v,
        }),
{
    lemma_is_lower();
    let vs = lemma_called(name, args, row, ps, i);
}

/// TYPEOF tells the kind of a value.
pub proof fn lemma_typeof(name: Seq<char>, args: Seq<FunctionArgV>, row: Option<RowV>, ps: Seq<ValueV>, i: int)
    requires
        0 <= i <= usize::MAX,
        text::lowercase(name) == "typeof"@,
    ensures
        called(name, args, row, ps, i) == ValueV::Text(
            match given(args, row, ps, i, 0) {
                ValueV::Null => "null"@,
                ValueV::Integer(_) => "integer"@,
                ValueV::Real(_) => "real"@,
                ValueV::Text(_) => "text"@,
                ValueV::Blob(_) => "blob"@,
            },
        ),
{
    lemma_is_typeof();
    let vs = lemma_called(name, args, row, ps, i);
}

/// Whether a text is a list of bytes, two digits for each, the high half first.
pub open spec fn spells(t: Seq<char>, bytes: Seq<u8>) -> bool {
    &&& t.len() == 2 * bytes.len()
    &&& forall|k: int|
        0 <= k < bytes.len() ==> t[2 * k] == codec::hex_digit(#[trigger] bytes[k] as int / 16) && t[2 * k + 1]
            == codec::hex_digit(bytes[k] as int % 16)
}

proof fn lemma_hex_text(bytes: Seq<u8>)
    ensures
        spells(codec::hex_text(bytes), bytes),
    decreases bytes.len(),
{
    if bytes.len() > 0 {
        let p = bytes.drop_last();
        lemma_hex_text(p);
        assert forall|k: int| 0 <= k < bytes.len() implies codec::hex_text(bytes)[2 * k] == codec::hex_digit(
            #[trigger] bytes[k] as int / 16,
        ) && codec::hex_text(bytes)[2 * k + 1] == codec::hex_digit(bytes[k] as int % 16) by {
            if k < p.len() {
                assert(p[k] == bytes[k]);
            }
        }
    }
}

/// HEX spells the bytes of a blob or a text.
pub proof fn lemma_hex(name: Seq<char>, args: Seq<FunctionArgV>, row: Option<RowV>, ps: Seq<ValueV>, i: int)
    requires
        0 <= i <= usize::MAX,
        text::lowercase(name) == "hex"@,
    ensures
        match (given(args, row, ps, i, 0), called(name, args, row, ps, i)) {
            (ValueV::Blob(s), ValueV::Text(t)) => spells(t, s),
            (ValueV::Text(s), ValueV::Text(t)) => spells(t, vstd::utf8::encode_utf8(s)),
            (ValueV::Blob(_), _) => false,
            (ValueV::Text(_), _) => false,
            (_, v) => v == ValueV::Null,
        },
{
    lemma_is_hex();
    let vs = lemma_called(name, args, row, ps, i);
    match given(args, row, ps, i, 0) {
        ValueV::Blob(s) => lemma_hex_text(s),
        ValueV::Text(s) => lemma_hex_text(vstd::utf8::encode_utf8(s)),
        _ => {},
    }
}

proof fn lemma_is_json_array()
    ensures
        "json_array"@ != "json_extract"@,
{
    reveal_strlit("json_array");
    reveal_strlit("json_extract");
    assert("json_array"@.len() != "json_extract"@.len());
}

proof fn lemma_is_json_set()
    ensures
        "json_set"@ != "json_extract"@,
        "json_set"@ != "json_array"@,
        "json_set"@ != "json_object"@,
{
    reveal_strlit("json_set");
    reveal_strlit("json_extract");
    reveal_strlit("json_array");
    reveal_strlit("json_object");
    assert("json_set"@.len() != "json_extract"@.len());
    assert("json_set"@.len() != "json_array"@.len());
    assert("json_set"@.len() != "json_object"@.len());
}

/// JSON_EXTRACT takes the value at a path, or at the root where it is given none, out of a text,
/// and is null where there is none.
pub proof fn lemma_json_extract(name: Seq<char>, args: Seq<FunctionArgV>, row: Option<RowV>, ps: Seq<ValueV>, i: int)
    requires
        0 <= i <= usize::MAX,
        text::lowercase(name) == "json_extract"@,
    ensures
        called(name, args, row, ps, i) == (match (given(args, row, ps, i, 0), given(args, row, ps, i, 1)) {
            (ValueV::Text(s), ValueV::Text(p)) => match json::extracted(s, p) {
                Ok(v) => v,
                Err(_) => ValueV::Null,
            },
            (ValueV::Text(s), _) => match json::extracted(s, "$"@) {
                Ok(v) => v,
                Err(_) => ValueV::Null,
            },
            _ => ValueV::Null,
        }),
{
    let vs = lemma_called(name, args, row, ps, i);
}

/// JSON_SET puts its third argument at the path that the second gives in the first, and is null
/// where it cannot.
pub proof fn lemma_json_set(name: Seq<char>, args: Seq<FunctionArgV>, row: Option<RowV>, ps: Seq<ValueV>, i: int)
    requires
        0 <= i <= usize::MAX,
        text::lowercase(name) == "json_set"@,
    ensures
        called(name, args, row, ps, i) == (match (given(args, row, ps, i, 0), given(args, row, ps, i, 1)) {
            (ValueV::Text(s), ValueV::Text(p)) => match json::with_value(s, p, given(args, row, ps, i, 2)) {
                Ok(t) => ValueV::Text(t),
                Err(_) => ValueV::Null,
            },
            _ => ValueV::Null,
        }),
{
    lemma_is_json_set();
    let vs = lemma_called(name, args, row, ps, i);
}

/// JSON_ARRAY is the text of an array with its arguments as members, in their order.
pub proof fn lemma_json_array(name: Seq<char>, args: Seq<FunctionArgV>, row: Option<RowV>, ps: Seq<ValueV>, i: int)
    requires
        0 <= i <= usize::MAX,
        text::lowercase(name) == "json_array"@,
    ensures
        called(name, args, row, ps, i) == ValueV::Text(
            "["@ + text::joined(Seq::new(args.len(), |k: int| json::value_json(given(args, row, ps, i, k))), ","@) + "]"@,
        ),
{
    lemma_is_json_array();
    let vs = lemma_called(name, args, row, ps, i);
    assert(json::value_texts(vs) =~= Seq::new(args.len(), |k: int| json::value_json(given(args, row, ps, i, k))));
}

} // verus!
