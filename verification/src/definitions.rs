//! What the statements that define tables do: what stands in the definition of a table, and what
//! becomes of its rows.
use vstd::prelude::*;

use crate::assoc;
use crate::ast::{AlterTableOperationV, ColumnOptionV, ColumnSpecV, ObjectTypeV, StatementV, TableConstraintV};
use crate::catalog;
use crate::error::ErrorV;
use crate::expr;
use crate::fts;
use crate::fts::FtsTableV;
use crate::row::RowV;
use crate::schema::{ColumnV, DataType, FkAction, ForeignKeyV, IndexV, SchemaV, UniqueV, ValueV};
use crate::sql;
use crate::sql::ddl;
use crate::state;
use crate::state::StateV;
use crate::text;
use crate::writes;

verus! {

/// Whether a definition of a column has an option.
pub open spec fn has_option(options: Seq<ColumnOptionV>, o: ColumnOptionV) -> bool {
    options.contains(o)
}

/// Whether a definition of a column makes it a key.
pub open spec fn is_key(options: Seq<ColumnOptionV>) -> bool {
    options.contains(ColumnOptionV::Unique { is_primary: true })
}

proof fn lemma_options(c: ColumnV, options: Seq<ColumnOptionV>, n: int)
    requires
        0 <= n <= options.len(),
    ensures
        ({
            let out = ddl::options_applied(c, options, n);
            let some = options.take(n);
            &&& out.name == c.name
            &&& out.data_type == c.data_type
            &&& out.primary_key == (c.primary_key || is_key(some))
            &&& out.unique == (c.unique || is_key(some) || has_option(some, ColumnOptionV::Unique { is_primary: false }))
            &&& out.not_null == (c.not_null || is_key(some) || has_option(some, ColumnOptionV::NotNull))
            &&& (forall|k: int| 0 <= k < n ==> !(#[trigger] options[k] is Default)) ==> out.default == c.default
            &&& (forall|k: int| 0 <= k < n ==> !(#[trigger] options[k] is Check)) ==> out.check_expr == c.check_expr
        }),
    decreases n,
{
    let some = options.take(n);
    if n > 0 {
        lemma_options(c, options, n - 1);
        let p = options.take(n - 1);
        assert(some =~= p.push(options[n - 1]));
        assert forall|o: ColumnOptionV| #[trigger] some.contains(o) == (p.contains(o) || options[n - 1] == o) by {
            if p.contains(o) {
                let k = choose|k: int| 0 <= k < p.len() && p[k] == o;
                assert(some[k] == o);
            }
            if options[n - 1] == o {
                assert(some[n - 1] == o);
            }
            if some.contains(o) && options[n - 1] != o {
                let k = choose|k: int| 0 <= k < some.len() && some[k] == o;
                assert(p[k] == o);
            }
        }
    } else {
        assert(some =~= Seq::empty());
    }
}

proof fn lemma_later_options(c: ColumnV, options: Seq<ColumnOptionV>, k: int, n: int)
    requires
        0 <= k < n <= options.len(),
    ensures
        (options[k] is Default && forall|j: int| k < j < n ==> !(#[trigger] options[j] is Default))
            ==> ddl::options_applied(c, options, n).default == Some(
            expr::eval_v(options[k]->Default_0, None, Seq::empty(), 0).0,
        ),
        (options[k] is Check && forall|j: int| k < j < n ==> !(#[trigger] options[j] is Check))
            ==> ddl::options_applied(c, options, n).check_expr == Some(options[k]->Check_0),
    decreases n,
{
    if k < n - 1 {
        lemma_later_options(c, options, k, n - 1);
    }
}

/// A column has its name and type, is a key where it is defined as one, holds no null where it
/// says so or is a key, holds no value twice where it says so or is a key, and has the default and
/// the check that it gives last.
pub proof fn lemma_column(c: ColumnSpecV, k: int)
    ensures
        ({
            let out = ddl::column_of(c);
            let os = c.options;
            &&& out.name == c.name
            &&& out.data_type == ddl::data_type_of(c.data_type)
            &&& out.primary_key == is_key(os)
            &&& out.unique == (is_key(os) || has_option(os, ColumnOptionV::Unique { is_primary: false }))
            &&& out.not_null == (is_key(os) || has_option(os, ColumnOptionV::NotNull))
            &&& (forall|j: int| 0 <= j < os.len() ==> !(#[trigger] os[j] is Default)) ==> out.default is None
            &&& (forall|j: int| 0 <= j < os.len() ==> !(#[trigger] os[j] is Check)) ==> out.check_expr is None
            &&& (0 <= k < os.len() && os[k] is Default && forall|j: int| k < j < os.len() ==> !(#[trigger] os[j] is Default))
                ==> out.default == Some(expr::eval_v(os[k]->Default_0, None, Seq::empty(), 0).0)
            &&& (0 <= k < os.len() && os[k] is Check && forall|j: int| k < j < os.len() ==> !(#[trigger] os[j] is Check))
                ==> out.check_expr == Some(os[k]->Check_0)
        }),
{
    let os = c.options;
    let n = os.len() as int;
    let bare = ddl::bare_column(c.name, ddl::data_type_of(c.data_type));
    lemma_options(bare, os, n);
    assert(os.take(n) =~= os);
    if 0 <= k < n {
        lemma_later_options(bare, os, k, n);
    }
}

/// Whether no two columns of a definition have one name.
pub open spec fn names_differ(specs: Seq<ColumnSpecV>) -> bool {
    forall|i: int, j: int| 0 <= i < j < specs.len() ==> (#[trigger] specs[i]).name != (#[trigger] specs[j]).name
}

proof fn lemma_defined(specs: Seq<ColumnSpecV>, n: int)
    requires
        0 <= n <= specs.len(),
        names_differ(specs),
    ensures
        ddl::defined_columns(specs, n).len() == n,
        forall|k: int|
            0 <= k < n ==> #[trigger] ddl::defined_columns(specs, n)[k] == (specs[k].name, ddl::column_of(specs[k])),
    decreases n,
{
    if n > 0 {
        lemma_defined(specs, n - 1);
        let p = ddl::defined_columns(specs, n - 1);
        assert forall|k: int| 0 <= k < p.len() implies (#[trigger] p[k]).0 != specs[n - 1].name by {
            assert(specs[k].name != specs[n - 1].name);
        }
        assoc::lemma_put_absent(p, specs[n - 1].name, ddl::column_of(specs[n - 1]));
    }
}

/// Whether a table definition makes a column part of its primary key.
pub open spec fn in_primary(cs: Seq<TableConstraintV>, c: Seq<char>) -> bool {
    exists|k: int|
        0 <= k < cs.len() && match #[trigger] cs[k] {
            TableConstraintV::Unique { columns, is_primary } => is_primary && columns.contains(c),
            _ => false,
        }
}

/// Whether a table definition makes a column, by itself, a key.
pub open spec fn is_keyed_alone(cs: Seq<TableConstraintV>, primary: bool, c: Seq<char>) -> bool {
    exists|k: int|
        0 <= k < cs.len() && match #[trigger] cs[k] {
            TableConstraintV::Unique { columns, is_primary } => is_primary == primary && columns == seq![c],
            _ => false,
        }
}

/// Whether one column is another but for what keys ask of it.
pub open spec fn keyed_from(a: ColumnV, b: ColumnV, primary: bool, unique: bool, not_null: bool) -> bool {
    b == (ColumnV {
        primary_key: a.primary_key || primary,
        unique: a.unique || unique,
        not_null: a.not_null || not_null,
        ..a
    })
}

proof fn lemma_keyed(columns: Seq<(Seq<char>, ColumnV)>, names: Seq<Seq<char>>, is_primary: bool, n: int)
    requires
        0 <= n <= names.len(),
        assoc::assoc_distinct(columns),
    ensures
        ({
            let out = ddl::keyed_columns(columns, names, is_primary, n);
            let some = names.take(n);
            &&& out.len() == columns.len()
            &&& forall|k: int|
                0 <= k < columns.len() ==> (#[trigger] out[k]).0 == columns[k].0 && keyed_from(
                    columns[k].1,
                    out[k].1,
                    is_primary && names.len() == 1 && some.contains(columns[k].0),
                    !is_primary && names.len() == 1 && some.contains(columns[k].0),
                    is_primary && some.contains(columns[k].0),
                )
        }),
    decreases n,
{
    let some = names.take(n);
    if n == 0 {
        assert(some =~= Seq::empty());
    } else {
        lemma_keyed(columns, names, is_primary, n - 1);
        let p = ddl::keyed_columns(columns, names, is_primary, n - 1);
        let earlier = names.take(n - 1);
        let name = names[n - 1];
        assert(some =~= earlier.push(name));
        assert forall|x: Seq<char>| #[trigger] some.contains(x) == (earlier.contains(x) || x == name) by {
            if earlier.contains(x) {
                let k = choose|k: int| 0 <= k < earlier.len() && earlier[k] == x;
                assert(some[k] == x);
            }
            if x == name {
                assert(some[n - 1] == x);
            }
            if some.contains(x) && x != name {
                let k = choose|k: int| 0 <= k < some.len() && some[k] == x;
                assert(earlier[k] == x);
            }
        }
        if exists|i: int| 0 <= i < p.len() && (#[trigger] p[i]).0 == name {
            let i = choose|i: int| 0 <= i < p.len() && (#[trigger] p[i]).0 == name;
            assert forall|j: int| 0 <= j < i implies (#[trigger] p[j]).0 != name by {
                assert(columns[j].0 != columns[i].0);
            }
            assoc::lemma_get_at(p, name, i);
            let out = ddl::keyed_columns(columns, names, is_primary, n);
            assert(out == p.update(i, (name, ddl::keyed_column(p[i].1, is_primary, names.len() == 1))));
            assert forall|k: int| 0 <= k < columns.len() implies (#[trigger] out[k]).0 == columns[k].0 && keyed_from(
                columns[k].1,
                out[k].1,
                is_primary && names.len() == 1 && some.contains(columns[k].0),
                !is_primary && names.len() == 1 && some.contains(columns[k].0),
                is_primary && some.contains(columns[k].0),
            ) by {
                assert(p[k].0 == columns[k].0);
                if k != i {
                    assert(columns[k].0 != name) by {
                        if k < i {
                            assert(columns[k].0 != columns[i].0);
                        } else {
                            assert(columns[i].0 != columns[k].0);
                        }
                    }
                }
            }
        } else {
            assoc::lemma_get_absent(p, name);
            assert forall|k: int| 0 <= k < columns.len() implies columns[k].0 != name by {
                assert(p[k].0 == columns[k].0);
            }
        }
    }
}

proof fn lemma_constraints(p: ddl::PartsV, cs: Seq<TableConstraintV>, n: int)
    requires
        0 <= n <= cs.len(),
        assoc::assoc_distinct(p.columns),
    ensures
        ({
            let out = ddl::constraints_applied(p, cs, n);
            let some = cs.take(n);
            &&& out.columns.len() == p.columns.len()
            &&& forall|k: int|
                0 <= k < p.columns.len() ==> (#[trigger] out.columns[k]).0 == p.columns[k].0 && keyed_from(
                    p.columns[k].1,
                    out.columns[k].1,
                    is_keyed_alone(some, true, p.columns[k].0),
                    is_keyed_alone(some, false, p.columns[k].0),
                    in_primary(some, p.columns[k].0),
                )
        }),
    decreases n,
{
    let some = cs.take(n);
    if n > 0 {
        lemma_constraints(p, cs, n - 1);
        let q = ddl::constraints_applied(p, cs, n - 1);
        let earlier = cs.take(n - 1);
        let out = ddl::constraints_applied(p, cs, n);
        assert(assoc::assoc_distinct(q.columns)) by {
            assert forall|i: int, j: int| 0 <= i < j < q.columns.len() implies (#[trigger] q.columns[i]).0 != (#[trigger] q.columns[j]).0 by {
                assert(p.columns[i].0 != p.columns[j].0);
            }
        }
        assert forall|k: int| 0 <= k < p.columns.len() implies (#[trigger] out.columns[k]).0 == p.columns[k].0 && keyed_from(
            p.columns[k].1,
            out.columns[k].1,
            is_keyed_alone(some, true, p.columns[k].0),
            is_keyed_alone(some, false, p.columns[k].0),
            in_primary(some, p.columns[k].0),
        ) by {
            let c = p.columns[k].0;
            assert(q.columns[k].0 == c);
            lemma_one_more(cs, n, c);
            match cs[n - 1] {
                TableConstraintV::Unique { columns, is_primary } => {
                    lemma_keyed(q.columns, columns, is_primary, columns.len() as int);
                    assert(columns.take(columns.len() as int) =~= columns);
                    assert((columns.len() == 1 && columns.contains(c)) == (columns == seq![c])) by {
                        if columns.len() == 1 && columns.contains(c) {
                            assert(columns =~= seq![c]);
                        }
                        if columns == seq![c] {
                            assert(columns[0] == c);
                        }
                    }
                },
                _ => {},
            }
        }
        assert(out.columns.len() == p.columns.len()) by {
            match cs[n - 1] {
                TableConstraintV::Unique { columns, is_primary } => {
                    lemma_keyed(q.columns, columns, is_primary, columns.len() as int);
                },
                _ => {},
            }
        }
    }
}

proof fn lemma_one_more(cs: Seq<TableConstraintV>, n: int, c: Seq<char>)
    requires
        0 < n <= cs.len(),
    ensures
        in_primary(cs.take(n), c) == (in_primary(cs.take(n - 1), c) || match cs[n - 1] {
            TableConstraintV::Unique { columns, is_primary } => is_primary && columns.contains(c),
            _ => false,
        }),
        forall|primary: bool|
            #[trigger] is_keyed_alone(cs.take(n), primary, c) == (is_keyed_alone(cs.take(n - 1), primary, c) || match cs[n - 1] {
                TableConstraintV::Unique { columns, is_primary } => is_primary == primary && columns == seq![c],
                _ => false,
            }),
{
    let some = cs.take(n);
    let earlier = cs.take(n - 1);
    assert(some[n - 1] == cs[n - 1]);
    assert forall|k: int| 0 <= k < n - 1 implies #[trigger] some[k] == earlier[k] by {}
    assert forall|k: int| 0 <= k < n - 1 implies #[trigger] earlier[k] == some[k] by {}
    if in_primary(earlier, c) {
        let k = choose|k: int|
            0 <= k < earlier.len() && match #[trigger] earlier[k] {
                TableConstraintV::Unique { columns, is_primary } => is_primary && columns.contains(c),
                _ => false,
            };
        assert(some[k] == earlier[k]);
    }
    assert forall|primary: bool|
        #[trigger] is_keyed_alone(some, primary, c) == (is_keyed_alone(earlier, primary, c) || match cs[n - 1] {
            TableConstraintV::Unique { columns, is_primary } => is_primary == primary && columns == seq![c],
            _ => false,
        }) by {
        if is_keyed_alone(earlier, primary, c) {
            let k = choose|k: int|
                0 <= k < earlier.len() && match #[trigger] earlier[k] {
                    TableConstraintV::Unique { columns, is_primary } => is_primary == primary && columns == seq![c],
                    _ => false,
                };
            assert(some[k] == earlier[k]);
        }
        if is_keyed_alone(some, primary, c) {
            let k = choose|k: int|
                0 <= k < some.len() && match #[trigger] some[k] {
                    TableConstraintV::Unique { columns, is_primary } => is_primary == primary && columns == seq![c],
                    _ => false,
                };
            if k < n - 1 {
                assert(earlier[k] == some[k]);
            }
        }
    }
    if in_primary(some, c) {
        let k = choose|k: int|
            0 <= k < some.len() && match #[trigger] some[k] {
                TableConstraintV::Unique { columns, is_primary } => is_primary && columns.contains(c),
                _ => false,
            };
        if k < n - 1 {
            assert(earlier[k] == some[k]);
        }
    }
}

proof fn lemma_listed_constraints(p: ddl::PartsV, cs: Seq<TableConstraintV>, n: int, u: UniqueV, t: Seq<char>)
    requires
        0 <= n <= cs.len(),
    ensures
        ({
            let out = ddl::constraints_applied(p, cs, n);
            &&& out.unique_groups.contains(u) == (p.unique_groups.contains(u) || cs.take(n).contains(
                TableConstraintV::Unique { columns: u.columns, is_primary: u.is_primary },
            ))
            &&& out.table_checks.contains(t) == (p.table_checks.contains(t) || cs.take(n).contains(TableConstraintV::Check(t)))
        }),
    decreases n,
{
    let some = cs.take(n);
    if n > 0 {
        lemma_listed_constraints(p, cs, n - 1, u, t);
        let q = ddl::constraints_applied(p, cs, n - 1);
        let out = ddl::constraints_applied(p, cs, n);
        let earlier = cs.take(n - 1);
        assert(some =~= earlier.push(cs[n - 1]));
        lemma_pushed(earlier, cs[n - 1], TableConstraintV::Unique { columns: u.columns, is_primary: u.is_primary });
        lemma_pushed(earlier, cs[n - 1], TableConstraintV::Check(t));
        match cs[n - 1] {
            TableConstraintV::Unique { columns, is_primary } => lemma_pushed(q.unique_groups, UniqueV { columns, is_primary }, u),
            TableConstraintV::Check(x) => lemma_pushed(q.table_checks, x, t),
            _ => {},
        }
    } else {
        assert(some =~= Seq::empty());
    }
}

pub(crate) proof fn lemma_pushed<T>(s: Seq<T>, x: T, y: T)
    ensures
        s.push(x).contains(y) == (s.contains(y) || x == y),
{
    let t = s.push(x);
    if s.contains(y) {
        let k = choose|k: int| 0 <= k < s.len() && s[k] == y;
        assert(t[k] == y);
    }
    if x == y {
        assert(t[s.len() as int] == y);
    }
    if t.contains(y) && x != y {
        let k = choose|k: int| 0 <= k < t.len() && t[k] == y;
        assert(s[k] == y);
    }
}

/// What a table has for a column of its definition: the column as it is defined, with what the
/// keys of the table ask of it.
pub open spec fn has_column(d: SchemaV, c: ColumnSpecV, cs: Seq<TableConstraintV>, k: int) -> bool {
    d.columns[k].0 == c.name && keyed_from(
        ddl::column_of(c),
        d.columns[k].1,
        is_keyed_alone(cs, true, c.name),
        is_keyed_alone(cs, false, c.name),
        in_primary(cs, c.name),
    )
}

/// CREATE TABLE makes an empty table whose ids begin at one, with the columns of its definition
/// in their order, and each key and check of the definition. Where there is a table of that name
/// it changes nothing, and succeeds only where it was told to let that pass. It leaves all other
/// tables.
pub proof fn lemma_create_table(
    depth: nat,
    s: StateV,
    db: u32,
    name: Seq<char>,
    columns: Seq<ColumnSpecV>,
    constraints: Seq<TableConstraintV>,
    if_not_exists: bool,
    ps: Seq<ValueV>,
    tx: Option<u32>,
    other: Seq<char>,
    u: UniqueV,
    check: Seq<char>,
)
    requires
        names_differ(columns),
        other != name,
    ensures
        ({
            let (t, r) = sql::ran(depth, s, db, StatementV::CreateTable { name, columns, constraints, if_not_exists }, ps, tx);
            &&& state::table_schema(s, db, name) is Some ==> t == s && (r is Ok) == if_not_exists
            &&& state::table_schema(s, db, name) is None ==> {
                &&& r is Ok
                &&& state::table_rows(t, db, name) == Some(Map::<u64, RowV>::empty())
                &&& state::next_rowid(t, db, name) == 1
                &&& match state::table_schema(t, db, name) {
                    Some(d) => {
                        &&& d.name == name
                        &&& d.columns.len() == columns.len()
                        &&& forall|k: int| 0 <= k < columns.len() ==> has_column(d, #[trigger] columns[k], constraints, k)
                        &&& d.unique_groups.contains(u) == constraints.contains(
                            TableConstraintV::Unique { columns: u.columns, is_primary: u.is_primary },
                        )
                        &&& d.table_checks.contains(check) == constraints.contains(TableConstraintV::Check(check))
                        &&& d.indices.len() == 0
                    },
                    None => false,
                }
                &&& state::table_schema(t, db, other) == state::table_schema(s, db, other)
                &&& state::table_rows(t, db, other) == state::table_rows(s, db, other)
                &&& state::next_rowid(t, db, other) == state::next_rowid(s, db, other)
                &&& t.triggers == s.triggers
            }
        }),
{
    if state::table_schema(s, db, name) is None {
        let d = ddl::schema_of(name, columns, constraints);
        let n = columns.len() as int;
        lemma_defined(columns, n);
        let parts = ddl::PartsV {
            columns: ddl::defined_columns(columns, n),
            primary_keys: ddl::own_keys(columns, n),
            foreign_keys: Seq::empty(),
            unique_groups: Seq::empty(),
            table_checks: Seq::empty(),
        };
        assert(assoc::assoc_distinct(parts.columns)) by {
            assert forall|i: int, j: int| 0 <= i < j < parts.columns.len() implies (#[trigger] parts.columns[i]).0 != (
            #[trigger] parts.columns[j]).0 by {
                assert(columns[i].name != columns[j].name);
            }
        }
        let m = constraints.len() as int;
        lemma_constraints(parts, constraints, m);
        lemma_listed_constraints(parts, constraints, m, u, check);
        assert(constraints.take(m) =~= constraints);
        assert forall|k: int| 0 <= k < columns.len() implies has_column(d, #[trigger] columns[k], constraints, k) by {
            assert(parts.columns[k] == (columns[k].name, ddl::column_of(columns[k])));
            assert(d.columns[k].0 == parts.columns[k].0);
        }
        assoc::lemma_get_put(s.schemas.items, (db, name), d);
        assoc::lemma_get_put(s.dbs.items, (db, name), Map::<u64, RowV>::empty());
        assoc::lemma_get_put(s.generators.items, (db, name), 1u64);
        assoc::lemma_get_put_other(s.schemas.items, (db, name), d, (db, other));
        assoc::lemma_get_put_other(s.dbs.items, (db, name), Map::<u64, RowV>::empty(), (db, other));
        assoc::lemma_get_put_other(s.generators.items, (db, name), 1u64, (db, other));
    }
}

/// DROP TABLE takes a table away, with its rows, and leaves all others; a table that is not there
/// can be dropped only by IF EXISTS.
pub proof fn lemma_drop_table(
    depth: nat,
    s: StateV,
    db: u32,
    name: Seq<char>,
    if_exists: bool,
    ps: Seq<ValueV>,
    tx: Option<u32>,
    other: Seq<char>,
)
    requires
        assoc::assoc_distinct(s.schemas.items),
        assoc::assoc_distinct(s.dbs.items),
        other != name,
    ensures
        ({
            let stmt = StatementV::Drop { object: ObjectTypeV::Table, if_exists, names: seq![name] };
            let (t, r) = sql::ran(depth, s, db, stmt, ps, tx);
            &&& (r is Ok) == (if_exists || state::table_schema(s, db, name) is Some)
            &&& r is Ok ==> state::table_schema(t, db, name) is None && state::table_rows(t, db, name) is None
            &&& state::table_schema(t, db, other) == state::table_schema(s, db, other)
            &&& state::table_rows(t, db, other) == state::table_rows(s, db, other)
            &&& state::next_rowid(t, db, other) == state::next_rowid(s, db, other)
            &&& state::triggers_of(t, db, other) == state::triggers_of(s, db, other)
        }),
{
    let names = seq![name];
    assert(ddl::tables_dropped(s, db, names, if_exists, 0) == (s, None::<ErrorV>));
    assoc::lemma_get_remove(s.schemas.items, (db, name));
    assoc::lemma_get_remove(s.dbs.items, (db, name));
    assoc::lemma_get_remove_other(s.schemas.items, (db, name), (db, other));
    assoc::lemma_get_remove_other(s.dbs.items, (db, name), (db, other));
    assoc::lemma_get_remove_other(s.generators.items, (db, name), (db, other));
    assoc::lemma_get_remove_other(s.triggers.items, (db, name), (db, other));
    assert(names[0] == name);
}

proof fn lemma_rebuilt_fields(s: StateV, db: u32, table: Seq<char>, indices: Seq<IndexV>, n: int)
    requires
        0 <= n <= indices.len(),
    ensures
        ({
            let t = ddl::indexes_rebuilt(s, db, table, indices, n);
            t == (StateV { indexes: t.indexes, ..s })
        }),
    decreases n,
{
    if n > 0 {
        lemma_rebuilt_fields(s, db, table, indices, n - 1);
    }
}

proof fn lemma_dropped_fields(s: StateV, db: u32, table: Seq<char>, indices: Seq<IndexV>, n: int)
    requires
        0 <= n <= indices.len(),
    ensures
        ({
            let t = ddl::indexes_dropped(s, db, table, indices, n);
            t == (StateV { indexes: t.indexes, ..s })
        }),
    decreases n,
{
    if n > 0 {
        lemma_dropped_fields(s, db, table, indices, n - 1);
    }
}

proof fn lemma_reshaped(s: StateV, db: u32, table: Seq<char>, d: SchemaV, c: ddl::RowChangeV, m: Map<u64, RowV>, other: Seq<char>)
    requires
        state::table_rows(s, db, table) == Some(m),
        other != table,
    ensures
        ({
            let t = ddl::reshaped(s, db, table, d, c);
            &&& state::table_schema(t, db, table) == Some(d)
            &&& state::table_rows(t, db, table) == Some(ddl::rows_changed(m, c))
            &&& state::table_schema(t, db, other) == state::table_schema(s, db, other)
            &&& state::table_rows(t, db, other) == state::table_rows(s, db, other)
            &&& t.generators == s.generators
            &&& t.triggers == s.triggers
        }),
{
    let a = ddl::table_changed(s, db, table, c);
    let b = StateV { schemas: catalog::with(a.schemas, db, table, d), ..a };
    lemma_rebuilt_fields(b, db, table, d.indices, d.indices.len() as int);
    assoc::lemma_get_put(s.dbs.items, (db, table), ddl::rows_changed(m, c));
    assoc::lemma_get_put(a.schemas.items, (db, table), d);
    assoc::lemma_get_put_other(s.dbs.items, (db, table), ddl::rows_changed(m, c), (db, other));
    assoc::lemma_get_put_other(a.schemas.items, (db, table), d, (db, other));
}

/// One change of a table.
pub open spec fn altering(name: Seq<char>, op: AlterTableOperationV) -> StatementV {
    StatementV::AlterTable { name, if_exists: false, operations: seq![op] }
}

proof fn lemma_one_change(s: StateV, db: u32, table: Seq<char>, op: AlterTableOperationV)
    ensures
        ddl::altered(s, db, table, seq![op], 1) == ddl::alter_step(s, db, table, op),
{
    let ops = seq![op];
    assert(ddl::altered(s, db, table, ops, 0) == (s, table, None::<ErrorV>));
    assert(ops[0] == op);
}

/// Whether a table was changed and all others left.
pub open spec fn only_changed(s: StateV, t: StateV, db: u32, table: Seq<char>, d: SchemaV, m: Map<u64, RowV>, other: Seq<char>) -> bool {
    &&& state::table_schema(t, db, table) == Some(d)
    &&& state::table_rows(t, db, table) == Some(m)
    &&& state::table_schema(t, db, other) == state::table_schema(s, db, other)
    &&& state::table_rows(t, db, other) == state::table_rows(s, db, other)
    &&& t.generators == s.generators
    &&& t.triggers == s.triggers
}

/// ADD COLUMN puts a column behind the others of a table, unless there is one of its name; every
/// row gets its default there, or null where it has none, and keeps all else.
pub proof fn lemma_add_column(
    depth: nat,
    s: StateV,
    db: u32,
    table: Seq<char>,
    c: ColumnSpecV,
    ps: Seq<ValueV>,
    tx: Option<u32>,
    d: SchemaV,
    m: Map<u64, RowV>,
    id: u64,
    cell: Seq<char>,
    other: Seq<char>,
)
    requires
        s.schemas.known.contains(db),
        state::table_schema(s, db, table) == Some(d),
        state::table_rows(s, db, table) == Some(m),
        other != table,
    ensures
        ({
            let (t, r) = sql::ran(depth, s, db, altering(table, AlterTableOperationV::AddColumn(c)), ps, tx);
            let exists_already = exists|k: int| 0 <= k < d.columns.len() && (#[trigger] d.columns[k]).0 == c.name;
            &&& exists_already ==> r is Err && t == s
            &&& !exists_already ==> r is Ok && match (state::table_schema(t, db, table), state::table_rows(t, db, table)) {
                (Some(e), Some(w)) => {
                    &&& only_changed(s, t, db, table, e, w, other)
                    &&& e == (SchemaV { columns: d.columns.push((c.name, ddl::column_of(c))), ..d })
                    &&& w.contains_key(id) == m.contains_key(id)
                    &&& m.contains_key(id) ==> assoc::assoc_get(w[id], cell) == (if cell == c.name {
                        Some(
                            match ddl::column_of(c).default {
                                Some(v) => v,
                                None => ValueV::Null,
                            },
                        )
                    } else {
                        assoc::assoc_get(m[id], cell)
                    })
                },
                _ => false,
            }
        }),
{
    let op = AlterTableOperationV::AddColumn(c);
    lemma_one_change(s, db, table, op);
    let col = ddl::column_of(c);
    lemma_column(c, 0);
    if exists|k: int| 0 <= k < d.columns.len() && (#[trigger] d.columns[k]).0 == c.name {
        let k = choose|k: int| 0 <= k < d.columns.len() && (#[trigger] d.columns[k]).0 == c.name;
        lemma_some_named(d.columns, k);
    } else {
        assoc::lemma_put_absent(d.columns, c.name, col);
        let v = match col.default {
            Some(v) => v,
            None => ValueV::Null,
        };
        let e = SchemaV { columns: d.columns.push((c.name, col)), ..d };
        lemma_reshaped(s, db, table, e, ddl::RowChangeV::Put(c.name, v), m, other);
        if m.contains_key(id) {
            assoc::lemma_get_put(m[id], c.name, v);
            if cell != c.name {
                assoc::lemma_get_put_other(m[id], c.name, v, cell);
            }
        }
    }
}

proof fn lemma_some_named<V>(columns: Seq<(Seq<char>, V)>, k: int)
    requires
        0 <= k < columns.len(),
    ensures
        assoc::assoc_get(columns, columns[k].0) is Some,
    decreases columns.len(),
{
    if columns[0].0 != columns[k].0 {
        assert(columns.drop_first()[k - 1] == columns[k]);
        lemma_some_named(columns.drop_first(), k - 1);
    }
}

/// DROP COLUMN takes a column from a table and from every row of it, and leaves all else; a column
/// that is not there can be dropped only by IF EXISTS.
pub proof fn lemma_drop_column(
    depth: nat,
    s: StateV,
    db: u32,
    table: Seq<char>,
    column: Seq<char>,
    if_exists: bool,
    ps: Seq<ValueV>,
    tx: Option<u32>,
    d: SchemaV,
    m: Map<u64, RowV>,
    id: u64,
    cell: Seq<char>,
    other: Seq<char>,
)
    requires
        s.schemas.known.contains(db),
        state::table_schema(s, db, table) == Some(d),
        state::table_rows(s, db, table) == Some(m),
        assoc::assoc_distinct(d.columns),
        m.contains_key(id) ==> assoc::assoc_distinct(m[id]),
        other != table,
    ensures
        ({
            let op = AlterTableOperationV::DropColumn { column, if_exists };
            let (t, r) = sql::ran(depth, s, db, altering(table, op), ps, tx);
            &&& (r is Ok) == (if_exists || assoc::assoc_get(d.columns, column) is Some)
            &&& r is Err ==> t == s
            &&& r is Ok ==> match (state::table_schema(t, db, table), state::table_rows(t, db, table)) {
                (Some(e), Some(w)) => {
                    &&& only_changed(s, t, db, table, e, w, other)
                    &&& assoc::assoc_get(e.columns, column) is None
                    &&& cell != column ==> assoc::assoc_get(e.columns, cell) == assoc::assoc_get(d.columns, cell)
                    &&& w.contains_key(id) == m.contains_key(id)
                    &&& m.contains_key(id) ==> assoc::assoc_get(w[id], cell) == (if cell == column {
                        None
                    } else {
                        assoc::assoc_get(m[id], cell)
                    })
                },
                _ => false,
            }
        }),
{
    let op = AlterTableOperationV::DropColumn { column, if_exists };
    lemma_one_change(s, db, table, op);
    let e = SchemaV {
        columns: assoc::assoc_remove(d.columns, column),
        rowid_column: if d.rowid_column == Some(column) {
            None
        } else {
            d.rowid_column
        },
        ..d
    };
    lemma_reshaped(s, db, table, e, ddl::RowChangeV::Take(column), m, other);
    assoc::lemma_get_remove(d.columns, column);
    if cell != column {
        assoc::lemma_get_remove_other(d.columns, column, cell);
    }
    if m.contains_key(id) {
        assoc::lemma_get_remove(m[id], column);
        if cell != column {
            assoc::lemma_get_remove_other(m[id], column, cell);
        }
    }
}

/// RENAME COLUMN gives a column a new name that no other has: it keeps its place and all that it
/// asks, every row has its value under the new name, and all else stays. A column that is not there
/// cannot be renamed.
pub proof fn lemma_rename_column(
    depth: nat,
    s: StateV,
    db: u32,
    table: Seq<char>,
    old_name: Seq<char>,
    new_name: Seq<char>,
    ps: Seq<ValueV>,
    tx: Option<u32>,
    d: SchemaV,
    m: Map<u64, RowV>,
    k: int,
    id: u64,
    cell: Seq<char>,
    other: Seq<char>,
)
    requires
        s.schemas.known.contains(db),
        state::table_schema(s, db, table) == Some(d),
        state::table_rows(s, db, table) == Some(m),
        assoc::assoc_distinct(d.columns),
        m.contains_key(id) ==> assoc::assoc_distinct(m[id]),
        forall|j: int| 0 <= j < d.columns.len() ==> (#[trigger] d.columns[j]).0 != new_name,
        old_name != new_name,
        other != table,
    ensures
        ({
            let op = AlterTableOperationV::RenameColumn { old_name, new_name };
            let (t, r) = sql::ran(depth, s, db, altering(table, op), ps, tx);
            &&& (r is Ok) == (exists|j: int| 0 <= j < d.columns.len() && (#[trigger] d.columns[j]).0 == old_name)
            &&& r is Err ==> t == s
            &&& r is Ok ==> match (state::table_schema(t, db, table), state::table_rows(t, db, table)) {
                (Some(e), Some(w)) => {
                    &&& only_changed(s, t, db, table, e, w, other)
                    &&& e.columns.len() == d.columns.len()
                    &&& 0 <= k < d.columns.len() ==> e.columns[k] == (if d.columns[k].0 == old_name {
                        (new_name, ColumnV { name: new_name, ..d.columns[k].1 })
                    } else {
                        d.columns[k]
                    })
                    &&& w.contains_key(id) == m.contains_key(id)
                    &&& m.contains_key(id) && assoc::assoc_get(m[id], old_name) is Some ==> assoc::assoc_get(w[id], cell) == (
                    if cell == new_name {
                        assoc::assoc_get(m[id], old_name)
                    } else if cell == old_name {
                        None
                    } else {
                        assoc::assoc_get(m[id], cell)
                    })
                    &&& m.contains_key(id) && assoc::assoc_get(m[id], old_name) is None ==> w[id] == m[id]
                },
                _ => false,
            }
        }),
{
    let op = AlterTableOperationV::RenameColumn { old_name, new_name };
    lemma_one_change(s, db, table, op);
    if exists|j: int| 0 <= j < d.columns.len() && (#[trigger] d.columns[j]).0 == old_name {
        let j = choose|j: int| 0 <= j < d.columns.len() && (#[trigger] d.columns[j]).0 == old_name;
        assert forall|i: int| 0 <= i < j implies (#[trigger] d.columns[i]).0 != old_name by {
            assert(d.columns[i].0 != d.columns[j].0);
        }
        assoc::lemma_get_at(d.columns, old_name, j);
        let rest = assoc::assoc_remove(d.columns, old_name);
        assert(rest == d.columns.remove(j));
        assert forall|i: int| 0 <= i < rest.len() implies (#[trigger] rest[i]).0 != new_name by {
            if i < j {
                assert(rest[i] == d.columns[i]);
            } else {
                assert(rest[i] == d.columns[i + 1]);
            }
        }
        assoc::lemma_remove_absent(rest, new_name);
        assoc::lemma_get_absent(rest, new_name);
        let c = d.columns[j].1;
        let e = SchemaV {
            columns: rest.insert(j, (new_name, ColumnV { name: new_name, ..c })),
            rowid_column: if d.rowid_column == Some(old_name) {
                Some(new_name)
            } else {
                d.rowid_column
            },
            ..d
        };
        lemma_reshaped(s, db, table, e, ddl::RowChangeV::Rename(old_name, new_name), m, other);
        if 0 <= k < d.columns.len() && k != j {
            assert(d.columns[k].0 != old_name) by {
                if k < j {
                    assert(d.columns[k].0 != d.columns[j].0);
                } else {
                    assert(d.columns[j].0 != d.columns[k].0);
                }
            }
        }
        if m.contains_key(id) && assoc::assoc_get(m[id], old_name) is Some {
            let v = assoc::assoc_get(m[id], old_name)->0;
            let p = assoc::assoc_remove(m[id], old_name);
            assoc::lemma_get_remove(m[id], old_name);
            assoc::lemma_get_put(p, new_name, v);
            if cell != new_name {
                assoc::lemma_get_put_other(p, new_name, v, cell);
                if cell != old_name {
                    assoc::lemma_get_remove_other(m[id], old_name, cell);
                }
            }
        }
    } else {
        assoc::lemma_get_absent(d.columns, old_name);
    }
}

/// RENAME TO puts a table, with its definition, its rows and its next id, under a new name that no
/// table has: nothing is left under the old one, and all other tables stay.
pub proof fn lemma_rename_table(
    depth: nat,
    s: StateV,
    db: u32,
    table: Seq<char>,
    to: Seq<char>,
    ps: Seq<ValueV>,
    tx: Option<u32>,
    d: SchemaV,
    m: Map<u64, RowV>,
    other: Seq<char>,
)
    requires
        s.schemas.known.contains(db),
        state::table_schema(s, db, table) == Some(d),
        state::table_rows(s, db, table) == Some(m),
        catalog::find(s.generators, db, table) is Some,
        assoc::assoc_distinct(s.schemas.items),
        assoc::assoc_distinct(s.dbs.items),
        to != table,
        other != table,
        other != to,
    ensures
        ({
            let (t, r) = sql::ran(depth, s, db, altering(table, AlterTableOperationV::RenameTable(to)), ps, tx);
            &&& r is Ok
            &&& state::table_schema(t, db, to) == Some(SchemaV { name: to, ..d })
            &&& state::table_rows(t, db, to) == Some(m)
            &&& state::next_rowid(t, db, to) == state::next_rowid(s, db, table)
            &&& state::table_schema(t, db, table) is None
            &&& state::table_rows(t, db, table) is None
            &&& state::table_schema(t, db, other) == state::table_schema(s, db, other)
            &&& state::table_rows(t, db, other) == state::table_rows(s, db, other)
            &&& state::next_rowid(t, db, other) == state::next_rowid(s, db, other)
        }),
{
    let op = AlterTableOperationV::RenameTable(to);
    lemma_one_change(s, db, table, op);
    let e = SchemaV { name: to, ..d };
    let a = StateV {
        schemas: catalog::with(catalog::without(s.schemas, db, table), db, to, e),
        dbs: ddl::moved(s.dbs, db, table, to),
        generators: ddl::moved(s.generators, db, table, to),
        ..s
    };
    let n = d.indices.len() as int;
    lemma_dropped_fields(a, db, table, d.indices, n);
    lemma_rebuilt_fields(ddl::indexes_dropped(a, db, table, d.indices, n), db, to, d.indices, n);
    lemma_moved(s.schemas.items, db, table, to, e, other);
    lemma_moved(s.dbs.items, db, table, to, m, other);
    let next = catalog::find(s.generators, db, table)->0;
    assoc::lemma_get_put(assoc::assoc_remove(s.generators.items, (db, table)), (db, to), next);
    assoc::lemma_get_put_other(assoc::assoc_remove(s.generators.items, (db, table)), (db, to), next, (db, other));
    assoc::lemma_get_remove_other(s.generators.items, (db, table), (db, other));
}

proof fn lemma_moved<V>(items: Seq<((u32, Seq<char>), V)>, db: u32, from: Seq<char>, to: Seq<char>, v: V, other: Seq<char>)
    requires
        assoc::assoc_distinct(items),
        from != to,
        other != from,
        other != to,
    ensures
        ({
            let out = assoc::assoc_put(assoc::assoc_remove(items, (db, from)), (db, to), v);
            &&& assoc::assoc_get(out, (db, to)) == Some(v)
            &&& assoc::assoc_get(out, (db, from)) is None
            &&& assoc::assoc_get(out, (db, other)) == assoc::assoc_get(items, (db, other))
        }),
{
    let p = assoc::assoc_remove(items, (db, from));
    assoc::lemma_get_put(p, (db, to), v);
    assoc::lemma_get_put_other(p, (db, to), v, (db, from));
    assoc::lemma_get_put_other(p, (db, to), v, (db, other));
    assoc::lemma_get_remove(items, (db, from));
    assoc::lemma_get_remove_other(items, (db, from), (db, other));
}

/// CREATE INDEX adds an index over the named columns behind those of its table, unless there is
/// one of its name, and leaves the rows and all other tables.
pub proof fn lemma_create_index(
    depth: nat,
    s: StateV,
    db: u32,
    name: Seq<char>,
    table: Seq<char>,
    columns: Seq<Seq<char>>,
    unique: bool,
    if_not_exists: bool,
    ps: Seq<ValueV>,
    tx: Option<u32>,
    d: SchemaV,
    other: Seq<char>,
)
    requires
        s.schemas.known.contains(db),
        state::table_schema(s, db, table) == Some(d),
        other != table,
    ensures
        ({
            let stmt = StatementV::CreateIndex { name: Some(name), table, columns, unique, if_not_exists };
            let (t, r) = sql::ran(depth, s, db, stmt, ps, tx);
            let exists_already = exists|k: int| 0 <= k < d.indices.len() && (#[trigger] d.indices[k]).name == name;
            &&& exists_already ==> t == s && (r is Ok) == if_not_exists
            &&& !exists_already ==> {
                &&& r is Ok
                &&& state::table_schema(t, db, table) == Some(
                    SchemaV {
                        indices: d.indices.push(
                            IndexV { name, columns, unique, partial_where: None, is_expression: false },
                        ),
                        ..d
                    },
                )
                &&& state::table_schema(t, db, other) == state::table_schema(s, db, other)
                &&& t.dbs == s.dbs
                &&& t.generators == s.generators
                &&& t.triggers == s.triggers
            }
        }),
{
    let idx = IndexV { name, columns, unique, partial_where: None, is_expression: false };
    let e = SchemaV { indices: d.indices.push(idx), ..d };
    assoc::lemma_get_put(s.schemas.items, (db, table), e);
    assoc::lemma_get_put_other(s.schemas.items, (db, table), e, (db, other));
}

proof fn lemma_references(p: ddl::PartsV, cs: Seq<TableConstraintV>, n: int) -> (from: Seq<int>)
    requires
        0 <= n <= cs.len(),
        p.foreign_keys.len() == 0,
    ensures
        ({
            let out = ddl::constraints_applied(p, cs, n).foreign_keys;
            &&& out.len() == from.len()
            &&& forall|i: int, j: int| 0 <= i < j < from.len() ==> (#[trigger] from[i]) < (#[trigger] from[j])
            &&& forall|i: int| 0 <= i < from.len() ==> 0 <= #[trigger] from[i] < n && is_reference(cs[from[i]], out[i])
            &&& forall|k: int| 0 <= k < n && (#[trigger] cs[k]) is ForeignKey ==> from.contains(k)
        }),
    decreases n,
{
    if n == 0 {
        Seq::empty()
    } else {
        let before = lemma_references(p, cs, n - 1);
        let q = ddl::constraints_applied(p, cs, n - 1).foreign_keys;
        let out = ddl::constraints_applied(p, cs, n).foreign_keys;
        if cs[n - 1] is ForeignKey {
            let from = before.push(n - 1);
            assert forall|i: int| 0 <= i < from.len() implies 0 <= #[trigger] from[i] < n && is_reference(cs[from[i]], out[i]) by {
                if i < before.len() {
                    assert(is_reference(cs[before[i]], q[i]));
                }
            }
            assert forall|k: int| 0 <= k < n && (#[trigger] cs[k]) is ForeignKey implies from.contains(k) by {
                if k < n - 1 {
                    assert(before.contains(k));
                    let i = choose|i: int| 0 <= i < before.len() && before[i] == k;
                    assert(from[i] == k);
                } else {
                    assert(from[before.len() as int] == k);
                }
            }
            from
        } else {
            before
        }
    }
}

/// Whether a foreign key of a table is that of a definition: from the first column that it names
/// to the first that it refers to, in the table that it names.
pub open spec fn is_reference(c: TableConstraintV, k: ForeignKeyV) -> bool {
    match c {
        TableConstraintV::ForeignKey { columns, foreign_table, referred_columns, on_delete, on_update } => {
            &&& k.ref_table == foreign_table
            &&& columns.len() > 0 ==> k.column == columns[0]
            &&& referred_columns.len() > 0 ==> k.ref_column == referred_columns[0]
            &&& k.on_delete == ddl::fk_action_of(on_delete)
            &&& k.on_update == ddl::fk_action_of(on_update)
        },
        _ => false,
    }
}

/// The foreign keys of a table are those of its definition, in their order.
pub proof fn lemma_foreign_keys(name: Seq<char>, columns: Seq<ColumnSpecV>, cs: Seq<TableConstraintV>) -> (from: Seq<int>)
    ensures
        ({
            let keys = ddl::schema_of(name, columns, cs).foreign_keys;
            &&& keys.len() == from.len()
            &&& forall|i: int, j: int| 0 <= i < j < from.len() ==> (#[trigger] from[i]) < (#[trigger] from[j])
            &&& forall|i: int| 0 <= i < from.len() ==> 0 <= #[trigger] from[i] < cs.len() && is_reference(cs[from[i]], keys[i])
            &&& forall|k: int| 0 <= k < cs.len() && (#[trigger] cs[k]) is ForeignKey ==> from.contains(k)
        }),
{
    let n = columns.len() as int;
    lemma_references(
        ddl::PartsV {
            columns: ddl::defined_columns(columns, n),
            primary_keys: ddl::own_keys(columns, n),
            foreign_keys: Seq::empty(),
            unique_groups: Seq::empty(),
            table_checks: Seq::empty(),
        },
        cs,
        cs.len() as int,
    )
}

/// What a foreign key does on a change is told apart by name, and nothing where it says none.
pub proof fn lemma_actions()
    ensures
        ddl::fk_action_of("Cascade"@) == FkAction::Cascade,
        ddl::fk_action_of("SetNull"@) == FkAction::SetNull,
        ddl::fk_action_of("Restrict"@) == FkAction::Restrict,
        ddl::fk_action_of("SetDefault"@) == FkAction::SetDefault,
        forall|tag: Seq<char>|
            tag != "Cascade"@ && tag != "SetNull"@ && tag != "Restrict"@ && tag != "SetDefault"@ ==> #[trigger] ddl::fk_action_of(tag)
                == FkAction::NoAction,
{
    reveal_strlit("Cascade");
    reveal_strlit("SetNull");
    reveal_strlit("Restrict");
    reveal_strlit("SetDefault");
    assert("Cascade"@[0] != "SetNull"@[0]);
    assert("Restrict"@.len() != "Cascade"@.len() && "Restrict"@.len() != "SetNull"@.len());
    assert("SetDefault"@.len() != "Cascade"@.len() && "SetDefault"@.len() != "SetNull"@.len() && "SetDefault"@.len()
        != "Restrict"@.len());
}

/// The names of the types of columns: integers, doubles, texts, and blobs for all others.
pub proof fn lemma_types(tag: Seq<char>)
    ensures
        (ddl::data_type_of(tag) == DataType::Integer) == (tag == "Int"@ || tag == "Integer"@),
        (ddl::data_type_of(tag) == DataType::Real) == (tag == "Float"@ || tag == "Double"@),
        (ddl::data_type_of(tag) == DataType::Text) == (tag == "Text"@ || tag == "String"@ || tag == "Varchar"@),
        (ddl::data_type_of(tag) == DataType::Blob) == !(tag == "Int"@ || tag == "Integer"@ || tag == "Float"@ || tag == "Double"@ || tag
            == "Text"@ || tag == "String"@ || tag == "Varchar"@),
{
    reveal_strlit("Int");
    reveal_strlit("Integer");
    reveal_strlit("Float");
    reveal_strlit("Double");
    reveal_strlit("Text");
    reveal_strlit("String");
    reveal_strlit("Varchar");
    assert("Float"@.len() == 5 && "Double"@.len() == 6 && "Text"@.len() == 4 && "String"@.len() == 6 && "Varchar"@.len() == 7);
    assert("Int"@.len() == 3 && "Integer"@.len() == 7);
    assert("Double"@[0] != "String"@[0]);
    assert("Integer"@[0] != "Varchar"@[0]);
}

proof fn lemma_text_columns(names: Seq<Seq<char>>, n: int)
    requires
        0 <= n <= names.len(),
        writes::each_differs(names),
    ensures
        ddl::text_columns(names, n).len() == n,
        forall|k: int| 0 <= k < n ==> (#[trigger] ddl::text_columns(names, n)[k]).0 == names[k],
    decreases n,
{
    if n > 0 {
        lemma_text_columns(names, n - 1);
        let p = ddl::text_columns(names, n - 1);
        assert forall|k: int| 0 <= k < p.len() implies (#[trigger] p[k]).0 != names[n - 1] by {
            assert(names[k] != names[n - 1]);
        }
        assoc::lemma_put_absent(p, names[n - 1], ddl::bare_column(names[n - 1], DataType::Text));
    }
}

/// CREATE VIRTUAL TABLE makes an empty table with the named columns, and an empty full-text index
/// over the first of them. It knows one kind of virtual table, and leaves what is there.
pub proof fn lemma_create_virtual_table(
    depth: nat,
    s: StateV,
    db: u32,
    name: Seq<char>,
    if_not_exists: bool,
    module_name: Seq<char>,
    module_args: Seq<Seq<char>>,
    ps: Seq<ValueV>,
    tx: Option<u32>,
    other: Seq<char>,
)
    requires
        writes::each_differs(module_args),
        module_args.len() > 0,
        other != name,
    ensures
        ({
            let stmt = StatementV::CreateVirtualTable { name, if_not_exists, module_name, module_args };
            let (t, r) = sql::ran(depth, s, db, stmt, ps, tx);
            let known = text::lowercase(module_name) == "fts5"@;
            let taken = state::table_schema(s, db, name) is Some;
            &&& !known ==> r is Err && t == s
            &&& known && taken ==> t == s && (r is Ok) == if_not_exists
            &&& known && !taken ==> {
                &&& r is Ok
                &&& state::table_rows(t, db, name) == Some(Map::<u64, RowV>::empty())
                &&& state::next_rowid(t, db, name) == 1
                &&& match (state::table_schema(t, db, name), catalog::find(t.fts, db, name)) {
                    (Some(d), Some(x)) => {
                        &&& d.columns.len() == module_args.len()
                        &&& forall|k: int| 0 <= k < module_args.len() ==> (#[trigger] d.columns[k]).0 == module_args[k]
                        &&& x.content_column == module_args[0]
                        &&& x.index == fts::empty_index()
                    },
                    _ => false,
                }
                &&& state::table_schema(t, db, other) == state::table_schema(s, db, other)
                &&& state::table_rows(t, db, other) == state::table_rows(s, db, other)
                &&& catalog::find(t.fts, db, other) == catalog::find(s.fts, db, other)
            }
        }),
{
    let d = ddl::fts_schema(name, module_args);
    let x = FtsTableV { name, index: fts::empty_index(), content_column: ddl::content_column(module_args) };
    lemma_text_columns(module_args, module_args.len() as int);
    assoc::lemma_get_put(s.schemas.items, (db, name), d);
    assoc::lemma_get_put(s.dbs.items, (db, name), Map::<u64, RowV>::empty());
    assoc::lemma_get_put(s.generators.items, (db, name), 1u64);
    assoc::lemma_get_put(s.fts.items, (db, name), x);
    assoc::lemma_get_put_other(s.schemas.items, (db, name), d, (db, other));
    assoc::lemma_get_put_other(s.dbs.items, (db, name), Map::<u64, RowV>::empty(), (db, other));
    assoc::lemma_get_put_other(s.fts.items, (db, name), x, (db, other));
}

proof fn lemma_other_indexes(indices: Seq<IndexV>, name: Seq<char>, n: int, idx: IndexV)
    requires
        0 <= n <= indices.len(),
    ensures
        ddl::other_indexes(indices, name, n).contains(idx) == (idx.name != name && indices.take(n).contains(idx)),
    decreases n,
{
    let some = indices.take(n);
    if n > 0 {
        lemma_other_indexes(indices, name, n - 1, idx);
        let p = ddl::other_indexes(indices, name, n - 1);
        assert(some =~= indices.take(n - 1).push(indices[n - 1]));
        lemma_pushed(indices.take(n - 1), indices[n - 1], idx);
        if indices[n - 1].name != name {
            lemma_pushed(p, indices[n - 1], idx);
        }
    } else {
        assert(some =~= Seq::empty());
    }
}

proof fn lemma_holder(items: Seq<((u32, Seq<char>), SchemaV)>, db: u32, index: Seq<char>, k: int)
    requires
        0 <= k <= items.len(),
    ensures
        match ddl::index_holder(items, db, index, k) {
            Some((table, d)) => items.contains(((db, table), d)) && ddl::has_index(d.indices, index),
            None => forall|j: int| k <= j < items.len() && (#[trigger] items[j]).0.0 == db ==> !ddl::has_index(items[j].1.indices, index),
        },
    decreases items.len() - k,
{
    if k < items.len() {
        if items[k].0.0 == db && ddl::has_index(items[k].1.indices, index) {
            assert(items[k] == ((db, items[k].0.1), items[k].1));
        } else {
            lemma_holder(items, db, index, k + 1);
        }
    }
}

/// Whether a table of a database has an index of a name.
pub open spec fn is_indexed(s: StateV, db: u32, index: Seq<char>) -> bool {
    exists|j: int| 0 <= j < s.schemas.items.len() && (#[trigger] s.schemas.items[j]).0.0 == db && has_named(s.schemas.items[j].1, index)
}

/// Whether a table has an index of a name.
pub open spec fn has_named(d: SchemaV, index: Seq<char>) -> bool {
    exists|i: int| 0 <= i < d.indices.len() && (#[trigger] d.indices[i]).name == index
}

/// DROP INDEX takes the index of a name from the table that has it, and all else stays; one that no
/// table has can be dropped only by IF EXISTS.
pub proof fn lemma_drop_index(
    depth: nat,
    s: StateV,
    db: u32,
    index: Seq<char>,
    if_exists: bool,
    ps: Seq<ValueV>,
    tx: Option<u32>,
    idx: IndexV,
) -> (table: Seq<char>)
    requires
        s.schemas.known.contains(db),
        assoc::assoc_distinct(s.schemas.items),
    ensures
        ({
            let stmt = StatementV::Drop { object: ObjectTypeV::Index, if_exists, names: seq![index] };
            let (t, r) = sql::ran(depth, s, db, stmt, ps, tx);
            &&& (r is Ok) == (if_exists || is_indexed(s, db, index))
            &&& t.dbs == s.dbs
            &&& t.generators == s.generators
            &&& !is_indexed(s, db, index) ==> t == s
            &&& is_indexed(s, db, index) ==> match (state::table_schema(s, db, table), state::table_schema(t, db, table)) {
                (Some(d), Some(e)) => {
                    &&& has_named(d, index)
                    &&& e.indices.contains(idx) == (idx.name != index && d.indices.contains(idx))
                    &&& e == (SchemaV { indices: e.indices, ..d })
                },
                _ => false,
            }
        }),
{
    let names = seq![index];
    let items = s.schemas.items;
    assert(ddl::indexes_removed(s, db, names, if_exists, 0) == (s, None::<ErrorV>));
    assert(names[0] == index);
    lemma_holder(items, db, index, 0);
    assert forall|d: SchemaV| #[trigger] ddl::has_index(d.indices, index) == has_named(d, index) by {}
    match ddl::index_holder(items, db, index, 0) {
        Some((table, d)) => {
            let j = choose|j: int| 0 <= j < items.len() && items[j] == ((db, table), d);
            assert(is_indexed(s, db, index)) by {
                assert(has_named(items[j].1, index));
            }
            assert forall|i: int| 0 <= i < j implies (#[trigger] items[i]).0 != (db, table) by {
                assert(items[i].0 != items[j].0);
            }
            assoc::lemma_get_at(items, (db, table), j);
            let n = d.indices.len() as int;
            lemma_other_indexes(d.indices, index, n, idx);
            assert(d.indices.take(n) =~= d.indices);
            let e = SchemaV { indices: ddl::other_indexes(d.indices, index, n), ..d };
            assoc::lemma_get_put(items, (db, table), e);
            table
        },
        None => {
            assert(!is_indexed(s, db, index)) by {
                assert forall|j: int| 0 <= j < items.len() && (#[trigger] items[j]).0.0 == db implies !has_named(items[j].1, index) by {
                    assert(!ddl::has_index(items[j].1.indices, index));
                }
            }
            Seq::empty()
        },
    }
}

} // verus!
