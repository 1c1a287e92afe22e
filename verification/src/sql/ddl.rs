//! CREATE, DROP and ALTER.
use indexmap::IndexMap;
use vstd::prelude::*;

use crate::assoc;
use crate::ast::{AlterTableOperation, AlterTableOperationV, ColumnOption, ColumnOptionV, ColumnSpec, ColumnSpecV, ObjectType, ObjectTypeV, Statement, StatementV, TableConstraint, TableConstraintV};
use crate::catalog;
use crate::catalog::CatalogV;
use crate::constraint;
use crate::error;
use crate::error::{ErrorV, SkvsError};
use crate::expr;
use crate::expr::EvalCtx;
use crate::fts;
use crate::fts::{FtsTableV, FtsVirtualTable};
use crate::index;
use crate::row;
use crate::row::RowV;
use crate::schema::{ColumnDef, ColumnV, DataType, FkAction, ForeignKeyDef, ForeignKeyV, IndexDef, IndexV, Row, SchemaV, TableSchema, TriggerDef, TriggerEvent, TriggerTiming, TriggerV, UniqueGroup, UniqueV, Value, ValueV};
use crate::sql;
use crate::sql::{QueryResult, ResultV};
use crate::sql::select;
use crate::state;
use crate::state::{KvsState, StateV};
use crate::store;
use crate::store::RowStore;
use crate::text;
use crate::view;

verus! {

/// The type of a column, by the name of the SQL type.
pub open spec fn data_type_of(tag: Seq<char>) -> DataType {
    if tag == "Int"@ || tag == "Integer"@ {
        DataType::Integer
    } else if tag == "Float"@ || tag == "Double"@ {
        DataType::Real
    } else if tag == "Text"@ || tag == "String"@ || tag == "Varchar"@ {
        DataType::Text
    } else {
        DataType::Blob
    }
}

fn read_data_type(tag: &str) -> (r: DataType)
    ensures
        r == data_type_of(tag@),
{
    if text::text_eq(tag, "Int") || text::text_eq(tag, "Integer") {
        DataType::Integer
    } else if text::text_eq(tag, "Float") || text::text_eq(tag, "Double") {
        DataType::Real
    } else if text::text_eq(tag, "Text") || text::text_eq(tag, "String") || text::text_eq(tag, "Varchar") {
        DataType::Text
    } else {
        DataType::Blob
    }
}

/// Whether a text holds another.
pub open spec fn holds_text(s: Seq<char>, pat: Seq<char>) -> bool {
    text::find_from(s, pat, 0) is Some
}

fn does_hold_text(s: &str, pat: &str) -> (r: bool)
    ensures
        r == holds_text(s@, pat@),
{
    let sc = text::chars_of(s);
    let pc = text::chars_of(pat);
    text::find_text(&sc, &pc, 0).is_some()
}

/// A column after one option of its definition.
pub open spec fn option_applied(c: ColumnV, o: ColumnOptionV) -> ColumnV {
    match o {
        ColumnOptionV::NotNull => ColumnV { not_null: true, ..c },
        ColumnOptionV::Unique { is_primary } => if is_primary {
            ColumnV { unique: true, primary_key: true, not_null: true, ..c }
        } else {
            ColumnV { unique: true, ..c }
        },
        ColumnOptionV::Default(e) => ColumnV { default: Some(expr::eval_v(e, None, Seq::empty(), 0).0), ..c },
        ColumnOptionV::Check(t) => ColumnV { check_expr: Some(t), ..c },
        ColumnOptionV::DialectSpecific(t) => if holds_text(text::uppercase(t), "AUTOINCREMENT"@) || holds_text(
            text::uppercase(t),
            "AUTO_INCREMENT"@,
        ) {
            ColumnV { auto_increment: true, ..c }
        } else {
            c
        },
        ColumnOptionV::Other => c,
    }
}

pub open spec fn options_applied(c: ColumnV, options: Seq<ColumnOptionV>, n: int) -> ColumnV
    decreases n,
{
    if n <= 0 || n > options.len() {
        c
    } else {
        option_applied(options_applied(c, options, n - 1), options[n - 1])
    }
}

/// A column without any option.
pub open spec fn bare_column(name: Seq<char>, data_type: DataType) -> ColumnV {
    ColumnV {
        name,
        data_type,
        primary_key: false,
        auto_increment: false,
        not_null: false,
        default: None,
        unique: false,
        check_expr: None,
    }
}

/// The column that a definition defines.
pub open spec fn column_of(c: ColumnSpecV) -> ColumnV {
    options_applied(bare_column(c.name, data_type_of(c.data_type)), c.options, c.options.len() as int)
}

fn apply_option(c: &mut ColumnDef, o: &ColumnOption)
    ensures
        final(c)@ == option_applied(old(c)@, o@),
{
    match o {
        ColumnOption::NotNull => {
            c.not_null = true;
        },
        ColumnOption::Unique { is_primary } => {
            c.unique = true;
            if *is_primary {
                c.primary_key = true;
                c.not_null = true;
            }
        },
        ColumnOption::Default(e) => {
            let empty: Vec<Value> = Vec::new();
            assert(empty.deep_view() =~= Seq::empty());
            let ctx = EvalCtx::no_row();
            let mut idx: usize = 0;
            c.default = Some(expr::eval(e, &ctx, empty.as_slice(), &mut idx));
        },
        ColumnOption::Check(t) => {
            c.check_expr = Some(t.clone());
        },
        ColumnOption::DialectSpecific(t) => {
            let u = text::to_upper(t.as_str());
            if does_hold_text(u.as_str(), "AUTOINCREMENT") || does_hold_text(u.as_str(), "AUTO_INCREMENT") {
                c.auto_increment = true;
            }
        },
        ColumnOption::Other => {},
    }
}

fn plain_column(name: String, data_type: DataType) -> (r: ColumnDef)
    ensures
        r@ == bare_column(name@, data_type),
{
    ColumnDef {
        name,
        data_type,
        primary_key: false,
        auto_increment: false,
        not_null: false,
        default: None,
        unique: false,
        check_expr: None,
    }
}

fn parse_column_def(col: &ColumnSpec) -> (r: ColumnDef)
    ensures
        r@ == column_of(col@),
{
    let ghost ov = col.options.deep_view();
    let mut c = plain_column(col.name.clone(), read_data_type(col.data_type.as_str()));
    let ghost start = c@;
    let mut i: usize = 0;
    while i < col.options.len()
        invariant
            i <= col.options@.len(),
            ov == col.options.deep_view(),
            c@ == options_applied(start, ov, i as int),
        decreases col.options@.len() - i,
    {
        assert(ov[i as int] == col.options@[i as int]@);
        apply_option(&mut c, &col.options[i]);
        i = i + 1;
    }
    c
}

/// What a foreign key does, by the name of the action.
pub open spec fn fk_action_of(tag: Seq<char>) -> FkAction {
    if tag == "Cascade"@ {
        FkAction::Cascade
    } else if tag == "SetNull"@ {
        FkAction::SetNull
    } else if tag == "Restrict"@ {
        FkAction::Restrict
    } else if tag == "SetDefault"@ {
        FkAction::SetDefault
    } else {
        FkAction::NoAction
    }
}

fn parse_fk_action(tag: &str) -> (r: FkAction)
    ensures
        r == fk_action_of(tag@),
{
    if text::text_eq(tag, "Cascade") {
        FkAction::Cascade
    } else if text::text_eq(tag, "SetNull") {
        FkAction::SetNull
    } else if text::text_eq(tag, "Restrict") {
        FkAction::Restrict
    } else if text::text_eq(tag, "SetDefault") {
        FkAction::SetDefault
    } else {
        FkAction::NoAction
    }
}

/// The columns of a table definition, the first `n` of them.
pub open spec fn defined_columns(specs: Seq<ColumnSpecV>, n: int) -> Seq<(Seq<char>, ColumnV)>
    decreases n,
{
    if n <= 0 || n > specs.len() {
        Seq::empty()
    } else {
        assoc::assoc_put(defined_columns(specs, n - 1), specs[n - 1].name, column_of(specs[n - 1]))
    }
}

/// The columns that are a primary key of themselves, among the first `n`.
pub open spec fn own_keys(specs: Seq<ColumnSpecV>, n: int) -> Seq<Seq<char>>
    decreases n,
{
    if n <= 0 || n > specs.len() {
        Seq::empty()
    } else if column_of(specs[n - 1]).primary_key {
        own_keys(specs, n - 1).push(specs[n - 1].name)
    } else {
        own_keys(specs, n - 1)
    }
}

/// What a key over the given columns makes of one of them. A key over several columns asks
/// nothing of one of them alone, but that a primary key has no nulls.
pub open spec fn keyed_column(c: ColumnV, is_primary: bool, alone: bool) -> ColumnV {
    if is_primary {
        ColumnV { primary_key: c.primary_key || alone, not_null: true, ..c }
    } else {
        ColumnV { unique: c.unique || alone, ..c }
    }
}

/// The columns of a table after a key over the first `n` of the given names.
pub open spec fn keyed_columns(
    columns: Seq<(Seq<char>, ColumnV)>,
    names: Seq<Seq<char>>,
    is_primary: bool,
    n: int,
) -> Seq<(Seq<char>, ColumnV)>
    decreases n,
{
    if n <= 0 || n > names.len() {
        columns
    } else {
        let p = keyed_columns(columns, names, is_primary, n - 1);
        match assoc::assoc_get(p, names[n - 1]) {
            Some(c) => assoc::assoc_put(p, names[n - 1], keyed_column(c, is_primary, names.len() == 1)),
            None => p,
        }
    }
}

pub open spec fn first_or_empty(names: Seq<Seq<char>>) -> Seq<char> {
    if names.len() > 0 {
        names[0]
    } else {
        Seq::empty()
    }
}

/// The parts of a table definition.
pub struct PartsV {
    pub columns: Seq<(Seq<char>, ColumnV)>,
    pub primary_keys: Seq<Seq<char>>,
    pub foreign_keys: Seq<ForeignKeyV>,
    pub unique_groups: Seq<UniqueV>,
    pub table_checks: Seq<Seq<char>>,
}

/// The parts of a table definition after one constraint.
pub open spec fn constraint_applied(p: PartsV, c: TableConstraintV) -> PartsV {
    match c {
        TableConstraintV::Unique { columns, is_primary } => PartsV {
            columns: keyed_columns(p.columns, columns, is_primary, columns.len() as int),
            primary_keys: if is_primary && columns.len() > 0 {
                p.primary_keys.push(columns[0])
            } else {
                p.primary_keys
            },
            unique_groups: p.unique_groups.push(UniqueV { columns, is_primary }),
            ..p
        },
        TableConstraintV::ForeignKey { columns, foreign_table, referred_columns, on_delete, on_update } => PartsV {
            foreign_keys: p.foreign_keys.push(
                ForeignKeyV {
                    column: first_or_empty(columns),
                    ref_table: foreign_table,
                    ref_column: first_or_empty(referred_columns),
                    on_delete: fk_action_of(on_delete),
                    on_update: fk_action_of(on_update),
                },
            ),
            ..p
        },
        TableConstraintV::Check(t) => PartsV { table_checks: p.table_checks.push(t), ..p },
        TableConstraintV::Other => p,
    }
}

pub open spec fn constraints_applied(p: PartsV, cs: Seq<TableConstraintV>, n: int) -> PartsV
    decreases n,
{
    if n <= 0 || n > cs.len() {
        p
    } else {
        constraint_applied(constraints_applied(p, cs, n - 1), cs[n - 1])
    }
}

/// The table that a definition defines.
pub open spec fn schema_of(name: Seq<char>, specs: Seq<ColumnSpecV>, cs: Seq<TableConstraintV>) -> SchemaV {
    let p = constraints_applied(
        PartsV {
            columns: defined_columns(specs, specs.len() as int),
            primary_keys: own_keys(specs, specs.len() as int),
            foreign_keys: Seq::empty(),
            unique_groups: Seq::empty(),
            table_checks: Seq::empty(),
        },
        cs,
        cs.len() as int,
    );
    SchemaV {
        name,
        columns: p.columns,
        rowid_column: if p.primary_keys.len() > 0 {
            Some(p.primary_keys[0])
        } else {
            None
        },
        foreign_keys: p.foreign_keys,
        indices: Seq::empty(),
        triggers: Seq::empty(),
        unique_groups: p.unique_groups,
        table_checks: p.table_checks,
        fts5_content_column: None,
    }
}

/// The state with a new table.
pub open spec fn table_added(s: StateV, db: u32, d: SchemaV) -> StateV {
    StateV {
        schemas: catalog::with(s.schemas, db, d.name, d),
        dbs: catalog::with(s.dbs, db, d.name, Map::empty()),
        generators: catalog::with(s.generators, db, d.name, 1),
        ..s
    }
}

pub open spec fn table_exists(name: Seq<char>) -> ErrorV {
    ErrorV::Schema("Table "@ + name + " already exists"@)
}

/// What CREATE TABLE does.
pub open spec fn table_created(
    s: StateV,
    db: u32,
    name: Seq<char>,
    specs: Seq<ColumnSpecV>,
    cs: Seq<TableConstraintV>,
    if_not_exists: bool,
) -> (StateV, Result<ResultV, ErrorV>) {
    if state::table_schema(s, db, name) is Some {
        (
            s,
            if if_not_exists {
                Ok(sql::no_result())
            } else {
                Err(table_exists(name))
            },
        )
    } else {
        (table_added(s, db, schema_of(name, specs, cs)), Ok(sql::no_result()))
    }
}

fn add_table(state: &mut KvsState, db_id: u32, schema: TableSchema)
    ensures
        final(state)@ == table_added(old(state)@, db_id, schema@),
{
    let name = schema.name.clone();
    state.schemas.put(db_id, name.clone(), schema);
    state.dbs.put(db_id, name.clone(), RowStore::new());
    state.rowid_generators.put(db_id, name, 1);
}

/// The parts of a table definition.
struct Parts {
    columns: IndexMap<String, ColumnDef>,
    primary_keys: Vec<String>,
    foreign_keys: Vec<ForeignKeyDef>,
    unique_groups: Vec<UniqueGroup>,
    table_checks: Vec<String>,
}

impl View for Parts {
    type V = PartsV;

    closed spec fn view(&self) -> PartsV {
        PartsV {
            columns: row::column_list(self.columns),
            primary_keys: self.primary_keys.deep_view(),
            foreign_keys: self.foreign_keys.deep_view(),
            unique_groups: self.unique_groups.deep_view(),
            table_checks: self.table_checks.deep_view(),
        }
    }
}

fn key_columns(columns: &mut IndexMap<String, ColumnDef>, names: &Vec<String>, is_primary: bool)
    ensures
        row::column_list(*final(columns)) == keyed_columns(
            row::column_list(*old(columns)),
            names.deep_view(),
            is_primary,
            names@.len() as int,
        ),
{
    let ghost start = row::column_list(*columns);
    let ghost nv: Seq<Seq<char>> = names.deep_view();
    let alone: bool = names.len() == 1;
    let mut i: usize = 0;
    while i < names.len()
        invariant
            i <= names@.len(),
            nv == names.deep_view(),
            nv.len() == names@.len(),
            alone == (nv.len() == 1),
            row::column_list(*columns) == keyed_columns(start, nv, is_primary, i as int),
        decreases names@.len() - i,
    {
        assert(nv[i as int] == names@[i as int]@);
        let found: Option<ColumnDef> = match row::columns_get(columns, names[i].as_str()) {
            Some(c) => Some(c.clone()),
            None => None,
        };
        match found {
            Some(c) => {
                let mut c = c;
                if is_primary {
                    c.primary_key = c.primary_key || alone;
                    c.not_null = true;
                } else {
                    c.unique = c.unique || alone;
                }
                row::columns_put(columns, names[i].clone(), c);
            },
            None => {},
        }
        i = i + 1;
    }
}

fn read_first(names: &Vec<String>) -> (r: String)
    ensures
        r@ == first_or_empty(names.deep_view()),
{
    if names.len() > 0 {
        assert(names.deep_view()[0] == names@[0]@);
        names[0].clone()
    } else {
        let r = String::new();
        assert(r@ =~= Seq::empty());
        r
    }
}

fn apply_constraint(p: &mut Parts, c: &TableConstraint)
    ensures
        final(p)@ == constraint_applied(old(p)@, c@),
{
    let ghost before = p@;
    match c {
        TableConstraint::Unique { columns, is_primary } => {
            key_columns(&mut p.columns, columns, *is_primary);
            if *is_primary && columns.len() > 0 {
                assert(columns.deep_view()[0] == columns@[0]@);
                p.primary_keys.push(columns[0].clone());
                assert(p.primary_keys.deep_view() =~= before.primary_keys.push(columns.deep_view()[0]));
            }
            let g = UniqueGroup { columns: text::copy_texts(columns), is_primary: *is_primary };
            let ghost gv = g@;
            p.unique_groups.push(g);
            assert(p.unique_groups.deep_view() =~= before.unique_groups.push(gv));
        },
        TableConstraint::ForeignKey { columns, foreign_table, referred_columns, on_delete, on_update } => {
            let f = ForeignKeyDef {
                column: read_first(columns),
                ref_table: foreign_table.clone(),
                ref_column: read_first(referred_columns),
                on_delete: parse_fk_action(on_delete.as_str()),
                on_update: parse_fk_action(on_update.as_str()),
            };
            let ghost fv = f@;
            p.foreign_keys.push(f);
            assert(p.foreign_keys.deep_view() =~= before.foreign_keys.push(fv));
        },
        TableConstraint::Check(t) => {
            p.table_checks.push(t.clone());
            assert(p.table_checks.deep_view() =~= before.table_checks.push(t@));
        },
        TableConstraint::Other => {},
    }
}

fn read_columns(specs: &Vec<ColumnSpec>) -> (r: (IndexMap<String, ColumnDef>, Vec<String>))
    ensures
        row::column_list(r.0) == defined_columns(specs.deep_view(), specs@.len() as int),
        r.1.deep_view() == own_keys(specs.deep_view(), specs@.len() as int),
{
    let ghost sv = specs.deep_view();
    let mut columns = row::columns_new();
    let mut keys: Vec<String> = Vec::new();
    let mut i: usize = 0;
    assert(keys.deep_view() =~= Seq::empty());
    while i < specs.len()
        invariant
            i <= specs@.len(),
            sv == specs.deep_view(),
            row::column_list(columns) == defined_columns(sv, i as int),
            keys.deep_view() == own_keys(sv, i as int),
        decreases specs@.len() - i,
    {
        assert(sv[i as int] == specs@[i as int]@);
        let ghost kv = keys.deep_view();
        let c = parse_column_def(&specs[i]);
        if c.primary_key {
            keys.push(specs[i].name.clone());
            assert(keys.deep_view() =~= kv.push(sv[i as int].name));
        }
        row::columns_put(&mut columns, specs[i].name.clone(), c);
        i = i + 1;
    }
    (columns, keys)
}

fn read_schema(name: &str, specs: &Vec<ColumnSpec>, cs: &Vec<TableConstraint>) -> (r: TableSchema)
    ensures
        r@ == schema_of(name@, specs.deep_view(), cs.deep_view()),
{
    let (columns, primary_keys) = read_columns(specs);
    let ghost cv = cs.deep_view();
    let mut p = Parts {
        columns,
        primary_keys,
        foreign_keys: Vec::new(),
        unique_groups: Vec::new(),
        table_checks: Vec::new(),
    };
    let ghost start = p@;
    assert(start.foreign_keys =~= Seq::empty());
    assert(start.unique_groups =~= Seq::empty());
    assert(start.table_checks =~= Seq::empty());
    let mut i: usize = 0;
    while i < cs.len()
        invariant
            i <= cs@.len(),
            cv == cs.deep_view(),
            p@ == constraints_applied(start, cv, i as int),
        decreases cs@.len() - i,
    {
        assert(cv[i as int] == cs@[i as int]@);
        apply_constraint(&mut p, &cs[i]);
        i = i + 1;
    }
    let rowid_column: Option<String> = if p.primary_keys.len() > 0 {
        assert(p@.primary_keys[0] == p.primary_keys@[0]@);
        Some(p.primary_keys[0].clone())
    } else {
        None
    };
    let r = TableSchema {
        name: name.to_owned(),
        columns: p.columns,
        rowid_column,
        foreign_keys: p.foreign_keys,
        indices: Vec::new(),
        triggers: Vec::new(),
        unique_groups: p.unique_groups,
        table_checks: p.table_checks,
        fts5_content_column: None,
    };
    assert(r@.indices =~= Seq::empty());
    assert(r@.triggers =~= Seq::empty());
    r
}

fn exists_already(name: &str) -> (r: SkvsError)
    ensures
        r@ == table_exists(name@),
{
    SkvsError::Schema(text::text3("Table ", name, " already exists"))
}

/// The result of a step that changes the state.
pub open spec fn step(s: StateV, r: Result<QueryResult, SkvsError>) -> (StateV, Result<ResultV, ErrorV>) {
    (s, error::outcome(r))
}

/// Runs CREATE TABLE.
pub fn create_table(state: &mut KvsState, db_id: u32, stmt: &Statement) -> (r: Result<QueryResult, SkvsError>)
    ensures
        step(final(state)@, r) == (match stmt@ {
            StatementV::CreateTable { name, columns, constraints, if_not_exists } => table_created(
                old(state)@,
                db_id,
                name,
                columns,
                constraints,
                if_not_exists,
            ),
            _ => (old(state)@, Err(ErrorV::Unsupported("Not a CREATE TABLE statement"@))),
        }),
{
    match stmt {
        Statement::CreateTable { name, columns, constraints, if_not_exists } => {
            if state.get_schema(db_id, name.as_str()).is_some() {
                if *if_not_exists {
                    return Ok(QueryResult::empty());
                }
                return Err(exists_already(name.as_str()));
            }
            let schema = read_schema(name.as_str(), columns, constraints);
            add_table(state, db_id, schema);
            Ok(QueryResult::empty())
        },
        _ => Err(SkvsError::Unsupported("Not a CREATE TABLE statement".to_owned())),
    }
}

/// The state without a table and all that hangs on its name.
pub open spec fn table_removed(s: StateV, db: u32, table: Seq<char>) -> StateV {
    StateV {
        schemas: catalog::without(catalog::knowing(s.schemas, db), db, table),
        dbs: catalog::without(s.dbs, db, table),
        generators: catalog::without(s.generators, db, table),
        triggers: catalog::without(s.triggers, db, table),
        fts: catalog::without(s.fts, db, table),
        views: catalog::without(s.views, db, table),
        ..s
    }
}

/// The state after the first `n` tables were dropped, and the first that was not there.
pub open spec fn tables_dropped(s: StateV, db: u32, names: Seq<Seq<char>>, if_exists: bool, n: int) -> (
    StateV,
    Option<ErrorV>,
)
    decreases n,
{
    if n <= 0 || n > names.len() {
        (s, None)
    } else {
        let (p, e) = tables_dropped(s, db, names, if_exists, n - 1);
        if e is Some {
            (p, e)
        } else if state::table_schema(p, db, names[n - 1]) is None && !if_exists {
            (StateV { schemas: catalog::knowing(p.schemas, db), ..p }, Some(select::table_missing(names[n - 1])))
        } else {
            (table_removed(p, db, names[n - 1]), None)
        }
    }
}

pub open spec fn done(x: (StateV, Option<ErrorV>)) -> (StateV, Result<ResultV, ErrorV>) {
    match x.1 {
        Some(e) => (x.0, Err(e)),
        None => (x.0, Ok(sql::no_result())),
    }
}

proof fn lemma_drop_fails(s: StateV, db: u32, names: Seq<Seq<char>>, if_exists: bool, m: int, n: int)
    requires
        0 <= m <= n <= names.len(),
        tables_dropped(s, db, names, if_exists, m).1 is Some,
    ensures
        tables_dropped(s, db, names, if_exists, n) == tables_dropped(s, db, names, if_exists, m),
    decreases n,
{
    if m < n {
        lemma_drop_fails(s, db, names, if_exists, m, n - 1);
    }
}

fn remove_table(state: &mut KvsState, db_id: u32, table: &str)
    ensures
        final(state)@ == table_removed(old(state)@, db_id, table@),
{
    state.schemas.ensure(db_id);
    state.schemas.remove(db_id, table);
    state.dbs.remove(db_id, table);
    state.rowid_generators.remove(db_id, table);
    state.triggers.remove(db_id, table);
    state.fts_tables.remove(db_id, table);
    state.views.remove(db_id, table);
}

/// Runs DROP TABLE.
pub fn drop_table(state: &mut KvsState, db_id: u32, stmt: &Statement) -> (r: Result<QueryResult, SkvsError>)
    ensures
        step(final(state)@, r) == (match stmt@ {
            StatementV::Drop { object: ObjectTypeV::Table, if_exists, names } => done(
                tables_dropped(old(state)@, db_id, names, if_exists, names.len() as int),
            ),
            _ => (old(state)@, Err(ErrorV::Unsupported("Not a DROP TABLE statement"@))),
        }),
{
    match stmt {
        Statement::Drop { object: ObjectType::Table, if_exists, names } => {
            let ghost start = state@;
            let ghost nv: Seq<Seq<char>> = names.deep_view();
            let mut i: usize = 0;
            while i < names.len()
                invariant
                    i <= names@.len(),
                    nv == names.deep_view(),
                    nv.len() == names@.len(),
                    start == old(state)@,
                    stmt@ == (StatementV::Drop { object: ObjectTypeV::Table, if_exists: *if_exists, names: nv }),
                    (state@, None::<ErrorV>) == tables_dropped(start, db_id, nv, *if_exists, i as int),
                decreases names@.len() - i,
            {
                assert(nv[i as int] == names@[i as int]@);
                let table = names[i].as_str();
                if state.get_schema(db_id, table).is_none() && !*if_exists {
                    state.schemas.ensure(db_id);
                    proof {
                        lemma_drop_fails(start, db_id, nv, *if_exists, i + 1, nv.len() as int);
                    }
                    return Err(select::no_table(table));
                }
                remove_table(state, db_id, table);
                i = i + 1;
            }
            Ok(QueryResult::empty())
        },
        _ => Err(SkvsError::Unsupported("Not a DROP TABLE statement".to_owned())),
    }
}

/// A change of every row of a table.
enum RowChange {
    Put(String, Value),
    Take(String),
    Rename(String, String),
}

pub enum RowChangeV {
    Put(Seq<char>, ValueV),
    Take(Seq<char>),
    Rename(Seq<char>, Seq<char>),
}

impl View for RowChange {
    type V = RowChangeV;

    closed spec fn view(&self) -> RowChangeV {
        match self {
            RowChange::Put(n, v) => RowChangeV::Put(n@, v@),
            RowChange::Take(n) => RowChangeV::Take(n@),
            RowChange::Rename(a, b) => RowChangeV::Rename(a@, b@),
        }
    }
}

/// A row after a change.
pub open spec fn row_changed(c: RowChangeV, row: RowV) -> RowV {
    match c {
        RowChangeV::Put(n, v) => assoc::assoc_put(row, n, v),
        RowChangeV::Take(n) => assoc::assoc_remove(row, n),
        RowChangeV::Rename(a, b) => match assoc::assoc_get(row, a) {
            Some(v) => assoc::assoc_put(assoc::assoc_remove(row, a), b, v),
            None => row,
        },
    }
}

/// The rows of a table after a change of each.
pub open spec fn rows_changed(m: Map<u64, RowV>, c: RowChangeV) -> Map<u64, RowV> {
    Map::new(|id: u64| m.contains_key(id), |id: u64| row_changed(c, m[id]))
}

/// The state after a change of every row of a table.
pub open spec fn table_changed(s: StateV, db: u32, table: Seq<char>, c: RowChangeV) -> StateV {
    match state::table_rows(s, db, table) {
        Some(m) => StateV { dbs: catalog::changed(s.dbs, db, table, rows_changed(m, c)), ..s },
        None => s,
    }
}

fn change_row(row: &mut Row, c: &RowChange)
    ensures
        row::cells(*final(row)) == row_changed(c@, row::cells(*old(row))),
{
    match c {
        RowChange::Put(n, v) => row::row_put(row, n.clone(), v.clone()),
        RowChange::Take(n) => row::row_remove(row, n.as_str()),
        RowChange::Rename(a, b) => {
            let found: Option<Value> = match row::row_get(row, a.as_str()) {
                Some(v) => Some(v.clone()),
                None => None,
            };
            match found {
                Some(v) => {
                    row::row_remove(row, a.as_str());
                    row::row_put(row, b.clone(), v);
                },
                None => {},
            }
        },
    }
}

fn change_store(store: &mut RowStore, c: &RowChange)
    ensures
        final(store)@ == rows_changed(old(store)@, c@),
{
    let ghost m = store@;
    let entries = store.entries();
    let ghost ps = store::row_pairs(entries@);
    let mut i: usize = 0;
    proof {
        store::lemma_ids_from(m.dom(), 0);
    }
    while i < entries.len()
        invariant
            i <= entries@.len(),
            ps == store::row_pairs(entries@),
            ps == store::row_list(m),
            store::increasing(store::row_ids(m)),
            store@.dom() =~= m.dom(),
            forall|j: int| 0 <= j < i ==> store@[(#[trigger] ps[j]).0] == row_changed(c@, ps[j].1),
            forall|j: int| i <= j < ps.len() ==> store@[(#[trigger] ps[j]).0] == ps[j].1,
        decreases entries@.len() - i,
    {
        assert(ps[i as int] == (entries@[i as int].0, row::cells(entries@[i as int].1)));
        proof {
            store::lemma_listed(m, i as int);
        }
        let ghost before = store@;
        let mut row = row::row_copy(&entries[i].1);
        change_row(&mut row, c);
        store.insert(entries[i].0, row);
        proof {
            assert forall|j: int| 0 <= j < ps.len() && j != i implies (#[trigger] ps[j]).0 != ps[i as int].0 by {
                assert(store::row_ids(m)[j] == ps[j].0);
                assert(store::row_ids(m)[i as int] == ps[i as int].0);
            }
        }
        i = i + 1;
    }
    proof {
        assert forall|id: u64| m.contains_key(id) implies store@[id] == row_changed(c@, m[id]) by {
            let j = store::lemma_place_in_list(m, id);
            assert(ps[j].0 == id);
        }
        assert(store@ =~= rows_changed(m, c@));
    }
}

fn change_table(state: &mut KvsState, db_id: u32, table: &str, c: &RowChange)
    ensures
        final(state)@ == table_changed(old(state)@, db_id, table@, c@),
{
    match state.dbs.get_mut(db_id, table) {
        Some(store) => change_store(store, c),
        None => {},
    }
}

/// The state after the first `n` indexes of a table were made anew.
pub open spec fn indexes_rebuilt(s: StateV, db: u32, table: Seq<char>, indices: Seq<IndexV>, n: int) -> StateV
    decreases n,
{
    if n <= 0 || n > indices.len() {
        s
    } else {
        index::index_rebuilt(indexes_rebuilt(s, db, table, indices, n - 1), db, table, indices[n - 1])
    }
}

pub fn rebuild_indexes(state: &mut KvsState, db_id: u32, table: &str, indices: &Vec<IndexDef>)
    ensures
        final(state)@ == indexes_rebuilt(old(state)@, db_id, table@, indices.deep_view(), indices@.len() as int),
{
    let ghost start = state@;
    let ghost iv = indices.deep_view();
    let mut i: usize = 0;
    while i < indices.len()
        invariant
            i <= indices@.len(),
            iv == indices.deep_view(),
            state@ == indexes_rebuilt(start, db_id, table@, iv, i as int),
        decreases indices@.len() - i,
    {
        assert(iv[i as int] == indices@[i as int]@);
        index::rebuild_index(state, db_id, table, &indices[i]);
        i = i + 1;
    }
}

/// The state after the first `n` indexes of a table were dropped.
pub open spec fn indexes_dropped(s: StateV, db: u32, table: Seq<char>, indices: Seq<IndexV>, n: int) -> StateV
    decreases n,
{
    if n <= 0 || n > indices.len() {
        s
    } else {
        state::index_dropped(indexes_dropped(s, db, table, indices, n - 1), db, table, indices[n - 1].name)
    }
}

fn drop_indexes(state: &mut KvsState, db_id: u32, table: &str, indices: &Vec<IndexDef>)
    ensures
        final(state)@ == indexes_dropped(old(state)@, db_id, table@, indices.deep_view(), indices@.len() as int),
{
    let ghost start = state@;
    let ghost iv = indices.deep_view();
    let mut i: usize = 0;
    while i < indices.len()
        invariant
            i <= indices@.len(),
            iv == indices.deep_view(),
            state@ == indexes_dropped(start, db_id, table@, iv, i as int),
        decreases indices@.len() - i,
    {
        assert(iv[i as int] == indices@[i as int]@);
        state.drop_index_store(db_id, table, indices[i].name.as_str());
        i = i + 1;
    }
}

/// The state with another definition of a table, whose rows changed; its indexes are made anew.
pub open spec fn reshaped(s: StateV, db: u32, table: Seq<char>, d: SchemaV, c: RowChangeV) -> StateV {
    let t = table_changed(s, db, table, c);
    indexes_rebuilt(
        StateV { schemas: catalog::with(t.schemas, db, table, d), ..t },
        db,
        table,
        d.indices,
        d.indices.len() as int,
    )
}

fn reshape(state: &mut KvsState, db_id: u32, table: &str, schema: TableSchema, c: &RowChange)
    ensures
        final(state)@ == reshaped(old(state)@, db_id, table@, schema@, c@),
{
    change_table(state, db_id, table, c);
    let indices = schema.indices.clone();
    assert(indices.deep_view() =~= schema.indices.deep_view());
    state.schemas.put(db_id, table.to_owned(), schema);
    rebuild_indexes(state, db_id, table, &indices);
}

pub open spec fn column_missing(name: Seq<char>) -> ErrorV {
    ErrorV::Schema("Column "@ + name + " not found"@)
}

pub open spec fn column_exists(name: Seq<char>) -> ErrorV {
    ErrorV::Schema("Column "@ + name + " already exists"@)
}

/// What ADD COLUMN does: every row gets the column's default.
pub open spec fn column_added(s: StateV, db: u32, table: Seq<char>, d: SchemaV, c: ColumnV) -> (StateV, Option<ErrorV>) {
    if assoc::assoc_get(d.columns, c.name) is Some {
        (s, Some(column_exists(c.name)))
    } else {
        let v = match c.default {
            Some(v) => v,
            None => ValueV::Null,
        };
        (
            reshaped(
                s,
                db,
                table,
                SchemaV { columns: assoc::assoc_put(d.columns, c.name, c), ..d },
                RowChangeV::Put(c.name, v),
            ),
            None,
        )
    }
}

/// What DROP COLUMN does: every row loses the column.
pub open spec fn column_dropped(s: StateV, db: u32, table: Seq<char>, d: SchemaV, name: Seq<char>, if_exists: bool) -> (
    StateV,
    Option<ErrorV>,
) {
    if assoc::assoc_get(d.columns, name) is None && !if_exists {
        (s, Some(column_missing(name)))
    } else {
        (
            reshaped(
                s,
                db,
                table,
                SchemaV {
                    columns: assoc::assoc_remove(d.columns, name),
                    rowid_column: if d.rowid_column == Some(name) {
                        None
                    } else {
                        d.rowid_column
                    },
                    ..d
                },
                RowChangeV::Take(name),
            ),
            None,
        )
    }
}

/// What RENAME COLUMN does: the column keeps its place, and every row has its value under the
/// new name.
pub open spec fn column_renamed(
    s: StateV,
    db: u32,
    table: Seq<char>,
    d: SchemaV,
    old_name: Seq<char>,
    new_name: Seq<char>,
) -> (StateV, Option<ErrorV>) {
    let rest = assoc::assoc_remove(d.columns, old_name);
    let place = assoc::assoc_place(d.columns, old_name);
    match assoc::assoc_get(d.columns, old_name) {
        None => (s, Some(column_missing(old_name))),
        Some(c) => if assoc::assoc_get(rest, new_name) is Some && place >= rest.len() {
            (s, Some(column_exists(new_name)))
        } else {
            (
                reshaped(
                    s,
                    db,
                    table,
                    SchemaV {
                        columns: assoc::assoc_remove(rest, new_name).insert(place, (new_name, ColumnV { name: new_name, ..c })),
                        rowid_column: if d.rowid_column == Some(old_name) {
                            Some(new_name)
                        } else {
                            d.rowid_column
                        },
                        ..d
                    },
                    RowChangeV::Rename(old_name, new_name),
                ),
                None,
            )
        },
    }
}

/// A directory in which what was under one name is under another.
pub open spec fn moved<T>(c: CatalogV<T>, db: u32, from: Seq<char>, to: Seq<char>) -> CatalogV<T> {
    match catalog::find(c, db, from) {
        Some(v) => catalog::with(catalog::without(c, db, from), db, to, v),
        None => c,
    }
}

/// What RENAME TO does: the table goes under its new name, and its indexes with it.
pub open spec fn table_renamed(s: StateV, db: u32, table: Seq<char>, d: SchemaV, to: Seq<char>) -> StateV {
    let t = StateV {
        schemas: catalog::with(catalog::without(s.schemas, db, table), db, to, SchemaV { name: to, ..d }),
        dbs: moved(s.dbs, db, table, to),
        generators: moved(s.generators, db, table, to),
        ..s
    };
    let n = d.indices.len() as int;
    indexes_rebuilt(indexes_dropped(t, db, table, d.indices, n), db, to, d.indices, n)
}

/// One change of a table: the state, the table's name behind it, and what went wrong.
pub open spec fn alter_step(s: StateV, db: u32, table: Seq<char>, op: AlterTableOperationV) -> (
    StateV,
    Seq<char>,
    Option<ErrorV>,
) {
    match state::table_schema(s, db, table) {
        None => (s, table, Some(select::table_missing(table))),
        Some(d) => match op {
            AlterTableOperationV::AddColumn(c) => {
                let (t, e) = column_added(s, db, table, d, column_of(c));
                (t, table, e)
            },
            AlterTableOperationV::DropColumn { column, if_exists } => {
                let (t, e) = column_dropped(s, db, table, d, column, if_exists);
                (t, table, e)
            },
            AlterTableOperationV::RenameColumn { old_name, new_name } => {
                let (t, e) = column_renamed(s, db, table, d, old_name, new_name);
                (t, table, e)
            },
            AlterTableOperationV::RenameTable(to) => (table_renamed(s, db, table, d, to), to, None),
            AlterTableOperationV::Other(t) => (
                s,
                table,
                Some(ErrorV::Unsupported("ALTER TABLE operation not supported: "@ + t)),
            ),
        },
    }
}

/// The first `n` changes of a table, up to the first that goes wrong.
pub open spec fn altered(s: StateV, db: u32, table: Seq<char>, ops: Seq<AlterTableOperationV>, n: int) -> (
    StateV,
    Seq<char>,
    Option<ErrorV>,
)
    decreases n,
{
    if n <= 0 || n > ops.len() {
        (s, table, None)
    } else {
        let (t, name, e) = altered(s, db, table, ops, n - 1);
        if e is Some {
            (t, name, e)
        } else {
            alter_step(t, db, name, ops[n - 1])
        }
    }
}

pub open spec fn database_missing(db: u32) -> ErrorV {
    ErrorV::Schema("Database "@ + text::nat_text(db as nat) + " not found"@)
}

fn no_database(db_id: u32) -> (r: SkvsError)
    ensures
        r@ == database_missing(db_id),
{
    let n = text::word_text(db_id as u64);
    SkvsError::Schema(text::text3("Database ", n.as_str(), " not found"))
}

/// What ALTER TABLE does.
pub open spec fn alter_result(
    s: StateV,
    db: u32,
    name: Seq<char>,
    if_exists: bool,
    ops: Seq<AlterTableOperationV>,
) -> (StateV, Result<ResultV, ErrorV>) {
    if !s.schemas.known.contains(db) {
        (s, Err(database_missing(db)))
    } else if state::table_schema(s, db, name) is None {
        (
            s,
            if if_exists {
                Ok(sql::no_result())
            } else {
                Err(select::table_missing(name))
            },
        )
    } else {
        let (t, _, e) = altered(s, db, name, ops, ops.len() as int);
        done((t, e))
    }
}

proof fn lemma_alter_fails(s: StateV, db: u32, table: Seq<char>, ops: Seq<AlterTableOperationV>, m: int, n: int)
    requires
        0 <= m <= n <= ops.len(),
        altered(s, db, table, ops, m).2 is Some,
    ensures
        altered(s, db, table, ops, n) == altered(s, db, table, ops, m),
    decreases n,
{
    if m < n {
        lemma_alter_fails(s, db, table, ops, m, n - 1);
    }
}

fn add_column(state: &mut KvsState, db_id: u32, table: &str, schema: TableSchema, c: ColumnDef) -> (r: Result<(), SkvsError>)
    ensures
        (final(state)@, constraint::failure(r)) == column_added(old(state)@, db_id, table@, schema@, c@),
{
    if row::columns_get(&schema.columns, c.name.as_str()).is_some() {
        return Err(SkvsError::Schema(text::text3("Column ", c.name.as_str(), " already exists")));
    }
    let v = match &c.default {
        Some(v) => v.clone(),
        None => Value::Null,
    };
    let change = RowChange::Put(c.name.clone(), v);
    let mut schema = schema;
    row::columns_put(&mut schema.columns, c.name.clone(), c);
    reshape(state, db_id, table, schema, &change);
    Ok(())
}

fn is_rowid_column(schema: &TableSchema, name: &str) -> (r: bool)
    ensures
        r == (schema@.rowid_column == Some(name@)),
{
    match &schema.rowid_column {
        Some(c) => text::text_eq(c.as_str(), name),
        None => false,
    }
}

fn drop_column(state: &mut KvsState, db_id: u32, table: &str, schema: TableSchema, name: &str, if_exists: bool) -> (r: Result<
    (),
    SkvsError,
>)
    ensures
        (final(state)@, constraint::failure(r)) == column_dropped(old(state)@, db_id, table@, schema@, name@, if_exists),
{
    if row::columns_get(&schema.columns, name).is_none() && !if_exists {
        return Err(SkvsError::Schema(text::text3("Column ", name, " not found")));
    }
    let mut schema = schema;
    let _ = row::columns_take(&mut schema.columns, name);
    if is_rowid_column(&schema, name) {
        schema.rowid_column = None;
    }
    let change = RowChange::Take(name.to_owned());
    reshape(state, db_id, table, schema, &change);
    Ok(())
}

fn rename_column(state: &mut KvsState, db_id: u32, table: &str, schema: TableSchema, old_name: &str, new_name: &str) -> (r:
    Result<(), SkvsError>)
    ensures
        (final(state)@, constraint::failure(r)) == column_renamed(
            old(state)@,
            db_id,
            table@,
            schema@,
            old_name@,
            new_name@,
        ),
{
    let mut schema = schema;
    match row::columns_take(&mut schema.columns, old_name) {
        None => Err(SkvsError::Schema(text::text3("Column ", old_name, " not found"))),
        Some(e) => {
            let (place, _, c) = e;
            let taken: bool = row::columns_get(&schema.columns, new_name).is_some();
            if taken && place >= row::columns_len(&schema.columns) {
                return Err(SkvsError::Schema(text::text3("Column ", new_name, " already exists")));
            }
            let mut c = c;
            c.name = new_name.to_owned();
            row::columns_place(&mut schema.columns, place, new_name.to_owned(), c);
            if is_rowid_column(&schema, old_name) {
                schema.rowid_column = Some(new_name.to_owned());
            }
            let change = RowChange::Rename(old_name.to_owned(), new_name.to_owned());
            reshape(state, db_id, table, schema, &change);
            Ok(())
        },
    }
}

fn rename_table(state: &mut KvsState, db_id: u32, table: &str, schema: TableSchema, to: &str)
    ensures
        final(state)@ == table_renamed(old(state)@, db_id, table@, schema@, to@),
{
    let indices = schema.indices.clone();
    assert(indices.deep_view() =~= schema.indices.deep_view());
    let mut schema = schema;
    schema.name = to.to_owned();
    state.schemas.remove(db_id, table);
    state.schemas.put(db_id, to.to_owned(), schema);
    if state.dbs.get(db_id, table).is_some() {
        match state.dbs.remove(db_id, table) {
            Some(store) => state.dbs.put(db_id, to.to_owned(), store),
            None => {},
        }
    }
    if state.rowid_generators.get(db_id, table).is_some() {
        match state.rowid_generators.remove(db_id, table) {
            Some(n) => state.rowid_generators.put(db_id, to.to_owned(), n),
            None => {},
        }
    }
    drop_indexes(state, db_id, table, &indices);
    rebuild_indexes(state, db_id, to, &indices);
}

fn alter_once(state: &mut KvsState, db_id: u32, table: &mut String, op: &AlterTableOperation) -> (r: Result<(), SkvsError>)
    ensures
        (final(state)@, final(table)@, constraint::failure(r)) == alter_step(old(state)@, db_id, old(table)@, op@),
{
    let schema: TableSchema = match state.get_schema(db_id, table.as_str()) {
        Some(d) => d.clone(),
        None => {
            return Err(select::no_table(table.as_str()));
        },
    };
    match op {
        AlterTableOperation::AddColumn(c) => {
            let c = parse_column_def(c);
            add_column(state, db_id, table.as_str(), schema, c)
        },
        AlterTableOperation::DropColumn { column, if_exists } => drop_column(
            state,
            db_id,
            table.as_str(),
            schema,
            column.as_str(),
            *if_exists,
        ),
        AlterTableOperation::RenameColumn { old_name, new_name } => rename_column(
            state,
            db_id,
            table.as_str(),
            schema,
            old_name.as_str(),
            new_name.as_str(),
        ),
        AlterTableOperation::RenameTable(to) => {
            rename_table(state, db_id, table.as_str(), schema, to.as_str());
            *table = to.clone();
            Ok(())
        },
        AlterTableOperation::Other(t) => Err(
            SkvsError::Unsupported(text::text2("ALTER TABLE operation not supported: ", t.as_str())),
        ),
    }
}

/// Runs ALTER TABLE: its operations in order, up to the first that goes wrong.
pub fn alter_table(state: &mut KvsState, db_id: u32, stmt: &Statement) -> (r: Result<QueryResult, SkvsError>)
    ensures
        step(final(state)@, r) == (match stmt@ {
            StatementV::AlterTable { name, if_exists, operations } => alter_result(
                old(state)@,
                db_id,
                name,
                if_exists,
                operations,
            ),
            _ => (old(state)@, Err(ErrorV::Unsupported("Not an ALTER TABLE statement"@))),
        }),
{
    match stmt {
        Statement::AlterTable { name, if_exists, operations } => {
            if !state.schemas.knows(db_id) {
                return Err(no_database(db_id));
            }
            if state.get_schema(db_id, name.as_str()).is_none() {
                if *if_exists {
                    return Ok(QueryResult::empty());
                }
                return Err(select::no_table(name.as_str()));
            }
            let ghost start = state@;
            let ghost ov = operations.deep_view();
            let mut table = name.clone();
            let mut i: usize = 0;
            while i < operations.len()
                invariant
                    i <= operations@.len(),
                    ov == operations.deep_view(),
                    ov.len() == operations@.len(),
                    start == old(state)@,
                    start.schemas.known.contains(db_id),
                    state::table_schema(start, db_id, name@) is Some,
                    stmt@ == (StatementV::AlterTable { name: name@, if_exists: *if_exists, operations: ov }),
                    (state@, table@, None::<ErrorV>) == altered(start, db_id, name@, ov, i as int),
                decreases operations@.len() - i,
            {
                assert(ov[i as int] == operations@[i as int]@);
                match alter_once(state, db_id, &mut table, &operations[i]) {
                    Ok(_) => {},
                    Err(e) => {
                        proof {
                            lemma_alter_fails(start, db_id, name@, ov, i + 1, ov.len() as int);
                        }
                        return Err(e);
                    },
                }
                i = i + 1;
            }
            Ok(QueryResult::empty())
        },
        _ => Err(SkvsError::Unsupported("Not an ALTER TABLE statement".to_owned())),
    }
}

/// Whether a list of indexes has one of a name.
pub open spec fn has_index(indices: Seq<IndexV>, name: Seq<char>) -> bool {
    exists|i: int| 0 <= i < indices.len() && (#[trigger] indices[i]).name == name
}

fn knows_index(indices: &Vec<IndexDef>, name: &str) -> (r: bool)
    ensures
        r == has_index(indices.deep_view(), name@),
{
    let ghost iv = indices.deep_view();
    let mut i: usize = 0;
    while i < indices.len()
        invariant
            i <= indices@.len(),
            iv == indices.deep_view(),
            forall|j: int| 0 <= j < i ==> (#[trigger] iv[j]).name != name@,
        decreases indices@.len() - i,
    {
        assert(iv[i as int] == indices@[i as int]@);
        if text::text_eq(indices[i].name.as_str(), name) {
            return true;
        }
        i = i + 1;
    }
    false
}

/// The name of an index that is created without one.
pub open spec fn index_name_of(name: Option<Seq<char>>, table: Seq<char>, columns: Seq<Seq<char>>) -> Seq<char> {
    match name {
        Some(n) => n,
        None => "idx_"@ + table + "_"@ + text::nat_text(columns.len()),
    }
}

/// What CREATE INDEX does: the table has one more index, which covers the rows that it has.
pub open spec fn index_created(
    s: StateV,
    db: u32,
    name: Option<Seq<char>>,
    table: Seq<char>,
    columns: Seq<Seq<char>>,
    unique: bool,
    if_not_exists: bool,
) -> (StateV, Result<ResultV, ErrorV>) {
    let index = index_name_of(name, table, columns);
    if !s.schemas.known.contains(db) {
        (s, Err(database_missing(db)))
    } else {
        match state::table_schema(s, db, table) {
            None => (s, Err(select::table_missing(table))),
            Some(d) => if has_index(d.indices, index) {
                (
                    s,
                    if if_not_exists {
                        Ok(sql::no_result())
                    } else {
                        Err(ErrorV::Schema("Index "@ + index + " already exists"@))
                    },
                )
            } else {
                let idx = IndexV { name: index, columns, unique, partial_where: None, is_expression: false };
                (
                    index::index_rebuilt(
                        StateV {
                            schemas: catalog::with(s.schemas, db, table, SchemaV { indices: d.indices.push(idx), ..d }),
                            ..s
                        },
                        db,
                        table,
                        idx,
                    ),
                    Ok(sql::no_result()),
                )
            },
        }
    }
}

/// Runs CREATE INDEX.
pub fn create_index(state: &mut KvsState, db_id: u32, stmt: &Statement) -> (r: Result<QueryResult, SkvsError>)
    ensures
        step(final(state)@, r) == (match stmt@ {
            StatementV::CreateIndex { name, table, columns, unique, if_not_exists } => index_created(
                old(state)@,
                db_id,
                name,
                table,
                columns,
                unique,
                if_not_exists,
            ),
            _ => (old(state)@, Err(ErrorV::Unsupported("Not a CREATE INDEX statement"@))),
        }),
{
    match stmt {
        Statement::CreateIndex { name, table, columns, unique, if_not_exists } => {
            if !state.schemas.knows(db_id) {
                return Err(no_database(db_id));
            }
            let mut schema: TableSchema = match state.get_schema(db_id, table.as_str()) {
                Some(d) => d.clone(),
                None => {
                    return Err(select::no_table(table.as_str()));
                },
            };
            let index: String = match name {
                Some(n) => n.clone(),
                None => {
                    let n = text::word_text(columns.len() as u64);
                    text::text4("idx_", table.as_str(), "_", n.as_str())
                },
            };
            if knows_index(&schema.indices, index.as_str()) {
                if *if_not_exists {
                    return Ok(QueryResult::empty());
                }
                return Err(SkvsError::Schema(text::text3("Index ", index.as_str(), " already exists")));
            }
            let idx = IndexDef {
                name: index,
                columns: text::copy_texts(columns),
                unique: *unique,
                partial_where: None,
                is_expression: false,
            };
            let ghost before = schema@.indices;
            let ghost iv = idx@;
            schema.indices.push(idx.clone());
            assert(schema@.indices =~= before.push(iv));
            state.schemas.put(db_id, table.clone(), schema);
            index::rebuild_index(state, db_id, table.as_str(), &idx);
            Ok(QueryResult::empty())
        },
        _ => Err(SkvsError::Unsupported("Not a CREATE INDEX statement".to_owned())),
    }
}

/// The first table of a database, from the `k`-th entry on, that has an index of a name.
pub open spec fn index_holder(items: Seq<((u32, Seq<char>), SchemaV)>, db: u32, index: Seq<char>, k: int) -> Option<
    (Seq<char>, SchemaV),
>
    decreases items.len() - k,
{
    if k < 0 || k >= items.len() {
        None
    } else if items[k].0.0 == db && has_index(items[k].1.indices, index) {
        Some((items[k].0.1, items[k].1))
    } else {
        index_holder(items, db, index, k + 1)
    }
}

/// The first `n` indexes without those of a name.
pub open spec fn other_indexes(indices: Seq<IndexV>, name: Seq<char>, n: int) -> Seq<IndexV>
    decreases n,
{
    if n <= 0 || n > indices.len() {
        Seq::empty()
    } else if indices[n - 1].name == name {
        other_indexes(indices, name, n - 1)
    } else {
        other_indexes(indices, name, n - 1).push(indices[n - 1])
    }
}

/// The state without an index of a table, and what it held.
pub open spec fn index_removed(s: StateV, db: u32, table: Seq<char>, d: SchemaV, index: Seq<char>) -> StateV {
    state::index_dropped(
        StateV {
            schemas: catalog::with(
                s.schemas,
                db,
                table,
                SchemaV { indices: other_indexes(d.indices, index, d.indices.len() as int), ..d },
            ),
            ..s
        },
        db,
        table,
        index,
    )
}

/// The state after the first `n` indexes were dropped, and the first that was not there.
pub open spec fn indexes_removed(s: StateV, db: u32, names: Seq<Seq<char>>, if_exists: bool, n: int) -> (
    StateV,
    Option<ErrorV>,
)
    decreases n,
{
    if n <= 0 || n > names.len() {
        (s, None)
    } else {
        let (p, e) = indexes_removed(s, db, names, if_exists, n - 1);
        if e is Some {
            (p, e)
        } else {
            match index_holder(p.schemas.items, db, names[n - 1], 0) {
                Some((table, d)) => (index_removed(p, db, table, d, names[n - 1]), None),
                None => (
                    p,
                    if if_exists {
                        None
                    } else {
                        Some(ErrorV::Schema("Index "@ + names[n - 1] + " not found"@))
                    },
                ),
            }
        }
    }
}

proof fn lemma_remove_fails(s: StateV, db: u32, names: Seq<Seq<char>>, if_exists: bool, m: int, n: int)
    requires
        0 <= m <= n <= names.len(),
        indexes_removed(s, db, names, if_exists, m).1 is Some,
    ensures
        indexes_removed(s, db, names, if_exists, n) == indexes_removed(s, db, names, if_exists, m),
    decreases n,
{
    if m < n {
        lemma_remove_fails(s, db, names, if_exists, m, n - 1);
    }
}

fn find_index_holder(state: &KvsState, db_id: u32, index: &str) -> (r: Option<(String, TableSchema)>)
    ensures
        match r {
            Some((t, d)) => index_holder(state@.schemas.items, db_id, index@, 0) == Some((t@, d@)),
            None => index_holder(state@.schemas.items, db_id, index@, 0) is None,
        },
{
    let ghost items = state@.schemas.items;
    let n: usize = state.schemas.len();
    let mut k: usize = 0;
    while k < n
        invariant
            k <= n,
            n == items.len(),
            items == state.schemas@.items,
            index_holder(items, db_id, index@, k as int) == index_holder(items, db_id, index@, 0),
        decreases n - k,
    {
        let e = state.schemas.at(k);
        if e.db == db_id && knows_index(&e.value.indices, index) {
            return Some((e.name.clone(), e.value.clone()));
        }
        k = k + 1;
    }
    None
}

fn keep_other_indexes(indices: &Vec<IndexDef>, name: &str) -> (r: Vec<IndexDef>)
    ensures
        r.deep_view() == other_indexes(indices.deep_view(), name@, indices@.len() as int),
{
    let ghost iv = indices.deep_view();
    let mut out: Vec<IndexDef> = Vec::new();
    let mut i: usize = 0;
    assert(out.deep_view() =~= Seq::empty());
    while i < indices.len()
        invariant
            i <= indices@.len(),
            iv == indices.deep_view(),
            out.deep_view() == other_indexes(iv, name@, i as int),
        decreases indices@.len() - i,
    {
        assert(iv[i as int] == indices@[i as int]@);
        if !text::text_eq(indices[i].name.as_str(), name) {
            let ghost before = out.deep_view();
            out.push(indices[i].clone());
            assert(out.deep_view() =~= before.push(iv[i as int]));
        }
        i = i + 1;
    }
    out
}

/// Runs DROP INDEX.
pub fn drop_index(state: &mut KvsState, db_id: u32, stmt: &Statement) -> (r: Result<QueryResult, SkvsError>)
    ensures
        step(final(state)@, r) == (match stmt@ {
            StatementV::Drop { object: ObjectTypeV::Index, if_exists, names } => if !old(
                state,
            )@.schemas.known.contains(db_id) {
                (old(state)@, Err(database_missing(db_id)))
            } else {
                done(indexes_removed(old(state)@, db_id, names, if_exists, names.len() as int))
            },
            _ => (old(state)@, Err(ErrorV::Unsupported("Not a DROP INDEX statement"@))),
        }),
{
    match stmt {
        Statement::Drop { object: ObjectType::Index, if_exists, names } => {
            if !state.schemas.knows(db_id) {
                return Err(no_database(db_id));
            }
            let ghost start = state@;
            let ghost nv: Seq<Seq<char>> = names.deep_view();
            let mut i: usize = 0;
            while i < names.len()
                invariant
                    i <= names@.len(),
                    nv == names.deep_view(),
                    nv.len() == names@.len(),
                    start == old(state)@,
                    start.schemas.known.contains(db_id),
                    stmt@ == (StatementV::Drop { object: ObjectTypeV::Index, if_exists: *if_exists, names: nv }),
                    (state@, None::<ErrorV>) == indexes_removed(start, db_id, nv, *if_exists, i as int),
                decreases names@.len() - i,
            {
                assert(nv[i as int] == names@[i as int]@);
                let index = names[i].as_str();
                match find_index_holder(state, db_id, index) {
                    Some((table, schema)) => {
                        let mut schema = schema;
                        schema.indices = keep_other_indexes(&schema.indices, index);
                        state.schemas.put(db_id, table.clone(), schema);
                        state.drop_index_store(db_id, table.as_str(), index);
                    },
                    None => {
                        if !*if_exists {
                            proof {
                                lemma_remove_fails(start, db_id, nv, *if_exists, i + 1, nv.len() as int);
                            }
                            return Err(SkvsError::Schema(text::text3("Index ", index, " not found")));
                        }
                    },
                }
                i = i + 1;
            }
            Ok(QueryResult::empty())
        },
        _ => Err(SkvsError::Unsupported("Not a DROP INDEX statement".to_owned())),
    }
}

/// Runs CREATE VIEW.
pub fn create_view(state: &mut KvsState, db_id: u32, stmt: &Statement) -> (r: Result<QueryResult, SkvsError>)
    ensures
        step(final(state)@, r) == (match stmt@ {
            StatementV::CreateView { name, query } => done(view::view_created(old(state)@, db_id, name, query)),
            _ => (old(state)@, Err(ErrorV::Unsupported("Not a CREATE VIEW statement"@))),
        }),
{
    match stmt {
        Statement::CreateView { name, query } => match view::create_view(state, db_id, name.as_str(), query.as_str()) {
            Ok(_) => Ok(QueryResult::empty()),
            Err(e) => Err(e),
        },
        _ => Err(SkvsError::Unsupported("Not a CREATE VIEW statement".to_owned())),
    }
}

/// The state after the first `n` views were dropped, and the first that could not be.
pub open spec fn views_dropped(s: StateV, db: u32, names: Seq<Seq<char>>, if_exists: bool, n: int) -> (
    StateV,
    Option<ErrorV>,
)
    decreases n,
{
    if n <= 0 || n > names.len() {
        (s, None)
    } else {
        let (p, e) = views_dropped(s, db, names, if_exists, n - 1);
        if e is Some {
            (p, e)
        } else {
            let (q, r) = state::view_removed(p, db, names[n - 1]);
            match r {
                Ok(_) => (q, None),
                Err(x) => (
                    q,
                    if if_exists {
                        None
                    } else {
                        Some(x)
                    },
                ),
            }
        }
    }
}

proof fn lemma_view_fails(s: StateV, db: u32, names: Seq<Seq<char>>, if_exists: bool, m: int, n: int)
    requires
        0 <= m <= n <= names.len(),
        views_dropped(s, db, names, if_exists, m).1 is Some,
    ensures
        views_dropped(s, db, names, if_exists, n) == views_dropped(s, db, names, if_exists, m),
    decreases n,
{
    if m < n {
        lemma_view_fails(s, db, names, if_exists, m, n - 1);
    }
}

/// Runs DROP VIEW.
pub fn drop_view(state: &mut KvsState, db_id: u32, stmt: &Statement) -> (r: Result<QueryResult, SkvsError>)
    ensures
        step(final(state)@, r) == (match stmt@ {
            StatementV::Drop { object: ObjectTypeV::View, if_exists, names } => done(
                views_dropped(old(state)@, db_id, names, if_exists, names.len() as int),
            ),
            _ => (old(state)@, Err(ErrorV::Unsupported("Not a DROP VIEW statement"@))),
        }),
{
    match stmt {
        Statement::Drop { object: ObjectType::View, if_exists, names } => {
            let ghost start = state@;
            let ghost nv: Seq<Seq<char>> = names.deep_view();
            let mut i: usize = 0;
            while i < names.len()
                invariant
                    i <= names@.len(),
                    nv == names.deep_view(),
                    nv.len() == names@.len(),
                    start == old(state)@,
                    stmt@ == (StatementV::Drop { object: ObjectTypeV::View, if_exists: *if_exists, names: nv }),
                    (state@, None::<ErrorV>) == views_dropped(start, db_id, nv, *if_exists, i as int),
                decreases names@.len() - i,
            {
                assert(nv[i as int] == names@[i as int]@);
                match view::drop_view(state, db_id, names[i].as_str()) {
                    Ok(_) => {},
                    Err(e) => {
                        if !*if_exists {
                            proof {
                                lemma_view_fails(start, db_id, nv, *if_exists, i + 1, nv.len() as int);
                            }
                            return Err(e);
                        }
                    },
                }
                i = i + 1;
            }
            Ok(QueryResult::empty())
        },
        _ => Err(SkvsError::Unsupported("Not a DROP VIEW statement".to_owned())),
    }
}

/// The columns of a full-text table, the first `n` of them.
pub open spec fn text_columns(names: Seq<Seq<char>>, n: int) -> Seq<(Seq<char>, ColumnV)>
    decreases n,
{
    if n <= 0 || n > names.len() {
        Seq::empty()
    } else {
        assoc::assoc_put(text_columns(names, n - 1), names[n - 1], bare_column(names[n - 1], DataType::Text))
    }
}

/// The column that a full-text table indexes: its first.
pub open spec fn content_column(names: Seq<Seq<char>>) -> Seq<char> {
    if names.len() > 0 {
        names[0]
    } else {
        "content"@
    }
}

/// The table behind a full-text table.
pub open spec fn fts_schema(name: Seq<char>, names: Seq<Seq<char>>) -> SchemaV {
    SchemaV {
        name,
        columns: text_columns(names, names.len() as int),
        rowid_column: None,
        foreign_keys: Seq::empty(),
        indices: Seq::empty(),
        triggers: Seq::empty(),
        unique_groups: Seq::empty(),
        table_checks: Seq::empty(),
        fts5_content_column: Some(content_column(names)),
    }
}

/// What CREATE VIRTUAL TABLE does: a plain table, and a full-text index over its first column.
pub open spec fn fts_created(s: StateV, db: u32, name: Seq<char>, if_not_exists: bool, module: Seq<char>, args: Seq<Seq<char>>) -> (
    StateV,
    Result<ResultV, ErrorV>,
) {
    let m = text::lowercase(module);
    if m != "fts5"@ {
        (
            s,
            Err(ErrorV::Unsupported("Virtual table module '"@ + m + "' not supported (only fts5)"@)),
        )
    } else if state::table_schema(s, db, name) is Some {
        (
            s,
            if if_not_exists {
                Ok(sql::no_result())
            } else {
                Err(table_exists(name))
            },
        )
    } else {
        let t = table_added(s, db, fts_schema(name, args));
        (
            StateV {
                fts: catalog::with(
                    t.fts,
                    db,
                    name,
                    FtsTableV { name, index: fts::empty_index(), content_column: content_column(args) },
                ),
                ..t
            },
            Ok(sql::no_result()),
        )
    }
}

fn read_text_columns(names: &Vec<String>) -> (r: IndexMap<String, ColumnDef>)
    ensures
        row::column_list(r) == text_columns(names.deep_view(), names@.len() as int),
{
    let ghost nv: Seq<Seq<char>> = names.deep_view();
    let mut columns = row::columns_new();
    let mut i: usize = 0;
    while i < names.len()
        invariant
            i <= names@.len(),
            nv == names.deep_view(),
            row::column_list(columns) == text_columns(nv, i as int),
        decreases names@.len() - i,
    {
        assert(nv[i as int] == names@[i as int]@);
        row::columns_put(&mut columns, names[i].clone(), plain_column(names[i].clone(), DataType::Text));
        i = i + 1;
    }
    columns
}

/// Runs CREATE VIRTUAL TABLE ... USING fts5(...).
pub fn create_virtual_table(state: &mut KvsState, db_id: u32, stmt: &Statement) -> (r: Result<QueryResult, SkvsError>)
    ensures
        step(final(state)@, r) == (match stmt@ {
            StatementV::CreateVirtualTable { name, if_not_exists, module_name, module_args } => fts_created(
                old(state)@,
                db_id,
                name,
                if_not_exists,
                module_name,
                module_args,
            ),
            _ => (old(state)@, Err(ErrorV::Unsupported("Not a CREATE VIRTUAL TABLE statement"@))),
        }),
{
    match stmt {
        Statement::CreateVirtualTable { name, if_not_exists, module_name, module_args } => {
            let m = text::to_lower(module_name.as_str());
            if !text::text_eq(m.as_str(), "fts5") {
                return Err(
                    SkvsError::Unsupported(text::text3("Virtual table module '", m.as_str(), "' not supported (only fts5)")),
                );
            }
            if state.get_schema(db_id, name.as_str()).is_some() {
                if *if_not_exists {
                    return Ok(QueryResult::empty());
                }
                return Err(exists_already(name.as_str()));
            }
            let content: String = if module_args.len() > 0 {
                assert(module_args.deep_view()[0] == module_args@[0]@);
                module_args[0].clone()
            } else {
                "content".to_owned()
            };
            let schema = TableSchema {
                name: name.clone(),
                columns: read_text_columns(module_args),
                rowid_column: None,
                foreign_keys: Vec::new(),
                indices: Vec::new(),
                triggers: Vec::new(),
                unique_groups: Vec::new(),
                table_checks: Vec::new(),
                fts5_content_column: Some(content.clone()),
            };
            assert(schema@.foreign_keys =~= Seq::empty());
            assert(schema@.indices =~= Seq::empty());
            assert(schema@.triggers =~= Seq::empty());
            assert(schema@.unique_groups =~= Seq::empty());
            assert(schema@.table_checks =~= Seq::empty());
            add_table(state, db_id, schema);
            let t = FtsVirtualTable::new(name.as_str(), content.as_str());
            let _ = state.register_fts_table(db_id, name.as_str(), t);
            Ok(QueryResult::empty())
        },
        _ => Err(SkvsError::Unsupported("Not a CREATE VIRTUAL TABLE statement".to_owned())),
    }
}

/// Whether a character only sets a name off.
pub open spec fn is_mark(c: char) -> bool {
    c == ',' || c == ';'
}

pub open spec fn marks_until(s: Seq<char>, i: int) -> int
    decreases s.len() - i,
{
    if i < 0 || i >= s.len() || !is_mark(s[i]) {
        i
    } else {
        marks_until(s, i + 1)
    }
}

pub open spec fn marks_back(s: Seq<char>, e: int) -> int
    decreases e,
{
    if e <= 0 || e > s.len() || !is_mark(s[e - 1]) {
        e
    } else {
        marks_back(s, e - 1)
    }
}

/// A name without the commas and semicolons at its ends.
pub open spec fn unmarked(s: Seq<char>) -> Seq<char> {
    let t = s.subrange(marks_until(s, 0), s.len() as int);
    t.subrange(0, marks_back(t, t.len() as int))
}

fn trim_marks(s: &str) -> (r: String)
    ensures
        r@ == unmarked(s@),
{
    let cs = text::chars_of(s);
    let mut i: usize = 0;
    while i < cs.len() && (cs[i] == ',' || cs[i] == ';')
        invariant
            i <= cs@.len(),
            cs@ == s@,
            marks_until(s@, i as int) == marks_until(s@, 0),
        decreases cs@.len() - i,
    {
        i = i + 1;
    }
    let t = text::slice_text(&cs, i, cs.len());
    let ts = text::chars_of(t.as_str());
    let mut e: usize = ts.len();
    while e > 0 && (ts[e - 1] == ',' || ts[e - 1] == ';')
        invariant
            e <= ts@.len(),
            ts@ == t@,
            marks_back(t@, e as int) == marks_back(t@, t@.len() as int),
        decreases e,
    {
        e = e - 1;
    }
    text::slice_text(&ts, 0, e)
}

/// What the words behind CREATE TRIGGER say: the trigger's name, when it fires, and on what.
pub open spec fn trigger_head(w: Seq<Seq<char>>) -> Option<(Seq<char>, TriggerTiming, TriggerEvent, Seq<char>)> {
    if w.len() < 2 {
        None
    } else {
        let t = text::capitals(w[1]);
        if t == "BEFORE"@ {
            event_head(w, TriggerTiming::Before, 2)
        } else if t == "AFTER"@ {
            event_head(w, TriggerTiming::After, 2)
        } else if t == "INSTEAD"@ {
            event_head(w, TriggerTiming::InsteadOf, 3)
        } else {
            None
        }
    }
}

pub open spec fn event_of(word: Seq<char>) -> Option<TriggerEvent> {
    if word == "INSERT"@ {
        Some(TriggerEvent::Insert)
    } else if word == "UPDATE"@ {
        Some(TriggerEvent::Update)
    } else if word == "DELETE"@ {
        Some(TriggerEvent::Delete)
    } else {
        None
    }
}

pub open spec fn event_head(w: Seq<Seq<char>>, timing: TriggerTiming, k: int) -> Option<
    (Seq<char>, TriggerTiming, TriggerEvent, Seq<char>),
> {
    if w.len() < k + 3 || text::capitals(w[k + 1]) != "ON"@ {
        None
    } else {
        match event_of(text::capitals(w[k])) {
            Some(e) => Some((w[0], timing, e, unmarked(w[k + 2]))),
            None => None,
        }
    }
}

/// Whether the words ON and FOR EACH ROW stand in a trigger's text in this order.
pub open spec fn says_each_row(upper: Seq<char>) -> bool {
    let from = match text::find_from(upper, " ON "@, 0) {
        Some(i) => i + " ON "@.len(),
        None => 0,
    };
    text::find_from(upper, "FOR EACH ROW"@, from) is Some
}

/// The condition between WHEN and BEGIN, where there is one; the outer `None` stands for words
/// that overlap.
pub open spec fn trigger_condition(sql: Seq<char>, upper: Seq<char>) -> Option<Option<Seq<char>>> {
    match text::find_from(upper, " WHEN "@, 0) {
        None => Some(None),
        Some(w) => match text::find_from(upper, " BEGIN "@, w) {
            None => Some(None),
            Some(b) => if b < w + " WHEN "@.len() {
                None
            } else {
                Some(Some(text::trimmed(sql.subrange(w + " WHEN "@.len(), b))))
            },
        },
    }
}

/// The statements between the first BEGIN and the last END.
pub open spec fn trigger_body(sql: Seq<char>, upper: Seq<char>) -> Option<Seq<char>> {
    match (text::find_from(upper, "BEGIN"@, 0), text::find_back(upper, "END"@, upper.len() as int)) {
        (Some(b), Some(e)) => if e < b + "BEGIN"@.len() {
            None
        } else {
            Some(text::trimmed(sql.subrange(b + "BEGIN"@.len(), e)))
        },
        _ => None,
    }
}

/// The trigger that a CREATE TRIGGER text defines, where it is well formed.
pub open spec fn trigger_of(text: Seq<char>) -> Option<TriggerV> {
    let sql = text::trimmed(text);
    let upper = text::capitals(sql);
    if !text::stands_at(upper, "CREATE TRIGGER"@, 0) {
        None
    } else {
        let rest = sql.subrange("CREATE TRIGGER"@.len() as int, sql.len() as int);
        match (trigger_head(text::parts_from(rest, 0)), trigger_condition(sql, upper), trigger_body(sql, upper)) {
            (Some(h), Some(condition), Some(body)) => Some(
                TriggerV {
                    name: h.0,
                    timing: h.1,
                    event: h.2,
                    table: h.3,
                    for_each_row: says_each_row(upper),
                    condition,
                    body,
                },
            ),
            _ => None,
        }
    }
}

pub open spec fn malformed_trigger() -> ErrorV {
    ErrorV::SqlParse("Malformed CREATE TRIGGER statement"@)
}

/// What CREATE TRIGGER does.
pub open spec fn trigger_created(s: StateV, db: u32, text: Seq<char>) -> (StateV, Result<ResultV, ErrorV>) {
    match trigger_of(text) {
        Some(t) => (state::trigger_added(s, db, t.table, t), Ok(sql::no_result())),
        None => (s, Err(malformed_trigger())),
    }
}

fn capital_word(w: &String) -> (r: String)
    ensures
        r@ == text::capitals(w@),
{
    let cs = text::chars_of(w.as_str());
    text::string_of(&text::to_capitals(&cs))
}

fn read_event(word: &str) -> (r: Option<TriggerEvent>)
    ensures
        r == event_of(word@),
{
    if text::text_eq(word, "INSERT") {
        Some(TriggerEvent::Insert)
    } else if text::text_eq(word, "UPDATE") {
        Some(TriggerEvent::Update)
    } else if text::text_eq(word, "DELETE") {
        Some(TriggerEvent::Delete)
    } else {
        None
    }
}

fn read_trigger_head(w: &Vec<String>) -> (r: Option<(String, TriggerTiming, TriggerEvent, String)>)
    ensures
        match r {
            Some(h) => trigger_head(w.deep_view()) == Some((h.0@, h.1, h.2, h.3@)),
            None => trigger_head(w.deep_view()) is None,
        },
{
    let ghost wv: Seq<Seq<char>> = w.deep_view();
    if w.len() < 2 {
        return None;
    }
    assert(wv[1] == w@[1]@);
    assert(wv[0] == w@[0]@);
    let t = capital_word(&w[1]);
    let timing: TriggerTiming;
    let k: usize;
    if text::text_eq(t.as_str(), "BEFORE") {
        timing = TriggerTiming::Before;
        k = 2;
    } else if text::text_eq(t.as_str(), "AFTER") {
        timing = TriggerTiming::After;
        k = 2;
    } else if text::text_eq(t.as_str(), "INSTEAD") {
        timing = TriggerTiming::InsteadOf;
        k = 3;
    } else {
        return None;
    }
    assert(trigger_head(wv) == event_head(wv, timing, k as int));
    if w.len() < k + 3 {
        return None;
    }
    assert(wv[k as int] == w@[k as int]@);
    assert(wv[k + 1] == w@[k + 1]@);
    assert(wv[k + 2] == w@[k + 2]@);
    let on = capital_word(&w[k + 1]);
    if !text::text_eq(on.as_str(), "ON") {
        return None;
    }
    let e = capital_word(&w[k]);
    match read_event(e.as_str()) {
        Some(event) => Some((w[0].clone(), timing, event, trim_marks(w[k + 2].as_str()))),
        None => None,
    }
}

fn does_say_each_row(upper: &Vec<char>) -> (r: bool)
    ensures
        r == says_each_row(upper@),
{
    let on = text::chars_of(" ON ");
    assert(upper.len() <= usize::MAX);
    let from: usize = match text::find_text(upper, &on, 0) {
        Some(i) => i + on.len(),
        None => 0,
    };
    let each = text::chars_of("FOR EACH ROW");
    text::find_text(upper, &each, from).is_some()
}

fn read_trigger_condition(sql: &Vec<char>, upper: &Vec<char>) -> (r: Option<Option<String>>)
    requires
        sql@.len() == upper@.len(),
    ensures
        r.deep_view() == trigger_condition(sql@, upper@),
{
    let when = text::chars_of(" WHEN ");
    let begin = text::chars_of(" BEGIN ");
    assert(upper.len() <= usize::MAX);
    match text::find_text(upper, &when, 0) {
        None => Some(None),
        Some(w) => match text::find_text(upper, &begin, w) {
            None => Some(None),
            Some(b) => {
                if b < w + when.len() {
                    None
                } else {
                    let t = text::slice_text(sql, w + when.len(), b);
                    Some(Some(text::trim(t.as_str())))
                }
            },
        },
    }
}

fn read_trigger_body(sql: &Vec<char>, upper: &Vec<char>) -> (r: Option<String>)
    requires
        sql@.len() == upper@.len(),
    ensures
        r.deep_view() == trigger_body(sql@, upper@),
{
    let begin = text::chars_of("BEGIN");
    let end = text::chars_of("END");
    assert(upper.len() <= usize::MAX);
    match (text::find_text(upper, &begin, 0), text::find_last(upper, &end)) {
        (Some(b), Some(e)) => {
            if e < b + begin.len() {
                None
            } else {
                let t = text::slice_text(sql, b + begin.len(), e);
                Some(text::trim(t.as_str()))
            }
        },
        _ => None,
    }
}

fn read_trigger(text: &str) -> (r: Option<TriggerDef>)
    ensures
        match r {
            Some(t) => trigger_of(text@) == Some(t@),
            None => trigger_of(text@) is None,
        },
{
    let t = text::trim(text);
    let sql = text::chars_of(t.as_str());
    let upper = text::to_capitals(&sql);
    let start = text::chars_of("CREATE TRIGGER");
    if !text::stands(&upper, &start, 0) {
        return None;
    }
    let rest = text::slice_text(&sql, start.len(), sql.len());
    let words = text::split_white(&text::chars_of(rest.as_str()));
    match (read_trigger_head(&words), read_trigger_condition(&sql, &upper), read_trigger_body(&sql, &upper)) {
        (Some(h), Some(condition), Some(body)) => {
            let (name, timing, event, table) = h;
            Some(TriggerDef { name, timing, event, table, for_each_row: does_say_each_row(&upper), condition, body })
        },
        _ => None,
    }
}

/// Runs `CREATE TRIGGER name {BEFORE|AFTER|INSTEAD OF} {INSERT|UPDATE|DELETE} ON table
/// [FOR EACH ROW] [WHEN condition] BEGIN ... END`, which the SQL parser does not know.
pub fn create_trigger(state: &mut KvsState, db_id: u32, sql: &str) -> (r: Result<QueryResult, SkvsError>)
    ensures
        step(final(state)@, r) == trigger_created(old(state)@, db_id, sql@),
{
    match read_trigger(sql) {
        Some(t) => {
            let table = t.table.clone();
            let _ = state.add_trigger(db_id, table.as_str(), t);
            Ok(QueryResult::empty())
        },
        None => Err(SkvsError::SqlParse("Malformed CREATE TRIGGER statement".to_owned())),
    }
}

} // verus!
