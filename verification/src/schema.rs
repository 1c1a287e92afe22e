//! Values, rows and the definitions of tables.
use indexmap::IndexMap;
use std::cmp::Ordering;
use vstd::prelude::*;

use crate::double;
use crate::double::Real;
use crate::text;

verus! {

pub type RowId = u64;

pub type ColumnName = String;

pub type Row = IndexMap<String, Value>;

#[derive(Debug, Clone, Copy, PartialEq, Eq, Hash, Structural)]
pub enum DataType {
    Null,
    Integer,
    Real,
    Text,
    Blob,
}

/// A value of a cell or of a parameter.
#[derive(Debug)]
pub enum Value {
    Null,
    Integer(i64),
    Real(Real),
    Text(String),
    Blob(Vec<u8>),
}

/// What a value is.
pub enum ValueV {
    Null,
    Integer(i64),
    Real(u64),
    Text(Seq<char>),
    Blob(Seq<u8>),
}

impl View for Value {
    type V = ValueV;

    open spec fn view(&self) -> ValueV {
        match self {
            Value::Null => ValueV::Null,
            Value::Integer(i) => ValueV::Integer(*i),
            Value::Real(r) => ValueV::Real(r.bits),
            Value::Text(s) => ValueV::Text(s@),
            Value::Blob(b) => ValueV::Blob(b@),
        }
    }
}

impl DeepView for Value {
    type V = ValueV;

    open spec fn deep_view(&self) -> ValueV {
        self@
    }
}

impl Clone for Value {
    fn clone(&self) -> (r: Value)
        ensures
            r@ == self@,
    {
        match self {
            Value::Null => Value::Null,
            Value::Integer(i) => Value::Integer(*i),
            Value::Real(r) => Value::Real(*r),
            Value::Text(s) => Value::Text(s.clone()),
            Value::Blob(b) => Value::Blob(copy_bytes(b)),
        }
    }
}

pub fn copy_bytes(b: &Vec<u8>) -> (r: Vec<u8>)
    ensures
        r@ == b@,
{
    let c = b.clone();
    assert(c@ =~= b@);
    c
}

/// Equality of values: of the same kind, and equal as that kind has it.
pub open spec fn same_value(a: ValueV, b: ValueV) -> bool {
    match (a, b) {
        (ValueV::Null, ValueV::Null) => true,
        (ValueV::Integer(i), ValueV::Integer(j)) => i == j,
        (ValueV::Real(x), ValueV::Real(y)) => double::same_real(x, y),
        (ValueV::Text(s), ValueV::Text(t)) => s == t,
        (ValueV::Blob(s), ValueV::Blob(t)) => s == t,
        _ => false,
    }
}

/// The place of a value's kind in the order of values; both kinds of numbers share one.
pub open spec fn kind_rank(v: ValueV) -> int {
    match v {
        ValueV::Null => 0,
        ValueV::Integer(_) | ValueV::Real(_) => 1,
        ValueV::Text(_) => 2,
        ValueV::Blob(_) => 3,
    }
}

/// Where a number stands among all numbers.
pub open spec fn number_position(v: ValueV) -> int {
    match v {
        ValueV::Integer(i) => double::int_position(i as int),
        ValueV::Real(x) => double::position(x),
        _ => 0,
    }
}

/// -1, 0 or 1 as `a` comes before, with or after `b`: first by kind, with null below
/// everything, then numbers by size across both kinds, texts by code points and blobs by bytes.
pub open spec fn value_order(a: ValueV, b: ValueV) -> int {
    if kind_rank(a) < kind_rank(b) {
        -1
    } else if kind_rank(a) > kind_rank(b) {
        1
    } else {
        match (a, b) {
            (ValueV::Text(s), ValueV::Text(t)) => text::text_order(s, t),
            (ValueV::Blob(s), ValueV::Blob(t)) => text::bytes_order(s, t),
            _ => if number_position(a) < number_position(b) {
                -1
            } else if number_position(a) > number_position(b) {
                1
            } else {
                0
            },
        }
    }
}

/// Whether an `Ordering` is the one of this number.
pub open spec fn is_order(r: Ordering, n: int) -> bool {
    match r {
        Ordering::Less => n == -1,
        Ordering::Equal => n == 0,
        Ordering::Greater => n == 1,
    }
}

impl PartialEq for Value {
    fn eq(&self, other: &Value) -> (r: bool) {
        self.same(other)
    }
}

impl vstd::std_specs::cmp::PartialEqSpecImpl for Value {
    open spec fn obeys_eq_spec() -> bool {
        true
    }

    open spec fn eq_spec(&self, other: &Value) -> bool {
        same_value(self@, other@)
    }
}

fn from_flags(at_most: bool, at_least: bool) -> (r: i8)
    requires
        at_most || at_least,
    ensures
        r == (if !at_least {
            -1int
        } else if !at_most {
            1
        } else {
            0
        }),
{
    if !at_least {
        -1
    } else if !at_most {
        1
    } else {
        0
    }
}

impl Value {
    pub fn same(&self, other: &Value) -> (r: bool)
        ensures
            r == same_value(self@, other@),
    {
        match (self, other) {
            (Value::Null, Value::Null) => true,
            (Value::Integer(i), Value::Integer(j)) => *i == *j,
            (Value::Real(x), Value::Real(y)) => x.same(*y),
            (Value::Text(s), Value::Text(t)) => *s == *t,
            (Value::Blob(s), Value::Blob(t)) => text::bytes_eq(s, t),
            _ => false,
        }
    }

    pub fn is_null(&self) -> (r: bool)
        ensures
            r == (self@ == ValueV::Null),
    {
        match self {
            Value::Null => true,
            _ => false,
        }
    }

    fn rank(&self) -> (r: u8)
        ensures
            r == kind_rank(self@),
    {
        match self {
            Value::Null => 0,
            Value::Integer(_) => 1,
            Value::Real(_) => 1,
            Value::Text(_) => 2,
            Value::Blob(_) => 3,
        }
    }

    /// -1, 0 or 1 as `self` comes before, with or after `other`.
    pub fn order(&self, other: &Value) -> (r: i8)
        ensures
            r == value_order(self@, other@),
    {
        if self.rank() < other.rank() {
            return -1;
        }
        if self.rank() > other.rank() {
            return 1;
        }
        match (self, other) {
            (Value::Integer(i), Value::Integer(j)) => {
                proof {
                    double::lemma_int_position_order(*i as int, *j as int);
                    double::lemma_int_position_order(*j as int, *i as int);
                }
                if *i < *j {
                    -1
                } else if *i > *j {
                    1
                } else {
                    0
                }
            },
            (Value::Real(x), Value::Real(y)) => from_flags(x.at_most(*y), y.at_most(*x)),
            (Value::Integer(i), Value::Real(y)) => from_flags(y.at_least_int(*i), y.at_most_int(*i)),
            (Value::Real(x), Value::Integer(j)) => from_flags(x.at_most_int(*j), x.at_least_int(*j)),
            (Value::Text(s), Value::Text(t)) => text::order_texts(s.as_str(), t.as_str()),
            (Value::Blob(s), Value::Blob(t)) => text::order_bytes(s, t),
            _ => 0,
        }
    }

    /// The order of two values. Numbers compare by size whatever their kind, null is below
    /// everything, and other kinds follow in a fixed order.
    pub fn compare(&self, other: &Value) -> (r: Ordering)
        ensures
            is_order(r, value_order(self@, other@)),
    {
        let n: i8 = self.order(other);
        proof {
            lemma_order_range(self@, other@);
        }
        if n < 0 {
            Ordering::Less
        } else if n > 0 {
            Ordering::Greater
        } else {
            Ordering::Equal
        }
    }
}

proof fn lemma_item_order_range(a: Seq<int>, b: Seq<int>, i: int)
    ensures
        -1 <= text::item_order(a, b, i) <= 1,
    decreases a.len() - i,
{
    if 0 <= i && i < a.len() && i < b.len() {
        lemma_item_order_range(a, b, i + 1);
    }
}

proof fn lemma_order_range(a: ValueV, b: ValueV)
    ensures
        -1 <= value_order(a, b) <= 1,
{
    match (a, b) {
        (ValueV::Text(s), ValueV::Text(t)) => lemma_item_order_range(text::codes(s), text::codes(t), 0),
        (ValueV::Blob(s), ValueV::Blob(t)) => lemma_item_order_range(text::byte_values(s), text::byte_values(t), 0),
        _ => {},
    }
}

/// The order of values is total: each two values compare, and the reverse comparison gives
/// the reverse answer.
pub proof fn lemma_order_reverse(a: ValueV, b: ValueV)
    ensures
        value_order(a, b) == -value_order(b, a),
{
    match (a, b) {
        (ValueV::Text(s), ValueV::Text(t)) => text::lemma_item_order_reverse(text::codes(s), text::codes(t), 0),
        (ValueV::Blob(s), ValueV::Blob(t)) => text::lemma_item_order_reverse(text::byte_values(s), text::byte_values(t), 0),
        _ => {},
    }
}

/// The order of values is transitive.
pub proof fn lemma_order_transitive(a: ValueV, b: ValueV, c: ValueV)
    requires
        value_order(a, b) <= 0,
        value_order(b, c) <= 0,
    ensures
        value_order(a, c) <= 0,
{
    match (a, b, c) {
        (ValueV::Text(s), ValueV::Text(t), ValueV::Text(u)) => {
            text::lemma_item_order_transitive(text::codes(s), text::codes(t), text::codes(u), 0);
        },
        (ValueV::Blob(s), ValueV::Blob(t), ValueV::Blob(u)) => {
            text::lemma_item_order_transitive(text::byte_values(s), text::byte_values(t), text::byte_values(u), 0);
        },
        _ => {},
    }
}

/// A value stands level with itself.
pub proof fn lemma_order_reflexive(a: ValueV)
    ensures
        value_order(a, a) == 0,
{
    match a {
        ValueV::Text(s) => text::lemma_item_order_same(text::codes(s), 0),
        ValueV::Blob(s) => text::lemma_item_order_same(text::byte_values(s), 0),
        _ => {},
    }
}

/// Null comes before every other value.
pub proof fn lemma_null_least(a: ValueV)
    requires
        a != ValueV::Null,
    ensures
        value_order(ValueV::Null, a) == -1,
{
}

/// Values that are equal stand level in the order.
pub proof fn lemma_same_is_level(a: ValueV, b: ValueV)
    requires
        same_value(a, b),
    ensures
        value_order(a, b) == 0,
{
    lemma_order_reflexive(a);
}

/// What a column is defined as.
#[derive(Debug)]
pub struct ColumnDef {
    pub name: String,
    pub data_type: DataType,
    pub primary_key: bool,
    pub auto_increment: bool,
    pub not_null: bool,
    pub default: Option<Value>,
    pub unique: bool,
    pub check_expr: Option<String>,
}

pub struct ColumnV {
    pub name: Seq<char>,
    pub data_type: DataType,
    pub primary_key: bool,
    pub auto_increment: bool,
    pub not_null: bool,
    pub default: Option<ValueV>,
    pub unique: bool,
    pub check_expr: Option<Seq<char>>,
}

impl View for ColumnDef {
    type V = ColumnV;

    open spec fn view(&self) -> ColumnV {
        ColumnV {
            name: self.name@,
            data_type: self.data_type,
            primary_key: self.primary_key,
            auto_increment: self.auto_increment,
            not_null: self.not_null,
            default: self.default.deep_view(),
            unique: self.unique,
            check_expr: self.check_expr.deep_view(),
        }
    }
}

impl Clone for ColumnDef {
    fn clone(&self) -> (r: ColumnDef)
        ensures
            r@ == self@,
    {
        ColumnDef {
            name: self.name.clone(),
            data_type: self.data_type,
            primary_key: self.primary_key,
            auto_increment: self.auto_increment,
            not_null: self.not_null,
            default: self.default.clone(),
            unique: self.unique,
            check_expr: self.check_expr.clone(),
        }
    }
}

/// A table-level key over one or more columns.
#[derive(Debug)]
pub struct UniqueGroup {
    pub columns: Vec<String>,
    pub is_primary: bool,
}

pub struct UniqueV {
    pub columns: Seq<Seq<char>>,
    pub is_primary: bool,
}

impl View for UniqueGroup {
    type V = UniqueV;

    open spec fn view(&self) -> UniqueV {
        UniqueV { columns: self.columns.deep_view(), is_primary: self.is_primary }
    }
}

impl DeepView for UniqueGroup {
    type V = UniqueV;

    open spec fn deep_view(&self) -> UniqueV {
        self@
    }
}

impl Clone for UniqueGroup {
    fn clone(&self) -> (r: UniqueGroup)
        ensures
            r@ == self@,
    {
        UniqueGroup { columns: text::copy_texts(&self.columns), is_primary: self.is_primary }
    }
}

#[derive(Debug, Clone, Copy, PartialEq, Eq, Structural)]
pub enum FkAction {
    NoAction,
    Restrict,
    Cascade,
    SetNull,
    SetDefault,
}

#[derive(Debug)]
pub struct ForeignKeyDef {
    pub column: String,
    pub ref_table: String,
    pub ref_column: String,
    pub on_delete: FkAction,
    pub on_update: FkAction,
}

pub struct ForeignKeyV {
    pub column: Seq<char>,
    pub ref_table: Seq<char>,
    pub ref_column: Seq<char>,
    pub on_delete: FkAction,
    pub on_update: FkAction,
}

impl View for ForeignKeyDef {
    type V = ForeignKeyV;

    open spec fn view(&self) -> ForeignKeyV {
        ForeignKeyV {
            column: self.column@,
            ref_table: self.ref_table@,
            ref_column: self.ref_column@,
            on_delete: self.on_delete,
            on_update: self.on_update,
        }
    }
}

impl DeepView for ForeignKeyDef {
    type V = ForeignKeyV;

    open spec fn deep_view(&self) -> ForeignKeyV {
        self@
    }
}

impl Clone for ForeignKeyDef {
    fn clone(&self) -> (r: ForeignKeyDef)
        ensures
            r@ == self@,
    {
        ForeignKeyDef {
            column: self.column.clone(),
            ref_table: self.ref_table.clone(),
            ref_column: self.ref_column.clone(),
            on_delete: self.on_delete,
            on_update: self.on_update,
        }
    }
}

#[derive(Debug)]
pub struct IndexDef {
    pub name: String,
    pub columns: Vec<String>,
    pub unique: bool,
    pub partial_where: Option<String>,
    pub is_expression: bool,
}

pub struct IndexV {
    pub name: Seq<char>,
    pub columns: Seq<Seq<char>>,
    pub unique: bool,
    pub partial_where: Option<Seq<char>>,
    pub is_expression: bool,
}

impl View for IndexDef {
    type V = IndexV;

    open spec fn view(&self) -> IndexV {
        IndexV {
            name: self.name@,
            columns: self.columns.deep_view(),
            unique: self.unique,
            partial_where: self.partial_where.deep_view(),
            is_expression: self.is_expression,
        }
    }
}

impl DeepView for IndexDef {
    type V = IndexV;

    open spec fn deep_view(&self) -> IndexV {
        self@
    }
}

impl Clone for IndexDef {
    fn clone(&self) -> (r: IndexDef)
        ensures
            r@ == self@,
    {
        IndexDef {
            name: self.name.clone(),
            columns: text::copy_texts(&self.columns),
            unique: self.unique,
            partial_where: self.partial_where.clone(),
            is_expression: self.is_expression,
        }
    }
}

#[derive(Debug, Clone, Copy, PartialEq, Eq, Structural)]
pub enum TriggerTiming {
    Before,
    After,
    InsteadOf,
}

#[derive(Debug, Clone, Copy, PartialEq, Eq, Structural)]
pub enum TriggerEvent {
    Insert,
    Update,
    Delete,
}

#[derive(Debug)]
pub struct TriggerDef {
    pub name: String,
    pub timing: TriggerTiming,
    pub event: TriggerEvent,
    pub table: String,
    pub for_each_row: bool,
    pub condition: Option<String>,
    pub body: String,
}

pub struct TriggerV {
    pub name: Seq<char>,
    pub timing: TriggerTiming,
    pub event: TriggerEvent,
    pub table: Seq<char>,
    pub for_each_row: bool,
    pub condition: Option<Seq<char>>,
    pub body: Seq<char>,
}

impl View for TriggerDef {
    type V = TriggerV;

    open spec fn view(&self) -> TriggerV {
        TriggerV {
            name: self.name@,
            timing: self.timing,
            event: self.event,
            table: self.table@,
            for_each_row: self.for_each_row,
            condition: self.condition.deep_view(),
            body: self.body@,
        }
    }
}

impl DeepView for TriggerDef {
    type V = TriggerV;

    open spec fn deep_view(&self) -> TriggerV {
        self@
    }
}

impl Clone for TriggerDef {
    fn clone(&self) -> (r: TriggerDef)
        ensures
            r@ == self@,
    {
        TriggerDef {
            name: self.name.clone(),
            timing: self.timing,
            event: self.event,
            table: self.table.clone(),
            for_each_row: self.for_each_row,
            condition: self.condition.clone(),
            body: self.body.clone(),
        }
    }
}

/// What a table is defined as.
#[derive(Debug)]
pub struct TableSchema {
    pub name: String,
    pub columns: IndexMap<String, ColumnDef>,
    pub rowid_column: Option<String>,
    pub foreign_keys: Vec<ForeignKeyDef>,
    pub indices: Vec<IndexDef>,
    pub triggers: Vec<TriggerDef>,
    pub unique_groups: Vec<UniqueGroup>,
    pub table_checks: Vec<String>,
    pub fts5_content_column: Option<String>,
}

pub struct SchemaV {
    pub name: Seq<char>,
    pub columns: Seq<(Seq<char>, ColumnV)>,
    pub rowid_column: Option<Seq<char>>,
    pub foreign_keys: Seq<ForeignKeyV>,
    pub indices: Seq<IndexV>,
    pub triggers: Seq<TriggerV>,
    pub unique_groups: Seq<UniqueV>,
    pub table_checks: Seq<Seq<char>>,
    pub fts5_content_column: Option<Seq<char>>,
}

impl View for TableSchema {
    type V = SchemaV;

    open spec fn view(&self) -> SchemaV {
        SchemaV {
            name: self.name@,
            columns: crate::row::column_list(self.columns),
            rowid_column: self.rowid_column.deep_view(),
            foreign_keys: self.foreign_keys.deep_view(),
            indices: self.indices.deep_view(),
            triggers: self.triggers.deep_view(),
            unique_groups: self.unique_groups.deep_view(),
            table_checks: self.table_checks.deep_view(),
            fts5_content_column: self.fts5_content_column.deep_view(),
        }
    }
}

impl Clone for TableSchema {
    fn clone(&self) -> (r: TableSchema)
        ensures
            r@ == self@,
    {
        let r = TableSchema {
            name: self.name.clone(),
            columns: crate::row::columns_copy(&self.columns),
            rowid_column: self.rowid_column.clone(),
            foreign_keys: self.foreign_keys.clone(),
            indices: self.indices.clone(),
            triggers: self.triggers.clone(),
            unique_groups: self.unique_groups.clone(),
            table_checks: text::copy_texts(&self.table_checks),
            fts5_content_column: self.fts5_content_column.clone(),
        };
        assert(r.foreign_keys.deep_view() =~= self.foreign_keys.deep_view());
        assert(r.indices.deep_view() =~= self.indices.deep_view());
        assert(r.triggers.deep_view() =~= self.triggers.deep_view());
        assert(r.unique_groups.deep_view() =~= self.unique_groups.deep_view());
        r
    }
}

} // verus!
