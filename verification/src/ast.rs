//! Statements and expressions, as the engine runs them.
use vstd::prelude::*;

use crate::natural::Natural;
use crate::schema::Value;

verus! {

#[derive(Debug, Clone, Copy, PartialEq, Eq, Structural)]
pub enum BinaryOp {
    And,
    Or,
    Eq,
    NotEq,
    Gt,
    Lt,
    GtEq,
    LtEq,
    StringConcat,
    Plus,
    Minus,
    Multiply,
    Divide,
    Modulo,
    Other,
}

#[derive(Debug, Clone, Copy, PartialEq, Eq, Structural)]
pub enum UnaryOp {
    Minus,
    Plus,
    Not,
    Other,
}

/// A constant in a statement.
#[derive(Debug)]
pub enum Literal {
    Number(String),
    SingleQuoted(String),
    DoubleQuoted(String),
    Boolean(bool),
    Null,
    Placeholder,
    Other,
}

pub enum LiteralV {
    Number(Seq<char>),
    SingleQuoted(Seq<char>),
    DoubleQuoted(Seq<char>),
    Boolean(bool),
    Null,
    Placeholder,
    Other,
}

impl View for Literal {
    type V = LiteralV;

    open spec fn view(&self) -> LiteralV {
        match self {
            Literal::Number(s) => LiteralV::Number(s@),
            Literal::SingleQuoted(s) => LiteralV::SingleQuoted(s@),
            Literal::DoubleQuoted(s) => LiteralV::DoubleQuoted(s@),
            Literal::Boolean(b) => LiteralV::Boolean(*b),
            Literal::Null => LiteralV::Null,
            Literal::Placeholder => LiteralV::Placeholder,
            Literal::Other => LiteralV::Other,
        }
    }
}

/// A scalar expression.
#[allow(inconsistent_fields)]
#[derive(Debug)]
pub enum Expr {
    Identifier(String),
    CompoundIdentifier(Vec<String>),
    Value(Literal),
    Nested(Box<Expr>),
    UnaryOp { op: UnaryOp, expr: Box<Expr> },
    BinaryOp { left: Box<Expr>, op: BinaryOp, right: Box<Expr> },
    IsNull(Box<Expr>),
    IsNotNull(Box<Expr>),
    Between { expr: Box<Expr>, negated: bool, low: Box<Expr>, high: Box<Expr> },
    InList { expr: Box<Expr>, list: Vec<Expr>, negated: bool },
    Like { negated: bool, expr: Box<Expr>, pattern: Box<Expr>, any_case: bool },
    Case {
        operand: Option<Box<Expr>>,
        conditions: Vec<Expr>,
        results: Vec<Expr>,
        else_result: Option<Box<Expr>>,
    },
    Function { name: String, distinct: bool, args: Vec<FunctionArg> },
    Other,
}

/// An argument of a function call.
#[derive(Debug)]
pub enum FunctionArg {
    Unnamed(Expr),
    Named(Expr),
    Wildcard,
    Other,
}

#[allow(inconsistent_fields)]
pub enum ExprV {
    Identifier(Seq<char>),
    CompoundIdentifier(Seq<Seq<char>>),
    Value(LiteralV),
    Nested(Box<ExprV>),
    UnaryOp { op: UnaryOp, expr: Box<ExprV> },
    BinaryOp { left: Box<ExprV>, op: BinaryOp, right: Box<ExprV> },
    IsNull(Box<ExprV>),
    IsNotNull(Box<ExprV>),
    Between { expr: Box<ExprV>, negated: bool, low: Box<ExprV>, high: Box<ExprV> },
    InList { expr: Box<ExprV>, list: Seq<ExprV>, negated: bool },
    Like { negated: bool, expr: Box<ExprV>, pattern: Box<ExprV>, any_case: bool },
    Case {
        operand: Option<Box<ExprV>>,
        conditions: Seq<ExprV>,
        results: Seq<ExprV>,
        else_result: Option<Box<ExprV>>,
    },
    Function { name: Seq<char>, distinct: bool, args: Seq<FunctionArgV> },
    Other,
}

pub enum FunctionArgV {
    Unnamed(ExprV),
    Named(ExprV),
    Wildcard,
    Other,
}

pub open spec fn expr_view(e: Expr) -> ExprV
    decreases e,
{
    match e {
        Expr::Identifier(s) => ExprV::Identifier(s@),
        Expr::CompoundIdentifier(v) => ExprV::CompoundIdentifier(v.deep_view()),
        Expr::Value(l) => ExprV::Value(l@),
        Expr::Nested(x) => ExprV::Nested(Box::new(expr_view(*x))),
        Expr::UnaryOp { op, expr } => ExprV::UnaryOp { op, expr: Box::new(expr_view(*expr)) },
        Expr::BinaryOp { left, op, right } => ExprV::BinaryOp {
            left: Box::new(expr_view(*left)),
            op,
            right: Box::new(expr_view(*right)),
        },
        Expr::IsNull(x) => ExprV::IsNull(Box::new(expr_view(*x))),
        Expr::IsNotNull(x) => ExprV::IsNotNull(Box::new(expr_view(*x))),
        Expr::Between { expr, negated, low, high } => ExprV::Between {
            expr: Box::new(expr_view(*expr)),
            negated,
            low: Box::new(expr_view(*low)),
            high: Box::new(expr_view(*high)),
        },
        Expr::InList { expr, list, negated } => ExprV::InList {
            expr: Box::new(expr_view(*expr)),
            list: exprs_view(list@),
            negated,
        },
        Expr::Like { negated, expr, pattern, any_case } => ExprV::Like {
            negated,
            expr: Box::new(expr_view(*expr)),
            pattern: Box::new(expr_view(*pattern)),
            any_case,
        },
        Expr::Case { operand, conditions, results, else_result } => ExprV::Case {
            operand: match operand {
                Some(x) => Some(Box::new(expr_view(*x))),
                None => None,
            },
            conditions: exprs_view(conditions@),
            results: exprs_view(results@),
            else_result: match else_result {
                Some(x) => Some(Box::new(expr_view(*x))),
                None => None,
            },
        },
        Expr::Function { name, distinct, args } => ExprV::Function {
            name: name@,
            distinct,
            args: args_view(args@),
        },
        Expr::Other => ExprV::Other,
    }
}

pub open spec fn exprs_view(s: Seq<Expr>) -> Seq<ExprV>
    decreases s,
{
    Seq::new(
        s.len(),
        |i: int|
            if 0 <= i < s.len() {
                expr_view(s[i])
            } else {
                ExprV::Other
            },
    )
}

pub open spec fn arg_view(a: FunctionArg) -> FunctionArgV
    decreases a,
{
    match a {
        FunctionArg::Unnamed(e) => FunctionArgV::Unnamed(expr_view(e)),
        FunctionArg::Named(e) => FunctionArgV::Named(expr_view(e)),
        FunctionArg::Wildcard => FunctionArgV::Wildcard,
        FunctionArg::Other => FunctionArgV::Other,
    }
}

pub open spec fn args_view(s: Seq<FunctionArg>) -> Seq<FunctionArgV>
    decreases s,
{
    Seq::new(
        s.len(),
        |i: int|
            if 0 <= i < s.len() {
                arg_view(s[i])
            } else {
                FunctionArgV::Other
            },
    )
}

impl View for Expr {
    type V = ExprV;

    open spec fn view(&self) -> ExprV {
        expr_view(*self)
    }
}

impl DeepView for Expr {
    type V = ExprV;

    open spec fn deep_view(&self) -> ExprV {
        expr_view(*self)
    }
}

impl View for FunctionArg {
    type V = FunctionArgV;

    open spec fn view(&self) -> FunctionArgV {
        arg_view(*self)
    }
}

/// An item of a projection.
#[derive(Debug)]
pub enum SelectItem {
    Unnamed { expr: Expr, text: String },
    Aliased { expr: Expr, alias: String },
    QualifiedWildcard,
    Wildcard,
}

pub enum SelectItemV {
    Unnamed { expr: ExprV, text: Seq<char> },
    Aliased { expr: ExprV, alias: Seq<char> },
    QualifiedWildcard,
    Wildcard,
}

impl View for SelectItem {
    type V = SelectItemV;

    open spec fn view(&self) -> SelectItemV {
        match self {
            SelectItem::Unnamed { expr, text } => SelectItemV::Unnamed {
                expr: expr@,
                text: text@,
            },
            SelectItem::Aliased { expr, alias } => SelectItemV::Aliased {
                expr: expr@,
                alias: alias@,
            },
            SelectItem::QualifiedWildcard => SelectItemV::QualifiedWildcard,
            SelectItem::Wildcard => SelectItemV::Wildcard,
        }
    }
}

impl DeepView for SelectItem {
    type V = SelectItemV;

    open spec fn deep_view(&self) -> SelectItemV {
        self@
    }
}

/// A table that is read from, with the name it goes by.
#[derive(Debug)]
pub struct TableRef {
    pub table: String,
    pub alias: Option<String>,
}

pub struct TableRefV {
    pub table: Seq<char>,
    pub alias: Option<Seq<char>>,
}

impl View for TableRef {
    type V = TableRefV;

    open spec fn view(&self) -> TableRefV {
        TableRefV {
            table: self.table@,
            alias: self.alias.deep_view(),
        }
    }
}

impl DeepView for TableRef {
    type V = TableRefV;

    open spec fn deep_view(&self) -> TableRefV {
        self@
    }
}

/// When rows of a join belong together.
#[allow(inconsistent_fields)]
#[derive(Debug)]
pub enum JoinConstraint {
    On(Expr),
    Using(Vec<String>),
    Natural,
    Missing,
}

#[allow(inconsistent_fields)]
pub enum JoinConstraintV {
    On(ExprV),
    Using(Seq<Seq<char>>),
    Natural,
    Missing,
}

impl View for JoinConstraint {
    type V = JoinConstraintV;

    open spec fn view(&self) -> JoinConstraintV {
        match self {
            JoinConstraint::On(x) => JoinConstraintV::On(x@),
            JoinConstraint::Using(x) => JoinConstraintV::Using(x.deep_view()),
            JoinConstraint::Natural => JoinConstraintV::Natural,
            JoinConstraint::Missing => JoinConstraintV::Missing,
        }
    }
}

impl DeepView for JoinConstraint {
    type V = JoinConstraintV;

    open spec fn deep_view(&self) -> JoinConstraintV {
        self@
    }
}

/// How a table is joined; another kind is kept as its description.
#[allow(inconsistent_fields)]
#[derive(Debug)]
pub enum JoinOperator {
    Inner(JoinConstraint),
    LeftOuter(JoinConstraint),
    RightOuter(JoinConstraint),
    FullOuter(JoinConstraint),
    CrossJoin,
    Other(String),
}

#[allow(inconsistent_fields)]
pub enum JoinOperatorV {
    Inner(JoinConstraintV),
    LeftOuter(JoinConstraintV),
    RightOuter(JoinConstraintV),
    FullOuter(JoinConstraintV),
    CrossJoin,
    Other(Seq<char>),
}

impl View for JoinOperator {
    type V = JoinOperatorV;

    open spec fn view(&self) -> JoinOperatorV {
        match self {
            JoinOperator::Inner(x) => JoinOperatorV::Inner(x@),
            JoinOperator::LeftOuter(x) => JoinOperatorV::LeftOuter(x@),
            JoinOperator::RightOuter(x) => JoinOperatorV::RightOuter(x@),
            JoinOperator::FullOuter(x) => JoinOperatorV::FullOuter(x@),
            JoinOperator::CrossJoin => JoinOperatorV::CrossJoin,
            JoinOperator::Other(x) => JoinOperatorV::Other(x@),
        }
    }
}

impl DeepView for JoinOperator {
    type V = JoinOperatorV;

    open spec fn deep_view(&self) -> JoinOperatorV {
        self@
    }
}

/// A table that is joined to those before it.
#[derive(Debug)]
pub struct Join {
    pub relation: TableRef,
    pub operator: JoinOperator,
}

pub struct JoinV {
    pub relation: TableRefV,
    pub operator: JoinOperatorV,
}

impl View for Join {
    type V = JoinV;

    open spec fn view(&self) -> JoinV {
        JoinV {
            relation: self.relation@,
            operator: self.operator@,
        }
    }
}

impl DeepView for Join {
    type V = JoinV;

    open spec fn deep_view(&self) -> JoinV {
        self@
    }
}

/// A table and those joined to it.
#[derive(Debug)]
pub struct TableWithJoins {
    pub relation: TableRef,
    pub joins: Vec<Join>,
}

pub struct TableWithJoinsV {
    pub relation: TableRefV,
    pub joins: Seq<JoinV>,
}

impl View for TableWithJoins {
    type V = TableWithJoinsV;

    open spec fn view(&self) -> TableWithJoinsV {
        TableWithJoinsV {
            relation: self.relation@,
            joins: self.joins.deep_view(),
        }
    }
}

impl DeepView for TableWithJoins {
    type V = TableWithJoinsV;

    open spec fn deep_view(&self) -> TableWithJoinsV {
        self@
    }
}

/// One key of an ordering.
#[derive(Debug)]
pub struct OrderByExpr {
    pub expr: Expr,
    pub asc: Option<bool>,
}

pub struct OrderByExprV {
    pub expr: ExprV,
    pub asc: Option<bool>,
}

impl View for OrderByExpr {
    type V = OrderByExprV;

    open spec fn view(&self) -> OrderByExprV {
        OrderByExprV {
            expr: self.expr@,
            asc: self.asc.deep_view(),
        }
    }
}

impl DeepView for OrderByExpr {
    type V = OrderByExprV;

    open spec fn deep_view(&self) -> OrderByExprV {
        self@
    }
}

/// A `SELECT` without its ordering; `group_by` is missing for `GROUP BY ALL`.
#[derive(Debug)]
pub struct Select {
    pub distinct: bool,
    pub projection: Vec<SelectItem>,
    pub from: Vec<TableWithJoins>,
    pub selection: Option<Expr>,
    pub group_by: Option<Vec<Expr>>,
}

pub struct SelectV {
    pub distinct: bool,
    pub projection: Seq<SelectItemV>,
    pub from: Seq<TableWithJoinsV>,
    pub selection: Option<ExprV>,
    pub group_by: Option<Seq<ExprV>>,
}

impl View for Select {
    type V = SelectV;

    open spec fn view(&self) -> SelectV {
        SelectV {
            distinct: self.distinct,
            projection: self.projection.deep_view(),
            from: self.from.deep_view(),
            selection: self.selection.deep_view(),
            group_by: self.group_by.deep_view(),
        }
    }
}

impl DeepView for Select {
    type V = SelectV;

    open spec fn deep_view(&self) -> SelectV {
        self@
    }
}

/// What a query takes its rows from.
#[allow(inconsistent_fields)]
#[derive(Debug)]
pub enum SetExpr {
    Select(Select),
    Values(Vec<Vec<Expr>>),
    Other,
}

#[allow(inconsistent_fields)]
pub enum SetExprV {
    Select(SelectV),
    Values(Seq<Seq<ExprV>>),
    Other,
}

impl View for SetExpr {
    type V = SetExprV;

    open spec fn view(&self) -> SetExprV {
        match self {
            SetExpr::Select(x) => SetExprV::Select(x@),
            SetExpr::Values(x) => SetExprV::Values(x.deep_view()),
            SetExpr::Other => SetExprV::Other,
        }
    }
}

impl DeepView for SetExpr {
    type V = SetExprV;

    open spec fn deep_view(&self) -> SetExprV {
        self@
    }
}

/// A query.
#[derive(Debug)]
pub struct Query {
    pub body: SetExpr,
    pub order_by: Vec<OrderByExpr>,
    pub limit: Option<Expr>,
    pub offset: Option<Expr>,
}

pub struct QueryV {
    pub body: SetExprV,
    pub order_by: Seq<OrderByExprV>,
    pub limit: Option<ExprV>,
    pub offset: Option<ExprV>,
}

impl View for Query {
    type V = QueryV;

    open spec fn view(&self) -> QueryV {
        QueryV {
            body: self.body@,
            order_by: self.order_by.deep_view(),
            limit: self.limit.deep_view(),
            offset: self.offset.deep_view(),
        }
    }
}

impl DeepView for Query {
    type V = QueryV;

    open spec fn deep_view(&self) -> QueryV {
        self@
    }
}

/// An option of a column.
#[allow(inconsistent_fields)]
#[derive(Debug)]
pub enum ColumnOption {
    NotNull,
    Unique { is_primary: bool },
    Default(Expr),
    Check(String),
    DialectSpecific(String),
    Other,
}

#[allow(inconsistent_fields)]
pub enum ColumnOptionV {
    NotNull,
    Unique { is_primary: bool },
    Default(ExprV),
    Check(Seq<char>),
    DialectSpecific(Seq<char>),
    Other,
}

impl View for ColumnOption {
    type V = ColumnOptionV;

    open spec fn view(&self) -> ColumnOptionV {
        match self {
            ColumnOption::NotNull => ColumnOptionV::NotNull,
            ColumnOption::Unique { is_primary } => ColumnOptionV::Unique {
                is_primary: *is_primary,
            },
            ColumnOption::Default(x) => ColumnOptionV::Default(x@),
            ColumnOption::Check(x) => ColumnOptionV::Check(x@),
            ColumnOption::DialectSpecific(x) => ColumnOptionV::DialectSpecific(x@),
            ColumnOption::Other => ColumnOptionV::Other,
        }
    }
}

impl DeepView for ColumnOption {
    type V = ColumnOptionV;

    open spec fn deep_view(&self) -> ColumnOptionV {
        self@
    }
}

/// A column as a statement defines it; the type is the name the parser gives it.
#[derive(Debug)]
pub struct ColumnSpec {
    pub name: String,
    pub data_type: String,
    pub options: Vec<ColumnOption>,
}

pub struct ColumnSpecV {
    pub name: Seq<char>,
    pub data_type: Seq<char>,
    pub options: Seq<ColumnOptionV>,
}

impl View for ColumnSpec {
    type V = ColumnSpecV;

    open spec fn view(&self) -> ColumnSpecV {
        ColumnSpecV {
            name: self.name@,
            data_type: self.data_type@,
            options: self.options.deep_view(),
        }
    }
}

impl DeepView for ColumnSpec {
    type V = ColumnSpecV;

    open spec fn deep_view(&self) -> ColumnSpecV {
        self@
    }
}

/// A constraint of a table.
#[derive(Debug)]
pub enum TableConstraint {
    Unique { columns: Vec<String>, is_primary: bool },
    ForeignKey { columns: Vec<String>, foreign_table: String, referred_columns: Vec<String>, on_delete: String, on_update: String },
    Check(String),
    Other,
}

pub enum TableConstraintV {
    Unique { columns: Seq<Seq<char>>, is_primary: bool },
    ForeignKey { columns: Seq<Seq<char>>, foreign_table: Seq<char>, referred_columns: Seq<Seq<char>>, on_delete: Seq<char>, on_update: Seq<char> },
    Check(Seq<char>),
    Other,
}

impl View for TableConstraint {
    type V = TableConstraintV;

    open spec fn view(&self) -> TableConstraintV {
        match self {
            TableConstraint::Unique { columns, is_primary } => TableConstraintV::Unique {
                columns: columns.deep_view(),
                is_primary: *is_primary,
            },
            TableConstraint::ForeignKey { columns, foreign_table, referred_columns, on_delete, on_update } => TableConstraintV::ForeignKey {
                columns: columns.deep_view(),
                foreign_table: foreign_table@,
                referred_columns: referred_columns.deep_view(),
                on_delete: on_delete@,
                on_update: on_update@,
            },
            TableConstraint::Check(x) => TableConstraintV::Check(x@),
            TableConstraint::Other => TableConstraintV::Other,
        }
    }
}

impl DeepView for TableConstraint {
    type V = TableConstraintV;

    open spec fn deep_view(&self) -> TableConstraintV {
        self@
    }
}

/// A change of a table; another kind is kept as its text.
#[allow(inconsistent_fields)]
#[derive(Debug)]
pub enum AlterTableOperation {
    AddColumn(ColumnSpec),
    DropColumn { column: String, if_exists: bool },
    RenameColumn { old_name: String, new_name: String },
    RenameTable(String),
    Other(String),
}

#[allow(inconsistent_fields)]
pub enum AlterTableOperationV {
    AddColumn(ColumnSpecV),
    DropColumn { column: Seq<char>, if_exists: bool },
    RenameColumn { old_name: Seq<char>, new_name: Seq<char> },
    RenameTable(Seq<char>),
    Other(Seq<char>),
}

impl View for AlterTableOperation {
    type V = AlterTableOperationV;

    open spec fn view(&self) -> AlterTableOperationV {
        match self {
            AlterTableOperation::AddColumn(x) => AlterTableOperationV::AddColumn(x@),
            AlterTableOperation::DropColumn { column, if_exists } => AlterTableOperationV::DropColumn {
                column: column@,
                if_exists: *if_exists,
            },
            AlterTableOperation::RenameColumn { old_name, new_name } => AlterTableOperationV::RenameColumn {
                old_name: old_name@,
                new_name: new_name@,
            },
            AlterTableOperation::RenameTable(x) => AlterTableOperationV::RenameTable(x@),
            AlterTableOperation::Other(x) => AlterTableOperationV::Other(x@),
        }
    }
}

impl DeepView for AlterTableOperation {
    type V = AlterTableOperationV;

    open spec fn deep_view(&self) -> AlterTableOperationV {
        self@
    }
}

/// What is dropped; another kind is kept as its name.
#[derive(Debug)]
pub enum ObjectType {
    Table,
    View,
    Index,
    Other(String),
}

pub enum ObjectTypeV {
    Table,
    View,
    Index,
    Other(Seq<char>),
}

impl View for ObjectType {
    type V = ObjectTypeV;

    open spec fn view(&self) -> ObjectTypeV {
        match self {
            ObjectType::Table => ObjectTypeV::Table,
            ObjectType::View => ObjectTypeV::View,
            ObjectType::Index => ObjectTypeV::Index,
            ObjectType::Other(x) => ObjectTypeV::Other(x@),
        }
    }
}

impl DeepView for ObjectType {
    type V = ObjectTypeV;

    open spec fn deep_view(&self) -> ObjectTypeV {
        self@
    }
}

/// A column and what it is set to.
#[derive(Debug)]
pub struct Assignment {
    pub column: String,
    pub value: Expr,
}

pub struct AssignmentV {
    pub column: Seq<char>,
    pub value: ExprV,
}

impl View for Assignment {
    type V = AssignmentV;

    open spec fn view(&self) -> AssignmentV {
        AssignmentV {
            column: self.column@,
            value: self.value@,
        }
    }
}

impl DeepView for Assignment {
    type V = AssignmentV;

    open spec fn deep_view(&self) -> AssignmentV {
        self@
    }
}

/// A statement; one that the engine does not know is kept as its description.
#[allow(inconsistent_fields)]
#[derive(Debug)]
pub enum Statement {
    Query(Query),
    Insert { table: String, columns: Vec<String>, source: Option<Query> },
    Update { table: String, assignments: Vec<Assignment>, selection: Option<Expr> },
    Delete { table: Option<String>, selection: Option<Expr> },
    CreateTable { name: String, columns: Vec<ColumnSpec>, constraints: Vec<TableConstraint>, if_not_exists: bool },
    AlterTable { name: String, if_exists: bool, operations: Vec<AlterTableOperation> },
    CreateIndex { name: Option<String>, table: String, columns: Vec<String>, unique: bool, if_not_exists: bool },
    CreateView { name: String, query: String },
    CreateVirtualTable { name: String, if_not_exists: bool, module_name: String, module_args: Vec<String> },
    Drop { object: ObjectType, if_exists: bool, names: Vec<String> },
    StartTransaction,
    Commit,
    Rollback,
    Other(String),
}

#[allow(inconsistent_fields)]
pub enum StatementV {
    Query(QueryV),
    Insert { table: Seq<char>, columns: Seq<Seq<char>>, source: Option<QueryV> },
    Update { table: Seq<char>, assignments: Seq<AssignmentV>, selection: Option<ExprV> },
    Delete { table: Option<Seq<char>>, selection: Option<ExprV> },
    CreateTable { name: Seq<char>, columns: Seq<ColumnSpecV>, constraints: Seq<TableConstraintV>, if_not_exists: bool },
    AlterTable { name: Seq<char>, if_exists: bool, operations: Seq<AlterTableOperationV> },
    CreateIndex { name: Option<Seq<char>>, table: Seq<char>, columns: Seq<Seq<char>>, unique: bool, if_not_exists: bool },
    CreateView { name: Seq<char>, query: Seq<char> },
    CreateVirtualTable { name: Seq<char>, if_not_exists: bool, module_name: Seq<char>, module_args: Seq<Seq<char>> },
    Drop { object: ObjectTypeV, if_exists: bool, names: Seq<Seq<char>> },
    StartTransaction,
    Commit,
    Rollback,
    Other(Seq<char>),
}

impl View for Statement {
    type V = StatementV;

    open spec fn view(&self) -> StatementV {
        match self {
            Statement::Query(x) => StatementV::Query(x@),
            Statement::Insert { table, columns, source } => StatementV::Insert {
                table: table@,
                columns: columns.deep_view(),
                source: source.deep_view(),
            },
            Statement::Update { table, assignments, selection } => StatementV::Update {
                table: table@,
                assignments: assignments.deep_view(),
                selection: selection.deep_view(),
            },
            Statement::Delete { table, selection } => StatementV::Delete {
                table: table.deep_view(),
                selection: selection.deep_view(),
            },
            Statement::CreateTable { name, columns, constraints, if_not_exists } => StatementV::CreateTable {
                name: name@,
                columns: columns.deep_view(),
                constraints: constraints.deep_view(),
                if_not_exists: *if_not_exists,
            },
            Statement::AlterTable { name, if_exists, operations } => StatementV::AlterTable {
                name: name@,
                if_exists: *if_exists,
                operations: operations.deep_view(),
            },
            Statement::CreateIndex { name, table, columns, unique, if_not_exists } => StatementV::CreateIndex {
                name: name.deep_view(),
                table: table@,
                columns: columns.deep_view(),
                unique: *unique,
                if_not_exists: *if_not_exists,
            },
            Statement::CreateView { name, query } => StatementV::CreateView {
                name: name@,
                query: query@,
            },
            Statement::CreateVirtualTable { name, if_not_exists, module_name, module_args } => StatementV::CreateVirtualTable {
                name: name@,
                if_not_exists: *if_not_exists,
                module_name: module_name@,
                module_args: module_args.deep_view(),
            },
            Statement::Drop { object, if_exists, names } => StatementV::Drop {
                object: object@,
                if_exists: *if_exists,
                names: names.deep_view(),
            },
            Statement::StartTransaction => StatementV::StartTransaction,
            Statement::Commit => StatementV::Commit,
            Statement::Rollback => StatementV::Rollback,
            Statement::Other(x) => StatementV::Other(x@),
        }
    }
}

impl DeepView for Statement {
    type V = StatementV;

    open spec fn deep_view(&self) -> StatementV {
        self@
    }
}

} // verus!
