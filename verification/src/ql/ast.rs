//! The syntax tree of a query.

use crate::path::{Path, Seg};
use crate::value::{Value, ValueModel};
use vstd::prelude::*;

verus! {

/// A complete query
#[derive(Debug, PartialEq)]
pub struct Query {
    /// Operations to perform
    pub operations: Vec<Operation>,
    /// Expression to return
    pub return_expr: Option<Expression>,
}

/// Types of operations
#[derive(Debug, PartialEq)]
pub enum Operation {
    /// Assign a value to a path
    Assignment {
        /// The path to assign to
        path: Path,
        /// The value to assign
        expression: Expression,
    },
    /// Delete a path
    Delete {
        /// The path to delete
        path: Path,
    },
}

/// Comparison operators for conditions
#[derive(Debug, Clone, Copy, PartialEq, Eq, Structural)]
pub enum ComparisonOperator {
    /// Equal (==)
    Equal,
    /// Not equal (!=)
    NotEqual,
    /// Less than (<)
    LessThan,
    /// Less than or equal (<=)
    LessThanOrEqual,
    /// Greater than (>)
    GreaterThan,
    /// Greater than or equal (>=)
    GreaterThanOrEqual,
}

/// Logical operators for combining conditions
#[derive(Debug, Clone, Copy, PartialEq, Eq, Structural)]
pub enum LogicalOperator {
    /// AND (&&)
    And,
    /// OR (||)
    Or,
}

/// A condition in a where clause
#[derive(Debug, PartialEq)]
pub struct Condition {
    /// Left side of the condition
    pub left: Box<Expression>,
    /// Comparison operator
    pub operator: ComparisonOperator,
    /// Right side of the condition
    pub right: Box<Expression>,
}

/// A where clause with conditions
#[derive(Debug, PartialEq)]
pub struct WhereClause {
    /// First condition
    pub first_condition: Condition,
    /// Additional conditions with logical operators
    pub additional_conditions: Vec<(LogicalOperator, Condition)>,
}

/// Types of expressions
#[derive(Debug, PartialEq)]
pub enum Expression {
    /// A literal value
    Literal(Value),
    /// A path reference
    Path(Path),
    /// A 'their' path reference
    TheirPath(Vec<String>),
    /// A function call
    FunctionCall {
        /// The function name
        name: String,
        /// The arguments to the function
        arguments: Vec<Expression>,
    },
    /// A filtered expression (with where clause)
    Filtered {
        /// The base expression
        base: Box<Expression>,
        /// The where clause
        where_clause: WhereClause,
    },
}

/// The comparison that holds of `b` and `a` exactly when `op` holds of
/// `a` and `b`.
pub open spec fn mirrored(op: ComparisonOperator) -> ComparisonOperator {
    match op {
        ComparisonOperator::Equal => ComparisonOperator::Equal,
        ComparisonOperator::NotEqual => ComparisonOperator::NotEqual,
        ComparisonOperator::LessThan => ComparisonOperator::GreaterThan,
        ComparisonOperator::LessThanOrEqual => ComparisonOperator::GreaterThanOrEqual,
        ComparisonOperator::GreaterThan => ComparisonOperator::LessThan,
        ComparisonOperator::GreaterThanOrEqual => ComparisonOperator::LessThanOrEqual,
    }
}

impl ComparisonOperator {
    /// The comparison with its sides exchanged.
    pub fn mirror(self) -> (r: ComparisonOperator)
        ensures
            r == mirrored(self),
    {
        match self {
            ComparisonOperator::Equal => ComparisonOperator::Equal,
            ComparisonOperator::NotEqual => ComparisonOperator::NotEqual,
            ComparisonOperator::LessThan => ComparisonOperator::GreaterThan,
            ComparisonOperator::LessThanOrEqual => ComparisonOperator::GreaterThanOrEqual,
            ComparisonOperator::GreaterThan => ComparisonOperator::LessThan,
            ComparisonOperator::GreaterThanOrEqual => ComparisonOperator::LessThanOrEqual,
        }
    }
}

/// The mathematical model of an expression.
pub enum ExprModel {
    /// A literal value
    Literal(ValueModel),
    /// A path reference
    Path(Seq<Seg>),
    /// A `their` path reference, by the texts of its segments
    TheirPath(Seq<Seq<char>>),
    /// A function call
    FunctionCall { name: Seq<char>, arguments: Seq<ExprModel> },
    /// A filtered expression: the base, the first condition, and the
    /// other conditions, each behind its logical operator
    Filtered {
        base: Box<ExprModel>,
        first_left: Box<ExprModel>,
        first_operator: ComparisonOperator,
        first_right: Box<ExprModel>,
        additional: Seq<(LogicalOperator, ExprModel, ComparisonOperator, ExprModel)>,
    },
}

/// The mathematical model of an operation.
pub enum OperationModel {
    /// Assign a value to a path
    Assignment { path: Seq<Seg>, expression: ExprModel },
    /// Delete a path
    Delete { path: Seq<Seg> },
}

/// The mathematical model of a query.
pub struct QueryModel {
    /// Operations to perform
    pub operations: Seq<OperationModel>,
    /// Expression to return
    pub return_expr: Option<ExprModel>,
}

/// The expression that stands where none belongs.
pub open spec fn no_expr() -> ExprModel {
    ExprModel::Literal(ValueModel::Null)
}

/// The model of an expression.
pub open spec fn expr_model(e: Expression) -> ExprModel
    decreases e,
{
    match e {
        Expression::Literal(value) => ExprModel::Literal(value@),
        Expression::Path(path) => ExprModel::Path(path@),
        Expression::TheirPath(segments) => ExprModel::TheirPath(
            segments@.map_values(|s: String| s@),
        ),
        Expression::FunctionCall { name, arguments } => ExprModel::FunctionCall {
            name: name@,
            arguments: Seq::new(
                arguments@.len(),
                |i: int|
                    if 0 <= i < arguments@.len() {
                        expr_model(arguments@[i])
                    } else {
                        no_expr()
                    },
            ),
        },
        Expression::Filtered { base, where_clause } => ExprModel::Filtered {
            base: Box::new(expr_model(*base)),
            first_left: Box::new(expr_model(*where_clause.first_condition.left)),
            first_operator: where_clause.first_condition.operator,
            first_right: Box::new(expr_model(*where_clause.first_condition.right)),
            additional: Seq::new(
                where_clause.additional_conditions@.len(),
                |i: int|
                    if 0 <= i < where_clause.additional_conditions@.len() {
                        (
                            where_clause.additional_conditions@[i].0,
                            expr_model(*where_clause.additional_conditions@[i].1.left),
                            where_clause.additional_conditions@[i].1.operator,
                            expr_model(*where_clause.additional_conditions@[i].1.right),
                        )
                    } else {
                        (LogicalOperator::And, no_expr(), ComparisonOperator::Equal, no_expr())
                    },
            ),
        },
    }
}

impl View for Expression {
    type V = ExprModel;

    open spec fn view(&self) -> ExprModel {
        expr_model(*self)
    }
}

impl View for Operation {
    type V = OperationModel;

    open spec fn view(&self) -> OperationModel {
        match self {
            Operation::Assignment { path, expression } => OperationModel::Assignment {
                path: path@,
                expression: expression@,
            },
            Operation::Delete { path } => OperationModel::Delete { path: path@ },
        }
    }
}

impl View for Query {
    type V = QueryModel;

    open spec fn view(&self) -> QueryModel {
        QueryModel {
            operations: self.operations@.map_values(|o: Operation| o@),
            return_expr: match self.return_expr {
                Some(e) => Some(e@),
                None => None,
            },
        }
    }
}

} // verus!
