//! The part of a module's syntax tree that the analyses read.
//!
//! The tree keeps what decides an analysis: calls and the names they go
//! through, string literals, local declarations, conditionals and the nesting
//! of blocks. Every other construct is kept by the expressions and blocks it
//! holds, in source order.

use vstd::prelude::*;

verus! {

/// An expression.
#[derive(Debug, PartialEq, Eq)]
pub enum Expression {
    /// A bare name.
    Identifier(String),
    /// `prefix.field`
    Field(Box<FieldExpression>),
    /// A call.
    Call(Box<FunctionCall>),
    /// A string literal, by its value.
    String(String),
    /// The literal `true`.
    True,
    /// A function expression, by its body.
    Function(Box<Block>),
    /// Any other expression, by the expressions directly inside it.
    Other(Vec<Expression>),
}

/// A field access: `prefix.field`.
#[derive(Debug, PartialEq, Eq)]
pub struct FieldExpression {
    pub prefix: Expression,
    pub field: String,
}

/// What a call is given.
#[derive(Debug, PartialEq, Eq)]
pub enum Arguments {
    /// `f "text"`
    String(String),
    /// `f(a, b)`
    Tuple(Vec<Expression>),
    /// `f { ... }`, by the expressions inside the table.
    Table(Vec<Expression>),
}

/// A call: `prefix(arguments)` or `prefix:method(arguments)`.
#[derive(Debug, PartialEq, Eq)]
pub struct FunctionCall {
    pub prefix: Expression,
    /// The method name of `prefix:method(...)`.
    pub method: Option<String>,
    pub arguments: Arguments,
}

/// One branch of a conditional: `if condition then block`.
#[derive(Debug, PartialEq, Eq)]
pub struct IfBranch {
    pub condition: Expression,
    pub block: Block,
}

/// A conditional.
#[derive(Debug, PartialEq, Eq)]
pub struct IfStatement {
    /// The `if` branch, then one branch for each `elseif`. Never empty in a
    /// tree that came from source text.
    pub branches: Vec<IfBranch>,
    pub else_block: Option<Block>,
}

/// A declaration of local variables. The variable at a position is
/// initialised with the value at that position, if there is one.
#[derive(Debug, PartialEq, Eq)]
pub struct LocalAssignStatement {
    pub variables: Vec<String>,
    pub values: Vec<Expression>,
}

/// A statement.
#[derive(Debug, PartialEq, Eq)]
pub enum Statement {
    /// A call in statement position.
    Call(FunctionCall),
    If(IfStatement),
    /// `local a, b = x, y`
    LocalAssign(LocalAssignStatement),
    /// A statement that evaluates `expressions` where it stands and then runs
    /// `block` in a scope of its own: `do`, `while`, both kinds of `for`, a
    /// function declaration.
    Nested { expressions: Vec<Expression>, block: Block },
    /// `repeat block until condition`: the block runs in a scope of its own,
    /// and the condition sees what the block declares.
    Repeat { block: Block, condition: Expression },
    /// Any other statement, by the expressions directly inside it.
    Other(Vec<Expression>),
}

/// A sequence of statements that run in a scope of their own. A `return`
/// at its end stands as a statement like any other.
#[derive(Debug, PartialEq, Eq)]
pub struct Block {
    pub statements: Vec<Statement>,
}

impl Block {
    /// A block without statements.
    pub fn empty() -> (block: Block)
        ensures
            block.statements@.len() == 0,
    {
        Block { statements: Vec::new() }
    }
}

} // verus!
