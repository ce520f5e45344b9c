//! Finds out whether an expression calls a given function.

use crate::bindings::{lookup, Binding, BoundTo, Frame, ScopedBindings};
use crate::nodes::{
    Arguments, Block, Expression, FunctionCall, IfBranch, IfStatement, Statement,
};
use crate::utils::{call_name, get_call_name};
use vstd::prelude::*;

verus! {

/// Whether `expression` holds a call to `name`: a call that goes by that name
/// anywhere inside it, or an identifier that `scope` binds to the result of
/// such a call.
pub open spec fn expression_calls(
    expression: Expression,
    name: Seq<char>,
    scope: Seq<Frame>,
) -> bool
    decreases expression,
{
    match expression {
        Expression::Identifier(identifier) => lookup(scope, identifier@) == Some(
            BoundTo::CallResult(name),
        ),
        Expression::Field(field) => expression_calls(field.prefix, name, scope),
        Expression::Call(call) => function_call_calls(*call, name, scope),
        Expression::String(_) => false,
        Expression::True => false,
        Expression::Function(block) => block_calls(*block, name, scope),
        Expression::Other(inner) => any_expression_calls(inner@, 0, name, scope),
    }
}

/// Whether one of `expressions`, from index `from` on, holds a call to `name`.
pub open spec fn any_expression_calls(
    expressions: Seq<Expression>,
    from: int,
    name: Seq<char>,
    scope: Seq<Frame>,
) -> bool
    decreases expressions, expressions.len() - from,
{
    if 0 <= from < expressions.len() {
        expression_calls(expressions[from], name, scope) || any_expression_calls(
            expressions,
            from + 1,
            name,
            scope,
        )
    } else {
        false
    }
}

/// Whether `call` is a call to `name` or holds one in its callee or arguments.
pub open spec fn function_call_calls(call: FunctionCall, name: Seq<char>, scope: Seq<Frame>) -> bool
    decreases call,
{
    ||| call_name(call) == Some(name)
    ||| expression_calls(call.prefix, name, scope)
    ||| match call.arguments {
        Arguments::String(_) => false,
        Arguments::Tuple(values) => any_expression_calls(values@, 0, name, scope),
        Arguments::Table(values) => any_expression_calls(values@, 0, name, scope),
    }
}

/// Whether a statement of `block` holds a call to `name`.
pub open spec fn block_calls(block: Block, name: Seq<char>, scope: Seq<Frame>) -> bool
    decreases block,
{
    any_statement_calls(block.statements@, 0, name, scope)
}

/// Whether one of `statements`, from index `from` on, holds a call to `name`.
pub open spec fn any_statement_calls(
    statements: Seq<Statement>,
    from: int,
    name: Seq<char>,
    scope: Seq<Frame>,
) -> bool
    decreases statements, statements.len() - from,
{
    if 0 <= from < statements.len() {
        statement_calls(statements[from], name, scope) || any_statement_calls(
            statements,
            from + 1,
            name,
            scope,
        )
    } else {
        false
    }
}

/// Whether one of `branches`, from index `from` on, holds a call to `name`.
pub open spec fn any_branch_calls(
    branches: Seq<IfBranch>,
    from: int,
    name: Seq<char>,
    scope: Seq<Frame>,
) -> bool
    decreases branches, branches.len() - from,
{
    if 0 <= from < branches.len() {
        branch_calls(branches[from], name, scope) || any_branch_calls(
            branches,
            from + 1,
            name,
            scope,
        )
    } else {
        false
    }
}

/// Whether the condition or the block of `branch` holds a call to `name`.
pub open spec fn branch_calls(branch: IfBranch, name: Seq<char>, scope: Seq<Frame>) -> bool
    decreases branch,
{
    expression_calls(branch.condition, name, scope) || block_calls(branch.block, name, scope)
}

/// Whether `statement` holds a call to `name`.
pub open spec fn statement_calls(statement: Statement, name: Seq<char>, scope: Seq<Frame>) -> bool
    decreases statement,
{
    match statement {
        Statement::Call(call) => function_call_calls(call, name, scope),
        Statement::If(conditional) => {
            ||| any_branch_calls(conditional.branches@, 0, name, scope)
            ||| match conditional.else_block {
                Some(block) => block_calls(block, name, scope),
                None => false,
            }
        },
        Statement::LocalAssign(assign) => any_expression_calls(assign.values@, 0, name, scope),
        Statement::Nested { expressions, block } => {
            any_expression_calls(expressions@, 0, name, scope) || block_calls(block, name, scope)
        },
        Statement::Repeat { block, condition } => {
            expression_calls(condition, name, scope) || block_calls(block, name, scope)
        },
        Statement::Other(expressions) => any_expression_calls(expressions@, 0, name, scope),
    }
}

/// Walks expressions and remembers whether any of them held a call to one
/// function, directly or through a variable bound to such a call's result.
pub struct HasCallToFunctionVisitor<'a> {
    function_name: String,
    has_call_to_function_field: bool,
    variable_scope: &'a ScopedBindings,
}

impl<'a> HasCallToFunctionVisitor<'a> {
    /// The name of the function looked for.
    pub closed spec fn function_name(&self) -> Seq<char> {
        self.function_name@
    }

    /// The bindings that identifiers are looked up in.
    pub closed spec fn scope(&self) -> Seq<Frame> {
        self.variable_scope@
    }

    /// Whether a call was found so far.
    pub closed spec fn found(&self) -> bool {
        self.has_call_to_function_field
    }

    /// Whether `self` differs from `before` in nothing but having seen
    /// something for which `seen` says whether it held a call.
    pub open spec fn after(&self, before: &Self, seen: bool) -> bool {
        &&& self.function_name() == before.function_name()
        &&& self.scope() == before.scope()
        &&& self.found() == (before.found() || seen)
    }

    /// A visitor that looks for calls to `function_name` and has found none.
    pub fn new(function_name: String, variable_scope: &'a ScopedBindings) -> (visitor: Self)
        ensures
            visitor.function_name() == function_name@,
            visitor.scope() == variable_scope@,
            !visitor.found(),
    {
        Self { function_name, has_call_to_function_field: false, variable_scope }
    }

    /// Whether a call was found so far.
    pub fn has_call_to_function(&self) -> (found: bool)
        ensures
            found == self.found(),
    {
        self.has_call_to_function_field
    }

    /// Notes an identifier that is bound to the result of a call to the
    /// function.
    pub fn process_expression(&mut self, expression: &Expression)
        ensures
            final(self).after(
                old(self),
                expression matches Expression::Identifier(identifier) && lookup(
                    old(self).scope(),
                    identifier@,
                ) == Some(BoundTo::CallResult(old(self).function_name())),
            ),
    {
        if let Expression::Identifier(identifier) = expression {
            if let Some(Binding::CallResult(callee)) = self.variable_scope.get(identifier) {
                if *callee == self.function_name {
                    self.has_call_to_function_field = true;
                }
            }
        }
    }

    /// Notes a call that goes by the function's name.
    pub fn process_function_call(&mut self, call: &FunctionCall)
        ensures
            final(self).after(old(self), call_name(*call) == Some(old(self).function_name())),
    {
        if let Some(name) = get_call_name(call) {
            if name == self.function_name {
                self.has_call_to_function_field = true;
            }
        }
    }

    /// Walks `expression` and everything inside it.
    pub fn visit_expression(&mut self, expression: &Expression)
        ensures
            final(self).after(
                old(self),
                expression_calls(*expression, old(self).function_name(), old(self).scope()),
            ),
        decreases expression,
    {
        self.process_expression(expression);
        match expression {
            Expression::Identifier(_) => {},
            Expression::Field(field) => self.visit_expression(&field.prefix),
            Expression::Call(call) => self.visit_function_call(call),
            Expression::String(_) => {},
            Expression::True => {},
            Expression::Function(block) => self.visit_block(block),
            Expression::Other(inner) => self.visit_expressions(inner),
        }
    }

    fn visit_expressions(&mut self, expressions: &Vec<Expression>)
        ensures
            final(self).after(
                old(self),
                any_expression_calls(expressions@, 0, old(self).function_name(), old(self).scope()),
            ),
        decreases expressions,
    {
        let ghost name = self.function_name();
        let ghost scope = self.scope();
        let mut i: usize = 0;
        while i < expressions.len()
            invariant
                i <= expressions@.len(),
                self.function_name() == name,
                self.scope() == scope,
                (self.found() || any_expression_calls(expressions@, i as int, name, scope)) == (old(
                    self,
                ).found() || any_expression_calls(expressions@, 0, name, scope)),
            decreases expressions@.len() - i,
        {
            self.visit_expression(&expressions[i]);
            i += 1;
        }
    }

    fn visit_function_call(&mut self, call: &FunctionCall)
        ensures
            final(self).after(
                old(self),
                function_call_calls(*call, old(self).function_name(), old(self).scope()),
            ),
        decreases call,
    {
        self.process_function_call(call);
        self.visit_expression(&call.prefix);
        match &call.arguments {
            Arguments::String(_) => {},
            Arguments::Tuple(values) => self.visit_expressions(values),
            Arguments::Table(values) => self.visit_expressions(values),
        }
    }

    fn visit_block(&mut self, block: &Block)
        ensures
            final(self).after(
                old(self),
                block_calls(*block, old(self).function_name(), old(self).scope()),
            ),
        decreases block,
    {
        let ghost name = self.function_name();
        let ghost scope = self.scope();
        let mut i: usize = 0;
        while i < block.statements.len()
            invariant
                i <= block.statements@.len(),
                self.function_name() == name,
                self.scope() == scope,
                (self.found() || any_statement_calls(block.statements@, i as int, name, scope))
                    == (old(self).found() || any_statement_calls(
                    block.statements@,
                    0,
                    name,
                    scope,
                )),
            decreases block.statements@.len() - i,
        {
            self.visit_statement(&block.statements[i]);
            i += 1;
        }
    }

    fn visit_if_statement(&mut self, conditional: &IfStatement)
        ensures
            final(self).after(
                old(self),
                statement_calls(
                    Statement::If(*conditional),
                    old(self).function_name(),
                    old(self).scope(),
                ),
            ),
        decreases conditional,
    {
        let ghost name = self.function_name();
        let ghost scope = self.scope();
        let mut i: usize = 0;
        while i < conditional.branches.len()
            invariant
                i <= conditional.branches@.len(),
                self.function_name() == name,
                self.scope() == scope,
                (self.found() || any_branch_calls(conditional.branches@, i as int, name, scope))
                    == (old(self).found() || any_branch_calls(
                    conditional.branches@,
                    0,
                    name,
                    scope,
                )),
            decreases conditional.branches@.len() - i,
        {
            assert(branch_calls(conditional.branches@[i as int], name, scope) == (expression_calls(
                conditional.branches@[i as int].condition,
                name,
                scope,
            ) || block_calls(conditional.branches@[i as int].block, name, scope)));
            self.visit_expression(&conditional.branches[i].condition);
            self.visit_block(&conditional.branches[i].block);
            i += 1;
        }
        if let Some(block) = &conditional.else_block {
            self.visit_block(block);
        }
    }

    fn visit_statement(&mut self, statement: &Statement)
        ensures
            final(self).after(
                old(self),
                statement_calls(*statement, old(self).function_name(), old(self).scope()),
            ),
        decreases statement,
    {
        match statement {
            Statement::Call(call) => self.visit_function_call(call),
            Statement::If(conditional) => self.visit_if_statement(conditional),
            Statement::LocalAssign(assign) => self.visit_expressions(&assign.values),
            Statement::Nested { expressions, block } => {
                self.visit_expressions(expressions);
                self.visit_block(block);
            },
            Statement::Repeat { block, condition } => {
                self.visit_expression(condition);
                self.visit_block(block);
            },
            Statement::Other(expressions) => self.visit_expressions(expressions),
        }
    }
}

} // verus!
