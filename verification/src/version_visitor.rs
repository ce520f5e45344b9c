//! Derives from a module's own code the SDK versions it can run on.

use crate::bindings::{declare, lookup, Binding, BoundTo, Frame, ScopedBindings};
use crate::has_call_to_function_visitor::{expression_calls, HasCallToFunctionVisitor};
use crate::nodes::{
    Arguments, Block, Expression, FunctionCall, IfBranch, IfStatement, LocalAssignStatement,
    Statement,
};
use crate::sdk_version::{intersection, unbounded_from, union, SdkVersionOut};
use crate::utils::{call_name, fqn, get_call_name, get_fqn};
use vstd::prelude::*;
use vstd::std_specs::convert::FromSpecImpl;
use vstd::string::*;

verus! {

/// The versions that calling one function demands.
#[derive(Debug, Clone, Copy, PartialEq, Eq)]
pub struct FunctionMapping {
    min_sdk_version: u64,
    max_sdk_version: Option<u64>,
}

impl FunctionMapping {
    /// The versions that the function can be called on.
    pub closed spec fn interval(&self) -> SdkVersionOut {
        SdkVersionOut {
            min_sdk_version: self.min_sdk_version,
            max_sdk_version: self.max_sdk_version,
        }
    }

    /// The mapping of a function that can be called from `min_sdk_version`
    /// up to `max_sdk_version`.
    pub fn new(min_sdk_version: u64, max_sdk_version: Option<u64>) -> (mapping: Self)
        ensures
            mapping.interval() == (SdkVersionOut { min_sdk_version, max_sdk_version }),
    {
        FunctionMapping { min_sdk_version, max_sdk_version }
    }
}

impl<'a> From<&'a FunctionMapping> for SdkVersionOut {
    fn from(function_mapping: &'a FunctionMapping) -> (version: Self) {
        Self {
            min_sdk_version: function_mapping.min_sdk_version,
            max_sdk_version: function_mapping.max_sdk_version,
        }
    }
}

impl<'a> FromSpecImpl<&'a FunctionMapping> for SdkVersionOut {
    open spec fn obeys_from_spec() -> bool {
        true
    }

    open spec fn from_spec(function_mapping: &'a FunctionMapping) -> Self {
        function_mapping.interval()
    }
}

/// Which functions demand which versions.
#[derive(Debug, Clone, PartialEq, Eq)]
pub struct VersionFile {
    /// The lowest version of a module that calls no gated function; 1 when
    /// absent.
    pub default_version: Option<u64>,
    /// The gated functions by their fully qualified names. Where a name
    /// stands twice, the first entry counts.
    pub function_mappings: Vec<(String, FunctionMapping)>,
    /// The name of the function that returns the version of the running SDK.
    /// A conditional that tests its result chooses between code for
    /// different versions.
    pub sdk_version_function: String,
}

/// The interval of the first of `mappings` that is for `name`.
pub open spec fn gate_in(mappings: Seq<(String, FunctionMapping)>, name: Seq<char>) -> Option<
    SdkVersionOut,
>
    decreases mappings.len(),
{
    if mappings.len() == 0 {
        None
    } else if mappings[0].0@ == name {
        Some(mappings[0].1.interval())
    } else {
        gate_in(mappings.drop_first(), name)
    }
}

impl VersionFile {
    /// The interval of a module that calls no gated function.
    pub open spec fn default_interval(&self) -> SdkVersionOut {
        unbounded_from(
            match self.default_version {
                Some(version) => version,
                None => 1,
            },
        )
    }

    /// The versions that calling `name` demands, if it is gated.
    pub open spec fn gate(&self, name: Seq<char>) -> Option<SdkVersionOut> {
        gate_in(self.function_mappings@, name)
    }

    /// Computes [`VersionFile::default_interval`].
    pub fn default_sdk_version(&self) -> (version: SdkVersionOut)
        ensures
            version == self.default_interval(),
    {
        SdkVersionOut::new(
            match self.default_version {
                Some(version) => version,
                None => 1,
            },
        )
    }

    /// The mapping of the gated function `name`.
    pub fn get_mapping(&self, name: &String) -> (mapping: Option<&FunctionMapping>)
        ensures
            mapping is Some <==> self.gate(name@) is Some,
            mapping is Some ==> mapping->0.interval() == self.gate(name@)->0,
    {
        let mut i: usize = 0;
        assert(self.function_mappings@.skip(0) =~= self.function_mappings@);
        while i < self.function_mappings.len()
            invariant
                i <= self.function_mappings@.len(),
                self.gate(name@) == gate_in(self.function_mappings@.skip(i as int), name@),
            decreases self.function_mappings@.len() - i,
        {
            assert(self.function_mappings@.skip(i as int).drop_first()
                =~= self.function_mappings@.skip(i + 1));
            if self.function_mappings[i].0 == *name {
                return Some(&self.function_mappings[i].1);
            }
            i += 1;
        }
        None
    }
}

/// The name of the function that calls its first argument and traps the
/// errors it raises.
pub open spec fn trap_function() -> Seq<char> {
    "pcall"@
}

/// The interval that demands nothing.
pub open spec fn no_demand() -> SdkVersionOut {
    unbounded_from(0)
}

/// The name of the function that a trapping call with `arguments` calls: its
/// first argument, where that is a chain of field accesses, an identifier that
/// `scope` does not bind, or one that it binds to a name.
pub open spec fn trapped_name(arguments: Arguments, scope: Seq<Frame>) -> Option<Seq<char>> {
    match arguments {
        Arguments::Tuple(values) => if values@.len() >= 1 {
            match values@[0] {
                Expression::Identifier(identifier) => match lookup(scope, identifier@) {
                    None => Some(identifier@),
                    Some(BoundTo::Name(name)) => Some(name),
                    Some(_) => None,
                },
                Expression::Field(field) => fqn(*field),
                _ => None,
            }
        } else {
            None
        },
        _ => None,
    }
}

/// The name of the function that `call` ends up calling: its own name, or,
/// where it is the trapping call, the name of what it is asked to call.
pub open spec fn gated_name(call: FunctionCall, scope: Seq<Frame>) -> Option<Seq<char>> {
    match call_name(call) {
        None => None,
        Some(name) => if name == trap_function() {
            trapped_name(call.arguments, scope)
        } else {
            Some(name)
        },
    }
}

/// The versions that `call` by itself demands.
pub open spec fn call_demand(call: FunctionCall, scope: Seq<Frame>, table: VersionFile) -> Option<
    SdkVersionOut,
> {
    match gated_name(call, scope) {
        Some(name) => table.gate(name),
        None => None,
    }
}

/// `demand`, or the interval that demands nothing.
pub open spec fn or_no_demand(demand: Option<SdkVersionOut>) -> SdkVersionOut {
    match demand {
        Some(interval) => interval,
        None => no_demand(),
    }
}

/// Trapping the errors of a call demands what the call itself demands: where
/// the trapping call is given, as its first argument, the callee of `direct`,
/// which is a chain of field accesses or an identifier that `scope` does not
/// bind, and `direct` is not itself the trapping call.
pub proof fn lemma_trapped_call_demands_the_same(
    direct: FunctionCall,
    trapped: FunctionCall,
    scope: Seq<Frame>,
    table: VersionFile,
)
    requires
        direct.method is None,
        direct.prefix is Identifier || direct.prefix is Field,
        direct.prefix matches Expression::Identifier(name) ==> lookup(scope, name@) is None,
        call_name(direct) != Some(trap_function()),
        call_name(trapped) == Some(trap_function()),
        trapped.arguments is Tuple,
        trapped.arguments->Tuple_0@.len() >= 1,
        trapped.arguments->Tuple_0@[0] == direct.prefix,
    ensures
        call_demand(trapped, scope, table) == call_demand(direct, scope, table),
{
}

/// What a local variable initialised with `value` is bound to.
pub open spec fn bound_to(value: Expression) -> BoundTo {
    match value {
        Expression::Identifier(name) => BoundTo::Name(name@),
        Expression::Field(field) => match fqn(*field) {
            Some(name) => BoundTo::Name(name),
            None => BoundTo::Opaque,
        },
        Expression::Call(call) => match call_name(*call) {
            Some(name) => BoundTo::CallResult(name),
            None => BoundTo::Opaque,
        },
        _ => BoundTo::Opaque,
    }
}

/// What the variable at `index` of a declaration with `values` is bound to.
pub open spec fn bound_at(values: Seq<Expression>, index: int) -> BoundTo {
    if 0 <= index < values.len() {
        bound_to(values[index])
    } else {
        BoundTo::Opaque
    }
}

/// `scope` after the first `count` of `variables` were declared with `values`.
pub open spec fn declared(
    scope: Seq<Frame>,
    variables: Seq<String>,
    values: Seq<Expression>,
    count: int,
) -> Seq<Frame>
    decreases count,
{
    if count <= 0 || count > variables.len() {
        scope
    } else {
        declare(
            declared(scope, variables, values, count - 1),
            variables[count - 1]@,
            bound_at(values, count - 1),
        )
    }
}

/// `scope` after `statement` ran in it.
pub open spec fn scope_after(statement: Statement, scope: Seq<Frame>) -> Seq<Frame> {
    match statement {
        Statement::LocalAssign(assign) => declared(
            scope,
            assign.variables@,
            assign.values@,
            assign.variables@.len() as int,
        ),
        _ => scope,
    }
}

/// `scope` after the first `count` of `statements` ran in it.
pub open spec fn scope_at(statements: Seq<Statement>, count: int, scope: Seq<Frame>) -> Seq<Frame>
    decreases count,
{
    if count <= 0 || count > statements.len() {
        scope
    } else {
        scope_after(statements[count - 1], scope_at(statements, count - 1, scope))
    }
}

/// Whether `conditional` chooses between code for different SDK versions: it
/// has no `elseif`, and its condition holds a call to the function that
/// returns the running version.
pub open spec fn is_version_check(
    conditional: IfStatement,
    scope: Seq<Frame>,
    table: VersionFile,
) -> bool {
    conditional.branches@.len() == 1 && expression_calls(
        conditional.branches@[0].condition,
        table.sdk_version_function@,
        scope,
    )
}

/// The versions demanded inside `expression`.
pub open spec fn expression_demand(
    expression: Expression,
    scope: Seq<Frame>,
    table: VersionFile,
) -> SdkVersionOut
    decreases expression,
{
    match expression {
        Expression::Identifier(_) => no_demand(),
        Expression::Field(field) => expression_demand(field.prefix, scope, table),
        Expression::Call(call) => function_call_demand(*call, scope, table),
        Expression::String(_) => no_demand(),
        Expression::True => no_demand(),
        Expression::Function(block) => block_demand(*block, scope, table),
        Expression::Other(inner) => expressions_demand(inner@, 0, scope, table),
    }
}

/// The versions demanded inside `expressions` from index `from` on.
pub open spec fn expressions_demand(
    expressions: Seq<Expression>,
    from: int,
    scope: Seq<Frame>,
    table: VersionFile,
) -> SdkVersionOut
    decreases expressions, expressions.len() - from,
{
    if 0 <= from < expressions.len() {
        intersection(
            expression_demand(expressions[from], scope, table),
            expressions_demand(expressions, from + 1, scope, table),
        )
    } else {
        no_demand()
    }
}

/// The versions demanded inside `arguments`.
pub open spec fn arguments_demand(
    arguments: Arguments,
    scope: Seq<Frame>,
    table: VersionFile,
) -> SdkVersionOut
    decreases arguments,
{
    match arguments {
        Arguments::String(_) => no_demand(),
        Arguments::Tuple(values) => expressions_demand(values@, 0, scope, table),
        Arguments::Table(values) => expressions_demand(values@, 0, scope, table),
    }
}

/// The versions demanded by `call`, by its callee and by its arguments.
pub open spec fn function_call_demand(
    call: FunctionCall,
    scope: Seq<Frame>,
    table: VersionFile,
) -> SdkVersionOut
    decreases call,
{
    intersection(
        or_no_demand(call_demand(call, scope, table)),
        intersection(
            expression_demand(call.prefix, scope, table),
            arguments_demand(call.arguments, scope, table),
        ),
    )
}

/// The versions that `block` can run on, when it is entered with the
/// bindings `scope`: the table's default, narrowed by what its statements
/// demand.
pub open spec fn block_demand(block: Block, scope: Seq<Frame>, table: VersionFile) -> SdkVersionOut
    decreases block,
{
    intersection(
        table.default_interval(),
        statements_demand(block.statements@, 0, scope.push(Seq::empty()), table),
    )
}

/// The versions demanded by `statements` from index `from` on, when the
/// statement at `from` runs with the bindings `scope`.
pub open spec fn statements_demand(
    statements: Seq<Statement>,
    from: int,
    scope: Seq<Frame>,
    table: VersionFile,
) -> SdkVersionOut
    decreases statements, statements.len() - from,
{
    if 0 <= from < statements.len() {
        intersection(
            statement_demand(statements[from], scope, table),
            statements_demand(statements, from + 1, scope_after(statements[from], scope), table),
        )
    } else {
        no_demand()
    }
}

/// The versions demanded by the condition and the block of `branch`.
pub open spec fn branch_demand(
    branch: IfBranch,
    scope: Seq<Frame>,
    table: VersionFile,
) -> SdkVersionOut
    decreases branch,
{
    intersection(
        expression_demand(branch.condition, scope, table),
        block_demand(branch.block, scope, table),
    )
}

/// The versions demanded by `branches` from index `from` on.
pub open spec fn branches_demand(
    branches: Seq<IfBranch>,
    from: int,
    scope: Seq<Frame>,
    table: VersionFile,
) -> SdkVersionOut
    decreases branches, branches.len() - from,
{
    if 0 <= from < branches.len() {
        intersection(
            branch_demand(branches[from], scope, table),
            branches_demand(branches, from + 1, scope, table),
        )
    } else {
        no_demand()
    }
}

/// The versions demanded by an `else` block, if there is one.
pub open spec fn else_demand(
    else_block: Option<Block>,
    scope: Seq<Frame>,
    table: VersionFile,
) -> SdkVersionOut
    decreases else_block,
{
    match else_block {
        Some(block) => block_demand(block, scope, table),
        None => no_demand(),
    }
}

/// The versions that a version check demands: with an `else`, the union of
/// what each of its two blocks can run on by itself, without the bindings
/// around the conditional; without one, nothing.
pub open spec fn version_check_demand(conditional: IfStatement, table: VersionFile) -> Option<
    SdkVersionOut,
>
    decreases conditional, 0int,
{
    if conditional.branches@.len() >= 1 {
        match conditional.else_block {
            Some(block) => Some(
                union(
                    block_demand(conditional.branches@[0].block, Seq::empty(), table),
                    block_demand(block, Seq::empty(), table),
                ),
            ),
            None => None,
        }
    } else {
        None
    }
}

/// The versions demanded by `conditional`: as a version check, or else by all
/// of its conditions and blocks.
pub open spec fn conditional_demand(
    conditional: IfStatement,
    scope: Seq<Frame>,
    table: VersionFile,
) -> SdkVersionOut
    decreases conditional, 1int,
{
    if is_version_check(conditional, scope, table) {
        or_no_demand(version_check_demand(conditional, table))
    } else {
        intersection(
            branches_demand(conditional.branches@, 0, scope, table),
            else_demand(conditional.else_block, scope, table),
        )
    }
}

/// The versions demanded by `statement`, run with the bindings `scope`.
pub open spec fn statement_demand(
    statement: Statement,
    scope: Seq<Frame>,
    table: VersionFile,
) -> SdkVersionOut
    decreases statement,
{
    match statement {
        Statement::Call(call) => function_call_demand(call, scope, table),
        Statement::If(conditional) => conditional_demand(conditional, scope, table),
        Statement::LocalAssign(assign) => expressions_demand(assign.values@, 0, scope, table),
        Statement::Nested { expressions, block } => intersection(
            expressions_demand(expressions@, 0, scope, table),
            block_demand(block, scope, table),
        ),
        Statement::Repeat { block, condition } => intersection(
            table.default_interval(),
            intersection(
                statements_demand(block.statements@, 0, scope.push(Seq::empty()), table),
                expression_demand(
                    condition,
                    scope_at(
                        block.statements@,
                        block.statements@.len() as int,
                        scope.push(Seq::empty()),
                    ),
                    table,
                ),
            ),
        ),
        Statement::Other(expressions) => expressions_demand(expressions@, 0, scope, table),
    }
}

/// A block never lowers what the table asks for by default: whatever it holds,
/// it can run on no version below the default.
pub proof fn lemma_block_demands_the_default(block: Block, scope: Seq<Frame>, table: VersionFile)
    ensures
        block_demand(block, scope, table).min_sdk_version
            >= table.default_interval().min_sdk_version,
{
}

/// A block that does nothing but call one function by its bare name, without
/// arguments, can run on the table's default narrowed by what that call
/// demands.
pub proof fn lemma_single_call_demand(
    block: Block,
    call: FunctionCall,
    scope: Seq<Frame>,
    table: VersionFile,
)
    requires
        block.statements@.len() == 1,
        block.statements@[0] == Statement::Call(call),
        call.prefix is Identifier,
        call.arguments is Tuple,
        call.arguments->Tuple_0@.len() == 0,
    ensures
        block_demand(block, scope, table) == intersection(
            table.default_interval(),
            or_no_demand(call_demand(call, scope.push(Seq::empty()), table)),
        ),
{
    let inner = scope.push(Seq::empty());
    let statements = block.statements@;
    assert(expressions_demand(call.arguments->Tuple_0@, 0, inner, table) == no_demand());
    assert(statement_demand(statements[0], inner, table) == function_call_demand(
        call,
        inner,
        table,
    ));
}

/// A block that holds nothing but a version check with an `else` can run on
/// the table's default narrowed by the union of what each of the two blocks
/// can run on by itself; and walking the block leaves of the version check a
/// neutral conditional.
pub proof fn lemma_version_check_demand(
    block: Block,
    conditional: IfStatement,
    scope: Seq<Frame>,
    table: VersionFile,
    after: Block,
)
    requires
        block.statements@.len() == 1,
        block.statements@[0] == Statement::If(conditional),
        is_version_check(conditional, scope.push(Seq::empty()), table),
        conditional.else_block is Some,
        block_neutralized(block, after, scope, table),
    ensures
        block_demand(block, scope, table) == intersection(
            table.default_interval(),
            union(
                block_demand(conditional.branches@[0].block, Seq::empty(), table),
                block_demand(conditional.else_block->0, Seq::empty(), table),
            ),
        ),
        after.statements@.len() == 1,
        after.statements@[0] is If,
        cleared(conditional, after.statements@[0]->If_0),
{
    let inner = scope.push(Seq::empty());
    let statements = block.statements@;
    assert(statement_demand(statements[0], inner, table) == conditional_demand(
        conditional,
        inner,
        table,
    ));
    assert(statement_neutralized(statements[0], after.statements@[0], inner, table));
}

/// Whether `after` is `before` made neutral: every condition `true`, every
/// block empty, an `else` kept where there was one.
pub open spec fn cleared(before: IfStatement, after: IfStatement) -> bool {
    &&& after.branches@.len() == before.branches@.len()
    &&& forall|i: int|
        0 <= i < after.branches@.len() ==> (#[trigger] after.branches@[i]).condition
            == Expression::True && after.branches@[i].block.statements@.len() == 0
    &&& (after.else_block is Some <==> before.else_block is Some)
    &&& (after.else_block is Some ==> after.else_block->0.statements@.len() == 0)
}

/// Whether `after` is `before` with every version check that the walk meets
/// inside it made neutral, and nothing else changed.
pub open spec fn expression_neutralized(
    before: Expression,
    after: Expression,
    scope: Seq<Frame>,
    table: VersionFile,
) -> bool
    decreases before,
{
    match before {
        Expression::Identifier(_) => after == before,
        Expression::Field(field) => after matches Expression::Field(changed)
            && changed.field == field.field && expression_neutralized(
            field.prefix,
            changed.prefix,
            scope,
            table,
        ),
        Expression::Call(call) => after matches Expression::Call(changed)
            && function_call_neutralized(*call, *changed, scope, table),
        Expression::String(_) => after == before,
        Expression::True => after == before,
        Expression::Function(block) => after matches Expression::Function(changed)
            && block_neutralized(*block, *changed, scope, table),
        Expression::Other(inner) => after matches Expression::Other(changed)
            && expressions_neutralized(inner@, changed@, inner@.len() as int, scope, table),
    }
}

/// [`expression_neutralized`] for the first `count` of `before`; `after` is
/// as long as `before`.
pub open spec fn expressions_neutralized(
    before: Seq<Expression>,
    after: Seq<Expression>,
    count: int,
    scope: Seq<Frame>,
    table: VersionFile,
) -> bool
    decreases before, count,
{
    &&& after.len() == before.len()
    &&& (0 < count <= before.len() ==> expressions_neutralized(
        before,
        after,
        count - 1,
        scope,
        table,
    ) && expression_neutralized(before[count - 1], after[count - 1], scope, table))
}

/// [`expression_neutralized`] for the expressions inside arguments.
pub open spec fn arguments_neutralized(
    before: Arguments,
    after: Arguments,
    scope: Seq<Frame>,
    table: VersionFile,
) -> bool
    decreases before,
{
    match before {
        Arguments::String(_) => after == before,
        Arguments::Tuple(values) => after matches Arguments::Tuple(changed)
            && expressions_neutralized(values@, changed@, values@.len() as int, scope, table),
        Arguments::Table(values) => after matches Arguments::Table(changed)
            && expressions_neutralized(values@, changed@, values@.len() as int, scope, table),
    }
}

/// [`expression_neutralized`] for the callee and the arguments of a call.
pub open spec fn function_call_neutralized(
    before: FunctionCall,
    after: FunctionCall,
    scope: Seq<Frame>,
    table: VersionFile,
) -> bool
    decreases before,
{
    &&& after.method == before.method
    &&& expression_neutralized(before.prefix, after.prefix, scope, table)
    &&& arguments_neutralized(before.arguments, after.arguments, scope, table)
}

/// [`statement_neutralized`] for the statements of a block that is entered
/// with the bindings `scope`.
pub open spec fn block_neutralized(
    before: Block,
    after: Block,
    scope: Seq<Frame>,
    table: VersionFile,
) -> bool
    decreases before,
{
    statements_neutralized(
        before.statements@,
        after.statements@,
        before.statements@.len() as int,
        scope.push(Seq::empty()),
        table,
    )
}

/// [`statement_neutralized`] for the first `count` of `before`, the first of
/// which runs with the bindings `scope`; `after` is as long as `before`.
pub open spec fn statements_neutralized(
    before: Seq<Statement>,
    after: Seq<Statement>,
    count: int,
    scope: Seq<Frame>,
    table: VersionFile,
) -> bool
    decreases before, count,
{
    &&& after.len() == before.len()
    &&& (0 < count <= before.len() ==> statements_neutralized(
        before,
        after,
        count - 1,
        scope,
        table,
    ) && statement_neutralized(
        before[count - 1],
        after[count - 1],
        scope_at(before, count - 1, scope),
        table,
    ))
}

/// [`expression_neutralized`] for the condition of a branch, and
/// [`block_neutralized`] for its block.
pub open spec fn branch_neutralized(
    before: IfBranch,
    after: IfBranch,
    scope: Seq<Frame>,
    table: VersionFile,
) -> bool
    decreases before,
{
    &&& expression_neutralized(before.condition, after.condition, scope, table)
    &&& block_neutralized(before.block, after.block, scope, table)
}

/// [`branch_neutralized`] for the first `count` of `before`; `after` is as
/// long as `before`.
pub open spec fn branches_neutralized(
    before: Seq<IfBranch>,
    after: Seq<IfBranch>,
    count: int,
    scope: Seq<Frame>,
    table: VersionFile,
) -> bool
    decreases before, count,
{
    &&& after.len() == before.len()
    &&& (0 < count <= before.len() ==> branches_neutralized(
        before,
        after,
        count - 1,
        scope,
        table,
    ) && branch_neutralized(before[count - 1], after[count - 1], scope, table))
}

/// [`block_neutralized`] for an `else` block, if there is one.
pub open spec fn else_neutralized(
    before: Option<Block>,
    after: Option<Block>,
    scope: Seq<Frame>,
    table: VersionFile,
) -> bool
    decreases before,
{
    match before {
        Some(block) => after matches Some(changed) && block_neutralized(
            block,
            changed,
            scope,
            table,
        ),
        None => after is None,
    }
}

/// Whether `after` is `before` made neutral, if it is a version check, and
/// else `before` with the version checks inside it made neutral.
pub open spec fn conditional_neutralized(
    before: IfStatement,
    after: IfStatement,
    scope: Seq<Frame>,
    table: VersionFile,
) -> bool
    decreases before,
{
    if is_version_check(before, scope, table) {
        cleared(before, after)
    } else {
        &&& branches_neutralized(
            before.branches@,
            after.branches@,
            before.branches@.len() as int,
            scope,
            table,
        )
        &&& else_neutralized(before.else_block, after.else_block, scope, table)
    }
}

/// Whether `after` is `before` with every version check that the walk meets
/// inside it made neutral, and nothing else changed. `scope` holds the
/// bindings that `before` runs with.
pub open spec fn statement_neutralized(
    before: Statement,
    after: Statement,
    scope: Seq<Frame>,
    table: VersionFile,
) -> bool
    decreases before,
{
    match before {
        Statement::Call(call) => after matches Statement::Call(changed)
            && function_call_neutralized(call, changed, scope, table),
        Statement::If(conditional) => after matches Statement::If(changed)
            && conditional_neutralized(conditional, changed, scope, table),
        Statement::LocalAssign(assign) => after matches Statement::LocalAssign(changed)
            && changed.variables == assign.variables && expressions_neutralized(
            assign.values@,
            changed.values@,
            assign.values@.len() as int,
            scope,
            table,
        ),
        Statement::Nested { expressions, block } => after matches Statement::Nested {
            expressions: changed_expressions,
            block: changed_block,
        } && expressions_neutralized(
            expressions@,
            changed_expressions@,
            expressions@.len() as int,
            scope,
            table,
        ) && block_neutralized(block, changed_block, scope, table),
        Statement::Repeat { block, condition } => after matches Statement::Repeat {
            block: changed_block,
            condition: changed_condition,
        } && statements_neutralized(
            block.statements@,
            changed_block.statements@,
            block.statements@.len() as int,
            scope.push(Seq::empty()),
            table,
        ) && expression_neutralized(
            condition,
            changed_condition,
            scope_at(block.statements@, block.statements@.len() as int, scope.push(Seq::empty())),
            table,
        ),
        Statement::Other(expressions) => after matches Statement::Other(changed)
            && expressions_neutralized(
            expressions@,
            changed@,
            expressions@.len() as int,
            scope,
            table,
        ),
    }
}

/// What holds of the first `count` expressions holds of them whatever comes
/// after them.
proof fn lemma_expressions_frame(
    before: Seq<Expression>,
    first: Seq<Expression>,
    second: Seq<Expression>,
    count: int,
    scope: Seq<Frame>,
    table: VersionFile,
)
    requires
        first.len() == second.len(),
        0 <= count <= before.len(),
        forall|j: int| 0 <= j < count ==> first[j] == second[j],
        expressions_neutralized(before, first, count, scope, table),
    ensures
        expressions_neutralized(before, second, count, scope, table),
    decreases count,
{
    if count > 0 {
        lemma_expressions_frame(before, first, second, count - 1, scope, table);
    }
}

/// What holds of the first `count` statements holds of them whatever comes
/// after them.
proof fn lemma_statements_frame(
    before: Seq<Statement>,
    first: Seq<Statement>,
    second: Seq<Statement>,
    count: int,
    scope: Seq<Frame>,
    table: VersionFile,
)
    requires
        first.len() == second.len(),
        0 <= count <= before.len(),
        forall|j: int| 0 <= j < count ==> first[j] == second[j],
        statements_neutralized(before, first, count, scope, table),
    ensures
        statements_neutralized(before, second, count, scope, table),
    decreases count,
{
    if count > 0 {
        lemma_statements_frame(before, first, second, count - 1, scope, table);
    }
}

/// What holds of the first `count` branches holds of them whatever comes
/// after them.
proof fn lemma_branches_frame(
    before: Seq<IfBranch>,
    first: Seq<IfBranch>,
    second: Seq<IfBranch>,
    count: int,
    scope: Seq<Frame>,
    table: VersionFile,
)
    requires
        first.len() == second.len(),
        0 <= count <= before.len(),
        forall|j: int| 0 <= j < count ==> first[j] == second[j],
        branches_neutralized(before, first, count, scope, table),
    ensures
        branches_neutralized(before, second, count, scope, table),
    decreases count,
{
    if count > 0 {
        lemma_branches_frame(before, first, second, count - 1, scope, table);
    }
}

/// Sets every condition of `if_statement` to `true` and empties every block.
pub fn clear_if_statement(if_statement: &mut IfStatement)
    ensures
        cleared(*old(if_statement), *final(if_statement)),
{
    let mut i: usize = 0;
    while i < if_statement.branches.len()
        invariant
            i <= if_statement.branches@.len(),
            if_statement.branches@.len() == old(if_statement).branches@.len(),
            if_statement.else_block == old(if_statement).else_block,
            forall|j: int|
                0 <= j < i ==> (#[trigger] if_statement.branches@[j]).condition
                    == Expression::True && if_statement.branches@[j].block.statements@.len() == 0,
        decreases if_statement.branches@.len() - i,
    {
        let branch = &mut if_statement.branches[i];
        branch.condition = Expression::True;
        branch.block = Block::empty();
        i += 1;
    }
    if if_statement.else_block.is_some() {
        if_statement.else_block = Some(Block::empty());
    }
}

/// Computes [`bound_to`].
pub fn binding_of(value: &Expression) -> (binding: Binding)
    ensures
        binding@ == bound_to(*value),
{
    match value {
        Expression::Identifier(name) => Binding::Name(name.clone()),
        Expression::Field(field) => match get_fqn(field) {
            Some(name) => Binding::Name(name),
            None => Binding::Opaque,
        },
        Expression::Call(call) => match get_call_name(call) {
            Some(name) => Binding::CallResult(name),
            None => Binding::Opaque,
        },
        _ => Binding::Opaque,
    }
}

fn copy_of(binding: &Binding) -> (copy: Binding)
    ensures
        copy@ == binding@,
{
    match binding {
        Binding::Name(name) => Binding::Name(name.clone()),
        Binding::CallResult(name) => Binding::CallResult(name.clone()),
        Binding::Opaque => Binding::Opaque,
    }
}

/// Walks a module's tree, one scope at a time, and narrows the versions the
/// module can run on by what each call demands. A version check counts once,
/// by the union of its two blocks, and is made neutral where it stands.
#[derive(Debug)]
pub struct VersionResolver<'a> {
    variable_scope: ScopedBindings,
    /// The versions that each open scope can run on, innermost last.
    pub scope_stack: Vec<SdkVersionOut>,
    scope_data: SdkVersionOut,
    version_file: &'a VersionFile,
}

impl<'a> VersionResolver<'a> {
    /// The bindings of the local variables in scope.
    pub closed spec fn bindings(&self) -> Seq<Frame> {
        self.variable_scope@
    }

    /// The versions that the code walked so far can run on, as far as its
    /// scopes were left.
    pub closed spec fn root(&self) -> SdkVersionOut {
        self.scope_data
    }

    /// The versions that each open scope can run on, innermost last.
    pub closed spec fn scopes(&self) -> Seq<SdkVersionOut> {
        self.scope_stack@
    }

    /// The table of gated functions.
    pub closed spec fn table(&self) -> VersionFile {
        *self.version_file
    }

    /// Whether `self` is `before` with other scopes, root and bindings.
    pub open spec fn with(
        &self,
        before: &Self,
        scopes: Seq<SdkVersionOut>,
        root: SdkVersionOut,
        bindings: Seq<Frame>,
    ) -> bool {
        &&& self.table() == before.table()
        &&& self.scopes() == scopes
        &&& self.root() == root
        &&& self.bindings() == bindings
    }

    /// `scopes` with `demand` intersected into the innermost one.
    pub open spec fn narrow(scopes: Seq<SdkVersionOut>, demand: SdkVersionOut) -> Seq<
        SdkVersionOut,
    > {
        if scopes.len() == 0 {
            scopes
        } else {
            scopes.update(scopes.len() - 1, intersection(scopes.last(), demand))
        }
    }

    /// Whether `self` is `before` after `demand` came in: intersected into
    /// the innermost scope, or, with no scope open, in the place of the root.
    pub open spec fn merged(&self, before: &Self, demand: SdkVersionOut) -> bool {
        self.with(
            before,
            Self::narrow(before.scopes(), demand),
            if before.scopes().len() == 0 {
                demand
            } else {
                before.root()
            },
            before.bindings(),
        )
    }

    /// Whether `self` is `before` after `demand` came in, if there is one.
    pub open spec fn merged_if(&self, before: &Self, demand: Option<SdkVersionOut>) -> bool {
        match demand {
            Some(interval) => self.merged(before, interval),
            None => self.with(before, before.scopes(), before.root(), before.bindings()),
        }
    }

    /// Whether `self` is `before`, which has a scope open, after `demand`
    /// was intersected into the innermost scope and the bindings became
    /// `bindings`.
    pub open spec fn narrowed(
        &self,
        before: &Self,
        demand: SdkVersionOut,
        bindings: Seq<Frame>,
    ) -> bool {
        self.with(before, Self::narrow(before.scopes(), demand), before.root(), bindings)
    }

    /// A resolver that has walked nothing: no scope is open, and the root is
    /// the table's default.
    pub fn new(version_file: &'a VersionFile) -> (resolver: Self)
        ensures
            resolver.table() == *version_file,
            resolver.scopes().len() == 0,
            resolver.root() == version_file.default_interval(),
            resolver.bindings() == Seq::<Frame>::empty(),
    {
        Self {
            scope_stack: Vec::new(),
            scope_data: version_file.default_sdk_version(),
            version_file,
            variable_scope: ScopedBindings::new(),
        }
    }

    fn update_last_scope_data(&mut self, sdk_version: SdkVersionOut)
        ensures
            final(self).merged(old(self), sdk_version),
    {
        match self.scope_stack.pop() {
            None => {
                self.scope_data = sdk_version;
            },
            Some(scope_data) => {
                self.scope_stack.push(
                    SdkVersionOut::sdk_version_intersection(scope_data, sdk_version),
                );
                assert(self.scopes() =~= Self::narrow(old(self).scopes(), sdk_version));
            },
        }
    }

    /// The versions that the code walked so far can run on.
    pub fn sdk_version(&self) -> (version: SdkVersionOut)
        ensures
            version == self.root(),
    {
        self.scope_data
    }

    fn gated_function(&self, call: &FunctionCall) -> (name: Option<String>)
        ensures
            name is Some <==> gated_name(*call, self.bindings()) is Some,
            name is Some ==> name->0@ == gated_name(*call, self.bindings())->0,
    {
        let name = match get_call_name(call) {
            Some(name) => name,
            None => { return None; },
        };
        if name != String::from_str("pcall") {
            return Some(name);
        }
        match &call.arguments {
            Arguments::Tuple(values) => {
                if values.len() < 1 {
                    return None;
                }
                match &values[0] {
                    Expression::Identifier(identifier) => {
                        match self.variable_scope.get(identifier) {
                            None => Some(identifier.clone()),
                            Some(Binding::Name(bound)) => Some(bound.clone()),
                            Some(_) => None,
                        }
                    },
                    Expression::Field(field) => get_fqn(field),
                    _ => None,
                }
            },
            _ => None,
        }
    }

    /// Takes in what `call` by itself demands.
    pub fn process_function_call(&mut self, call: &FunctionCall)
        ensures
            final(self).merged_if(
                old(self),
                call_demand(*call, old(self).bindings(), old(self).table()),
            ),
    {
        if let Some(function_name) = self.gated_function(call) {
            if let Some(function_mapping) = self.version_file.get_mapping(&function_name) {
                self.update_last_scope_data(SdkVersionOut::from(function_mapping));
            }
        }
    }

    /// Opens a scope.
    pub fn push(&mut self)
        ensures
            final(self).with(
                old(self),
                old(self).scopes().push(old(self).table().default_interval()),
                old(self).root(),
                old(self).bindings().push(Seq::empty()),
            ),
    {
        self.scope_stack.push(self.version_file.default_sdk_version());
        self.variable_scope.push();
    }

    /// Closes the innermost scope and takes what it demanded into the scope
    /// around it.
    pub fn pop(&mut self)
        ensures
            old(self).scopes().len() == 0 ==> final(self).with(
                old(self),
                old(self).scopes(),
                old(self).root(),
                if old(self).bindings().len() == 0 {
                    old(self).bindings()
                } else {
                    old(self).bindings().drop_last()
                },
            ),
            old(self).scopes().len() > 0 ==> final(self).with(
                old(self),
                Self::narrow(old(self).scopes().drop_last(), old(self).scopes().last()),
                if old(self).scopes().len() == 1 {
                    old(self).scopes().last()
                } else {
                    old(self).root()
                },
                if old(self).bindings().len() == 0 {
                    old(self).bindings()
                } else {
                    old(self).bindings().drop_last()
                },
            ),
    {
        if let Some(curr_scope_data) = self.scope_stack.pop() {
            self.update_last_scope_data(curr_scope_data);
        }
        self.variable_scope.pop();
    }

    fn declare_local(&mut self, identifier: &String, binding: Binding)
        ensures
            final(self).with(
                old(self),
                old(self).scopes(),
                old(self).root(),
                declare(old(self).bindings(), identifier@, binding@),
            ),
    {
        self.variable_scope.insert(identifier.clone(), binding);
    }

    /// Declares the local variable `identifier`, initialised with `value`.
    pub fn insert_local(&mut self, identifier: &String, value: Option<&Expression>)
        ensures
            final(self).with(
                old(self),
                old(self).scopes(),
                old(self).root(),
                declare(
                    old(self).bindings(),
                    identifier@,
                    match value {
                        Some(initializer) => bound_to(*initializer),
                        None => BoundTo::Opaque,
                    },
                ),
            ),
    {
        let binding = match value {
            Some(initializer) => binding_of(initializer),
            None => Binding::Opaque,
        };
        self.declare_local(identifier, binding);
    }

    /// Taking in nothing leaves everything as it is.
    proof fn lemma_narrowed_by_nothing(&self)
        ensures
            self.narrowed(self, no_demand(), self.bindings()),
    {
        assert(Self::narrow(self.scopes(), no_demand()) =~= self.scopes());
    }

    /// Taking in two demands one after the other is taking in both.
    proof fn lemma_narrowed_twice(
        &self,
        before: &Self,
        between: &Self,
        first: SdkVersionOut,
        second: SdkVersionOut,
        bindings: Seq<Frame>,
    )
        requires
            between.narrowed(before, first, between.bindings()),
            self.narrowed(between, second, bindings),
        ensures
            self.narrowed(before, intersection(first, second), bindings),
    {
        assert(Self::narrow(Self::narrow(before.scopes(), first), second) =~= Self::narrow(
            before.scopes(),
            intersection(first, second),
        ));
    }

    /// With a scope open, a demand that comes in narrows the innermost scope.
    proof fn lemma_merged_narrows(&self, before: &Self, demand: Option<SdkVersionOut>)
        requires
            before.scopes().len() > 0,
            self.merged_if(before, demand),
        ensures
            self.narrowed(before, or_no_demand(demand), before.bindings()),
    {
        assert(Self::narrow(before.scopes(), no_demand()) =~= before.scopes());
    }

    fn visit_expression(&mut self, expression: &mut Expression)
        requires
            old(self).scopes().len() > 0,
        ensures
            final(self).narrowed(
                old(self),
                expression_demand(*old(expression), old(self).bindings(), old(self).table()),
                old(self).bindings(),
            ),
            expression_neutralized(
                *old(expression),
                *final(expression),
                old(self).bindings(),
                old(self).table(),
            ),
        decreases *old(expression), 0int,
    {
        match expression {
            Expression::Identifier(_) => {
                proof {
                    self.lemma_narrowed_by_nothing();
                }
            },
            Expression::Field(field) => {
                self.visit_expression(&mut field.prefix);
            },
            Expression::Call(call) => {
                self.visit_function_call(call);
            },
            Expression::String(_) => {
                proof {
                    self.lemma_narrowed_by_nothing();
                }
            },
            Expression::True => {
                proof {
                    self.lemma_narrowed_by_nothing();
                }
            },
            Expression::Function(block) => {
                self.visit_block(block);
            },
            Expression::Other(inner) => {
                self.visit_expressions(inner);
            },
        }
    }

    fn visit_expressions(&mut self, expressions: &mut Vec<Expression>)
        requires
            old(self).scopes().len() > 0,
        ensures
            final(self).narrowed(
                old(self),
                expressions_demand(old(expressions)@, 0, old(self).bindings(), old(self).table()),
                old(self).bindings(),
            ),
            expressions_neutralized(
                old(expressions)@,
                final(expressions)@,
                old(expressions)@.len() as int,
                old(self).bindings(),
                old(self).table(),
            ),
        decreases *old(expressions), 0int,
    {
        let ghost before = expressions@;
        let ghost scope = self.bindings();
        let ghost table = self.table();
        let ghost mut done = no_demand();
        proof {
            self.lemma_narrowed_by_nothing();
        }
        let mut i: usize = 0;
        while i < expressions.len()
            invariant
                i <= expressions@.len(),
                expressions@.len() == before.len(),
                before == old(expressions)@,
                scope == old(self).bindings(),
                table == old(self).table(),
                old(self).scopes().len() > 0,
                forall|j: int| i <= j < before.len() ==> expressions@[j] == before[j],
                expressions_neutralized(before, expressions@, i as int, scope, table),
                self.narrowed(old(self), done, scope),
                intersection(done, expressions_demand(before, i as int, scope, table))
                    == expressions_demand(before, 0, scope, table),
            decreases expressions@.len() - i,
        {
            let ghost between = *self;
            let ghost previous = expressions@;
            self.visit_expression(&mut expressions[i]);
            proof {
                let step = expression_demand(before[i as int], scope, table);
                self.lemma_narrowed_twice(old(self), &between, done, step, scope);
                lemma_expressions_frame(before, previous, expressions@, i as int, scope, table);
                done = intersection(done, step);
            }
            i += 1;
        }
    }

    fn visit_arguments(&mut self, arguments: &mut Arguments)
        requires
            old(self).scopes().len() > 0,
        ensures
            final(self).narrowed(
                old(self),
                arguments_demand(*old(arguments), old(self).bindings(), old(self).table()),
                old(self).bindings(),
            ),
            arguments_neutralized(
                *old(arguments),
                *final(arguments),
                old(self).bindings(),
                old(self).table(),
            ),
        decreases *old(arguments), 0int,
    {
        match arguments {
            Arguments::String(_) => {
                proof {
                    self.lemma_narrowed_by_nothing();
                }
            },
            Arguments::Tuple(values) => {
                self.visit_expressions(values);
            },
            Arguments::Table(values) => {
                self.visit_expressions(values);
            },
        }
    }

    fn visit_function_call(&mut self, call: &mut FunctionCall)
        requires
            old(self).scopes().len() > 0,
        ensures
            final(self).narrowed(
                old(self),
                function_call_demand(*old(call), old(self).bindings(), old(self).table()),
                old(self).bindings(),
            ),
            function_call_neutralized(
                *old(call),
                *final(call),
                old(self).bindings(),
                old(self).table(),
            ),
        decreases *old(call), 0int,
    {
        let ghost scope = self.bindings();
        let ghost table = self.table();
        self.process_function_call(call);
        let ghost first = *self;
        proof {
            first.lemma_merged_narrows(old(self), call_demand(*call, scope, table));
        }
        self.visit_expression(&mut call.prefix);
        let ghost second = *self;
        self.visit_arguments(&mut call.arguments);
        proof {
            let own = or_no_demand(call_demand(*old(call), scope, table));
            let callee = expression_demand(old(call).prefix, scope, table);
            let given = arguments_demand(old(call).arguments, scope, table);
            self.lemma_narrowed_twice(&first, &second, callee, given, scope);
            self.lemma_narrowed_twice(old(self), &first, own, intersection(callee, given), scope);
        }
    }

    /// Walks `statements` one after the other in the innermost scope.
    fn visit_statements(&mut self, statements: &mut Vec<Statement>)
        requires
            old(self).scopes().len() > 0,
        ensures
            final(self).narrowed(
                old(self),
                statements_demand(old(statements)@, 0, old(self).bindings(), old(self).table()),
                scope_at(
                    old(statements)@,
                    old(statements)@.len() as int,
                    old(self).bindings(),
                ),
            ),
            statements_neutralized(
                old(statements)@,
                final(statements)@,
                old(statements)@.len() as int,
                old(self).bindings(),
                old(self).table(),
            ),
        decreases *old(statements), 0int,
    {
        let ghost before = statements@;
        let ghost table = self.table();
        let ghost scope = self.bindings();
        let ghost mut done = no_demand();
        proof {
            self.lemma_narrowed_by_nothing();
        }
        let mut i: usize = 0;
        while i < statements.len()
            invariant
                i <= statements@.len(),
                statements@.len() == before.len(),
                before == old(statements)@,
                table == old(self).table(),
                old(self).scopes().len() > 0,
                scope == old(self).bindings(),
                forall|j: int| i <= j < before.len() ==> statements@[j] == before[j],
                statements_neutralized(before, statements@, i as int, scope, table),
                self.narrowed(old(self), done, scope_at(before, i as int, scope)),
                intersection(
                    done,
                    statements_demand(before, i as int, scope_at(before, i as int, scope), table),
                ) == statements_demand(before, 0, scope, table),
            decreases statements@.len() - i,
        {
            let ghost between = *self;
            let ghost previous = statements@;
            self.visit_statement(&mut statements[i]);
            proof {
                let step = statement_demand(before[i as int], between.bindings(), table);
                self.lemma_narrowed_twice(old(self), &between, done, step, self.bindings());
                lemma_statements_frame(before, previous, statements@, i as int, scope, table);
                done = intersection(done, step);
            }
            i += 1;
        }
    }

    /// Walks `block` in a scope of its own, takes what it demands into the
    /// scope around it, and makes the version checks inside it neutral.
    pub fn visit_block(&mut self, block: &mut Block)
        ensures
            final(self).merged(
                old(self),
                block_demand(*old(block), old(self).bindings(), old(self).table()),
            ),
            block_neutralized(*old(block), *final(block), old(self).bindings(), old(self).table()),
        decreases *old(block), 0int,
    {
        let ghost before = block.statements@;
        self.push();
        let ghost inside = *self;
        self.visit_statements(&mut block.statements);
        proof {
            lemma_scope_at_keeps_outer(before, before.len() as int, inside.bindings());
            assert(inside.bindings().drop_last() =~= old(self).bindings());
        }
        let ghost demand = statements_demand(before, 0, inside.bindings(), inside.table());
        self.pop();
        proof {
            assert(Self::narrow(inside.scopes(), demand).drop_last() =~= old(self).scopes());
        }
    }

    fn visit_branches(&mut self, branches: &mut Vec<IfBranch>)
        requires
            old(self).scopes().len() > 0,
        ensures
            final(self).narrowed(
                old(self),
                branches_demand(old(branches)@, 0, old(self).bindings(), old(self).table()),
                old(self).bindings(),
            ),
            branches_neutralized(
                old(branches)@,
                final(branches)@,
                old(branches)@.len() as int,
                old(self).bindings(),
                old(self).table(),
            ),
        decreases *old(branches), 0int,
    {
        let ghost before = branches@;
        let ghost scope = self.bindings();
        let ghost table = self.table();
        let ghost mut done = no_demand();
        proof {
            self.lemma_narrowed_by_nothing();
        }
        let mut i: usize = 0;
        while i < branches.len()
            invariant
                i <= branches@.len(),
                branches@.len() == before.len(),
                before == old(branches)@,
                scope == old(self).bindings(),
                table == old(self).table(),
                old(self).scopes().len() > 0,
                forall|j: int| i <= j < before.len() ==> branches@[j] == before[j],
                branches_neutralized(before, branches@, i as int, scope, table),
                self.narrowed(old(self), done, scope),
                intersection(done, branches_demand(before, i as int, scope, table))
                    == branches_demand(before, 0, scope, table),
            decreases branches@.len() - i,
        {
            let ghost first = *self;
            let ghost previous = branches@;
            let branch = &mut branches[i];
            self.visit_expression(&mut branch.condition);
            let ghost second = *self;
            self.visit_block(&mut branch.block);
            proof {
                let condition = expression_demand(before[i as int].condition, scope, table);
                let body = block_demand(before[i as int].block, scope, table);
                self.lemma_narrowed_twice(&first, &second, condition, body, scope);
                self.lemma_narrowed_twice(
                    old(self),
                    &first,
                    done,
                    intersection(condition, body),
                    scope,
                );
                lemma_branches_frame(before, previous, branches@, i as int, scope, table);
                assert(branch_demand(before[i as int], scope, table) == intersection(
                    condition,
                    body,
                ));
                assert(branch_neutralized(before[i as int], branches@[i as int], scope, table));
                done = intersection(done, intersection(condition, body));
            }
            i += 1;
        }
    }

    fn visit_if_statement(&mut self, conditional: &mut IfStatement)
        requires
            old(self).scopes().len() > 0,
            !is_version_check(*old(conditional), old(self).bindings(), old(self).table()),
        ensures
            final(self).narrowed(
                old(self),
                conditional_demand(*old(conditional), old(self).bindings(), old(self).table()),
                old(self).bindings(),
            ),
            conditional_neutralized(
                *old(conditional),
                *final(conditional),
                old(self).bindings(),
                old(self).table(),
            ),
        decreases *old(conditional), 0int,
    {
        let ghost scope = self.bindings();
        let ghost table = self.table();
        self.visit_branches(&mut conditional.branches);
        let ghost between = *self;
        match &mut conditional.else_block {
            Some(block) => {
                self.visit_block(block);
            },
            None => {
                proof {
                    self.lemma_narrowed_by_nothing();
                }
            },
        }
        proof {
            self.lemma_narrowed_twice(
                old(self),
                &between,
                branches_demand(old(conditional).branches@, 0, scope, table),
                else_demand(old(conditional).else_block, scope, table),
                scope,
            );
        }
    }

    fn visit_local_assign(&mut self, assign: &mut LocalAssignStatement)
        requires
            old(self).scopes().len() > 0,
        ensures
            final(self).narrowed(
                old(self),
                expressions_demand(old(assign).values@, 0, old(self).bindings(), old(self).table()),
                declared(
                    old(self).bindings(),
                    old(assign).variables@,
                    old(assign).values@,
                    old(assign).variables@.len() as int,
                ),
            ),
            final(assign).variables == old(assign).variables,
            expressions_neutralized(
                old(assign).values@,
                final(assign).values@,
                old(assign).values@.len() as int,
                old(self).bindings(),
                old(self).table(),
            ),
        decreases *old(assign), 0int,
    {
        let mut bindings: Vec<Binding> = Vec::new();
        let mut k: usize = 0;
        while k < assign.variables.len()
            invariant
                k <= assign.variables@.len(),
                bindings@.len() == k,
                forall|j: int|
                    0 <= j < k ==> (#[trigger] bindings@[j])@ == bound_at(assign.values@, j),
            decreases assign.variables@.len() - k,
        {
            let binding = if k < assign.values.len() {
                binding_of(&assign.values[k])
            } else {
                Binding::Opaque
            };
            bindings.push(binding);
            k += 1;
        }
        let ghost scope = self.bindings();
        let ghost demand = expressions_demand(assign.values@, 0, scope, self.table());
        self.visit_expressions(&mut assign.values);
        let mut k: usize = 0;
        while k < assign.variables.len()
            invariant
                k <= assign.variables@.len(),
                bindings@.len() == assign.variables@.len(),
                assign.variables == old(assign).variables,
                forall|j: int|
                    0 <= j < bindings@.len() ==> (#[trigger] bindings@[j])@ == bound_at(
                        old(assign).values@,
                        j,
                    ),
                self.narrowed(
                    old(self),
                    demand,
                    declared(scope, assign.variables@, old(assign).values@, k as int),
                ),
            decreases assign.variables@.len() - k,
        {
            self.declare_local(&assign.variables[k], copy_of(&bindings[k]));
            k += 1;
        }
    }

    /// Handles a version check: takes in the union of what its two blocks can
    /// run on, each walked by itself, and makes the conditional neutral. A
    /// version check without an `else` is made neutral and demands nothing.
    /// Says whether `statement` was one; any other statement is left alone.
    pub fn process_statement(&mut self, statement: &mut Statement) -> (handled: bool)
        ensures
            handled == (*old(statement) is If && is_version_check(
                old(statement)->If_0,
                old(self).bindings(),
                old(self).table(),
            )),
            handled ==> (*final(statement) matches Statement::If(changed) && cleared(
                old(statement)->If_0,
                changed,
            )),
            handled ==> final(self).merged_if(
                old(self),
                version_check_demand(old(statement)->If_0, old(self).table()),
            ),
            !handled ==> *final(statement) == *old(statement) && final(self).with(
                old(self),
                old(self).scopes(),
                old(self).root(),
                old(self).bindings(),
            ),
        decreases *old(statement), 0int,
    {
        match statement {
            Statement::If(if_statement) => {
                if if_statement.branches.len() != 1 {
                    return false;
                }
                let mut has_call_to_function_visitor = HasCallToFunctionVisitor::new(
                    self.version_file.sdk_version_function.clone(),
                    &self.variable_scope,
                );
                has_call_to_function_visitor.visit_expression(&if_statement.branches[0].condition);
                if !has_call_to_function_visitor.has_call_to_function() {
                    return false;
                }
                if if_statement.else_block.is_some() {
                    let mut temp_visitor = VersionResolver::new(self.version_file);
                    temp_visitor.visit_block(&mut if_statement.branches[0].block);
                    let if_ver = temp_visitor.sdk_version();

                    let mut temp_visitor = VersionResolver::new(self.version_file);
                    match &mut if_statement.else_block {
                        Some(else_block) => temp_visitor.visit_block(else_block),
                        None => {},
                    }
                    let else_ver = temp_visitor.sdk_version();

                    self.update_last_scope_data(SdkVersionOut::sdk_version_union(if_ver, else_ver));
                }
                clear_if_statement(if_statement);
                true
            },
            _ => false,
        }
    }

    fn visit_statement(&mut self, statement: &mut Statement)
        requires
            old(self).scopes().len() > 0,
        ensures
            final(self).narrowed(
                old(self),
                statement_demand(*old(statement), old(self).bindings(), old(self).table()),
                scope_after(*old(statement), old(self).bindings()),
            ),
            statement_neutralized(
                *old(statement),
                *final(statement),
                old(self).bindings(),
                old(self).table(),
            ),
        decreases *old(statement), 1int,
    {
        let ghost scope = self.bindings();
        let ghost table = self.table();
        if self.process_statement(statement) {
            proof {
                self.lemma_merged_narrows(
                    old(self),
                    version_check_demand(old(statement)->If_0, table),
                );
            }
            return ;
        }
        match statement {
            Statement::Call(call) => {
                self.visit_function_call(call);
            },
            Statement::If(conditional) => {
                self.visit_if_statement(conditional);
            },
            Statement::LocalAssign(assign) => {
                self.visit_local_assign(assign);
            },
            Statement::Nested { expressions, block } => {
                self.visit_expressions(expressions);
                let ghost between = *self;
                self.visit_block(block);
                proof {
                    let body = block_demand(old(statement)->Nested_block, scope, table);
                    self.lemma_narrowed_twice(
                        old(self),
                        &between,
                        expressions_demand(old(statement)->Nested_expressions@, 0, scope, table),
                        body,
                        scope,
                    );
                }
            },
            Statement::Repeat { block, condition } => {
                let ghost before = block.statements@;
                self.push();
                let ghost inside = *self;
                self.visit_statements(&mut block.statements);
                let ghost between = *self;
                self.visit_expression(condition);
                proof {
                    let body = statements_demand(before, 0, inside.bindings(), table);
                    let last = expression_demand(
                        old(statement)->Repeat_condition,
                        between.bindings(),
                        table,
                    );
                    self.lemma_narrowed_twice(&inside, &between, body, last, between.bindings());
                    lemma_scope_at_keeps_outer(before, before.len() as int, inside.bindings());
                    assert(inside.bindings().drop_last() =~= scope);
                    assert(Self::narrow(inside.scopes(), intersection(body, last)).drop_last()
                        =~= old(self).scopes());
                }
                self.pop();
                proof {
                    let body = statements_demand(before, 0, inside.bindings(), table);
                    let last = expression_demand(
                        old(statement)->Repeat_condition,
                        between.bindings(),
                        table,
                    );
                    assert(self.scopes() =~= Self::narrow(
                        old(self).scopes(),
                        intersection(table.default_interval(), intersection(body, last)),
                    ));
                }
            },
            Statement::Other(expressions) => {
                self.visit_expressions(expressions);
            },
        }
    }
}

/// Declaring a variable in a scope leaves the scopes around it as they are.
proof fn lemma_declared_keeps_outer(
    scope: Seq<Frame>,
    variables: Seq<String>,
    values: Seq<Expression>,
    count: int,
)
    requires
        scope.len() > 0,
    ensures
        declared(scope, variables, values, count).len() == scope.len(),
        declared(scope, variables, values, count).drop_last() == scope.drop_last(),
    decreases count,
{
    if 0 < count <= variables.len() {
        lemma_declared_keeps_outer(scope, variables, values, count - 1);
    }
}

/// The statements of a block leave the scopes around the block as they are.
proof fn lemma_scope_at_keeps_outer(statements: Seq<Statement>, count: int, scope: Seq<Frame>)
    requires
        scope.len() > 0,
    ensures
        scope_at(statements, count, scope).len() == scope.len(),
        scope_at(statements, count, scope).drop_last() == scope.drop_last(),
    decreases count,
{
    if 0 < count <= statements.len() {
        lemma_scope_at_keeps_outer(statements, count - 1, scope);
        let inner = scope_at(statements, count - 1, scope);
        match statements[count - 1] {
            Statement::LocalAssign(assign) => {
                lemma_declared_keeps_outer(
                    inner,
                    assign.variables@,
                    assign.values@,
                    assign.variables@.len() as int,
                );
            },
            _ => {},
        }
    }
}

} // verus!
