//! Collects the modules that a module imports.

use crate::nodes::{
    Arguments, Block, Expression, FunctionCall, IfBranch, IfStatement, Statement,
};
use crate::utils::{normalize_path_with_current_dir, normalized, texts};
use vstd::prelude::*;
use vstd::string::*;

verus! {

/// The name of the function that imports a module.
pub open spec fn require_function_identifier() -> Seq<char> {
    "require"@
}

/// Whether `call` calls the import function: not as a method, and by its bare
/// name.
pub open spec fn names_require(call: FunctionCall) -> bool {
    call.method is None && match call.prefix {
        Expression::Identifier(name) => name@ == require_function_identifier(),
        _ => false,
    }
}

/// The string that `call` is given, if it is given one string literal and
/// nothing else, with or without parentheses.
pub open spec fn literal_argument(call: FunctionCall) -> Option<Seq<char>> {
    match call.arguments {
        Arguments::String(text) => Some(text@),
        Arguments::Tuple(values) => if values@.len() == 1 {
            match values@[0] {
                Expression::String(text) => Some(text@),
                _ => None,
            }
        } else {
            None
        },
        Arguments::Table(_) => None,
    }
}

/// The normalized path that `call` is given as its one string literal.
pub open spec fn path_argument(call: FunctionCall) -> Option<Seq<char>> {
    match literal_argument(call) {
        Some(text) => Some(normalized(text, true)),
        None => None,
    }
}

/// The paths that `call` itself imports: one if it is an import of a literal
/// path, none otherwise.
pub open spec fn imported_by(call: FunctionCall) -> Seq<Seq<char>> {
    if names_require(call) && path_argument(call) is Some {
        seq![path_argument(call)->0]
    } else {
        Seq::empty()
    }
}

/// The paths imported inside `expression`, in source order.
pub open spec fn expression_imports(expression: Expression) -> Seq<Seq<char>>
    decreases expression,
{
    match expression {
        Expression::Identifier(_) => Seq::empty(),
        Expression::Field(field) => expression_imports(field.prefix),
        Expression::Call(call) => function_call_imports(*call),
        Expression::String(_) => Seq::empty(),
        Expression::True => Seq::empty(),
        Expression::Function(block) => block_imports(*block),
        Expression::Other(inner) => expressions_imports(inner@, 0),
    }
}

/// The paths imported inside `expressions` from index `from` on.
pub open spec fn expressions_imports(expressions: Seq<Expression>, from: int) -> Seq<Seq<char>>
    decreases expressions, expressions.len() - from,
{
    if 0 <= from < expressions.len() {
        expression_imports(expressions[from]) + expressions_imports(expressions, from + 1)
    } else {
        Seq::empty()
    }
}

/// The paths imported by `call`, then inside its callee, then inside its
/// arguments.
pub open spec fn function_call_imports(call: FunctionCall) -> Seq<Seq<char>>
    decreases call,
{
    imported_by(call) + expression_imports(call.prefix) + match call.arguments {
        Arguments::String(_) => Seq::empty(),
        Arguments::Tuple(values) => expressions_imports(values@, 0),
        Arguments::Table(values) => expressions_imports(values@, 0),
    }
}

/// The paths imported inside `block`, in source order.
pub open spec fn block_imports(block: Block) -> Seq<Seq<char>>
    decreases block,
{
    statements_imports(block.statements@, 0)
}

/// The paths imported inside `statements` from index `from` on.
pub open spec fn statements_imports(statements: Seq<Statement>, from: int) -> Seq<Seq<char>>
    decreases statements, statements.len() - from,
{
    if 0 <= from < statements.len() {
        statement_imports(statements[from]) + statements_imports(statements, from + 1)
    } else {
        Seq::empty()
    }
}

/// The paths imported inside the condition of `branch`, then inside its block.
pub open spec fn branch_imports(branch: IfBranch) -> Seq<Seq<char>>
    decreases branch,
{
    expression_imports(branch.condition) + block_imports(branch.block)
}

/// The paths imported inside `branches` from index `from` on.
pub open spec fn branches_imports(branches: Seq<IfBranch>, from: int) -> Seq<Seq<char>>
    decreases branches, branches.len() - from,
{
    if 0 <= from < branches.len() {
        branch_imports(branches[from]) + branches_imports(branches, from + 1)
    } else {
        Seq::empty()
    }
}

/// The paths imported inside `statement`, in source order.
pub open spec fn statement_imports(statement: Statement) -> Seq<Seq<char>>
    decreases statement,
{
    match statement {
        Statement::Call(call) => function_call_imports(call),
        Statement::If(conditional) => branches_imports(conditional.branches@, 0)
            + match conditional.else_block {
            Some(block) => block_imports(block),
            None => Seq::empty(),
        },
        Statement::LocalAssign(assign) => expressions_imports(assign.values@, 0),
        Statement::Nested { expressions, block } => expressions_imports(expressions@, 0)
            + block_imports(block),
        Statement::Repeat { block, condition } => expression_imports(condition) + block_imports(
            block,
        ),
        Statement::Other(expressions) => expressions_imports(expressions@, 0),
    }
}

/// Where the imports of one module lead: for each literal path that could be
/// located, the canonical path of the file it names.
#[derive(Debug, PartialEq, Eq)]
pub struct RequireLocations {
    located: Vec<(String, String)>,
}

/// The file that the first entry of `entries` for `literal` names.
pub open spec fn location_of(entries: Seq<(Seq<char>, Seq<char>)>, literal: Seq<char>) -> Option<
    Seq<char>,
>
    decreases entries.len(),
{
    if entries.len() == 0 {
        None
    } else if entries[0].0 == literal {
        Some(entries[0].1)
    } else {
        location_of(entries.drop_first(), literal)
    }
}

/// The files that those of `literals` name which can be located, in order.
pub open spec fn targets(literals: Seq<Seq<char>>, entries: Seq<(Seq<char>, Seq<char>)>) -> Seq<
    Seq<char>,
>
    decreases literals.len(),
{
    if literals.len() == 0 {
        Seq::empty()
    } else {
        let rest = targets(literals.drop_last(), entries);
        match location_of(entries, literals.last()) {
            Some(target) => rest.push(target),
            None => rest,
        }
    }
}

/// Those of `literals` that cannot be located, in order.
pub open spec fn misses(literals: Seq<Seq<char>>, entries: Seq<(Seq<char>, Seq<char>)>) -> Seq<
    Seq<char>,
>
    decreases literals.len(),
{
    if literals.len() == 0 {
        Seq::empty()
    } else {
        let rest = misses(literals.drop_last(), entries);
        match location_of(entries, literals.last()) {
            Some(_) => rest,
            None => rest.push(literals.last()),
        }
    }
}

/// Locating a list of literals piece by piece gives the same as locating it
/// whole.
pub proof fn lemma_located_in_pieces(
    first: Seq<Seq<char>>,
    second: Seq<Seq<char>>,
    entries: Seq<(Seq<char>, Seq<char>)>,
)
    ensures
        targets(first + second, entries) == targets(first, entries) + targets(second, entries),
        misses(first + second, entries) == misses(first, entries) + misses(second, entries),
    decreases second.len(),
{
    if second.len() > 0 {
        lemma_located_in_pieces(first, second.drop_last(), entries);
        assert((first + second).drop_last() =~= first + second.drop_last());
    }
}

/// Where nothing can be located, every literal is a miss.
pub proof fn lemma_nothing_located(literals: Seq<Seq<char>>)
    ensures
        targets(literals, Seq::empty()) == Seq::<Seq<char>>::empty(),
        misses(literals, Seq::empty()) == literals,
    decreases literals.len(),
{
    if literals.len() > 0 {
        lemma_nothing_located(literals.drop_last());
    }
}

impl View for RequireLocations {
    type V = Seq<(Seq<char>, Seq<char>)>;

    closed spec fn view(&self) -> Seq<(Seq<char>, Seq<char>)> {
        Seq::new(self.located@.len(), |i: int| (self.located@[i].0@, self.located@[i].1@))
    }
}

impl RequireLocations {
    /// Nothing located.
    pub fn new() -> (locations: Self)
        ensures
            locations@ == Seq::<(Seq<char>, Seq<char>)>::empty(),
    {
        let locations = RequireLocations { located: Vec::new() };
        locations
    }

    /// Records that `literal` names the file `target`. An earlier entry for
    /// the same literal stays in force.
    pub fn insert(&mut self, literal: String, target: String)
        ensures
            final(self)@ == old(self)@.push((literal@, target@)),
    {
        self.located.push((literal, target));
    }

    /// The file that `literal` names.
    pub fn find_require_path(&self, literal: &String) -> (target: Option<&String>)
        ensures
            target is Some <==> location_of(self@, literal@) is Some,
            target is Some ==> target->0@ == location_of(self@, literal@)->0,
    {
        let mut i: usize = 0;
        assert(self@.skip(0) =~= self@);
        while i < self.located.len()
            invariant
                i <= self.located@.len(),
                location_of(self@, literal@) == location_of(self@.skip(i as int), literal@),
            decreases self.located@.len() - i,
        {
            assert(self@.skip(i as int).drop_first() =~= self@.skip(i + 1));
            if self.located[i].0 == *literal {
                return Some(&self.located[i].1);
            }
            i += 1;
        }
        None
    }
}

fn is_require_call(call: &FunctionCall) -> (is_require: bool)
    ensures
        is_require == names_require(*call),
{
    if call.method.is_some() {
        return false;
    }
    match &call.prefix {
        Expression::Identifier(identifier) => *identifier == String::from_str("require"),
        _ => false,
    }
}

/// The normalized path that `call` is given as its one string literal.
pub fn match_path_require_call(call: &FunctionCall) -> (path: Option<String>)
    ensures
        path is Some <==> path_argument(*call) is Some,
        path is Some ==> path->0@ == path_argument(*call)->0,
{
    match &call.arguments {
        Arguments::String(text) => Some(normalize_path_with_current_dir(text.as_str())),
        Arguments::Tuple(values) => {
            if values.len() == 1 {
                match &values[0] {
                    Expression::String(text) => Some(
                        normalize_path_with_current_dir(text.as_str()),
                    ),
                    _ => None,
                }
            } else {
                None
            }
        },
        Arguments::Table(_) => None,
    }
}

/// Walks a module's tree and collects, for every import of a literal path,
/// the file it names, or the literal if no file could be located.
#[derive(Debug)]
pub struct RequireDependencyProcessor<'a> {
    depends_on: Vec<String>,
    current_file_path: String,
    require_path_locator: &'a RequireLocations,
    errors: Vec<String>,
}

impl<'a> RequireDependencyProcessor<'a> {
    /// The files found so far, in the order of their imports.
    pub closed spec fn dependencies(&self) -> Seq<Seq<char>> {
        texts(self.depends_on@)
    }

    /// The literal paths seen so far that name no file that could be located.
    pub closed spec fn failures(&self) -> Seq<Seq<char>> {
        texts(self.errors@)
    }

    /// Where imports lead.
    pub closed spec fn locations(&self) -> Seq<(Seq<char>, Seq<char>)> {
        self.require_path_locator@
    }

    /// The path of the module that is being read.
    pub closed spec fn current_file(&self) -> Seq<char> {
        self.current_file_path@
    }

    /// Whether `self` is `before` after the literal paths `imported` came in.
    pub open spec fn after(&self, before: &Self, imported: Seq<Seq<char>>) -> bool {
        &&& self.locations() == before.locations()
        &&& self.current_file() == before.current_file()
        &&& self.dependencies() == before.dependencies() + targets(imported, before.locations())
        &&& self.failures() == before.failures() + misses(imported, before.locations())
    }

    /// A collector for the module at `current_file_path`, with nothing
    /// collected yet.
    pub fn new(current_file_path: String, require_path_locator: &'a RequireLocations) -> (processor:
        Self)
        ensures
            processor.dependencies() == Seq::<Seq<char>>::empty(),
            processor.failures() == Seq::<Seq<char>>::empty(),
            processor.locations() == require_path_locator@,
            processor.current_file() == current_file_path@,
    {
        let processor = Self {
            depends_on: Vec::new(),
            current_file_path,
            require_path_locator,
            errors: Vec::new(),
        };
        processor
    }

    fn require_call(&self, call: &FunctionCall) -> (path: Option<String>)
        ensures
            path is Some <==> imported_by(*call).len() == 1,
            path is Some ==> imported_by(*call) == seq![path->0@],
            path is None ==> imported_by(*call).len() == 0,
    {
        if is_require_call(call) {
            match_path_require_call(call)
        } else {
            None
        }
    }

    fn process(&mut self, call: &FunctionCall)
        ensures
            final(self).after(old(self), imported_by(*call)),
    {
        let ghost entries = self.locations();
        let ghost imported = imported_by(*call);
        match self.require_call(call) {
            None => {
            },
            Some(literal_require_path) => {
                assert(targets(imported.drop_last(), entries) =~= Seq::<Seq<char>>::empty());
                assert(misses(imported.drop_last(), entries) =~= Seq::<Seq<char>>::empty());
                match self.require_path_locator.find_require_path(&literal_require_path) {
                    Some(target) => {
                        self.depends_on.push(target.clone());
                        assert(self.dependencies() =~= old(self).dependencies() + targets(
                            imported,
                            entries,
                        ));
                    },
                    None => {
                        self.errors.push(literal_require_path);
                        assert(self.failures() =~= old(self).failures() + misses(
                            imported,
                            entries,
                        ));
                    },
                }
            },
        }
    }

    /// The files found so far, in the order of their imports.
    pub fn deps(&self) -> (dependencies: &Vec<String>)
        ensures
            texts(dependencies@) == self.dependencies(),
    {
        &self.depends_on
    }

    /// The literal paths seen so far that lead to no file.
    pub fn errors(&self) -> (failures: &Vec<String>)
        ensures
            texts(failures@) == self.failures(),
    {
        &self.errors
    }

    /// What was collected: the files found, then the literal paths that led
    /// nowhere.
    pub fn into_parts(self) -> (parts: (Vec<String>, Vec<String>))
        ensures
            texts(parts.0@) == self.dependencies(),
            texts(parts.1@) == self.failures(),
    {
        (self.depends_on, self.errors)
    }

    /// Two walks in a row amount to one walk over both.
    proof fn lemma_after_both(
        &self,
        before: &Self,
        between: &Self,
        first: Seq<Seq<char>>,
        second: Seq<Seq<char>>,
    )
        requires
            between.after(before, first),
            self.after(between, second),
        ensures
            self.after(before, first + second),
    {
        lemma_located_in_pieces(first, second, before.locations());
        assert(self.dependencies() =~= before.dependencies() + targets(
            first + second,
            before.locations(),
        ));
        assert(self.failures() =~= before.failures() + misses(first + second, before.locations()));
    }

    /// Walks `expression` and everything inside it.
    pub fn visit_expression(&mut self, expression: &Expression)
        ensures
            final(self).after(old(self), expression_imports(*expression)),
        decreases expression,
    {
        match expression {
            Expression::Identifier(_) => {
            },
            Expression::Field(field) => self.visit_expression(&field.prefix),
            Expression::Call(call) => self.visit_function_call(call),
            Expression::String(_) => {
            },
            Expression::True => {
            },
            Expression::Function(block) => self.visit_block(block),
            Expression::Other(inner) => self.visit_expressions(inner),
        }
    }

    fn visit_expressions(&mut self, expressions: &Vec<Expression>)
        ensures
            final(self).after(old(self), expressions_imports(expressions@, 0)),
        decreases expressions,
    {
        let ghost mut done = Seq::<Seq<char>>::empty();
        let mut i: usize = 0;
        while i < expressions.len()
            invariant
                i <= expressions@.len(),
                self.after(old(self), done),
                done + expressions_imports(expressions@, i as int) == expressions_imports(
                    expressions@,
                    0,
                ),
            decreases expressions@.len() - i,
        {
            let ghost between = *self;
            self.visit_expression(&expressions[i]);
            proof {
                let step = expression_imports(expressions@[i as int]);
                self.lemma_after_both(old(self), &between, done, step);
                done = done + step;
            }
            i += 1;
        }
    }

    fn visit_function_call(&mut self, call: &FunctionCall)
        ensures
            final(self).after(old(self), function_call_imports(*call)),
        decreases call,
    {
        self.process(call);
        self.visit_expression(&call.prefix);
        let ghost second = *self;
        let ghost head = imported_by(*call) + expression_imports(call.prefix);
        match &call.arguments {
            Arguments::String(_) => {
            },
            Arguments::Tuple(values) => {
                self.visit_expressions(values);
                proof {
                    self.lemma_after_both(
                        old(self),
                        &second,
                        head,
                        expressions_imports(values@, 0),
                    );
                }
            },
            Arguments::Table(values) => {
                self.visit_expressions(values);
                proof {
                    self.lemma_after_both(
                        old(self),
                        &second,
                        head,
                        expressions_imports(values@, 0),
                    );
                }
            },
        }
    }

    /// Walks the statements of `block` and everything inside them.
    pub fn visit_block(&mut self, block: &Block)
        ensures
            final(self).after(old(self), block_imports(*block)),
        decreases block,
    {
        let ghost mut done = Seq::<Seq<char>>::empty();
        let mut i: usize = 0;
        while i < block.statements.len()
            invariant
                i <= block.statements@.len(),
                self.after(old(self), done),
                done + statements_imports(block.statements@, i as int) == statements_imports(
                    block.statements@,
                    0,
                ),
            decreases block.statements@.len() - i,
        {
            let ghost between = *self;
            self.visit_statement(&block.statements[i]);
            proof {
                let step = statement_imports(block.statements@[i as int]);
                self.lemma_after_both(old(self), &between, done, step);
                done = done + step;
            }
            i += 1;
        }
    }

    fn visit_if_statement(&mut self, conditional: &IfStatement)
        ensures
            final(self).after(old(self), statement_imports(Statement::If(*conditional))),
        decreases conditional,
    {
        let ghost mut done = Seq::<Seq<char>>::empty();
        let mut i: usize = 0;
        while i < conditional.branches.len()
            invariant
                i <= conditional.branches@.len(),
                self.after(old(self), done),
                done + branches_imports(conditional.branches@, i as int) == branches_imports(
                    conditional.branches@,
                    0,
                ),
            decreases conditional.branches@.len() - i,
        {
            let ghost first = *self;
            self.visit_expression(&conditional.branches[i].condition);
            let ghost second = *self;
            self.visit_block(&conditional.branches[i].block);
            proof {
                let branch = conditional.branches@[i as int];
                let condition = expression_imports(branch.condition);
                let body = block_imports(branch.block);
                second.lemma_after_both(old(self), &first, done, condition);
                self.lemma_after_both(old(self), &second, done + condition, body);
                assert((done + condition) + body =~= done + branch_imports(branch));
                done = done + branch_imports(branch);
            }
            i += 1;
        }
        match &conditional.else_block {
            Some(block) => {
                let ghost between = *self;
                self.visit_block(block);
                proof {
                    self.lemma_after_both(old(self), &between, done, block_imports(*block));
                }
            },
            None => {},
        }
    }

    fn visit_statement(&mut self, statement: &Statement)
        ensures
            final(self).after(old(self), statement_imports(*statement)),
        decreases statement,
    {
        match statement {
            Statement::Call(call) => self.visit_function_call(call),
            Statement::If(conditional) => self.visit_if_statement(conditional),
            Statement::LocalAssign(assign) => self.visit_expressions(&assign.values),
            Statement::Nested { expressions, block } => {
                self.visit_expressions(expressions);
                let ghost between = *self;
                self.visit_block(block);
                proof {
                    self.lemma_after_both(
                        old(self),
                        &between,
                        expressions_imports(expressions@, 0),
                        block_imports(*block),
                    );
                }
            },
            Statement::Repeat { block, condition } => {
                self.visit_expression(condition);
                let ghost between = *self;
                self.visit_block(block);
                proof {
                    self.lemma_after_both(
                        old(self),
                        &between,
                        expression_imports(*condition),
                        block_imports(*block),
                    );
                }
            },
            Statement::Other(expressions) => self.visit_expressions(expressions),
        }
    }
}

/// The literal paths that `block` imports, normalized, in source order.
pub fn required_paths(block: &Block) -> (paths: Vec<String>)
    ensures
        texts(paths@) == block_imports(*block),
{
    let nowhere = RequireLocations::new();
    let mut processor = RequireDependencyProcessor::new(String::new(), &nowhere);
    processor.visit_block(block);
    proof {
        lemma_nothing_located(block_imports(*block));
    }
    processor.errors
}

} // verus!
