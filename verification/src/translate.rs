use crate::ast::{models, texts, Expr, ExprView};
use crate::handles::{lemma_handles_unique_later, lemma_lower_block_wf};
use crate::ir::{BinaryOp, Ebb, Op, Value, Variable};
use crate::literal::parse_i32;
use crate::lower::{
    lemma_declare_all_depth, lemma_lower_depth, lower, lower_block, lower_from, lower_function,
    LowerError, State,
};
use crate::scope::ScopeChain;
use vstd::prelude::*;

verus! {

/// A finished program: the operations of its top-level unit and of the
/// function units nested in it, with the names that the units are
/// published under.
pub struct Program {
    pub ops: Vec<Op>,
    pub symbols: Vec<String>,
}

/// A [`Program`] as a mathematical value.
pub struct ProgramView {
    pub ops: Seq<Op>,
    pub symbols: Seq<Seq<char>>,
}

impl View for Program {
    type V = ProgramView;

    open spec fn view(&self) -> ProgramView {
        ProgramView { ops: self.ops@, symbols: texts(self.symbols@) }
    }
}

/// The program that a list of top-level expressions is lowered to: the
/// expressions as a block, from the initial state, and a return of the
/// block's value.
pub open spec fn compile(items: Seq<ExprView>) -> Result<ProgramView, LowerError> {
    let lowered = lower_block(items, None, State::initial());
    match lowered.result {
        Ok(value) => Ok(
            ProgramView {
                ops: lowered.state.ops.push(Op::Return { value }),
                symbols: lowered.state.symbols,
            },
        ),
        Err(error) => Err(error),
    }
}

/// Lowers a list of top-level expressions to a program that returns the
/// value of the last one.
pub fn lower_program(items: &Vec<Expr>) -> (result: Result<Program, LowerError>)
    ensures
        match result {
            Ok(program) => compile(models(items@)) == Ok::<ProgramView, LowerError>(program@),
            Err(error) => compile(models(items@)) == Err::<ProgramView, LowerError>(error),
        },
{
    let mut translator = Translator::new();
    match translator.translate_block_expressions(items, None) {
        Ok(value) => Ok(translator.finish(value)),
        Err(error) => Err(error),
    }
}

/// Lowers a list of top-level expressions and runs the program on the
/// reference machine. What the program returns is what its expressions
/// mean, if no function literal is assigned in them.
pub fn run_program(items: &Vec<Expr>) -> (result: Result<Option<i64>, LowerError>)
    ensures
        match result {
            Ok(returned) => compile(models(items@)) matches Ok(program) && returned
                == crate::machine::result_of(program.ops) && ((forall|i: int|
                0 <= i < items.len() ==> crate::execution::first_order(
                    #[trigger] models(items@)[i],
                )) ==> returned == crate::meaning::value_of(models(items@))),
            Err(error) => compile(models(items@)) == Err::<ProgramView, LowerError>(error),
        },
{
    match lower_program(items) {
        Ok(program) => {
            let returned = crate::machine::evaluate(&program.ops);
            proof {
                if forall|i: int|
                    0 <= i < items.len() ==> crate::execution::first_order(
                        #[trigger] models(items@)[i],
                    ) {
                    crate::correct::law_program_returns_its_meaning(models(items@));
                }
            }
            Ok(returned)
        },
        Err(error) => Err(error),
    }
}

/// A lowering session: walks expression trees and emits the operations
/// that build their code, resolving names through nested scopes.
pub struct Translator {
    ops: Vec<Op>,
    symbols: Vec<String>,
    scopes: ScopeChain,
    next_variable_index: usize,
}

impl View for Translator {
    type V = State;

    closed spec fn view(&self) -> State {
        State {
            ops: self.ops@,
            symbols: texts(self.symbols@),
            scopes: self.scopes@,
            next_variable_index: self.next_variable_index as nat,
        }
    }
}

impl Translator {
    /// Whether the session is in a state that its operations keep up.
    pub open spec fn wf(&self) -> bool {
        self@.wf()
    }

    /// A session that has not lowered anything.
    pub fn new() -> (translator: Translator)
        ensures
            translator@ == State::initial(),
            translator.wf(),
    {
        let translator = Translator {
            ops: Vec::new(),
            symbols: Vec::new(),
            scopes: ScopeChain::new(),
            next_variable_index: 0,
        };
        assert(translator@.symbols =~= Seq::<Seq<char>>::empty());
        translator
    }

    /// The operations emitted so far.
    pub fn ops(&self) -> (ops: &Vec<Op>)
        ensures
            ops@ == self@.ops,
    {
        &self.ops
    }

    /// The names of the function units begun so far.
    pub fn symbols(&self) -> (symbols: &Vec<String>)
        ensures
            texts(symbols@) == self@.symbols,
    {
        &self.symbols
    }

    /// The index that the next declared variable gets.
    pub fn next_variable_index(&self) -> (index: usize)
        ensures
            index == self@.next_variable_index,
    {
        self.next_variable_index
    }

    /// The number of open scopes.
    pub fn depth(&self) -> (depth: usize)
        ensures
            depth == self@.scopes.len(),
    {
        self.scopes.depth()
    }

    /// Ends the session with a return of `value` and hands out what it
    /// emitted.
    pub fn finish(self, value: Value) -> (program: Program)
        requires
            self.wf(),
        ensures
            program@ == (ProgramView {
                ops: self@.ops.push(Op::Return { value }),
                symbols: self@.symbols,
            }),
    {
        let mut ops = self.ops;
        ops.push(Op::Return { value });
        Program { ops, symbols: self.symbols }
    }

    /// Emits one operation. The value is the one that the operation
    /// defines, if it defines one.
    pub fn emit(&mut self, op: Op) -> (value: Value)
        requires
            old(self).wf(),
        ensures
            final(self).wf(),
            final(self)@ == old(self)@.emit(op),
            value == old(self)@.next_value(),
    {
        let value = Value { def: self.ops.len() };
        self.ops.push(op);
        assert(self.ops.len() <= usize::MAX);
        value
    }

    /// Declares a variable for `name` in the innermost scope.
    pub fn declare_variable(&mut self, name: &str) -> (variable: Variable)
        requires
            old(self).wf(),
        ensures
            final(self).wf(),
            final(self)@ == old(self)@.declare(name@),
            variable.index == old(self)@.next_variable_index,
    {
        let variable = Variable::new(self.next_variable_index);
        self.ops.push(Op::DeclareVar { var: variable });
        assert(self.ops.len() <= usize::MAX);
        self.next_variable_index += 1;
        self.scopes.bind(name.to_owned(), variable);
        variable
    }

    /// Declares a variable for each of `names`, in order.
    pub fn declare_variables(&mut self, names: &Vec<String>) -> (variables: Vec<Variable>)
        requires
            old(self).wf(),
        ensures
            final(self).wf(),
            final(self)@ == old(self)@.declare_all(texts(names@), 0),
            variables.len() == names.len(),
            forall|i: int|
                0 <= i < names.len() ==> (#[trigger] variables[i]).index == old(
                    self,
                )@.next_variable_index + i,
    {
        let mut variables: Vec<Variable> = Vec::new();
        let mut i: usize = 0;
        while i < names.len()
            invariant
                i <= names.len(),
                self.wf(),
                old(self)@.declare_all(texts(names@), 0) == self@.declare_all(
                    texts(names@),
                    i as nat,
                ),
                self@.next_variable_index == old(self)@.next_variable_index + i,
                variables.len() == i,
                forall|j: int|
                    0 <= j < i ==> (#[trigger] variables[j]).index == old(
                        self,
                    )@.next_variable_index + j,
            decreases names.len() - i,
        {
            let variable = self.declare_variable(names[i].as_str());
            variables.push(variable);
            i += 1;
        }
        variables
    }

    /// Resolves `name`, searching from the innermost scope outwards.
    pub fn lookup_variable(&self, name: &str) -> (found: Option<Variable>)
        ensures
            found == crate::scope::resolve(self@.scopes, name@),
    {
        self.scopes.lookup(name)
    }

    /// The variable that an assignment to `name` writes: the one that
    /// `name` resolves to, else a newly declared one.
    pub fn resolve_or_declare(&mut self, name: &str) -> (variable: Variable)
        requires
            old(self).wf(),
        ensures
            final(self).wf(),
            (final(self)@, variable) == old(self)@.resolve_or_declare(name@),
    {
        match self.lookup_variable(name) {
            Some(variable) => variable,
            None => self.declare_variable(name),
        }
    }
    /// Lowers a function literal that is assigned to `name`: begins a
    /// function unit, takes over its parameters, lowers the body and
    /// returns its value, finishes and publishes the unit, and yields its
    /// address in the enclosing unit.
    pub fn translate_function(&mut self, name: &str, params: &Vec<String>, body: &Expr) -> (result:
        Result<Value, LowerError>)
        requires
            old(self).wf(),
        ensures
            final(self).wf(),
            final(self)@ == lower_function(name@, texts(params@), body@, old(self)@).state,
            result == lower_function(name@, texts(params@), body@, old(self)@).result,
        decreases body, 1nat,
    {
        match body {
            Expr::Block(items) => {
                let unit = self.ops.len();
                let symbol = self.symbols.len();
                self.ops.push(Op::BeginFunction { params: params.len() });
                assert(self.ops.len() <= usize::MAX);
                self.symbols.push(name.to_owned());
                let mut enclosing = ScopeChain::new();
                std::mem::swap(&mut self.scopes, &mut enclosing);
                let ghost begun = self@;
                assert(begun.symbols =~= old(self)@.symbols.push(name@));
                let mut i: usize = 0;
                while i < params.len()
                    invariant
                        i <= params.len(),
                        self.wf(),
                        begun.seed_params(texts(params@), 0) == self@.seed_params(
                            texts(params@),
                            i as nat,
                        ),
                        self@.next_variable_index >= begun.next_variable_index,
                    decreases params.len() - i,
                {
                    let incoming = self.emit(Op::Param { index: i });
                    let variable = self.declare_variable(params[i].as_str());
                    self.emit(Op::DefVar { var: variable, value: incoming });
                    i += 1;
                }
                assert(body.model()->Block_0 == models(items@));
                let ghost seeded = self@;
                let value = self.translate_block_expressions(items, None)?;
                self.emit(Op::Return { value });
                self.emit(Op::Finalize);
                std::mem::swap(&mut self.scopes, &mut enclosing);
                proof {
                    lemma_lower_block_wf(models(items@), None, seeded);
                    lemma_handles_unique_later(
                        old(self)@.scopes,
                        old(self)@.next_variable_index,
                        self@.next_variable_index,
                    );
                }
                self.emit(Op::Publish { unit, symbol });
                Ok(self.emit(Op::FuncAddr { unit }))
            },
            _ => Err(LowerError::MalformedFunctionBody),
        }
    }

    /// Lowers the expressions of a block in a scope of their own, in which
    /// the names of `with_variables` are declared first. The value is that
    /// of the last expression; an empty block yields the constant zero.
    pub fn translate_block_expressions(
        &mut self,
        expressions: &Vec<Expr>,
        with_variables: Option<&Vec<String>>,
    ) -> (result: Result<Value, LowerError>)
        requires
            old(self).wf(),
        ensures
            final(self).wf(),
            final(self)@ == lower_block(
                models(expressions@),
                match with_variables {
                    Some(names) => Some(texts(names@)),
                    None => None,
                },
                old(self)@,
            ).state,
            result == lower_block(
                models(expressions@),
                match with_variables {
                    Some(names) => Some(texts(names@)),
                    None => None,
                },
                old(self)@,
            ).result,
        decreases expressions, 1nat,
    {
        let ghost items = models(expressions@);
        let ghost whole = lower_block(
            items,
            match with_variables {
                Some(names) => Some(texts(names@)),
                None => None,
            },
            old(self)@,
        );
        self.scopes.enter();
        if let Some(names) = with_variables {
            proof {
                lemma_declare_all_depth(self@, texts(names@), 0);
            }
            self.declare_variables(names);
        }
        let ghost opened = self@;
        if expressions.len() == 0 {
            let value = self.emit(Op::Iconst { imm: 0 });
            self.scopes.exit();
            return Ok(value);
        }
        let mut value = Value { def: 0 };
        let mut i: usize = 0;
        while i < expressions.len()
            invariant
                i <= expressions.len(),
                self.wf(),
                items == models(expressions@),
                self@.scopes.len() == opened.scopes.len() > 1,
                whole == lower_block(
                    items,
                    match with_variables {
                        Some(names) => Some(texts(names@)),
                        None => None,
                    },
                    old(self)@,
                ),
                whole == lower_from(items, 0, opened, Value { def: 0 }).exit(),
                lower_from(items, 0, opened, Value { def: 0 }) == lower_from(
                    items,
                    i as nat,
                    self@,
                    value,
                ),
            decreases expressions.len() - i,
        {
            proof {
                vstd::std_specs::vec::axiom_vec_index_decreases(*expressions, i as int);
            }
            assert(items[i as int] == expressions[i as int]@);
            proof {
                lemma_lower_depth(items[i as int], self@);
            }
            value = self.translate_expr(&expressions[i])?;
            i += 1;
        }
        self.scopes.exit();
        Ok(value)
    }

    /// Lowers one expression: emits the operations that compute it and
    /// returns the value that holds its result.
    pub fn translate_expr(&mut self, expr: &Expr) -> (result: Result<Value, LowerError>)
        requires
            old(self).wf(),
        ensures
            final(self).wf(),
            final(self)@ == lower(expr@, old(self)@).state,
            result == lower(expr@, old(self)@).result,
        decreases expr, 0nat,
    {
        match expr {
            Expr::Func { params, block } => match &**block {
                Expr::Block(items) => {
                    assert(block.model()->Block_0 == models(items@));
                    self.translate_block_expressions(items, Some(params))
                },
                _ => Err(LowerError::MalformedFunctionBody),
            },
            Expr::Nil => Ok(self.emit(Op::Iconst { imm: 0 })),
            Expr::If(condition, then_block, else_block) => {
                let cond = self.translate_expr(condition)?;
                let else_ebb = Ebb { def: self.ops.len() };
                self.emit(Op::CreateEbb);
                let merge_ebb = Ebb { def: self.ops.len() };
                self.emit(Op::CreateEbb);
                let phi = self.emit(Op::AppendEbbParam { ebb: merge_ebb });
                self.emit(Op::Brz { cond, target: else_ebb });
                let then_return = self.translate_expr(then_block)?;
                self.emit(Op::Jump { target: merge_ebb, arg: then_return });
                self.emit(Op::SwitchToBlock { ebb: else_ebb });
                self.emit(Op::SealBlock { ebb: else_ebb });
                let else_return = self.translate_expr(else_block)?;
                self.emit(Op::Jump { target: merge_ebb, arg: else_return });
                self.emit(Op::SwitchToBlock { ebb: merge_ebb });
                self.emit(Op::SealBlock { ebb: merge_ebb });
                Ok(phi)
            },
            Expr::Block(expressions) => {
                assert(expr.model()->Block_0 == models(expressions@));
                self.translate_block_expressions(expressions, None)
            },
            Expr::Assign(name, value) => match &**value {
                Expr::Func { params, block } => self.translate_function(
                    name.as_str(),
                    params,
                    block,
                ),
                _ => {
                    let new_value = self.translate_expr(value)?;
                    let variable = self.resolve_or_declare(name.as_str());
                    self.emit(Op::DefVar { var: variable, value: new_value });
                    Ok(new_value)
                },
            },
            Expr::Ref(name) => match self.lookup_variable(name.as_str()) {
                Some(variable) => Ok(self.emit(Op::UseVar { var: variable })),
                None => Err(LowerError::UnboundName),
            },
            Expr::Add(lhs, rhs) => {
                let lhs = self.translate_expr(lhs)?;
                let rhs = self.translate_expr(rhs)?;
                Ok(self.emit(Op::Binary { op: BinaryOp::Iadd, lhs, rhs }))
            },
            Expr::Sub(lhs, rhs) => {
                let lhs = self.translate_expr(lhs)?;
                let rhs = self.translate_expr(rhs)?;
                Ok(self.emit(Op::Binary { op: BinaryOp::Isub, lhs, rhs }))
            },
            Expr::Mul(lhs, rhs) => {
                let lhs = self.translate_expr(lhs)?;
                let rhs = self.translate_expr(rhs)?;
                Ok(self.emit(Op::Binary { op: BinaryOp::Imul, lhs, rhs }))
            },
            Expr::Div(lhs, rhs) => {
                let lhs = self.translate_expr(lhs)?;
                let rhs = self.translate_expr(rhs)?;
                Ok(self.emit(Op::Binary { op: BinaryOp::Udiv, lhs, rhs }))
            },
            Expr::IntegerLiteral(n) => match parse_i32(n.as_str()) {
                Some(integer_value) => Ok(self.emit(Op::Iconst { imm: integer_value as i64 })),
                None => Err(LowerError::MalformedLiteral),
            },
        }
    }
}

} // verus!
