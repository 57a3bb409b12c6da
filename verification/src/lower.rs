use crate::ast::ExprView;
use crate::ir::{Ebb, Op, Value, Variable};
use crate::literal::literal_value;
use crate::scope::resolve;
use vstd::prelude::*;

verus! {

/// Why an expression could not be lowered.
#[derive(Clone, Copy, Debug, PartialEq, Eq, Structural)]
pub enum LowerError {
    /// An integer literal is not a signed 32-bit decimal number.
    MalformedLiteral,
    /// A name is read that no open scope binds.
    UnboundName,
    /// The body of a function literal is not a block.
    MalformedFunctionBody,
}

/// What a lowering session has produced and what it knows, as a
/// mathematical value.
pub struct State {
    /// The operations emitted so far, in emission order.
    pub ops: Seq<Op>,
    /// The names of the function units begun so far.
    pub symbols: Seq<Seq<char>>,
    /// The open scopes of the unit under construction, outermost first.
    pub scopes: Seq<Map<Seq<char>, Variable>>,
    /// The index that the next declared variable gets.
    pub next_variable_index: nat,
}

/// The state of a session and the value of the expression lowered last, or
/// the error that stopped it.
pub struct Lowered {
    pub state: State,
    pub result: Result<Value, LowerError>,
}

/// Whether every variable that `scopes` bind has an index below `next`,
/// and no variable is bound in two scopes or under two names.
pub open spec fn handles_unique(scopes: Seq<Map<Seq<char>, Variable>>, next: nat) -> bool {
    &&& forall|i: int, name: Seq<char>|
        0 <= i < scopes.len() && scopes[i].contains_key(name) ==> (#[trigger] scopes[i][name]).index
            < next
    &&& forall|i: int, j: int, n: Seq<char>, m: Seq<char>|
        0 <= i < scopes.len() && 0 <= j < scopes.len() && scopes[i].contains_key(n)
            && scopes[j].contains_key(m) && #[trigger] scopes[i][n] == #[trigger] scopes[j][m]
            ==> i == j && n == m
}

/// The else-block of the conditional that is opened at position `at`.
pub open spec fn else_ebb(at: nat) -> Ebb {
    Ebb { def: at as usize }
}

/// The merge-block of the conditional that is opened at position `at`.
pub open spec fn merge_ebb(at: nat) -> Ebb {
    Ebb { def: (at + 1) as usize }
}

/// The parameter of the merge-block of the conditional that is opened at
/// position `at`: the value of the conditional.
pub open spec fn merge_param(at: nat) -> Value {
    Value { def: (at + 2) as usize }
}

impl Lowered {
    /// The same outcome, with the innermost scope closed unless an error
    /// stopped the session.
    pub open spec fn exit(self) -> Lowered {
        match self.result {
            Err(_) => self,
            Ok(v) => Lowered { state: self.state.exit(), result: Ok(v) },
        }
    }
}

impl State {
    /// The state of a session that has not lowered anything: no operation,
    /// no symbol, the empty function-entry scope.
    pub open spec fn initial() -> State {
        State {
            ops: Seq::empty(),
            symbols: Seq::empty(),
            scopes: seq![Map::empty()],
            next_variable_index: 0,
        }
    }

    /// What holds of the state of every session: a scope is open; every
    /// variable index in use was declared by an operation of its own;
    /// positions in the operation stream fit a machine word; and the
    /// variable handles that the scopes bind are unique.
    pub open spec fn wf(self) -> bool {
        &&& self.scopes.len() > 0
        &&& self.next_variable_index <= self.ops.len()
        &&& self.ops.len() <= usize::MAX
        &&& handles_unique(self.scopes, self.next_variable_index)
    }

    /// The state after one more operation.
    pub open spec fn emit(self, op: Op) -> State {
        State { ops: self.ops.push(op), ..self }
    }

    /// The value that the next operation defines, if it defines one.
    pub open spec fn next_value(self) -> Value {
        Value { def: self.ops.len() as usize }
    }

    /// The state after an operation that defines a value, with that value.
    pub open spec fn emit_value(self, op: Op) -> Lowered {
        Lowered { state: self.emit(op), result: Ok(self.next_value()) }
    }

    /// The state with a new, empty innermost scope.
    pub open spec fn enter(self) -> State {
        State { scopes: self.scopes.push(Map::empty()), ..self }
    }

    /// The state without its innermost scope.
    pub open spec fn exit(self) -> State {
        State { scopes: self.scopes.drop_last(), ..self }
    }

    /// The state in which a function unit is begun under the symbol `name`:
    /// the unit has scopes of its own, of which the function-entry scope
    /// is open and empty.
    pub open spec fn begin(self, name: Seq<char>, params: Seq<Seq<char>>) -> State {
        State {
            ops: self.ops.push(Op::BeginFunction { params: params.len() as usize }),
            symbols: self.symbols.push(name),
            scopes: seq![Map::empty()],
            next_variable_index: self.next_variable_index,
        }
    }

    /// The state after a conditional was opened behind its condition: the
    /// else-block and the merge-block are created, the merge-block is
    /// given its parameter, and the branch to the else-block, taken if
    /// `cond` is zero, is emitted. The first branch is lowered from here.
    pub open spec fn branch(self, cond: Value) -> State {
        let at = self.ops.len();
        self.emit(Op::CreateEbb).emit(Op::CreateEbb).emit(
            Op::AppendEbbParam { ebb: merge_ebb(at) },
        ).emit(Op::Brz { cond, target: else_ebb(at) })
    }

    /// The state after the first branch of the conditional that was opened
    /// at position `at` was left: the jump to the merge-block passes the
    /// value of the branch, and emission continues in the else-block,
    /// which is sealed, since the branch on zero is its only predecessor.
    /// The second branch is lowered from here.
    pub open spec fn switch(self, at: nat, then_value: Value) -> State {
        self.emit(Op::Jump { target: merge_ebb(at), arg: then_value }).emit(
            Op::SwitchToBlock { ebb: else_ebb(at) },
        ).emit(Op::SealBlock { ebb: else_ebb(at) })
    }

    /// The state after the conditional that was opened at position `at`
    /// was closed: the jump to the merge-block passes the value of the
    /// second branch, and emission continues in the merge-block, which is
    /// sealed now that both jumps to it are emitted.
    pub open spec fn join(self, at: nat, else_value: Value) -> State {
        self.emit(Op::Jump { target: merge_ebb(at), arg: else_value }).emit(
            Op::SwitchToBlock { ebb: merge_ebb(at) },
        ).emit(Op::SealBlock { ebb: merge_ebb(at) })
    }

    /// The state after `name` was declared: a variable with the next index
    /// is registered and bound to `name` in the innermost scope.
    pub open spec fn declare(self, name: Seq<char>) -> State {
        let var = Variable { index: self.next_variable_index as usize };
        State {
            ops: self.ops.push(Op::DeclareVar { var }),
            symbols: self.symbols,
            scopes: self.scopes.update(
                self.scopes.len() - 1,
                self.scopes.last().insert(name, var),
            ),
            next_variable_index: self.next_variable_index + 1,
        }
    }

    /// The state after the names from position `from` on were declared,
    /// in order.
    pub open spec fn declare_all(self, names: Seq<Seq<char>>, from: nat) -> State
        decreases names.len() - from,
    {
        if from >= names.len() {
            self
        } else {
            self.declare(names[from as int]).declare_all(names, from + 1)
        }
    }

    /// The variable that an assignment to `name` writes: the one that
    /// `name` resolves to, else a newly declared one. With it, the state
    /// in which it is bound.
    pub open spec fn resolve_or_declare(self, name: Seq<char>) -> (State, Variable) {
        match resolve(self.scopes, name) {
            Some(var) => (self, var),
            None => (
                self.declare(name),
                Variable { index: self.next_variable_index as usize },
            ),
        }
    }

    /// The state after the parameters from position `from` on were taken
    /// over: each is read from the incoming arguments, declared, and
    /// written to its variable.
    pub open spec fn seed_params(self, params: Seq<Seq<char>>, from: nat) -> State
        decreases params.len() - from,
    {
        if from >= params.len() {
            self
        } else {
            let incoming = self.next_value();
            let declared = self.emit(Op::Param { index: from as usize }).declare(
                params[from as int],
            );
            let var = Variable { index: self.next_variable_index as usize };
            declared.emit(Op::DefVar { var, value: incoming }).seed_params(params, from + 1)
        }
    }
}

/// Lowering of one expression, from state `s`.
///
/// - A literal becomes a constant, if its text is a signed 32-bit number.
/// - `Nil` becomes the constant zero.
/// - A reference reads the variable that the name resolves to.
/// - A binary node lowers its left operand, then its right operand, then
///   applies the instruction.
/// - A block is lowered in a scope of its own.
/// - An assignment of a function literal publishes a function unit; any
///   other assignment lowers the right-hand side, then writes its value to
///   the variable that the name resolves to, declared if need be.
/// - A conditional lowers the condition, branches on zero to an else-block,
///   lowers the first branch in place and the second in the else-block, and
///   joins both in a merge-block whose parameter is the result.
/// - A function literal that is not assigned is lowered in place, as a
///   block in which its parameters are declared.
///
/// The first error stops the session where it stands.
pub open spec fn lower(e: ExprView, s: State) -> Lowered
    decreases e, 0nat,
{
    match e {
        ExprView::IntegerLiteral(text) => match literal_value(text) {
            Some(n) => s.emit_value(Op::Iconst { imm: n as i64 }),
            None => Lowered { state: s, result: Err(LowerError::MalformedLiteral) },
        },
        ExprView::Nil => s.emit_value(Op::Iconst { imm: 0 }),
        ExprView::Reference(name) => match resolve(s.scopes, name) {
            Some(var) => s.emit_value(Op::UseVar { var }),
            None => Lowered { state: s, result: Err(LowerError::UnboundName) },
        },
        ExprView::Binary(op, lhs, rhs) => {
            let l = lower(*lhs, s);
            match l.result {
                Err(_) => l,
                Ok(a) => {
                    let r = lower(*rhs, l.state);
                    match r.result {
                        Err(_) => r,
                        Ok(b) => r.state.emit_value(Op::Binary { op, lhs: a, rhs: b }),
                    }
                },
            }
        },
        ExprView::Block(items) => lower_block(items, None, s),
        ExprView::Assign(name, value) => match *value {
            ExprView::FunctionLiteral { params, body } => lower_function(name, params, *body, s),
            _ => {
                let r = lower(*value, s);
                match r.result {
                    Err(_) => r,
                    Ok(v) => {
                        let (bound, var) = r.state.resolve_or_declare(name);
                        Lowered {
                            state: bound.emit(Op::DefVar { var, value: v }),
                            result: Ok(v),
                        }
                    },
                }
            },
        },
        ExprView::Conditional(condition, then_branch, else_branch) => {
            let c = lower(*condition, s);
            match c.result {
                Err(_) => c,
                Ok(cond) => {
                    let at = c.state.ops.len();
                    let t = lower(*then_branch, c.state.branch(cond));
                    match t.result {
                        Err(_) => t,
                        Ok(then_value) => {
                            let e = lower(*else_branch, t.state.switch(at, then_value));
                            match e.result {
                                Err(_) => e,
                                Ok(else_value) => Lowered {
                                    state: e.state.join(at, else_value),
                                    result: Ok(merge_param(at)),
                                },
                            }
                        },
                    }
                },
            }
        },
        ExprView::FunctionLiteral { params, body } => match *body {
            ExprView::Block(items) => lower_block(items, Some(params), s),
            _ => Lowered { state: s, result: Err(LowerError::MalformedFunctionBody) },
        },
    }
}

/// Lowering of the expressions of `items` from position `from` on, in
/// order, from state `s`. The value is that of the last expression, or
/// `last` if none is left.
pub open spec fn lower_from(items: Seq<ExprView>, from: nat, s: State, last: Value) -> Lowered
    decreases items, items.len() - from,
{
    if from >= items.len() {
        Lowered { state: s, result: Ok(last) }
    } else {
        let r = lower(items[from as int], s);
        match r.result {
            Err(_) => r,
            Ok(v) => lower_from(items, from + 1, r.state, v),
        }
    }
}

/// Lowering of a block: a scope is opened, the names of `with_variables`
/// are declared in it, the expressions are lowered in order, and the scope
/// is closed. The value is that of the last expression; an empty block
/// yields the constant zero.
pub open spec fn lower_block(
    items: Seq<ExprView>,
    with_variables: Option<Seq<Seq<char>>>,
    s: State,
) -> Lowered
    decreases items, items.len() + 1,
{
    let opened = match with_variables {
        Some(names) => s.enter().declare_all(names, 0),
        None => s.enter(),
    };
    if items.len() == 0 {
        opened.emit_value(Op::Iconst { imm: 0 }).exit()
    } else {
        lower_from(items, 0, opened, Value { def: 0 }).exit()
    }
}

/// Lowering of a function literal that is assigned to `name`: a function
/// unit is begun under that symbol, with scopes of its own in which the
/// parameters hold the incoming arguments; the body is lowered as a block
/// and its value returned; the unit is finished and published; the value
/// is the address of the unit, in the enclosing unit, whose scopes are
/// as before.
pub open spec fn lower_function(
    name: Seq<char>,
    params: Seq<Seq<char>>,
    body: ExprView,
    s: State,
) -> Lowered
    decreases body, 1nat,
{
    match body {
        ExprView::Block(items) => {
            let unit = s.ops.len() as usize;
            let symbol = s.symbols.len() as usize;
            let begun = s.begin(name, params);
            let r = lower_block(items, None, begun.seed_params(params, 0));
            match r.result {
                Err(_) => r,
                Ok(v) => {
                    let finished = r.state.emit(Op::Return { value: v }).emit(Op::Finalize);
                    State { scopes: s.scopes, ..finished }.emit(
                        Op::Publish { unit, symbol },
                    ).emit_value(Op::FuncAddr { unit })
                },
            }
        },
        _ => Lowered { state: s, result: Err(LowerError::MalformedFunctionBody) },
    }
}

/// Lowering keeps a scope open, and unless an error stops it, it leaves as
/// many scopes open as it found and changes none but the innermost.
pub proof fn lemma_lower_depth(e: ExprView, s: State)
    requires
        s.scopes.len() > 0,
    ensures
        lower(e, s).state.scopes.len() > 0,
        lower(e, s).result is Ok ==> lower(e, s).state.scopes.len() == s.scopes.len(),
        lower(e, s).result is Ok ==> lower(e, s).state.scopes.drop_last()
            == s.scopes.drop_last(),
    decreases e, 0nat,
{
    match e {
        ExprView::IntegerLiteral(_) => {},
        ExprView::Nil => {},
        ExprView::Reference(_) => {},
        ExprView::Binary(_, lhs, rhs) => {
            lemma_lower_depth(*lhs, s);
            if lower(*lhs, s).result is Ok {
                lemma_lower_depth(*rhs, lower(*lhs, s).state);
            }
        },
        ExprView::Block(items) => {
            lemma_lower_block_depth(items, None, s);
        },
        ExprView::Assign(name, value) => match *value {
            ExprView::FunctionLiteral { params, body } => {
                lemma_lower_function_depth(name, params, *body, s);
            },
            _ => {
                lemma_lower_depth(*value, s);
                let r = lower(*value, s);
                if r.result is Ok {
                    lemma_declare_depth(r.state, name);
                }
            },
        },
        ExprView::Conditional(condition, then_branch, else_branch) => {
            let c = lower(*condition, s);
            lemma_lower_depth(*condition, s);
            if let Ok(cond) = c.result {
                let at = c.state.ops.len();
                let t = lower(*then_branch, c.state.branch(cond));
                lemma_lower_depth(*then_branch, c.state.branch(cond));
                if let Ok(then_value) = t.result {
                    lemma_lower_depth(*else_branch, t.state.switch(at, then_value));
                }
            }
        },
        ExprView::FunctionLiteral { params, body } => match *body {
            ExprView::Block(items) => {
                lemma_lower_block_depth(items, Some(params), s);
            },
            _ => {},
        },
    }
}

/// Declaring a name opens or closes no scope and changes none but the
/// innermost.
pub proof fn lemma_declare_depth(s: State, name: Seq<char>)
    requires
        s.scopes.len() > 0,
    ensures
        s.declare(name).scopes.len() == s.scopes.len(),
        s.declare(name).scopes.drop_last() == s.scopes.drop_last(),
{
    assert(s.declare(name).scopes.drop_last() =~= s.scopes.drop_last());
}

/// Declaring names opens or closes no scope and changes none but the
/// innermost.
pub proof fn lemma_declare_all_depth(s: State, names: Seq<Seq<char>>, from: nat)
    requires
        s.scopes.len() > 0,
    ensures
        s.declare_all(names, from).scopes.len() == s.scopes.len(),
        s.declare_all(names, from).scopes.drop_last() == s.scopes.drop_last(),
    decreases names.len() - from,
{
    if from < names.len() {
        lemma_declare_depth(s, names[from as int]);
        lemma_declare_all_depth(s.declare(names[from as int]), names, from + 1);
    }
}

/// Taking over parameters opens or closes no scope and changes none but
/// the innermost.
pub proof fn lemma_seed_params_depth(s: State, params: Seq<Seq<char>>, from: nat)
    requires
        s.scopes.len() > 0,
    ensures
        s.seed_params(params, from).scopes.len() == s.scopes.len(),
        s.seed_params(params, from).scopes.drop_last() == s.scopes.drop_last(),
    decreases params.len() - from,
{
    if from < params.len() {
        lemma_declare_depth(s.emit(Op::Param { index: from as usize }), params[from as int]);
        let declared = s.emit(Op::Param { index: from as usize }).declare(params[from as int]);
        let var = Variable { index: s.next_variable_index as usize };
        lemma_seed_params_depth(
            declared.emit(Op::DefVar { var, value: s.next_value() }),
            params,
            from + 1,
        );
    }
}

/// [`lemma_lower_depth`], for the rest of a list of expressions.
pub proof fn lemma_lower_from_depth(items: Seq<ExprView>, from: nat, s: State, last: Value)
    requires
        s.scopes.len() > 0,
    ensures
        lower_from(items, from, s, last).state.scopes.len() > 0,
        lower_from(items, from, s, last).result is Ok ==> lower_from(
            items,
            from,
            s,
            last,
        ).state.scopes.len() == s.scopes.len(),
        lower_from(items, from, s, last).result is Ok ==> lower_from(
            items,
            from,
            s,
            last,
        ).state.scopes.drop_last() == s.scopes.drop_last(),
    decreases items, items.len() - from,
{
    if from < items.len() {
        let r = lower(items[from as int], s);
        lemma_lower_depth(items[from as int], s);
        if let Ok(v) = r.result {
            lemma_lower_from_depth(items, from + 1, r.state, v);
        }
    }
}

/// [`lemma_lower_depth`], for a block.
pub proof fn lemma_lower_block_depth(
    items: Seq<ExprView>,
    with_variables: Option<Seq<Seq<char>>>,
    s: State,
)
    requires
        s.scopes.len() > 0,
    ensures
        lower_block(items, with_variables, s).state.scopes.len() > 0,
        lower_block(items, with_variables, s).result is Ok ==> lower_block(
            items,
            with_variables,
            s,
        ).state.scopes == s.scopes,
    decreases items, items.len() + 1,
{
    assert(s.enter().scopes.drop_last() =~= s.scopes);
    let opened = match with_variables {
        Some(names) => s.enter().declare_all(names, 0),
        None => s.enter(),
    };
    if let Some(names) = with_variables {
        lemma_declare_all_depth(s.enter(), names, 0);
    }
    if items.len() > 0 {
        lemma_lower_from_depth(items, 0, opened, Value { def: 0 });
    }
}

/// [`lemma_lower_depth`], for a function literal that is assigned.
pub proof fn lemma_lower_function_depth(
    name: Seq<char>,
    params: Seq<Seq<char>>,
    body: ExprView,
    s: State,
)
    requires
        s.scopes.len() > 0,
    ensures
        lower_function(name, params, body, s).state.scopes.len() > 0,
        lower_function(name, params, body, s).result is Ok ==> lower_function(
            name,
            params,
            body,
            s,
        ).state.scopes == s.scopes,
    decreases body, 1nat,
{
    match body {
        ExprView::Block(items) => {
            let begun = s.begin(name, params);
            lemma_seed_params_depth(begun, params, 0);
            lemma_lower_block_depth(items, None, begun.seed_params(params, 0));
        },
        _ => {},
    }
}

} // verus!
