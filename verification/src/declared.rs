use crate::ast::ExprView;
use crate::ir::{Op, Value, Variable};
use crate::literal::literal_value;
use crate::lower::{lower, lower_block, lower_from, State};
use crate::machine::{declaration, declared};
use crate::scope::resolve;
use crate::sealing::extends;
use vstd::prelude::*;

verus! {

/// A variable that an operation declares has a first declaration, at that
/// operation or before it.
pub proof fn lemma_declaration_found(ops: Seq<Op>, var: Variable, from: nat, at: nat)
    requires
        from <= at < ops.len(),
        ops[at as int] == (Op::DeclareVar { var }),
    ensures
        declaration(ops, var, from) matches Some(first) && from <= first <= at,
    decreases at - from,
{
    if ops[from as int] != (Op::DeclareVar { var }) {
        lemma_declaration_found(ops, var, from + 1, at);
    }
}

/// A first declaration is a declaration, inside the stream.
pub proof fn lemma_declaration_bounds(ops: Seq<Op>, var: Variable, from: nat)
    ensures
        declaration(ops, var, from) matches Some(first) ==> from <= first < ops.len()
            && ops[first as int] == (Op::DeclareVar { var }),
    decreases ops.len() - from,
{
    if from < ops.len() && ops[from as int] != (Op::DeclareVar { var }) {
        lemma_declaration_bounds(ops, var, from + 1);
    }
}

/// Whether every variable that the scopes of `s` bind is declared by an
/// operation of `s`.
pub open spec fn scopes_declared(s: State) -> bool {
    forall|i: int, name: Seq<char>|
        0 <= i < s.scopes.len() && s.scopes[i].contains_key(name) ==> declaration(
            s.ops,
            #[trigger] s.scopes[i][name],
            0,
        ) is Some
}

/// A variable that is declared in a stream is declared before the end of
/// every stream that continues it.
pub proof fn lemma_declared_extends(before: Seq<Op>, after: Seq<Op>, var: Variable, pc: nat)
    requires
        extends(before, after),
        declaration(before, var, 0) is Some,
        before.len() <= pc,
    ensures
        declared(after, var, pc),
        declaration(after, var, 0) is Some,
{
    lemma_declaration_bounds(before, var, 0);
    let first = declaration(before, var, 0)->0;
    assert(after[first as int] == before[first as int]);
    lemma_declaration_found(after, var, 0, first);
}

/// Scopes that bind declared variables still do when more is emitted.
pub proof fn lemma_scopes_declared_extends(s: State, later: State)
    requires
        scopes_declared(s),
        extends(s.ops, later.ops),
        later.scopes == s.scopes,
    ensures
        scopes_declared(later),
{
    assert forall|i: int, name: Seq<char>|
        0 <= i < later.scopes.len() && later.scopes[i].contains_key(name) implies declaration(
        later.ops,
        #[trigger] later.scopes[i][name],
        0,
    ) is Some by {
        lemma_declared_extends(s.ops, later.ops, s.scopes[i][name], s.ops.len());
    }
}

/// Emitting an operation undeclares nothing.
pub proof fn lemma_emit_declared(s: State, op: Op)
    requires
        scopes_declared(s),
    ensures
        scopes_declared(s.emit(op)),
{
    lemma_scopes_declared_extends(s, s.emit(op));
}

/// A declared name is bound to a declared variable.
pub proof fn lemma_declare_declared(s: State, name: Seq<char>)
    requires
        scopes_declared(s),
        s.scopes.len() > 0,
    ensures
        scopes_declared(s.declare(name)),
{
    let after = s.declare(name);
    let var = Variable { index: s.next_variable_index as usize };
    let top = s.scopes.len() - 1;
    assert(extends(s.ops, after.ops));
    assert forall|i: int, n: Seq<char>|
        0 <= i < after.scopes.len() && after.scopes[i].contains_key(n) implies declaration(
        after.ops,
        #[trigger] after.scopes[i][n],
        0,
    ) is Some by {
        if i == top && n == name {
            lemma_declaration_found(after.ops, var, 0, s.ops.len());
        } else {
            assert(s.scopes[i].contains_key(n));
            assert(after.scopes[i][n] == s.scopes[i][n]);
            lemma_declared_extends(s.ops, after.ops, s.scopes[i][n], s.ops.len());
        }
    }
}

/// Declared names are bound to declared variables.
pub proof fn lemma_declare_all_declared(s: State, names: Seq<Seq<char>>, from: nat)
    requires
        scopes_declared(s),
        s.scopes.len() > 0,
    ensures
        scopes_declared(s.declare_all(names, from)),
    decreases names.len() - from,
{
    if from < names.len() {
        lemma_declare_declared(s, names[from as int]);
        lemma_declare_all_declared(s.declare(names[from as int]), names, from + 1);
    }
}

/// Parameters are bound to declared variables.
pub proof fn lemma_seed_params_declared(s: State, params: Seq<Seq<char>>, from: nat)
    requires
        scopes_declared(s),
        s.scopes.len() > 0,
    ensures
        scopes_declared(s.seed_params(params, from)),
    decreases params.len() - from,
{
    if from < params.len() {
        let read = s.emit(Op::Param { index: from as usize });
        let declared = read.declare(params[from as int]);
        let var = Variable { index: s.next_variable_index as usize };
        let written = declared.emit(Op::DefVar { var, value: s.next_value() });
        lemma_emit_declared(s, Op::Param { index: from as usize });
        lemma_declare_declared(read, params[from as int]);
        lemma_emit_declared(declared, Op::DefVar { var, value: s.next_value() });
        lemma_seed_params_declared(written, params, from + 1);
    }
}

/// A new scope binds nothing, so nothing undeclared.
pub proof fn lemma_enter_declared(s: State)
    requires
        scopes_declared(s),
    ensures
        scopes_declared(s.enter()),
{
    let after = s.enter();
    assert forall|i: int, n: Seq<char>|
        0 <= i < after.scopes.len() && after.scopes[i].contains_key(n) implies declaration(
        after.ops,
        #[trigger] after.scopes[i][n],
        0,
    ) is Some by {
        assert(i < s.scopes.len());
        assert(after.scopes[i] == s.scopes[i]);
        assert(s.scopes[i].contains_key(n));
    }
}

/// The scopes that stay open bind what they bound.
pub proof fn lemma_exit_declared(s: State)
    requires
        scopes_declared(s),
        s.scopes.len() > 0,
    ensures
        scopes_declared(s.exit()),
{
    let after = s.exit();
    assert forall|i: int, n: Seq<char>|
        0 <= i < after.scopes.len() && after.scopes[i].contains_key(n) implies declaration(
        after.ops,
        #[trigger] after.scopes[i][n],
        0,
    ) is Some by {
        assert(after.scopes[i] == s.scopes[i]);
        assert(s.scopes[i].contains_key(n));
    }
}

/// After lowering, the scopes bind declared variables, as before.
pub proof fn lemma_lower_declared(e: ExprView, s: State)
    requires
        scopes_declared(s),
        s.scopes.len() > 0,
    ensures
        scopes_declared(lower(e, s).state),
    decreases e, 0nat,
{
    match e {
        ExprView::IntegerLiteral(text) => {
            if let Some(n) = literal_value(text) {
                lemma_emit_declared(s, Op::Iconst { imm: n as i64 });
            }
        },
        ExprView::Nil => {
            lemma_emit_declared(s, Op::Iconst { imm: 0 });
        },
        ExprView::Reference(name) => {
            if let Some(var) = resolve(s.scopes, name) {
                lemma_emit_declared(s, Op::UseVar { var });
            }
        },
        ExprView::Binary(op, lhs, rhs) => {
            let l = lower(*lhs, s);
            lemma_lower_declared(*lhs, s);
            crate::lower::lemma_lower_depth(*lhs, s);
            if let Ok(a) = l.result {
                let r = lower(*rhs, l.state);
                lemma_lower_declared(*rhs, l.state);
                if let Ok(b) = r.result {
                    lemma_emit_declared(r.state, Op::Binary { op, lhs: a, rhs: b });
                }
            }
        },
        ExprView::Block(items) => {
            lemma_lower_block_declared(items, None, s);
        },
        ExprView::Assign(name, value) => match *value {
            ExprView::FunctionLiteral { params, body } => {
                lemma_lower_function_declared(name, params, *body, s);
            },
            _ => {
                let r = lower(*value, s);
                lemma_lower_declared(*value, s);
                crate::lower::lemma_lower_depth(*value, s);
                if let Ok(v) = r.result {
                    let (bound, var) = r.state.resolve_or_declare(name);
                    if resolve(r.state.scopes, name) is None {
                        lemma_declare_declared(r.state, name);
                    }
                    lemma_emit_declared(bound, Op::DefVar { var, value: v });
                }
            },
        },
        ExprView::Conditional(condition, then_branch, else_branch) => {
            let c = lower(*condition, s);
            lemma_lower_declared(*condition, s);
            crate::lower::lemma_lower_depth(*condition, s);
            if let Ok(cond) = c.result {
                let at = c.state.ops.len();
                let branched = c.state.branch(cond);
                lemma_scopes_declared_extends(c.state, branched);
                let t = lower(*then_branch, branched);
                lemma_lower_declared(*then_branch, branched);
                crate::lower::lemma_lower_depth(*then_branch, branched);
                if let Ok(then_value) = t.result {
                    let switched = t.state.switch(at, then_value);
                    lemma_scopes_declared_extends(t.state, switched);
                    let l = lower(*else_branch, switched);
                    lemma_lower_declared(*else_branch, switched);
                    if let Ok(else_value) = l.result {
                        lemma_scopes_declared_extends(l.state, l.state.join(at, else_value));
                    }
                }
            }
        },
        ExprView::FunctionLiteral { params, body } => match *body {
            ExprView::Block(items) => {
                lemma_lower_block_declared(items, Some(params), s);
            },
            _ => {},
        },
    }
}

/// [`lemma_lower_declared`], for the rest of a list of expressions.
pub proof fn lemma_lower_from_declared(items: Seq<ExprView>, from: nat, s: State, last: Value)
    requires
        scopes_declared(s),
        s.scopes.len() > 0,
    ensures
        scopes_declared(lower_from(items, from, s, last).state),
    decreases items, items.len() - from,
{
    if from < items.len() {
        let r = lower(items[from as int], s);
        lemma_lower_declared(items[from as int], s);
        crate::lower::lemma_lower_depth(items[from as int], s);
        if let Ok(v) = r.result {
            lemma_lower_from_declared(items, from + 1, r.state, v);
        }
    }
}

/// [`lemma_lower_declared`], for a block.
pub proof fn lemma_lower_block_declared(
    items: Seq<ExprView>,
    with_variables: Option<Seq<Seq<char>>>,
    s: State,
)
    requires
        scopes_declared(s),
        s.scopes.len() > 0,
    ensures
        scopes_declared(lower_block(items, with_variables, s).state),
    decreases items, items.len() + 1,
{
    lemma_enter_declared(s);
    let opened = match with_variables {
        Some(names) => s.enter().declare_all(names, 0),
        None => s.enter(),
    };
    if let Some(names) = with_variables {
        lemma_declare_all_declared(s.enter(), names, 0);
        crate::lower::lemma_declare_all_depth(s.enter(), names, 0);
    }
    if items.len() == 0 {
        lemma_emit_declared(opened, Op::Iconst { imm: 0 });
        lemma_exit_declared(opened.emit(Op::Iconst { imm: 0 }));
    } else {
        let r = lower_from(items, 0, opened, Value { def: 0 });
        lemma_lower_from_declared(items, 0, opened, Value { def: 0 });
        crate::lower::lemma_lower_from_depth(items, 0, opened, Value { def: 0 });
        if r.result is Ok {
            lemma_exit_declared(r.state);
        }
    }
}

/// [`lemma_lower_declared`], for a function literal that is assigned.
pub proof fn lemma_lower_function_declared(
    name: Seq<char>,
    params: Seq<Seq<char>>,
    body: ExprView,
    s: State,
)
    requires
        scopes_declared(s),
        s.scopes.len() > 0,
    ensures
        scopes_declared(crate::lower::lower_function(name, params, body, s).state),
    decreases body, 1nat,
{
    match body {
        ExprView::Block(items) => {
            let unit = s.ops.len() as usize;
            let symbol = s.symbols.len() as usize;
            let begun = s.begin(name, params);
            assert(scopes_declared(begun));
            let seeded = begun.seed_params(params, 0);
            lemma_seed_params_declared(begun, params, 0);
            crate::lower::lemma_seed_params_depth(begun, params, 0);
            let r = lower_block(items, None, seeded);
            lemma_lower_block_declared(items, None, seeded);
            if let Ok(v) = r.result {
                let finished = r.state.emit(Op::Return { value: v }).emit(Op::Finalize);
                let restored = State { scopes: s.scopes, ..finished };
                crate::sealing::lemma_lower_function_in_order(name, params, body, s);
                let end = crate::lower::lower_function(name, params, body, s).state;
                lemma_scopes_declared_extends(s, end);
            }
        },
        _ => {},
    }
}

} // verus!
