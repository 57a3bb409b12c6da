use crate::ast::ExprView;
use crate::ir::{Op, Value, Variable};
use crate::lower::{
    handles_unique, lemma_declare_all_depth, lemma_lower_from_depth, lower, lower_block,
    lower_from, lower_function, State,
};
use crate::scope::resolve;
use crate::sealing::{
    lemma_lower_block_in_order, lemma_lower_from_in_order, lemma_lower_in_order,
};
use vstd::prelude::*;

verus! {

/// Emitting an operation keeps a state well-formed while positions fit a
/// machine word.
pub proof fn lemma_emit_wf(s: State, op: Op)
    requires
        s.wf(),
        s.ops.len() < usize::MAX,
    ensures
        s.emit(op).wf(),
{
}

/// Opening a scope keeps a state well-formed.
pub proof fn lemma_enter_wf(s: State)
    requires
        s.wf(),
    ensures
        s.enter().wf(),
{
    let after = s.enter().scopes;
    assert forall|i: int, name: Seq<char>|
        0 <= i < after.len() && after[i].contains_key(name) implies (#[trigger] after[i][name]).index
        < s.next_variable_index by {
        assert(i < s.scopes.len());
        assert(after[i] == s.scopes[i]);
    }
    assert forall|i: int, j: int, n: Seq<char>, m: Seq<char>|
        0 <= i < after.len() && 0 <= j < after.len() && after[i].contains_key(n)
            && after[j].contains_key(m) && #[trigger] after[i][n] == #[trigger] after[j][m] implies i
        == j && n == m by {
        assert(after[i] == s.scopes[i]);
        assert(after[j] == s.scopes[j]);
        assert(s.scopes[i][n] == s.scopes[j][m]);
    }
}

/// Closing a scope that is not the last keeps a state well-formed.
pub proof fn lemma_exit_wf(s: State)
    requires
        s.wf(),
        s.scopes.len() > 1,
    ensures
        s.exit().wf(),
{
    let after = s.exit().scopes;
    assert forall|i: int, name: Seq<char>|
        0 <= i < after.len() && after[i].contains_key(name) implies (#[trigger] after[i][name]).index
        < s.next_variable_index by {
        assert(after[i] == s.scopes[i]);
    }
    assert forall|i: int, j: int, n: Seq<char>, m: Seq<char>|
        0 <= i < after.len() && 0 <= j < after.len() && after[i].contains_key(n)
            && after[j].contains_key(m) && #[trigger] after[i][n] == #[trigger] after[j][m] implies i
        == j && n == m by {
        assert(after[i] == s.scopes[i]);
        assert(after[j] == s.scopes[j]);
        assert(s.scopes[i][n] == s.scopes[j][m]);
    }
}

/// Handles that are unique below one index are unique below a later one.
pub proof fn lemma_handles_unique_later(
    scopes: Seq<Map<Seq<char>, Variable>>,
    next: nat,
    later: nat,
)
    requires
        handles_unique(scopes, next),
        next <= later,
    ensures
        handles_unique(scopes, later),
{
}

/// A declared variable is new: the state stays well-formed.
pub proof fn lemma_declare_wf(s: State, name: Seq<char>)
    requires
        s.wf(),
        s.ops.len() < usize::MAX,
    ensures
        s.declare(name).wf(),
{
    let after = s.declare(name).scopes;
    let top = s.scopes.len() - 1;
    let var = Variable { index: s.next_variable_index as usize };
    assert(var.index == s.next_variable_index);
    assert forall|i: int, n: Seq<char>|
        0 <= i < after.len() && after[i].contains_key(n) implies (#[trigger] after[i][n]).index
        < s.next_variable_index + 1 by {
        if i == top && n == name {
        } else {
            assert(s.scopes[i].contains_key(n));
            assert(after[i][n] == s.scopes[i][n]);
        }
    }
    assert forall|i: int, j: int, n: Seq<char>, m: Seq<char>|
        0 <= i < after.len() && 0 <= j < after.len() && after[i].contains_key(n)
            && after[j].contains_key(m) && #[trigger] after[i][n] == #[trigger] after[j][m] implies i
        == j && n == m by {
        let fresh_i = i == top && n == name;
        let fresh_j = j == top && m == name;
        if !fresh_i {
            assert(s.scopes[i].contains_key(n));
            assert(after[i][n] == s.scopes[i][n]);
            assert(s.scopes[i][n].index < s.next_variable_index);
        }
        if !fresh_j {
            assert(s.scopes[j].contains_key(m));
            assert(after[j][m] == s.scopes[j][m]);
            assert(s.scopes[j][m].index < s.next_variable_index);
        }
        if !fresh_i && !fresh_j {
            assert(s.scopes[i][n] == s.scopes[j][m]);
        }
    }
}

/// Declaring names keeps a state well-formed, and never lowers the index
/// of the next variable.
pub proof fn lemma_declare_all_wf(s: State, names: Seq<Seq<char>>, from: nat)
    requires
        s.wf(),
        s.declare_all(names, from).ops.len() <= usize::MAX,
    ensures
        s.declare_all(names, from).wf(),
        s.declare_all(names, from).next_variable_index >= s.next_variable_index,
    decreases names.len() - from,
{
    if from < names.len() {
        let declared = s.declare(names[from as int]);
        lemma_declare_all_grows(declared, names, from + 1);
        lemma_declare_wf(s, names[from as int]);
        lemma_declare_all_wf(declared, names, from + 1);
    }
}

/// Declaring names takes nothing back.
pub proof fn lemma_declare_all_grows(s: State, names: Seq<Seq<char>>, from: nat)
    ensures
        s.declare_all(names, from).ops.len() >= s.ops.len(),
    decreases names.len() - from,
{
    if from < names.len() {
        lemma_declare_all_grows(s.declare(names[from as int]), names, from + 1);
    }
}

/// Taking over parameters takes nothing back.
pub proof fn lemma_seed_params_grows(s: State, params: Seq<Seq<char>>, from: nat)
    ensures
        s.seed_params(params, from).ops.len() >= s.ops.len(),
    decreases params.len() - from,
{
    if from < params.len() {
        let declared = s.emit(Op::Param { index: from as usize }).declare(params[from as int]);
        let var = Variable { index: s.next_variable_index as usize };
        lemma_seed_params_grows(
            declared.emit(Op::DefVar { var, value: s.next_value() }),
            params,
            from + 1,
        );
    }
}

/// Taking over parameters keeps a state well-formed, and never lowers the
/// index of the next variable.
pub proof fn lemma_seed_params_wf(s: State, params: Seq<Seq<char>>, from: nat)
    requires
        s.wf(),
        s.seed_params(params, from).ops.len() <= usize::MAX,
    ensures
        s.seed_params(params, from).wf(),
        s.seed_params(params, from).next_variable_index >= s.next_variable_index,
    decreases params.len() - from,
{
    if from < params.len() {
        let read = s.emit(Op::Param { index: from as usize });
        let declared = read.declare(params[from as int]);
        let var = Variable { index: s.next_variable_index as usize };
        let written = declared.emit(Op::DefVar { var, value: s.next_value() });
        lemma_seed_params_grows(written, params, from + 1);
        lemma_emit_wf(s, Op::Param { index: from as usize });
        lemma_declare_wf(read, params[from as int]);
        lemma_emit_wf(declared, Op::DefVar { var, value: s.next_value() });
        lemma_seed_params_wf(written, params, from + 1);
    }
}

/// Lowering keeps a session well-formed, and never lowers the index of the
/// next variable.
pub proof fn lemma_lower_wf(e: ExprView, s: State)
    requires
        s.wf(),
        lower(e, s).state.ops.len() <= usize::MAX,
    ensures
        lower(e, s).state.wf(),
        lower(e, s).state.next_variable_index >= s.next_variable_index,
    decreases e, 0nat,
{
    match e {
        ExprView::IntegerLiteral(text) => {},
        ExprView::Nil => {},
        ExprView::Reference(name) => {},
        ExprView::Binary(op, lhs, rhs) => {
            let l = lower(*lhs, s);
            if let Ok(a) = l.result {
                let r = lower(*rhs, l.state);
                lemma_lower_in_order(*rhs, l.state);
                lemma_lower_wf(*lhs, s);
                lemma_lower_wf(*rhs, l.state);
            } else {
                lemma_lower_wf(*lhs, s);
            }
        },
        ExprView::Block(items) => {
            lemma_lower_block_wf(items, None, s);
        },
        ExprView::Assign(name, value) => match *value {
            ExprView::FunctionLiteral { params, body } => {
                lemma_lower_function_wf(name, params, *body, s);
            },
            _ => {
                let r = lower(*value, s);
                lemma_lower_wf(*value, s);
                if let Ok(v) = r.result {
                    if resolve(r.state.scopes, name) is None {
                        lemma_declare_wf(r.state, name);
                    }
                }
            },
        },
        ExprView::Conditional(condition, then_branch, else_branch) => {
            let c = lower(*condition, s);
            if let Ok(cond) = c.result {
                let at = c.state.ops.len();
                let branched = c.state.branch(cond);
                let t = lower(*then_branch, branched);
                lemma_lower_in_order(*then_branch, branched);
                if let Ok(then_value) = t.result {
                    let switched = t.state.switch(at, then_value);
                    lemma_lower_in_order(*else_branch, switched);
                    lemma_lower_wf(*condition, s);
                    lemma_lower_wf(*then_branch, branched);
                    lemma_lower_wf(*else_branch, switched);
                } else {
                    lemma_lower_wf(*condition, s);
                    lemma_lower_wf(*then_branch, branched);
                }
            } else {
                lemma_lower_wf(*condition, s);
            }
        },
        ExprView::FunctionLiteral { params, body } => match *body {
            ExprView::Block(items) => {
                lemma_lower_block_wf(items, Some(params), s);
            },
            _ => {},
        },
    }
}

/// [`lemma_lower_wf`], for the rest of a list of expressions.
pub proof fn lemma_lower_from_wf(items: Seq<ExprView>, from: nat, s: State, last: Value)
    requires
        s.wf(),
        lower_from(items, from, s, last).state.ops.len() <= usize::MAX,
    ensures
        lower_from(items, from, s, last).state.wf(),
        lower_from(items, from, s, last).state.next_variable_index >= s.next_variable_index,
    decreases items, items.len() - from,
{
    if from < items.len() {
        let r = lower(items[from as int], s);
        if let Ok(v) = r.result {
            lemma_lower_from_in_order(items, from + 1, r.state, v);
            lemma_lower_wf(items[from as int], s);
            lemma_lower_from_wf(items, from + 1, r.state, v);
        } else {
            lemma_lower_wf(items[from as int], s);
        }
    }
}

/// [`lemma_lower_wf`], for a block.
pub proof fn lemma_lower_block_wf(
    items: Seq<ExprView>,
    with_variables: Option<Seq<Seq<char>>>,
    s: State,
)
    requires
        s.wf(),
        lower_block(items, with_variables, s).state.ops.len() <= usize::MAX,
    ensures
        lower_block(items, with_variables, s).state.wf(),
        lower_block(items, with_variables, s).state.next_variable_index
            >= s.next_variable_index,
    decreases items, items.len() + 1,
{
    lemma_enter_wf(s);
    let opened = match with_variables {
        Some(names) => s.enter().declare_all(names, 0),
        None => s.enter(),
    };
    if items.len() == 0 {
        if let Some(names) = with_variables {
            lemma_declare_all_wf(s.enter(), names, 0);
            lemma_declare_all_depth(s.enter(), names, 0);
        }
        lemma_emit_wf(opened, Op::Iconst { imm: 0 });
        lemma_exit_wf(opened.emit(Op::Iconst { imm: 0 }));
    } else {
        let r = lower_from(items, 0, opened, Value { def: 0 });
        lemma_lower_from_in_order(items, 0, opened, Value { def: 0 });
        if let Some(names) = with_variables {
            lemma_declare_all_wf(s.enter(), names, 0);
            lemma_declare_all_depth(s.enter(), names, 0);
        }
        lemma_lower_from_wf(items, 0, opened, Value { def: 0 });
        lemma_lower_from_depth(items, 0, opened, Value { def: 0 });
        if r.result is Ok {
            lemma_exit_wf(r.state);
        }
    }
}

/// [`lemma_lower_wf`], for a function literal that is assigned.
pub proof fn lemma_lower_function_wf(
    name: Seq<char>,
    params: Seq<Seq<char>>,
    body: ExprView,
    s: State,
)
    requires
        s.wf(),
        lower_function(name, params, body, s).state.ops.len() <= usize::MAX,
    ensures
        lower_function(name, params, body, s).state.wf(),
        lower_function(name, params, body, s).state.next_variable_index
            >= s.next_variable_index,
    decreases body, 1nat,
{
    match body {
        ExprView::Block(items) => {
            let begun = s.begin(name, params);
            let seeded = begun.seed_params(params, 0);
            let r = lower_block(items, None, seeded);
            lemma_seed_params_grows(begun, params, 0);
            lemma_lower_block_in_order(items, None, seeded);
            assert(begun.wf());
            lemma_seed_params_wf(begun, params, 0);
            lemma_lower_block_wf(items, None, seeded);
            if let Ok(v) = r.result {
                lemma_handles_unique_later(
                    s.scopes,
                    s.next_variable_index,
                    r.state.next_variable_index,
                );
            }
        },
        _ => {},
    }
}

/// Lowering binds every variable once: if no two names and no two scopes
/// share a handle before, and every handle in use was declared, then the
/// same holds afterwards.
pub proof fn law_handles_stay_unique(e: ExprView, s: State)
    requires
        s.wf(),
        lower(e, s).state.ops.len() <= usize::MAX,
    ensures
        handles_unique(lower(e, s).state.scopes, lower(e, s).state.next_variable_index),
{
    lemma_lower_wf(e, s);
}

} // verus!
