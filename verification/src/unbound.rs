use crate::ast::ExprView;
use crate::ir::{Value, Variable};
use crate::literal::literal_value;
use crate::lower::{lower, lower_block, lower_from, lower_function, LowerError, State};
use crate::scope::resolve;
use vstd::prelude::*;

verus! {

/// Whether `name` is given a binding somewhere in `e`: as the target of
/// an assignment or as a parameter of a function literal.
pub open spec fn introduces(e: ExprView, name: Seq<char>) -> bool
    decreases e,
{
    match e {
        ExprView::IntegerLiteral(_) => false,
        ExprView::Nil => false,
        ExprView::Reference(_) => false,
        ExprView::Binary(_, lhs, rhs) => introduces(*lhs, name) || introduces(*rhs, name),
        ExprView::Block(items) => exists|i: int|
            0 <= i < items.len() && introduces(#[trigger] items[i], name),
        ExprView::Assign(target, value) => target == name || introduces(*value, name),
        ExprView::Conditional(condition, then_branch, else_branch) => introduces(
            *condition,
            name,
        ) || introduces(*then_branch, name) || introduces(*else_branch, name),
        ExprView::FunctionLiteral { params, body } => params.contains(name) || introduces(
            *body,
            name,
        ),
    }
}

/// Whether `name` is read somewhere in `e`.
pub open spec fn reads(e: ExprView, name: Seq<char>) -> bool
    decreases e,
{
    match e {
        ExprView::IntegerLiteral(_) => false,
        ExprView::Nil => false,
        ExprView::Reference(read) => read == name,
        ExprView::Binary(_, lhs, rhs) => reads(*lhs, name) || reads(*rhs, name),
        ExprView::Block(items) => exists|i: int|
            0 <= i < items.len() && reads(#[trigger] items[i], name),
        ExprView::Assign(_, value) => reads(*value, name),
        ExprView::Conditional(condition, then_branch, else_branch) => reads(*condition, name)
            || reads(*then_branch, name) || reads(*else_branch, name),
        ExprView::FunctionLiteral { params, body } => reads(*body, name),
    }
}

/// Whether every literal in `e` is a signed 32-bit number and the body of
/// every function literal is a block.
pub open spec fn well_shaped(e: ExprView) -> bool
    decreases e,
{
    match e {
        ExprView::IntegerLiteral(text) => literal_value(text) is Some,
        ExprView::Nil => true,
        ExprView::Reference(_) => true,
        ExprView::Binary(_, lhs, rhs) => well_shaped(*lhs) && well_shaped(*rhs),
        ExprView::Block(items) => forall|i: int|
            0 <= i < items.len() ==> well_shaped(#[trigger] items[i]),
        ExprView::Assign(_, value) => well_shaped(*value),
        ExprView::Conditional(condition, then_branch, else_branch) => well_shaped(*condition)
            && well_shaped(*then_branch) && well_shaped(*else_branch),
        ExprView::FunctionLiteral { params, body } => *body is Block && well_shaped(*body),
    }
}

/// Whether no scope binds `name`.
pub open spec fn unbound(scopes: Seq<Map<Seq<char>, Variable>>, name: Seq<char>) -> bool {
    forall|i: int| 0 <= i < scopes.len() ==> !(#[trigger] scopes[i]).contains_key(name)
}

/// A name resolves to nothing if and only if no scope binds it.
pub proof fn lemma_unbound_resolve(scopes: Seq<Map<Seq<char>, Variable>>, name: Seq<char>)
    ensures
        unbound(scopes, name) <==> resolve(scopes, name) is None,
    decreases scopes.len(),
{
    if scopes.len() > 0 {
        let rest = scopes.drop_last();
        lemma_unbound_resolve(rest, name);
        if unbound(scopes, name) {
            assert(!scopes[scopes.len() - 1].contains_key(name));
            assert forall|i: int| 0 <= i < rest.len() implies !(#[trigger] rest[i]).contains_key(
                name,
            ) by {
                assert(rest[i] == scopes[i]);
            }
        }
        if resolve(scopes, name) is None {
            assert forall|i: int| 0 <= i < scopes.len() implies !(
            #[trigger] scopes[i]).contains_key(name) by {
                if i < rest.len() {
                    assert(rest[i] == scopes[i]);
                }
            }
        }
    }
}

/// Declaring other names binds no scope to the name.
proof fn lemma_declare_all_unbound(s: State, names: Seq<Seq<char>>, from: nat, name: Seq<char>)
    requires
        unbound(s.scopes, name),
        s.scopes.len() > 0,
        !names.contains(name),
    ensures
        unbound(s.declare_all(names, from).scopes, name),
    decreases names.len() - from,
{
    if from < names.len() {
        let declared = s.declare(names[from as int]);
        assert(names.contains(names[from as int]));
        assert forall|i: int| 0 <= i < declared.scopes.len() implies !(
        #[trigger] declared.scopes[i]).contains_key(name) by {
            assert(!s.scopes[i].contains_key(name));
        }
        lemma_declare_all_unbound(declared, names, from + 1, name);
    }
}

/// Taking over other parameters binds no scope to the name.
proof fn lemma_seed_params_unbound(s: State, params: Seq<Seq<char>>, from: nat, name: Seq<char>)
    requires
        unbound(s.scopes, name),
        s.scopes.len() > 0,
        !params.contains(name),
    ensures
        unbound(s.seed_params(params, from).scopes, name),
    decreases params.len() - from,
{
    if from < params.len() {
        let var = Variable { index: s.next_variable_index as usize };
        let declared = s.emit(crate::ir::Op::Param { index: from as usize }).declare(
            params[from as int],
        );
        let written = declared.emit(crate::ir::Op::DefVar { var, value: s.next_value() });
        assert(params.contains(params[from as int]));
        assert forall|i: int| 0 <= i < written.scopes.len() implies !(
        #[trigger] written.scopes[i]).contains_key(name) by {
            assert(!s.scopes[i].contains_key(name));
        }
        lemma_seed_params_unbound(written, params, from + 1, name);
    }
}

/// What is claimed of an expression that does not introduce `name`,
/// lowered where no scope binds `name`: the name stays unbound; if the
/// expression reads the name, lowering fails; and if the expression is
/// well-shaped, lowering fails with nothing but the unbound name.
pub open spec fn stays_unbound(
    outcome: crate::lower::Lowered,
    read: bool,
    shaped: bool,
    name: Seq<char>,
) -> bool {
    &&& outcome.state.scopes.len() > 0
    &&& unbound(outcome.state.scopes, name)
    &&& read ==> outcome.result is Err
    &&& shaped && outcome.result is Err ==> outcome.result == Err::<Value, LowerError>(
        LowerError::UnboundName,
    )
}

/// A name that an expression does not introduce, and that no scope binds
/// before, is bound by no scope while the expression is lowered: a read
/// of it stops lowering.
pub proof fn lemma_lower_unbound(e: ExprView, s: State, name: Seq<char>)
    requires
        !introduces(e, name),
        unbound(s.scopes, name),
        s.scopes.len() > 0,
    ensures
        stays_unbound(lower(e, s), reads(e, name), well_shaped(e), name),
    decreases e, 0nat,
{
    match e {
        ExprView::IntegerLiteral(_) => {},
        ExprView::Nil => {},
        ExprView::Reference(read) => {
            lemma_unbound_resolve(s.scopes, name);
        },
        ExprView::Binary(op, lhs, rhs) => {
            lemma_lower_unbound(*lhs, s, name);
            let l = lower(*lhs, s);
            if l.result is Ok {
                lemma_lower_unbound(*rhs, l.state, name);
            }
        },
        ExprView::Block(items) => {
            lemma_lower_block_unbound(items, None, s, name);
        },
        ExprView::Assign(target, value) => match *value {
            ExprView::FunctionLiteral { params, body } => {
                assert(!introduces(*value, name));
                assert(reads(*value, name) == reads(*body, name));
                assert(well_shaped(*value) == (*body is Block && well_shaped(*body)));
                lemma_lower_function_unbound(target, params, *body, s, name);
            },
            _ => {
                lemma_lower_unbound(*value, s, name);
                let r = lower(*value, s);
                if r.result is Ok {
                    let (bound, var) = r.state.resolve_or_declare(target);
                    assert forall|i: int| 0 <= i < bound.scopes.len() implies !(
                    #[trigger] bound.scopes[i]).contains_key(name) by {
                        assert(!r.state.scopes[i].contains_key(name));
                    }
                }
            },
        },
        ExprView::Conditional(condition, then_branch, else_branch) => {
            lemma_lower_unbound(*condition, s, name);
            let c = lower(*condition, s);
            if let Ok(cond) = c.result {
                let at = c.state.ops.len();
                lemma_lower_unbound(*then_branch, c.state.branch(cond), name);
                let t = lower(*then_branch, c.state.branch(cond));
                if let Ok(then_value) = t.result {
                    lemma_lower_unbound(*else_branch, t.state.switch(at, then_value), name);
                }
            }
        },
        ExprView::FunctionLiteral { params, body } => match *body {
            ExprView::Block(items) => {
                assert(!introduces(*body, name));
                assert(reads(*body, name) == (exists|i: int|
                    0 <= i < items.len() && reads(#[trigger] items[i], name)));
                assert(well_shaped(*body) == (forall|i: int|
                    0 <= i < items.len() ==> well_shaped(#[trigger] items[i])));
                lemma_lower_block_unbound(items, Some(params), s, name);
            },
            _ => {},
        },
    }
}

/// [`lemma_lower_unbound`], for the rest of a list of expressions.
pub proof fn lemma_lower_from_unbound(
    items: Seq<ExprView>,
    from: nat,
    s: State,
    last: Value,
    name: Seq<char>,
)
    requires
        forall|i: int| 0 <= i < items.len() ==> !introduces(#[trigger] items[i], name),
        unbound(s.scopes, name),
        s.scopes.len() > 0,
    ensures
        stays_unbound(
            lower_from(items, from, s, last),
            exists|i: int| from <= i < items.len() && reads(#[trigger] items[i], name),
            forall|i: int| from <= i < items.len() ==> well_shaped(#[trigger] items[i]),
            name,
        ),
    decreases items, items.len() - from,
{
    if from < items.len() {
        let e = items[from as int];
        lemma_lower_unbound(e, s, name);
        let r = lower(e, s);
        if let Ok(v) = r.result {
            lemma_lower_from_unbound(items, from + 1, r.state, v, name);
            if exists|i: int| from <= i < items.len() && reads(#[trigger] items[i], name) {
                let i = choose|i: int| from <= i < items.len() && reads(#[trigger] items[i], name);
                assert(i != from);
                assert(from + 1 <= i < items.len() && reads(items[i], name));
            }
            if forall|i: int| from <= i < items.len() ==> well_shaped(#[trigger] items[i]) {
                assert forall|i: int| from + 1 <= i < items.len() implies well_shaped(
                    #[trigger] items[i],
                ) by {}
            }
        } else {
            if forall|i: int| from <= i < items.len() ==> well_shaped(#[trigger] items[i]) {
                assert(well_shaped(items[from as int]));
            }
        }
    }
}

/// [`lemma_lower_unbound`], for a block.
pub proof fn lemma_lower_block_unbound(
    items: Seq<ExprView>,
    with_variables: Option<Seq<Seq<char>>>,
    s: State,
    name: Seq<char>,
)
    requires
        forall|i: int| 0 <= i < items.len() ==> !introduces(#[trigger] items[i], name),
        with_variables matches Some(names) ==> !names.contains(name),
        unbound(s.scopes, name),
        s.scopes.len() > 0,
    ensures
        stays_unbound(
            lower_block(items, with_variables, s),
            exists|i: int| 0 <= i < items.len() && reads(#[trigger] items[i], name),
            forall|i: int| 0 <= i < items.len() ==> well_shaped(#[trigger] items[i]),
            name,
        ),
    decreases items, items.len() + 1,
{
    let entered = s.enter();
    assert forall|i: int| 0 <= i < entered.scopes.len() implies !(
    #[trigger] entered.scopes[i]).contains_key(name) by {
        if i < s.scopes.len() {
            assert(!s.scopes[i].contains_key(name));
        }
    }
    let opened = match with_variables {
        Some(names) => entered.declare_all(names, 0),
        None => entered,
    };
    if let Some(names) = with_variables {
        lemma_declare_all_unbound(entered, names, 0, name);
        crate::lower::lemma_declare_all_depth(entered, names, 0);
    }
    if items.len() > 0 {
        lemma_lower_from_unbound(items, 0, opened, Value { def: 0 }, name);
        crate::lower::lemma_lower_from_depth(items, 0, opened, Value { def: 0 });
        let r = lower_from(items, 0, opened, Value { def: 0 });
        if r.result is Ok {
            let closed = r.state.exit();
            assert forall|i: int| 0 <= i < closed.scopes.len() implies !(
            #[trigger] closed.scopes[i]).contains_key(name) by {
                assert(!r.state.scopes[i].contains_key(name));
            }
        }
    } else {
        let closed = opened.emit(crate::ir::Op::Iconst { imm: 0 }).exit();
        assert forall|i: int| 0 <= i < closed.scopes.len() implies !(
        #[trigger] closed.scopes[i]).contains_key(name) by {
            assert(!opened.scopes[i].contains_key(name));
        }
    }
}

/// [`lemma_lower_unbound`], for a function literal that is assigned.
pub proof fn lemma_lower_function_unbound(
    target: Seq<char>,
    params: Seq<Seq<char>>,
    body: ExprView,
    s: State,
    name: Seq<char>,
)
    requires
        !params.contains(name),
        !introduces(body, name),
        unbound(s.scopes, name),
        s.scopes.len() > 0,
    ensures
        stays_unbound(
            lower_function(target, params, body, s),
            reads(body, name),
            body is Block && well_shaped(body),
            name,
        ),
    decreases body, 1nat,
{
    match body {
        ExprView::Block(items) => {
            let begun = s.begin(target, params);
            assert(unbound(begun.scopes, name));
            lemma_seed_params_unbound(begun, params, 0, name);
            crate::lower::lemma_seed_params_depth(begun, params, 0);
            lemma_lower_block_unbound(items, None, begun.seed_params(params, 0), name);
        },
        _ => {},
    }
}

/// A read of a name that is assigned nowhere stops lowering: a program
/// that reads a name which is neither the target of an assignment nor a
/// parameter anywhere in it has no code; and if its literals and function
/// bodies are well-shaped, the error is the unbound name.
pub proof fn law_unassigned_name_is_unbound(items: Seq<ExprView>, name: Seq<char>)
    requires
        forall|i: int| 0 <= i < items.len() ==> !introduces(#[trigger] items[i], name),
        exists|i: int| 0 <= i < items.len() && reads(#[trigger] items[i], name),
    ensures
        crate::translate::compile(items) is Err,
        (forall|i: int| 0 <= i < items.len() ==> well_shaped(#[trigger] items[i]))
            ==> crate::translate::compile(items) == Err::<
            crate::translate::ProgramView,
            LowerError,
        >(LowerError::UnboundName),
{
    let s = State::initial();
    assert(unbound(s.scopes, name));
    lemma_lower_block_unbound(items, None, s, name);
}

} // verus!
