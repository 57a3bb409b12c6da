use crate::ast::ExprView;
use crate::execution::{
    first_order, lemma_assign_layout, lemma_binary_layout,
    lemma_conditional_layout, lemma_lower_ready, lemma_opened_ready, lemma_run_from_bounds,
    lemma_run_lowered, lowered_into, opened, perform, perform_block, perform_from, ready,
};
use crate::handles::lemma_lower_block_wf;
use crate::lower::lemma_lower_block_depth;
use crate::sealing::{extends, lemma_extends_trans, lemma_lower_from_in_order};
use crate::ir::{Op, Value, Variable};
use crate::literal::literal_word;
use crate::lower::{lower, lower_block, lower_from, State};
use crate::machine::Machine;
use crate::meaning::{
    assign, bind, bind_all, declared_by, eval, eval_block, eval_from, find, read,
};
use crate::scope::resolve;
use vstd::prelude::*;

verus! {

/// Whether the scopes `env` say of the names what the session `s` and the
/// registers `m` say of them: the same names are bound in the same
/// scopes, each name holds the word of its variable, and no word is
/// stored for a variable that is not declared yet.
#[verifier::opaque]
pub open spec fn agree(s: State, m: Machine, env: Seq<Map<Seq<char>, i64>>) -> bool {
    &&& env.len() == s.scopes.len()
    &&& forall|i: int, name: Seq<char>|
        0 <= i < env.len() ==> (#[trigger] env[i].contains_key(name)
            <==> s.scopes[i].contains_key(name))
    &&& forall|i: int, name: Seq<char>|
        0 <= i < env.len() && s.scopes[i].contains_key(name) ==> env[i][name] == m.load(
            (#[trigger] s.scopes[i][name]).index,
        )
    &&& forall|x: usize| #[trigger] m.vars.contains_key(x) ==> x < s.next_variable_index
}

/// Empty scopes agree with a new session and empty registers.
pub proof fn lemma_agree_initial()
    ensures
        agree(State::initial(), Machine::empty(), seq![Map::empty()]),
{
    reveal(agree);
}

/// A name is found in scopes of words where it resolves in scopes of
/// variables that bind the same names.
proof fn lemma_find_resolve_seq(
    scopes: Seq<Map<Seq<char>, Variable>>,
    env: Seq<Map<Seq<char>, i64>>,
    name: Seq<char>,
)
    requires
        env.len() == scopes.len(),
        forall|i: int, n: Seq<char>|
            0 <= i < env.len() ==> (#[trigger] env[i].contains_key(n) <==> scopes[i].contains_key(
                n,
            )),
    ensures
        find(env, name) is Some <==> resolve(scopes, name) is Some,
        find(env, name) matches Some(i) ==> 0 <= i < env.len() && env[i].contains_key(name)
            && scopes[i].contains_key(name) && resolve(scopes, name) == Some(scopes[i][name]),
    decreases env.len(),
{
    if env.len() > 0 {
        let top = env.len() - 1;
        assert(env[top].contains_key(name) <==> scopes[top].contains_key(name));
        if !env.last().contains_key(name) {
            let e2 = env.drop_last();
            let s2 = scopes.drop_last();
            assert forall|i: int, n: Seq<char>| 0 <= i < e2.len() implies (
            #[trigger] e2[i].contains_key(n) <==> s2[i].contains_key(n)) by {
                assert(e2[i] == env[i]);
                assert(s2[i] == scopes[i]);
                assert(env[i].contains_key(n) <==> scopes[i].contains_key(n));
            }
            lemma_find_resolve_seq(s2, e2, name);
        }
    }
}

/// Where the scopes agree with a session, a name is found where it
/// resolves, and it holds the word of its variable.
pub proof fn lemma_find_resolve(
    s: State,
    m: Machine,
    env: Seq<Map<Seq<char>, i64>>,
    name: Seq<char>,
)
    requires
        agree(s, m, env),
    ensures
        find(env, name) is Some <==> resolve(s.scopes, name) is Some,
        find(env, name) matches Some(i) ==> 0 <= i < env.len() && env[i].contains_key(name)
            && s.scopes[i].contains_key(name) && resolve(s.scopes, name) == Some(
            s.scopes[i][name],
        ) && read(env, name) == m.load(s.scopes[i][name].index),
{
    reveal(agree);
    lemma_find_resolve_seq(s.scopes, env, name);
}

/// Scopes that agree with a session are as many as the session has.
pub proof fn lemma_agree_len(s: State, m: Machine, env: Seq<Map<Seq<char>, i64>>)
    requires
        agree(s, m, env),
    ensures
        env.len() == s.scopes.len(),
{
    reveal(agree);
}

/// Scopes that agree with a session agree with every session that has
/// the same scopes and has declared no fewer variables.
pub proof fn lemma_agree_later(s: State, later: State, m: Machine, env: Seq<Map<Seq<char>, i64>>)
    requires
        agree(s, m, env),
        later.scopes == s.scopes,
        later.next_variable_index >= s.next_variable_index,
    ensures
        agree(later, m, env),
{
    reveal(agree);
}

/// Entering a value changes no name.
pub proof fn lemma_agree_define(
    s: State,
    m: Machine,
    env: Seq<Map<Seq<char>, i64>>,
    position: nat,
    word: i64,
)
    requires
        agree(s, m, env),
    ensures
        agree(s, m.define(position, word), env),
{
    reveal(agree);
}

/// Opening a scope on both sides keeps them in agreement.
pub proof fn lemma_agree_enter(s: State, m: Machine, env: Seq<Map<Seq<char>, i64>>)
    requires
        agree(s, m, env),
    ensures
        agree(s.enter(), m, env.push(Map::empty())),
{
    reveal(agree);
    let e2 = env.push(Map::empty());
    let s2 = s.enter();
    assert forall|i: int, name: Seq<char>| 0 <= i < e2.len() implies (
    #[trigger] e2[i].contains_key(name) <==> s2.scopes[i].contains_key(name)) by {
        if i < env.len() {
            assert(e2[i] == env[i]);
            assert(s2.scopes[i] == s.scopes[i]);
            assert(env[i].contains_key(name) <==> s.scopes[i].contains_key(name));
        }
    }
    assert forall|i: int, name: Seq<char>|
        0 <= i < e2.len() && s2.scopes[i].contains_key(name) implies e2[i][name] == m.load(
        (#[trigger] s2.scopes[i][name]).index,
    ) by {
        assert(i < env.len());
        assert(e2[i] == env[i]);
        assert(s2.scopes[i] == s.scopes[i]);
        assert(s.scopes[i].contains_key(name));
    }
}

/// Closing a scope on both sides keeps them in agreement.
pub proof fn lemma_agree_exit(s: State, m: Machine, env: Seq<Map<Seq<char>, i64>>)
    requires
        agree(s, m, env),
        s.scopes.len() > 0,
    ensures
        agree(s.exit(), m, env.drop_last()),
{
    reveal(agree);
    let e2 = env.drop_last();
    let s2 = s.exit();
    assert forall|i: int, name: Seq<char>| 0 <= i < e2.len() implies (
    #[trigger] e2[i].contains_key(name) <==> s2.scopes[i].contains_key(name)) by {
        assert(e2[i] == env[i]);
        assert(s2.scopes[i] == s.scopes[i]);
        assert(env[i].contains_key(name) <==> s.scopes[i].contains_key(name));
    }
    assert forall|i: int, name: Seq<char>|
        0 <= i < e2.len() && s2.scopes[i].contains_key(name) implies e2[i][name] == m.load(
        (#[trigger] s2.scopes[i][name]).index,
    ) by {
        assert(e2[i] == env[i]);
        assert(s2.scopes[i] == s.scopes[i]);
        assert(s.scopes[i].contains_key(name));
    }
}

/// A declared name holds zero: its variable is new, and nothing is stored
/// for it.
pub proof fn lemma_agree_declare(
    s: State,
    m: Machine,
    env: Seq<Map<Seq<char>, i64>>,
    name: Seq<char>,
)
    requires
        agree(s, m, env),
        s.wf(),
        s.ops.len() < usize::MAX,
    ensures
        agree(s.declare(name), m, bind(env, name, 0)),
{
    reveal(agree);
    let e2 = bind(env, name, 0);
    let s2 = s.declare(name);
    let top = env.len() - 1;
    let var = Variable { index: s.next_variable_index as usize };
    assert(var.index == s.next_variable_index);
    assert(!m.vars.contains_key(var.index));
    assert forall|i: int, n: Seq<char>| 0 <= i < e2.len() implies (#[trigger] e2[i].contains_key(
        n,
    ) <==> s2.scopes[i].contains_key(n)) by {
        assert(env[i].contains_key(n) <==> s.scopes[i].contains_key(n));
    }
    assert forall|i: int, n: Seq<char>|
        0 <= i < e2.len() && s2.scopes[i].contains_key(n) implies e2[i][n] == m.load(
        (#[trigger] s2.scopes[i][n]).index,
    ) by {
        if i == top && n == name {
        } else {
            assert(s.scopes[i].contains_key(n));
            assert(s2.scopes[i][n] == s.scopes[i][n]);
            assert(e2[i][n] == env[i][n]);
        }
    }
}

/// Declaring names one by one keeps both sides in agreement.
pub proof fn lemma_agree_declare_all(
    s: State,
    m: Machine,
    env: Seq<Map<Seq<char>, i64>>,
    names: Seq<Seq<char>>,
    from: nat,
)
    requires
        agree(s, m, env),
        s.wf(),
        s.declare_all(names, from).ops.len() <= usize::MAX,
    ensures
        agree(s.declare_all(names, from), m, bind_all(env, names, from)),
    decreases names.len() - from,
{
    if from < names.len() {
        let declared = s.declare(names[from as int]);
        crate::handles::lemma_declare_all_grows(declared, names, from + 1);
        crate::handles::lemma_declare_wf(s, names[from as int]);
        lemma_agree_declare(s, m, env, names[from as int]);
        lemma_agree_declare_all(
            declared,
            m,
            bind(env, names[from as int], 0),
            names,
            from + 1,
        );
    }
}

/// An assignment stores the word for the name's variable, and for no
/// other name: handles are unique.
pub proof fn lemma_agree_write(
    s: State,
    m: Machine,
    env: Seq<Map<Seq<char>, i64>>,
    name: Seq<char>,
    word: i64,
)
    requires
        agree(s, m, env),
        s.wf(),
        s.ops.len() < usize::MAX,
    ensures
        agree(
            s.resolve_or_declare(name).0,
            m.store(s.resolve_or_declare(name).1.index, word),
            assign(env, name, word),
        ),
{
    lemma_find_resolve(s, m, env, name);
    reveal(agree);
    let (s2, var) = s.resolve_or_declare(name);
    let m2 = m.store(var.index, word);
    let e2 = assign(env, name, word);
    match find(env, name) {
        Some(at) => {
            assert(s2 == s);
            assert(var == s.scopes[at][name]);
            assert forall|i: int, n: Seq<char>| 0 <= i < e2.len() implies (
            #[trigger] e2[i].contains_key(n) <==> s2.scopes[i].contains_key(n)) by {
                assert(env[i].contains_key(n) <==> s.scopes[i].contains_key(n));
            }
            assert forall|i: int, n: Seq<char>|
                0 <= i < e2.len() && s2.scopes[i].contains_key(n) implies e2[i][n] == m2.load(
                (#[trigger] s2.scopes[i][n]).index,
            ) by {
                if i == at && n == name {
                } else {
                    assert(s.scopes[i][n] != s.scopes[at][name]);
                    assert(s.scopes[i][n].index != var.index);
                    assert(e2[i][n] == env[i][n]);
                }
            }
            assert forall|x: usize| #[trigger] m2.vars.contains_key(x) implies x
                < s2.next_variable_index by {
                if x == var.index {
                    assert(s.scopes[at][name].index < s.next_variable_index);
                }
            }
        },
        None => {
            let top = env.len() - 1;
            assert(var.index == s.next_variable_index);
            assert forall|i: int, n: Seq<char>| 0 <= i < e2.len() implies (
            #[trigger] e2[i].contains_key(n) <==> s2.scopes[i].contains_key(n)) by {
                assert(env[i].contains_key(n) <==> s.scopes[i].contains_key(n));
            }
            assert forall|i: int, n: Seq<char>|
                0 <= i < e2.len() && s2.scopes[i].contains_key(n) implies e2[i][n] == m2.load(
                (#[trigger] s2.scopes[i][n]).index,
            ) by {
                if i == top && n == name {
                } else {
                    assert(s.scopes[i].contains_key(n));
                    assert(s2.scopes[i][n] == s.scopes[i][n]);
                    assert(s.scopes[i][n].index < s.next_variable_index);
                    assert(e2[i][n] == env[i][n]);
                }
            }
        },
    }
}

/// A state that is ready is well-formed.
pub proof fn lemma_ready_wf(s: State)
    requires
        ready(s),
    ensures
        s.wf(),
{
    reveal(ready);
}

/// Lowering an expression declares, in the session, the names that the
/// expression declares in the scopes; the registers are as before.
pub proof fn lemma_declared_by(
    e: ExprView,
    s: State,
    m: Machine,
    env: Seq<Map<Seq<char>, i64>>,
    ops: Seq<Op>,
)
    requires
        lowered_into(e, s, ops),
        agree(s, m, env),
    ensures
        agree(lower(e, s).state, m, declared_by(e, env)),
    decreases e,
{
    let end = lower(e, s).state;
    lemma_ready_wf(s);
    match e {
        ExprView::IntegerLiteral(_) => {
            lemma_agree_later(s, end, m, env);
        },
        ExprView::Nil => {
            lemma_agree_later(s, end, m, env);
        },
        ExprView::Reference(_) => {
            lemma_agree_later(s, end, m, env);
        },
        ExprView::Binary(op, lhs, rhs) => {
            let l = lower(*lhs, s);
            let r = lower(*rhs, l.state);
            lemma_binary_layout(e, s, ops);
            lemma_declared_by(*lhs, s, m, env, ops);
            lemma_declared_by(*rhs, l.state, m, declared_by(*lhs, env), ops);
            lemma_agree_later(r.state, end, m, declared_by(e, env));
        },
        ExprView::Block(items) => {
            lemma_lower_block_depth(items, None, s);
            lemma_lower_block_wf(items, None, s);
            lemma_agree_later(s, end, m, env);
        },
        ExprView::FunctionLiteral { params, body } => match *body {
            ExprView::Block(items) => {
                lemma_lower_block_depth(items, Some(params), s);
                lemma_lower_block_wf(items, Some(params), s);
                lemma_agree_later(s, end, m, env);
            },
            _ => {},
        },
        ExprView::Assign(name, value) => {
            let r = lower(*value, s);
            let inner = declared_by(*value, env);
            lemma_assign_layout(e, s, ops);
            lemma_declared_by(*value, s, m, env, ops);
            lemma_find_resolve(r.state, m, inner, name);
            let (bound, var) = r.state.resolve_or_declare(name);
            if resolve(r.state.scopes, name) is None {
                lemma_lower_ready(*value, s);
                lemma_ready_wf(r.state);
                lemma_agree_declare(r.state, m, inner, name);
            }
            lemma_agree_later(bound, end, m, declared_by(e, env));
        },
        ExprView::Conditional(condition, then_branch, else_branch) => {
            let c = lower(*condition, s);
            let b = c.state.branch(c.result->Ok_0);
            let t = lower(*then_branch, b);
            let w = t.state.switch(c.state.ops.len(), t.result->Ok_0);
            let l = lower(*else_branch, w);
            let env1 = declared_by(*condition, env);
            let env2 = declared_by(*then_branch, env1);
            lemma_conditional_layout(e, s, ops);
            lemma_declared_by(*condition, s, m, env, ops);
            lemma_agree_later(c.state, b, m, env1);
            lemma_declared_by(*then_branch, b, m, env1, ops);
            lemma_agree_later(t.state, w, m, env2);
            lemma_declared_by(*else_branch, w, m, env2, ops);
            lemma_agree_later(l.state, end, m, declared_by(e, env));
        },
    }
}

/// What is claimed of the evaluation of an expression as a tree: it has a
/// result if and only if the expression has a meaning, and then the word
/// entered for the value of the expression is the word that the
/// expression means, and the scopes behind the expression agree with the
/// session and the registers behind its code.
pub open spec fn means(e: ExprView, s: State, m: Machine, env: Seq<Map<Seq<char>, i64>>) -> bool {
    match perform(e, s, m) {
        Some(after) => eval(e, env) matches Some(r) && r.word == after.values[lower(
            e,
            s,
        ).result->Ok_0.def] && agree(lower(e, s).state, after, r.env),
        None => eval(e, env) is None,
    }
}

/// The evaluation of an expression as a tree computes what the expression
/// means.
pub proof fn lemma_eval(
    e: ExprView,
    s: State,
    m: Machine,
    env: Seq<Map<Seq<char>, i64>>,
    ops: Seq<Op>,
)
    requires
        lowered_into(e, s, ops),
        agree(s, m, env),
    ensures
        means(e, s, m, env),
    decreases e, 1nat,
{
    let end = lower(e, s).state;
    let n0 = s.ops.len();
    match e {
        ExprView::IntegerLiteral(text) => {
            lemma_agree_later(s, end, m, env);
            lemma_agree_define(end, m, env, n0, literal_word(text));
        },
        ExprView::Nil => {
            lemma_agree_later(s, end, m, env);
            lemma_agree_define(end, m, env, n0, 0);
        },
        ExprView::Reference(name) => {
            lemma_find_resolve(s, m, env, name);
            let var = resolve(s.scopes, name)->0;
            lemma_agree_later(s, end, m, env);
            lemma_agree_define(end, m, env, n0, m.load(var.index));
        },
        ExprView::Binary(op, lhs, rhs) => {
            lemma_eval_binary(e, s, m, env, ops);
        },
        ExprView::Block(items) => {
            lemma_eval_block(items, None, s, m, env, ops);
        },
        ExprView::Assign(name, value) => {
            lemma_eval_assign(e, s, m, env, ops);
        },
        ExprView::Conditional(condition, then_branch, else_branch) => {
            lemma_eval_conditional(e, s, m, env, ops);
        },
        ExprView::FunctionLiteral { params, body } => {
            assert(first_order(*body));
            match *body {
                ExprView::Block(items) => {
                    lemma_eval_block(items, Some(params), s, m, env, ops);
                },
                _ => {},
            }
        },
    }
}

/// [`lemma_eval`], for a binary node.
proof fn lemma_eval_binary(
    e: ExprView,
    s: State,
    m: Machine,
    env: Seq<Map<Seq<char>, i64>>,
    ops: Seq<Op>,
)
    requires
        lowered_into(e, s, ops),
        agree(s, m, env),
        e is Binary,
    ensures
        means(e, s, m, env),
    decreases e, 0nat,
{
    let op = e->Binary_0;
    let lhs = *e->Binary_1;
    let rhs = *e->Binary_2;
    let l = lower(lhs, s);
    let r = lower(rhs, l.state);
    let a = l.result->Ok_0;
    let b = r.result->Ok_0;
    let end = lower(e, s).state;
    let args = Seq::<i64>::empty();
    lemma_binary_layout(e, s, ops);
    lemma_eval(lhs, s, m, env, ops);
    lemma_run_lowered(lhs, s, m, ops, args);
    if let Some(m1) = perform(lhs, s, m) {
        let ea = eval(lhs, env)->0;
        lemma_eval(rhs, l.state, m1, ea.env, ops);
        lemma_run_lowered(rhs, l.state, m1, ops, args);
        if let Some(m2) = perform(rhs, l.state, m1) {
            let eb = eval(rhs, ea.env)->0;
            assert(m1.values.contains_key(a.def));
            assert(m2.values[a.def] == m1.values[a.def]);
            if let Some(word) = crate::machine::apply(op, m2.values[a.def], m2.values[b.def]) {
                lemma_agree_later(r.state, end, m2, eb.env);
                lemma_agree_define(end, m2, eb.env, r.state.ops.len(), word);
            }
        }
    }
}

/// [`lemma_eval`], for an assignment.
proof fn lemma_eval_assign(
    e: ExprView,
    s: State,
    m: Machine,
    env: Seq<Map<Seq<char>, i64>>,
    ops: Seq<Op>,
)
    requires
        lowered_into(e, s, ops),
        agree(s, m, env),
        e is Assign,
    ensures
        means(e, s, m, env),
    decreases e, 0nat,
{
    let name = e->Assign_0;
    let value = *e->Assign_1;
    let r = lower(value, s);
    let v = r.result->Ok_0;
    let (bound, var) = r.state.resolve_or_declare(name);
    let end = lower(e, s).state;
    lemma_assign_layout(e, s, ops);
    lemma_eval(value, s, m, env, ops);
    if let Some(m1) = perform(value, s, m) {
        let ev = eval(value, env)->0;
        lemma_lower_ready(value, s);
        lemma_ready_wf(r.state);
        lemma_agree_write(r.state, m1, ev.env, name, ev.word);
        let after = m1.store(var.index, ev.word);
        lemma_agree_later(bound, end, after, assign(ev.env, name, ev.word));
    }
}

/// [`lemma_eval`], for a conditional.
proof fn lemma_eval_conditional(
    e: ExprView,
    s: State,
    m: Machine,
    env: Seq<Map<Seq<char>, i64>>,
    ops: Seq<Op>,
)
    requires
        lowered_into(e, s, ops),
        agree(s, m, env),
        e is Conditional,
    ensures
        means(e, s, m, env),
    decreases e, 0nat,
{
    let condition = *e->Conditional_0;
    let then_branch = *e->Conditional_1;
    let else_branch = *e->Conditional_2;
    let c = lower(condition, s);
    let cond = c.result->Ok_0;
    let phi = c.state.ops.len() + 2;
    let b = c.state.branch(cond);
    let t = lower(then_branch, b);
    let then_value = t.result->Ok_0;
    let w = t.state.switch(c.state.ops.len(), then_value);
    let l = lower(else_branch, w);
    let else_value = l.result->Ok_0;
    let whole = lower(e, s);
    let end = whole.state;
    lemma_conditional_layout(e, s, ops);
    lemma_eval(condition, s, m, env, ops);
    assert(whole.result->Ok_0.def == phi);
    match perform(condition, s, m) {
        None => {
            assert(perform(e, s, m) is None);
        },
        Some(mc) => {
            let ec = eval(condition, env)->0;
            lemma_agree_later(c.state, b, mc, ec.env);
            if mc.values[cond.def] != 0 {
                lemma_eval(then_branch, b, mc, ec.env, ops);
                match perform(then_branch, b, mc) {
                    None => {
                        assert(perform(e, s, m) is None);
                    },
                    Some(mt) => {
                        let et = eval(then_branch, ec.env)->0;
                        let after = mt.define(phi, mt.values[then_value.def]);
                        assert(perform(e, s, m) == Some(after));
                        lemma_agree_later(t.state, w, mt, et.env);
                        lemma_declared_by(else_branch, w, mt, et.env, ops);
                        let last = declared_by(else_branch, et.env);
                        lemma_agree_later(l.state, end, mt, last);
                        lemma_agree_define(end, mt, last, phi, mt.values[then_value.def]);
                    },
                }
            } else {
                lemma_declared_by(then_branch, b, mc, ec.env, ops);
                let skipped = declared_by(then_branch, ec.env);
                lemma_agree_later(t.state, w, mc, skipped);
                lemma_eval(else_branch, w, mc, skipped, ops);
                match perform(else_branch, w, mc) {
                    None => {
                        assert(perform(e, s, m) is None);
                    },
                    Some(me) => {
                        let ee = eval(else_branch, skipped)->0;
                        let after = me.define(phi, me.values[else_value.def]);
                        assert(perform(e, s, m) == Some(after));
                        lemma_agree_later(l.state, end, me, ee.env);
                        lemma_agree_define(end, me, ee.env, phi, me.values[else_value.def]);
                    },
                }
            }
        },
    }
}

/// [`lemma_eval`], for the rest of a list of expressions.
pub proof fn lemma_eval_from(
    items: Seq<ExprView>,
    from: nat,
    s: State,
    last: Value,
    m: Machine,
    env: Seq<Map<Seq<char>, i64>>,
    last_word: i64,
    ops: Seq<Op>,
)
    requires
        forall|i: int| 0 <= i < items.len() ==> first_order(#[trigger] items[i]),
        ready(s),
        lower_from(items, from, s, last).result is Ok,
        extends(lower_from(items, from, s, last).state.ops, ops),
        lower_from(items, from, s, last).state.ops.len() <= usize::MAX,
        agree(s, m, env),
    ensures
        match perform_from(items, from, s, m) {
            Some(after) => eval_from(items, from, env, last_word) matches Some(r) && agree(
                lower_from(items, from, s, last).state,
                after,
                r.env,
            ) && r.word == (if from < items.len() {
                after.values[lower_from(items, from, s, last).result->Ok_0.def]
            } else {
                last_word
            }),
            None => eval_from(items, from, env, last_word) is None,
        },
    decreases items, items.len() - from,
{
    if from < items.len() {
        let e = items[from as int];
        let r = lower(e, s);
        let v = r.result->Ok_0;
        let end = lower_from(items, from, s, last).state;
        lemma_lower_from_in_order(items, from + 1, r.state, v);
        lemma_lower_ready(e, s);
        lemma_extends_trans(r.state.ops, end.ops, ops);
        lemma_eval(e, s, m, env, ops);
        lemma_run_from_bounds(items, from + 1, r.state, v);
        if let Some(m1) = perform(e, s, m) {
            let ev = eval(e, env)->0;
            lemma_eval_from(items, from + 1, r.state, v, m1, ev.env, ev.word, ops);
        }
    }
}

/// [`lemma_eval`], for a block.
pub proof fn lemma_eval_block(
    items: Seq<ExprView>,
    with_variables: Option<Seq<Seq<char>>>,
    s: State,
    m: Machine,
    env: Seq<Map<Seq<char>, i64>>,
    ops: Seq<Op>,
)
    requires
        forall|i: int| 0 <= i < items.len() ==> first_order(#[trigger] items[i]),
        ready(s),
        lower_block(items, with_variables, s).result is Ok,
        extends(lower_block(items, with_variables, s).state.ops, ops),
        lower_block(items, with_variables, s).state.ops.len() <= usize::MAX,
        agree(s, m, env),
    ensures
        match perform_block(items, with_variables, s, m) {
            Some(after) => eval_block(items, with_variables, env) matches Some(r) && r.word
                == after.values[lower_block(items, with_variables, s).result->Ok_0.def] && agree(
                lower_block(items, with_variables, s).state,
                after,
                r.env,
            ),
            None => eval_block(items, with_variables, env) is None,
        },
    decreases items, items.len() + 1,
{
    let o = opened(s, with_variables);
    let whole = lower_block(items, with_variables, s);
    let end = whole.state;
    let inner = match with_variables {
        Some(names) => bind_all(env.push(Map::empty()), names, 0),
        None => env.push(Map::empty()),
    };
    if items.len() == 0 {
        assert(extends(o.ops, end.ops));
    } else {
        lemma_lower_from_in_order(items, 0, o, Value { def: 0 });
    }
    lemma_opened_ready(s, with_variables);
    lemma_ready_wf(s);
    lemma_ready_wf(o);
    lemma_extends_trans(o.ops, end.ops, ops);
    lemma_agree_enter(s, m, env);
    if let Some(names) = with_variables {
        crate::handles::lemma_enter_wf(s);
        lemma_agree_declare_all(s.enter(), m, env.push(Map::empty()), names, 0);
    }
    assert(agree(o, m, inner));
    if items.len() == 0 {
        let after = m.define(o.ops.len(), 0);
        let emitted = o.emit(Op::Iconst { imm: 0 });
        lemma_agree_later(o, emitted, m, inner);
        lemma_agree_define(emitted, m, inner, o.ops.len(), 0);
        lemma_agree_exit(emitted, after, inner);
    } else {
        lemma_eval_from(items, 0, o, Value { def: 0 }, m, inner, 0, ops);
        if let Some(after) = perform_from(items, 0, o, m) {
            let r = eval_from(items, 0, inner, 0)->0;
            let behind = lower_from(items, 0, o, Value { def: 0 }).state;
            crate::lower::lemma_lower_from_depth(items, 0, o, Value { def: 0 });
            lemma_agree_exit(behind, after, r.env);
        }
    }
}

/// A program in which no function literal is assigned returns what its
/// expressions mean: the program has a result if and only if they mean
/// something, and then the result is the word that they mean.
pub proof fn law_program_returns_its_meaning(items: Seq<ExprView>)
    requires
        forall|i: int| 0 <= i < items.len() ==> first_order(#[trigger] items[i]),
        crate::translate::compile(items) is Ok,
        crate::translate::compile(items)->Ok_0.ops.len() <= usize::MAX,
    ensures
        crate::machine::result_of(crate::translate::compile(items)->Ok_0.ops)
            == crate::meaning::value_of(items),
{
    let s = State::initial();
    let ops = crate::translate::compile(items)->Ok_0.ops;
    crate::execution::lemma_program_returns_its_value(items);
    crate::execution::lemma_initial_ready();
    lemma_agree_initial();
    assert(extends(lower_block(items, None, s).state.ops, ops));
    lemma_eval_block(items, None, s, Machine::empty(), seq![Map::empty()], ops);
}

/// The word that an expression is evaluated to does not depend on the
/// session that lowers it: two sessions, each with handles of its own,
/// emit code that computes the same word, or that stops at a division by
/// zero alike, given registers that hold the same words for the same
/// names.
pub proof fn law_same_tree_same_word(
    e: ExprView,
    first: State,
    second: State,
    m1: Machine,
    m2: Machine,
    env: Seq<Map<Seq<char>, i64>>,
    ops1: Seq<Op>,
    ops2: Seq<Op>,
)
    requires
        lowered_into(e, first, ops1),
        lowered_into(e, second, ops2),
        agree(first, m1, env),
        agree(second, m2, env),
    ensures
        match (perform(e, first, m1), perform(e, second, m2)) {
            (Some(a), Some(b)) => a.values[lower(e, first).result->Ok_0.def] == b.values[lower(
                e,
                second,
            ).result->Ok_0.def],
            (None, None) => true,
            _ => false,
        },
{
    lemma_eval(e, first, m1, env, ops1);
    lemma_eval(e, second, m2, env, ops2);
}

} // verus!
