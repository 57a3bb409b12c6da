use crate::ast::ExprView;
use crate::handles::{lemma_declare_all_wf, lemma_enter_wf, lemma_lower_wf};
use crate::ir::{Ebb, Op, Value, Variable};
use crate::literal::literal_word;
use crate::lower::{lower, lower_block, lower_from, State};
use crate::machine::{apply, block_entry, block_param, declared, run, Machine};
use crate::declared::{
    lemma_declaration_found, lemma_declare_all_declared, lemma_declared_extends,
    lemma_emit_declared, lemma_enter_declared, lemma_lower_declared, scopes_declared,
};
use crate::scope::resolve;
use crate::sealing::{
    extends, lemma_conditional_first, lemma_conditional_second, lemma_declare_all_in_order,
    lemma_extends_trans, lemma_lower_from_in_order, lemma_lower_in_order,
    lemma_segment_extends, lemma_segment_join, names, opens_conditional, segment_ok,
    switches_conditional,
};
use vstd::prelude::*;

verus! {

/// Whether no function literal is assigned anywhere in `e`: lowering `e`
/// begins no function unit.
pub open spec fn first_order(e: ExprView) -> bool
    decreases e,
{
    match e {
        ExprView::IntegerLiteral(_) => true,
        ExprView::Nil => true,
        ExprView::Reference(_) => true,
        ExprView::Binary(_, lhs, rhs) => first_order(*lhs) && first_order(*rhs),
        ExprView::Block(items) => forall|i: int|
            0 <= i < items.len() ==> first_order(#[trigger] items[i]),
        ExprView::Assign(_, value) => !(*value is FunctionLiteral) && first_order(*value),
        ExprView::Conditional(condition, then_branch, else_branch) => first_order(*condition)
            && first_order(*then_branch) && first_order(*else_branch),
        ExprView::FunctionLiteral { params, body } => first_order(*body),
    }
}

/// A search for the entry of a block passes over operations that do not
/// continue in it.
pub proof fn lemma_block_entry_skip(ops: Seq<Op>, target: Ebb, from: nat, to: nat)
    requires
        from <= to <= ops.len(),
        forall|p: int| from <= p < to ==> #[trigger] ops[p] != (Op::SwitchToBlock { ebb: target }),
    ensures
        block_entry(ops, target, from) == block_entry(ops, target, to),
    decreases to - from,
{
    if from < to {
        assert(ops[from as int] != (Op::SwitchToBlock { ebb: target }));
        lemma_block_entry_skip(ops, target, from + 1, to);
    }
}

/// A search for the parameter of a block passes over operations that do
/// not give it one.
pub proof fn lemma_block_param_skip(ops: Seq<Op>, target: Ebb, from: nat, to: nat)
    requires
        from <= to <= ops.len(),
        forall|p: int| from <= p < to ==> #[trigger] ops[p] != (Op::AppendEbbParam { ebb: target }),
    ensures
        block_param(ops, target, from) == block_param(ops, target, to),
    decreases to - from,
{
    if from < to {
        assert(ops[from as int] != (Op::AppendEbbParam { ebb: target }));
        lemma_block_param_skip(ops, target, from + 1, to);
    }
}

/// What a state is asked for before the code lowered from it can be run:
/// it is well-formed, its operations name only blocks created before
/// them, and its scopes bind declared variables.
#[verifier::opaque]
pub open spec fn ready(s: State) -> bool {
    &&& s.wf()
    &&& segment_ok(s.ops, 0, s.ops.len() as int)
    &&& scopes_declared(s)
}

/// What becomes of the registers `m` when the expression `e`, lowered
/// from state `s`, is evaluated as a tree: operands before the
/// instruction, the expressions of a block in order, the right-hand side
/// before the write, and of the two branches of a conditional the first
/// if the condition is not zero, else the second. The value of every
/// node is entered at the position of the operation that defines it.
/// There is no result where a division by zero is met.
pub open spec fn perform(e: ExprView, s: State, m: Machine) -> Option<Machine>
    decreases e, 0nat,
{
    let at = s.ops.len();
    match e {
        ExprView::IntegerLiteral(text) => Some(m.define(at, literal_word(text))),
        ExprView::Nil => Some(m.define(at, 0)),
        ExprView::Reference(name) => Some(
            m.define(at, m.load(resolve(s.scopes, name)->0.index)),
        ),
        ExprView::Binary(op, lhs, rhs) => {
            let l = lower(*lhs, s);
            let r = lower(*rhs, l.state);
            match perform(*lhs, s, m) {
                None => None,
                Some(m1) => match perform(*rhs, l.state, m1) {
                    None => None,
                    Some(m2) => match apply(
                        op,
                        m2.values[l.result->Ok_0.def],
                        m2.values[r.result->Ok_0.def],
                    ) {
                        None => None,
                        Some(word) => Some(m2.define(r.state.ops.len(), word)),
                    },
                },
            }
        },
        ExprView::Block(items) => perform_block(items, None, s, m),
        ExprView::Assign(name, value) => {
            let r = lower(*value, s);
            match perform(*value, s, m) {
                None => None,
                Some(m1) => Some(
                    m1.store(
                        r.state.resolve_or_declare(name).1.index,
                        m1.values[r.result->Ok_0.def],
                    ),
                ),
            }
        },
        ExprView::Conditional(condition, then_branch, else_branch) => {
            let c = lower(*condition, s);
            let cond = c.result->Ok_0;
            let phi = c.state.ops.len() + 2;
            match perform(*condition, s, m) {
                None => None,
                Some(mc) => if mc.values[cond.def] != 0 {
                    let t = lower(*then_branch, c.state.branch(cond));
                    match perform(*then_branch, c.state.branch(cond), mc) {
                        None => None,
                        Some(mt) => Some(mt.define(phi, mt.values[t.result->Ok_0.def])),
                    }
                } else {
                    let t = lower(*then_branch, c.state.branch(cond));
                    let from = t.state.switch(c.state.ops.len(), t.result->Ok_0);
                    let l = lower(*else_branch, from);
                    match perform(*else_branch, from, mc) {
                        None => None,
                        Some(me) => Some(me.define(phi, me.values[l.result->Ok_0.def])),
                    }
                },
            }
        },
        ExprView::FunctionLiteral { params, body } => match *body {
            ExprView::Block(items) => perform_block(items, Some(params), s, m),
            _ => None,
        },
    }
}

/// [`perform`], for the expressions of `items` from position `from` on.
pub open spec fn perform_from(items: Seq<ExprView>, from: nat, s: State, m: Machine) -> Option<
    Machine,
>
    decreases items, items.len() - from,
{
    if from >= items.len() {
        Some(m)
    } else {
        match perform(items[from as int], s, m) {
            None => None,
            Some(m1) => perform_from(items, from + 1, lower(items[from as int], s).state, m1),
        }
    }
}

/// [`perform`], for a block: its expressions in order; an empty block has
/// the value zero.
pub open spec fn perform_block(
    items: Seq<ExprView>,
    with_variables: Option<Seq<Seq<char>>>,
    s: State,
    m: Machine,
) -> Option<Machine>
    decreases items, items.len() + 1,
{
    let opened = match with_variables {
        Some(names) => s.enter().declare_all(names, 0),
        None => s.enter(),
    };
    if items.len() == 0 {
        Some(m.define(opened.ops.len(), 0))
    } else {
        perform_from(items, 0, opened, m)
    }
}

/// Whether two machines hold the same values at the positions below
/// `limit`.
pub open spec fn same_values_below(a: Machine, b: Machine, limit: nat) -> bool {
    forall|p: usize|
        p < limit ==> (#[trigger] a.values.contains_key(p) == b.values.contains_key(p))
            && a.values[p] == b.values[p]
}

/// A name that resolves is bound, in one of the scopes, to the variable
/// that it resolves to.
pub proof fn lemma_resolve_bound(scopes: Seq<Map<Seq<char>, Variable>>, name: Seq<char>) -> (i:
    int)
    requires
        resolve(scopes, name) is Some,
    ensures
        0 <= i < scopes.len(),
        scopes[i].contains_key(name),
        scopes[i][name] == resolve(scopes, name)->0,
    decreases scopes.len(),
{
    if scopes.last().contains_key(name) {
        scopes.len() - 1
    } else {
        lemma_resolve_bound(scopes.drop_last(), name)
    }
}

/// Whether running `ops` from position `from` with registers `m` comes to
/// running it from position `to` with the registers `after`, or has no
/// result if there are none.
pub open spec fn continues(
    ops: Seq<Op>,
    args: Seq<i64>,
    from: nat,
    m: Machine,
    to: nat,
    after: Option<Machine>,
) -> bool {
    run(ops, args, from, m) == match after {
        Some(next) => run(ops, args, to, next),
        None => None,
    }
}

/// The machine passes over an operation that only builds.
proof fn lemma_step_over(ops: Seq<Op>, args: Seq<i64>, pc: nat, m: Machine)
    requires
        pc < ops.len(),
        ops[pc as int] is CreateEbb || ops[pc as int] is AppendEbbParam || ops[pc as int]
            is SealBlock || ops[pc as int] is DeclareVar || ops[pc as int] is Publish,
    ensures
        run(ops, args, pc, m) == run(ops, args, pc + 1, m),
{
}

/// The machine passes over the declarations of a list of names.
proof fn lemma_run_declare_all(
    s: State,
    names: Seq<Seq<char>>,
    from: nat,
    ops: Seq<Op>,
    args: Seq<i64>,
    m: Machine,
)
    requires
        extends(s.declare_all(names, from).ops, ops),
    ensures
        run(ops, args, s.ops.len(), m) == run(
            ops,
            args,
            s.declare_all(names, from).ops.len(),
            m,
        ),
        extends(s.ops, s.declare_all(names, from).ops),
    decreases names.len() - from,
{
    if from < names.len() {
        let declared = s.declare(names[from as int]);
        lemma_run_declare_all(declared, names, from + 1, ops, args, m);
        let end = s.declare_all(names, from).ops;
        assert(extends(s.ops, declared.ops));
        lemma_extends_trans(s.ops, declared.ops, end);
        assert(ops[s.ops.len() as int] == end[s.ops.len() as int]);
        assert(end[s.ops.len() as int] == declared.ops[s.ops.len() as int]);
        lemma_step_over(ops, args, s.ops.len(), m);
    }
}

/// A state that is ready stays so when an expression is lowered from it.
pub proof fn lemma_lower_ready(e: ExprView, s: State)
    requires
        ready(s),
        lower(e, s).state.ops.len() <= usize::MAX,
    ensures
        ready(lower(e, s).state),
        extends(s.ops, lower(e, s).state.ops),
{
    reveal(ready);
    let end = lower(e, s).state.ops;
    lemma_lower_wf(e, s);
    lemma_lower_declared(e, s);
    lemma_lower_in_order(e, s);
    lemma_segment_extends(s.ops, end, 0, s.ops.len() as int);
    lemma_segment_join(end, 0, s.ops.len() as int, end.len() as int);
}

/// The state in which the first branch of a conditional is lowered is
/// ready.
pub proof fn lemma_branch_ready(c: State, cond: Value)
    requires
        ready(c),
        c.ops.len() + 4 <= usize::MAX,
    ensures
        ready(c.branch(cond)),
        extends(c.ops, c.branch(cond).ops),
        opens_conditional(c.branch(cond).ops, c.ops.len() as int),
        c.branch(cond).ops[c.ops.len() as int + 3] == (Op::Brz {
            cond,
            target: Ebb { def: c.ops.len() as usize },
        }),
        c.branch(cond).ops.len() == c.ops.len() + 4,
{
    reveal(ready);
    let at = c.ops.len() as int;
    let merge = Ebb { def: (at + 1) as usize };
    let s1 = c.emit(Op::CreateEbb);
    let s2 = s1.emit(Op::CreateEbb);
    let s3 = s2.emit(Op::AppendEbbParam { ebb: merge });
    let b = c.branch(cond);
    lemma_emit_declared(c, Op::CreateEbb);
    lemma_emit_declared(s1, Op::CreateEbb);
    lemma_emit_declared(s2, Op::AppendEbbParam { ebb: merge });
    lemma_emit_declared(s3, Op::Brz { cond, target: Ebb { def: at as usize } });
    assert(extends(c.ops, b.ops));
    lemma_segment_extends(c.ops, b.ops, 0, at);
    assert(opens_conditional(b.ops, at));
    lemma_conditional_first(b.ops, at, at + 4);
    lemma_segment_join(b.ops, 0, at, at + 4);
}

/// The state in which the second branch of a conditional is lowered is
/// ready.
pub proof fn lemma_switch_ready(c: State, t: State, then_value: Value)
    requires
        ready(t),
        c.ops.len() + 4 <= t.ops.len(),
        t.ops.len() + 3 <= usize::MAX,
        opens_conditional(t.ops, c.ops.len() as int),
        segment_ok(t.ops, c.ops.len() as int + 4, t.ops.len() as int),
    ensures
        ready(t.switch(c.ops.len(), then_value)),
        extends(t.ops, t.switch(c.ops.len(), then_value).ops),
        switches_conditional(
            t.switch(c.ops.len(), then_value).ops,
            c.ops.len() as int,
            t.ops.len() as int,
        ),
        t.switch(c.ops.len(), then_value).ops[t.ops.len() as int] == (Op::Jump {
            target: Ebb { def: (c.ops.len() + 1) as usize },
            arg: then_value,
        }),
        t.switch(c.ops.len(), then_value).ops.len() == t.ops.len() + 3,
{
    reveal(ready);
    let at = c.ops.len() as int;
    let then_end = t.ops.len() as int;
    let else_ebb = Ebb { def: at as usize };
    let merge = Ebb { def: (at + 1) as usize };
    let t1 = t.emit(Op::Jump { target: merge, arg: then_value });
    let t2 = t1.emit(Op::SwitchToBlock { ebb: else_ebb });
    let e = t.switch(c.ops.len(), then_value);
    lemma_emit_declared(t, Op::Jump { target: merge, arg: then_value });
    lemma_emit_declared(t1, Op::SwitchToBlock { ebb: else_ebb });
    lemma_emit_declared(t2, Op::SealBlock { ebb: else_ebb });
    assert(extends(t.ops, e.ops));
    lemma_segment_extends(t.ops, e.ops, 0, at);
    lemma_segment_extends(t.ops, e.ops, at + 4, then_end);
    assert(opens_conditional(e.ops, at)) by {
        assert(e.ops[at] == t.ops[at]);
        assert(e.ops[at + 1] == t.ops[at + 1]);
        assert(e.ops[at + 2] == t.ops[at + 2]);
        assert(e.ops[at + 3] == t.ops[at + 3]);
    }
    assert(switches_conditional(e.ops, at, then_end));
    lemma_conditional_second(e.ops, at, then_end, then_end + 3);
    lemma_segment_join(e.ops, 0, at, then_end + 3);
}

/// Whether `ops` holds the code of a conditional from position `at` on:
/// the four operations that open it, the code of the first branch up to
/// `then_end`, the three operations that lead to the second branch, its
/// code up to `else_end`, and the three operations that close the
/// conditional; the code before and the code of each branch name only
/// blocks of their own.
#[verifier::opaque]
pub open spec fn conditional_laid_out(
    ops: Seq<Op>,
    at: int,
    then_end: int,
    else_end: int,
    cond: Value,
    then_value: Value,
    else_value: Value,
) -> bool {
    &&& else_end + 3 <= ops.len()
    &&& else_end + 3 <= usize::MAX
    &&& opens_conditional(ops, at)
    &&& ops[at + 3] == (Op::Brz { cond, target: Ebb { def: at as usize } })
    &&& switches_conditional(ops, at, then_end)
    &&& ops[then_end] == (Op::Jump { target: Ebb { def: (at + 1) as usize }, arg: then_value })
    &&& then_end + 3 <= else_end
    &&& ops[else_end] == (Op::Jump { target: Ebb { def: (at + 1) as usize }, arg: else_value })
    &&& ops[else_end + 1] == (Op::SwitchToBlock { ebb: Ebb { def: (at + 1) as usize } })
    &&& ops[else_end + 2] == (Op::SealBlock { ebb: Ebb { def: (at + 1) as usize } })
    &&& segment_ok(ops, 0, at)
    &&& segment_ok(ops, at + 4, then_end)
    &&& segment_ok(ops, then_end + 3, else_end)
}

/// How the machine runs a conditional, given how it runs the two
/// branches: from the creation of the two blocks on, it comes to the end
/// of the conditional with the merge-block's parameter holding the value
/// of the first branch if the condition is not zero, else that of the
/// second.
proof fn lemma_run_conditional(
    ops: Seq<Op>,
    args: Seq<i64>,
    at: int,
    then_end: int,
    else_end: int,
    cond: Value,
    then_value: Value,
    else_value: Value,
    mc: Machine,
    after_then: Option<Machine>,
    after_else: Option<Machine>,
)
    requires
        conditional_laid_out(ops, at, then_end, else_end, cond, then_value, else_value),
        mc.values.contains_key(cond.def),
        continues(ops, args, (at + 4) as nat, mc, then_end as nat, after_then),
        after_then matches Some(mt) ==> mt.values.contains_key(then_value.def),
        continues(ops, args, (then_end + 3) as nat, mc, else_end as nat, after_else),
        after_else matches Some(me) ==> me.values.contains_key(else_value.def),
    ensures
        run(ops, args, at as nat, mc) == (if mc.values[cond.def] != 0 {
            match after_then {
                None => None,
                Some(mt) => run(
                    ops,
                    args,
                    (else_end + 3) as nat,
                    mt.define((at + 2) as nat, mt.values[then_value.def]),
                ),
            }
        } else {
            match after_else {
                None => None,
                Some(me) => run(
                    ops,
                    args,
                    (else_end + 3) as nat,
                    me.define((at + 2) as nat, me.values[else_value.def]),
                ),
            }
        }),
{
    reveal(conditional_laid_out);
    let else_ebb = Ebb { def: at as usize };
    let merge = Ebb { def: (at + 1) as usize };
    assert(else_ebb != merge);
    lemma_step_over(ops, args, at as nat, mc);
    lemma_step_over(ops, args, (at + 1) as nat, mc);
    lemma_step_over(ops, args, (at + 2) as nat, mc);
    assert(run(ops, args, at as nat, mc) == run(ops, args, (at + 3) as nat, mc));
    // The parameter of the merge-block is the one given behind its creation.
    assert(block_param(ops, merge, 0) == Some((at + 2) as nat)) by {
        assert forall|p: int| 0 <= p < at + 2 implies #[trigger] ops[p] != (Op::AppendEbbParam {
            ebb: merge,
        }) by {
            if p < at {
                assert(!names(ops[p], merge));
            }
        }
        lemma_block_param_skip(ops, merge, 0, (at + 2) as nat);
    }
    // From the end of either branch, the merge-block is entered at the end.
    assert(block_entry(ops, merge, (else_end + 1) as nat) == Some((else_end + 2) as nat));
    assert(block_entry(ops, merge, (then_end + 1) as nat) == Some((else_end + 2) as nat)) by {
        assert forall|p: int| then_end + 1 <= p < else_end + 1 implies #[trigger] ops[p] != (
        Op::SwitchToBlock { ebb: merge }) by {
            if then_end + 3 <= p < else_end {
                assert(!names(ops[p], merge));
            }
        }
        lemma_block_entry_skip(ops, merge, (then_end + 1) as nat, (else_end + 1) as nat);
    }
    // From the branch on zero, the else-block is entered behind the first branch.
    assert(block_entry(ops, else_ebb, (at + 4) as nat) == Some((then_end + 2) as nat)) by {
        assert forall|p: int| at + 4 <= p < then_end + 1 implies #[trigger] ops[p] != (
        Op::SwitchToBlock { ebb: else_ebb }) by {
            if p < then_end {
                assert(!names(ops[p], else_ebb));
            }
        }
        lemma_block_entry_skip(ops, else_ebb, (at + 4) as nat, (then_end + 1) as nat);
    }
    if mc.values[cond.def] != 0 {
        assert(run(ops, args, (at + 3) as nat, mc) == run(ops, args, (at + 4) as nat, mc));
        if let Some(mt) = after_then {
            let joined = mt.define((at + 2) as nat, mt.values[then_value.def]);
            assert(run(ops, args, then_end as nat, mt) == run(
                ops,
                args,
                (else_end + 2) as nat,
                joined,
            ));
            lemma_step_over(ops, args, (else_end + 2) as nat, joined);
        }
    } else {
        assert(run(ops, args, (at + 3) as nat, mc) == run(ops, args, (then_end + 2) as nat, mc));
        lemma_step_over(ops, args, (then_end + 2) as nat, mc);
        if let Some(me) = after_else {
            let joined = me.define((at + 2) as nat, me.values[else_value.def]);
            assert(run(ops, args, else_end as nat, me) == run(
                ops,
                args,
                (else_end + 2) as nat,
                joined,
            ));
            lemma_step_over(ops, args, (else_end + 2) as nat, joined);
        }
    }
}

/// The state in which the expressions of a block are lowered.
pub open spec fn opened(s: State, with_variables: Option<Seq<Seq<char>>>) -> State {
    match with_variables {
        Some(names) => s.enter().declare_all(names, 0),
        None => s.enter(),
    }
}

/// The state in which the expressions of a block are lowered is ready.
pub proof fn lemma_opened_ready(s: State, with_variables: Option<Seq<Seq<char>>>)
    requires
        ready(s),
        opened(s, with_variables).ops.len() <= usize::MAX,
    ensures
        ready(opened(s, with_variables)),
        extends(s.ops, opened(s, with_variables).ops),
{
    reveal(ready);
    lemma_enter_wf(s);
    lemma_enter_declared(s);
    if let Some(names) = with_variables {
        let end = opened(s, with_variables).ops;
        lemma_declare_all_wf(s.enter(), names, 0);
        lemma_declare_all_declared(s.enter(), names, 0);
        lemma_declare_all_in_order(s.enter(), names, 0);
        lemma_segment_extends(s.ops, end, 0, s.ops.len() as int);
        lemma_segment_join(end, 0, s.ops.len() as int, end.len() as int);
    }
}

/// What is claimed of the code of an expression: the machine runs it as
/// the tree is evaluated, enters the value of the expression at a
/// position of that code, and leaves the values defined before alone.
pub open spec fn runs_as_performed(
    e: ExprView,
    s: State,
    m: Machine,
    ops: Seq<Op>,
    args: Seq<i64>,
) -> bool {
    let r = lower(e, s);
    &&& continues(ops, args, s.ops.len(), m, r.state.ops.len(), perform(e, s, m))
    &&& s.ops.len() <= r.result->Ok_0.def < r.state.ops.len()
    &&& perform(e, s, m) matches Some(after) ==> after.values.contains_key(r.result->Ok_0.def)
        && same_values_below(m, after, s.ops.len())
}

/// What is asked of an expression, a state and a stream before the
/// expression's code in the stream is run.
pub open spec fn lowered_into(e: ExprView, s: State, ops: Seq<Op>) -> bool {
    &&& first_order(e)
    &&& ready(s)
    &&& lower(e, s).result is Ok
    &&& extends(lower(e, s).state.ops, ops)
    &&& lower(e, s).state.ops.len() <= usize::MAX
}

/// Values that stay the same over two stretches stay the same over both.
proof fn lemma_same_values_trans(a: Machine, b: Machine, c: Machine, lo: nat, hi: nat)
    requires
        same_values_below(a, b, lo),
        same_values_below(b, c, hi),
        lo <= hi,
    ensures
        same_values_below(a, c, lo),
{
    assert forall|p: usize| p < lo implies (#[trigger] a.values.contains_key(p)
        == c.values.contains_key(p)) && a.values[p] == c.values[p] by {
        assert(a.values.contains_key(p) == b.values.contains_key(p));
        assert(b.values.contains_key(p) == c.values.contains_key(p));
    }
}

/// Entering a value leaves the values at lower positions alone.
proof fn lemma_same_values_define(a: Machine, position: nat, word: i64, limit: nat)
    requires
        limit <= position <= usize::MAX,
    ensures
        same_values_below(a, a.define(position, word), limit),
{
}

/// Storing a word for a variable leaves the values alone.
proof fn lemma_same_values_store(a: Machine, index: usize, word: i64, limit: nat)
    ensures
        same_values_below(a, a.store(index, word), limit),
{
}

/// Where the code of a binary node lies in a stream.
pub proof fn lemma_binary_layout(e: ExprView, s: State, ops: Seq<Op>)
    requires
        lowered_into(e, s, ops),
        e is Binary,
    ensures
        ({
            let l = lower(*e->Binary_1, s);
            let r = lower(*e->Binary_2, l.state);
            let end = lower(e, s);
            &&& lowered_into(*e->Binary_1, s, ops)
            &&& lowered_into(*e->Binary_2, l.state, ops)
            &&& s.ops.len() <= l.state.ops.len() <= r.state.ops.len()
            &&& end.state.ops.len() == r.state.ops.len() + 1
            &&& end.result == Ok::<Value, crate::lower::LowerError>(
                Value { def: r.state.ops.len() as usize },
            )
            &&& r.state.ops.len() < ops.len()
            &&& ops[r.state.ops.len() as int] == (Op::Binary {
                op: e->Binary_0,
                lhs: l.result->Ok_0,
                rhs: r.result->Ok_0,
            })
        }),
{
    let l = lower(*e->Binary_1, s);
    let r = lower(*e->Binary_2, l.state);
    let end = lower(e, s).state;
    lemma_lower_in_order(*e->Binary_2, l.state);
    lemma_lower_ready(*e->Binary_1, s);
    assert(extends(r.state.ops, end.ops));
    lemma_extends_trans(r.state.ops, end.ops, ops);
    lemma_extends_trans(l.state.ops, r.state.ops, ops);
    assert(ops[r.state.ops.len() as int] == end.ops[r.state.ops.len() as int]);
}

/// Where the code of an assignment lies in a stream.
pub proof fn lemma_assign_layout(e: ExprView, s: State, ops: Seq<Op>)
    requires
        lowered_into(e, s, ops),
        e is Assign,
    ensures
        ({
            let r = lower(*e->Assign_1, s);
            let at = r.state.ops.len();
            let var = r.state.resolve_or_declare(e->Assign_0).1;
            let write = Op::DefVar { var, value: r.result->Ok_0 };
            let end = lower(e, s);
            &&& lowered_into(*e->Assign_1, s, ops)
            &&& s.ops.len() <= at
            &&& end.result == r.result
            &&& if resolve(r.state.scopes, e->Assign_0) is Some {
                &&& end.state.ops.len() == at + 1
                &&& at < ops.len()
                &&& ops[at as int] == write
                &&& declared(ops, var, at)
            } else {
                &&& end.state.ops.len() == at + 2
                &&& at + 1 < ops.len()
                &&& ops[at as int] is DeclareVar
                &&& ops[at as int + 1] == write
                &&& declared(ops, var, at + 1)
            }
        }),
{
    let name = e->Assign_0;
    let r = lower(*e->Assign_1, s);
    let at = r.state.ops.len();
    let (bound, var) = r.state.resolve_or_declare(name);
    let end = lower(e, s).state;
    lemma_lower_ready(*e->Assign_1, s);
    assert(extends(r.state.ops, end.ops));
    lemma_extends_trans(r.state.ops, end.ops, ops);
    assert(ops[at as int] == end.ops[at as int]);
    if resolve(r.state.scopes, name) is Some {
        let i = lemma_resolve_bound(r.state.scopes, name);
        assert(scopes_declared(r.state)) by {
            reveal(ready);
        }
        lemma_declared_extends(r.state.ops, ops, var, at);
    } else {
        assert(ops[at as int + 1] == end.ops[at as int + 1]);
        lemma_declaration_found(ops, var, 0, at);
    }
}

/// Where the code of a conditional lies in a stream.
pub proof fn lemma_conditional_layout(e: ExprView, s: State, ops: Seq<Op>)
    requires
        lowered_into(e, s, ops),
        e is Conditional,
    ensures
        ({
            let c = lower(*e->Conditional_0, s);
            let b = c.state.branch(c.result->Ok_0);
            let t = lower(*e->Conditional_1, b);
            let w = t.state.switch(c.state.ops.len(), t.result->Ok_0);
            let l = lower(*e->Conditional_2, w);
            let end = lower(e, s);
            &&& lowered_into(*e->Conditional_0, s, ops)
            &&& lowered_into(*e->Conditional_1, b, ops)
            &&& lowered_into(*e->Conditional_2, w, ops)
            &&& s.ops.len() <= c.state.ops.len()
            &&& b.ops.len() == c.state.ops.len() + 4
            &&& b.ops.len() <= t.state.ops.len()
            &&& w.ops.len() == t.state.ops.len() + 3
            &&& w.ops.len() <= l.state.ops.len()
            &&& end.state.ops.len() == l.state.ops.len() + 3
            &&& end.result == Ok::<Value, crate::lower::LowerError>(
                Value { def: (c.state.ops.len() + 2) as usize },
            )
            &&& conditional_laid_out(
                ops,
                c.state.ops.len() as int,
                t.state.ops.len() as int,
                l.state.ops.len() as int,
                c.result->Ok_0,
                t.result->Ok_0,
                l.result->Ok_0,
            )
        }),
{
    let c = lower(*e->Conditional_0, s);
    let cond = c.result->Ok_0;
    let at = c.state.ops.len() as int;
    let b = c.state.branch(cond);
    let t = lower(*e->Conditional_1, b);
    let then_value = t.result->Ok_0;
    let then_end = t.state.ops.len() as int;
    let w = t.state.switch(c.state.ops.len(), then_value);
    let l = lower(*e->Conditional_2, w);
    let else_value = l.result->Ok_0;
    let else_end = l.state.ops.len() as int;
    let merge = Ebb { def: (at + 1) as usize };
    let end = lower(e, s).state;
    assert(end.ops == l.state.ops.push(Op::Jump { target: merge, arg: else_value }).push(
        Op::SwitchToBlock { ebb: merge },
    ).push(Op::SealBlock { ebb: merge }));
    assert(extends(l.state.ops, end.ops));
    lemma_lower_in_order(*e->Conditional_2, w);
    lemma_lower_in_order(*e->Conditional_1, b);
    lemma_lower_ready(*e->Conditional_0, s);
    lemma_branch_ready(c.state, cond);
    lemma_lower_ready(*e->Conditional_1, b);
    assert(opens_conditional(t.state.ops, at)) by {
        assert(t.state.ops[at] == b.ops[at]);
        assert(t.state.ops[at + 1] == b.ops[at + 1]);
        assert(t.state.ops[at + 2] == b.ops[at + 2]);
        assert(t.state.ops[at + 3] == b.ops[at + 3]);
    }
    lemma_switch_ready(c.state, t.state, then_value);
    lemma_lower_ready(*e->Conditional_2, w);
    lemma_extends_trans(l.state.ops, end.ops, ops);
    lemma_extends_trans(w.ops, l.state.ops, ops);
    lemma_extends_trans(t.state.ops, w.ops, ops);
    lemma_extends_trans(b.ops, t.state.ops, ops);
    lemma_extends_trans(c.state.ops, b.ops, ops);
    assert(segment_ok(c.state.ops, 0, at)) by {
        reveal(ready);
    }
    lemma_segment_extends(c.state.ops, ops, 0, at);
    lemma_segment_extends(t.state.ops, ops, at + 4, then_end);
    lemma_segment_extends(l.state.ops, ops, then_end + 3, else_end);
    assert(opens_conditional(ops, at)) by {
        assert(ops[at] == b.ops[at]);
        assert(ops[at + 1] == b.ops[at + 1]);
        assert(ops[at + 2] == b.ops[at + 2]);
        assert(ops[at + 3] == b.ops[at + 3]);
    }
    assert(ops[at + 3] == b.ops[at + 3]);
    assert(switches_conditional(ops, at, then_end)) by {
        assert(ops[then_end] == w.ops[then_end]);
        assert(ops[then_end + 1] == w.ops[then_end + 1]);
        assert(ops[then_end + 2] == w.ops[then_end + 2]);
    }
    assert(ops[then_end] == w.ops[then_end]);
    assert(ops[else_end] == end.ops[else_end]);
    assert(ops[else_end + 1] == end.ops[else_end + 1]);
    assert(ops[else_end + 2] == end.ops[else_end + 2]);
    reveal(conditional_laid_out);
}

/// The machine runs the code of an expression without assigned function
/// literals as the tree is evaluated.
pub proof fn lemma_run_lowered(e: ExprView, s: State, m: Machine, ops: Seq<Op>, args: Seq<i64>)
    requires
        lowered_into(e, s, ops),
    ensures
        runs_as_performed(e, s, m, ops, args),
    decreases e, 1nat,
{
    let n0 = s.ops.len();
    let end = lower(e, s).state;
    match e {
        ExprView::IntegerLiteral(text) => {
            assert(ops[n0 as int] == end.ops[n0 as int]);
        },
        ExprView::Nil => {
            assert(ops[n0 as int] == end.ops[n0 as int]);
        },
        ExprView::Reference(name) => {
            assert(ops[n0 as int] == end.ops[n0 as int]);
            let var = resolve(s.scopes, name)->0;
            let i = lemma_resolve_bound(s.scopes, name);
            assert(extends(s.ops, end.ops));
            lemma_extends_trans(s.ops, end.ops, ops);
            assert(scopes_declared(s)) by {
                reveal(ready);
            }
            lemma_declared_extends(s.ops, ops, var, n0);
        },
        ExprView::Binary(op, lhs, rhs) => {
            lemma_run_binary(e, s, m, ops, args);
        },
        ExprView::Block(items) => {
            lemma_run_block(items, None, s, m, ops, args);
        },
        ExprView::Assign(name, value) => {
            lemma_run_assign(e, s, m, ops, args);
        },
        ExprView::Conditional(condition, then_branch, else_branch) => {
            lemma_run_whole_conditional(e, s, m, ops, args);
        },
        ExprView::FunctionLiteral { params, body } => {
            assert(first_order(*body));
            match *body {
                ExprView::Block(items) => {
                    lemma_run_block(items, Some(params), s, m, ops, args);
                },
                _ => {},
            }
        },
    }
}

/// [`lemma_run_lowered`], for a binary node.
proof fn lemma_run_binary(e: ExprView, s: State, m: Machine, ops: Seq<Op>, args: Seq<i64>)
    requires
        lowered_into(e, s, ops),
        e is Binary,
    ensures
        runs_as_performed(e, s, m, ops, args),
    decreases e, 0nat,
{
    let op = e->Binary_0;
    let lhs = *e->Binary_1;
    let rhs = *e->Binary_2;
    let l = lower(lhs, s);
    let r = lower(rhs, l.state);
    let a = l.result->Ok_0;
    let b = r.result->Ok_0;
    let at = r.state.ops.len();
    lemma_binary_layout(e, s, ops);
    lemma_run_lowered(lhs, s, m, ops, args);
    if let Some(m1) = perform(lhs, s, m) {
        lemma_run_lowered(rhs, l.state, m1, ops, args);
        if let Some(m2) = perform(rhs, l.state, m1) {
            assert(m1.values.contains_key(a.def));
            assert(m2.values.contains_key(a.def) && m2.values[a.def] == m1.values[a.def]);
            lemma_same_values_trans(m, m1, m2, s.ops.len(), l.state.ops.len());
            if let Some(word) = apply(op, m2.values[a.def], m2.values[b.def]) {
                let after = m2.define(at, word);
                lemma_same_values_define(m2, at, word, s.ops.len());
                lemma_same_values_trans(m, m2, after, s.ops.len(), s.ops.len());
                assert(run(ops, args, at, m2) == run(ops, args, at + 1, after));
            } else {
                assert(run(ops, args, at, m2) is None);
            }
        }
    }
}

/// [`lemma_run_lowered`], for an assignment.
proof fn lemma_run_assign(e: ExprView, s: State, m: Machine, ops: Seq<Op>, args: Seq<i64>)
    requires
        lowered_into(e, s, ops),
        e is Assign,
    ensures
        runs_as_performed(e, s, m, ops, args),
    decreases e, 0nat,
{
    let name = e->Assign_0;
    let value = *e->Assign_1;
    let r = lower(value, s);
    let v = r.result->Ok_0;
    let var = r.state.resolve_or_declare(name).1;
    let at = r.state.ops.len();
    lemma_assign_layout(e, s, ops);
    lemma_run_lowered(value, s, m, ops, args);
    if let Some(m1) = perform(value, s, m) {
        let after = m1.store(var.index, m1.values[v.def]);
        lemma_same_values_store(m1, var.index, m1.values[v.def], s.ops.len());
        lemma_same_values_trans(m, m1, after, s.ops.len(), s.ops.len());
        if resolve(r.state.scopes, name) is Some {
            assert(run(ops, args, at, m1) == run(ops, args, at + 1, after));
        } else {
            lemma_step_over(ops, args, at, m1);
            assert(run(ops, args, at + 1, m1) == run(ops, args, at + 2, after));
        }
    }
}

/// [`lemma_run_lowered`], for a conditional.
proof fn lemma_run_whole_conditional(
    e: ExprView,
    s: State,
    m: Machine,
    ops: Seq<Op>,
    args: Seq<i64>,
)
    requires
        lowered_into(e, s, ops),
        e is Conditional,
    ensures
        runs_as_performed(e, s, m, ops, args),
    decreases e, 0nat,
{
    let condition = *e->Conditional_0;
    let then_branch = *e->Conditional_1;
    let else_branch = *e->Conditional_2;
    let c = lower(condition, s);
    let cond = c.result->Ok_0;
    let at = c.state.ops.len();
    let b = c.state.branch(cond);
    let t = lower(then_branch, b);
    let then_value = t.result->Ok_0;
    let then_end = t.state.ops.len();
    let w = t.state.switch(c.state.ops.len(), then_value);
    let l = lower(else_branch, w);
    let else_value = l.result->Ok_0;
    let else_end = l.state.ops.len();
    lemma_conditional_layout(e, s, ops);
    lemma_run_lowered(condition, s, m, ops, args);
    let whole = lower(e, s);
    assert(whole.state.ops.len() == else_end + 3);
    assert(whole.result->Ok_0.def == at + 2);
    match perform(condition, s, m) {
        None => {
            assert(perform(e, s, m) is None);
            assert(run(ops, args, s.ops.len(), m) is None);
        },
        Some(mc) => {
            assert(run(ops, args, s.ops.len(), m) == run(ops, args, at, mc));
            lemma_run_lowered(then_branch, b, mc, ops, args);
            lemma_run_lowered(else_branch, w, mc, ops, args);
            lemma_run_conditional(
                ops,
                args,
                at as int,
                then_end as int,
                else_end as int,
                cond,
                then_value,
                else_value,
                mc,
                perform(then_branch, b, mc),
                perform(else_branch, w, mc),
            );
            if mc.values[cond.def] != 0 {
                match perform(then_branch, b, mc) {
                    None => {
                        assert(perform(e, s, m) is None);
                        assert(run(ops, args, at, mc) is None);
                    },
                    Some(mt) => {
                        let after = mt.define(at + 2, mt.values[then_value.def]);
                        assert(perform(e, s, m) == Some(after));
                        assert(run(ops, args, at, mc) == run(ops, args, else_end + 3, after));
                        lemma_same_values_trans(m, mc, mt, s.ops.len(), b.ops.len());
                        lemma_same_values_define(
                            mt,
                            at + 2,
                            mt.values[then_value.def],
                            s.ops.len(),
                        );
                        lemma_same_values_trans(m, mt, after, s.ops.len(), s.ops.len());
                        assert(after.values.contains_key(whole.result->Ok_0.def));
                    },
                }
            } else {
                match perform(else_branch, w, mc) {
                    None => {
                        assert(perform(e, s, m) is None);
                        assert(run(ops, args, at, mc) is None);
                    },
                    Some(me) => {
                        let after = me.define(at + 2, me.values[else_value.def]);
                        assert(perform(e, s, m) == Some(after));
                        assert(run(ops, args, at, mc) == run(ops, args, else_end + 3, after));
                        lemma_same_values_trans(m, mc, me, s.ops.len(), w.ops.len());
                        lemma_same_values_define(
                            me,
                            at + 2,
                            me.values[else_value.def],
                            s.ops.len(),
                        );
                        lemma_same_values_trans(m, me, after, s.ops.len(), s.ops.len());
                        assert(after.values.contains_key(whole.result->Ok_0.def));
                    },
                }
            }
        },
    }
}

/// [`lemma_run_lowered`], for the rest of a list of expressions.
pub proof fn lemma_run_from(
    items: Seq<ExprView>,
    from: nat,
    s: State,
    last: Value,
    m: Machine,
    ops: Seq<Op>,
    args: Seq<i64>,
)
    requires
        forall|i: int| 0 <= i < items.len() ==> first_order(#[trigger] items[i]),
        ready(s),
        lower_from(items, from, s, last).result is Ok,
        extends(lower_from(items, from, s, last).state.ops, ops),
        lower_from(items, from, s, last).state.ops.len() <= usize::MAX,
    ensures
        continues(
            ops,
            args,
            s.ops.len(),
            m,
            lower_from(items, from, s, last).state.ops.len(),
            perform_from(items, from, s, m),
        ),
        perform_from(items, from, s, m) matches Some(after) ==> same_values_below(
            m,
            after,
            s.ops.len(),
        ),
        from < items.len() ==> s.ops.len() <= lower_from(items, from, s, last).result->Ok_0.def
            < lower_from(items, from, s, last).state.ops.len(),
        from < items.len() ==> (perform_from(items, from, s, m) matches Some(after)
            ==> after.values.contains_key(lower_from(items, from, s, last).result->Ok_0.def)),
    decreases items, items.len() - from,
{
    if from < items.len() {
        let e = items[from as int];
        let r = lower(e, s);
        let v = r.result->Ok_0;
        let end = lower_from(items, from, s, last).state;
        lemma_lower_from_in_order(items, from + 1, r.state, v);
        lemma_lower_ready(e, s);
        lemma_extends_trans(r.state.ops, end.ops, ops);
        lemma_run_lowered(e, s, m, ops, args);
        lemma_run_from_bounds(items, from + 1, r.state, v);
        if let Some(m1) = perform(e, s, m) {
            lemma_run_from(items, from + 1, r.state, v, m1, ops, args);
            if let Some(after) = perform_from(items, from + 1, r.state, m1) {
                lemma_same_values_trans(m, m1, after, s.ops.len(), r.state.ops.len());
            }
        }
    }
}

/// The value of the rest of a list of expressions is defined by their
/// code, or it is the value that was given.
pub proof fn lemma_run_from_bounds(items: Seq<ExprView>, from: nat, s: State, last: Value)
    requires
        lower_from(items, from, s, last).result is Ok,
        lower_from(items, from, s, last).state.ops.len() <= usize::MAX,
    ensures
        from < items.len() ==> s.ops.len() <= lower_from(items, from, s, last).result->Ok_0.def
            < lower_from(items, from, s, last).state.ops.len(),
        from >= items.len() ==> lower_from(items, from, s, last).result->Ok_0 == last,
        s.ops.len() <= lower_from(items, from, s, last).state.ops.len(),
    decreases items, items.len() - from,
{
    if from < items.len() {
        let e = items[from as int];
        let r = lower(e, s);
        let v = r.result->Ok_0;
        lemma_lower_in_order(e, s);
        lemma_lower_from_in_order(items, from + 1, r.state, v);
        lemma_run_from_bounds(items, from + 1, r.state, v);
        lemma_value_bounds(e, s);
    }
}

/// The value of an expression is defined by its code.
pub proof fn lemma_value_bounds(e: ExprView, s: State)
    requires
        lower(e, s).result is Ok,
        lower(e, s).state.ops.len() <= usize::MAX,
    ensures
        s.ops.len() <= lower(e, s).result->Ok_0.def < lower(e, s).state.ops.len(),
    decreases e, 0nat,
{
    lemma_lower_in_order(e, s);
    match e {
        ExprView::IntegerLiteral(_) => {},
        ExprView::Nil => {},
        ExprView::Reference(_) => {},
        ExprView::Binary(op, lhs, rhs) => {
            let l = lower(*lhs, s);
            lemma_lower_in_order(*lhs, s);
            lemma_lower_in_order(*rhs, l.state);
        },
        ExprView::Block(items) => {
            lemma_block_value_bounds(items, None, s);
        },
        ExprView::Assign(name, value) => match *value {
            ExprView::FunctionLiteral { params, body } => {
                lemma_function_value_bounds(name, params, *body, s);
            },
            _ => {
                lemma_lower_in_order(*value, s);
                lemma_value_bounds(*value, s);
            },
        },
        ExprView::Conditional(condition, then_branch, else_branch) => {
            let c = lower(*condition, s);
            lemma_lower_in_order(*condition, s);
            let b = c.state.branch(c.result->Ok_0);
            let t = lower(*then_branch, b);
            lemma_lower_in_order(*then_branch, b);
            let w = t.state.switch(c.state.ops.len(), t.result->Ok_0);
            lemma_lower_in_order(*else_branch, w);
        },
        ExprView::FunctionLiteral { params, body } => match *body {
            ExprView::Block(items) => {
                lemma_block_value_bounds(items, Some(params), s);
            },
            _ => {},
        },
    }
}

/// The value of an assigned function literal is defined by its code.
proof fn lemma_function_value_bounds(
    name: Seq<char>,
    params: Seq<Seq<char>>,
    body: ExprView,
    s: State,
)
    requires
        crate::lower::lower_function(name, params, body, s).result is Ok,
        crate::lower::lower_function(name, params, body, s).state.ops.len() <= usize::MAX,
    ensures
        s.ops.len() <= crate::lower::lower_function(name, params, body, s).result->Ok_0.def
            < crate::lower::lower_function(name, params, body, s).state.ops.len(),
{
    crate::sealing::lemma_lower_function_in_order(name, params, body, s);
    match body {
        ExprView::Block(items) => {
            let begun = s.begin(name, params);
            let seeded = begun.seed_params(params, 0);
            crate::sealing::lemma_seed_params_in_order(begun, params, 0);
            crate::sealing::lemma_lower_block_in_order(items, None, seeded);
        },
        _ => {},
    }
}

/// The value of a block is defined by its code.
pub proof fn lemma_block_value_bounds(
    items: Seq<ExprView>,
    with_variables: Option<Seq<Seq<char>>>,
    s: State,
)
    requires
        lower_block(items, with_variables, s).result is Ok,
        lower_block(items, with_variables, s).state.ops.len() <= usize::MAX,
    ensures
        s.ops.len() <= lower_block(items, with_variables, s).result->Ok_0.def < lower_block(
            items,
            with_variables,
            s,
        ).state.ops.len(),
    decreases items, items.len() + 1,
{
    let o = opened(s, with_variables);
    if let Some(names) = with_variables {
        lemma_declare_all_in_order(s.enter(), names, 0);
    }
    if items.len() > 0 {
        lemma_run_from_bounds(items, 0, o, Value { def: 0 });
    }
}

/// [`lemma_run_lowered`], for a block.
pub proof fn lemma_run_block(
    items: Seq<ExprView>,
    with_variables: Option<Seq<Seq<char>>>,
    s: State,
    m: Machine,
    ops: Seq<Op>,
    args: Seq<i64>,
)
    requires
        forall|i: int| 0 <= i < items.len() ==> first_order(#[trigger] items[i]),
        ready(s),
        lower_block(items, with_variables, s).result is Ok,
        extends(lower_block(items, with_variables, s).state.ops, ops),
        lower_block(items, with_variables, s).state.ops.len() <= usize::MAX,
    ensures
        continues(
            ops,
            args,
            s.ops.len(),
            m,
            lower_block(items, with_variables, s).state.ops.len(),
            perform_block(items, with_variables, s, m),
        ),
        s.ops.len() <= lower_block(items, with_variables, s).result->Ok_0.def < lower_block(
            items,
            with_variables,
            s,
        ).state.ops.len(),
        perform_block(items, with_variables, s, m) matches Some(after)
            ==> after.values.contains_key(lower_block(items, with_variables, s).result->Ok_0.def)
            && same_values_below(m, after, s.ops.len()),
    decreases items, items.len() + 1,
{
    let o = opened(s, with_variables);
    let end = lower_block(items, with_variables, s).state;
    if items.len() == 0 {
        assert(extends(o.ops, end.ops));
    } else {
        lemma_lower_from_in_order(items, 0, o, Value { def: 0 });
    }
    lemma_opened_ready(s, with_variables);
    lemma_extends_trans(o.ops, end.ops, ops);
    if let Some(names) = with_variables {
        lemma_run_declare_all(s.enter(), names, 0, ops, args, m);
    }
    assert(run(ops, args, s.ops.len(), m) == run(ops, args, o.ops.len(), m));
    if items.len() == 0 {
        assert(ops[o.ops.len() as int] == end.ops[o.ops.len() as int]);
        lemma_same_values_define(m, o.ops.len(), 0, s.ops.len());
    } else {
        lemma_run_from(items, 0, o, Value { def: 0 }, m, ops, args);
        if let Some(after) = perform_from(items, 0, o, m) {
            lemma_same_values_trans(m, m, after, s.ops.len(), o.ops.len());
        }
    }
}

/// The state of a new session is ready.
pub proof fn lemma_initial_ready()
    ensures
        ready(State::initial()),
{
    reveal(ready);
}

/// What a program without assigned function literals returns is the
/// value of its expressions, evaluated as a block from empty registers:
/// the program has a result if and only if the evaluation has one, and
/// then the result is the word that the evaluation entered for the value
/// of the block.
pub proof fn lemma_program_returns_its_value(items: Seq<ExprView>)
    requires
        forall|i: int| 0 <= i < items.len() ==> first_order(#[trigger] items[i]),
        crate::translate::compile(items) is Ok,
        crate::translate::compile(items)->Ok_0.ops.len() <= usize::MAX,
    ensures
        crate::machine::result_of(crate::translate::compile(items)->Ok_0.ops) == (
        match perform_block(items, None, State::initial(), Machine::empty()) {
            Some(after) => Some(
                after.values[lower_block(items, None, State::initial()).result->Ok_0.def],
            ),
            None => None,
        }),
{
    let s = State::initial();
    let lowered = lower_block(items, None, s);
    let value = lowered.result->Ok_0;
    let ops = crate::translate::compile(items)->Ok_0.ops;
    let args = Seq::<i64>::empty();
    lemma_initial_ready();
    assert(extends(lowered.state.ops, ops));
    lemma_run_block(items, None, s, Machine::empty(), ops, args);
    if let Some(after) = perform_block(items, None, s, Machine::empty()) {
        assert(ops[lowered.state.ops.len() as int] == (Op::Return { value }));
    }
}

} // verus!
