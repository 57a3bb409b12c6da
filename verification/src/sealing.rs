use crate::ast::ExprView;
use crate::ir::{Ebb, Op, Value, Variable};
use crate::lower::{lower, lower_block, lower_from, lower_function, merge_ebb, State};
use crate::translate::compile;
use vstd::prelude::*;

verus! {

/// Whether `op` seals `ebb`.
pub open spec fn seals(op: Op, ebb: Ebb) -> bool {
    op == (Op::SealBlock { ebb })
}

/// Whether `op` is a branch or a jump to `ebb`.
pub open spec fn transfers_to(op: Op, ebb: Ebb) -> bool {
    match op {
        Op::Brz { cond, target } => target == ebb,
        Op::Jump { target, arg } => target == ebb,
        _ => false,
    }
}

/// Whether `op` names `ebb`: transfers to it, continues in it, seals it
/// or gives it a parameter.
pub open spec fn names(op: Op, ebb: Ebb) -> bool {
    match op {
        Op::Brz { cond, target } => target == ebb,
        Op::Jump { target, arg } => target == ebb,
        Op::SwitchToBlock { ebb: named } => named == ebb,
        Op::SealBlock { ebb: named } => named == ebb,
        Op::AppendEbbParam { ebb: named } => named == ebb,
        _ => false,
    }
}

/// Whether `op` names no block.
pub open spec fn plain(op: Op) -> bool {
    !(op is SealBlock) && !(op is Brz) && !(op is Jump) && !(op is SwitchToBlock) && !(op
        is AppendEbbParam)
}

/// Every block is sealed after every branch and jump to it: no
/// predecessor of a block is emitted once the block is sealed.
pub open spec fn sealed_after_transfers(ops: Seq<Op>) -> bool {
    forall|i: int, j: int, ebb: Ebb|
        #![trigger seals(ops[i], ebb), transfers_to(ops[j], ebb)]
        0 <= i < ops.len() && 0 <= j < ops.len() && seals(ops[i], ebb) && transfers_to(
            ops[j],
            ebb,
        ) ==> j < i
}

/// Whether `after` continues `before`.
pub open spec fn extends(before: Seq<Op>, after: Seq<Op>) -> bool {
    &&& before.len() <= after.len()
    &&& forall|p: int| 0 <= p < before.len() ==> #[trigger] after[p] == before[p]
}

/// What holds of the operations that one lowering emits, at the positions
/// from `lo` up to `hi`: they name only blocks that were created among
/// them, at an earlier position, and each block is sealed after the
/// transfers to it.
pub open spec fn segment_ok(ops: Seq<Op>, lo: int, hi: int) -> bool {
    &&& forall|p: int, ebb: Ebb|
        #![trigger names(ops[p], ebb)]
        #![trigger seals(ops[p], ebb)]
        #![trigger transfers_to(ops[p], ebb)]
        lo <= p < hi && names(ops[p], ebb) ==> lo <= ebb.def < p
    &&& forall|i: int, j: int, ebb: Ebb|
        #![trigger seals(ops[i], ebb), transfers_to(ops[j], ebb)]
        lo <= i < hi && lo <= j < hi && seals(ops[i], ebb) && transfers_to(ops[j], ebb) ==> j
            < i
}

/// What continues a continuation continues the stream.
pub proof fn lemma_extends_trans(a: Seq<Op>, b: Seq<Op>, c: Seq<Op>)
    requires
        extends(a, b),
        extends(b, c),
    ensures
        extends(a, c),
{
    assert forall|p: int| 0 <= p < a.len() implies #[trigger] c[p] == a[p] by {
        assert(b[p] == a[p]);
    }
}

/// What holds of a stretch of a stream holds of it in every continuation.
pub proof fn lemma_segment_extends(before: Seq<Op>, after: Seq<Op>, lo: int, hi: int)
    requires
        extends(before, after),
        0 <= lo,
        hi <= before.len(),
        segment_ok(before, lo, hi),
    ensures
        segment_ok(after, lo, hi),
{
    assert forall|p: int, ebb: Ebb|
        #![trigger names(after[p], ebb)]
        #![trigger seals(after[p], ebb)]
        #![trigger transfers_to(after[p], ebb)]
        lo <= p < hi && names(after[p], ebb) implies lo <= ebb.def < p by {
        assert(after[p] == before[p]);
        assert(names(before[p], ebb));
    }
    assert forall|i: int, j: int, ebb: Ebb|
        #![trigger seals(after[i], ebb), transfers_to(after[j], ebb)]
        lo <= i < hi && lo <= j < hi && seals(after[i], ebb) && transfers_to(
            after[j],
            ebb,
        ) implies j < i by {
        assert(after[i] == before[i]);
        assert(after[j] == before[j]);
        assert(seals(before[i], ebb) && transfers_to(before[j], ebb));
    }
}

/// Two adjoining stretches that are in order are in order together: each
/// names only blocks of its own.
pub proof fn lemma_segment_join(ops: Seq<Op>, lo: int, mid: int, hi: int)
    requires
        lo <= mid <= hi,
        segment_ok(ops, lo, mid),
        segment_ok(ops, mid, hi),
    ensures
        segment_ok(ops, lo, hi),
{
}

/// An operation that names no block keeps a stretch in order.
pub proof fn lemma_segment_push(ops: Seq<Op>, lo: int, op: Op)
    requires
        0 <= lo <= ops.len(),
        segment_ok(ops, lo, ops.len() as int),
        plain(op),
    ensures
        segment_ok(ops.push(op), lo, ops.len() as int + 1),
        extends(ops, ops.push(op)),
{
    let after = ops.push(op);
    lemma_segment_extends(ops, after, lo, ops.len() as int);
    assert(segment_ok(after, ops.len() as int, ops.len() as int + 1));
    lemma_segment_join(after, lo, ops.len() as int, ops.len() as int + 1);
}

/// Whether `after` continues `before` with operations that are in order
/// among themselves, as far as positions fit a machine word.
pub open spec fn continues_in_order(before: Seq<Op>, after: Seq<Op>) -> bool {
    &&& extends(before, after)
    &&& after.len() <= usize::MAX ==> segment_ok(after, before.len() as int, after.len() as int)
}

/// A stream continues itself in order.
pub proof fn lemma_in_order_refl(ops: Seq<Op>)
    ensures
        continues_in_order(ops, ops),
{
}

/// An operation that names no block continues a stream in order.
pub proof fn lemma_in_order_push(base: Seq<Op>, ops: Seq<Op>, op: Op)
    requires
        continues_in_order(base, ops),
        plain(op),
    ensures
        continues_in_order(base, ops.push(op)),
{
    assert(extends(ops, ops.push(op)));
    if ops.len() + 1 <= usize::MAX {
        lemma_segment_push(ops, base.len() as int, op);
    }
    lemma_extends_trans(base, ops, ops.push(op));
}

/// Continuing in order twice is continuing in order.
pub proof fn lemma_in_order_trans(base: Seq<Op>, mid: Seq<Op>, end: Seq<Op>)
    requires
        continues_in_order(base, mid),
        continues_in_order(mid, end),
    ensures
        continues_in_order(base, end),
{
    lemma_extends_trans(base, mid, end);
    if end.len() <= usize::MAX {
        lemma_segment_extends(mid, end, base.len() as int, mid.len() as int);
        lemma_segment_join(end, base.len() as int, mid.len() as int, end.len() as int);
    }
}

/// Declaring names continues the stream in order.
pub proof fn lemma_declare_all_in_order(s: State, names: Seq<Seq<char>>, from: nat)
    ensures
        continues_in_order(s.ops, s.declare_all(names, from).ops),
    decreases names.len() - from,
{
    if from < names.len() {
        let declared = s.declare(names[from as int]);
        lemma_in_order_refl(s.ops);
        lemma_in_order_push(
            s.ops,
            s.ops,
            Op::DeclareVar { var: Variable { index: s.next_variable_index as usize } },
        );
        lemma_declare_all_in_order(declared, names, from + 1);
        lemma_in_order_trans(s.ops, declared.ops, declared.declare_all(names, from + 1).ops);
    }
}

/// Taking over parameters continues the stream in order.
pub proof fn lemma_seed_params_in_order(s: State, params: Seq<Seq<char>>, from: nat)
    ensures
        continues_in_order(s.ops, s.seed_params(params, from).ops),
    decreases params.len() - from,
{
    if from < params.len() {
        let read = s.emit(Op::Param { index: from as usize });
        let declared = read.declare(params[from as int]);
        let var = Variable { index: s.next_variable_index as usize };
        let written = declared.emit(Op::DefVar { var, value: s.next_value() });
        lemma_in_order_refl(s.ops);
        lemma_in_order_push(s.ops, s.ops, Op::Param { index: from as usize });
        lemma_in_order_push(s.ops, read.ops, Op::DeclareVar { var });
        lemma_in_order_push(s.ops, declared.ops, Op::DefVar { var, value: s.next_value() });
        lemma_seed_params_in_order(written, params, from + 1);
        lemma_in_order_trans(s.ops, written.ops, written.seed_params(params, from + 1).ops);
    }
}

/// Whether `ops` holds, from position `at` on, the four operations that
/// open a conditional.
pub open spec fn opens_conditional(ops: Seq<Op>, at: int) -> bool {
    &&& 0 <= at
    &&& at + 4 <= ops.len()
    &&& ops[at] == Op::CreateEbb
    &&& ops[at + 1] == Op::CreateEbb
    &&& ops[at + 2] == (Op::AppendEbbParam { ebb: Ebb { def: (at + 1) as usize } })
    &&& ops[at + 3] is Brz
    &&& ops[at + 3]->Brz_target == (Ebb { def: at as usize })
}

/// Whether `ops` holds, from position `then_end` on, the three operations
/// that lead from the first branch of the conditional opened at `at` to
/// its second.
pub open spec fn switches_conditional(ops: Seq<Op>, at: int, then_end: int) -> bool {
    &&& at + 4 <= then_end
    &&& then_end + 3 <= ops.len()
    &&& ops[then_end] is Jump
    &&& ops[then_end]->Jump_target == (Ebb { def: (at + 1) as usize })
    &&& ops[then_end + 1] == (Op::SwitchToBlock { ebb: Ebb { def: at as usize } })
    &&& ops[then_end + 2] == (Op::SealBlock { ebb: Ebb { def: at as usize } })
}

/// Whether `ops` ends, from position `else_end` on, with the three
/// operations that close the conditional opened at `at`.
pub open spec fn closes_conditional(ops: Seq<Op>, at: int, else_end: int) -> bool {
    &&& at + 4 <= else_end
    &&& else_end + 3 == ops.len()
    &&& ops[else_end] is Jump
    &&& ops[else_end]->Jump_target == (Ebb { def: (at + 1) as usize })
    &&& ops[else_end + 1] == (Op::SwitchToBlock { ebb: Ebb { def: (at + 1) as usize } })
    &&& ops[else_end + 2] == (Op::SealBlock { ebb: Ebb { def: (at + 1) as usize } })
}

/// A conditional is in order up to a point in its first branch.
pub proof fn lemma_conditional_first(ops: Seq<Op>, at: int, hi: int)
    requires
        ops.len() <= usize::MAX,
        opens_conditional(ops, at),
        at + 4 <= hi <= ops.len(),
        segment_ok(ops, at + 4, hi),
    ensures
        segment_ok(ops, at, hi),
{
    assert(segment_ok(ops, at, at + 4));
    lemma_segment_join(ops, at, at + 4, hi);
}

/// A conditional is in order up to a point in its second branch.
pub proof fn lemma_conditional_second(ops: Seq<Op>, at: int, then_end: int, hi: int)
    requires
        ops.len() <= usize::MAX,
        opens_conditional(ops, at),
        segment_ok(ops, at + 4, then_end),
        switches_conditional(ops, at, then_end),
        then_end + 3 <= hi <= ops.len(),
        segment_ok(ops, then_end + 3, hi),
    ensures
        segment_ok(ops, at, hi),
{
    lemma_conditional_first(ops, at, then_end);
    assert(segment_ok(ops, at, then_end + 3));
    lemma_segment_join(ops, at, then_end + 3, hi);
}

/// A whole conditional is in order.
pub proof fn lemma_conditional_whole(ops: Seq<Op>, at: int, then_end: int, else_end: int)
    requires
        ops.len() <= usize::MAX,
        opens_conditional(ops, at),
        segment_ok(ops, at + 4, then_end),
        switches_conditional(ops, at, then_end),
        then_end + 3 <= else_end,
        segment_ok(ops, then_end + 3, else_end),
        closes_conditional(ops, at, else_end),
    ensures
        segment_ok(ops, at, ops.len() as int),
{
    lemma_conditional_second(ops, at, then_end, else_end);
    assert(segment_ok(ops, at, else_end + 3));
}

/// What lowering one expression emits is in order.
pub proof fn lemma_lower_in_order(e: ExprView, s: State)
    ensures
        continues_in_order(s.ops, lower(e, s).state.ops),
    decreases e, 0nat,
{
    lemma_in_order_refl(s.ops);
    match e {
        ExprView::IntegerLiteral(text) => {
            if let Some(n) = crate::literal::literal_value(text) {
                lemma_in_order_push(s.ops, s.ops, Op::Iconst { imm: n as i64 });
            }
        },
        ExprView::Nil => {
            lemma_in_order_push(s.ops, s.ops, Op::Iconst { imm: 0 });
        },
        ExprView::Reference(name) => {
            if let Some(var) = crate::scope::resolve(s.scopes, name) {
                lemma_in_order_push(s.ops, s.ops, Op::UseVar { var });
            }
        },
        ExprView::Binary(op, lhs, rhs) => {
            let l = lower(*lhs, s);
            lemma_lower_in_order(*lhs, s);
            if let Ok(a) = l.result {
                let r = lower(*rhs, l.state);
                lemma_lower_in_order(*rhs, l.state);
                lemma_in_order_trans(s.ops, l.state.ops, r.state.ops);
                if let Ok(b) = r.result {
                    lemma_in_order_push(s.ops, r.state.ops, Op::Binary { op, lhs: a, rhs: b });
                }
            }
        },
        ExprView::Block(items) => {
            lemma_lower_block_in_order(items, None, s);
        },
        ExprView::Assign(name, value) => match *value {
            ExprView::FunctionLiteral { params, body } => {
                lemma_lower_function_in_order(name, params, *body, s);
            },
            _ => {
                let r = lower(*value, s);
                lemma_lower_in_order(*value, s);
                if let Ok(v) = r.result {
                    let (bound, var) = r.state.resolve_or_declare(name);
                    if crate::scope::resolve(r.state.scopes, name) is None {
                        lemma_in_order_push(s.ops, r.state.ops, Op::DeclareVar { var });
                    }
                    lemma_in_order_push(s.ops, bound.ops, Op::DefVar { var, value: v });
                }
            },
        },
        ExprView::Conditional(condition, then_branch, else_branch) => {
            let c = lower(*condition, s);
            lemma_lower_in_order(*condition, s);
            if let Ok(cond) = c.result {
                let at = c.state.ops.len();
                let branched = c.state.branch(cond);
                let t = lower(*then_branch, branched);
                lemma_lower_in_order(*then_branch, branched);
                let end = lower(e, s).state.ops;
                assert(extends(c.state.ops, branched.ops));
                assert(opens_conditional(branched.ops, at as int));
                match t.result {
                    Err(_) => {
                        lemma_extends_trans(c.state.ops, branched.ops, end);
                        if end.len() <= usize::MAX {
                            assert(opens_conditional(end, at as int));
                            lemma_conditional_first(end, at as int, end.len() as int);
                        }
                    },
                    Ok(then_value) => {
                        let then_end = t.state.ops.len();
                        let switched = t.state.switch(at, then_value);
                        let l = lower(*else_branch, switched);
                        lemma_lower_in_order(*else_branch, switched);
                        let else_end = l.state.ops.len();
                        assert(extends(t.state.ops, switched.ops));
                        assert(switches_conditional(switched.ops, at as int, then_end as int));
                        assert(extends(l.state.ops, end));
                        lemma_extends_trans(switched.ops, l.state.ops, end);
                        lemma_extends_trans(t.state.ops, switched.ops, end);
                        lemma_extends_trans(branched.ops, t.state.ops, end);
                        lemma_extends_trans(c.state.ops, branched.ops, end);
                        if end.len() <= usize::MAX {
                            assert(opens_conditional(end, at as int));
                            assert(switches_conditional(end, at as int, then_end as int));
                            lemma_segment_extends(t.state.ops, end, at as int + 4, then_end as int);
                            lemma_segment_extends(
                                l.state.ops,
                                end,
                                then_end as int + 3,
                                else_end as int,
                            );
                            match l.result {
                                Err(_) => {
                                    lemma_conditional_second(
                                        end,
                                        at as int,
                                        then_end as int,
                                        else_end as int,
                                    );
                                },
                                Ok(else_value) => {
                                    assert(closes_conditional(end, at as int, else_end as int));
                                    lemma_conditional_whole(
                                        end,
                                        at as int,
                                        then_end as int,
                                        else_end as int,
                                    );
                                },
                            }
                        }
                    },
                }
                assert(continues_in_order(c.state.ops, end));
                lemma_in_order_trans(s.ops, c.state.ops, end);
            }
        },
        ExprView::FunctionLiteral { params, body } => match *body {
            ExprView::Block(items) => {
                lemma_lower_block_in_order(items, Some(params), s);
            },
            _ => {},
        },
    }
}

/// What lowering the rest of a list of expressions emits is in order.
pub proof fn lemma_lower_from_in_order(items: Seq<ExprView>, from: nat, s: State, last: Value)
    ensures
        continues_in_order(s.ops, lower_from(items, from, s, last).state.ops),
    decreases items, items.len() - from,
{
    lemma_in_order_refl(s.ops);
    if from < items.len() {
        let r = lower(items[from as int], s);
        lemma_lower_in_order(items[from as int], s);
        if let Ok(v) = r.result {
            lemma_lower_from_in_order(items, from + 1, r.state, v);
            lemma_in_order_trans(
                s.ops,
                r.state.ops,
                lower_from(items, from + 1, r.state, v).state.ops,
            );
        }
    }
}

/// What lowering a block emits is in order.
pub proof fn lemma_lower_block_in_order(
    items: Seq<ExprView>,
    with_variables: Option<Seq<Seq<char>>>,
    s: State,
)
    ensures
        continues_in_order(s.ops, lower_block(items, with_variables, s).state.ops),
    decreases items, items.len() + 1,
{
    lemma_in_order_refl(s.ops);
    let opened = match with_variables {
        Some(names) => s.enter().declare_all(names, 0),
        None => s.enter(),
    };
    if let Some(names) = with_variables {
        lemma_declare_all_in_order(s.enter(), names, 0);
    }
    if items.len() == 0 {
        lemma_in_order_push(s.ops, opened.ops, Op::Iconst { imm: 0 });
    } else {
        lemma_lower_from_in_order(items, 0, opened, Value { def: 0 });
        lemma_in_order_trans(
            s.ops,
            opened.ops,
            lower_from(items, 0, opened, Value { def: 0 }).state.ops,
        );
    }
}

/// What lowering an assigned function literal emits is in order.
pub proof fn lemma_lower_function_in_order(
    name: Seq<char>,
    params: Seq<Seq<char>>,
    body: ExprView,
    s: State,
)
    ensures
        continues_in_order(s.ops, lower_function(name, params, body, s).state.ops),
    decreases body, 1nat,
{
    lemma_in_order_refl(s.ops);
    match body {
        ExprView::Block(items) => {
            let unit = s.ops.len() as usize;
            let symbol = s.symbols.len() as usize;
            let begun = s.begin(name, params);
            lemma_in_order_push(s.ops, s.ops, Op::BeginFunction { params: params.len() as usize });
            let seeded = begun.seed_params(params, 0);
            lemma_seed_params_in_order(begun, params, 0);
            lemma_in_order_trans(s.ops, begun.ops, seeded.ops);
            let r = lower_block(items, None, seeded);
            lemma_lower_block_in_order(items, None, seeded);
            lemma_in_order_trans(s.ops, seeded.ops, r.state.ops);
            if let Ok(v) = r.result {
                let returned = r.state.emit(Op::Return { value: v });
                lemma_in_order_push(s.ops, r.state.ops, Op::Return { value: v });
                lemma_in_order_push(s.ops, returned.ops, Op::Finalize);
                let finished = returned.emit(Op::Finalize);
                lemma_in_order_push(s.ops, finished.ops, Op::Publish { unit, symbol });
                lemma_in_order_push(
                    s.ops,
                    finished.ops.push(Op::Publish { unit, symbol }),
                    Op::FuncAddr { unit },
                );
            }
        },
        _ => {},
    }
}

/// The operations that a session emits for one expression keep every
/// block sealed after the transfers to it: if that holds of what was
/// emitted before, and what was emitted before seals and targets only
/// blocks of its own, it holds of the whole stream afterwards.
pub proof fn law_lowering_seals_after_transfers(e: ExprView, s: State)
    requires
        segment_ok(s.ops, 0, s.ops.len() as int),
        lower(e, s).state.ops.len() <= usize::MAX,
    ensures
        segment_ok(lower(e, s).state.ops, 0, lower(e, s).state.ops.len() as int),
        sealed_after_transfers(lower(e, s).state.ops),
{
    let end = lower(e, s).state.ops;
    lemma_lower_in_order(e, s);
    lemma_segment_extends(s.ops, end, 0, s.ops.len() as int);
    lemma_segment_join(end, 0, s.ops.len() as int, end.len() as int);
}

/// In every program, every block is sealed after every branch and jump
/// to it.
pub proof fn law_program_seals_after_transfers(items: Seq<ExprView>)
    requires
        compile(items) is Ok,
        compile(items)->Ok_0.ops.len() <= usize::MAX,
    ensures
        sealed_after_transfers(compile(items)->Ok_0.ops),
{
    let lowered = lower_block(items, None, State::initial());
    let ops = compile(items)->Ok_0.ops;
    lemma_lower_block_in_order(items, None, State::initial());
    lemma_in_order_push(
        State::initial().ops,
        lowered.state.ops,
        Op::Return { value: lowered.result->Ok_0 },
    );
    assert(segment_ok(ops, 0, ops.len() as int));
}

/// The merge-block of a conditional has two predecessors, the jumps that
/// end the two branches, and it is sealed by the last operation of the
/// conditional, after both: no other operation of the stream transfers to
/// it.
pub proof fn law_merge_block_is_sealed_after_both_jumps(
    condition: ExprView,
    then_branch: ExprView,
    else_branch: ExprView,
    s: State,
)
    requires
        segment_ok(s.ops, 0, s.ops.len() as int),
        lower(
            ExprView::Conditional(
                Box::new(condition),
                Box::new(then_branch),
                Box::new(else_branch),
            ),
            s,
        ).result is Ok,
        lower(
            ExprView::Conditional(
                Box::new(condition),
                Box::new(then_branch),
                Box::new(else_branch),
            ),
            s,
        ).state.ops.len() <= usize::MAX,
    ensures
        ({
            let ops = lower(
                ExprView::Conditional(
                    Box::new(condition),
                    Box::new(then_branch),
                    Box::new(else_branch),
                ),
                s,
            ).state.ops;
            let c = lower(condition, s);
            let merge = merge_ebb(c.state.ops.len());
            let first = lower(then_branch, c.state.branch(c.result->Ok_0)).state.ops.len() as int;
            let second = ops.len() - 3;
            &&& 0 <= first < second
            &&& ops[first] is Jump && transfers_to(ops[first], merge)
            &&& ops[second] is Jump && transfers_to(ops[second], merge)
            &&& ops[ops.len() - 1] == (Op::SealBlock { ebb: merge })
            &&& forall|j: int|
                0 <= j < ops.len() && #[trigger] transfers_to(ops[j], merge) ==> j == first || j
                    == second
        }),
{
    let e = ExprView::Conditional(
        Box::new(condition),
        Box::new(then_branch),
        Box::new(else_branch),
    );
    let ops = lower(e, s).state.ops;
    let c = lower(condition, s);
    let at = c.state.ops.len();
    let merge = merge_ebb(at);
    let b = c.state.branch(c.result->Ok_0);
    let t = lower(then_branch, b);
    let then_value = t.result->Ok_0;
    let then_end = t.state.ops.len();
    let switched = t.state.switch(at, then_value);
    let l = lower(else_branch, switched);
    let else_end = l.state.ops.len();
    lemma_lower_in_order(condition, s);
    lemma_lower_in_order(then_branch, b);
    lemma_lower_in_order(else_branch, switched);
    assert(extends(c.state.ops, b.ops));
    assert(extends(t.state.ops, switched.ops));
    assert(extends(l.state.ops, ops));
    lemma_extends_trans(switched.ops, l.state.ops, ops);
    lemma_extends_trans(t.state.ops, switched.ops, ops);
    lemma_extends_trans(b.ops, t.state.ops, ops);
    lemma_extends_trans(c.state.ops, b.ops, ops);
    lemma_extends_trans(s.ops, c.state.ops, ops);
    lemma_segment_extends(s.ops, ops, 0, s.ops.len() as int);
    lemma_segment_extends(c.state.ops, ops, s.ops.len() as int, at as int);
    lemma_segment_extends(t.state.ops, ops, at as int + 4, then_end as int);
    lemma_segment_extends(l.state.ops, ops, then_end as int + 3, else_end as int);
    assert(ops[then_end as int] == switched.ops[then_end as int]);
    assert(ops[at as int + 3] == b.ops[at as int + 3]);
    assert forall|j: int| 0 <= j < ops.len() && #[trigger] transfers_to(ops[j], merge) implies j
        == then_end || j == else_end by {
        if j < s.ops.len() {
        } else if j < at {
        } else if j < at + 4 {
            assert(ops[j] == b.ops[j]);
        } else if j < then_end {
        } else if j < then_end + 3 {
            assert(ops[j] == switched.ops[j]);
        } else if j < else_end {
        } else {
        }
    }
}

} // verus!
