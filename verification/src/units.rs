use crate::ast::ExprView;
use crate::correct::{
    agree, lemma_agree_declare, lemma_agree_define, lemma_agree_later, lemma_agree_len,
    lemma_agree_write, lemma_eval_block, lemma_find_resolve, lemma_ready_wf,
};
use crate::declared::lemma_declaration_found;
use crate::execution::{first_order, lemma_run_block, perform_block, ready};
use crate::handles::{lemma_declare_wf, lemma_emit_wf, lemma_seed_params_grows};
use crate::ir::{Op, Variable};
use crate::lower::{lower_block, lower_function, State};
use crate::machine::{result_of_unit, run, Machine};
use crate::meaning::{assign, bind, eval_block, find};
use crate::sealing::{
    extends, lemma_extends_trans, lemma_lower_block_in_order, lemma_seed_params_in_order,
    lemma_segment_extends, lemma_segment_join,
};
use vstd::prelude::*;

verus! {

/// The scopes after the parameters from position `from` on were bound, in
/// the innermost scope, to the arguments at their positions.
pub open spec fn bind_args(
    env: Seq<Map<Seq<char>, i64>>,
    params: Seq<Seq<char>>,
    args: Seq<i64>,
    from: nat,
) -> Seq<Map<Seq<char>, i64>>
    decreases params.len() - from,
{
    if from >= params.len() {
        env
    } else {
        bind_args(bind(env, params[from as int], args[from as int]), params, args, from + 1)
    }
}

/// What a call of a function means: its body, as a block, with the
/// parameters bound to the arguments in the scope around it.
pub open spec fn call_value(params: Seq<Seq<char>>, items: Seq<ExprView>, args: Seq<i64>) -> Option<
    i64,
> {
    match eval_block(items, None, bind_args(seq![Map::empty()], params, args, 0)) {
        Some(v) => Some(v.word),
        None => None,
    }
}

/// The registers after the parameters from position `from` on were taken
/// over: each argument is entered as a value and stored for the variable
/// of its parameter.
pub open spec fn seeded(
    s: State,
    params: Seq<Seq<char>>,
    args: Seq<i64>,
    from: nat,
    m: Machine,
) -> Machine
    decreases params.len() - from,
{
    if from >= params.len() {
        m
    } else {
        let var = Variable { index: s.next_variable_index as usize };
        let written = s.emit(Op::Param { index: from as usize }).declare(
            params[from as int],
        ).emit(Op::DefVar { var, value: s.next_value() });
        seeded(
            written,
            params,
            args,
            from + 1,
            m.define(s.ops.len(), args[from as int]).store(var.index, args[from as int]),
        )
    }
}

/// Each parameter is taken over by three operations.
proof fn lemma_seed_params_len(s: State, params: Seq<Seq<char>>, from: nat)
    requires
        from <= params.len(),
    ensures
        s.seed_params(params, from).ops.len() == s.ops.len() + 3 * (params.len() - from),
    decreases params.len() - from,
{
    if from < params.len() {
        let var = Variable { index: s.next_variable_index as usize };
        let written = s.emit(Op::Param { index: from as usize }).declare(
            params[from as int],
        ).emit(Op::DefVar { var, value: s.next_value() });
        lemma_seed_params_len(written, params, from + 1);
    }
}

/// The state in which a function unit is begun is ready.
proof fn lemma_begun_ready(name: Seq<char>, params: Seq<Seq<char>>, s: State)
    requires
        ready(s),
        s.ops.len() < usize::MAX,
    ensures
        ready(s.begin(name, params)),
        agree(s.begin(name, params), Machine::empty(), seq![Map::empty()]),
{
    reveal(ready);
    reveal(agree);
    let b = s.begin(name, params);
    assert(extends(s.ops, b.ops));
    lemma_segment_extends(s.ops, b.ops, 0, s.ops.len() as int);
    lemma_segment_join(b.ops, 0, s.ops.len() as int, b.ops.len() as int);
}

/// The machine takes the parameters over as the session laid it down:
/// behind their code, each parameter holds its argument.
proof fn lemma_run_seed(
    s: State,
    params: Seq<Seq<char>>,
    args: Seq<i64>,
    from: nat,
    m: Machine,
    env: Seq<Map<Seq<char>, i64>>,
    ops: Seq<Op>,
)
    requires
        ready(s),
        from <= s.ops.len(),
        params.len() == args.len(),
        extends(s.seed_params(params, from).ops, ops),
        s.seed_params(params, from).ops.len() <= usize::MAX,
        agree(s, m, env),
    ensures
        run(ops, args, s.ops.len(), m) == run(
            ops,
            args,
            s.seed_params(params, from).ops.len(),
            seeded(s, params, args, from, m),
        ),
        ready(s.seed_params(params, from)),
        agree(
            s.seed_params(params, from),
            seeded(s, params, args, from, m),
            bind_args(env, params, args, from),
        ),
    decreases params.len() - from,
{
    if from < params.len() {
        let at = s.ops.len();
        let name = params[from as int];
        let word = args[from as int];
        let var = Variable { index: s.next_variable_index as usize };
        let read = s.emit(Op::Param { index: from as usize });
        let declared = read.declare(name);
        let written = declared.emit(Op::DefVar { var, value: s.next_value() });
        let end = s.seed_params(params, from);
        let m1 = m.define(at, word);
        let m2 = m1.store(var.index, word);
        lemma_seed_params_grows(written, params, from + 1);
        lemma_seed_params_in_order(written, params, from + 1);
        lemma_extends_trans(written.ops, end.ops, ops);
        assert(ops[at as int] == written.ops[at as int]);
        assert(ops[at as int + 1] == written.ops[at as int + 1]);
        assert(ops[at as int + 2] == written.ops[at as int + 2]);
        // The three operations of the parameter.
        assert(run(ops, args, at, m) == run(ops, args, at + 1, m1));
        assert(run(ops, args, at + 1, m1) == run(ops, args, at + 2, m1));
        lemma_declaration_found(ops, var, 0, at + 1);
        assert(run(ops, args, at + 2, m1) == run(ops, args, at + 3, m2));
        // The state behind them is ready.
        lemma_ready_wf(s);
        lemma_emit_wf(s, Op::Param { index: from as usize });
        lemma_declare_wf(read, name);
        lemma_emit_wf(declared, Op::DefVar { var, value: s.next_value() });
        assert(ready(written)) by {
            reveal(ready);
            crate::declared::lemma_emit_declared(s, Op::Param { index: from as usize });
            crate::declared::lemma_declare_declared(read, name);
            crate::declared::lemma_emit_declared(
                declared,
                Op::DefVar { var, value: s.next_value() },
            );
            assert(extends(s.ops, written.ops));
            lemma_segment_extends(s.ops, written.ops, 0, at as int);
            lemma_segment_join(written.ops, 0, at as int, at as int + 3);
        }
        // The scopes behind them agree with it.
        lemma_agree_later(s, read, m, env);
        lemma_agree_define(read, m, env, at, word);
        lemma_agree_declare(read, m1, env, name);
        let zeroed = bind(env, name, 0);
        lemma_agree_len(s, m, env);
        lemma_find_resolve(declared, m1, zeroed, name);
        assert(find(zeroed, name) == Some(env.len() - 1));
        assert(declared.resolve_or_declare(name) == (declared, var));
        lemma_agree_write(declared, m1, zeroed, name, word);
        assert(env.last().insert(name, 0).insert(name, word) =~= env.last().insert(name, word));
        assert(assign(zeroed, name, word) =~= bind(env, name, word));
        lemma_agree_later(declared, written, m2, bind(env, name, word));
        lemma_run_seed(written, params, args, from + 1, m2, bind(env, name, word), ops);
    }
}

/// A call of a published function unit returns what the call means: the
/// unit that was lowered from a function literal whose body assigns no
/// function literal, called on the reference machine with as many
/// arguments as it has parameters, has a result if and only if the body
/// means something with the parameters bound to the arguments, and then
/// the result is the word that the body means.
pub proof fn law_call_returns_its_meaning(
    name: Seq<char>,
    params: Seq<Seq<char>>,
    items: Seq<ExprView>,
    s: State,
    args: Seq<i64>,
    ops: Seq<Op>,
)
    requires
        forall|i: int| 0 <= i < items.len() ==> first_order(#[trigger] items[i]),
        ready(s),
        lower_function(name, params, ExprView::Block(items), s).result is Ok,
        extends(lower_function(name, params, ExprView::Block(items), s).state.ops, ops),
        lower_function(name, params, ExprView::Block(items), s).state.ops.len() <= usize::MAX,
        args.len() == params.len(),
    ensures
        result_of_unit(ops, s.ops.len(), args) == call_value(params, items, args),
{
    let whole = lower_function(name, params, ExprView::Block(items), s).state;
    let b = s.begin(name, params);
    let seed = b.seed_params(params, 0);
    let body = lower_block(items, None, seed);
    let value = body.result->Ok_0;
    lemma_seed_params_in_order(b, params, 0);
    lemma_seed_params_len(b, params, 0);
    lemma_lower_block_in_order(items, None, seed);
    assert(extends(body.state.ops, whole.ops));
    lemma_extends_trans(body.state.ops, whole.ops, ops);
    lemma_extends_trans(seed.ops, body.state.ops, ops);
    lemma_extends_trans(b.ops, seed.ops, ops);
    lemma_begun_ready(name, params, s);
    assert(ops[s.ops.len() as int] == b.ops[s.ops.len() as int]);
    let env0 = seq![Map::<Seq<char>, i64>::empty()];
    lemma_run_seed(b, params, args, 0, Machine::empty(), env0, ops);
    let m0 = seeded(b, params, args, 0, Machine::empty());
    let env1 = bind_args(env0, params, args, 0);
    lemma_run_block(items, None, seed, m0, ops, args);
    lemma_eval_block(items, None, seed, m0, env1, ops);
    assert(ops[body.state.ops.len() as int] == whole.ops[body.state.ops.len() as int]);
    assert(ops[body.state.ops.len() as int] == (Op::Return { value }));
    if let Some(after) = perform_block(items, None, seed, m0) {
        assert(run(ops, args, body.state.ops.len(), after) == Some(after.values[value.def]));
    }
}

/// Two function units that were lowered from the same function literal,
/// under whatever names, in whatever sessions and with whatever handles,
/// return the same for the same arguments.
pub proof fn law_same_function_same_results(
    first_name: Seq<char>,
    second_name: Seq<char>,
    params: Seq<Seq<char>>,
    items: Seq<ExprView>,
    first: State,
    second: State,
    args: Seq<i64>,
    first_ops: Seq<Op>,
    second_ops: Seq<Op>,
)
    requires
        forall|i: int| 0 <= i < items.len() ==> first_order(#[trigger] items[i]),
        args.len() == params.len(),
        ready(first),
        lower_function(first_name, params, ExprView::Block(items), first).result is Ok,
        extends(
            lower_function(first_name, params, ExprView::Block(items), first).state.ops,
            first_ops,
        ),
        lower_function(first_name, params, ExprView::Block(items), first).state.ops.len()
            <= usize::MAX,
        ready(second),
        lower_function(second_name, params, ExprView::Block(items), second).result is Ok,
        extends(
            lower_function(second_name, params, ExprView::Block(items), second).state.ops,
            second_ops,
        ),
        lower_function(second_name, params, ExprView::Block(items), second).state.ops.len()
            <= usize::MAX,
    ensures
        result_of_unit(first_ops, first.ops.len(), args) == result_of_unit(
            second_ops,
            second.ops.len(),
            args,
        ),
{
    law_call_returns_its_meaning(first_name, params, items, first, args, first_ops);
    law_call_returns_its_meaning(second_name, params, items, second, args, second_ops);
}

} // verus!
