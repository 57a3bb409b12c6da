use crate::ast::ExprView;
use crate::ir::{Op, Value, Variable};
use crate::lower::{
    lemma_declare_all_depth, lemma_lower_block_depth, lemma_lower_from_depth, lower,
    lower_block, lower_from, lower_function, Lowered, State,
};
use crate::scope::resolve;
use vstd::prelude::*;

verus! {

/// Whether two states agree in all but their scopes.
pub open spec fn alike(a: State, b: State) -> bool {
    &&& a.ops == b.ops
    &&& a.symbols == b.symbols
    &&& a.next_variable_index == b.next_variable_index
}

/// Whether `parts` is `whole` with the scope at depth `k` split in two: a
/// lower part, and an upper part whose bindings hide those of the lower.
pub open spec fn splits(
    whole: Seq<Map<Seq<char>, Variable>>,
    parts: Seq<Map<Seq<char>, Variable>>,
    k: int,
) -> bool {
    &&& 0 <= k < whole.len()
    &&& parts.len() == whole.len() + 1
    &&& forall|i: int| 0 <= i < k ==> #[trigger] parts[i] == whole[i]
    &&& whole[k] == parts[k].union_prefer_right(parts[k + 1])
    &&& forall|i: int| k < i < whole.len() ==> #[trigger] whole[i] == parts[i + 1]
}

/// Whether `b` is `a` with the scope at depth `k` split in two.
pub open spec fn related(a: State, b: State, k: int) -> bool {
    alike(a, b) && splits(a.scopes, b.scopes, k)
}

/// A name resolves alike whether or not a scope is split in two.
pub proof fn lemma_resolve_split(
    whole: Seq<Map<Seq<char>, Variable>>,
    parts: Seq<Map<Seq<char>, Variable>>,
    k: int,
    name: Seq<char>,
)
    requires
        splits(whole, parts, k),
    ensures
        resolve(whole, name) == resolve(parts, name),
    decreases whole.len(),
{
    let top = whole.len() - 1;
    if top > k {
        assert(whole[top] == parts[top + 1]);
        if !whole.last().contains_key(name) {
            let w = whole.drop_last();
            let p = parts.drop_last();
            assert(splits(w, p, k)) by {
                assert forall|i: int| 0 <= i < k implies #[trigger] p[i] == w[i] by {
                    assert(parts[i] == whole[i]);
                }
                assert forall|i: int| k < i < w.len() implies #[trigger] w[i] == p[i + 1] by {
                    assert(whole[i] == parts[i + 1]);
                }
            }
            lemma_resolve_split(w, p, k, name);
        }
    } else {
        let upper = parts[k + 1];
        let lower_part = parts[k];
        assert(parts.last() == upper);
        assert(parts.drop_last().last() == lower_part);
        reveal_with_fuel(resolve, 2);
        if !upper.contains_key(name) && !lower_part.contains_key(name) {
            assert(whole.drop_last() =~= parts.drop_last().drop_last()) by {
                assert forall|i: int| 0 <= i < k implies whole.drop_last()[i]
                    == parts.drop_last().drop_last()[i] by {
                    assert(parts[i] == whole[i]);
                }
            }
        }
    }
}

/// Declaring a name keeps two states related.
pub proof fn lemma_declare_split(a: State, b: State, k: int, name: Seq<char>)
    requires
        related(a, b, k),
    ensures
        related(a.declare(name), b.declare(name), k),
{
    let x = a.declare(name);
    let y = b.declare(name);
    let var = Variable { index: a.next_variable_index as usize };
    let top = a.scopes.len() - 1;
    assert forall|i: int| 0 <= i < k implies #[trigger] y.scopes[i] == x.scopes[i] by {
        assert(b.scopes[i] == a.scopes[i]);
    }
    assert forall|i: int| k < i < x.scopes.len() implies #[trigger] x.scopes[i] == y.scopes[i
        + 1] by {
        assert(a.scopes[i] == b.scopes[i + 1]);
    }
    if top > k {
        assert(a.scopes[top] == b.scopes[top + 1]);
    } else {
        assert(x.scopes[k] =~= y.scopes[k].union_prefer_right(y.scopes[k + 1]));
    }
}

/// Declaring names keeps two states related.
pub proof fn lemma_declare_all_split(
    a: State,
    b: State,
    k: int,
    names: Seq<Seq<char>>,
    from: nat,
)
    requires
        related(a, b, k),
    ensures
        related(a.declare_all(names, from), b.declare_all(names, from), k),
    decreases names.len() - from,
{
    if from < names.len() {
        lemma_declare_split(a, b, k, names[from as int]);
        lemma_declare_all_split(
            a.declare(names[from as int]),
            b.declare(names[from as int]),
            k,
            names,
            from + 1,
        );
    }
}

/// Opening a scope keeps two states related.
pub proof fn lemma_enter_split(a: State, b: State, k: int)
    requires
        related(a, b, k),
    ensures
        related(a.enter(), b.enter(), k),
{
    let x = a.enter();
    let y = b.enter();
    assert forall|i: int| 0 <= i < k implies #[trigger] y.scopes[i] == x.scopes[i] by {
        assert(b.scopes[i] == a.scopes[i]);
    }
    assert forall|i: int| k < i < x.scopes.len() implies #[trigger] x.scopes[i] == y.scopes[i
        + 1] by {
        if i < a.scopes.len() {
            assert(a.scopes[i] == b.scopes[i + 1]);
        }
    }
}

/// Closing a scope above the split one keeps two states related.
pub proof fn lemma_exit_split(a: State, b: State, k: int)
    requires
        related(a, b, k),
        k < a.scopes.len() - 1,
    ensures
        related(a.exit(), b.exit(), k),
{
    let x = a.exit();
    let y = b.exit();
    assert forall|i: int| 0 <= i < k implies #[trigger] y.scopes[i] == x.scopes[i] by {
        assert(b.scopes[i] == a.scopes[i]);
    }
    assert forall|i: int| k < i < x.scopes.len() implies #[trigger] x.scopes[i] == y.scopes[i
        + 1] by {
        assert(a.scopes[i] == b.scopes[i + 1]);
    }
}

/// Whether two outcomes agree in their result and in all of their states
/// but the scopes, and are related at depth `k` unless an error stopped
/// them.
pub open spec fn outcomes_related(x: Lowered, y: Lowered, k: int) -> bool {
    &&& x.result == y.result
    &&& alike(x.state, y.state)
    &&& x.result is Ok ==> related(x.state, y.state, k)
}

/// Lowering an expression from two related states has related outcomes.
pub proof fn lemma_lower_split(e: ExprView, a: State, b: State, k: int)
    requires
        related(a, b, k),
    ensures
        outcomes_related(lower(e, a), lower(e, b), k),
    decreases e, 0nat,
{
    match e {
        ExprView::IntegerLiteral(_) => {},
        ExprView::Nil => {},
        ExprView::Reference(name) => {
            lemma_resolve_split(a.scopes, b.scopes, k, name);
        },
        ExprView::Binary(op, lhs, rhs) => {
            lemma_lower_split(*lhs, a, b, k);
            if lower(*lhs, a).result is Ok {
                lemma_lower_split(*rhs, lower(*lhs, a).state, lower(*lhs, b).state, k);
            }
        },
        ExprView::Block(items) => {
            lemma_lower_block_split(items, None, a, b, k);
        },
        ExprView::Assign(name, value) => match *value {
            ExprView::FunctionLiteral { params, body } => {
                lemma_lower_function_split(name, params, *body, a, b, k);
            },
            _ => {
                lemma_lower_split(*value, a, b, k);
                let x = lower(*value, a);
                let y = lower(*value, b);
                if x.result is Ok {
                    lemma_resolve_split(x.state.scopes, y.state.scopes, k, name);
                    if resolve(x.state.scopes, name) is None {
                        lemma_declare_split(x.state, y.state, k, name);
                    }
                }
            },
        },
        ExprView::Conditional(condition, then_branch, else_branch) => {
            lemma_lower_split(*condition, a, b, k);
            let ca = lower(*condition, a);
            let cb = lower(*condition, b);
            if let Ok(cond) = ca.result {
                let at = ca.state.ops.len();
                let ba = ca.state.branch(cond);
                let bb = cb.state.branch(cond);
                lemma_lower_split(*then_branch, ba, bb, k);
                let ta = lower(*then_branch, ba);
                let tb = lower(*then_branch, bb);
                if let Ok(then_value) = ta.result {
                    lemma_lower_split(
                        *else_branch,
                        ta.state.switch(at, then_value),
                        tb.state.switch(at, then_value),
                        k,
                    );
                }
            }
        },
        ExprView::FunctionLiteral { params, body } => match *body {
            ExprView::Block(items) => {
                lemma_lower_block_split(items, Some(params), a, b, k);
            },
            _ => {},
        },
    }
}

/// Lowering the rest of a list from two related states has related
/// outcomes.
pub proof fn lemma_lower_from_split(
    items: Seq<ExprView>,
    from: nat,
    a: State,
    b: State,
    last: Value,
    k: int,
)
    requires
        related(a, b, k),
    ensures
        outcomes_related(lower_from(items, from, a, last), lower_from(items, from, b, last), k),
    decreases items, items.len() - from,
{
    if from < items.len() {
        lemma_lower_split(items[from as int], a, b, k);
        let x = lower(items[from as int], a);
        let y = lower(items[from as int], b);
        if let Ok(v) = x.result {
            lemma_lower_from_split(items, from + 1, x.state, y.state, v, k);
        }
    }
}

/// Lowering a block from two related states has related outcomes.
pub proof fn lemma_lower_block_split(
    items: Seq<ExprView>,
    with_variables: Option<Seq<Seq<char>>>,
    a: State,
    b: State,
    k: int,
)
    requires
        related(a, b, k),
    ensures
        outcomes_related(
            lower_block(items, with_variables, a),
            lower_block(items, with_variables, b),
            k,
        ),
    decreases items, items.len() + 1,
{
    lemma_enter_split(a, b, k);
    let oa = match with_variables {
        Some(names) => a.enter().declare_all(names, 0),
        None => a.enter(),
    };
    let ob = match with_variables {
        Some(names) => b.enter().declare_all(names, 0),
        None => b.enter(),
    };
    if let Some(names) = with_variables {
        lemma_declare_all_split(a.enter(), b.enter(), k, names, 0);
        lemma_declare_all_depth(a.enter(), names, 0);
    }
    assert(related(oa, ob, k));
    assert(oa.scopes.len() == a.scopes.len() + 1);
    if items.len() == 0 {
        lemma_exit_split(
            oa.emit(Op::Iconst { imm: 0 }),
            ob.emit(Op::Iconst { imm: 0 }),
            k,
        );
    } else {
        lemma_lower_from_split(items, 0, oa, ob, Value { def: 0 }, k);
        let x = lower_from(items, 0, oa, Value { def: 0 });
        let y = lower_from(items, 0, ob, Value { def: 0 });
        lemma_lower_from_depth(items, 0, oa, Value { def: 0 });
        if x.result is Ok {
            lemma_exit_split(x.state, y.state, k);
        }
    }
}

/// Lowering an assigned function literal from two related states has
/// related outcomes.
pub proof fn lemma_lower_function_split(
    name: Seq<char>,
    params: Seq<Seq<char>>,
    body: ExprView,
    a: State,
    b: State,
    k: int,
)
    requires
        related(a, b, k),
    ensures
        outcomes_related(
            lower_function(name, params, body, a),
            lower_function(name, params, body, b),
            k,
        ),
    decreases body, 1nat,
{
}

/// An empty block is lowered to the constant zero, and the scopes are
/// afterwards as they were before.
pub proof fn law_empty_block(s: State)
    ensures
        lower(ExprView::Block(Seq::empty()), s) == (Lowered {
            state: s.emit(Op::Iconst { imm: 0 }),
            result: Ok(s.next_value()),
        }),
{
    let items = Seq::<ExprView>::empty();
    let lowered = lower(ExprView::Block(items), s);
    assert(lowered == lower_block(items, None, s));
    assert(items.len() == 0);
    assert(lowered == s.enter().emit_value(Op::Iconst { imm: 0 }).exit());
    assert(lowered.state.scopes =~= s.scopes);
}

/// A block of one expression is lowered as the expression is: to the same
/// operations with the same value, or to the same error. Afterwards the
/// scopes are as they were before the block.
pub proof fn law_block_of_one(e: ExprView, s: State)
    requires
        s.scopes.len() > 0,
    ensures
        lower(ExprView::Block(seq![e]), s).result == lower(e, s).result,
        lower(ExprView::Block(seq![e]), s).state.ops == lower(e, s).state.ops,
        lower(ExprView::Block(seq![e]), s).state.symbols == lower(e, s).state.symbols,
        lower(ExprView::Block(seq![e]), s).state.next_variable_index == lower(
            e,
            s,
        ).state.next_variable_index,
        lower(e, s).result is Ok ==> lower(ExprView::Block(seq![e]), s).state.scopes == s.scopes,
{
    let k = s.scopes.len() - 1;
    let opened = s.enter();
    assert(related(s, opened, k)) by {
        assert(s.scopes[k] =~= opened.scopes[k].union_prefer_right(opened.scopes[k + 1]));
    }
    lemma_lower_split(e, s, opened, k);
    reveal_with_fuel(lower_from, 2);
    lemma_lower_block_depth(seq![e], None, s);
}

} // verus!
