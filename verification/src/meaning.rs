use crate::ast::ExprView;
use crate::literal::literal_word;
use crate::machine::apply;
use vstd::prelude::*;

verus! {

/// The index of the innermost scope of `env` that binds `name`.
pub open spec fn find(env: Seq<Map<Seq<char>, i64>>, name: Seq<char>) -> Option<int>
    decreases env.len(),
{
    if env.len() == 0 {
        None
    } else if env.last().contains_key(name) {
        Some(env.len() - 1)
    } else {
        find(env.drop_last(), name)
    }
}

/// The word of `name`: the one that the innermost scope that binds `name`
/// holds for it.
pub open spec fn read(env: Seq<Map<Seq<char>, i64>>, name: Seq<char>) -> i64 {
    env[find(env, name)->0][name]
}

/// The scopes after `name` was bound to `word` in the innermost one.
pub open spec fn bind(env: Seq<Map<Seq<char>, i64>>, name: Seq<char>, word: i64) -> Seq<
    Map<Seq<char>, i64>,
> {
    env.update(env.len() - 1, env.last().insert(name, word))
}

/// The scopes after `word` was assigned to `name`: it replaces the word in
/// the innermost scope that binds `name`; if none does, `name` is bound
/// in the innermost scope.
pub open spec fn assign(env: Seq<Map<Seq<char>, i64>>, name: Seq<char>, word: i64) -> Seq<
    Map<Seq<char>, i64>,
> {
    match find(env, name) {
        Some(i) => env.update(i, env[i].insert(name, word)),
        None => bind(env, name, word),
    }
}

/// The scopes after the names from position `from` on were declared in
/// the innermost one: each holds zero.
pub open spec fn bind_all(env: Seq<Map<Seq<char>, i64>>, names: Seq<Seq<char>>, from: nat) -> Seq<
    Map<Seq<char>, i64>,
>
    decreases names.len() - from,
{
    if from >= names.len() {
        env
    } else {
        bind_all(bind(env, names[from as int], 0), names, from + 1)
    }
}

/// The scopes after the names that `e` assigns for the first time were
/// declared, without anything being evaluated: a name that is assigned in
/// a part of `e` that is not evaluated is bound all the same, and holds
/// zero. What a block declares is gone behind it.
pub open spec fn declared_by(e: ExprView, env: Seq<Map<Seq<char>, i64>>) -> Seq<
    Map<Seq<char>, i64>,
>
    decreases e,
{
    match e {
        ExprView::IntegerLiteral(_) => env,
        ExprView::Nil => env,
        ExprView::Reference(_) => env,
        ExprView::Block(_) => env,
        ExprView::FunctionLiteral { params, body } => env,
        ExprView::Binary(_, lhs, rhs) => declared_by(*rhs, declared_by(*lhs, env)),
        ExprView::Assign(name, value) => {
            let inner = declared_by(*value, env);
            if find(inner, name) is Some {
                inner
            } else {
                bind(inner, name, 0)
            }
        },
        ExprView::Conditional(condition, then_branch, else_branch) => declared_by(
            *else_branch,
            declared_by(*then_branch, declared_by(*condition, env)),
        ),
    }
}

/// The word of an expression and the scopes behind it.
pub struct Evaluated {
    pub word: i64,
    pub env: Seq<Map<Seq<char>, i64>>,
}

/// The meaning of an expression in which no function literal is assigned
/// and every name that is read is bound, in the scopes `env`.
///
/// - A literal means its number, `Nil` means zero, a name means its word.
/// - A binary node means what the instruction computes from its left and
///   its right operand, evaluated in that order; a division by zero means
///   nothing.
/// - A block means its last expression, evaluated behind the others in a
///   scope of its own; an empty block means zero.
/// - An assignment means its right-hand side, and assigns its word to the
///   name.
/// - A conditional means its first branch if the condition is not zero,
///   else its second; the names of the other branch are declared all the
///   same.
/// - A function literal means its body, with its parameters holding zero.
pub open spec fn eval(e: ExprView, env: Seq<Map<Seq<char>, i64>>) -> Option<Evaluated>
    decreases e, 0nat,
{
    match e {
        ExprView::IntegerLiteral(text) => Some(
            Evaluated { word: literal_word(text), env },
        ),
        ExprView::Nil => Some(Evaluated { word: 0, env }),
        ExprView::Reference(name) => Some(Evaluated { word: read(env, name), env }),
        ExprView::Binary(op, lhs, rhs) => match eval(*lhs, env) {
            None => None,
            Some(a) => match eval(*rhs, a.env) {
                None => None,
                Some(b) => match apply(op, a.word, b.word) {
                    None => None,
                    Some(word) => Some(Evaluated { word, env: b.env }),
                },
            },
        },
        ExprView::Block(items) => eval_block(items, None, env),
        ExprView::Assign(name, value) => match eval(*value, env) {
            None => None,
            Some(v) => Some(Evaluated { word: v.word, env: assign(v.env, name, v.word) }),
        },
        ExprView::Conditional(condition, then_branch, else_branch) => match eval(
            *condition,
            env,
        ) {
            None => None,
            Some(c) => if c.word != 0 {
                match eval(*then_branch, c.env) {
                    None => None,
                    Some(t) => Some(
                        Evaluated { word: t.word, env: declared_by(*else_branch, t.env) },
                    ),
                }
            } else {
                eval(*else_branch, declared_by(*then_branch, c.env))
            },
        },
        ExprView::FunctionLiteral { params, body } => match *body {
            ExprView::Block(items) => eval_block(items, Some(params), env),
            _ => None,
        },
    }
}

/// The meaning of the expressions of `items` from position `from` on,
/// evaluated in order: the word of the last one, or `last` if none is
/// left.
pub open spec fn eval_from(
    items: Seq<ExprView>,
    from: nat,
    env: Seq<Map<Seq<char>, i64>>,
    last: i64,
) -> Option<Evaluated>
    decreases items, items.len() - from,
{
    if from >= items.len() {
        Some(Evaluated { word: last, env })
    } else {
        match eval(items[from as int], env) {
            None => None,
            Some(v) => eval_from(items, from + 1, v.env, v.word),
        }
    }
}

/// The meaning of a block: that of its expressions in order, in a new
/// innermost scope in which the names of `with_variables` hold zero. The
/// scope is gone behind the block.
pub open spec fn eval_block(
    items: Seq<ExprView>,
    with_variables: Option<Seq<Seq<char>>>,
    env: Seq<Map<Seq<char>, i64>>,
) -> Option<Evaluated>
    decreases items, items.len() + 1,
{
    let opened = match with_variables {
        Some(names) => bind_all(env.push(Map::empty()), names, 0),
        None => env.push(Map::empty()),
    };
    match eval_from(items, 0, opened, 0) {
        None => None,
        Some(v) => Some(Evaluated { word: v.word, env: v.env.drop_last() }),
    }
}

/// What a program means: the word of its expressions, evaluated as a
/// block in which no name is bound yet.
pub open spec fn value_of(items: Seq<ExprView>) -> Option<i64> {
    match eval_block(items, None, seq![Map::empty()]) {
        Some(v) => Some(v.word),
        None => None,
    }
}

/// A name is found in the scopes as it is found below a scope that does
/// not bind it.
pub proof fn lemma_find_below(
    env: Seq<Map<Seq<char>, i64>>,
    top: Map<Seq<char>, i64>,
    name: Seq<char>,
)
    requires
        !top.contains_key(name),
    ensures
        find(env.push(top), name) == find(env, name),
{
    assert(env.push(top).drop_last() =~= env);
}

/// An assignment in an inner block to a name that an outer scope binds
/// writes the outer binding: behind the block, the name holds the word
/// that was assigned, in the scope that bound it before.
pub proof fn law_inner_assignment_writes_outer(
    name: Seq<char>,
    text: Seq<char>,
    env: Seq<Map<Seq<char>, i64>>,
)
    requires
        find(env, name) is Some,
    ensures
        ({
            let block = ExprView::Block(
                seq![ExprView::Assign(name, Box::new(ExprView::IntegerLiteral(text)))],
            );
            let word = literal_word(text);
            let at = find(env, name)->0;
            eval(block, env) == Some(
                Evaluated { word, env: env.update(at, env[at].insert(name, word)) },
            )
        }),
{
    let word = literal_word(text);
    let at = find(env, name)->0;
    let inner = env.push(Map::empty());
    let items = seq![ExprView::Assign(name, Box::new(ExprView::IntegerLiteral(text)))];
    lemma_find_below(env, Map::empty(), name);
    lemma_find_bounds(env, name);
    let written = assign(inner, name, word);
    assert(written == inner.update(at, inner[at].insert(name, word)));
    assert(eval(ExprView::IntegerLiteral(text), inner) == Some(Evaluated { word, env: inner }));
    assert(eval(items[0], inner) == Some(Evaluated { word, env: written }));
    reveal_with_fuel(eval_from, 2);
    assert(eval_from(items, 0, inner, 0) == Some(Evaluated { word, env: written }));
    assert(written.drop_last() =~= env.update(at, env[at].insert(name, word)));
    assert(eval_block(items, None, env) == Some(
        Evaluated { word, env: written.drop_last() },
    ));
    assert(eval(ExprView::Block(items), env) == eval_block(items, None, env));
}

/// A name is found in one of the scopes, which binds it.
pub proof fn lemma_find_bounds(env: Seq<Map<Seq<char>, i64>>, name: Seq<char>)
    ensures
        find(env, name) matches Some(at) ==> 0 <= at < env.len() && env[at].contains_key(name),
    decreases env.len(),
{
    if env.len() > 0 && !env.last().contains_key(name) {
        lemma_find_bounds(env.drop_last(), name);
    }
}

} // verus!
