use crate::ast::ExprView;
use crate::ir::{BinaryOp, Ebb, Op, Value};
use crate::literal::{literal_value, literal_word};
use crate::lower::{lower, lower_from, LowerError, State};
use crate::machine::{
    apply, block_entry, block_param, result_of, result_of_unit, run, unsigned, wrap, Machine,
};
use crate::scope::resolve;
use crate::translate::{compile, Program, ProgramView};
use vstd::prelude::*;

verus! {

/// A reference to a name that no open scope binds is an error, and
/// nothing is emitted for it.
pub proof fn law_unbound_reference_fails(name: Seq<char>, s: State)
    requires
        resolve(s.scopes, name) is None,
    ensures
        lower(ExprView::Reference(name), s).result == Err::<Value, LowerError>(
            LowerError::UnboundName,
        ),
        lower(ExprView::Reference(name), s).state == s,
{
}

/// A program that reads a name before anything was assigned has no
/// code: lowering fails with the unbound name.
pub proof fn law_lone_reference_fails(name: Seq<char>)
    ensures
        compile(seq![ExprView::Reference(name)]) == Err::<ProgramView, LowerError>(
            LowerError::UnboundName,
        ),
{
    let items = seq![ExprView::Reference(name)];
    let opened = State::initial().enter();
    assert(opened.scopes =~= seq![Map::empty(), Map::empty()]);
    reveal_with_fuel(resolve, 3);
    assert(opened.scopes.drop_last() =~= seq![Map::empty()]);
    assert(opened.scopes.drop_last().drop_last() =~= Seq::empty());
    assert(resolve(opened.scopes, name) is None);
    reveal_with_fuel(lower_from, 2);
}

/// A program that consists of one literal returns the number that the
/// literal denotes.
pub proof fn law_literal_evaluates_to_its_number(text: Seq<char>)
    requires
        literal_value(text) is Some,
    ensures
        compile(seq![ExprView::IntegerLiteral(text)]) matches Ok(program) && result_of(program.ops)
            == Some(literal_value(text)->0 as i64),
{
    let n = literal_value(text)->0 as i64;
    let items = seq![ExprView::IntegerLiteral(text)];
    reveal_with_fuel(lower_from, 2);
    let program = compile(items)->Ok_0;
    assert(program.ops =~= seq![Op::Iconst { imm: n }, Op::Return { value: Value { def: 0 } }]);
    reveal_with_fuel(run, 3);
}

/// Between two words that sign-extend 32-bit numbers, addition,
/// subtraction and multiplication do not wrap.
pub proof fn lemma_narrow_operands_do_not_wrap(a: i32, b: i32)
    ensures
        wrap(a + b) == a + b,
        wrap(a - b) == a - b,
        wrap(a * b) == a * b,
{
    assert(-0x8000_0000 <= a <= 0x7fff_ffff);
    assert(-0x8000_0000 <= b <= 0x7fff_ffff);
    assert(-0x4000_0000_0000_0000 <= a * b <= 0x4000_0000_0000_0000) by (nonlinear_arith)
        requires
            -0x8000_0000 <= a <= 0x7fff_ffff,
            -0x8000_0000 <= b <= 0x7fff_ffff,
    ;
    lemma_wrap_in_range(a + b);
    lemma_wrap_in_range(a - b);
    lemma_wrap_in_range(a * b);
}

/// A number that fits a native word is that word.
pub proof fn lemma_wrap_in_range(n: int)
    requires
        i64::MIN <= n <= i64::MAX,
    ensures
        wrap(n) == n,
{
    if n < 0 {
        assert(n % 0x1_0000_0000_0000_0000 == n + 0x1_0000_0000_0000_0000) by {
            vstd::arithmetic::div_mod::lemma_fundamental_div_mod_converse(
                n,
                0x1_0000_0000_0000_0000,
                -1,
                n + 0x1_0000_0000_0000_0000,
            );
        }
    } else {
        assert(n % 0x1_0000_0000_0000_0000 == n) by {
            vstd::arithmetic::div_mod::lemma_small_mod(n as nat, 0x1_0000_0000_0000_0000);
        }
    }
}

/// The state in which the expressions of a program are lowered.
pub open spec fn top() -> State {
    State::initial().enter()
}

/// What a program of one expression is, given what its expression is
/// lowered to.
proof fn lemma_compile_one(e: ExprView)
    requires
        lower(e, top()).result is Ok,
    ensures
        compile(seq![e]) == Ok::<ProgramView, LowerError>(
            ProgramView {
                ops: lower(e, top()).state.ops.push(
                    Op::Return { value: lower(e, top()).result->Ok_0 },
                ),
                symbols: lower(e, top()).state.symbols,
            },
        ),
{
    reveal_with_fuel(lower_from, 2);
}

/// The operations of a program that consists of a binary node on two
/// literals.
pub open spec fn binary_program(op: BinaryOp, a: i64, b: i64) -> Seq<Op> {
    seq![
        Op::Iconst { imm: a },
        Op::Iconst { imm: b },
        Op::Binary { op, lhs: Value { def: 0 }, rhs: Value { def: 1 } },
        Op::Return { value: Value { def: 2 } },
    ]
}

/// What the program of a binary node on two literals returns.
proof fn lemma_binary_program_result(op: BinaryOp, a: i64, b: i64)
    ensures
        result_of(binary_program(op, a, b)) == apply(op, a, b),
{
    reveal_with_fuel(run, 5);
}

/// A program that consists of a binary node on two literals returns what
/// the instruction computes from the two numbers: their sum, difference
/// or product, or the quotient of the two words read as unsigned numbers.
/// It returns nothing if it divides by zero.
pub proof fn law_binary_on_literals(op: BinaryOp, left: Seq<char>, right: Seq<char>)
    requires
        literal_value(left) is Some,
        literal_value(right) is Some,
    ensures
        ({
            let a = literal_value(left)->0;
            let b = literal_value(right)->0;
            let node = ExprView::Binary(
                op,
                Box::new(ExprView::IntegerLiteral(left)),
                Box::new(ExprView::IntegerLiteral(right)),
            );
            &&& compile(seq![node]) matches Ok(program) && program.ops == binary_program(
                op,
                a as i64,
                b as i64,
            ) && result_of(program.ops) == match op {
                BinaryOp::Iadd => Some((a + b) as i64),
                BinaryOp::Isub => Some((a - b) as i64),
                BinaryOp::Imul => Some((a * b) as i64),
                BinaryOp::Udiv => if b == 0 {
                    None
                } else {
                    Some(wrap(unsigned(a as i64) / unsigned(b as i64)))
                },
            }
            &&& i64::MIN <= a + b <= i64::MAX
            &&& i64::MIN <= a - b <= i64::MAX
            &&& i64::MIN <= a * b <= i64::MAX
        }),
{
    let a = literal_value(left)->0;
    let b = literal_value(right)->0;
    let lhs = ExprView::IntegerLiteral(left);
    let rhs = ExprView::IntegerLiteral(right);
    let node = ExprView::Binary(op, Box::new(lhs), Box::new(rhs));
    let l = lower(lhs, top());
    assert(l == top().emit_value(Op::Iconst { imm: a as i64 }));
    let r = lower(rhs, l.state);
    assert(r == l.state.emit_value(Op::Iconst { imm: b as i64 }));
    let whole = lower(node, top());
    assert(whole == r.state.emit_value(
        Op::Binary { op, lhs: Value { def: 0 }, rhs: Value { def: 1 } },
    ));
    lemma_compile_one(node);
    let program = compile(seq![node])->Ok_0;
    assert(program.ops =~= binary_program(op, a as i64, b as i64));
    lemma_binary_program_result(op, a as i64, b as i64);
    lemma_narrow_operands_do_not_wrap(a, b);
    assert(-0x4000_0000_0000_0000 <= a * b <= 0x4000_0000_0000_0000) by (nonlinear_arith)
        requires
            -0x8000_0000 <= a <= 0x7fff_ffff,
            -0x8000_0000 <= b <= 0x7fff_ffff,
    ;
}

/// The operations of a program that consists of a conditional on three
/// literals.
pub open spec fn conditional_program(c: i64, t: i64, e: i64) -> Seq<Op> {
    seq![
        Op::Iconst { imm: c },
        Op::CreateEbb,
        Op::CreateEbb,
        Op::AppendEbbParam { ebb: Ebb { def: 2 } },
        Op::Brz { cond: Value { def: 0 }, target: Ebb { def: 1 } },
        Op::Iconst { imm: t },
        Op::Jump { target: Ebb { def: 2 }, arg: Value { def: 5 } },
        Op::SwitchToBlock { ebb: Ebb { def: 1 } },
        Op::SealBlock { ebb: Ebb { def: 1 } },
        Op::Iconst { imm: e },
        Op::Jump { target: Ebb { def: 2 }, arg: Value { def: 9 } },
        Op::SwitchToBlock { ebb: Ebb { def: 2 } },
        Op::SealBlock { ebb: Ebb { def: 2 } },
        Op::Return { value: Value { def: 3 } },
    ]
}

/// What the program of a conditional on three literals returns.
proof fn lemma_conditional_program_result(c: i64, t: i64, e: i64)
    ensures
        result_of(conditional_program(c, t, e)) == Some(if c == 0 { e } else { t }),
{
    let ops = conditional_program(c, t, e);
    let else_ebb = Ebb { def: 1 };
    let merge_ebb = Ebb { def: 2 };
    let args = Seq::<i64>::empty();
    let m0 = Machine::empty().define(0, c);
    assert(block_param(ops, merge_ebb, 0) == Some(3nat)) by {
        reveal_with_fuel(block_param, 5);
    }
    assert(run(ops, args, 12, m0.define(5, t).define(3, t)) == Some(t)) by {
        reveal_with_fuel(run, 3);
    }
    assert(run(ops, args, 12, m0.define(9, e).define(3, e)) == Some(e)) by {
        reveal_with_fuel(run, 3);
    }
    assert(run(ops, args, 8, m0) == Some(e)) by {
        assert(block_entry(ops, merge_ebb, 11) == Some(12nat)) by {
            reveal_with_fuel(block_entry, 2);
        }
        reveal_with_fuel(run, 4);
    }
    assert(run(ops, args, 5, m0) == Some(t)) by {
        assert(block_entry(ops, merge_ebb, 7) == Some(12nat)) by {
            reveal_with_fuel(block_entry, 6);
        }
        reveal_with_fuel(run, 3);
    }
    assert(run(ops, args, 0, Machine::empty()) == Some(if c == 0 { e } else { t })) by {
        assert(block_entry(ops, else_ebb, 5) == Some(8nat)) by {
            reveal_with_fuel(block_entry, 4);
        }
        reveal_with_fuel(run, 6);
    }
}

/// A program that consists of a conditional on three literals returns the
/// number of the second branch if the condition denotes zero, else that of
/// the first branch.
pub proof fn law_conditional_on_literals(
    condition: Seq<char>,
    then_branch: Seq<char>,
    else_branch: Seq<char>,
)
    requires
        literal_value(condition) is Some,
        literal_value(then_branch) is Some,
        literal_value(else_branch) is Some,
    ensures
        ({
            let node = ExprView::Conditional(
                Box::new(ExprView::IntegerLiteral(condition)),
                Box::new(ExprView::IntegerLiteral(then_branch)),
                Box::new(ExprView::IntegerLiteral(else_branch)),
            );
            compile(seq![node]) matches Ok(program) && program.ops == conditional_program(
                literal_word(condition),
                literal_word(then_branch),
                literal_word(else_branch),
            ) && result_of(program.ops) == Some(
                if literal_value(condition)->0 == 0 {
                    literal_word(else_branch)
                } else {
                    literal_word(then_branch)
                },
            )
        }),
{
    let c = literal_word(condition);
    let t = literal_word(then_branch);
    let e = literal_word(else_branch);
    let cond_node = ExprView::IntegerLiteral(condition);
    let then_node = ExprView::IntegerLiteral(then_branch);
    let else_node = ExprView::IntegerLiteral(else_branch);
    let node = ExprView::Conditional(
        Box::new(cond_node),
        Box::new(then_node),
        Box::new(else_node),
    );
    let else_ebb = Ebb { def: 1 };
    let merge_ebb = Ebb { def: 2 };
    let lc = lower(cond_node, top());
    assert(lc == top().emit_value(Op::Iconst { imm: c }));
    let branched = lc.state.emit(Op::CreateEbb).emit(Op::CreateEbb).emit(
        Op::AppendEbbParam { ebb: merge_ebb },
    ).emit(Op::Brz { cond: Value { def: 0 }, target: else_ebb });
    let lt = lower(then_node, branched);
    assert(lt == branched.emit_value(Op::Iconst { imm: t }));
    let switched = lt.state.emit(Op::Jump { target: merge_ebb, arg: Value { def: 5 } }).emit(
        Op::SwitchToBlock { ebb: else_ebb },
    ).emit(Op::SealBlock { ebb: else_ebb });
    let le = lower(else_node, switched);
    assert(le == switched.emit_value(Op::Iconst { imm: e }));
    let joined = le.state.emit(Op::Jump { target: merge_ebb, arg: Value { def: 9 } }).emit(
        Op::SwitchToBlock { ebb: merge_ebb },
    ).emit(Op::SealBlock { ebb: merge_ebb });
    let whole = lower(node, top());
    assert(whole.state == joined && whole.result == Ok::<Value, LowerError>(Value { def: 3 }));
    lemma_compile_one(node);
    let program = compile(seq![node])->Ok_0;
    assert(program.ops =~= conditional_program(c, t, e));
    lemma_conditional_program_result(c, t, e);
}

/// Lowering is repeatable: two programs that were lowered from the same
/// expressions hold the same operations and symbols, so they return the
/// same result, and each of their function units returns the same for the
/// same arguments.
pub proof fn law_same_tree_same_program(items: Seq<ExprView>, first: Program, second: Program)
    requires
        compile(items) == Ok::<ProgramView, LowerError>(first@),
        compile(items) == Ok::<ProgramView, LowerError>(second@),
    ensures
        first@ == second@,
        result_of(first@.ops) == result_of(second@.ops),
        forall|unit: nat, args: Seq<i64>|
            result_of_unit(first@.ops, unit, args) == result_of_unit(second@.ops, unit, args),
{
}

} // verus!
