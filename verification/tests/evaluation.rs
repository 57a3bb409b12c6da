use eck::ast::Expr;
use eck::ir::{BinaryOp, Ebb, Op, Value, Variable};
use eck::machine::{
    compute, evaluate, evaluate_unit, execute, find_block_entry, find_block_param,
    find_declaration, find_unit_end, is_declared, to_unsigned,
};
use eck::translate::lower_program;

fn num(n: i64) -> Expr {
    Expr::IntegerLiteral(n.to_string())
}

fn get(text: &str) -> Expr {
    Expr::Ref(text.to_string())
}

fn set(target: &str, value: Expr) -> Expr {
    Expr::Assign(target.to_string(), Box::new(value))
}

fn when(condition: Expr, then: Expr, otherwise: Expr) -> Expr {
    Expr::If(Box::new(condition), Box::new(then), Box::new(otherwise))
}

fn value_of(items: Vec<Expr>) -> Option<i64> {
    let program = lower_program(&items).unwrap();
    evaluate(&program.ops)
}

#[test]
fn a_literal_evaluates_to_its_number() {
    for n in [0i64, 1, -1, 42, 2147483647, -2147483648] {
        assert_eq!(value_of(vec![num(n)]), Some(n));
    }
}

#[test]
fn an_empty_block_evaluates_to_zero() {
    assert_eq!(value_of(vec![Expr::Block(vec![])]), Some(0));
    assert_eq!(value_of(vec![]), Some(0));
    assert_eq!(value_of(vec![Expr::Nil]), Some(0));
}

#[test]
fn a_block_of_one_evaluates_like_its_expression() {
    assert_eq!(value_of(vec![Expr::Block(vec![num(7)])]), value_of(vec![num(7)]));
}

#[test]
fn addition_subtraction_and_multiplication_of_literals() {
    let pairs = [
        (1i64, 2i64),
        (-5, 3),
        (2147483647, 2147483647),
        (-2147483648, -2147483648),
        (0, -7),
    ];
    for (a, b) in pairs {
        assert_eq!(value_of(vec![Expr::Add(Box::new(num(a)), Box::new(num(b)))]), Some(a + b));
        assert_eq!(value_of(vec![Expr::Sub(Box::new(num(a)), Box::new(num(b)))]), Some(a - b));
        assert_eq!(value_of(vec![Expr::Mul(Box::new(num(a)), Box::new(num(b)))]), Some(a * b));
    }
}

#[test]
fn division_is_unsigned_on_sign_extended_words() {
    let div = |a: i64, b: i64| value_of(vec![Expr::Div(Box::new(num(a)), Box::new(num(b)))]);
    assert_eq!(div(7, 2), Some(3));
    assert_eq!(div(0, 5), Some(0));
    assert_eq!(div(-1, 2), Some(0x7fff_ffff_ffff_ffff));
    assert_eq!(div(-2, -1), Some(0));
    assert_eq!(div(-1, -1), Some(1));
    assert_eq!(div(-1, 1), Some(-1));
    assert_eq!(div(5, -1), Some(0));
    assert_eq!(div(1, 0), None);
}

#[test]
fn arithmetic_wraps_at_the_width_of_a_word() {
    assert_eq!(compute(BinaryOp::Iadd, i64::MAX, 1), Some(i64::MIN));
    assert_eq!(compute(BinaryOp::Isub, i64::MIN, 1), Some(i64::MAX));
    assert_eq!(compute(BinaryOp::Imul, i64::MAX, 2), Some(-2));
    assert_eq!(compute(BinaryOp::Imul, i64::MIN, -1), Some(i64::MIN));
    assert_eq!(compute(BinaryOp::Udiv, i64::MIN, 2), Some(0x4000_0000_0000_0000));
    assert_eq!(compute(BinaryOp::Udiv, -1, 1), Some(-1));
    assert_eq!(compute(BinaryOp::Udiv, 3, 0), None);
    assert_eq!(to_unsigned(-1), u64::MAX);
    assert_eq!(to_unsigned(i64::MIN), 0x8000_0000_0000_0000);
    assert_eq!(to_unsigned(5), 5);
}

#[test]
fn an_inner_assignment_is_seen_outside() {
    let program = vec![Expr::Block(vec![
        set("x", num(1)),
        Expr::Block(vec![set("x", num(2))]),
        get("x"),
    ])];
    assert_eq!(value_of(program), Some(2));
}

#[test]
fn a_conditional_takes_the_else_branch_on_zero() {
    assert_eq!(value_of(vec![when(num(0), num(1), num(2))]), Some(2));
    assert_eq!(value_of(vec![when(num(5), num(1), num(2))]), Some(1));
    assert_eq!(value_of(vec![when(num(-1), num(1), num(2))]), Some(1));
}

#[test]
fn nested_conditionals_evaluate() {
    let pick = |a: i64, b: i64, c: i64| {
        value_of(vec![when(
            num(a),
            when(num(b), num(10), num(20)),
            when(num(c), num(30), num(40)),
        )])
    };
    assert_eq!(pick(1, 1, 0), Some(10));
    assert_eq!(pick(1, 0, 1), Some(20));
    assert_eq!(pick(0, 1, 1), Some(30));
    assert_eq!(pick(0, 0, 0), Some(40));
    let chained = |a: i64, b: i64| {
        value_of(vec![when(
            when(num(a), num(0), num(1)),
            num(b),
            Expr::Add(Box::new(num(b)), Box::new(num(1))),
        )])
    };
    assert_eq!(chained(0, 5), Some(5));
    assert_eq!(chained(9, 5), Some(6));
}

#[test]
fn an_assignment_in_a_branch_is_seen_after_the_conditional() {
    let run = |c: i64| {
        value_of(vec![
            set("x", num(1)),
            when(num(c), set("x", num(2)), set("x", num(3))),
            Expr::Mul(Box::new(get("x")), Box::new(num(10))),
        ])
    };
    assert_eq!(run(1), Some(20));
    assert_eq!(run(0), Some(30));
}

#[test]
fn an_assignment_is_an_expression() {
    assert_eq!(value_of(vec![Expr::Add(Box::new(set("x", num(4))), Box::new(get("x")))]), Some(8));
}

#[test]
fn a_declared_parameter_reads_as_zero_until_written() {
    let inline = Expr::Func {
        params: vec!["p".to_string()],
        block: Box::new(Expr::Block(vec![Expr::Add(Box::new(get("p")), Box::new(num(3)))])),
    };
    assert_eq!(value_of(vec![inline]), Some(3));
}

#[test]
fn a_published_unit_can_be_called() {
    let body = Expr::Sub(Box::new(get("a")), Box::new(get("b")));
    let function = Expr::Func {
        params: vec!["a".to_string(), "b".to_string()],
        block: Box::new(Expr::Block(vec![body])),
    };
    let program = lower_program(&vec![set("minus", function), num(3)]).unwrap();
    assert_eq!(program.symbols, vec!["minus".to_string()]);
    assert_eq!(program.ops[0], Op::BeginFunction { params: 2 });
    assert_eq!(evaluate_unit(&program.ops, 0, &vec![10, 4]), Some(6));
    assert_eq!(evaluate_unit(&program.ops, 0, &vec![4, 10]), Some(-6));
    assert_eq!(evaluate_unit(&program.ops, 0, &vec![4]), None);
    assert_eq!(evaluate_unit(&program.ops, 1, &vec![10, 4]), None);
    assert_eq!(evaluate_unit(&program.ops, 99, &vec![]), None);
}

#[test]
fn the_address_of_a_unit_has_no_word() {
    let function = Expr::Func { params: vec![], block: Box::new(Expr::Block(vec![])) };
    let program = lower_program(&vec![set("f", function)]).unwrap();
    assert_eq!(evaluate(&program.ops), None);
    assert_eq!(evaluate_unit(&program.ops, 0, &vec![]), Some(0));
}

#[test]
fn a_unit_is_passed_over_when_the_enclosing_unit_runs() {
    let ops = vec![
        Op::Iconst { imm: 7 },
        Op::BeginFunction { params: 0 },
        Op::BeginFunction { params: 0 },
        Op::Iconst { imm: 1 },
        Op::Return { value: Value { def: 3 } },
        Op::Finalize,
        Op::Iconst { imm: 2 },
        Op::Return { value: Value { def: 6 } },
        Op::Finalize,
        Op::Publish { unit: 1, symbol: 0 },
        Op::Return { value: Value { def: 0 } },
    ];
    assert_eq!(evaluate(&ops), Some(7));
    assert_eq!(evaluate_unit(&ops, 1, &vec![]), Some(2));
    assert_eq!(evaluate_unit(&ops, 2, &vec![]), Some(1));
    assert_eq!(find_unit_end(&ops, 2), Some(8));
    assert_eq!(find_unit_end(&ops, 3), Some(5));
    assert_eq!(find_unit_end(&ops, 9), None);
}

#[test]
fn the_machine_stops_without_a_result_on_a_broken_stream() {
    let v = |def: usize| Value { def };
    assert_eq!(evaluate(&vec![]), None);
    assert_eq!(evaluate(&vec![Op::Iconst { imm: 1 }]), None);
    assert_eq!(evaluate(&vec![Op::Return { value: v(0) }]), None);
    assert_eq!(evaluate(&vec![Op::UseVar { var: Variable { index: 0 } }]), None);
    assert_eq!(
        evaluate(&vec![
            Op::Iconst { imm: 1 },
            Op::DefVar { var: Variable { index: 0 }, value: v(0) },
        ]),
        None
    );
    assert_eq!(evaluate(&vec![Op::Param { index: 0 }]), None);
    assert_eq!(evaluate(&vec![Op::Finalize]), None);
    assert_eq!(evaluate(&vec![Op::SwitchToBlock { ebb: Ebb { def: 0 } }]), None);
    assert_eq!(evaluate(&vec![Op::BeginFunction { params: 0 }, Op::Iconst { imm: 1 }]), None);
    assert_eq!(
        evaluate(&vec![Op::Iconst { imm: 0 }, Op::Brz { cond: v(0), target: Ebb { def: 9 } }]),
        None
    );
    assert_eq!(
        evaluate(&vec![
            Op::CreateEbb,
            Op::Iconst { imm: 0 },
            Op::Jump { target: Ebb { def: 0 }, arg: v(1) },
            Op::SwitchToBlock { ebb: Ebb { def: 0 } },
            Op::Return { value: v(1) },
        ]),
        None
    );
    assert_eq!(
        evaluate(&vec![Op::Binary { op: BinaryOp::Iadd, lhs: v(5), rhs: v(6) }]),
        None
    );
}

#[test]
fn transfers_only_go_forward() {
    let target = Ebb { def: 0 };
    let ops = vec![
        Op::CreateEbb,
        Op::AppendEbbParam { ebb: target },
        Op::SwitchToBlock { ebb: target },
        Op::Iconst { imm: 0 },
        Op::Jump { target, arg: Value { def: 3 } },
    ];
    assert_eq!(evaluate(&ops), None);
    assert_eq!(find_block_entry(&ops, target, 0), Some(3));
    assert_eq!(find_block_entry(&ops, target, 3), None);
    assert_eq!(find_block_param(&ops, target, 0), Some(1));
    assert_eq!(find_block_param(&ops, target, 2), None);
    assert_eq!(find_block_param(&ops, Ebb { def: 4 }, 0), None);
}

#[test]
fn execute_starts_where_it_is_told() {
    let ops = vec![
        Op::Iconst { imm: 1 },
        Op::Return { value: Value { def: 0 } },
        Op::Param { index: 1 },
        Op::Return { value: Value { def: 2 } },
    ];
    assert_eq!(execute(&ops, &vec![], 0), Some(1));
    assert_eq!(execute(&ops, &vec![5, 6], 2), Some(6));
    assert_eq!(execute(&ops, &vec![5], 2), None);
    assert_eq!(execute(&ops, &vec![], 4), None);
    assert_eq!(execute(&ops, &vec![], 1), None);
}

#[test]
fn every_block_is_sealed_after_the_transfers_to_it() {
    let tree = when(
        when(num(1), num(0), num(1)),
        when(num(0), when(num(1), num(2), num(3)), num(4)),
        Expr::Block(vec![set("x", when(num(0), num(5), num(6))), get("x")]),
    );
    let program = lower_program(&vec![tree]).unwrap();
    let ops = &program.ops;
    let mut seals = 0;
    for (i, op) in ops.iter().enumerate() {
        if let Op::SealBlock { ebb } = op {
            seals += 1;
            let mut transfers = 0;
            for (j, other) in ops.iter().enumerate() {
                let hit = match other {
                    Op::Brz { target, .. } => target == ebb,
                    Op::Jump { target, .. } => target == ebb,
                    _ => false,
                };
                if hit {
                    assert!(j < i, "transfer at {} to a block sealed at {}", j, i);
                    transfers += 1;
                }
            }
            let merge = ops.iter().any(|o| *o == Op::AppendEbbParam { ebb: *ebb });
            assert_eq!(transfers, if merge { 2 } else { 1 });
        }
    }
    assert_eq!(seals, 10);
    assert_eq!(evaluate(ops), Some(6));
}

#[test]
fn two_lowerings_of_one_tree_evaluate_alike() {
    let tree = || {
        vec![
            set("x", num(6)),
            when(
                Expr::Sub(Box::new(get("x")), Box::new(num(6))),
                num(1),
                Expr::Mul(Box::new(get("x")), Box::new(num(7))),
            ),
        ]
    };
    let first = lower_program(&tree()).unwrap();
    let second = lower_program(&tree()).unwrap();
    assert_eq!(evaluate(&first.ops), Some(42));
    assert_eq!(evaluate(&second.ops), Some(42));
    assert_eq!(first.ops, second.ops);
}

#[test]
fn a_variable_declared_in_one_branch_can_be_written_in_the_other() {
    let run = |c: i64| {
        value_of(vec![when(num(c), set("x", num(1)), set("x", num(2))), get("x")])
    };
    assert_eq!(run(1), Some(1));
    assert_eq!(run(0), Some(2));
}

#[test]
fn a_variable_declared_in_a_branch_not_taken_reads_as_zero() {
    assert_eq!(value_of(vec![when(num(0), set("y", num(1)), num(5)), get("y")]), Some(0));
    assert_eq!(value_of(vec![when(num(1), set("y", num(1)), num(5)), get("y")]), Some(1));
    assert_eq!(value_of(vec![when(num(1), num(5), set("y", num(1))), get("y")]), Some(0));
}

#[test]
fn a_variable_cannot_be_used_ahead_of_its_declaration() {
    let var = Variable { index: 0 };
    let ops = vec![
        Op::UseVar { var },
        Op::DeclareVar { var },
        Op::Return { value: Value { def: 0 } },
    ];
    assert_eq!(evaluate(&ops), None);
    let ops = vec![
        Op::DeclareVar { var },
        Op::UseVar { var },
        Op::Return { value: Value { def: 1 } },
    ];
    assert_eq!(evaluate(&ops), Some(0));
    assert_eq!(find_declaration(&ops, var, 0), Some(0));
    assert_eq!(find_declaration(&ops, var, 1), None);
    assert_eq!(find_declaration(&ops, Variable { index: 1 }, 0), None);
    assert!(is_declared(&ops, var, 1));
    assert!(!is_declared(&ops, var, 0));
    assert!(!is_declared(&ops, Variable { index: 1 }, 3));
}
