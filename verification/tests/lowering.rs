use eck::ast::Expr;
use eck::ir::{BinaryOp, Ebb, Op, Value, Variable};
use eck::lower::LowerError;
use eck::translate::{lower_program, Translator};

fn lit(text: &str) -> Expr {
    Expr::IntegerLiteral(text.to_string())
}

fn name(text: &str) -> Expr {
    Expr::Ref(text.to_string())
}

fn assign(target: &str, value: Expr) -> Expr {
    Expr::Assign(target.to_string(), Box::new(value))
}

fn func(params: &[&str], body: Vec<Expr>) -> Expr {
    Expr::Func {
        params: params.iter().map(|p| p.to_string()).collect(),
        block: Box::new(Expr::Block(body)),
    }
}

fn v(def: usize) -> Value {
    Value { def }
}

fn var(index: usize) -> Variable {
    Variable { index }
}

fn ebb(def: usize) -> Ebb {
    Ebb { def }
}

#[test]
fn a_new_session_is_empty() {
    let translator = Translator::new();
    assert!(translator.ops().is_empty());
    assert!(translator.symbols().is_empty());
    assert_eq!(translator.next_variable_index(), 0);
    assert_eq!(translator.depth(), 1);
}

#[test]
fn a_literal_becomes_a_constant() {
    let mut translator = Translator::new();
    assert_eq!(translator.translate_expr(&lit("41")), Ok(v(0)));
    assert_eq!(translator.translate_expr(&lit("-2147483648")), Ok(v(1)));
    assert_eq!(
        translator.ops(),
        &vec![Op::Iconst { imm: 41 }, Op::Iconst { imm: -2147483648 }]
    );
}

#[test]
fn a_malformed_literal_is_an_error() {
    let mut translator = Translator::new();
    assert_eq!(translator.translate_expr(&lit("4x")), Err(LowerError::MalformedLiteral));
    assert_eq!(translator.translate_expr(&lit("")), Err(LowerError::MalformedLiteral));
    assert_eq!(
        translator.translate_expr(&lit("2147483648")),
        Err(LowerError::MalformedLiteral)
    );
    assert!(translator.ops().is_empty());
}

#[test]
fn nil_becomes_zero() {
    let mut translator = Translator::new();
    assert_eq!(translator.translate_expr(&Expr::Nil), Ok(v(0)));
    assert_eq!(translator.ops(), &vec![Op::Iconst { imm: 0 }]);
}

#[test]
fn a_reference_to_an_unbound_name_is_an_error() {
    let mut translator = Translator::new();
    assert_eq!(translator.translate_expr(&name("x")), Err(LowerError::UnboundName));
    assert!(translator.ops().is_empty());
    let program = lower_program(&vec![assign("y", lit("1")), name("x")]);
    assert_eq!(program.err(), Some(LowerError::UnboundName));
}

#[test]
fn a_reference_in_the_right_hand_side_of_its_own_first_assignment_is_unbound() {
    let mut translator = Translator::new();
    assert_eq!(
        translator.translate_expr(&assign("x", name("x"))),
        Err(LowerError::UnboundName)
    );
}

#[test]
fn an_assignment_declares_and_writes() {
    let mut translator = Translator::new();
    assert_eq!(translator.translate_expr(&assign("x", lit("5"))), Ok(v(0)));
    assert_eq!(
        translator.ops(),
        &vec![
            Op::Iconst { imm: 5 },
            Op::DeclareVar { var: var(0) },
            Op::DefVar { var: var(0), value: v(0) },
        ]
    );
    assert_eq!(translator.lookup_variable("x"), Some(var(0)));
    assert_eq!(translator.next_variable_index(), 1);
}

#[test]
fn a_second_assignment_writes_the_same_variable() {
    let mut translator = Translator::new();
    translator.translate_expr(&assign("x", lit("5"))).unwrap();
    assert_eq!(translator.translate_expr(&assign("x", lit("6"))), Ok(v(3)));
    assert_eq!(
        translator.ops()[3..],
        [Op::Iconst { imm: 6 }, Op::DefVar { var: var(0), value: v(3) }]
    );
    assert_eq!(translator.next_variable_index(), 1);
}

#[test]
fn a_reference_reads_the_variable() {
    let mut translator = Translator::new();
    translator.translate_expr(&assign("x", lit("5"))).unwrap();
    assert_eq!(translator.translate_expr(&name("x")), Ok(v(3)));
    assert_eq!(translator.ops()[3], Op::UseVar { var: var(0) });
}

#[test]
fn a_binary_node_lowers_left_then_right() {
    let cases = [
        (Expr::Add(Box::new(lit("1")), Box::new(lit("2"))), BinaryOp::Iadd),
        (Expr::Sub(Box::new(lit("1")), Box::new(lit("2"))), BinaryOp::Isub),
        (Expr::Mul(Box::new(lit("1")), Box::new(lit("2"))), BinaryOp::Imul),
        (Expr::Div(Box::new(lit("1")), Box::new(lit("2"))), BinaryOp::Udiv),
    ];
    for (expr, op) in cases.iter() {
        let mut translator = Translator::new();
        assert_eq!(translator.translate_expr(expr), Ok(v(2)));
        assert_eq!(
            translator.ops(),
            &vec![
                Op::Iconst { imm: 1 },
                Op::Iconst { imm: 2 },
                Op::Binary { op: *op, lhs: v(0), rhs: v(1) },
            ]
        );
    }
}

#[test]
fn the_left_operand_is_assigned_before_the_right_is_read() {
    let mut translator = Translator::new();
    let expr = Expr::Add(Box::new(assign("x", lit("1"))), Box::new(name("x")));
    assert_eq!(translator.translate_expr(&expr), Ok(v(4)));
    let mut translator = Translator::new();
    let expr = Expr::Add(Box::new(name("x")), Box::new(assign("x", lit("1"))));
    assert_eq!(translator.translate_expr(&expr), Err(LowerError::UnboundName));
}

#[test]
fn an_error_in_the_right_operand_keeps_what_the_left_emitted() {
    let mut translator = Translator::new();
    let expr = Expr::Add(Box::new(lit("1")), Box::new(lit("one")));
    assert_eq!(translator.translate_expr(&expr), Err(LowerError::MalformedLiteral));
    assert_eq!(translator.ops(), &vec![Op::Iconst { imm: 1 }]);
}

#[test]
fn an_empty_block_becomes_zero() {
    let mut translator = Translator::new();
    assert_eq!(translator.translate_expr(&Expr::Block(vec![])), Ok(v(0)));
    assert_eq!(translator.ops(), &vec![Op::Iconst { imm: 0 }]);
    assert_eq!(translator.depth(), 1);
}

#[test]
fn a_block_yields_its_last_value() {
    let mut translator = Translator::new();
    let block = Expr::Block(vec![lit("1"), lit("2"), lit("3")]);
    assert_eq!(translator.translate_expr(&block), Ok(v(2)));
    assert_eq!(
        translator.ops(),
        &vec![Op::Iconst { imm: 1 }, Op::Iconst { imm: 2 }, Op::Iconst { imm: 3 }]
    );
}

#[test]
fn a_block_of_one_lowers_like_its_expression() {
    let inner = Expr::Add(Box::new(assign("x", lit("4"))), Box::new(name("x")));
    let mut alone = Translator::new();
    let alone_value = alone.translate_expr(&inner);
    let mut wrapped = Translator::new();
    let wrapped_value = wrapped.translate_expr(&Expr::Block(vec![inner.duplicate()]));
    assert_eq!(alone_value, wrapped_value);
    assert_eq!(alone.ops(), wrapped.ops());
    assert_eq!(alone.lookup_variable("x"), Some(var(0)));
    assert_eq!(wrapped.lookup_variable("x"), None);
}

#[test]
fn a_name_declared_in_a_block_is_gone_after_it() {
    let mut translator = Translator::new();
    translator.translate_expr(&Expr::Block(vec![assign("x", lit("1"))])).unwrap();
    assert_eq!(translator.lookup_variable("x"), None);
    assert_eq!(translator.translate_expr(&name("x")), Err(LowerError::UnboundName));
    assert_eq!(translator.depth(), 1);
}

#[test]
fn an_inner_assignment_writes_the_outer_variable() {
    let mut translator = Translator::new();
    let block = Expr::Block(vec![
        assign("x", lit("1")),
        Expr::Block(vec![assign("x", lit("2"))]),
        name("x"),
    ]);
    assert_eq!(translator.translate_expr(&block), Ok(v(5)));
    assert_eq!(
        translator.ops(),
        &vec![
            Op::Iconst { imm: 1 },
            Op::DeclareVar { var: var(0) },
            Op::DefVar { var: var(0), value: v(0) },
            Op::Iconst { imm: 2 },
            Op::DefVar { var: var(0), value: v(3) },
            Op::UseVar { var: var(0) },
        ]
    );
}

#[test]
fn a_conditional_builds_an_else_block_and_a_merge_block() {
    let mut translator = Translator::new();
    let expr = Expr::If(Box::new(lit("0")), Box::new(lit("1")), Box::new(lit("2")));
    assert_eq!(translator.translate_expr(&expr), Ok(v(3)));
    assert_eq!(
        translator.ops(),
        &vec![
            Op::Iconst { imm: 0 },
            Op::CreateEbb,
            Op::CreateEbb,
            Op::AppendEbbParam { ebb: ebb(2) },
            Op::Brz { cond: v(0), target: ebb(1) },
            Op::Iconst { imm: 1 },
            Op::Jump { target: ebb(2), arg: v(5) },
            Op::SwitchToBlock { ebb: ebb(1) },
            Op::SealBlock { ebb: ebb(1) },
            Op::Iconst { imm: 2 },
            Op::Jump { target: ebb(2), arg: v(9) },
            Op::SwitchToBlock { ebb: ebb(2) },
            Op::SealBlock { ebb: ebb(2) },
        ]
    );
}

#[test]
fn an_unassigned_function_literal_is_lowered_in_place() {
    let mut translator = Translator::new();
    let expr = func(&["a", "b"], vec![name("b")]);
    assert_eq!(translator.translate_expr(&expr), Ok(v(2)));
    assert_eq!(
        translator.ops(),
        &vec![
            Op::DeclareVar { var: var(0) },
            Op::DeclareVar { var: var(1) },
            Op::UseVar { var: var(1) },
        ]
    );
    assert!(translator.symbols().is_empty());
    assert_eq!(translator.lookup_variable("a"), None);
    assert_eq!(translator.depth(), 1);
}

#[test]
fn a_parameter_hides_an_outer_variable_of_its_name() {
    let mut translator = Translator::new();
    translator.translate_expr(&assign("a", lit("1"))).unwrap();
    let expr = func(&["a"], vec![assign("a", lit("2"))]);
    translator.translate_expr(&expr).unwrap();
    assert_eq!(
        translator.ops()[3..],
        [
            Op::DeclareVar { var: var(1) },
            Op::Iconst { imm: 2 },
            Op::DefVar { var: var(1), value: v(4) },
        ]
    );
    assert_eq!(translator.lookup_variable("a"), Some(var(0)));
}

#[test]
fn a_function_body_that_is_no_block_is_an_error() {
    let mut translator = Translator::new();
    let bare = Expr::Func { params: vec![], block: Box::new(lit("1")) };
    assert_eq!(translator.translate_expr(&bare), Err(LowerError::MalformedFunctionBody));
    let assigned = Expr::Assign(
        "f".to_string(),
        Box::new(Expr::Func { params: vec![], block: Box::new(Expr::Nil) }),
    );
    assert_eq!(
        translator.translate_expr(&assigned),
        Err(LowerError::MalformedFunctionBody)
    );
    assert!(translator.ops().is_empty());
    assert!(translator.symbols().is_empty());
}

#[test]
fn an_assigned_function_literal_is_published() {
    let mut translator = Translator::new();
    translator.translate_expr(&assign("k", lit("9"))).unwrap();
    let body = Expr::Add(Box::new(name("n")), Box::new(name("n")));
    let expr = assign("twice", func(&["n"], vec![body]));
    assert_eq!(translator.translate_expr(&expr), Ok(v(13)));
    assert_eq!(
        translator.ops()[3..],
        [
            Op::BeginFunction { params: 1 },
            Op::Param { index: 0 },
            Op::DeclareVar { var: var(1) },
            Op::DefVar { var: var(1), value: v(4) },
            Op::UseVar { var: var(1) },
            Op::UseVar { var: var(1) },
            Op::Binary { op: BinaryOp::Iadd, lhs: v(7), rhs: v(8) },
            Op::Return { value: v(9) },
            Op::Finalize,
            Op::Publish { unit: 3, symbol: 0 },
            Op::FuncAddr { unit: 3 },
        ]
    );
    assert_eq!(translator.symbols(), &vec!["twice".to_string()]);
    assert_eq!(translator.lookup_variable("twice"), None);
    assert_eq!(translator.lookup_variable("n"), None);
    assert_eq!(translator.lookup_variable("k"), Some(var(0)));
    assert_eq!(translator.depth(), 1);
}

#[test]
fn a_function_unit_does_not_see_the_enclosing_scopes() {
    let mut translator = Translator::new();
    translator.translate_expr(&assign("k", lit("9"))).unwrap();
    let expr = assign("f", func(&[], vec![name("k")]));
    assert_eq!(translator.translate_expr(&expr), Err(LowerError::UnboundName));
}

#[test]
fn declare_variables_declares_in_order() {
    let mut translator = Translator::new();
    let names = vec!["a".to_string(), "b".to_string(), "a".to_string()];
    let variables = translator.declare_variables(&names);
    assert_eq!(variables, vec![var(0), var(1), var(2)]);
    assert_eq!(translator.lookup_variable("a"), Some(var(2)));
    assert_eq!(translator.lookup_variable("b"), Some(var(1)));
    assert_eq!(
        translator.ops(),
        &vec![
            Op::DeclareVar { var: var(0) },
            Op::DeclareVar { var: var(1) },
            Op::DeclareVar { var: var(2) },
        ]
    );
}

#[test]
fn declare_variable_binds_in_the_innermost_scope() {
    let mut translator = Translator::new();
    assert_eq!(translator.declare_variable("x"), var(0));
    assert_eq!(translator.declare_variable("x"), var(1));
    assert_eq!(translator.lookup_variable("x"), Some(var(1)));
}

#[test]
fn resolve_or_declare_declares_only_unbound_names() {
    let mut translator = Translator::new();
    assert_eq!(translator.resolve_or_declare("x"), var(0));
    assert_eq!(translator.resolve_or_declare("x"), var(0));
    assert_eq!(translator.resolve_or_declare("y"), var(1));
    assert_eq!(translator.ops().len(), 2);
}

#[test]
fn translate_block_expressions_declares_the_given_names() {
    let mut translator = Translator::new();
    let names = vec!["p".to_string()];
    let body = vec![name("p")];
    assert_eq!(translator.translate_block_expressions(&body, Some(&names)), Ok(v(1)));
    assert_eq!(
        translator.ops(),
        &vec![Op::DeclareVar { var: var(0) }, Op::UseVar { var: var(0) }]
    );
    assert_eq!(translator.lookup_variable("p"), None);
}

#[test]
fn an_empty_program_returns_zero() {
    let program = lower_program(&vec![]).unwrap();
    assert_eq!(program.ops, vec![Op::Iconst { imm: 0 }, Op::Return { value: v(0) }]);
    assert!(program.symbols.is_empty());
}

#[test]
fn emit_appends_and_numbers_by_position() {
    let mut translator = Translator::new();
    assert_eq!(translator.emit(Op::CreateEbb), v(0));
    assert_eq!(translator.emit(Op::Iconst { imm: 3 }), v(1));
    let program = translator.finish(v(1));
    assert_eq!(
        program.ops,
        vec![Op::CreateEbb, Op::Iconst { imm: 3 }, Op::Return { value: v(1) }]
    );
}

#[test]
fn a_copy_of_a_tree_lowers_alike() {
    let tree = Expr::Block(vec![
        assign("f", func(&["a"], vec![Expr::Mul(Box::new(name("a")), Box::new(lit("3")))])),
        Expr::If(Box::new(Expr::Nil), Box::new(lit("1")), Box::new(Expr::Block(vec![]))),
        Expr::Sub(Box::new(lit("8")), Box::new(Expr::Div(Box::new(lit("8")), Box::new(lit("2"))))),
    ]);
    let copy = tree.clone();
    let first = lower_program(&vec![tree]).unwrap();
    let second = lower_program(&vec![copy]).unwrap();
    assert_eq!(first.ops, second.ops);
    assert_eq!(first.symbols, second.symbols);
}
