use std::collections::HashMap;

use eck::ast::Expr;
use eck::lower::LowerError;
use eck::machine::evaluate_unit;
use eck::translate::{lower_program, run_program};
use eck::Expr as Tree;

type Scopes = Vec<HashMap<String, i64>>;

fn find(scopes: &Scopes, name: &str) -> Option<usize> {
    (0..scopes.len()).rev().find(|i| scopes[*i].contains_key(name))
}

fn assign_word(scopes: &mut Scopes, name: &str, word: i64) {
    let at = find(scopes, name).unwrap_or(scopes.len() - 1);
    scopes[at].insert(name.to_string(), word);
}

// The names that an expression declares without being evaluated.
fn declare(expr: &Expr, scopes: &mut Scopes) {
    match expr {
        Expr::Add(l, r) | Expr::Sub(l, r) | Expr::Mul(l, r) | Expr::Div(l, r) => {
            declare(l, scopes);
            declare(r, scopes);
        }
        Expr::Assign(name, value) => {
            declare(value, scopes);
            if find(scopes, name).is_none() {
                assign_word(scopes, name, 0);
            }
        }
        Expr::If(c, t, e) => {
            declare(c, scopes);
            declare(t, scopes);
            declare(e, scopes);
        }
        _ => {}
    }
}

fn block(items: &[Expr], params: &[String], scopes: &mut Scopes) -> Option<i64> {
    scopes.push(HashMap::new());
    for param in params {
        let top = scopes.len() - 1;
        scopes[top].insert(param.clone(), 0);
    }
    let mut last = Some(0);
    for item in items {
        last = interpret(item, scopes);
        if last.is_none() {
            break;
        }
    }
    if last.is_some() {
        scopes.pop();
    }
    last
}

// What an expression means, told of names and words alone.
fn interpret(expr: &Expr, scopes: &mut Scopes) -> Option<i64> {
    match expr {
        Expr::IntegerLiteral(text) => Some(text.parse::<i32>().unwrap() as i64),
        Expr::Nil => Some(0),
        Expr::Ref(name) => Some(scopes[find(scopes, name).unwrap()][name]),
        Expr::Add(l, r) => {
            let a = interpret(l, scopes)?;
            Some(a.wrapping_add(interpret(r, scopes)?))
        }
        Expr::Sub(l, r) => {
            let a = interpret(l, scopes)?;
            Some(a.wrapping_sub(interpret(r, scopes)?))
        }
        Expr::Mul(l, r) => {
            let a = interpret(l, scopes)?;
            Some(a.wrapping_mul(interpret(r, scopes)?))
        }
        Expr::Div(l, r) => {
            let a = interpret(l, scopes)? as u64;
            let b = interpret(r, scopes)? as u64;
            if b == 0 {
                None
            } else {
                Some((a / b) as i64)
            }
        }
        Expr::Block(items) => block(items, &[], scopes),
        Expr::Assign(name, value) => {
            let word = interpret(value, scopes)?;
            assign_word(scopes, name, word);
            Some(word)
        }
        Expr::If(c, t, e) => {
            if interpret(c, scopes)? != 0 {
                let word = interpret(t, scopes)?;
                declare(e, scopes);
                Some(word)
            } else {
                declare(t, scopes);
                interpret(e, scopes)
            }
        }
        Expr::Func { params, block: body } => match &**body {
            Expr::Block(items) => block(items, params, scopes),
            _ => None,
        },
    }
}

fn meaning(items: &[Expr]) -> Option<i64> {
    let mut scopes: Scopes = vec![HashMap::new()];
    block(items, &[], &mut scopes)
}

// A small generator of expressions: the same seed gives the same tree.
struct Source {
    state: u64,
}

impl Source {
    fn next(&mut self, bound: u64) -> u64 {
        self.state = self.state.wrapping_mul(6364136223846793005).wrapping_add(1442695040888963407);
        (self.state >> 33) % bound
    }

    fn name(&mut self) -> String {
        ["a", "b", "c", "d"][self.next(4) as usize].to_string()
    }

    fn literal(&mut self) -> Expr {
        let words = ["0", "1", "2", "-1", "7", "-3", "2147483647", "-2147483648", "+12", "0003"];
        Expr::IntegerLiteral(words[self.next(words.len() as u64) as usize].to_string())
    }

    fn pair(&mut self, depth: u32) -> (Box<Expr>, Box<Expr>) {
        let left = self.expr(depth);
        let right = self.expr(depth);
        (Box::new(left), Box::new(right))
    }

    fn expr(&mut self, depth: u32) -> Expr {
        if depth == 0 {
            return match self.next(4) {
                0 => Expr::Nil,
                1 => Expr::Ref(self.name()),
                _ => self.literal(),
            };
        }
        match self.next(12) {
            0 => self.literal(),
            1 => Expr::Ref(self.name()),
            2 => {
                let (l, r) = self.pair(depth - 1);
                Expr::Add(l, r)
            }
            3 => {
                let (l, r) = self.pair(depth - 1);
                Expr::Sub(l, r)
            }
            4 => {
                let (l, r) = self.pair(depth - 1);
                Expr::Mul(l, r)
            }
            5 => {
                let (l, r) = self.pair(depth - 1);
                Expr::Div(l, r)
            }
            6 | 7 => {
                let name = self.name();
                let value = match self.expr(depth - 1) {
                    Expr::Func { params, block } => Expr::Block(vec![Expr::Func { params, block }]),
                    other => other,
                };
                Expr::Assign(name, Box::new(value))
            }
            8 | 9 => {
                let c = self.expr(depth - 1);
                let (t, e) = self.pair(depth - 1);
                Expr::If(Box::new(c), t, e)
            }
            10 => {
                let count = self.next(4);
                Expr::Block((0..count).map(|_| self.expr(depth - 1)).collect())
            }
            _ => {
                let params = (0..self.next(3)).map(|_| self.name()).collect();
                let count = self.next(3);
                let items = (0..count).map(|_| self.expr(depth - 1)).collect();
                Expr::Func { params, block: Box::new(Expr::Block(items)) }
            }
        }
    }
}

#[test]
fn lowered_programs_return_what_their_expressions_mean() {
    let mut source = Source { state: 2024 };
    let mut lowered = 0;
    let mut unbound = 0;
    let mut trapped = 0;
    for round in 0..4000 {
        let count = source.next(4) + 1;
        let depth = 1 + (round % 4) as u32;
        let items: Vec<Expr> = (0..count).map(|_| source.expr(depth)).collect();
        match run_program(&items) {
            Ok(returned) => {
                lowered += 1;
                let expected = meaning(&items);
                if expected.is_none() {
                    trapped += 1;
                }
                assert_eq!(returned, expected, "program {:?}", items);
            }
            Err(error) => {
                assert_eq!(error, LowerError::UnboundName);
                unbound += 1;
            }
        }
    }
    assert!(lowered > 500, "{} programs were lowered", lowered);
    assert!(unbound > 500, "{} programs read an unbound name", unbound);
    assert!(trapped > 10, "{} programs divided by zero", trapped);
}

#[test]
fn published_units_return_what_their_bodies_mean() {
    let mut source = Source { state: 7 };
    let mut called = 0;
    for round in 0..2000 {
        let params: Vec<String> = (0..source.next(3)).map(|_| source.name()).collect();
        let count = source.next(3) + 1;
        let depth = 1 + (round % 3) as u32;
        let items: Vec<Expr> = (0..count).map(|_| source.expr(depth)).collect();
        let args: Vec<i64> = params.iter().map(|_| source.next(9) as i64 - 4).collect();
        let literal = Expr::Func {
            params: params.clone(),
            block: Box::new(Expr::Block(items.iter().map(|item| item.duplicate()).collect())),
        };
        let program = vec![Expr::Assign("f".to_string(), Box::new(literal))];
        if let Ok(lowered) = lower_program(&program) {
            let mut scopes: Scopes = vec![HashMap::new()];
            for (param, arg) in params.iter().zip(args.iter()) {
                scopes[0].insert(param.clone(), *arg);
            }
            let expected = block(&items, &[], &mut scopes);
            let returned = evaluate_unit(&lowered.ops, 0, &args);
            assert_eq!(returned, expected, "function {:?}", program);
            called += 1;
        }
    }
    assert!(called > 300, "{} functions were called", called);
}

#[test]
fn run_program_lowers_and_runs() {
    let sum = Tree::Add(
        Box::new(Tree::IntegerLiteral("40".to_string())),
        Box::new(Tree::IntegerLiteral("2".to_string())),
    );
    assert_eq!(run_program(&vec![sum]), Ok(Some(42)));
    assert_eq!(run_program(&vec![]), Ok(Some(0)));
    let quotient = Tree::Div(Box::new(Tree::Nil), Box::new(Tree::Nil));
    assert_eq!(run_program(&vec![quotient]), Ok(None));
    let unbound = Tree::Ref("x".to_string());
    assert_eq!(run_program(&vec![unbound]), Err(LowerError::UnboundName));
    let malformed = Tree::IntegerLiteral("forty".to_string());
    assert_eq!(run_program(&vec![malformed]), Err(LowerError::MalformedLiteral));
}
