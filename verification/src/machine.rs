use crate::ir::{BinaryOp, Ebb, Op, Variable};
use std::collections::HashMap;
use vstd::prelude::*;

verus! {

broadcast use vstd::std_specs::hash::group_hash_axioms;

/// The native word that is congruent to `n` modulo 2^64.
pub open spec fn wrap(n: int) -> i64 {
    let low = n % 0x1_0000_0000_0000_0000;
    if low > i64::MAX {
        (low - 0x1_0000_0000_0000_0000) as i64
    } else {
        low as i64
    }
}

/// A native word read as an unsigned number.
pub open spec fn unsigned(word: i64) -> int {
    if word < 0 {
        word + 0x1_0000_0000_0000_0000
    } else {
        word as int
    }
}

/// What a binary instruction computes from two native words. Division by
/// zero has no result.
pub open spec fn apply(op: BinaryOp, lhs: i64, rhs: i64) -> Option<i64> {
    match op {
        BinaryOp::Iadd => Some(wrap(lhs + rhs)),
        BinaryOp::Isub => Some(wrap(lhs - rhs)),
        BinaryOp::Imul => Some(wrap(lhs * rhs)),
        BinaryOp::Udiv => if rhs == 0 {
            None
        } else {
            Some(wrap(unsigned(lhs) / unsigned(rhs)))
        },
    }
}

/// Computes a binary instruction on two native words.
pub fn compute(op: BinaryOp, lhs: i64, rhs: i64) -> (word: Option<i64>)
    ensures
        word == apply(op, lhs, rhs),
{
    match op {
        BinaryOp::Iadd => Some(lhs.wrapping_add(rhs)),
        BinaryOp::Isub => Some(lhs.wrapping_sub(rhs)),
        BinaryOp::Imul => Some(lhs.wrapping_mul(rhs)),
        BinaryOp::Udiv => {
            if rhs == 0 {
                None
            } else {
                let quotient: u64 = to_unsigned(lhs) / to_unsigned(rhs);
                if quotient <= 0x7fff_ffff_ffff_ffff {
                    Some(quotient as i64)
                } else {
                    Some((quotient - 0x8000_0000_0000_0000) as i64 + i64::MIN)
                }
            }
        },
    }
}

/// Reads a native word as an unsigned number.
pub fn to_unsigned(word: i64) -> (number: u64)
    ensures
        number == unsigned(word),
{
    if word < 0 {
        (word - i64::MIN) as u64 + 0x8000_0000_0000_0000
    } else {
        word as u64
    }
}

/// The registers of the reference machine: the words of the values
/// defined so far, by the position of their definition, and the words of
/// the variables written so far, by their index.
pub struct Machine {
    pub values: Map<usize, i64>,
    pub vars: Map<usize, i64>,
}

impl Machine {
    /// The machine before the first step.
    pub open spec fn empty() -> Machine {
        Machine { values: Map::empty(), vars: Map::empty() }
    }

    /// The machine after the value defined at `position` got `word`.
    pub open spec fn define(self, position: nat, word: i64) -> Machine {
        Machine { values: self.values.insert(position as usize, word), ..self }
    }

    /// The machine after the variable with index `index` got `word`.
    pub open spec fn store(self, index: usize, word: i64) -> Machine {
        Machine { vars: self.vars.insert(index, word), ..self }
    }

    /// The word of the variable with index `index`: the one written last,
    /// or zero if none was written.
    pub open spec fn load(self, index: usize) -> i64 {
        if self.vars.contains_key(index) {
            self.vars[index]
        } else {
            0
        }
    }
}

/// The position at which execution continues after a transfer to `target`
/// from before position `from`: right behind the first
/// `SwitchToBlock` for `target` at or after `from`.
pub open spec fn block_entry(ops: Seq<Op>, target: Ebb, from: nat) -> Option<nat>
    decreases ops.len() - from,
{
    if from >= ops.len() {
        None
    } else if ops[from as int] == (Op::SwitchToBlock { ebb: target }) {
        Some(from + 1)
    } else {
        block_entry(ops, target, from + 1)
    }
}

/// The position of the first operation at or after `from` that gives
/// `target` its parameter.
pub open spec fn block_param(ops: Seq<Op>, target: Ebb, from: nat) -> Option<nat>
    decreases ops.len() - from,
{
    if from >= ops.len() {
        None
    } else if ops[from as int] == (Op::AppendEbbParam { ebb: target }) {
        Some(from)
    } else {
        block_param(ops, target, from + 1)
    }
}

/// The position of the first operation at or after `from` that declares
/// `var`.
pub open spec fn declaration(ops: Seq<Op>, var: Variable, from: nat) -> Option<nat>
    decreases ops.len() - from,
{
    if from >= ops.len() {
        None
    } else if ops[from as int] == (Op::DeclareVar { var }) {
        Some(from)
    } else {
        declaration(ops, var, from + 1)
    }
}

/// Whether `var` is declared before position `pc` of the stream.
pub open spec fn declared(ops: Seq<Op>, var: Variable, pc: nat) -> bool {
    declaration(ops, var, 0) matches Some(at) && at < pc
}

/// The position of the `Finalize` that ends a function unit, seen from
/// position `from` inside it with `depth` further units open.
pub open spec fn unit_end(ops: Seq<Op>, from: nat, depth: nat) -> Option<nat>
    decreases ops.len() - from,
{
    if from >= ops.len() {
        None
    } else if ops[from as int] is BeginFunction {
        unit_end(ops, from + 1, depth + 1)
    } else if ops[from as int] is Finalize {
        if depth == 0 {
            Some(from)
        } else {
            unit_end(ops, from + 1, (depth - 1) as nat)
        }
    } else {
        unit_end(ops, from + 1, depth)
    }
}

/// A block entry lies behind the position from which it was sought.
pub proof fn lemma_block_entry_bounds(ops: Seq<Op>, target: Ebb, from: nat)
    ensures
        block_entry(ops, target, from) matches Some(entry) ==> from < entry <= ops.len(),
    decreases ops.len() - from,
{
    if from < ops.len() && ops[from as int] != (Op::SwitchToBlock { ebb: target }) {
        lemma_block_entry_bounds(ops, target, from + 1);
    }
}

/// A block parameter lies at or behind the position from which it was
/// sought, and it is an `AppendEbbParam` for the block.
pub proof fn lemma_block_param_bounds(ops: Seq<Op>, target: Ebb, from: nat)
    ensures
        block_param(ops, target, from) matches Some(at) ==> from <= at < ops.len() && ops[at as int]
            == (Op::AppendEbbParam { ebb: target }),
    decreases ops.len() - from,
{
    if from < ops.len() && ops[from as int] != (Op::AppendEbbParam { ebb: target }) {
        lemma_block_param_bounds(ops, target, from + 1);
    }
}

/// The end of a unit lies at or behind the position from which it was
/// sought.
pub proof fn lemma_unit_end_bounds(ops: Seq<Op>, from: nat, depth: nat)
    ensures
        unit_end(ops, from, depth) matches Some(end) ==> from <= end < ops.len(),
    decreases ops.len() - from,
{
    if from < ops.len() {
        if ops[from as int] is BeginFunction {
            lemma_unit_end_bounds(ops, from + 1, depth + 1);
        } else if ops[from as int] is Finalize {
            if depth > 0 {
                lemma_unit_end_bounds(ops, from + 1, (depth - 1) as nat);
            }
        } else {
            lemma_unit_end_bounds(ops, from + 1, depth);
        }
    }
}

/// What the reference machine returns when it runs `ops` from position
/// `pc` with registers `m` and incoming arguments `args`.
///
/// Operations are executed in stream order. A constant, a binary
/// instruction, a read of a variable and an incoming parameter define the
/// value at their position. A variable can be read and written behind its
/// declaration in the stream, whichever way control went, and holds zero
/// until it is written. `Brz` transfers to its target if the condition is
/// zero, `Jump` always does and gives the target's parameter the word of
/// its argument; a transfer continues behind the next `SwitchToBlock` for
/// the target. A nested function unit is passed over. `Return` ends the
/// run with the word of its value.
///
/// The run has no result where the stream ends or a block is left without
/// a transfer, a value is used that has none, a variable is used that is
/// not declared, a transfer has no target ahead, a parameter is missing,
/// the divisor is zero, or the address of a unit is taken.
pub open spec fn run(ops: Seq<Op>, args: Seq<i64>, pc: nat, m: Machine) -> Option<i64>
    decreases ops.len() - pc,
{
    if pc >= ops.len() {
        None
    } else {
        match ops[pc as int] {
            Op::Iconst { imm } => run(ops, args, pc + 1, m.define(pc, imm)),
            Op::Binary { op, lhs, rhs } => {
                if m.values.contains_key(lhs.def) && m.values.contains_key(rhs.def) {
                    match apply(op, m.values[lhs.def], m.values[rhs.def]) {
                        Some(word) => run(ops, args, pc + 1, m.define(pc, word)),
                        None => None,
                    }
                } else {
                    None
                }
            },
            Op::DeclareVar { var } => run(ops, args, pc + 1, m),
            Op::UseVar { var } => {
                if declared(ops, var, pc) {
                    run(ops, args, pc + 1, m.define(pc, m.load(var.index)))
                } else {
                    None
                }
            },
            Op::DefVar { var, value } => {
                if declared(ops, var, pc) && m.values.contains_key(value.def) {
                    run(ops, args, pc + 1, m.store(var.index, m.values[value.def]))
                } else {
                    None
                }
            },
            Op::CreateEbb => run(ops, args, pc + 1, m),
            Op::AppendEbbParam { ebb } => run(ops, args, pc + 1, m),
            Op::SealBlock { ebb } => run(ops, args, pc + 1, m),
            Op::Publish { unit, symbol } => run(ops, args, pc + 1, m),
            Op::Brz { cond, target } => {
                if !m.values.contains_key(cond.def) {
                    None
                } else if m.values[cond.def] != 0 {
                    run(ops, args, pc + 1, m)
                } else {
                    match block_entry(ops, target, pc + 1) {
                        Some(entry) => {
                            proof {
                                lemma_block_entry_bounds(ops, target, pc + 1);
                            }
                            run(ops, args, entry, m)
                        },
                        None => None,
                    }
                }
            },
            Op::Jump { target, arg } => {
                if !m.values.contains_key(arg.def) {
                    None
                } else {
                    match (block_entry(ops, target, pc + 1), block_param(ops, target, 0)) {
                        (Some(entry), Some(param)) => {
                            proof {
                                lemma_block_entry_bounds(ops, target, pc + 1);
                            }
                            run(ops, args, entry, m.define(param, m.values[arg.def]))
                        },
                        _ => None,
                    }
                }
            },
            Op::SwitchToBlock { ebb } => None,
            Op::BeginFunction { params } => {
                match unit_end(ops, pc + 1, 0) {
                    Some(end) => {
                        proof {
                            lemma_unit_end_bounds(ops, pc + 1, 0);
                        }
                        run(ops, args, end + 1, m)
                    },
                    None => None,
                }
            },
            Op::Param { index } => {
                if index < args.len() {
                    run(ops, args, pc + 1, m.define(pc, args[index as int]))
                } else {
                    None
                }
            },
            Op::Return { value } => {
                if m.values.contains_key(value.def) {
                    Some(m.values[value.def])
                } else {
                    None
                }
            },
            Op::Finalize => None,
            Op::FuncAddr { unit } => None,
        }
    }
}

/// What the program `ops` returns: the result of running it from its
/// first operation, without arguments.
pub open spec fn result_of(ops: Seq<Op>) -> Option<i64> {
    run(ops, Seq::empty(), 0, Machine::empty())
}

/// What the function unit begun at position `unit` of `ops` returns when
/// it is called with `args`.
pub open spec fn result_of_unit(ops: Seq<Op>, unit: nat, args: Seq<i64>) -> Option<i64> {
    if unit < ops.len() && ops[unit as int] == (Op::BeginFunction { params: args.len() as usize })
        && args.len() <= usize::MAX {
        run(ops, args, unit + 1, Machine::empty())
    } else {
        None
    }
}

/// Finds the position at which execution continues after a transfer to
/// `target` from before position `from`.
pub fn find_block_entry(ops: &Vec<Op>, target: Ebb, from: usize) -> (entry: Option<usize>)
    ensures
        match entry {
            Some(at) => block_entry(ops@, target, from as nat) == Some(at as nat),
            None => block_entry(ops@, target, from as nat) is None,
        },
{
    let mut i: usize = from;
    while i < ops.len()
        invariant
            from <= i,
            block_entry(ops@, target, from as nat) == block_entry(ops@, target, i as nat),
        decreases ops.len() - i,
    {
        if ops[i] == (Op::SwitchToBlock { ebb: target }) {
            return Some(i + 1);
        }
        i += 1;
    }
    None
}

/// Finds the first operation at or after `from` that gives `target` its
/// parameter.
pub fn find_block_param(ops: &Vec<Op>, target: Ebb, from: usize) -> (param: Option<usize>)
    ensures
        match param {
            Some(at) => block_param(ops@, target, from as nat) == Some(at as nat),
            None => block_param(ops@, target, from as nat) is None,
        },
{
    let mut i: usize = from;
    while i < ops.len()
        invariant
            from <= i,
            block_param(ops@, target, from as nat) == block_param(ops@, target, i as nat),
        decreases ops.len() - i,
    {
        if ops[i] == (Op::AppendEbbParam { ebb: target }) {
            return Some(i);
        }
        i += 1;
    }
    None
}

/// Finds the first operation at or after `from` that declares `var`.
pub fn find_declaration(ops: &Vec<Op>, var: Variable, from: usize) -> (found: Option<usize>)
    ensures
        match found {
            Some(at) => declaration(ops@, var, from as nat) == Some(at as nat),
            None => declaration(ops@, var, from as nat) is None,
        },
{
    let mut i: usize = from;
    while i < ops.len()
        invariant
            from <= i,
            declaration(ops@, var, from as nat) == declaration(ops@, var, i as nat),
        decreases ops.len() - i,
    {
        if ops[i] == (Op::DeclareVar { var }) {
            return Some(i);
        }
        i += 1;
    }
    None
}

/// Whether `var` is declared before position `pc` of the stream.
pub fn is_declared(ops: &Vec<Op>, var: Variable, pc: usize) -> (yes: bool)
    ensures
        yes == declared(ops@, var, pc as nat),
{
    match find_declaration(ops, var, 0) {
        Some(at) => at < pc,
        None => false,
    }
}

/// Finds the `Finalize` that ends the function unit whose first operation
/// stands at `from`.
pub fn find_unit_end(ops: &Vec<Op>, from: usize) -> (end: Option<usize>)
    ensures
        match end {
            Some(at) => unit_end(ops@, from as nat, 0) == Some(at as nat),
            None => unit_end(ops@, from as nat, 0) is None,
        },
{
    let mut i: usize = from;
    let mut depth: usize = 0;
    while i < ops.len()
        invariant
            from <= i,
            depth <= i - from,
            unit_end(ops@, from as nat, 0) == unit_end(ops@, i as nat, depth as nat),
        decreases ops.len() - i,
    {
        match ops[i] {
            Op::BeginFunction { .. } => {
                depth += 1;
            },
            Op::Finalize => {
                if depth == 0 {
                    return Some(i);
                }
                depth -= 1;
            },
            _ => {},
        }
        i += 1;
    }
    None
}

/// Runs `ops` on the reference machine from position `start`, with
/// incoming arguments `args`.
pub fn execute(ops: &Vec<Op>, args: &Vec<i64>, start: usize) -> (result: Option<i64>)
    ensures
        result == run(ops@, args@, start as nat, Machine::empty()),
{
    let mut values: HashMap<usize, i64> = HashMap::new();
    let mut vars: HashMap<usize, i64> = HashMap::new();
    let mut pc: usize = start;
    while pc < ops.len()
        invariant
            run(ops@, args@, start as nat, Machine::empty()) == run(
                ops@,
                args@,
                pc as nat,
                Machine { values: values@, vars: vars@ },
            ),
        decreases ops.len() - pc,
    {
        let ghost m = Machine { values: values@, vars: vars@ };
        match ops[pc] {
            Op::Iconst { imm } => {
                values.insert(pc, imm);
                pc += 1;
            },
            Op::Binary { op, lhs, rhs } => {
                let word = match (values.get(&lhs.def), values.get(&rhs.def)) {
                    (Some(a), Some(b)) => compute(op, *a, *b),
                    _ => None,
                };
                match word {
                    Some(word) => {
                        values.insert(pc, word);
                        pc += 1;
                    },
                    None => {
                        return None;
                    },
                }
            },
            Op::UseVar { var } => {
                if !is_declared(ops, var, pc) {
                    return None;
                }
                let word = match vars.get(&var.index) {
                    Some(word) => *word,
                    None => 0,
                };
                values.insert(pc, word);
                pc += 1;
            },
            Op::DefVar { var, value } => {
                if !is_declared(ops, var, pc) {
                    return None;
                }
                match values.get(&value.def) {
                    Some(word) => {
                        vars.insert(var.index, *word);
                        pc += 1;
                    },
                    None => {
                        return None;
                    },
                }
            },
            Op::DeclareVar { .. }
            | Op::CreateEbb
            | Op::AppendEbbParam { .. }
            | Op::SealBlock { .. }
            | Op::Publish { .. } => {
                pc += 1;
            },
            Op::Brz { cond, target } => {
                match values.get(&cond.def) {
                    None => {
                        return None;
                    },
                    Some(word) => {
                        if *word != 0 {
                            pc += 1;
                        } else {
                            match find_block_entry(ops, target, pc + 1) {
                                Some(entry) => {
                                    proof {
                                        lemma_block_entry_bounds(ops@, target, (pc + 1) as nat);
                                    }
                                    pc = entry;
                                },
                                None => {
                                    return None;
                                },
                            }
                        }
                    },
                }
            },
            Op::Jump { target, arg } => {
                match values.get(&arg.def) {
                    None => {
                        return None;
                    },
                    Some(word) => {
                        let word = *word;
                        match (
                            find_block_entry(ops, target, pc + 1),
                            find_block_param(ops, target, 0),
                        ) {
                            (Some(entry), Some(param)) => {
                                proof {
                                    lemma_block_entry_bounds(ops@, target, (pc + 1) as nat);
                                }
                                values.insert(param, word);
                                pc = entry;
                            },
                            _ => {
                                return None;
                            },
                        }
                    },
                }
            },
            Op::BeginFunction { .. } => {
                match find_unit_end(ops, pc + 1) {
                    Some(end) => {
                        proof {
                            lemma_unit_end_bounds(ops@, (pc + 1) as nat, 0);
                        }
                        pc = end + 1;
                    },
                    None => {
                        return None;
                    },
                }
            },
            Op::Param { index } => {
                if index < args.len() {
                    values.insert(pc, args[index]);
                    pc += 1;
                } else {
                    return None;
                }
            },
            Op::Return { value } => {
                return match values.get(&value.def) {
                    Some(word) => Some(*word),
                    None => None,
                };
            },
            Op::SwitchToBlock { .. } | Op::Finalize | Op::FuncAddr { .. } => {
                return None;
            },
        }
    }
    None
}

/// Runs the program `ops` on the reference machine.
pub fn evaluate(ops: &Vec<Op>) -> (result: Option<i64>)
    ensures
        result == result_of(ops@),
{
    let args: Vec<i64> = Vec::new();
    execute(ops, &args, 0)
}

/// Calls the function unit begun at position `unit` of `ops` with `args`
/// on the reference machine.
pub fn evaluate_unit(ops: &Vec<Op>, unit: usize, args: &Vec<i64>) -> (result: Option<i64>)
    ensures
        result == result_of_unit(ops@, unit as nat, args@),
{
    if unit < ops.len() && ops[unit] == (Op::BeginFunction { params: args.len() }) {
        execute(ops, args, unit + 1)
    } else {
        None
    }
}

} // verus!
