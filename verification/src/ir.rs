use vstd::prelude::*;

verus! {

/// A local variable slot of the function under construction.
#[derive(Clone, Copy, Debug, PartialEq, Eq, Structural)]
pub struct Variable {
    pub index: usize,
}

impl Variable {
    /// The variable with the given index.
    pub fn new(index: usize) -> (variable: Variable)
        ensures
            variable.index == index,
    {
        Variable { index }
    }

    /// The index the variable was made with.
    pub fn index(&self) -> (index: usize)
        ensures
            index == self.index,
    {
        self.index
    }
}

/// An SSA value: the position, in the operation stream, of the operation
/// that defines it.
#[derive(Clone, Copy, Debug, PartialEq, Eq, Structural)]
pub struct Value {
    pub def: usize,
}

/// An extended basic block: the position, in the operation stream, of the
/// operation that creates it.
#[derive(Clone, Copy, Debug, PartialEq, Eq, Structural)]
pub struct Ebb {
    pub def: usize,
}

/// The four binary instructions on native words.
#[derive(Clone, Copy, Debug, PartialEq, Eq, Structural)]
pub enum BinaryOp {
    /// Wrapping addition.
    Iadd,
    /// Wrapping subtraction.
    Isub,
    /// Wrapping multiplication.
    Imul,
    /// Unsigned division.
    Udiv,
}

/// One request to the code generator. A stream of operations is replayed
/// in order; an operation that yields a value or a block is referred to
/// afterwards by its position in the stream.
#[derive(Clone, Copy, Debug, PartialEq, Eq, Structural)]
pub enum Op {
    /// Materialise a native-word constant. Yields a value.
    Iconst { imm: i64 },
    /// Apply a binary instruction to two values. Yields a value.
    Binary { op: BinaryOp, lhs: Value, rhs: Value },
    /// Register a native-word local variable.
    DeclareVar { var: Variable },
    /// Read the current value of a variable. Yields a value.
    UseVar { var: Variable },
    /// Write a value to a variable.
    DefVar { var: Variable, value: Value },
    /// Create a block. Yields a block.
    CreateEbb,
    /// Give a block one native-word parameter. Yields a value.
    AppendEbbParam { ebb: Ebb },
    /// Branch to `target` if `cond` is zero, else fall through.
    Brz { cond: Value, target: Ebb },
    /// Jump to `target`, passing `arg` as its parameter.
    Jump { target: Ebb, arg: Value },
    /// Continue emission in `ebb`.
    SwitchToBlock { ebb: Ebb },
    /// Declare that every branch and jump to `ebb` has been emitted.
    SealBlock { ebb: Ebb },
    /// Start a function unit with `params` native-word parameters and one
    /// native-word result, in a sealed entry block. Operations up to the
    /// matching `Finalize` belong to that unit.
    BeginFunction { params: usize },
    /// An incoming parameter of the unit under construction. Yields a value.
    Param { index: usize },
    /// Return `value` from the unit under construction.
    Return { value: Value },
    /// Finish the unit under construction and resume the enclosing one.
    Finalize,
    /// Export the unit begun at position `unit` under the symbol with
    /// index `symbol`.
    Publish { unit: usize, symbol: usize },
    /// The address of the unit begun at position `unit`. Yields a value.
    FuncAddr { unit: usize },
}

} // verus!
