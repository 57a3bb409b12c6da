use crate::ir::BinaryOp;
use vstd::prelude::*;

verus! {

/// One node of the expression tree.
#[derive(Debug)]
pub enum Expr {
    /// An integer literal, as it was written.
    IntegerLiteral(String),
    /// A read of a name.
    Ref(String),
    /// Expressions in a scope of their own, evaluated in order.
    Block(Vec<Expr>),
    /// A condition, the branch taken if it is not zero, and the branch
    /// taken if it is.
    If(Box<Expr>, Box<Expr>, Box<Expr>),
    /// An assignment of the value of an expression to a name.
    Assign(String, Box<Expr>),
    /// The sum of two expressions.
    Add(Box<Expr>, Box<Expr>),
    /// The difference of two expressions.
    Sub(Box<Expr>, Box<Expr>),
    /// The product of two expressions.
    Mul(Box<Expr>, Box<Expr>),
    /// The unsigned quotient of two expressions.
    Div(Box<Expr>, Box<Expr>),
    /// A function literal: the names of its parameters, and its body,
    /// which is to be a block.
    Func { params: Vec<String>, block: Box<Expr> },
    /// An expression without a value of its own; it stands for zero.
    Nil,
}

/// The texts of a list of strings.
pub open spec fn texts(strings: Seq<String>) -> Seq<Seq<char>> {
    Seq::new(strings.len(), |i: int| strings[i]@)
}

/// The mathematical value of an [`Expr`]: names and literal texts are
/// sequences of characters, children are sequences of trees, and the four
/// arithmetic nodes are one node with an operator.
pub enum ExprView {
    IntegerLiteral(Seq<char>),
    Reference(Seq<char>),
    Block(Seq<ExprView>),
    Conditional(Box<ExprView>, Box<ExprView>, Box<ExprView>),
    Assign(Seq<char>, Box<ExprView>),
    Binary(BinaryOp, Box<ExprView>, Box<ExprView>),
    FunctionLiteral { params: Seq<Seq<char>>, body: Box<ExprView> },
    Nil,
}

/// The mathematical values of a list of trees.
pub open spec fn models(items: Seq<Expr>) -> Seq<ExprView>
    decreases items,
{
    Seq::new(
        items.len(),
        |i: int|
            if 0 <= i < items.len() {
                items[i].model()
            } else {
                ExprView::Nil
            },
    )
}

impl Expr {
    /// The tree as a mathematical value.
    pub open spec fn model(&self) -> ExprView
        decreases self,
    {
        match self {
            Expr::IntegerLiteral(text) => ExprView::IntegerLiteral(text@),
            Expr::Ref(name) => ExprView::Reference(name@),
            Expr::Block(items) => ExprView::Block(models(items@)),
            Expr::If(c, t, e) => ExprView::Conditional(
                Box::new(c.model()),
                Box::new(t.model()),
                Box::new(e.model()),
            ),
            Expr::Assign(name, value) => ExprView::Assign(name@, Box::new(value.model())),
            Expr::Add(l, r) => ExprView::Binary(
                BinaryOp::Iadd,
                Box::new(l.model()),
                Box::new(r.model()),
            ),
            Expr::Sub(l, r) => ExprView::Binary(
                BinaryOp::Isub,
                Box::new(l.model()),
                Box::new(r.model()),
            ),
            Expr::Mul(l, r) => ExprView::Binary(
                BinaryOp::Imul,
                Box::new(l.model()),
                Box::new(r.model()),
            ),
            Expr::Div(l, r) => ExprView::Binary(
                BinaryOp::Udiv,
                Box::new(l.model()),
                Box::new(r.model()),
            ),
            Expr::Func { params, block } => ExprView::FunctionLiteral {
                params: texts(params@),
                body: Box::new(block.model()),
            },
            Expr::Nil => ExprView::Nil,
        }
    }

    /// A deep copy of the tree.
    pub fn duplicate(&self) -> (copy: Expr)
        ensures
            copy@ == self@,
        decreases self,
    {
        match self {
            Expr::IntegerLiteral(text) => Expr::IntegerLiteral(text.clone()),
            Expr::Ref(name) => Expr::Ref(name.clone()),
            Expr::Block(items) => {
                let mut copies: Vec<Expr> = Vec::new();
                let mut i: usize = 0;
                while i < items.len()
                    invariant
                        i <= items.len(),
                        copies.len() == i,
                        *self == Expr::Block(*items),
                        forall|j: int| 0 <= j < i ==> copies[j]@ == items[j]@,
                    decreases items.len() - i,
                {
                    proof {
                        vstd::std_specs::vec::axiom_vec_index_decreases(*items, i as int);
                        assert(self->Block_0 == *items);
                    }
                    copies.push(items[i].duplicate());
                    i += 1;
                }
                let copy = Expr::Block(copies);
                assert(copy@ == self@) by {
                    assert forall|j: int| 0 <= j < items.len() implies models(copies@)[j]
                        == models(items@)[j] by {
                        assert(copies[j]@ == items[j]@);
                    }
                    assert(models(copies@) =~= models(items@));
                }
                copy
            },
            Expr::If(c, t, e) => Expr::If(
                Box::new(c.duplicate()),
                Box::new(t.duplicate()),
                Box::new(e.duplicate()),
            ),
            Expr::Assign(name, value) => Expr::Assign(name.clone(), Box::new(value.duplicate())),
            Expr::Add(l, r) => Expr::Add(Box::new(l.duplicate()), Box::new(r.duplicate())),
            Expr::Sub(l, r) => Expr::Sub(Box::new(l.duplicate()), Box::new(r.duplicate())),
            Expr::Mul(l, r) => Expr::Mul(Box::new(l.duplicate()), Box::new(r.duplicate())),
            Expr::Div(l, r) => Expr::Div(Box::new(l.duplicate()), Box::new(r.duplicate())),
            Expr::Func { params, block } => {
                let copy = Expr::Func {
                    params: params.clone(),
                    block: Box::new(block.duplicate()),
                };
                assert(copy@ == self@) by {
                    assert(copy@->params =~= self@->params);
                }
                copy
            },
            Expr::Nil => Expr::Nil,
        }
    }
}

impl Clone for Expr {
    fn clone(&self) -> (copy: Expr)
        ensures
            copy@ == self@,
    {
        self.duplicate()
    }
}

impl View for Expr {
    type V = ExprView;

    open spec fn view(&self) -> ExprView {
        self.model()
    }
}

} // verus!
