//! The arithmetic that the network asks of its caller.
//!
//! An evaluator is any function from an [`Op`] to a scalar. The network never
//! inspects a scalar itself; it only decides which operation is applied to
//! which operands. A [`Term`] is the expression that such a chain of requests
//! amounts to, and [`computes`] says that a scalar is a possible result of it.
use vstd::prelude::*;

verus! {

/// A scalar that the evaluator produces from nothing.
#[derive(Clone, Copy, Debug)]
pub enum Constant {
    /// The scalar that stands for the given whole number.
    Integer(i32),
    /// The base of the natural exponential.
    Euler,
}

/// An operation on one scalar.
#[derive(Clone, Copy, Debug)]
pub enum Unary {
    /// `-x`
    Neg,
    /// `x` raised to the second power.
    Square,
}

/// An operation on two scalars, the left operand first.
#[derive(Clone, Copy, Debug)]
pub enum Binary {
    /// `a + b`
    Add,
    /// `a - b`
    Sub,
    /// `a * b`
    Mul,
    /// `a / b`
    Div,
    /// The larger of `a` and `b`.
    Max,
    /// `a` raised to the power `b`.
    Pow,
}

/// One request to the evaluator: an operation together with its operands.
#[derive(Debug)]
pub enum Op<T> {
    Constant(Constant),
    Unary(Unary, T),
    Binary(Binary, T, T),
}

/// An expression over scalars that are already known.
pub enum Term<T> {
    /// A known scalar.
    Value(T),
    Constant(Constant),
    Unary(Unary, Box<Term<T>>),
    Binary(Binary, Box<Term<T>>, Box<Term<T>>),
}

impl<T> Term<T> {
    pub open spec fn integer(n: i32) -> Term<T> {
        Term::Constant(Constant::Integer(n))
    }

    pub open spec fn euler() -> Term<T> {
        Term::Constant(Constant::Euler)
    }

    pub open spec fn negation(a: Term<T>) -> Term<T> {
        Term::Unary(Unary::Neg, Box::new(a))
    }

    pub open spec fn square(a: Term<T>) -> Term<T> {
        Term::Unary(Unary::Square, Box::new(a))
    }

    pub open spec fn sum(a: Term<T>, b: Term<T>) -> Term<T> {
        Term::Binary(Binary::Add, Box::new(a), Box::new(b))
    }

    pub open spec fn difference(a: Term<T>, b: Term<T>) -> Term<T> {
        Term::Binary(Binary::Sub, Box::new(a), Box::new(b))
    }

    pub open spec fn product(a: Term<T>, b: Term<T>) -> Term<T> {
        Term::Binary(Binary::Mul, Box::new(a), Box::new(b))
    }

    pub open spec fn quotient(a: Term<T>, b: Term<T>) -> Term<T> {
        Term::Binary(Binary::Div, Box::new(a), Box::new(b))
    }

    pub open spec fn larger(a: Term<T>, b: Term<T>) -> Term<T> {
        Term::Binary(Binary::Max, Box::new(a), Box::new(b))
    }

    pub open spec fn power(a: Term<T>, b: Term<T>) -> Term<T> {
        Term::Binary(Binary::Pow, Box::new(a), Box::new(b))
    }
}

/// The evaluator accepts every request.
pub open spec fn total<T, F: Fn(Op<T>) -> T>(arith: F) -> bool {
    forall|op: Op<T>| #[trigger] arith.requires((op,))
}

/// The evaluator answers equal requests with equal scalars.
pub open spec fn functional<T, F: Fn(Op<T>) -> T>(arith: F) -> bool {
    forall|op: Op<T>, a: T, b: T|
        #[trigger] arith.ensures((op,), a) && #[trigger] arith.ensures((op,), b) ==> a == b
}

/// `r` is a scalar that the evaluator may return for `term`, when it is asked
/// for the innermost operations first and each result is passed on as an
/// operand of the operation around it.
pub open spec fn computes<T, F: Fn(Op<T>) -> T>(arith: F, term: Term<T>, r: T) -> bool
    decreases term,
{
    match term {
        Term::Value(v) => r == v,
        Term::Constant(c) => arith.ensures((Op::Constant(c),), r),
        Term::Unary(u, a) => exists|x: T|
            computes(arith, *a, x) && #[trigger] arith.ensures((Op::Unary(u, x),), r),
        Term::Binary(b, l, h) => exists|x: T, y: T|
            computes(arith, *l, x) && computes(arith, *h, y) && #[trigger] arith.ensures(
                (Op::Binary(b, x, y),),
                r,
            ),
    }
}

/// A result of a unary operation on a result of `a` is a result of the
/// operation applied to `a`.
pub proof fn lemma_unary<T, F: Fn(Op<T>) -> T>(arith: F, u: Unary, a: Term<T>, x: T, r: T)
    requires
        computes(arith, a, x),
        arith.ensures((Op::Unary(u, x),), r),
    ensures
        computes(arith, Term::Unary(u, Box::new(a)), r),
{
}

/// A result of a binary operation on results of `l` and `h` is a result of the
/// operation applied to `l` and `h`.
pub proof fn lemma_binary<T, F: Fn(Op<T>) -> T>(
    arith: F,
    b: Binary,
    l: Term<T>,
    h: Term<T>,
    x: T,
    y: T,
    r: T,
)
    requires
        computes(arith, l, x),
        computes(arith, h, y),
        arith.ensures((Op::Binary(b, x, y),), r),
    ensures
        computes(arith, Term::Binary(b, Box::new(l), Box::new(h)), r),
{
}

/// Under a functional evaluator a term has at most one result.
pub proof fn lemma_computes_unique<T, F: Fn(Op<T>) -> T>(arith: F, term: Term<T>, r1: T, r2: T)
    requires
        functional(arith),
        computes(arith, term, r1),
        computes(arith, term, r2),
    ensures
        r1 == r2,
    decreases term,
{
    match term {
        Term::Value(_) => {},
        Term::Constant(_) => {},
        Term::Unary(u, a) => {
            let x1 = choose|x: T|
                computes(arith, *a, x) && #[trigger] arith.ensures((Op::Unary(u, x),), r1);
            let x2 = choose|x: T|
                computes(arith, *a, x) && #[trigger] arith.ensures((Op::Unary(u, x),), r2);
            lemma_computes_unique(arith, *a, x1, x2);
        },
        Term::Binary(b, l, h) => {
            let (x1, y1) = choose|x: T, y: T|
                computes(arith, *l, x) && computes(arith, *h, y) && #[trigger] arith.ensures(
                    (Op::Binary(b, x, y),),
                    r1,
                );
            let (x2, y2) = choose|x: T, y: T|
                computes(arith, *l, x) && computes(arith, *h, y) && #[trigger] arith.ensures(
                    (Op::Binary(b, x, y),),
                    r2,
                );
            lemma_computes_unique(arith, *l, x1, x2);
            lemma_computes_unique(arith, *h, y1, y2);
        },
    }
}

} // verus!
