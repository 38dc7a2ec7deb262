//! The nonlinearities applied to a unit's weighted sum.
use crate::arithmetic::{
    computes, lemma_binary, lemma_unary, total, Binary, Constant, Op, Term, Unary,
};
use vstd::prelude::*;

verus! {

/// The nonlinearity of a unit.
#[derive(Clone, Copy, Debug, PartialEq, Eq)]
pub enum Activation {
    Relu,
    Sigmoid,
}

/// `max(x, 0)`
pub open spec fn relu_term<T>(x: Term<T>) -> Term<T> {
    Term::larger(x, Term::integer(0))
}

/// `1 / (1 + e^(-x))`
pub open spec fn sigmoid_term<T>(x: Term<T>) -> Term<T> {
    Term::quotient(
        Term::integer(1),
        Term::sum(Term::integer(1), Term::power(Term::euler(), Term::negation(x))),
    )
}

/// The activation `activation` applied to `x`.
pub open spec fn activation_term<T>(activation: Activation, x: Term<T>) -> Term<T> {
    match activation {
        Activation::Relu => relu_term(x),
        Activation::Sigmoid => sigmoid_term(x),
    }
}

/// An activation of a result of `inner` is a result of the activation applied
/// to `inner` itself.
pub proof fn lemma_activation_of_result<T, F: Fn(Op<T>) -> T>(
    arith: F,
    activation: Activation,
    inner: Term<T>,
    v: T,
    r: T,
)
    requires
        computes(arith, inner, v),
        computes(arith, activation_term(activation, Term::Value(v)), r),
    ensures
        computes(arith, activation_term(activation, inner), r),
{
    match activation {
        Activation::Relu => {
            let (held, zero) = choose|x: T, y: T|
                computes(arith, Term::Value(v), x) && computes(arith, Term::<T>::integer(0), y)
                    && #[trigger] arith.ensures((Op::Binary(Binary::Max, x, y),), r);
            assert(held == v);
            lemma_binary(arith, Binary::Max, inner, Term::integer(0), v, zero, r);
        },
        Activation::Sigmoid => {
            let exponent = Term::negation(Term::Value(v));
            let grown = Term::power(Term::euler(), exponent);
            let below = Term::sum(Term::integer(1), grown);
            let (one, denom) = choose|x: T, y: T|
                computes(arith, Term::<T>::integer(1), x) && computes(arith, below, y)
                    && #[trigger] arith.ensures((Op::Binary(Binary::Div, x, y),), r);
            let (unit, raised) = choose|x: T, y: T|
                computes(arith, Term::<T>::integer(1), x) && computes(arith, grown, y)
                    && #[trigger] arith.ensures((Op::Binary(Binary::Add, x, y),), denom);
            let (e, minus) = choose|x: T, y: T|
                computes(arith, Term::<T>::euler(), x) && computes(arith, exponent, y)
                    && #[trigger] arith.ensures((Op::Binary(Binary::Pow, x, y),), raised);
            let held = choose|x: T|
                computes(arith, Term::Value(v), x) && #[trigger] arith.ensures(
                    (Op::Unary(Unary::Neg, x),),
                    minus,
                );
            assert(held == v);
            lemma_unary(arith, Unary::Neg, inner, v, minus);
            lemma_binary(arith, Binary::Pow, Term::euler(), Term::negation(inner), e, minus, raised);
            lemma_binary(
                arith,
                Binary::Add,
                Term::integer(1),
                Term::power(Term::euler(), Term::negation(inner)),
                unit,
                raised,
                denom,
            );
            lemma_binary(
                arith,
                Binary::Div,
                Term::integer(1),
                Term::sum(Term::integer(1), Term::power(Term::euler(), Term::negation(inner))),
                one,
                denom,
                r,
            );
        },
    }
}

/// The rectifier of `n`: the larger of `n` and zero.
pub fn relu<T: Copy, F: Fn(Op<T>) -> T>(n: T, arith: &F) -> (r: T)
    requires
        total(*arith),
    ensures
        computes(*arith, relu_term(Term::Value(n)), r),
{
    let zero = arith(Op::Constant(Constant::Integer(0)));
    let r = arith(Op::Binary(Binary::Max, n, zero));
    proof {
        lemma_binary(*arith, Binary::Max, Term::Value(n), Term::integer(0), n, zero, r);
    }
    r
}

/// The logistic function of `n`.
pub fn sigmoid<T: Copy, F: Fn(Op<T>) -> T>(n: T, arith: &F) -> (r: T)
    requires
        total(*arith),
    ensures
        computes(*arith, sigmoid_term(Term::Value(n)), r),
{
    let one = arith(Op::Constant(Constant::Integer(1)));
    let e = arith(Op::Constant(Constant::Euler));
    let minus = arith(Op::Unary(Unary::Neg, n));
    let raised = arith(Op::Binary(Binary::Pow, e, minus));
    let denom = arith(Op::Binary(Binary::Add, one, raised));
    let r = arith(Op::Binary(Binary::Div, one, denom));
    proof {
        let exponent = Term::negation(Term::Value(n));
        let grown = Term::power(Term::euler(), exponent);
        let below = Term::sum(Term::integer(1), grown);
        lemma_unary(*arith, Unary::Neg, Term::Value(n), n, minus);
        lemma_binary(*arith, Binary::Pow, Term::euler(), exponent, e, minus, raised);
        lemma_binary(*arith, Binary::Add, Term::integer(1), grown, one, raised, denom);
        lemma_binary(*arith, Binary::Div, Term::integer(1), below, one, denom, r);
    }
    r
}

} // verus!
