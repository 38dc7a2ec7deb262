//! What holds of every network, whatever the evaluator computes, and what
//! holds of the values it stores once the evaluator keeps a few signs.
use crate::activation::{relu_term, sigmoid_term};
use crate::arithmetic::{
    computes, functional, lemma_computes_unique, Binary, Constant, Op, Term, Unary,
};
use crate::neurone::{unit_term, UnitView};
use crate::network::{fired, layer_sizes, propagated, shape, squared_error, well_formed};
use crate::node::{layer_values, raw_layer, NodeView};
use vstd::prelude::*;

verus! {

/// Two nodes differ at most in the output that a unit holds.
pub open spec fn alike<T>(a: NodeView<T>, b: NodeView<T>) -> bool {
    match a {
        NodeView::Unit(u) => b is Unit && b->Unit_0 == (UnitView { output: b->Unit_0.output, ..u }),
        NodeView::Raw(_) => b == a,
    }
}

/// Two networks have as many layers, and in every layer after the input layer
/// the same weights, biases and activations.
pub open spec fn same_units<T>(a: Seq<Seq<NodeView<T>>>, b: Seq<Seq<NodeView<T>>>) -> bool {
    &&& a.len() == b.len()
    &&& forall|i: int|
        #![trigger a[i]]
        #![trigger b[i]]
        1 <= i < a.len() ==> a[i].len() == b[i].len()
    &&& forall|i: int, p: int|
        #![trigger a[i][p]]
        #![trigger b[i][p]]
        1 <= i < a.len() && 0 <= p < a[i].len() ==> alike(a[i][p], b[i][p])
}

/// Two networks have the same input layer, and in every later layer the same
/// weights, biases and activations.
pub open spec fn same_setting<T>(a: Seq<Seq<NodeView<T>>>, b: Seq<Seq<NodeView<T>>>) -> bool {
    &&& same_units(a, b)
    &&& a[0] == b[0]
}

/// A network of the layer sizes given at construction has as many output
/// values as the output size given there.
pub proof fn lemma_output_count<T>(
    net: Seq<Seq<NodeView<T>>>,
    input: nat,
    hidden: Seq<usize>,
    output: nat,
)
    requires
        shape(net) == layer_sizes(input, hidden, output),
    ensures
        layer_values(net.last()).len() == output,
{
    let sizes = layer_sizes(input, hidden, output);
    assert(shape(net).len() == net.len());
    assert(sizes.len() == hidden.len() + 2);
    assert(shape(net)[net.len() - 1] == net.last().len());
    assert(sizes[hidden.len() as int + 1] == output);
}

/// A forward pass keeps the layer sizes, and with them the number of output
/// values.
pub proof fn lemma_forward_keeps_shape<T, F: Fn(Op<T>) -> T>(
    arith: F,
    pre: Seq<Seq<NodeView<T>>>,
    post: Seq<Seq<NodeView<T>>>,
)
    requires
        well_formed(pre),
        propagated(arith, pre, post),
    ensures
        shape(post) == shape(pre),
        layer_values(post.last()).len() == layer_values(pre.last()).len(),
{
    assert(shape(post) =~= shape(pre));
    assert(post[post.len() - 1].len() == pre[pre.len() - 1].len());
}

/// A forward pass changes nothing but the outputs that units hold.
pub proof fn lemma_forward_keeps_setting<T, F: Fn(Op<T>) -> T>(
    arith: F,
    pre: Seq<Seq<NodeView<T>>>,
    post: Seq<Seq<NodeView<T>>>,
)
    requires
        propagated(arith, pre, post),
    ensures
        same_setting(pre, post),
{
    assert forall|i: int, p: int|
        #![trigger pre[i][p]]
        #![trigger post[i][p]]
        1 <= i < pre.len() && 0 <= p < pre[i].len() implies alike(pre[i][p], post[i][p]) by {
        assert(fired(arith, pre[i][p], layer_values(post[i - 1]), post[i][p]));
    }
}

/// Under a functional evaluator, forward passes from the same inputs, weights,
/// biases and activations agree on layer `k`.
proof fn lemma_layer_agrees<T, F: Fn(Op<T>) -> T>(
    arith: F,
    a: Seq<Seq<NodeView<T>>>,
    after_a: Seq<Seq<NodeView<T>>>,
    b: Seq<Seq<NodeView<T>>>,
    after_b: Seq<Seq<NodeView<T>>>,
    k: int,
)
    requires
        functional(arith),
        same_setting(a, b),
        propagated(arith, a, after_a),
        propagated(arith, b, after_b),
        0 <= k < a.len(),
    ensures
        after_a[k] == after_b[k],
    decreases k,
{
    if k > 0 {
        lemma_layer_agrees(arith, a, after_a, b, after_b, k - 1);
        let inputs = layer_values(after_a[k - 1]);
        assert(after_a[k].len() == a[k].len());
        assert(after_b[k].len() == b[k].len());
        assert(a[k].len() == b[k].len());
        assert forall|p: int| 0 <= p < a[k].len() implies after_a[k][p] == after_b[k][p] by {
            assert(alike(a[k][p], b[k][p]));
            assert(fired(arith, a[k][p], inputs, after_a[k][p]));
            assert(fired(arith, b[k][p], inputs, after_b[k][p]));
            match a[k][p] {
                NodeView::Unit(u) => {
                    let v = b[k][p]->Unit_0;
                    assert(unit_term(u, inputs) == unit_term(v, inputs));
                    lemma_computes_unique(
                        arith,
                        unit_term(u, inputs),
                        after_a[k][p]->Unit_0.output,
                        after_b[k][p]->Unit_0.output,
                    );
                },
                NodeView::Raw(_) => {},
            }
        }
        assert(after_a[k] =~= after_b[k]);
    }
}

/// Under a functional evaluator the result of a forward pass is determined by
/// the input values and the weights, biases and activations: two passes that
/// start from networks equal in these end in equal networks, whatever outputs
/// the units held before.
pub proof fn lemma_forward_deterministic<T, F: Fn(Op<T>) -> T>(
    arith: F,
    a: Seq<Seq<NodeView<T>>>,
    after_a: Seq<Seq<NodeView<T>>>,
    b: Seq<Seq<NodeView<T>>>,
    after_b: Seq<Seq<NodeView<T>>>,
)
    requires
        functional(arith),
        same_setting(a, b),
        propagated(arith, a, after_a),
        propagated(arith, b, after_b),
    ensures
        after_a == after_b,
        layer_values(after_a.last()) == layer_values(after_b.last()),
{
    assert forall|k: int| 0 <= k < a.len() implies after_a[k] == after_b[k] by {
        lemma_layer_agrees(arith, a, after_a, b, after_b, k);
    }
    assert(after_a =~= after_b);
}

/// Under a functional evaluator the output values after the inputs `v` have
/// been set and a forward pass has been made are determined by `v` and by the
/// weights, biases and activations: two networks equal in these give the same
/// output values for the same `v`.
pub proof fn lemma_outputs_determined_by_inputs<T, F: Fn(Op<T>) -> T>(
    arith: F,
    a: Seq<Seq<NodeView<T>>>,
    b: Seq<Seq<NodeView<T>>>,
    v: Seq<T>,
    after_a: Seq<Seq<NodeView<T>>>,
    after_b: Seq<Seq<NodeView<T>>>,
)
    requires
        functional(arith),
        well_formed(a),
        well_formed(b),
        same_units(a, b),
        propagated(arith, a.update(0, raw_layer(v)), after_a),
        propagated(arith, b.update(0, raw_layer(v)), after_b),
    ensures
        layer_values(after_a.last()) == layer_values(after_b.last()),
{
    let with_a = a.update(0, raw_layer(v));
    let with_b = b.update(0, raw_layer(v));
    assert forall|i: int, p: int|
        #![trigger with_a[i][p]]
        #![trigger with_b[i][p]]
        1 <= i < with_a.len() && 0 <= p < with_a[i].len() implies alike(
        with_a[i][p],
        with_b[i][p],
    ) by {
        assert(alike(a[i][p], b[i][p]));
    }
    assert forall|i: int|
        #![trigger with_a[i]]
        #![trigger with_b[i]]
        1 <= i < with_a.len() implies with_a[i].len() == with_b[i].len() by {
        assert(a[i].len() == b[i].len());
    }
    lemma_forward_deterministic(arith, with_a, after_a, with_b, after_b);
}

/// Under a functional evaluator a second forward pass, with inputs and weights
/// unchanged, leaves the network as the first one left it.
pub proof fn lemma_forward_repeatable<T, F: Fn(Op<T>) -> T>(
    arith: F,
    start: Seq<Seq<NodeView<T>>>,
    once: Seq<Seq<NodeView<T>>>,
    twice: Seq<Seq<NodeView<T>>>,
)
    requires
        functional(arith),
        propagated(arith, start, once),
        propagated(arith, once, twice),
    ensures
        twice == once,
        layer_values(twice.last()) == layer_values(once.last()),
{
    lemma_forward_keeps_setting(arith, start, once);
    lemma_forward_deterministic(arith, start, once, once, twice);
}

/// The evaluator's zero is `nonnegative`, and so is the larger of any scalar
/// and a `nonnegative` one.
pub open spec fn larger_keeps_sign<T, F: Fn(Op<T>) -> T>(
    arith: F,
    nonnegative: spec_fn(T) -> bool,
) -> bool {
    &&& forall|z: T| #[trigger]
        arith.ensures((Op::Constant(Constant::Integer(0)),), z) ==> nonnegative(z)
    &&& forall|a: T, b: T, m: T|
        nonnegative(b) && #[trigger] arith.ensures((Op::Binary(Binary::Max, a, b),), m)
            ==> nonnegative(m)
}

/// Where the larger of a scalar and a nonnegative one is nonnegative, the
/// rectifier is never negative.
pub proof fn lemma_relu_nonnegative<T, F: Fn(Op<T>) -> T>(
    arith: F,
    nonnegative: spec_fn(T) -> bool,
    x: T,
    r: T,
)
    requires
        larger_keeps_sign(arith, nonnegative),
        computes(arith, relu_term(Term::Value(x)), r),
    ensures
        nonnegative(r),
{
    let (held, zero) = choose|a: T, b: T|
        computes(arith, Term::Value(x), a) && computes(arith, Term::<T>::integer(0), b)
            && #[trigger] arith.ensures((Op::Binary(Binary::Max, a, b),), r);
    assert(arith.ensures((Op::Constant(Constant::Integer(0)),), zero));
    assert(arith.ensures((Op::Binary(Binary::Max, held, zero),), r));
}

/// The steps of the logistic function stay where they belong: the negation of
/// a `proper` scalar is `proper`, the exponential of a `proper` scalar is
/// `nonnegative`, one plus a `nonnegative` scalar is `at_least_one`, and one
/// divided by a scalar that is `at_least_one` is `within_unit`.
pub open spec fn logistic_steps<T, F: Fn(Op<T>) -> T>(
    arith: F,
    proper: spec_fn(T) -> bool,
    nonnegative: spec_fn(T) -> bool,
    at_least_one: spec_fn(T) -> bool,
    within_unit: spec_fn(T) -> bool,
) -> bool {
    &&& forall|a: T, m: T|
        proper(a) && #[trigger] arith.ensures((Op::Unary(Unary::Neg, a),), m) ==> proper(m)
    &&& forall|e: T, y: T, p: T|
        arith.ensures((Op::Constant(Constant::Euler),), e) && proper(y) && #[trigger] arith.ensures(
            (Op::Binary(Binary::Pow, e, y),),
            p,
        ) ==> nonnegative(p)
    &&& forall|one: T, p: T, s: T|
        arith.ensures((Op::Constant(Constant::Integer(1)),), one) && nonnegative(p)
            && #[trigger] arith.ensures((Op::Binary(Binary::Add, one, p),), s) ==> at_least_one(s)
    &&& forall|one: T, s: T, q: T|
        arith.ensures((Op::Constant(Constant::Integer(1)),), one) && at_least_one(s)
            && #[trigger] arith.ensures((Op::Binary(Binary::Div, one, s),), q) ==> within_unit(q)
}

/// Where the steps of the logistic function stay where they belong, the
/// logistic function of a `proper` scalar is `within_unit`.
pub proof fn lemma_sigmoid_within_unit<T, F: Fn(Op<T>) -> T>(
    arith: F,
    proper: spec_fn(T) -> bool,
    nonnegative: spec_fn(T) -> bool,
    at_least_one: spec_fn(T) -> bool,
    within_unit: spec_fn(T) -> bool,
    x: T,
    r: T,
)
    requires
        logistic_steps(arith, proper, nonnegative, at_least_one, within_unit),
        proper(x),
        computes(arith, sigmoid_term(Term::Value(x)), r),
    ensures
        within_unit(r),
{
    let exponent = Term::negation(Term::Value(x));
    let grown = Term::power(Term::euler(), exponent);
    let below = Term::sum(Term::integer(1), grown);
    let (one, denom) = choose|a: T, b: T|
        computes(arith, Term::<T>::integer(1), a) && computes(arith, below, b)
            && #[trigger] arith.ensures((Op::Binary(Binary::Div, a, b),), r);
    let (unit, raised) = choose|a: T, b: T|
        computes(arith, Term::<T>::integer(1), a) && computes(arith, grown, b)
            && #[trigger] arith.ensures((Op::Binary(Binary::Add, a, b),), denom);
    let (e, minus) = choose|a: T, b: T|
        computes(arith, Term::<T>::euler(), a) && computes(arith, exponent, b)
            && #[trigger] arith.ensures((Op::Binary(Binary::Pow, a, b),), raised);
    let held = choose|a: T|
        computes(arith, Term::Value(x), a) && #[trigger] arith.ensures(
            (Op::Unary(Unary::Neg, a),),
            minus,
        );
    assert(arith.ensures((Op::Unary(Unary::Neg, held),), minus));
    assert(proper(minus));
    assert(arith.ensures((Op::Constant(Constant::Euler),), e));
    assert(arith.ensures((Op::Binary(Binary::Pow, e, minus),), raised));
    assert(nonnegative(raised));
    assert(arith.ensures((Op::Constant(Constant::Integer(1)),), unit));
    assert(arith.ensures((Op::Binary(Binary::Add, unit, raised),), denom));
    assert(at_least_one(denom));
    assert(arith.ensures((Op::Constant(Constant::Integer(1)),), one));
    assert(arith.ensures((Op::Binary(Binary::Div, one, denom),), r));
}

/// The evaluator's zero is `nonnegative`, the difference of two `finite`
/// scalars is `proper`, the square of a `proper` scalar is `nonnegative`, and
/// so is the sum of two `nonnegative` scalars.
pub open spec fn squares_keep_sign<T, F: Fn(Op<T>) -> T>(
    arith: F,
    finite: spec_fn(T) -> bool,
    proper: spec_fn(T) -> bool,
    nonnegative: spec_fn(T) -> bool,
) -> bool {
    &&& forall|z: T| #[trigger]
        arith.ensures((Op::Constant(Constant::Integer(0)),), z) ==> nonnegative(z)
    &&& forall|a: T, b: T, d: T|
        finite(a) && finite(b) && #[trigger] arith.ensures((Op::Binary(Binary::Sub, a, b),), d)
            ==> proper(d)
    &&& forall|d: T, q: T|
        proper(d) && #[trigger] arith.ensures((Op::Unary(Unary::Square, d),), q) ==> nonnegative(q)
    &&& forall|a: T, b: T, t: T|
        nonnegative(a) && nonnegative(b) && #[trigger] arith.ensures(
            (Op::Binary(Binary::Add, a, b),),
            t,
        ) ==> nonnegative(t)
}

/// Where squares and sums keep their sign, the squared error of `finite`
/// scalars is never negative.
pub proof fn lemma_error_nonnegative<T, F: Fn(Op<T>) -> T>(
    arith: F,
    finite: spec_fn(T) -> bool,
    proper: spec_fn(T) -> bool,
    nonnegative: spec_fn(T) -> bool,
    actual: Seq<T>,
    expected: Seq<T>,
    n: nat,
    r: T,
)
    requires
        squares_keep_sign(arith, finite, proper, nonnegative),
        n <= expected.len() <= actual.len(),
        forall|j: int| 0 <= j < n ==> finite(#[trigger] actual[j]),
        forall|j: int| 0 <= j < n ==> finite(#[trigger] expected[j]),
        computes(arith, squared_error(actual, expected, n), r),
    ensures
        nonnegative(r),
    decreases n,
{
    if n > 0 {
        let before = squared_error(actual, expected, (n - 1) as nat);
        let gap = Term::difference(Term::Value(actual[n - 1]), Term::Value(expected[n - 1]));
        let (acc, squared) = choose|a: T, b: T|
            computes(arith, before, a) && computes(arith, Term::square(gap), b)
                && #[trigger] arith.ensures((Op::Binary(Binary::Add, a, b),), r);
        let residual = choose|d: T|
            computes(arith, gap, d) && #[trigger] arith.ensures(
                (Op::Unary(Unary::Square, d),),
                squared,
            );
        let (c, e) = choose|a: T, b: T|
            computes(arith, Term::Value(actual[n - 1]), a) && computes(
                arith,
                Term::Value(expected[n - 1]),
                b,
            ) && #[trigger] arith.ensures((Op::Binary(Binary::Sub, a, b),), residual);
        assert(finite(actual[n - 1]) && finite(expected[n - 1]));
        assert(arith.ensures((Op::Binary(Binary::Sub, c, e),), residual));
        assert(proper(residual));
        assert(arith.ensures((Op::Unary(Unary::Square, residual),), squared));
        assert(nonnegative(squared));
        lemma_error_nonnegative(
            arith,
            finite,
            proper,
            nonnegative,
            actual,
            expected,
            (n - 1) as nat,
            acc,
        );
        assert(arith.ensures((Op::Binary(Binary::Add, acc, squared),), r));
    }
}

/// The evaluator's zero is `zero`, and so are the difference of a `finite`
/// scalar and itself, the square of a `zero` scalar and the sum of two `zero`
/// scalars.
pub open spec fn zero_stays_zero<T, F: Fn(Op<T>) -> T>(
    arith: F,
    finite: spec_fn(T) -> bool,
    zero: spec_fn(T) -> bool,
) -> bool {
    &&& forall|z: T| #[trigger] arith.ensures((Op::Constant(Constant::Integer(0)),), z) ==> zero(z)
    &&& forall|a: T, d: T|
        finite(a) && #[trigger] arith.ensures((Op::Binary(Binary::Sub, a, a),), d) ==> zero(d)
    &&& forall|d: T, q: T|
        zero(d) && #[trigger] arith.ensures((Op::Unary(Unary::Square, d),), q) ==> zero(q)
    &&& forall|a: T, b: T, t: T|
        zero(a) && zero(b) && #[trigger] arith.ensures((Op::Binary(Binary::Add, a, b),), t)
            ==> zero(t)
}

/// Where zero stays zero, the squared error is zero when the first `n` actual
/// scalars are `finite` and equal to the expected ones.
pub proof fn lemma_error_zero_on_equal<T, F: Fn(Op<T>) -> T>(
    arith: F,
    finite: spec_fn(T) -> bool,
    zero: spec_fn(T) -> bool,
    actual: Seq<T>,
    expected: Seq<T>,
    n: nat,
    r: T,
)
    requires
        zero_stays_zero(arith, finite, zero),
        n <= expected.len() <= actual.len(),
        forall|j: int| 0 <= j < n ==> finite(#[trigger] actual[j]) && actual[j] == expected[j],
        computes(arith, squared_error(actual, expected, n), r),
    ensures
        zero(r),
    decreases n,
{
    if n > 0 {
        let before = squared_error(actual, expected, (n - 1) as nat);
        let gap = Term::difference(Term::Value(actual[n - 1]), Term::Value(expected[n - 1]));
        let (acc, squared) = choose|a: T, b: T|
            computes(arith, before, a) && computes(arith, Term::square(gap), b)
                && #[trigger] arith.ensures((Op::Binary(Binary::Add, a, b),), r);
        let residual = choose|d: T|
            computes(arith, gap, d) && #[trigger] arith.ensures(
                (Op::Unary(Unary::Square, d),),
                squared,
            );
        let (c, e) = choose|a: T, b: T|
            computes(arith, Term::Value(actual[n - 1]), a) && computes(
                arith,
                Term::Value(expected[n - 1]),
                b,
            ) && #[trigger] arith.ensures((Op::Binary(Binary::Sub, a, b),), residual);
        assert(finite(actual[n - 1]) && actual[n - 1] == expected[n - 1]);
        assert(arith.ensures((Op::Binary(Binary::Sub, c, c),), residual));
        assert(zero(residual));
        assert(arith.ensures((Op::Unary(Unary::Square, residual),), squared));
        assert(zero(squared));
        lemma_error_zero_on_equal(arith, finite, zero, actual, expected, (n - 1) as nat, acc);
        assert(arith.ensures((Op::Binary(Binary::Add, acc, squared),), r));
    }
}

} // verus!
