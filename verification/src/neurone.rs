//! A single computing unit: weights, a bias, an activation and the output of
//! the most recent forward pass.
use crate::activation::{activation_term, relu, sigmoid, Activation};
use crate::arithmetic::{computes, lemma_binary, total, Binary, Constant, Op, Term};
use vstd::prelude::*;

verus! {

/// The factor by which a drawn scalar is scaled to become a bias.
pub const BIAS_SCALE: i32 = 10;

/// What a unit holds, as mathematical values.
pub struct UnitView<T> {
    /// One weight per node of the preceding layer, in that layer's order.
    pub weights: Seq<T>,
    pub bias: T,
    pub activation: Activation,
    pub output: T,
}

/// A computing unit of a hidden or output layer.
pub struct Neurone<T> {
    weights: Vec<T>,
    bias: T,
    activation: Activation,
    /// The value left by the most recent computation on this unit.
    pub output: T,
}

impl<T> View for Neurone<T> {
    type V = UnitView<T>;

    closed spec fn view(&self) -> UnitView<T> {
        UnitView {
            weights: self.weights@,
            bias: self.bias,
            activation: self.activation,
            output: self.output,
        }
    }
}

/// The sum of the first `n` products `weights[j] * inputs[j]`, accumulated
/// from zero in the order of `j`.
pub open spec fn weighted_sum<T>(weights: Seq<T>, inputs: Seq<T>, n: nat) -> Term<T>
    decreases n,
{
    if n == 0 {
        Term::integer(0)
    } else {
        Term::sum(
            weighted_sum(weights, inputs, (n - 1) as nat),
            Term::product(Term::Value(weights[n - 1]), Term::Value(inputs[n - 1])),
        )
    }
}

/// The pre-activation value of a unit: `bias + sum over j of weights[j] * inputs[j]`,
/// with `j` ranging over the whole of `inputs`.
pub open spec fn raw_term<T>(weights: Seq<T>, bias: T, inputs: Seq<T>) -> Term<T> {
    Term::sum(Term::Value(bias), weighted_sum(weights, inputs, inputs.len()))
}

/// The post-activation value of a unit with the given parameters on `inputs`.
pub open spec fn unit_term<T>(unit: UnitView<T>, inputs: Seq<T>) -> Term<T> {
    activation_term(unit.activation, raw_term(unit.weights, unit.bias, inputs))
}

/// `unit` is a freshly drawn unit for a preceding layer of `inputs` nodes:
/// every weight comes from `source`, the bias is a scalar from `source` times
/// [`BIAS_SCALE`], and the output is zero.
pub open spec fn initial_unit<T, S: Fn() -> T, F: Fn(Op<T>) -> T>(
    source: S,
    arith: F,
    unit: UnitView<T>,
    inputs: nat,
    activation: Activation,
) -> bool {
    &&& unit.weights.len() == inputs
    &&& forall|j: int| 0 <= j < inputs ==> source.ensures((), #[trigger] unit.weights[j])
    &&& exists|d: T| #[trigger]
        source.ensures((), d) && computes(
            arith,
            Term::product(Term::Value(d), Term::integer(BIAS_SCALE)),
            unit.bias,
        )
    &&& unit.activation == activation
    &&& computes(arith, Term::integer(0), unit.output)
}

/// A copy of `values`.
fn copy_values<T: Copy>(values: &Vec<T>) -> (r: Vec<T>)
    ensures
        r@ == values@,
{
    let mut r: Vec<T> = Vec::new();
    let mut n: usize = 0;
    while n < values.len()
        invariant
            n <= values.len(),
            r@ == values@.take(n as int),
        decreases values.len() - n,
    {
        r.push(values[n]);
        assert(values@.take(n + 1) == values@.take(n as int).push(values@[n as int]));
        n += 1;
    }
    assert(values@.take(values@.len() as int) == values@);
    r
}

impl<T: Copy> Clone for Neurone<T> {
    fn clone(&self) -> (r: Self)
        ensures
            r@ == self@,
    {
        Neurone {
            weights: copy_values(&self.weights),
            bias: self.bias,
            activation: self.activation,
            output: self.output,
        }
    }
}

impl<T: Copy> Neurone<T> {
    /// The value left by the most recent computation on this unit.
    pub fn value(&self) -> (r: T)
        ensures
            r == self@.output,
    {
        self.output
    }

    /// Draws a unit for a preceding layer of `input_size` nodes: the weights
    /// first, in order, then the bias.
    pub fn new<S: Fn() -> T, F: Fn(Op<T>) -> T>(
        input_size: usize,
        activation: Activation,
        source: &S,
        arith: &F,
    ) -> (r: Self)
        requires
            source.requires(()),
            total(*arith),
        ensures
            initial_unit(*source, *arith, r@, input_size as nat, activation),
    {
        let mut weights: Vec<T> = Vec::new();
        let mut n: usize = 0;
        while n < input_size
            invariant
                n <= input_size,
                weights.len() == n,
                source.requires(()),
                forall|j: int| 0 <= j < n ==> source.ensures((), #[trigger] weights[j]),
            decreases input_size - n,
        {
            weights.push(source());
            n += 1;
        }
        let drawn = source();
        let scale = arith(Op::Constant(Constant::Integer(BIAS_SCALE)));
        let bias = arith(Op::Binary(Binary::Mul, drawn, scale));
        let output = arith(Op::Constant(Constant::Integer(0)));
        proof {
            lemma_binary(
                *arith,
                Binary::Mul,
                Term::Value(drawn),
                Term::integer(BIAS_SCALE),
                drawn,
                scale,
                bias,
            );
        }
        Neurone { weights, bias, activation, output }
    }

    /// Stores the pre-activation value for the given values of the preceding
    /// layer in `output`.
    pub fn calculate<F: Fn(Op<T>) -> T>(&mut self, previous: &Vec<T>, arith: &F)
        requires
            previous.len() == old(self)@.weights.len(),
            total(*arith),
        ensures
            final(self)@ == (UnitView { output: final(self)@.output, ..old(self)@ }),
            computes(
                *arith,
                raw_term(old(self)@.weights, old(self)@.bias, previous@),
                final(self)@.output,
            ),
    {
        let mut acc = arith(Op::Constant(Constant::Integer(0)));
        let mut n: usize = 0;
        while n < previous.len()
            invariant
                n <= previous.len(),
                previous.len() == self.weights.len(),
                total(*arith),
                computes(*arith, weighted_sum(self.weights@, previous@, n as nat), acc),
            decreases previous.len() - n,
        {
            let weighted = arith(Op::Binary(Binary::Mul, self.weights[n], previous[n]));
            let next = arith(Op::Binary(Binary::Add, acc, weighted));
            proof {
                let w = Term::Value(self.weights@[n as int]);
                let x = Term::Value(previous@[n as int]);
                lemma_binary(
                    *arith,
                    Binary::Mul,
                    w,
                    x,
                    self.weights@[n as int],
                    previous@[n as int],
                    weighted,
                );
                lemma_binary(
                    *arith,
                    Binary::Add,
                    weighted_sum(self.weights@, previous@, n as nat),
                    Term::product(w, x),
                    acc,
                    weighted,
                    next,
                );
            }
            acc = next;
            n += 1;
        }
        let raw = arith(Op::Binary(Binary::Add, self.bias, acc));
        proof {
            lemma_binary(
                *arith,
                Binary::Add,
                Term::Value(self.bias),
                weighted_sum(self.weights@, previous@, previous@.len()),
                self.bias,
                acc,
                raw,
            );
        }
        self.output = raw;
    }

    /// Replaces `output` by the unit's activation of it.
    pub fn activate<F: Fn(Op<T>) -> T>(&mut self, arith: &F)
        requires
            total(*arith),
        ensures
            final(self)@ == (UnitView { output: final(self)@.output, ..old(self)@ }),
            computes(
                *arith,
                activation_term(old(self)@.activation, Term::Value(old(self)@.output)),
                final(self)@.output,
            ),
    {
        match self.activation {
            Activation::Relu => {
                self.output = relu(self.output, arith);
            },
            Activation::Sigmoid => {
                self.output = sigmoid(self.output, arith);
            },
        }
    }
}

} // verus!
