//! The network: an input layer of plain scalars followed by layers of units,
//! and the forward pass through them.
use crate::activation::{lemma_activation_of_result, Activation};
use crate::arithmetic::{
    computes, lemma_binary, lemma_unary, total, Binary, Constant, Op, Term, Unary,
};
use crate::neurone::{initial_unit, raw_term, unit_term, Neurone, UnitView};
use crate::node::{copy_layer, layer_values, layer_view, raw_layer, values_of, Node, NodeView};
use vstd::prelude::*;

verus! {

/// A unit has one weight for each of `inputs` scalars; a plain scalar needs none.
pub open spec fn takes<T>(node: NodeView<T>, inputs: nat) -> bool {
    match node {
        NodeView::Unit(u) => u.weights.len() == inputs,
        NodeView::Raw(_) => true,
    }
}

/// `after` is `before` once it has been computed on `inputs`: a unit keeps its
/// weights, bias and activation, and its output is a result of
/// `activation(bias + sum of weights[j] * inputs[j])`; a plain scalar is unchanged.
pub open spec fn fired<T, F: Fn(Op<T>) -> T>(
    arith: F,
    before: NodeView<T>,
    inputs: Seq<T>,
    after: NodeView<T>,
) -> bool {
    match before {
        NodeView::Unit(u) => {
            &&& after is Unit
            &&& after->Unit_0 == (UnitView { output: after->Unit_0.output, ..u })
            &&& computes(arith, unit_term(u, inputs), after->Unit_0.output)
        },
        NodeView::Raw(_) => after == before,
    }
}

/// Computes every unit of `layer` on the values `previous` of the layer before it.
fn fire_layer<T: Copy, F: Fn(Op<T>) -> T>(
    layer: &mut Vec<Node<T>>,
    previous: &Vec<T>,
    arith: &F,
)
    requires
        total(*arith),
        forall|p: int| 0 <= p < old(layer).len() ==> takes(#[trigger] old(layer)[p]@, previous@.len()),
    ensures
        final(layer).len() == old(layer).len(),
        forall|p: int|
            0 <= p < old(layer).len() ==> fired(
                *arith,
                old(layer)[p]@,
                previous@,
                #[trigger] final(layer)[p]@,
            ),
{
    let ghost before = layer@;
    let mut p: usize = 0;
    while p < layer.len()
        invariant
            p <= layer.len(),
            layer.len() == before.len(),
            total(*arith),
            forall|q: int| 0 <= q < before.len() ==> takes(#[trigger] before[q]@, previous@.len()),
            forall|q: int| 0 <= q < p ==> fired(*arith, before[q]@, previous@, #[trigger] layer[q]@),
            forall|q: int| p <= q < before.len() ==> layer[q] == before[q],
        decreases layer.len() - p,
    {
        match &mut layer[p] {
            Node::Neurone(x) => {
                let ghost start = x@;
                assert(takes(before[p as int]@, previous@.len()));
                x.calculate(previous, arith);
                let ghost raw = x@.output;
                x.activate(arith);
                proof {
                    lemma_activation_of_result(
                        *arith,
                        start.activation,
                        raw_term(start.weights, start.bias, previous@),
                        raw,
                        x@.output,
                    );
                }
            },
            Node::F64(_) => {},
        }
        p += 1;
    }
}

/// `layer` holds `size` plain scalars, each one from `source`.
pub open spec fn drawn_layer<T, S: Fn() -> T>(source: S, layer: Seq<NodeView<T>>, size: nat) -> bool {
    &&& layer.len() == size
    &&& forall|p: int|
        0 <= p < size ==> {
            &&& #[trigger] layer[p] is Raw
            &&& source.ensures((), layer[p]->Raw_0)
        }
}

/// `layer` holds `size` freshly drawn units with the given activation, each
/// for a preceding layer of `inputs` nodes.
pub open spec fn fresh_layer<T, S: Fn() -> T, F: Fn(Op<T>) -> T>(
    source: S,
    arith: F,
    layer: Seq<NodeView<T>>,
    size: nat,
    inputs: nat,
    activation: Activation,
) -> bool {
    &&& layer.len() == size
    &&& forall|p: int|
        0 <= p < size ==> {
            &&& #[trigger] layer[p] is Unit
            &&& initial_unit(source, arith, layer[p]->Unit_0, inputs, activation)
        }
}

/// A layer of `size` units with the given activation, each drawn for a
/// preceding layer of `previous_size` nodes, in order.
fn create_layer<T: Copy, S: Fn() -> T, F: Fn(Op<T>) -> T>(
    size: usize,
    previous_size: usize,
    activation: Activation,
    source: &S,
    arith: &F,
) -> (r: Vec<Node<T>>)
    requires
        source.requires(()),
        total(*arith),
    ensures
        fresh_layer(*source, *arith, layer_view(r@), size as nat, previous_size as nat, activation),
{
    let mut r: Vec<Node<T>> = Vec::new();
    let mut p: usize = 0;
    while p < size
        invariant
            p <= size,
            source.requires(()),
            total(*arith),
            fresh_layer(*source, *arith, layer_view(r@), p as nat, previous_size as nat, activation),
        decreases size - p,
    {
        let unit = Neurone::new(previous_size, activation, source, arith);
        let ghost before = layer_view(r@);
        r.push(Node::Neurone(unit));
        assert forall|q: int| 0 <= q < p + 1 implies {
            &&& #[trigger] layer_view(r@)[q] is Unit
            &&& initial_unit(
                *source,
                *arith,
                layer_view(r@)[q]->Unit_0,
                previous_size as nat,
                activation,
            )
        } by {
            if q < p {
                assert(layer_view(r@)[q] == before[q]);
            }
        }
        p += 1;
    }
    r
}

/// An input layer of `size` plain scalars, each drawn from `source`, in order.
fn create_first_layer<T: Copy, S: Fn() -> T>(size: usize, source: &S) -> (r: Vec<Node<T>>)
    requires
        source.requires(()),
    ensures
        drawn_layer(*source, layer_view(r@), size as nat),
{
    let mut r: Vec<Node<T>> = Vec::new();
    let mut p: usize = 0;
    while p < size
        invariant
            p <= size,
            source.requires(()),
            drawn_layer(*source, layer_view(r@), p as nat),
        decreases size - p,
    {
        let ghost before = layer_view(r@);
        r.push(Node::F64(source()));
        assert forall|q: int| 0 <= q < p + 1 implies {
            &&& #[trigger] layer_view(r@)[q] is Raw
            &&& source.ensures((), layer_view(r@)[q]->Raw_0)
        } by {
            if q < p {
                assert(layer_view(r@)[q] == before[q]);
            }
        }
        p += 1;
    }
    r
}

/// The layers of a network, each by its view.
pub open spec fn net_view<T>(net: Seq<Vec<Node<T>>>) -> Seq<Seq<NodeView<T>>> {
    Seq::new(net.len(), |i: int| layer_view(net[i]@))
}

/// The number of nodes of each layer, input layer first.
pub open spec fn shape<T>(net: Seq<Seq<NodeView<T>>>) -> Seq<nat> {
    Seq::new(net.len(), |i: int| net[i].len())
}

/// Two networks have as many layers, and layer by layer as many nodes.
pub open spec fn same_shape<T>(a: Seq<Seq<NodeView<T>>>, b: Seq<Seq<NodeView<T>>>) -> bool {
    &&& a.len() == b.len()
    &&& forall|i: int|
        #![trigger a[i]]
        #![trigger b[i]]
        0 <= i < a.len() ==> a[i].len() == b[i].len()
}

/// There is an input and an output layer; the input layer holds plain scalars
/// only; every later layer holds units only, each with one weight per node of
/// the layer before it.
pub open spec fn well_formed<T>(net: Seq<Seq<NodeView<T>>>) -> bool {
    &&& net.len() >= 2
    &&& forall|p: int| 0 <= p < net[0].len() ==> #[trigger] net[0][p] is Raw
    &&& forall|i: int, p: int|
        1 <= i < net.len() && 0 <= p < net[i].len() ==> {
            &&& #[trigger] net[i][p] is Unit
            &&& takes(net[i][p], net[i - 1].len())
        }
}

/// `post` is `pre` after one forward pass: the input layer is untouched, and
/// every node of every later layer has been computed on the values that the
/// layer before it holds after the pass.
pub open spec fn propagated<T, F: Fn(Op<T>) -> T>(
    arith: F,
    pre: Seq<Seq<NodeView<T>>>,
    post: Seq<Seq<NodeView<T>>>,
) -> bool {
    &&& same_shape(post, pre)
    &&& post[0] == pre[0]
    &&& forall|i: int, p: int|
        1 <= i < pre.len() && 0 <= p < pre[i].len() ==> fired(
            arith,
            pre[i][p],
            layer_values(post[i - 1]),
            #[trigger] post[i][p],
        )
}

/// The forward pass has reached layer `done`: the layers before it are as
/// after a full pass, the others as they were.
spec fn propagated_until<T, F: Fn(Op<T>) -> T>(
    arith: F,
    pre: Seq<Seq<NodeView<T>>>,
    now: Seq<Seq<NodeView<T>>>,
    done: int,
) -> bool {
    &&& same_shape(now, pre)
    &&& now[0] == pre[0]
    &&& forall|i: int, p: int|
        1 <= i < done && 0 <= p < pre[i].len() ==> fired(
            arith,
            pre[i][p],
            layer_values(now[i - 1]),
            #[trigger] now[i][p],
        )
    &&& forall|i: int| done <= i < pre.len() ==> #[trigger] now[i] == pre[i]
}

/// The layer sizes of a network with `input` inputs, hidden layers of the
/// sizes `hidden` and `output` outputs.
pub open spec fn layer_sizes(input: nat, hidden: Seq<usize>, output: nat) -> Seq<nat> {
    Seq::new(
        hidden.len() + 2,
        |i: int|
            if i == 0 {
                input
            } else if i <= hidden.len() {
                hidden[i - 1] as nat
            } else {
                output
            },
    )
}

/// `net` is a freshly built network of the given sizes: drawn plain scalars in
/// the input layer, freshly drawn rectifier units in the hidden layers and
/// freshly drawn logistic units in the output layer, each unit with one weight
/// per node of the layer before it.
pub open spec fn built<T, S: Fn() -> T, F: Fn(Op<T>) -> T>(
    source: S,
    arith: F,
    net: Seq<Seq<NodeView<T>>>,
    input: nat,
    hidden: Seq<usize>,
    output: nat,
) -> bool {
    &&& shape(net) == layer_sizes(input, hidden, output)
    &&& drawn_layer(source, net[0], input)
    &&& forall|i: int|
        1 <= i <= hidden.len() ==> fresh_layer(
            source,
            arith,
            #[trigger] net[i],
            hidden[i - 1] as nat,
            net[i - 1].len(),
            Activation::Relu,
        )
    &&& fresh_layer(
        source,
        arith,
        net[hidden.len() as int + 1],
        output,
        net[hidden.len() as int].len(),
        Activation::Sigmoid,
    )
}

/// The sum of the first `n` squared differences `(actual[j] - expected[j])^2`,
/// accumulated from zero in the order of `j`.
pub open spec fn squared_error<T>(actual: Seq<T>, expected: Seq<T>, n: nat) -> Term<T>
    decreases n,
{
    if n == 0 {
        Term::integer(0)
    } else {
        Term::sum(
            squared_error(actual, expected, (n - 1) as nat),
            Term::square(Term::difference(Term::Value(actual[n - 1]), Term::Value(expected[n - 1]))),
        )
    }
}

/// The input layer and the first `done` hidden layers of a freshly built
/// network, and nothing after them.
spec fn built_until<T, S: Fn() -> T, F: Fn(Op<T>) -> T>(
    source: S,
    arith: F,
    net: Seq<Seq<NodeView<T>>>,
    input: nat,
    hidden: Seq<usize>,
    done: int,
) -> bool {
    &&& 0 <= done <= hidden.len()
    &&& net.len() == done + 1
    &&& drawn_layer(source, net[0], input)
    &&& forall|i: int|
        1 <= i <= done ==> fresh_layer(
            source,
            arith,
            #[trigger] net[i],
            hidden[i - 1] as nat,
            net[i - 1].len(),
            Activation::Relu,
        )
}

proof fn lemma_net_view_push<T>(net: Seq<Vec<Node<T>>>, layer: Vec<Node<T>>)
    ensures
        net_view(net.push(layer)) == net_view(net).push(layer_view(layer@)),
{
    assert(net_view(net.push(layer)) =~= net_view(net).push(layer_view(layer@)));
}

proof fn lemma_hidden_layer_added<T, S: Fn() -> T, F: Fn(Op<T>) -> T>(
    source: S,
    arith: F,
    net: Seq<Seq<NodeView<T>>>,
    layer: Seq<NodeView<T>>,
    input: nat,
    hidden: Seq<usize>,
    done: int,
)
    requires
        built_until(source, arith, net, input, hidden, done),
        done < hidden.len(),
        fresh_layer(source, arith, layer, hidden[done] as nat, net[done].len(), Activation::Relu),
    ensures
        built_until(source, arith, net.push(layer), input, hidden, done + 1),
{
    let next = net.push(layer);
    assert(next[0] == net[0]);
    assert forall|i: int| 1 <= i <= done + 1 implies fresh_layer(
        source,
        arith,
        #[trigger] next[i],
        hidden[i - 1] as nat,
        next[i - 1].len(),
        Activation::Relu,
    ) by {
        assert(next[i - 1] == net[i - 1]);
        if i <= done {
            assert(next[i] == net[i]);
            assert(fresh_layer(
                source,
                arith,
                net[i],
                hidden[i - 1] as nat,
                net[i - 1].len(),
                Activation::Relu,
            ));
        }
    }
}

proof fn lemma_output_layer_added<T, S: Fn() -> T, F: Fn(Op<T>) -> T>(
    source: S,
    arith: F,
    net: Seq<Seq<NodeView<T>>>,
    layer: Seq<NodeView<T>>,
    input: nat,
    hidden: Seq<usize>,
    output: nat,
)
    requires
        built_until(source, arith, net, input, hidden, hidden.len() as int),
        fresh_layer(source, arith, layer, output, net.last().len(), Activation::Sigmoid),
    ensures
        built(source, arith, net.push(layer), input, hidden, output),
        well_formed(net.push(layer)),
{
    let next = net.push(layer);
    let last = hidden.len() as int + 1;
    assert(next[0] == net[0]);
    assert(next[last] == layer);
    assert(next[last - 1] == net.last());
    assert forall|i: int| 1 <= i <= hidden.len() implies fresh_layer(
        source,
        arith,
        #[trigger] next[i],
        hidden[i - 1] as nat,
        next[i - 1].len(),
        Activation::Relu,
    ) by {
        assert(next[i - 1] == net[i - 1]);
        assert(next[i] == net[i]);
        assert(fresh_layer(
            source,
            arith,
            net[i],
            hidden[i - 1] as nat,
            net[i - 1].len(),
            Activation::Relu,
        ));
    }
    assert forall|i: int| 0 <= i < next.len() implies shape(next)[i] == layer_sizes(
        input,
        hidden,
        output,
    )[i] by {
        if 1 <= i <= hidden.len() {
            assert(fresh_layer(
                source,
                arith,
                next[i],
                hidden[i - 1] as nat,
                next[i - 1].len(),
                Activation::Relu,
            ));
        }
    }
    assert(shape(next) =~= layer_sizes(input, hidden, output));
    assert forall|i: int, p: int| 1 <= i < next.len() && 0 <= p < next[i].len() implies {
        &&& #[trigger] next[i][p] is Unit
        &&& takes(next[i][p], next[i - 1].len())
    } by {
        if i <= hidden.len() {
            assert(fresh_layer(
                source,
                arith,
                next[i],
                hidden[i - 1] as nat,
                next[i - 1].len(),
                Activation::Relu,
            ));
        }
    }
}

/// An input vector that was turned away because it is not as long as the
/// input layer.
#[derive(Clone, Copy, Debug, PartialEq, Eq)]
pub struct LengthMismatch {
    /// The length of the vector that was offered.
    pub offered: usize,
    /// The length of the input layer.
    pub expected: usize,
}

/// A feed-forward network.
pub struct ANN<T> {
    net: Vec<Vec<Node<T>>>,
}

impl<T> View for ANN<T> {
    type V = Seq<Seq<NodeView<T>>>;

    closed spec fn view(&self) -> Seq<Seq<NodeView<T>>> {
        net_view(self.net@)
    }
}

impl<T: Copy> ANN<T> {
    /// Builds a network of `input_size` inputs, one hidden layer for each entry
    /// of `hidden_layer_sizes` and `output_layer_size` outputs. Scalars are
    /// drawn from `source` layer by layer and unit by unit, a unit's weights
    /// before its bias. A size of zero gives an empty layer, and units with no
    /// weights in the layer after it.
    pub fn new<S: Fn() -> T, F: Fn(Op<T>) -> T>(
        input_size: usize,
        hidden_layer_sizes: Vec<usize>,
        output_layer_size: usize,
        source: &S,
        arith: &F,
    ) -> (r: ANN<T>)
        requires
            source.requires(()),
            total(*arith),
        ensures
            well_formed(r@),
            built(
                *source,
                *arith,
                r@,
                input_size as nat,
                hidden_layer_sizes@,
                output_layer_size as nat,
            ),
            r@.len() == hidden_layer_sizes@.len() + 2,
            r@[0].len() == input_size,
            r@.last().len() == output_layer_size,
    {
        let mut q: Vec<Vec<Node<T>>> = Vec::new();
        q.push(create_first_layer(input_size, source));
        assert(net_view(q@) =~= seq![layer_view(q@[0]@)]);
        let mut i: usize = 0;
        while i < hidden_layer_sizes.len()
            invariant
                i <= hidden_layer_sizes.len(),
                q.len() == i + 1,
                source.requires(()),
                total(*arith),
                built_until(
                    *source,
                    *arith,
                    net_view(q@),
                    input_size as nat,
                    hidden_layer_sizes@,
                    i as int,
                ),
            decreases hidden_layer_sizes.len() - i,
        {
            let ghost before = q@;
            let previous_size: usize = q[i].len();
            let layer = create_layer(
                hidden_layer_sizes[i],
                previous_size,
                Activation::Relu,
                source,
                arith,
            );
            proof {
                lemma_net_view_push(before, layer);
                lemma_hidden_layer_added(
                    *source,
                    *arith,
                    net_view(before),
                    layer_view(layer@),
                    input_size as nat,
                    hidden_layer_sizes@,
                    i as int,
                );
            }
            q.push(layer);
            i += 1;
        }
        let ghost before = q@;
        let previous_size: usize = q[q.len() - 1].len();
        let layer = create_layer(
            output_layer_size,
            previous_size,
            Activation::Sigmoid,
            source,
            arith,
        );
        proof {
            lemma_net_view_push(before, layer);
            lemma_output_layer_added(
                *source,
                *arith,
                net_view(before),
                layer_view(layer@),
                input_size as nat,
                hidden_layer_sizes@,
                output_layer_size as nat,
            );
        }
        q.push(layer);
        let r = ANN { net: q };
        proof {
            let sizes = layer_sizes(
                input_size as nat,
                hidden_layer_sizes@,
                output_layer_size as nat,
            );
            assert(shape(r@).len() == sizes.len());
            assert(shape(r@)[0] == sizes[0]);
            assert(shape(r@)[r@.len() - 1] == sizes[hidden_layer_sizes@.len() as int + 1]);
        }
        r
    }

    /// The number of nodes of the input layer.
    pub fn input_size(&self) -> (r: usize)
        requires
            well_formed(self@),
        ensures
            r == self@[0].len(),
    {
        self.net[0].len()
    }

    /// A copy of the nodes of the output layer.
    pub fn get_out_layer(&self) -> (r: Vec<Node<T>>)
        requires
            well_formed(self@),
        ensures
            layer_view(r@) == self@.last(),
    {
        copy_layer(&self.net[self.net.len() - 1])
    }

    /// The scalars of the output layer, position by position.
    pub fn get_out(&self) -> (r: Vec<T>)
        requires
            well_formed(self@),
        ensures
            r@ == layer_values(self@.last()),
    {
        values_of(&self.net[self.net.len() - 1])
    }

    /// Replaces the whole input layer by the scalars `ins`, in order.
    pub fn set_ins(&mut self, ins: Vec<T>)
        requires
            well_formed(old(self)@),
            ins.len() == old(self)@[0].len(),
        ensures
            final(self)@ == old(self)@.update(0, raw_layer(ins@)),
            well_formed(final(self)@),
            shape(final(self)@) == shape(old(self)@),
    {
        let mut new_in_layer: Vec<Node<T>> = Vec::new();
        let mut p: usize = 0;
        while p < ins.len()
            invariant
                p <= ins.len(),
                new_in_layer.len() == p,
                forall|q: int| 0 <= q < p ==> #[trigger] new_in_layer[q]@ == NodeView::Raw(ins[q]),
            decreases ins.len() - p,
        {
            new_in_layer.push(Node::F64(ins[p]));
            p += 1;
        }
        assert(layer_view(new_in_layer@) =~= raw_layer(ins@));
        self.net[0] = new_in_layer;
        assert(self@ =~= old(self)@.update(0, raw_layer(ins@)));
        assert(shape(self@) =~= shape(old(self)@));
    }

    /// Replaces the whole input layer by the scalars `ins` if there are as many
    /// of them as the input layer has nodes; otherwise leaves the network as it
    /// is and reports both lengths.
    pub fn try_set_ins(&mut self, ins: Vec<T>) -> (r: Result<(), LengthMismatch>)
        requires
            well_formed(old(self)@),
        ensures
            well_formed(final(self)@),
            shape(final(self)@) == shape(old(self)@),
            r is Ok <==> ins.len() == old(self)@[0].len(),
            r is Ok ==> final(self)@ == old(self)@.update(0, raw_layer(ins@)),
            r is Err ==> final(self)@ == old(self)@ && r->Err_0.offered == ins.len()
                && r->Err_0.expected == old(self)@[0].len(),
    {
        let expected: usize = self.net[0].len();
        if ins.len() != expected {
            return Err(LengthMismatch { offered: ins.len(), expected });
        }
        self.set_ins(ins);
        Ok(())
    }

    /// The sum of the squared differences between the first `expected.len()`
    /// output values and `expected`; output values past that are ignored.
    pub fn calculate_error<F: Fn(Op<T>) -> T>(&self, expected: Vec<T>, arith: &F) -> (r: T)
        requires
            well_formed(self@),
            expected.len() <= self@.last().len(),
            total(*arith),
        ensures
            computes(
                *arith,
                squared_error(layer_values(self@.last()), expected@, expected@.len()),
                r,
            ),
    {
        let mut q = arith(Op::Constant(Constant::Integer(0)));
        let comparison_values = self.get_out();
        let mut i: usize = 0;
        while i < expected.len()
            invariant
                i <= expected.len(),
                expected.len() <= comparison_values.len(),
                total(*arith),
                computes(*arith, squared_error(comparison_values@, expected@, i as nat), q),
            decreases expected.len() - i,
        {
            let residual = arith(Op::Binary(Binary::Sub, comparison_values[i], expected[i]));
            let squared = arith(Op::Unary(Unary::Square, residual));
            let next = arith(Op::Binary(Binary::Add, q, squared));
            proof {
                let c = Term::Value(comparison_values@[i as int]);
                let e = Term::Value(expected@[i as int]);
                lemma_binary(
                    *arith,
                    Binary::Sub,
                    c,
                    e,
                    comparison_values@[i as int],
                    expected@[i as int],
                    residual,
                );
                lemma_unary(*arith, Unary::Square, Term::difference(c, e), residual, squared);
                lemma_binary(
                    *arith,
                    Binary::Add,
                    squared_error(comparison_values@, expected@, i as nat),
                    Term::square(Term::difference(c, e)),
                    q,
                    squared,
                    next,
                );
            }
            q = next;
            i += 1;
        }
        q
    }

    /// One forward pass: layer by layer from the first hidden layer to the
    /// output layer, each unit computed on the values that the layer before it
    /// holds at that moment.
    pub fn calculate<F: Fn(Op<T>) -> T>(&mut self, arith: &F)
        requires
            well_formed(old(self)@),
            total(*arith),
        ensures
            well_formed(final(self)@),
            propagated(*arith, old(self)@, final(self)@),
            shape(final(self)@) == shape(old(self)@),
    {
        let ghost pre = self@;
        let mut i: usize = 1;
        while i < self.net.len()
            invariant
                1 <= i <= self.net.len(),
                total(*arith),
                pre == old(self)@,
                well_formed(pre),
                propagated_until(*arith, pre, self@, i as int),
            decreases self.net.len() - i,
        {
            let ghost now = self@;
            let previous = values_of(&self.net[i - 1]);
            assert(now[i as int] == pre[i as int]);
            assert forall|p: int| 0 <= p < self.net[i as int].len() implies takes(
                #[trigger] self.net[i as int][p]@,
                previous@.len(),
            ) by {
                assert(self.net[i as int][p]@ == now[i as int][p]);
                assert(pre[i as int][p] is Unit);
            }
            fire_layer(&mut self.net[i], &previous, arith);
            proof {
                let next = self@;
                assert forall|k: int| 0 <= k < pre.len() && k != i implies next[k] == now[k] by {
                    assert(next[k] =~= now[k]);
                }
                assert(next[i as int].len() == now[i as int].len());
                assert forall|k: int, p: int|
                    1 <= k < i + 1 && 0 <= p < pre[k].len() implies fired(
                    *arith,
                    pre[k][p],
                    layer_values(next[k - 1]),
                    #[trigger] next[k][p],
                ) by {
                    if k < i {
                        assert(fired(*arith, pre[k][p], layer_values(now[k - 1]), now[k][p]));
                    } else {
                        assert(now[k][p] == pre[k][p]);
                        assert(next[k][p] == self.net[k][p]@);
                    }
                }
            }
            i += 1;
        }
        proof {
            let post = self@;
            assert forall|k: int, p: int| 1 <= k < post.len() && 0 <= p < post[k].len() implies {
                &&& #[trigger] post[k][p] is Unit
                &&& takes(post[k][p], post[k - 1].len())
            } by {
                assert(pre[k][p] is Unit);
                assert(fired(*arith, pre[k][p], layer_values(post[k - 1]), post[k][p]));
            }
            assert(shape(post) =~= shape(pre));
        }
    }
}

} // verus!
