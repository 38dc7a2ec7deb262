//! The nodes of a layer: plain scalars in the input layer, units in the others.
use crate::neurone::{Neurone, UnitView};
use vstd::prelude::*;

verus! {

/// A position within a layer.
pub enum Node<T> {
    /// A computing unit.
    Neurone(Neurone<T>),
    /// A plain scalar of the input layer.
    F64(T),
}

/// What a node holds, as mathematical values.
pub enum NodeView<T> {
    Unit(UnitView<T>),
    Raw(T),
}

impl<T> View for Node<T> {
    type V = NodeView<T>;

    open spec fn view(&self) -> NodeView<T> {
        match self {
            Node::Neurone(x) => NodeView::Unit(x@),
            Node::F64(v) => NodeView::Raw(*v),
        }
    }
}

/// The nodes of a layer, each by its view.
pub open spec fn layer_view<T>(layer: Seq<Node<T>>) -> Seq<NodeView<T>> {
    Seq::new(layer.len(), |p: int| layer[p]@)
}

/// The scalar that a node passes on to the next layer: a plain scalar itself,
/// a unit's stored output.
pub open spec fn node_value<T>(node: NodeView<T>) -> T {
    match node {
        NodeView::Unit(u) => u.output,
        NodeView::Raw(v) => v,
    }
}

/// The scalars of a layer, position by position.
pub open spec fn layer_values<T>(layer: Seq<NodeView<T>>) -> Seq<T> {
    Seq::new(layer.len(), |p: int| node_value(layer[p]))
}

impl<T: Copy> Clone for Node<T> {
    fn clone(&self) -> (r: Self)
        ensures
            r@ == self@,
    {
        match self {
            Node::Neurone(x) => Node::Neurone(x.clone()),
            Node::F64(v) => Node::F64(*v),
        }
    }
}

/// A layer of plain scalars, one for each of `values`.
pub open spec fn raw_layer<T>(values: Seq<T>) -> Seq<NodeView<T>> {
    Seq::new(values.len(), |p: int| NodeView::Raw(values[p]))
}

/// The scalars of `layer`, position by position.
pub fn values_of<T: Copy>(layer: &Vec<Node<T>>) -> (r: Vec<T>)
    ensures
        r@ == layer_values(layer_view(layer@)),
{
    let mut r: Vec<T> = Vec::new();
    let mut p: usize = 0;
    while p < layer.len()
        invariant
            p <= layer.len(),
            r.len() == p,
            forall|q: int| 0 <= q < p ==> r[q] == node_value(#[trigger] layer[q]@),
        decreases layer.len() - p,
    {
        match &layer[p] {
            Node::Neurone(x) => r.push(x.value()),
            Node::F64(x) => r.push(*x),
        }
        p += 1;
    }
    assert(r@ =~= layer_values(layer_view(layer@)));
    r
}

/// A copy of `layer`.
pub fn copy_layer<T: Copy>(layer: &Vec<Node<T>>) -> (r: Vec<Node<T>>)
    ensures
        layer_view(r@) == layer_view(layer@),
{
    let mut r: Vec<Node<T>> = Vec::new();
    let mut p: usize = 0;
    while p < layer.len()
        invariant
            p <= layer.len(),
            r.len() == p,
            forall|q: int| 0 <= q < p ==> #[trigger] r[q]@ == layer[q]@,
        decreases layer.len() - p,
    {
        r.push(layer[p].clone());
        p += 1;
    }
    assert(layer_view(r@) =~= layer_view(layer@));
    r
}

} // verus!
