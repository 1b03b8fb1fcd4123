use std::cmp::Ordering;
use std::ops::Add;
use vstd::prelude::*;
use vstd::std_specs::cmp::PartialOrdSpec;
use vstd::std_specs::ops::AddSpec;

verus! {

/// A trait alias for all types that can represent an edge.
pub trait Edge: Clone {

}

impl<T: Clone> Edge for T {

}

/// An edge that carries a cost. Costs are ordered, can be added up, and have a
/// zero, the default value.
///
/// An implementation says which natural number an edge value stands for, and
/// shows that `<`, `+`, `default` and `clone` agree with that number. Every
/// weight is at least zero, and a sum is never less than one of its parts.
pub trait WeightedEdge: Edge + Ord + Default + Add<Output = Self> {
    /// The cost that this edge stands for.
    spec fn weight(&self) -> nat;

    /// Whether a value of this type can hold the given cost. Costs that can be
    /// held may be added up without overflow.
    spec fn representable(total: nat) -> bool;

    /// `<` compares weights.
    proof fn lemma_order(a: Self, b: Self)
        ensures
            Self::obeys_partial_cmp_spec(),
            (a.partial_cmp_spec(&b) == Some(Ordering::Less)) <==> a.weight() < b.weight(),
    ;

    /// `+` adds weights, wherever the sum can be held.
    proof fn lemma_sum(a: Self, b: Self)
        requires
            Self::representable(a.weight() + b.weight()),
        ensures
            Self::obeys_add_spec(),
            a.add_req(b),
            a.add_spec(b).weight() == a.weight() + b.weight(),
    ;

    /// The default value weighs nothing.
    proof fn lemma_zero(zero: Self)
        requires
            call_ensures(Self::default, (), zero),
        ensures
            zero.weight() == 0,
    ;

    /// A clone weighs what the edge that was cloned weighs.
    proof fn lemma_clone(a: Self, b: Self)
        requires
            cloned(a, b),
        ensures
            a.weight() == b.weight(),
    ;
}

/// The edge that weighs nothing.
pub fn zero<E: WeightedEdge>() -> (zero: E)
    ensures
        zero.weight() == 0,
{
    let zero = E::default();
    proof {
        E::lemma_zero(zero);
    }
    zero
}

/// The sum of two edges.
pub fn sum<E: WeightedEdge>(a: &E, b: &E) -> (total: E)
    requires
        E::representable(a.weight() + b.weight()),
    ensures
        total.weight() == a.weight() + b.weight(),
{
    let x = a.clone();
    let y = b.clone();
    proof {
        assert(cloned(*a, x));
        assert(cloned(*b, y));
        E::lemma_clone(*a, x);
        E::lemma_clone(*b, y);
        E::lemma_sum(x, y);
    }
    x + y
}

/// Whether the first edge weighs less than the second.
pub fn lighter<E: WeightedEdge>(a: &E, b: &E) -> (less: bool)
    ensures
        less == (a.weight() < b.weight()),
{
    proof {
        E::lemma_order(*a, *b);
    }
    *a < *b
}

/// A copy of an edge, of the same weight.
pub fn copy_weight<E: WeightedEdge>(edge: &E) -> (copy: E)
    ensures
        copy.weight() == edge.weight(),
{
    let copy = edge.clone();
    proof {
        assert(cloned(*edge, copy));
        E::lemma_clone(*edge, copy);
    }
    copy
}

/// The result of `<` on weighted edges is what `partial_cmp_spec` says of them.
pub proof fn lemma_comparable<E: WeightedEdge>()
    ensures
        crate::vertex_container::comparable::<E>(),
{
    E::lemma_order(arbitrary(), arbitrary());
}

/// One weighted edge lies before another exactly if it weighs less.
pub proof fn lemma_precedes<E: WeightedEdge>(a: E, b: E)
    ensures
        crate::vertex_container::precedes(a, b) <==> a.weight() < b.weight(),
{
    E::lemma_order(a, b);
}

} // verus!
