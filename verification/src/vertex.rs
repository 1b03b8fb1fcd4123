use std::hash::Hash;
use vstd::prelude::*;

verus! {

/// A trait alias for all types that can represent a vertex.
pub trait Vertex: Hash + Eq + Clone {

}

impl<T: Hash + Eq + Clone> Vertex for T {

}

/// What the traversers take for granted of a vertex type: it can key a hash
/// table, `==` holds of two vertices exactly when they are the same value, and a
/// clone is the same value as the vertex that was cloned.
pub open spec fn vertex_laws<V: Vertex>() -> bool {
    &&& vstd::std_specs::hash::obeys_key_model::<V>()
    &&& vstd::laws_eq::obeys_concrete_eq::<V>()
    &&& forall|a: V, b: V| #[trigger] cloned(a, b) ==> a == b
}

/// Compares two vertices.
pub fn same_vertex<V: Vertex>(a: &V, b: &V) -> (same: bool)
    requires
        vertex_laws::<V>(),
    ensures
        same == (*a == *b),
{
    proof {
        reveal(vstd::laws_eq::obeys_concrete_eq);
    }
    a == b
}

/// Duplicates a vertex.
pub fn copy_vertex<V: Vertex>(vertex: &V) -> (copy: V)
    requires
        vertex_laws::<V>(),
    ensures
        copy == *vertex,
{
    let copy = vertex.clone();
    assert(cloned(*vertex, copy));
    copy
}

/// Duplicates an optional vertex.
pub fn copy_optional_vertex<V: Vertex>(vertex: &Option<V>) -> (copy: Option<V>)
    requires
        vertex_laws::<V>(),
    ensures
        copy == *vertex,
{
    match vertex {
        Some(v) => Some(copy_vertex(v)),
        None => None,
    }
}

/// Unsigned integers are vertices of the kind the traversers ask for.
pub proof fn lemma_integers_are_vertices()
    ensures
        vertex_laws::<u8>(),
        vertex_laws::<u16>(),
        vertex_laws::<u32>(),
        vertex_laws::<u64>(),
        vertex_laws::<usize>(),
{
    broadcast use vstd::laws_eq::group_laws_eq;
}

} // verus!
