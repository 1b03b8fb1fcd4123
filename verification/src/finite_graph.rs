use crate::edge::Edge;
use crate::graph::EdgedGraph;
use crate::graph::Graph;
use crate::graph::ReversableGraph;
use std::collections::hash_map::Entry;
use std::collections::HashMap;
use vstd::prelude::*;
use vstd::std_specs::cmp::PartialEqSpecImpl;

verus! {

/// A handle that identifies a vertex or an edge of a [`FiniteGraph`].
///
/// A graph hands out its handles in increasing order, from one counter for
/// vertices and edges alike, and never hands out one twice.
#[derive(Copy, Clone, Debug, Hash, Eq)]
pub struct Id(usize);

impl PartialEq for Id {
    fn eq(&self, other: &Id) -> (equal: bool) {
        self.0 == other.0
    }
}

impl PartialEqSpecImpl for Id {
    open spec fn obeys_eq_spec() -> bool {
        true
    }

    open spec fn eq_spec(&self, other: &Id) -> bool {
        *self == *other
    }
}

impl Id {
    /// The place of this handle in the order in which its graph handed them out.
    pub closed spec fn index(self) -> nat {
        self.0 as nat
    }

    /// Two handles with one index are one handle.
    pub proof fn lemma_index_identifies(self, other: Id)
        ensures
            self.index() == other.index() <==> self == other,
    {
    }

    fn next(&mut self) -> (id: Id)
        requires
            old(self).index() < usize::MAX,
        ensures
            id.index() == old(self).index() + 1,
            *final(self) == id,
    {
        self.0 += 1;
        *self
    }
}

/// Handles are vertices of the kind the traversers ask for, if they can key a
/// hash table: `==` and `clone` do with handles what they do with their indices.
pub proof fn lemma_handles_are_vertices()
    requires
        vstd::std_specs::hash::obeys_key_model::<Id>(),
    ensures
        crate::vertex::vertex_laws::<Id>(),
{
    reveal(vstd::laws_eq::obeys_concrete_eq);
}

/// An entry of an adjacency list: the vertex at the other end, and the edge.
pub type Hop = (Id, Id);

/// How often `edge` occurs in an adjacency list.
pub open spec fn mentions(list: Seq<Hop>, edge: Id) -> nat
    decreases list.len(),
{
    if list.len() == 0 {
        0
    } else {
        mentions(list.drop_last(), edge) + if list.last().1 == edge {
            1nat
        } else {
            0nat
        }
    }
}

/// An adjacency list without the entries of the edges in `gone`.
pub open spec fn purge(list: Seq<Hop>, gone: Set<Id>) -> Seq<Hop>
    decreases list.len(),
{
    if list.len() == 0 {
        list
    } else if gone.contains(list.last().1) {
        purge(list.drop_last(), gone)
    } else {
        purge(list.drop_last(), gone).push(list.last())
    }
}

/// Counting and purging, one entry further.
pub proof fn lemma_list_push(list: Seq<Hop>, hop: Hop, edge: Id, gone: Set<Id>)
    ensures
        mentions(list.push(hop), edge) == mentions(list, edge) + if hop.1 == edge {
            1nat
        } else {
            0nat
        },
        purge(list.push(hop), gone) == if gone.contains(hop.1) {
            purge(list, gone)
        } else {
            purge(list, gone).push(hop)
        },
{
    assert(list.push(hop).drop_last() =~= list);
}

/// A list mentions an edge exactly if one of its entries holds it.
pub proof fn lemma_mentions_some(list: Seq<Hop>, edge: Id)
    ensures
        mentions(list, edge) > 0 <==> exists|hop: Hop| #[trigger] list.contains(hop) && hop.1 == edge,
    decreases list.len(),
{
    if list.len() > 0 {
        let front = list.drop_last();
        lemma_mentions_some(front, edge);
        if mentions(list, edge) > 0 {
            if list.last().1 == edge {
                crate::lists::lemma_contains_last(list, list.last());
            } else {
                let hop = choose|hop: Hop| #[trigger] front.contains(hop) && hop.1 == edge;
                crate::lists::lemma_contains_last(list, hop);
            }
        }
        if exists|hop: Hop| #[trigger] list.contains(hop) && hop.1 == edge {
            let hop = choose|hop: Hop| #[trigger] list.contains(hop) && hop.1 == edge;
            crate::lists::lemma_contains_last(list, hop);
        }
    }
}

/// The purged list holds the entries of the list whose edges stay.
pub proof fn lemma_purge_holds(list: Seq<Hop>, gone: Set<Id>)
    ensures
        forall|hop: Hop| #[trigger]
            purge(list, gone).contains(hop) <==> list.contains(hop) && !gone.contains(hop.1),
    decreases list.len(),
{
    if list.len() > 0 {
        let front = list.drop_last();
        let last = list.last();
        let kept = purge(front, gone);
        lemma_purge_holds(front, gone);
        assert forall|hop: Hop| #[trigger]
            purge(list, gone).contains(hop) <==> list.contains(hop) && !gone.contains(
                hop.1,
            ) by {
            crate::lists::lemma_contains_last(list, hop);
            if !gone.contains(last.1) {
                assert(kept.push(last).drop_last() =~= kept);
                crate::lists::lemma_contains_last(kept.push(last), hop);
            }
        }
    } else {
        assert forall|hop: Hop| #[trigger]
            purge(list, gone).contains(hop) <==> list.contains(hop) && !gone.contains(
                hop.1,
            ) by {
        }
    }
}

/// The purged list mentions the edges that stay as often as the list did, and
/// the others not at all.
pub proof fn lemma_purge_mentions(list: Seq<Hop>, gone: Set<Id>, edge: Id)
    ensures
        mentions(purge(list, gone), edge) == if gone.contains(edge) {
            0nat
        } else {
            mentions(list, edge)
        },
    decreases list.len(),
{
    if list.len() > 0 {
        let front = list.drop_last();
        lemma_purge_mentions(front, gone, edge);
        if !gone.contains(list.last().1) {
            lemma_list_push(purge(front, gone), list.last(), edge, gone);
        }
    }
}

/// Purging changes nothing in a list that mentions none of the edges.
pub proof fn lemma_purge_nothing(list: Seq<Hop>, gone: Set<Id>)
    requires
        forall|hop: Hop| #[trigger] list.contains(hop) ==> !gone.contains(hop.1),
    ensures
        purge(list, gone) == list,
    decreases list.len(),
{
    if list.len() > 0 {
        let front = list.drop_last();
        assert forall|hop: Hop| #[trigger] front.contains(hop) implies !gone.contains(hop.1) by {
            crate::lists::lemma_contains_last(list, hop);
        }
        lemma_purge_nothing(front, gone);
        crate::lists::lemma_contains_last(list, list.last());
        assert(front.push(list.last()) =~= list);
    }
}

/// Purging in two rounds is purging both sets at once.
pub proof fn lemma_purge_twice(list: Seq<Hop>, first: Set<Id>, second: Set<Id>)
    ensures
        purge(purge(list, first), second) == purge(list, first.union(second)),
    decreases list.len(),
{
    if list.len() > 0 {
        let front = list.drop_last();
        lemma_purge_twice(front, first, second);
        if !first.contains(list.last().1) {
            lemma_list_push(purge(front, first), list.last(), list.last().1, second);
        }
    }
}

/// Taking out one entry of an edge takes one from the count of that edge, and
/// leaves what a purge of that edge gives.
pub proof fn lemma_list_remove(list: Seq<Hop>, at: int, edge: Id)
    requires
        0 <= at < list.len(),
    ensures
        mentions(list.remove(at), edge) + (if list[at].1 == edge {
            1nat
        } else {
            0nat
        }) == mentions(list, edge),
        purge(list.remove(at), set![list[at].1]) == purge(list, set![list[at].1]),
    decreases list.len(),
{
    let gone = set![list[at].1];
    if at == list.len() - 1 {
        assert(list.remove(at) =~= list.drop_last());
    } else {
        let front = list.drop_last();
        lemma_list_remove(front, at, edge);
        assert(list.remove(at) =~= front.remove(at).push(list.last()));
        lemma_list_push(front.remove(at), list.last(), edge, gone);
    }
}

/// What a [`FiniteGraph`] holds.
pub struct GraphView<V, E> {
    /// The value of each live vertex.
    pub vertices: Map<Id, V>,
    /// The value, source and destination of each live edge.
    pub edges: Map<Id, (E, Id, Id)>,
    /// For each live vertex, the edges that leave it, oldest first.
    pub forward: Map<Id, Seq<Hop>>,
    /// For each live vertex, the edges that reach it, oldest first.
    pub backward: Map<Id, Seq<Hop>>,
    /// The number of handles handed out so far.
    pub issued: nat,
}

impl<V, E> GraphView<V, E> {
    /// The graph without vertices and edges that has handed out no handle.
    pub open spec fn empty() -> Self {
        GraphView {
            vertices: Map::empty(),
            edges: Map::empty(),
            forward: Map::empty(),
            backward: Map::empty(),
            issued: 0,
        }
    }

    /// Whether `edge` is live and joins `a` and `b`, in one direction or the other.
    pub open spec fn joins(self, edge: Id, a: Id, b: Id) -> bool {
        &&& self.edges.contains_key(edge)
        &&& (self.edges[edge].1 == a && self.edges[edge].2 == b) || (self.edges[edge].1 == b
            && self.edges[edge].2 == a)
    }

    /// How many ends of `edge` lie at `vertex`.
    pub open spec fn ends_at(self, edge: Id, vertex: Id) -> nat {
        (if self.edges[edge].1 == vertex {
            1nat
        } else {
            0nat
        }) + (if self.edges[edge].2 == vertex {
            1nat
        } else {
            0nat
        })
    }

    /// The edges that start or end at `vertex`.
    pub open spec fn incident(self, vertex: Id) -> Set<Id> {
        Set::new(
            |edge: Id|
                self.edges.contains_key(edge) && (self.edges[edge].1 == vertex
                    || self.edges[edge].2 == vertex),
        )
    }

    /// The invariant of the store, but for the vertices in `leaving`, which are
    /// gone while edges may still name them.
    pub open spec fn sound(self, leaving: Set<Id>) -> bool {
        &&& self.vertices.dom().finite()
        &&& self.edges.dom().finite()
        &&& self.forward.dom() == self.vertices.dom()
        &&& self.backward.dom() == self.vertices.dom()
        &&& forall|id: Id| #[trigger]
            self.vertices.contains_key(id) ==> 1 <= id.index() <= self.issued
                && !self.edges.contains_key(id)
        &&& forall|id: Id| #[trigger]
            self.edges.contains_key(id) ==> {
                &&& 1 <= id.index() <= self.issued
                &&& self.vertices.contains_key(self.edges[id].1) || leaving.contains(
                    self.edges[id].1,
                )
                &&& self.vertices.contains_key(self.edges[id].2) || leaving.contains(
                    self.edges[id].2,
                )
                &&& self.vertices.contains_key(self.edges[id].1) ==> self.forward[self.edges[id].1].contains(
                (self.edges[id].2, id))
                &&& self.vertices.contains_key(self.edges[id].2) ==> self.backward[self.edges[id].2].contains(
                (self.edges[id].1, id))
            }
        &&& forall|at: Id, hop: Hop|
            self.vertices.contains_key(at) && #[trigger] self.forward[at].contains(hop)
                ==> self.joins(hop.1, at, hop.0)
        &&& forall|at: Id, hop: Hop|
            self.vertices.contains_key(at) && #[trigger] self.backward[at].contains(hop)
                ==> self.joins(hop.1, at, hop.0)
        &&& forall|at: Id, edge: Id|
            self.vertices.contains_key(at) && self.edges.contains_key(edge) ==> #[trigger] mentions(
                self.forward[at],
                edge,
            ) <= self.ends_at(edge, at)
        &&& forall|at: Id, edge: Id|
            self.vertices.contains_key(at) && self.edges.contains_key(edge) ==> #[trigger] mentions(
                self.backward[at],
                edge,
            ) <= self.ends_at(edge, at)
        &&& forall|from: Id, to: Id, edge: Id|
            #![trigger self.forward[from].contains((to, edge))]
            #![trigger self.backward[to].contains((from, edge))]
            self.vertices.contains_key(from) && self.vertices.contains_key(to) ==> (
            self.forward[from].contains((to, edge)) <==> self.backward[to].contains((from, edge)))
    }

    /// The invariant of the store: handles are in the range handed out, and one
    /// handle names a vertex or an edge, not both; the ends of every edge are
    /// live vertices; every entry of an adjacency list names a live edge between
    /// the list's vertex and the entry's vertex; every edge is entered with its
    /// source and with its destination, and in no list more often than it has
    /// ends there; and an edge is entered as leaving one vertex for another
    /// exactly if it is entered as reaching the other from the one.
    pub open spec fn well_formed(self) -> bool {
        self.sound(Set::empty())
    }

    /// The graph after a vertex has been added under the next handle.
    pub open spec fn with_vertex(self, id: Id, value: V) -> Self {
        GraphView {
            vertices: self.vertices.insert(id, value),
            forward: self.forward.insert(id, Seq::empty()),
            backward: self.backward.insert(id, Seq::empty()),
            issued: self.issued + 1,
            ..self
        }
    }

    /// The graph after `edge` has been entered as leaving `from` and reaching `to`.
    pub open spec fn linked(self, edge: Id, from: Id, to: Id) -> Self {
        let forward = self.forward.insert(from, self.forward[from].push((to, edge)));
        GraphView {
            forward,
            backward: self.backward.insert(to, self.backward[to].push((from, edge))),
            ..self
        }
    }

    /// The graph after an edge from `from` to `to` has been added under the next
    /// handle.
    pub open spec fn with_edge(self, id: Id, from: Id, to: Id, value: E) -> Self {
        GraphView {
            edges: self.edges.insert(id, (value, from, to)),
            issued: self.issued + 1,
            ..self
        }.linked(id, from, to)
    }

    /// The graph after an edge from `from` to `to` has been added under the next
    /// handle and entered in both directions.
    pub open spec fn with_bi_edge(self, id: Id, from: Id, to: Id, value: E) -> Self {
        self.with_edge(id, from, to, value).linked(id, to, from)
    }

    /// The graph without the edges in `gone`.
    pub open spec fn without_edges(self, gone: Set<Id>) -> Self {
        GraphView {
            edges: self.edges.remove_keys(gone),
            forward: self.forward.map_values(|list: Seq<Hop>| purge(list, gone)),
            backward: self.backward.map_values(|list: Seq<Hop>| purge(list, gone)),
            ..self
        }
    }

    /// The graph without `edge`.
    pub open spec fn without_edge(self, edge: Id) -> Self {
        self.without_edges(set![edge])
    }

    /// The graph without `vertex` and the edges that start or end there.
    pub open spec fn without_vertex(self, vertex: Id) -> Self {
        let rest = self.without_edges(self.incident(vertex));
        GraphView {
            vertices: rest.vertices.remove(vertex),
            forward: rest.forward.remove(vertex),
            backward: rest.backward.remove(vertex),
            ..rest
        }
    }
}

impl<V, E> GraphView<V, E> {
    /// An edge that is not live has no entry, so taking it out changes nothing.
    pub proof fn lemma_without_absent_edge(self, edge: Id, leaving: Set<Id>)
        requires
            self.sound(leaving),
            !self.edges.contains_key(edge),
        ensures
            self.without_edge(edge) == self,
    {
        let gone = set![edge];
        let rest = self.without_edge(edge);
        assert(rest.edges =~= self.edges);
        assert forall|at: Id| self.vertices.contains_key(at) implies purge(self.forward[at], gone)
            == self.forward[at] && purge(self.backward[at], gone) == self.backward[at] by {
            lemma_purge_nothing(self.forward[at], gone);
            lemma_purge_nothing(self.backward[at], gone);
        }
        assert(rest.forward =~= self.forward);
        assert(rest.backward =~= self.backward);
    }

    /// Taking out no edge changes nothing.
    pub proof fn lemma_without_no_edges(self)
        requires
            self.forward.dom() == self.vertices.dom(),
            self.backward.dom() == self.vertices.dom(),
        ensures
            self.without_edges(Set::empty()) == self,
    {
        let rest = self.without_edges(Set::empty());
        assert(rest.edges =~= self.edges);
        assert forall|at: Id| self.vertices.contains_key(at) implies purge(
            self.forward[at],
            Set::empty(),
        ) == self.forward[at] && purge(self.backward[at], Set::empty()) == self.backward[at] by {
            lemma_purge_nothing(self.forward[at], Set::empty());
            lemma_purge_nothing(self.backward[at], Set::empty());
        }
        assert(rest.forward =~= self.forward);
        assert(rest.backward =~= self.backward);
    }

    /// Taking out edges in two rounds is taking out both sets at once.
    pub proof fn lemma_without_edges_twice(self, first: Set<Id>, second: Set<Id>)
        ensures
            self.without_edges(first).without_edges(second) == self.without_edges(
                first.union(second),
            ),
    {
        let twice = self.without_edges(first).without_edges(second);
        let once = self.without_edges(first.union(second));
        assert(twice.edges =~= once.edges);
        assert forall|at: Id| self.forward.contains_key(at) implies #[trigger] twice.forward[at]
            == once.forward[at] by {
            lemma_purge_twice(self.forward[at], first, second);
        }
        assert forall|at: Id| self.backward.contains_key(at) implies #[trigger] twice.backward[at]
            == once.backward[at] by {
            lemma_purge_twice(self.backward[at], first, second);
        }
        assert(twice.forward =~= once.forward);
        assert(twice.backward =~= once.backward);
    }

    /// Taking out edges keeps the invariant.
    pub proof fn lemma_without_edges_sound(self, gone: Set<Id>, leaving: Set<Id>)
        requires
            self.sound(leaving),
        ensures
            self.without_edges(gone).sound(leaving),
    {
        let rest = self.without_edges(gone);
        assert(rest.edges.dom() =~= self.edges.dom().difference(gone));
        assert(rest.forward.dom() =~= self.forward.dom());
        assert(rest.backward.dom() =~= self.backward.dom());
        assert forall|at: Id, hop: Hop|
            rest.vertices.contains_key(at) && #[trigger] rest.forward[at].contains(
                hop,
            ) implies rest.joins(hop.1, at, hop.0) by {
            lemma_purge_holds(self.forward[at], gone);
        }
        assert forall|at: Id, hop: Hop|
            rest.vertices.contains_key(at) && #[trigger] rest.backward[at].contains(
                hop,
            ) implies rest.joins(hop.1, at, hop.0) by {
            lemma_purge_holds(self.backward[at], gone);
        }
        assert forall|at: Id, edge: Id|
            rest.vertices.contains_key(at) && rest.edges.contains_key(edge) implies #[trigger] mentions(
            rest.forward[at], edge) <= rest.ends_at(edge, at) by {
            lemma_purge_mentions(self.forward[at], gone, edge);
        }
        assert forall|at: Id, edge: Id|
            rest.vertices.contains_key(at) && rest.edges.contains_key(edge) implies #[trigger] mentions(
            rest.backward[at], edge) <= rest.ends_at(edge, at) by {
            lemma_purge_mentions(self.backward[at], gone, edge);
        }
        assert forall|from: Id, to: Id, edge: Id|
            #![trigger rest.forward[from].contains((to, edge))]
            #![trigger rest.backward[to].contains((from, edge))]
            rest.vertices.contains_key(from) && rest.vertices.contains_key(to) implies (
        rest.forward[from].contains((to, edge)) <==> rest.backward[to].contains((from, edge))) by {
            lemma_purge_holds(self.forward[from], gone);
            lemma_purge_holds(self.backward[to], gone);
            assert(self.forward[from].contains((to, edge)) <==> self.backward[to].contains(
                (from, edge),
            ));
        }
        assert forall|id: Id| #[trigger] rest.edges.contains_key(id) implies {
            &&& rest.vertices.contains_key(rest.edges[id].1) ==> rest.forward[rest.edges[id].1].contains(
            (rest.edges[id].2, id))
            &&& rest.vertices.contains_key(rest.edges[id].2) ==> rest.backward[rest.edges[id].2].contains(
            (rest.edges[id].1, id))
        } by {
            assert(self.edges.contains_key(id));
            if self.vertices.contains_key(self.edges[id].1) {
                lemma_purge_holds(self.forward[self.edges[id].1], gone);
            }
            if self.vertices.contains_key(self.edges[id].2) {
                lemma_purge_holds(self.backward[self.edges[id].2], gone);
            }
        }
    }
}

impl<V, E> GraphView<V, E> {
    /// A new edge between live vertices keeps the invariant, and is entered once
    /// with its source and once with its destination.
    pub proof fn lemma_with_edge(self, id: Id, from: Id, to: Id, value: E)
        requires
            self.well_formed(),
            id.index() == self.issued + 1,
            self.vertices.contains_key(from),
            self.vertices.contains_key(to),
        ensures
            self.with_edge(id, from, to, value).well_formed(),
            forall|at: Id|
                self.vertices.contains_key(at) ==> mentions(
                    #[trigger] self.with_edge(id, from, to, value).forward[at],
                    id,
                ) == if at == from {
                    1nat
                } else {
                    0nat
                },
            forall|at: Id|
                self.vertices.contains_key(at) ==> mentions(
                    #[trigger] self.with_edge(id, from, to, value).backward[at],
                    id,
                ) == if at == to {
                    1nat
                } else {
                    0nat
                },
    {
        let next = self.with_edge(id, from, to, value);
        assert(!self.edges.contains_key(id));
        assert(!self.vertices.contains_key(id));
        assert(next.forward.dom() =~= self.forward.dom());
        assert(next.backward.dom() =~= self.backward.dom());
        assert forall|at: Id| self.vertices.contains_key(at) implies mentions(
            self.forward[at],
            id,
        ) == 0 && mentions(self.backward[at], id) == 0 by {
            lemma_mentions_some(self.forward[at], id);
            lemma_mentions_some(self.backward[at], id);
        }
        assert forall|at: Id, edge: Id| self.vertices.contains_key(at) implies #[trigger] mentions(
            next.forward[at],
            edge,
        ) == mentions(self.forward[at], edge) + if at == from && edge == id {
            1nat
        } else {
            0nat
        } by {
            lemma_list_push(self.forward[from], (to, id), edge, Set::empty());
        }
        assert forall|at: Id, edge: Id| self.vertices.contains_key(at) implies #[trigger] mentions(
            next.backward[at],
            edge,
        ) == mentions(self.backward[at], edge) + if at == to && edge == id {
            1nat
        } else {
            0nat
        } by {
            lemma_list_push(self.backward[to], (from, id), edge, Set::empty());
        }
        assert forall|at: Id, hop: Hop|
            next.vertices.contains_key(at) && #[trigger] next.forward[at].contains(
                hop,
            ) implies next.joins(hop.1, at, hop.0) by {
            crate::lists::lemma_push_contains(self.forward[from], (to, id), hop);
            if at != from || hop != (to, id) {
                assert(self.forward[at].contains(hop));
            }
        }
        assert forall|at: Id, hop: Hop|
            next.vertices.contains_key(at) && #[trigger] next.backward[at].contains(
                hop,
            ) implies next.joins(hop.1, at, hop.0) by {
            crate::lists::lemma_push_contains(self.backward[to], (from, id), hop);
            if at != to || hop != (from, id) {
                assert(self.backward[at].contains(hop));
            }
        }
        assert forall|a: Id, b: Id, edge: Id|
            #![trigger next.forward[a].contains((b, edge))]
            #![trigger next.backward[b].contains((a, edge))]
            next.vertices.contains_key(a) && next.vertices.contains_key(b) implies (
        next.forward[a].contains((b, edge)) <==> next.backward[b].contains((a, edge))) by {
            crate::lists::lemma_push_contains(self.forward[from], (to, id), (b, edge));
            crate::lists::lemma_push_contains(self.backward[to], (from, id), (a, edge));
            assert(self.forward[a].contains((b, edge)) <==> self.backward[b].contains((a, edge)));
        }
        assert forall|edge: Id| #[trigger] next.edges.contains_key(edge) implies {
            &&& next.forward[next.edges[edge].1].contains((next.edges[edge].2, edge))
            &&& next.backward[next.edges[edge].2].contains((next.edges[edge].1, edge))
        } by {
            let source = next.edges[edge].1;
            let target = next.edges[edge].2;
            crate::lists::lemma_push_contains(self.forward[from], (to, id), (target, edge));
            crate::lists::lemma_push_contains(self.backward[to], (from, id), (source, edge));
            if edge != id {
                assert(self.edges.contains_key(edge));
            }
        }
    }

    /// Entering a live edge a second time, against its direction, keeps the
    /// invariant where its lists have room for the entries.
    pub proof fn lemma_mirrored(self, id: Id, from: Id, to: Id)
        requires
            self.well_formed(),
            self.edges.contains_key(id),
            self.edges[id].1 == from,
            self.edges[id].2 == to,
            mentions(self.forward[to], id) + 1 <= self.ends_at(id, to),
            mentions(self.backward[from], id) + 1 <= self.ends_at(id, from),
        ensures
            self.linked(id, to, from).well_formed(),
    {
        let next = self.linked(id, to, from);
        assert(self.vertices.contains_key(from));
        assert(self.vertices.contains_key(to));
        assert(next.forward.dom() =~= self.forward.dom());
        assert(next.backward.dom() =~= self.backward.dom());
        assert forall|at: Id, edge: Id| self.vertices.contains_key(at) implies #[trigger] mentions(
            next.forward[at],
            edge,
        ) == mentions(self.forward[at], edge) + if at == to && edge == id {
            1nat
        } else {
            0nat
        } by {
            lemma_list_push(self.forward[to], (from, id), edge, Set::empty());
        }
        assert forall|at: Id, edge: Id| self.vertices.contains_key(at) implies #[trigger] mentions(
            next.backward[at],
            edge,
        ) == mentions(self.backward[at], edge) + if at == from && edge == id {
            1nat
        } else {
            0nat
        } by {
            lemma_list_push(self.backward[from], (to, id), edge, Set::empty());
        }
        assert forall|at: Id, hop: Hop|
            next.vertices.contains_key(at) && #[trigger] next.forward[at].contains(
                hop,
            ) implies next.joins(hop.1, at, hop.0) by {
            crate::lists::lemma_push_contains(self.forward[to], (from, id), hop);
            if at != to || hop != (from, id) {
                assert(self.forward[at].contains(hop));
            }
        }
        assert forall|at: Id, hop: Hop|
            next.vertices.contains_key(at) && #[trigger] next.backward[at].contains(
                hop,
            ) implies next.joins(hop.1, at, hop.0) by {
            crate::lists::lemma_push_contains(self.backward[from], (to, id), hop);
            if at != from || hop != (to, id) {
                assert(self.backward[at].contains(hop));
            }
        }
        assert forall|a: Id, b: Id, edge: Id|
            #![trigger next.forward[a].contains((b, edge))]
            #![trigger next.backward[b].contains((a, edge))]
            next.vertices.contains_key(a) && next.vertices.contains_key(b) implies (
        next.forward[a].contains((b, edge)) <==> next.backward[b].contains((a, edge))) by {
            crate::lists::lemma_push_contains(self.forward[to], (from, id), (b, edge));
            crate::lists::lemma_push_contains(self.backward[from], (to, id), (a, edge));
            assert(self.forward[a].contains((b, edge)) <==> self.backward[b].contains((a, edge)));
        }
        assert forall|edge: Id| #[trigger] next.edges.contains_key(edge) implies {
            &&& next.forward[next.edges[edge].1].contains((next.edges[edge].2, edge))
            &&& next.backward[next.edges[edge].2].contains((next.edges[edge].1, edge))
        } by {
            let source = next.edges[edge].1;
            let target = next.edges[edge].2;
            assert(self.edges.contains_key(edge));
            crate::lists::lemma_push_contains(self.forward[to], (from, id), (target, edge));
            crate::lists::lemma_push_contains(self.backward[from], (to, id), (source, edge));
        }
    }
}

/// The place of the first entry of `edge` in an adjacency list.
fn position(list: &Vec<Hop>, edge: Id) -> (found: Option<usize>)
    ensures
        match found {
            Some(at) => at < list.len() && list[at as int].1 == edge && forall|i: int|
                0 <= i < at ==> list[i].1 != edge,
            None => forall|i: int| 0 <= i < list.len() ==> list[i].1 != edge,
        },
{
    let mut at: usize = 0;
    while at < list.len()
        invariant
            at <= list.len(),
            forall|i: int| 0 <= i < at ==> list[i].1 != edge,
        decreases list.len() - at,
    {
        if list[at].1 == edge {
            return Some(at);
        }
        at += 1;
    }
    None
}

/// Takes the first entry of `edge` out of the adjacency list of `vertex`, where
/// the vertex has a list and the list has such an entry.
fn detach(map: &mut HashMap<usize, Vec<Hop>>, vertex: Id, edge: Id)
    ensures
        final(map)@.dom() == old(map)@.dom(),
        forall|key: usize| key != vertex.0 ==> listed(final(map)@, key) == listed(old(map)@, key),
        purge(listed(final(map)@, vertex.0), set![edge]) == purge(
            listed(old(map)@, vertex.0),
            set![edge],
        ),
        forall|other: Id|
            other != edge ==> mentions(listed(final(map)@, vertex.0), other) == mentions(
                listed(old(map)@, vertex.0),
                other,
            ),
        mentions(listed(old(map)@, vertex.0), edge) > 0 ==> mentions(
            listed(final(map)@, vertex.0),
            edge,
        ) == mentions(listed(old(map)@, vertex.0), edge) - 1,
        mentions(listed(old(map)@, vertex.0), edge) == 0 ==> listed(final(map)@, vertex.0)
            == listed(old(map)@, vertex.0),
{
    broadcast use vstd::std_specs::hash::group_hash_axioms;

    let ghost before = listed(map@, vertex.0);
    match map.entry(vertex.0) {
        Entry::Occupied(occupied) => {
            let list = occupied.into_mut();
            match position(list, edge) {
                Some(at) => {
                    proof {
                        lemma_list_remove(before, at as int, edge);
                        assert forall|other: Id| other != edge implies mentions(
                            before.remove(at as int),
                            other,
                        ) == mentions(before, other) by {
                            lemma_list_remove(before, at as int, other);
                        }
                        lemma_mentions_some(before, edge);
                        assert(before.contains(before[at as int]));
                    }
                    list.remove(at);
                },
                None => {
                    proof {
                        lemma_mentions_some(before, edge);
                    }
                },
            }
        },
        Entry::Vacant(_) => {
            proof {
                assert(old(map)@.remove(vertex.0) =~= old(map)@);
            }
        },
    }
    proof {
        assert(final(map)@.dom() =~= old(map)@.dom());
    }
}

/// A directed multigraph over owned storage: vertices and edges carry values and
/// are named by the handles that the graph hands out.
#[derive(Clone)]
pub struct FiniteGraph<V, E> {
    id: Id,
    vertices_map: HashMap<usize, V>,
    edges_map: HashMap<usize, (E, Id, Id)>,
    neighbors_map: HashMap<usize, Vec<Hop>>,
    reverse_neighbors_map: HashMap<usize, Vec<Hop>>,
}

/// The adjacency list that `map` holds for `key`; empty where it holds none.
pub open spec fn listed(map: Map<usize, Vec<Hop>>, key: usize) -> Seq<Hop> {
    if map.contains_key(key) {
        map[key]@
    } else {
        Seq::empty()
    }
}

impl<V, E> View for FiniteGraph<V, E> {
    type V = GraphView<V, E>;

    closed spec fn view(&self) -> GraphView<V, E> {
        GraphView {
            vertices: Map::new(
                |id: Id| self.vertices_map@.contains_key(id.0),
                |id: Id| self.vertices_map@[id.0],
            ),
            edges: Map::new(
                |id: Id| self.edges_map@.contains_key(id.0),
                |id: Id| self.edges_map@[id.0],
            ),
            forward: Map::new(
                |id: Id| self.vertices_map@.contains_key(id.0),
                |id: Id| listed(self.neighbors_map@, id.0),
            ),
            backward: Map::new(
                |id: Id| self.vertices_map@.contains_key(id.0),
                |id: Id| listed(self.reverse_neighbors_map@, id.0),
            ),
            issued: self.id.0 as nat,
        }
    }
}

impl<V, E> FiniteGraph<V, E> {
    /// Whether only live vertices have adjacency lists.
    spec fn tidy(&self) -> bool {
        &&& self.neighbors_map@.dom().subset_of(self.vertices_map@.dom())
        &&& self.reverse_neighbors_map@.dom().subset_of(self.vertices_map@.dom())
    }

    /// The invariant of the store.
    pub closed spec fn wf(&self) -> bool {
        &&& self.tidy()
        &&& self@.well_formed()
    }

    /// What the invariant says of the vertices, edges and adjacency lists.
    pub proof fn lemma_wf(&self)
        requires
            self.wf(),
        ensures
            self@.well_formed(),
    {
    }

    /// The vertices and the edges are as many as the tables hold.
    proof fn lemma_count(&self)
        ensures
            self@.vertices.dom().finite(),
            self@.edges.dom().finite(),
            self@.vertices.len() == self.vertices_map@.len(),
            self@.edges.len() == self.edges_map@.len(),
    {
        broadcast use vstd::std_specs::hash::group_hash_axioms;

        let wrap = |key: usize| Id(key);
        assert(self.vertices_map@.dom().map(wrap) =~= self@.vertices.dom()) by {
            assert forall|id: Id| self@.vertices.dom().contains(id) implies self.vertices_map@.dom().map(
                wrap,
            ).contains(id) by {
                assert(self.vertices_map@.dom().contains(id.0) && wrap(id.0) == id);
            }
        }
        assert(self.edges_map@.dom().map(wrap) =~= self@.edges.dom()) by {
            assert forall|id: Id| self@.edges.dom().contains(id) implies self.edges_map@.dom().map(
                wrap,
            ).contains(id) by {
                assert(self.edges_map@.dom().contains(id.0) && wrap(id.0) == id);
            }
        }
        vstd::set_lib::lemma_map_size(self.vertices_map@.dom(), self@.vertices.dom(), wrap);
        vstd::set_lib::lemma_map_size(self.edges_map@.dom(), self@.edges.dom(), wrap);
    }

    /// Whether the two graphs hold the same but for the values of their
    /// vertices.
    spec fn same_but_vertices(&self, other: Self) -> bool {
        &&& self.id == other.id
        &&& self.edges_map == other.edges_map
        &&& self.neighbors_map == other.neighbors_map
        &&& self.reverse_neighbors_map == other.reverse_neighbors_map
    }

    /// Whether the two graphs hold the same but for the values of their edges.
    spec fn same_but_edges(&self, other: Self) -> bool {
        &&& self.id == other.id
        &&& self.vertices_map == other.vertices_map
        &&& self.neighbors_map == other.neighbors_map
        &&& self.reverse_neighbors_map == other.reverse_neighbors_map
    }

    /// A new value for a vertex changes nothing else, and keeps the invariant.
    proof fn lemma_vertex_written(&self, after: Self, vertex: Id, value: V)
        requires
            self.same_but_vertices(after),
            self.vertices_map@.contains_key(vertex.0),
            after.vertices_map@ == self.vertices_map@.insert(vertex.0, value),
        ensures
            after@ == (GraphView { vertices: self@.vertices.insert(vertex, value), ..self@ }),
            self.wf() ==> after.wf(),
    {
        let expected = GraphView { vertices: self@.vertices.insert(vertex, value), ..self@ };
        assert(after@.vertices =~= expected.vertices);
        assert(after@.edges =~= expected.edges);
        assert(after@.forward =~= expected.forward);
        assert(after@.backward =~= expected.backward);
        assert(after@.vertices.dom() =~= self@.vertices.dom());
        assert(after.vertices_map@.dom() =~= self.vertices_map@.dom());
    }

    /// A new value for an edge changes nothing else, and keeps the invariant.
    proof fn lemma_edge_written(&self, after: Self, edge: Id, value: E)
        requires
            self.same_but_edges(after),
            self.edges_map@.contains_key(edge.0),
            after.edges_map@ == self.edges_map@.insert(
                edge.0,
                (value, self.edges_map@[edge.0].1, self.edges_map@[edge.0].2),
            ),
        ensures
            after@ == (GraphView {
                edges: self@.edges.insert(
                    edge,
                    (value, self@.edges[edge].1, self@.edges[edge].2),
                ),
                ..self@
            }),
            self.wf() ==> after.wf(),
    {
        let expected = GraphView {
            edges: self@.edges.insert(edge, (value, self@.edges[edge].1, self@.edges[edge].2)),
            ..self@
        };
        assert(after@.vertices =~= expected.vertices);
        assert(after@.edges =~= expected.edges);
        assert(after@.forward =~= expected.forward);
        assert(after@.backward =~= expected.backward);
        assert(after@.edges.dom() =~= self@.edges.dom());
        if self.wf() {
            assert forall|id: Id| #[trigger] after@.edges.contains_key(id) implies self@.edges.contains_key(
                id,
            ) && after@.edges[id].1 == self@.edges[id].1 && after@.edges[id].2
                == self@.edges[id].2 by {}
            assert forall|at: Id, hop: Hop|
                after@.vertices.contains_key(at) && #[trigger] after@.forward[at].contains(
                    hop,
                ) implies after@.joins(hop.1, at, hop.0) by {
                assert(self@.joins(hop.1, at, hop.0));
            }
            assert forall|at: Id, hop: Hop|
                after@.vertices.contains_key(at) && #[trigger] after@.backward[at].contains(
                    hop,
                ) implies after@.joins(hop.1, at, hop.0) by {
                assert(self@.joins(hop.1, at, hop.0));
            }
            assert forall|at: Id, e: Id|
                after@.vertices.contains_key(at) && after@.edges.contains_key(
                    e,
                ) implies #[trigger] mentions(after@.forward[at], e) <= after@.ends_at(e, at) by {
                assert(mentions(self@.forward[at], e) <= self@.ends_at(e, at));
            }
            assert forall|at: Id, e: Id|
                after@.vertices.contains_key(at) && after@.edges.contains_key(
                    e,
                ) implies #[trigger] mentions(after@.backward[at], e) <= after@.ends_at(e, at) by {
                assert(mentions(self@.backward[at], e) <= self@.ends_at(e, at));
            }
        }
    }

    /// New values for the vertices change nothing else, and keep the invariant.
    proof fn lemma_vertices_written(&self, after: Self)
        requires
            self.same_but_vertices(after),
            after.vertices_map@.dom() == self.vertices_map@.dom(),
        ensures
            after@.vertices.dom() == self@.vertices.dom(),
            after@.edges == self@.edges,
            after@.forward == self@.forward,
            after@.backward == self@.backward,
            after@.issued == self@.issued,
            self.wf() ==> after.wf(),
    {
        assert(after@.vertices.dom() =~= self@.vertices.dom());
        assert(after@.edges =~= self@.edges);
        assert(after@.forward =~= self@.forward);
        assert(after@.backward =~= self@.backward);
    }

    /// New values for the edges change nothing else, and keep the invariant.
    proof fn lemma_edges_written(&self, after: Self)
        requires
            self.same_but_edges(after),
            after.edges_map@.dom() == self.edges_map@.dom(),
            forall|key: usize| #[trigger]
                self.edges_map@.contains_key(key) ==> after.edges_map@[key].1
                    == self.edges_map@[key].1 && after.edges_map@[key].2
                    == self.edges_map@[key].2,
        ensures
            after@.vertices == self@.vertices,
            after@.edges.dom() == self@.edges.dom(),
            forall|id: Id| #[trigger]
                self@.edges.contains_key(id) ==> after@.edges[id].1 == self@.edges[id].1
                    && after@.edges[id].2 == self@.edges[id].2,
            after@.forward == self@.forward,
            after@.backward == self@.backward,
            after@.issued == self@.issued,
            self.wf() ==> after.wf(),
    {
        assert(after@.vertices =~= self@.vertices);
        assert(after@.edges.dom() =~= self@.edges.dom());
        assert(after@.forward =~= self@.forward);
        assert(after@.backward =~= self@.backward);
        assert forall|id: Id| #[trigger] self@.edges.contains_key(id) implies after@.edges[id].1
            == self@.edges[id].1 && after@.edges[id].2 == self@.edges[id].2 by {
            assert(self.edges_map@.contains_key(id.0));
        }
        if self.wf() {
            assert forall|id: Id| #[trigger] after@.edges.contains_key(id) implies self@.edges.contains_key(
                id,
            ) by {}
            assert forall|at: Id, hop: Hop|
                after@.vertices.contains_key(at) && #[trigger] after@.forward[at].contains(
                    hop,
                ) implies after@.joins(hop.1, at, hop.0) by {
                assert(self@.joins(hop.1, at, hop.0));
            }
            assert forall|at: Id, hop: Hop|
                after@.vertices.contains_key(at) && #[trigger] after@.backward[at].contains(
                    hop,
                ) implies after@.joins(hop.1, at, hop.0) by {
                assert(self@.joins(hop.1, at, hop.0));
            }
            assert forall|at: Id, e: Id|
                after@.vertices.contains_key(at) && after@.edges.contains_key(
                    e,
                ) implies #[trigger] mentions(after@.forward[at], e) <= after@.ends_at(e, at) by {
                assert(self@.edges.contains_key(e));
                assert(mentions(self@.forward[at], e) <= self@.ends_at(e, at));
            }
            assert forall|at: Id, e: Id|
                after@.vertices.contains_key(at) && after@.edges.contains_key(
                    e,
                ) implies #[trigger] mentions(after@.backward[at], e) <= after@.ends_at(e, at) by {
                assert(self@.edges.contains_key(e));
                assert(mentions(self@.backward[at], e) <= self@.ends_at(e, at));
            }
        }
    }

    /// Constructs a new, empty `FiniteGraph<V, E>`.
    pub fn new() -> (graph: FiniteGraph<V, E>)
        ensures
            graph.wf(),
            graph@ == GraphView::<V, E>::empty(),
    {
        let graph = FiniteGraph {
            id: Id(0),
            vertices_map: HashMap::new(),
            edges_map: HashMap::new(),
            neighbors_map: HashMap::new(),
            reverse_neighbors_map: HashMap::new(),
        };
        proof {
            let view = graph@;
            let empty = GraphView::<V, E>::empty();
            assert(view.vertices =~= empty.vertices);
            assert(view.edges =~= empty.edges);
            assert(view.forward =~= empty.forward);
            assert(view.backward =~= empty.backward);
        }
        graph
    }

    /// Constructs a new, empty `FiniteGraph<V, E>` with the specified vertex/edge
    /// capacities.
    pub fn with_capacity(vertex_capacity: usize, edge_capacity: usize) -> (graph: FiniteGraph<
        V,
        E,
    >)
        ensures
            graph.wf(),
            graph@ == GraphView::<V, E>::empty(),
    {
        let graph = FiniteGraph {
            id: Id(0),
            vertices_map: HashMap::with_capacity(vertex_capacity),
            edges_map: HashMap::with_capacity(edge_capacity),
            neighbors_map: HashMap::with_capacity(vertex_capacity),
            reverse_neighbors_map: HashMap::with_capacity(vertex_capacity),
        };
        proof {
            let view = graph@;
            let empty = GraphView::<V, E>::empty();
            assert(view.vertices =~= empty.vertices);
            assert(view.edges =~= empty.edges);
            assert(view.forward =~= empty.forward);
            assert(view.backward =~= empty.backward);
        }
        graph
    }

    /// Returns `true` if the graph contains a value for the specified vertex.
    pub fn contains_vertex(&self, vertex: Id) -> (found: bool)
        ensures
            found == self@.vertices.contains_key(vertex),
    {
        self.vertices_map.contains_key(&vertex.0)
    }

    /// Returns `true` if the graph contains a value for the specified edge.
    pub fn contains_edge(&self, edge: Id) -> (found: bool)
        ensures
            found == self@.edges.contains_key(edge),
    {
        self.edges_map.contains_key(&edge.0)
    }

    /// Returns a reference to the value corresponding to the vertex.
    pub fn get_vertex(&self, vertex: Id) -> (value: Option<&V>)
        ensures
            match value {
                Some(value) => self@.vertices.contains_key(vertex) && *value
                    == self@.vertices[vertex],
                None => !self@.vertices.contains_key(vertex),
            },
    {
        self.vertices_map.get(&vertex.0)
    }

    /// Returns a reference to the value corresponding to the edge.
    pub fn get_edge(&self, edge: Id) -> (value: Option<&E>)
        ensures
            match value {
                Some(value) => self@.edges.contains_key(edge) && *value == self@.edges[edge].0,
                None => !self@.edges.contains_key(edge),
            },
    {
        match self.edges_map.get(&edge.0) {
            Some(record) => Some(&record.0),
            None => None,
        }
    }

    /// Adds a vertex with the given value and returns its handle.
    pub fn insert_vertex(&mut self, value: V) -> (id: Id)
        requires
            old(self).wf(),
            old(self)@.issued < usize::MAX,
        ensures
            final(self).wf(),
            id.index() == old(self)@.issued + 1,
            final(self)@ == old(self)@.with_vertex(id, value),
    {
        let id = self.id.next();
        self.vertices_map.insert(id.0, value);
        proof {
            let before = old(self)@;
            let after = self@;
            let expected = before.with_vertex(id, value);
            assert(!before.vertices.contains_key(id));
            assert(!old(self).neighbors_map@.contains_key(id.0));
            assert(!old(self).reverse_neighbors_map@.contains_key(id.0));
            assert(after.vertices =~= expected.vertices);
            assert(after.edges =~= expected.edges);
            assert(after.forward =~= expected.forward);
            assert(after.backward =~= expected.backward);
        }
        id
    }

    /// Enters `edge` with `from` as an edge that leaves it, and with `to` as one
    /// that reaches it.
    fn insert_edge_id(&mut self, from: Id, to: Id, edge: Id) -> (id: Option<Id>)
        requires
            old(self).tidy(),
            old(self)@.vertices.contains_key(from),
            old(self)@.vertices.contains_key(to),
        ensures
            final(self).tidy(),
            id == Some(edge),
            final(self)@ == old(self)@.linked(edge, from, to),
    {
        broadcast use vstd::std_specs::hash::group_hash_axioms;

        let neighbors = self.neighbors_map.entry(from.0).or_insert(Vec::new());
        neighbors.push((to, edge));
        let reverse_neighbors = self.reverse_neighbors_map.entry(to.0).or_insert(Vec::new());
        reverse_neighbors.push((from, edge));
        proof {
            let before = old(self)@;
            let after = self@;
            let expected = before.linked(edge, from, to);
            assert(after.vertices =~= expected.vertices);
            assert(after.edges =~= expected.edges);
            assert(after.forward =~= expected.forward);
            assert(after.backward =~= expected.backward);
        }
        Some(edge)
    }

    /// Adds an edge from `from` to `to` with the given value and returns its
    /// handle, or adds nothing and returns `None` where one of the two is not a
    /// vertex of the graph.
    pub fn insert_edge(&mut self, from: Id, to: Id, value: E) -> (id: Option<Id>)
        requires
            old(self).wf(),
            old(self)@.issued < usize::MAX,
        ensures
            final(self).wf(),
            match id {
                Some(id) => {
                    &&& old(self)@.vertices.contains_key(from)
                    &&& old(self)@.vertices.contains_key(to)
                    &&& id.index() == old(self)@.issued + 1
                    &&& final(self)@ == old(self)@.with_edge(id, from, to, value)
                },
                None => {
                    &&& !(old(self)@.vertices.contains_key(from) && old(self)@.vertices.contains_key(
                        to,
                    ))
                    &&& final(self)@ == old(self)@
                },
            },
    {
        if !self.vertices_map.contains_key(&from.0) || !self.vertices_map.contains_key(&to.0) {
            return None;
        }
        let id = self.id.next();
        self.edges_map.insert(id.0, (value, from, to));
        proof {
            let before = old(self)@;
            let between = self@;
            let expected = GraphView {
                edges: before.edges.insert(id, (value, from, to)),
                issued: before.issued + 1,
                ..before
            };
            assert(between.vertices =~= expected.vertices);
            assert(between.edges =~= expected.edges);
            assert(between.forward =~= expected.forward);
            assert(between.backward =~= expected.backward);
            before.lemma_with_edge(id, from, to, value);
        }
        self.insert_edge_id(from, to, id)
    }

    /// Adds one edge between `from` and `to` that can be traveled in both
    /// directions: it is recorded as leading from `from` to `to`, and entered
    /// with each of the two as leaving it and as reaching it. Adds nothing and
    /// returns `None` where one of the two is not a vertex of the graph.
    pub fn insert_bi_edge(&mut self, from: Id, to: Id, data: E) -> (id: Option<Id>)
        requires
            old(self).wf(),
            old(self)@.issued < usize::MAX,
        ensures
            final(self).wf(),
            match id {
                Some(id) => {
                    &&& old(self)@.vertices.contains_key(from)
                    &&& old(self)@.vertices.contains_key(to)
                    &&& id.index() == old(self)@.issued + 1
                    &&& final(self)@ == old(self)@.with_bi_edge(id, from, to, data)
                },
                None => {
                    &&& !(old(self)@.vertices.contains_key(from) && old(self)@.vertices.contains_key(
                        to,
                    ))
                    &&& final(self)@ == old(self)@
                },
            },
    {
        let edge = self.insert_edge(from, to, data);
        if let Some(id) = edge {
            proof {
                old(self)@.lemma_with_edge(id, from, to, data);
                self@.lemma_mirrored(id, from, to);
            }
            self.insert_edge_id(to, from, id);
        }
        edge
    }

    /// Removes the edge like `remove_edge`, also while the vertices in `leaving`
    /// are on their way out.
    fn unlink(&mut self, edge: Id, Ghost(leaving): Ghost<Set<Id>>) -> (value: Option<E>)
        requires
            old(self).tidy(),
            old(self)@.sound(leaving),
        ensures
            final(self).tidy(),
            final(self)@.sound(leaving),
            final(self)@ == old(self)@.without_edge(edge),
            match value {
                Some(value) => old(self)@.edges.contains_key(edge) && value
                    == old(self)@.edges[edge].0,
                None => !old(self)@.edges.contains_key(edge),
            },
    {
        broadcast use vstd::std_specs::hash::group_hash_axioms;

        let ghost before = self@;
        proof {
            before.lemma_without_edges_sound(set![edge], leaving);
        }
        match self.edges_map.remove(&edge.0) {
            None => {
                proof {
                    before.lemma_without_absent_edge(edge, leaving);
                    assert(self@.edges =~= before.edges);
                    assert(self@ == before);
                }
                None
            },
            Some((data, vertex, other)) => {
                let ghost forward = self.neighbors_map@;
                let ghost backward = self.reverse_neighbors_map@;
                detach(&mut self.neighbors_map, vertex, edge);
                detach(&mut self.reverse_neighbors_map, vertex, edge);
                detach(&mut self.neighbors_map, other, edge);
                detach(&mut self.reverse_neighbors_map, other, edge);
                proof {
                    let gone = set![edge];
                    let after = self@;
                    let expected = before.without_edge(edge);
                    assert(after.vertices =~= expected.vertices);
                    assert(after.edges =~= expected.edges);
                    assert forall|at: Id| before.vertices.contains_key(at) implies listed(
                        self.neighbors_map@,
                        at.0,
                    ) == purge(listed(forward, at.0), gone) by {
                        let start = listed(forward, at.0);
                        let end = listed(self.neighbors_map@, at.0);
                        assert(before.forward[at] == start);
                        assert(mentions(start, edge) <= before.ends_at(edge, at));
                        lemma_purge_mentions(end, gone, edge);
                        lemma_mentions_some(end, edge);
                        lemma_purge_nothing(end, gone);
                    }
                    assert forall|at: Id| before.vertices.contains_key(at) implies listed(
                        self.reverse_neighbors_map@,
                        at.0,
                    ) == purge(listed(backward, at.0), gone) by {
                        let start = listed(backward, at.0);
                        let end = listed(self.reverse_neighbors_map@, at.0);
                        assert(before.backward[at] == start);
                        assert(mentions(start, edge) <= before.ends_at(edge, at));
                        lemma_purge_mentions(end, gone, edge);
                        lemma_mentions_some(end, edge);
                        lemma_purge_nothing(end, gone);
                    }
                    assert(after.forward =~= expected.forward);
                    assert(after.backward =~= expected.backward);
                }
                Some(data)
            },
        }
    }

    /// Removes the edge and returns its value, or removes nothing and returns
    /// `None` where the graph has no such edge.
    pub fn remove_edge(&mut self, edge: Id) -> (value: Option<E>)
        requires
            old(self).wf(),
        ensures
            final(self).wf(),
            match value {
                Some(value) => {
                    &&& old(self)@.edges.contains_key(edge)
                    &&& value == old(self)@.edges[edge].0
                    &&& final(self)@ == old(self)@.without_edge(edge)
                },
                None => !old(self)@.edges.contains_key(edge) && final(self)@ == old(self)@,
            },
    {
        proof {
            if !self@.edges.contains_key(edge) {
                self@.lemma_without_absent_edge(edge, Set::empty());
            }
        }
        self.unlink(edge, Ghost(Set::empty()))
    }

    /// Removes the vertex and every edge that starts or ends there, and returns
    /// the vertex's value; removes nothing and returns `None` where the graph has
    /// no such vertex.
    pub fn remove_vertex(&mut self, vertex: Id) -> (value: Option<V>)
        requires
            old(self).wf(),
        ensures
            final(self).wf(),
            match value {
                Some(value) => {
                    &&& old(self)@.vertices.contains_key(vertex)
                    &&& value == old(self)@.vertices[vertex]
                    &&& final(self)@ == old(self)@.without_vertex(vertex)
                },
                None => !old(self)@.vertices.contains_key(vertex) && final(self)@ == old(self)@,
            },
    {
        broadcast use vstd::std_specs::hash::group_hash_axioms;

        let ghost before = self@;
        let ghost leaving = set![vertex];
        let result = self.vertices_map.remove(&vertex.0);
        let neighbors = match self.neighbors_map.remove(&vertex.0) {
            Some(list) => list,
            None => Vec::new(),
        };
        let reverse_neighbors = match self.reverse_neighbors_map.remove(&vertex.0) {
            Some(list) => list,
            None => Vec::new(),
        };
        let ghost bare = self@;
        let ghost mut done: Set<Id> = Set::empty();
        proof {
            assert(bare.vertices =~= before.vertices.remove(vertex));
            assert(bare.edges =~= before.edges);
            assert(bare.forward =~= before.forward.remove(vertex));
            assert(bare.backward =~= before.backward.remove(vertex));
            assert(bare.sound(leaving));
            bare.lemma_without_no_edges();
            if before.vertices.contains_key(vertex) {
                assert(neighbors@ == before.forward[vertex]);
                assert(reverse_neighbors@ == before.backward[vertex]);
            }
        }
        let mut i: usize = 0;
        while i < neighbors.len()
            invariant
                i <= neighbors.len(),
                self.tidy(),
                self@.sound(leaving),
                self@ == bare.without_edges(done),
                forall|edge: Id|
                    done.contains(edge) <==> exists|j: int|
                        0 <= j < i && (#[trigger] neighbors[j]).1 == edge,
            decreases neighbors.len() - i,
        {
            let edge = neighbors[i].1;
            self.unlink(edge, Ghost(leaving));
            proof {
                bare.lemma_without_edges_twice(done, set![edge]);
                assert(done.insert(edge) =~= done.union(set![edge]));
                done = done.insert(edge);
            }
            i += 1;
        }
        let mut k: usize = 0;
        while k < reverse_neighbors.len()
            invariant
                k <= reverse_neighbors.len(),
                self.tidy(),
                self@.sound(leaving),
                self@ == bare.without_edges(done),
                forall|edge: Id|
                    done.contains(edge) <==> (exists|j: int|
                        0 <= j < neighbors.len() && (#[trigger] neighbors[j]).1 == edge) || (
                    exists|j: int| 0 <= j < k && (#[trigger] reverse_neighbors[j]).1 == edge),
            decreases reverse_neighbors.len() - k,
        {
            let edge = reverse_neighbors[k].1;
            self.unlink(edge, Ghost(leaving));
            proof {
                bare.lemma_without_edges_twice(done, set![edge]);
                assert(done.insert(edge) =~= done.union(set![edge]));
                done = done.insert(edge);
            }
            k += 1;
        }
        proof {
            if before.vertices.contains_key(vertex) {
                assert forall|edge: Id| done.contains(edge) implies before.incident(
                    vertex,
                ).contains(edge) by {
                    if exists|j: int| 0 <= j < neighbors.len() && (#[trigger] neighbors[j]).1 == edge {
                        let j = choose|j: int|
                            0 <= j < neighbors.len() && (#[trigger] neighbors[j]).1 == edge;
                        assert(before.forward[vertex].contains(neighbors[j]));
                    } else {
                        let j = choose|j: int|
                            0 <= j < reverse_neighbors.len() && (#[trigger] reverse_neighbors[j]).1
                                == edge;
                        assert(before.backward[vertex].contains(reverse_neighbors[j]));
                    }
                }
                assert forall|edge: Id| before.incident(vertex).contains(edge) implies done.contains(
                    edge,
                ) by {
                    assert(before.edges.contains_key(edge));
                    if before.edges[edge].1 == vertex {
                        let hop = (before.edges[edge].2, edge);
                        assert(before.forward[vertex].contains(hop));
                        let j = choose|j: int| 0 <= j < neighbors.len() && neighbors[j] == hop;
                        assert(neighbors[j].1 == edge);
                    } else {
                        let hop = (before.edges[edge].1, edge);
                        assert(before.backward[vertex].contains(hop));
                        let j = choose|j: int|
                            0 <= j < reverse_neighbors.len() && reverse_neighbors[j] == hop;
                        assert(reverse_neighbors[j].1 == edge);
                    }
                }
                assert(done =~= before.incident(vertex));
                let after = self@;
                let expected = before.without_vertex(vertex);
                assert(after.vertices =~= expected.vertices);
                assert(after.edges =~= expected.edges);
                assert(after.forward =~= expected.forward);
                assert(after.backward =~= expected.backward);
            } else {
                assert(bare.vertices =~= before.vertices);
                assert(bare.forward =~= before.forward);
                assert(bare.backward =~= before.backward);
                assert(done =~= Set::<Id>::empty());
            }
        }
        result
    }

    /// Lists all vertices with their handles, in arbitrary order.
    pub fn all_vertices(&self) -> (list: Vec<(Id, &V)>)
        ensures
            list.len() == self@.vertices.len(),
            forall|i: int|
                0 <= i < list.len() ==> self@.vertices.contains_key((#[trigger] list[i]).0)
                    && *list[i].1 == self@.vertices[list[i].0],
            forall|i: int, j: int|
                0 <= i < j < list.len() ==> (#[trigger] list[i]).0 != (#[trigger] list[j]).0,
            forall|id: Id|
                self@.vertices.contains_key(id) ==> exists|i: int|
                    0 <= i < list.len() && (#[trigger] list[i]).0 == id,
    {
        broadcast use vstd::std_specs::hash::group_hash_axioms;

        let mut list: Vec<(Id, &V)> = Vec::new();
        for entry in it: self.vertices_map.iter()
            invariant
                list.len() == it.index(),
                it.seq() == vstd::std_specs::iter::IteratorSpec::remaining(
                    &vstd::std_specs::hash::spec_hash_map_iter(&self.vertices_map),
                ),
                it.seq().no_duplicates(),
                forall|i: int|
                    0 <= i < list.len() ==> (#[trigger] list[i]) == (
                        Id(*it.seq()[i].0),
                        it.seq()[i].1,
                    ),
        {
            list.push((Id(*entry.0), entry.1));
        }
        proof {
            let all = vstd::std_specs::iter::IteratorSpec::remaining(
                &vstd::std_specs::hash::spec_hash_map_iter(&self.vertices_map),
            );
            assert(list.len() == all.len());
            self.lemma_count();
            assert forall|i: int, j: int| 0 <= i < j < list.len() implies (#[trigger] list[i]).0
                != (#[trigger] list[j]).0 by {
                if list[i].0 == list[j].0 {
                    assert(*all[i].0 == *all[j].0);
                    assert(self.vertices_map@[*all[i].0] == *all[i].1);
                    assert(self.vertices_map@[*all[j].0] == *all[j].1);
                    assert(all[i] == all[j]);
                }
            }
            assert forall|id: Id| self@.vertices.contains_key(id) implies exists|i: int|
                0 <= i < list.len() && (#[trigger] list[i]).0 == id by {
                let key = id.0;
                assert(self.vertices_map@.contains_key(key));
                assert(all.contains((&key, &self.vertices_map@[key])));
                let i = choose|i: int| 0 <= i < all.len() && all[i] == (&key, &self.vertices_map@[key]);
                assert(list[i].0 == id);
            }
        }
        list
    }

    /// Lists all vertices with their handles, in arbitrary order, each with a
    /// mutable reference to its value. What is written through a reference
    /// becomes the value of its vertex; nothing else changes.
    pub fn all_vertices_mut(&mut self) -> (list: Vec<(Id, &mut V)>)
        ensures
            list.len() == old(self)@.vertices.len(),
            forall|i: int|
                0 <= i < list.len() ==> old(self)@.vertices.contains_key((#[trigger] list[i]).0)
                    && *list[i].1 == old(self)@.vertices[list[i].0],
            forall|i: int, j: int|
                0 <= i < j < list.len() ==> (#[trigger] list[i]).0 != (#[trigger] list[j]).0,
            forall|id: Id|
                old(self)@.vertices.contains_key(id) ==> exists|i: int|
                    0 <= i < list.len() && (#[trigger] list[i]).0 == id,
            final(self)@.vertices.dom() == old(self)@.vertices.dom(),
            forall|i: int|
                0 <= i < list.len() ==> final(self)@.vertices[(#[trigger] list[i]).0]
                    == *final(list[i].1),
            final(self)@.edges == old(self)@.edges,
            final(self)@.forward == old(self)@.forward,
            final(self)@.backward == old(self)@.backward,
            final(self)@.issued == old(self)@.issued,
            old(self).wf() ==> final(self).wf(),
    {
        broadcast use vstd::std_specs::hash::group_hash_axioms;

        proof {
            let before = *self;
            before.lemma_count();
            assert forall|after: Self|
                before.same_but_vertices(after) && after.vertices_map@.dom()
                    == before.vertices_map@.dom() implies {
                &&& (#[trigger] after@).vertices.dom() == before@.vertices.dom()
                &&& after@.edges == before@.edges
                &&& after@.forward == before@.forward
                &&& after@.backward == before@.backward
                &&& after@.issued == before@.issued
                &&& before.wf() ==> after.wf()
            } by {
                before.lemma_vertices_written(after);
            }
        }
        let ghost table = self.vertices_map@;
        let list = entries_mut(&mut self.vertices_map);
        proof {
            assert forall|id: Id| old(self)@.vertices.contains_key(id) implies exists|i: int|
                0 <= i < list.len() && (#[trigger] list[i]).0 == id by {
                assert(table.contains_key(id.0));
                let i = choose|i: int| 0 <= i < list.len() && (#[trigger] list[i]).0.0 == id.0;
                assert(list[i].0 == id);
            }
        }
        list
    }

    /// Lists all edges with their handles, in arbitrary order, each with a
    /// mutable reference to its value. What is written through a reference
    /// becomes the value of its edge; nothing else changes.
    pub fn all_edges_mut(&mut self) -> (list: Vec<(Id, &mut E)>)
        ensures
            list.len() == old(self)@.edges.len(),
            forall|i: int|
                0 <= i < list.len() ==> old(self)@.edges.contains_key((#[trigger] list[i]).0)
                    && *list[i].1 == old(self)@.edges[list[i].0].0,
            forall|i: int, j: int|
                0 <= i < j < list.len() ==> (#[trigger] list[i]).0 != (#[trigger] list[j]).0,
            forall|id: Id|
                old(self)@.edges.contains_key(id) ==> exists|i: int|
                    0 <= i < list.len() && (#[trigger] list[i]).0 == id,
            final(self)@.edges.dom() == old(self)@.edges.dom(),
            forall|i: int|
                0 <= i < list.len() ==> final(self)@.edges[(#[trigger] list[i]).0] == (
                    *final(list[i].1),
                    old(self)@.edges[list[i].0].1,
                    old(self)@.edges[list[i].0].2,
                ),
            final(self)@.vertices == old(self)@.vertices,
            final(self)@.forward == old(self)@.forward,
            final(self)@.backward == old(self)@.backward,
            final(self)@.issued == old(self)@.issued,
            old(self).wf() ==> final(self).wf(),
    {
        broadcast use vstd::std_specs::hash::group_hash_axioms;

        proof {
            let before = *self;
            before.lemma_count();
            assert forall|after: Self|
                before.same_but_edges(after) && after.edges_map@.dom() == before.edges_map@.dom()
                    && (forall|key: usize| #[trigger]
                    before.edges_map@.contains_key(key) ==> after.edges_map@[key].1
                        == before.edges_map@[key].1 && after.edges_map@[key].2
                        == before.edges_map@[key].2) implies {
                &&& (#[trigger] after@).vertices == before@.vertices
                &&& after@.edges.dom() == before@.edges.dom()
                &&& after@.forward == before@.forward
                &&& after@.backward == before@.backward
                &&& after@.issued == before@.issued
                &&& before.wf() ==> after.wf()
            } by {
                before.lemma_edges_written(after);
            }
        }
        let ghost table = self.edges_map@;
        let mut records = entries_mut(&mut self.edges_map);
        let ghost all = records@;

        let mut list: Vec<(Id, &mut E)> = Vec::new();
        while records.len() > 0
            invariant
                records@ == all.take(records.len() as int),
                list.len() + records.len() == all.len(),
                forall|k: int|
                    0 <= k < list.len() ==> {
                        let record = all[all.len() - 1 - k];
                        &&& (#[trigger] list[k]).0 == record.0
                        &&& *list[k].1 == (*record.1).0
                        &&& *final(record.1) == (*final(list[k].1), (*record.1).1, (*record.1).2)
                    },
            decreases records.len(),
        {
            let record = records.pop().unwrap();
            list.push((record.0, &mut record.1.0));
            proof {
                assert(records@ =~= all.take(records.len() as int));
            }
        }
        proof {
            assert forall|key: usize| #[trigger] table.contains_key(key) implies exists|i: int|
                0 <= i < all.len() && (#[trigger] all[i]).0.0 == key && (*final(all[i].1)).1
                    == table[key].1 && (*final(all[i].1)).2 == table[key].2 by {
                let i = choose|i: int| 0 <= i < all.len() && (#[trigger] all[i]).0.0 == key;
                let k = all.len() - 1 - i;
                assert(list[k].0 == all[i].0);
            }
            assert forall|id: Id| old(self)@.edges.contains_key(id) implies exists|i: int|
                0 <= i < list.len() && (#[trigger] list[i]).0 == id by {
                assert(table.contains_key(id.0));
                let i = choose|i: int| 0 <= i < all.len() && (#[trigger] all[i]).0.0 == id.0;
                let k = all.len() - 1 - i;
                assert(list[k].0 == all[i].0);
                assert(list[k].0 == id);
            }
        }
        list
    }

    /// Lists all edges with their handles, in arbitrary order.
    pub fn all_edges(&self) -> (list: Vec<(Id, &E)>)
        ensures
            list.len() == self@.edges.len(),
            forall|i: int|
                0 <= i < list.len() ==> self@.edges.contains_key((#[trigger] list[i]).0)
                    && *list[i].1 == self@.edges[list[i].0].0,
            forall|i: int, j: int|
                0 <= i < j < list.len() ==> (#[trigger] list[i]).0 != (#[trigger] list[j]).0,
            forall|id: Id|
                self@.edges.contains_key(id) ==> exists|i: int|
                    0 <= i < list.len() && (#[trigger] list[i]).0 == id,
    {
        broadcast use vstd::std_specs::hash::group_hash_axioms;

        let mut list: Vec<(Id, &E)> = Vec::new();
        for entry in it: self.edges_map.iter()
            invariant
                list.len() == it.index(),
                it.seq() == vstd::std_specs::iter::IteratorSpec::remaining(
                    &vstd::std_specs::hash::spec_hash_map_iter(&self.edges_map),
                ),
                it.seq().no_duplicates(),
                forall|i: int|
                    0 <= i < list.len() ==> (#[trigger] list[i]) == (
                        Id(*it.seq()[i].0),
                        &it.seq()[i].1.0,
                    ),
        {
            list.push((Id(*entry.0), &entry.1.0));
        }
        proof {
            let all = vstd::std_specs::iter::IteratorSpec::remaining(
                &vstd::std_specs::hash::spec_hash_map_iter(&self.edges_map),
            );
            assert(list.len() == all.len());
            self.lemma_count();
            assert forall|i: int, j: int| 0 <= i < j < list.len() implies (#[trigger] list[i]).0
                != (#[trigger] list[j]).0 by {
                if list[i].0 == list[j].0 {
                    assert(*all[i].0 == *all[j].0);
                    assert(self.edges_map@[*all[i].0] == *all[i].1);
                    assert(self.edges_map@[*all[j].0] == *all[j].1);
                    assert(all[i] == all[j]);
                }
            }
            assert forall|id: Id| self@.edges.contains_key(id) implies exists|i: int|
                0 <= i < list.len() && (#[trigger] list[i]).0 == id by {
                let key = id.0;
                assert(self.edges_map@.contains_key(key));
                assert(all.contains((&key, &self.edges_map@[key])));
                let i = choose|i: int| 0 <= i < all.len() && all[i] == (&key, &self.edges_map@[key]);
                assert(list[i].0 == id);
            }
        }
        list
    }

    /// Returns the number of vertices and the number of edges.
    pub fn len(&self) -> (count: (usize, usize))
        ensures
            count.0 == self@.vertices.len(),
            count.1 == self@.edges.len(),
    {
        broadcast use vstd::std_specs::hash::group_hash_axioms;

        proof {
            self.lemma_count();
        }
        (self.vertices_map.len(), self.edges_map.len())
    }

    /// Returns a mutable reference to the value corresponding to the vertex.
    /// What is written through it becomes the value of the vertex; nothing else
    /// changes.
    pub fn get_vertex_mut(&mut self, vertex: Id) -> (value: Option<&mut V>)
        ensures
            match value {
                Some(value) => {
                    &&& old(self)@.vertices.contains_key(vertex)
                    &&& *value == old(self)@.vertices[vertex]
                    &&& final(self)@ == (GraphView {
                        vertices: old(self)@.vertices.insert(vertex, *final(value)),
                        ..old(self)@
                    })
                },
                None => !old(self)@.vertices.contains_key(vertex) && final(self)@ == old(self)@,
            },
            old(self).wf() ==> final(self).wf(),
    {
        broadcast use vstd::std_specs::hash::group_hash_axioms;

        proof {
            let before = *self;
            assert forall|after: Self, value: V|
                #![trigger after@, before.vertices_map@.insert(vertex.0, value)]
                before.same_but_vertices(after) && before.vertices_map@.contains_key(vertex.0)
                    && after.vertices_map@ == before.vertices_map@.insert(
                    vertex.0,
                    value,
                ) implies after@ == (GraphView {
                    vertices: before@.vertices.insert(vertex, value),
                    ..before@
                }) && (before.wf() ==> after.wf()) by {
                before.lemma_vertex_written(after, vertex, value);
            }
        }
        match self.vertices_map.entry(vertex.0) {
            Entry::Occupied(occupied) => {
                let value = occupied.into_mut();
                Some(value)
            },
            Entry::Vacant(_) => {
                proof {
                    assert(old(self).vertices_map@.remove(vertex.0) =~= old(self).vertices_map@);
                }
                None
            },
        }
    }

    /// Returns a mutable reference to the value corresponding to the edge. What
    /// is written through it becomes the value of the edge; nothing else
    /// changes.
    pub fn get_edge_mut(&mut self, edge: Id) -> (value: Option<&mut E>)
        ensures
            match value {
                Some(value) => {
                    &&& old(self)@.edges.contains_key(edge)
                    &&& *value == old(self)@.edges[edge].0
                    &&& final(self)@ == (GraphView {
                        edges: old(self)@.edges.insert(
                            edge,
                            (*final(value), old(self)@.edges[edge].1, old(self)@.edges[edge].2),
                        ),
                        ..old(self)@
                    })
                },
                None => !old(self)@.edges.contains_key(edge) && final(self)@ == old(self)@,
            },
            old(self).wf() ==> final(self).wf(),
    {
        broadcast use vstd::std_specs::hash::group_hash_axioms;

        proof {
            let before = *self;
            assert forall|after: Self, record: (E, Id, Id)|
                #![trigger after@, before.edges_map@.insert(edge.0, record)]
                before.same_but_edges(after) && before.edges_map@.contains_key(edge.0)
                    && record.1 == before.edges_map@[edge.0].1 && record.2
                    == before.edges_map@[edge.0].2 && after.edges_map@
                    == before.edges_map@.insert(edge.0, record) implies after@ == (GraphView {
                    edges: before@.edges.insert(
                        edge,
                        (record.0, before@.edges[edge].1, before@.edges[edge].2),
                    ),
                    ..before@
                }) && (before.wf() ==> after.wf()) by {
                before.lemma_edge_written(after, edge, record.0);
            }
        }
        match self.edges_map.entry(edge.0) {
            Entry::Occupied(occupied) => {
                let record = occupied.into_mut();
                Some(&mut record.0)
            },
            Entry::Vacant(_) => {
                proof {
                    assert(old(self).edges_map@.remove(edge.0) =~= old(self).edges_map@);
                }
                None
            },
        }
    }
}

/// Calls `HashMap::capacity`: the number of entries that the table can hold
/// without reallocating. Nothing is claimed of the number.
#[verifier::external_body]
fn reserved<K, T>(map: &HashMap<K, T>) -> (capacity: usize) {
    map.capacity()
}

/// Calls `HashMap::iter_mut` and collects what it hands out: for each entry of
/// the table, once and in arbitrary order, its key as a handle and a mutable
/// reference to its value. No entry is left out. The table keeps its keys, and
/// holds for each key what is written through the reference.
#[verifier::external_body]
fn entries_mut<'a, T>(map: &'a mut HashMap<usize, T>) -> (list: Vec<(Id, &'a mut T)>)
    ensures
        list.len() == old(map)@.len(),
        forall|i: int|
            0 <= i < list.len() ==> old(map)@.contains_key((#[trigger] list[i]).0.0) && *list[i].1
                == old(map)@[list[i].0.0],
        forall|i: int, j: int|
            0 <= i < j < list.len() ==> (#[trigger] list[i]).0 != (#[trigger] list[j]).0,
        forall|key: usize| #[trigger]
            old(map)@.contains_key(key) ==> exists|i: int|
                0 <= i < list.len() && (#[trigger] list[i]).0.0 == key,
        final(map)@.dom() == old(map)@.dom(),
        forall|i: int|
            0 <= i < list.len() ==> final(map)@[(#[trigger] list[i]).0.0] == *final(list[i].1),
{
    map.iter_mut().map(|(key, value)| (Id(*key), value)).collect()
}

/// The vertices at the other ends of the entries of an adjacency list.
pub open spec fn far_ends(list: Seq<Hop>) -> Seq<Id> {
    list.map_values(|hop: Hop| hop.0)
}

/// The values of the live edges among the entries of an adjacency list that
/// lead to `other`, in the order of the list.
pub open spec fn labels<E>(list: Seq<Hop>, other: Id, edges: Map<Id, (E, Id, Id)>) -> Seq<E>
    decreases list.len(),
{
    if list.len() == 0 {
        Seq::empty()
    } else {
        let rest = labels(list.drop_last(), other, edges);
        let hop = list.last();
        if hop.0 == other && edges.contains_key(hop.1) {
            rest.push(edges[hop.1].0)
        } else {
            rest
        }
    }
}

impl<V, E> FiniteGraph<V, E> {
    /// Returns the number of vertices and the number of edges the collection
    /// can hold without reallocating.
    pub fn capacity(&self) -> (capacity: (usize, usize)) {
        (reserved(&self.vertices_map), reserved(&self.edges_map))
    }

    /// The adjacency list of the edges that leave `vertex`; empty for a vertex
    /// that the graph does not have.
    pub closed spec fn outgoing(&self, vertex: Id) -> Seq<Hop> {
        listed(self.neighbors_map@, vertex.0)
    }

    /// The adjacency list of the edges that reach `vertex`; empty for a vertex
    /// that the graph does not have.
    pub closed spec fn arriving(&self, vertex: Id) -> Seq<Hop> {
        listed(self.reverse_neighbors_map@, vertex.0)
    }

    /// The adjacency lists of a vertex are what the graph holds for it.
    pub proof fn lemma_adjacency(&self, vertex: Id)
        requires
            self.wf(),
        ensures
            self.outgoing(vertex) == if self@.vertices.contains_key(vertex) {
                self@.forward[vertex]
            } else {
                Seq::empty()
            },
            self.arriving(vertex) == if self@.vertices.contains_key(vertex) {
                self@.backward[vertex]
            } else {
                Seq::empty()
            },
    {
    }
}

impl<V, E> FiniteGraph<V, E> {
    /// The vertices of the graph are finitely many, and no edge leads to
    /// anything else, nor back from anything else. A traversal of the graph
    /// that starts at one of its vertices therefore comes to an end.
    pub proof fn lemma_vertices_closed(&self)
        requires
            self.wf(),
        ensures
            self@.vertices.dom().finite(),
            crate::graph::closed_under_neighbors(self, self@.vertices.dom()),
            forall|v: Id, n: Id|
                self@.vertices.contains_key(v) && #[trigger] self.incoming(v).contains(n)
                    ==> self@.vertices.contains_key(n),
            forall|v: Id|
                !self@.vertices.contains_key(v) ==> self.adjacent(v).len() == 0
                    && self.incoming(v).len() == 0,
    {
        assert forall|v: Id, n: Id|
            self@.vertices.contains_key(v) && #[trigger] self.adjacent(v).contains(
                n,
            ) implies self@.vertices.contains_key(n) by {
            self.lemma_adjacency(v);
            let list = self@.forward[v];
            let i = choose|i: int| 0 <= i < far_ends(list).len() && far_ends(list)[i] == n;
            assert(list.contains(list[i]));
            assert(self@.joins(list[i].1, v, n));
        }
        assert forall|v: Id, n: Id|
            self@.vertices.contains_key(v) && #[trigger] self.incoming(v).contains(
                n,
            ) implies self@.vertices.contains_key(n) by {
            self.lemma_adjacency(v);
            let list = self@.backward[v];
            let i = choose|i: int| 0 <= i < far_ends(list).len() && far_ends(list)[i] == n;
            assert(list.contains(list[i]));
            assert(self@.joins(list[i].1, v, n));
        }
        assert forall|v: Id| !self@.vertices.contains_key(v) implies self.adjacent(v).len() == 0
            && self.incoming(v).len() == 0 by {
            self.lemma_adjacency(v);
        }
    }
}

/// The far ends of a list are the first parts of its entries.
proof fn lemma_far_ends(list: Seq<Hop>, end: Id)
    ensures
        far_ends(list).contains(end) <==> exists|edge: Id| #[trigger] list.contains((end, edge)),
{
    if far_ends(list).contains(end) {
        let i = choose|i: int| 0 <= i < far_ends(list).len() && far_ends(list)[i] == end;
        assert(list[i] == (end, list[i].1));
        assert(list.contains((end, list[i].1)));
    }
    if exists|edge: Id| #[trigger] list.contains((end, edge)) {
        let edge = choose|edge: Id| #[trigger] list.contains((end, edge));
        let i = choose|i: int| 0 <= i < list.len() && list[i] == (end, edge);
        assert(far_ends(list)[i] == end);
    }
}

impl<V, E> FiniteGraph<V, E> {
    /// The reverse neighbours are the neighbours backwards: a vertex is listed
    /// among the reverse neighbours of another exactly if the other is listed
    /// among its neighbours.
    pub proof fn lemma_reverse_is_converse(&self, vertex: Id, other: Id)
        requires
            self.wf(),
        ensures
            self.incoming(vertex).contains(other) <==> self.adjacent(other).contains(vertex),
    {
        self.lemma_adjacency(vertex);
        self.lemma_adjacency(other);
        self.lemma_vertices_closed();
        lemma_far_ends(self.arriving(vertex), other);
        lemma_far_ends(self.outgoing(other), vertex);
        if self.incoming(vertex).contains(other) {
            let edge = choose|edge: Id| #[trigger] self.arriving(vertex).contains((other, edge));
            assert(self@.vertices.contains_key(vertex));
            assert(self@.vertices.contains_key(other));
            assert(self@.backward[vertex].contains((other, edge)));
            assert(self@.forward[other].contains((vertex, edge)));
        }
        if self.adjacent(other).contains(vertex) {
            let edge = choose|edge: Id| #[trigger] self.outgoing(other).contains((vertex, edge));
            assert(self@.vertices.contains_key(other));
            assert(self@.vertices.contains_key(vertex));
            assert(self@.forward[other].contains((vertex, edge)));
            assert(self@.backward[vertex].contains((other, edge)));
        }
    }
}

/// Lists the vertices at the other ends of the entries of an adjacency list.
fn other_ends(list: &Vec<Hop>) -> (ends: Vec<Id>)
    ensures
        ends@ == far_ends(list@),
{
    let mut ends: Vec<Id> = Vec::new();
    let mut i: usize = 0;
    while i < list.len()
        invariant
            i <= list.len(),
            ends@ == far_ends(list@.take(i as int)),
        decreases list.len() - i,
    {
        ends.push(list[i].0);
        proof {
            assert(far_ends(list@.take(i + 1)) =~= far_ends(list@.take(i as int)).push(list[i as int].0));
        }
        i += 1;
    }
    proof {
        assert(list@.take(i as int) =~= list@);
    }
    ends
}

impl<V, E> Graph<Id> for FiniteGraph<V, E> {
    open spec fn adjacent(&self, vertex: Id) -> Seq<Id> {
        far_ends(self.outgoing(vertex))
    }

    fn neighbors(&self, vertex: &Id) -> (list: Vec<Id>) {
        broadcast use vstd::std_specs::hash::group_hash_axioms;

        match self.neighbors_map.get(&vertex.0) {
            Some(neighbors) => other_ends(neighbors),
            None => {
                proof {
                    assert(far_ends(Seq::<Hop>::empty()) =~= Seq::<Id>::empty());
                }
                Vec::new()
            },
        }
    }
}

impl<V, E> ReversableGraph<Id> for FiniteGraph<V, E> {
    open spec fn incoming(&self, vertex: Id) -> Seq<Id> {
        far_ends(self.arriving(vertex))
    }

    fn reverse_neighbors(&self, vertex: &Id) -> (list: Vec<Id>) {
        broadcast use vstd::std_specs::hash::group_hash_axioms;

        match self.reverse_neighbors_map.get(&vertex.0) {
            Some(neighbors) => other_ends(neighbors),
            None => {
                proof {
                    assert(far_ends(Seq::<Hop>::empty()) =~= Seq::<Id>::empty());
                }
                Vec::new()
            },
        }
    }
}

impl<V, E: Edge> EdgedGraph<Id, E> for FiniteGraph<V, E> {
    open spec fn parallel(&self, vertex: Id, other: Id) -> Seq<E> {
        labels(self.outgoing(vertex), other, self@.edges)
    }

    fn edges(&self, vertex: &Id, other: &Id) -> (list: Vec<E>) {
        broadcast use vstd::std_specs::hash::group_hash_axioms;

        let mut list: Vec<E> = Vec::new();
        match self.neighbors_map.get(&vertex.0) {
            Some(neighbors) => {
                let ghost all = self@.edges;
                let mut i: usize = 0;
                while i < neighbors.len()
                    invariant
                        i <= neighbors.len(),
                        all == self@.edges,
                        list.len() == labels(neighbors@.take(i as int), *other, all).len(),
                        forall|k: int|
                            0 <= k < list.len() ==> cloned(
                                #[trigger] labels(neighbors@.take(i as int), *other, all)[k],
                                list[k],
                            ),
                    decreases neighbors.len() - i,
                {
                    let hop = neighbors[i];
                    proof {
                        assert(neighbors@.take(i + 1).drop_last() =~= neighbors@.take(i as int));
                        assert(neighbors@.take(i + 1).last() == hop);
                    }
                    if hop.0 == *other {
                        match self.get_edge(hop.1) {
                            Some(value) => {
                                let copy = value.clone();
                                proof {
                                    assert(cloned(*value, copy));
                                }
                                list.push(copy);
                            },
                            None => {},
                        }
                    }
                    i += 1;
                }
                proof {
                    assert(neighbors@.take(i as int) =~= neighbors@);
                }
            },
            None => {},
        }
        list
    }
}

} // verus!
