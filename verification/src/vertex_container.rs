use std::cmp::Ordering;
use std::collections::VecDeque;
use vstd::prelude::*;
use vstd::std_specs::cmp::PartialOrdSpec;

verus! {

/// A frontier: the working set of what a traversal has yet to explore.
///
/// A frontier holds its items in the order in which they were pushed, and says
/// which of them is next. It removes nothing but what it hands out, and holds an
/// item as often as it was pushed.
pub trait VertexContainer<V>: Sized {
    /// The items held, oldest first.
    spec fn items(&self) -> Seq<V>;

    /// The place of the item that comes out next, given the items held.
    spec fn turn(items: Seq<V>) -> int;

    /// Makes an empty frontier.
    fn new() -> (container: Self)
        ensures
            container.items() == Seq::<V>::empty(),
    ;

    /// Takes out the item whose turn it is; `None` where nothing is held.
    fn pop(&mut self) -> (item: Option<V>)
        ensures
            match item {
                Some(item) => {
                    &&& old(self).items().len() > 0
                    &&& 0 <= Self::turn(old(self).items()) < old(self).items().len()
                    &&& item == old(self).items()[Self::turn(old(self).items())]
                    &&& final(self).items() == old(self).items().remove(
                        Self::turn(old(self).items()),
                    )
                },
                None => old(self).items().len() == 0 && final(self).items() == old(self).items(),
            },
    ;

    /// Shows the item whose turn it is; `None` where nothing is held.
    fn peek(&self) -> (item: Option<&V>)
        ensures
            match item {
                Some(item) => {
                    &&& self.items().len() > 0
                    &&& 0 <= Self::turn(self.items()) < self.items().len()
                    &&& *item == self.items()[Self::turn(self.items())]
                },
                None => self.items().len() == 0,
            },
    ;

    /// Adds an item.
    fn push(&mut self, value: V)
        ensures
            final(self).items() == old(self).items().push(value),
    ;
}

/// A stack: the item pushed last comes out first.
#[derive(Clone)]
pub struct DfsContainer<V>(Vec<V>);

impl<V> VertexContainer<V> for DfsContainer<V> {
    closed spec fn items(&self) -> Seq<V> {
        self.0@
    }

    open spec fn turn(items: Seq<V>) -> int {
        items.len() - 1
    }

    fn new() -> (container: DfsContainer<V>) {
        DfsContainer(Vec::new())
    }

    fn pop(&mut self) -> (item: Option<V>) {
        let item = self.0.pop();
        proof {
            if item.is_some() {
                assert(self.0@ =~= old(self).0@.remove(old(self).0@.len() - 1));
            }
        }
        item
    }

    fn peek(&self) -> (item: Option<&V>) {
        if self.0.len() > 0 {
            Some(&self.0[self.0.len() - 1])
        } else {
            None
        }
    }

    fn push(&mut self, value: V) {
        self.0.push(value);
    }
}

/// A queue: the item pushed first comes out first.
#[derive(Clone)]
pub struct BfsContainer<V>(VecDeque<V>);

impl<V> VertexContainer<V> for BfsContainer<V> {
    closed spec fn items(&self) -> Seq<V> {
        self.0@
    }

    open spec fn turn(items: Seq<V>) -> int {
        0
    }

    fn new() -> (container: BfsContainer<V>) {
        BfsContainer(VecDeque::new())
    }

    fn pop(&mut self) -> (item: Option<V>) {
        let item = self.0.pop_front();
        proof {
            if item.is_some() {
                assert(self.0@ =~= old(self).0@.remove(0));
            }
        }
        item
    }

    fn peek(&self) -> (item: Option<&V>) {
        if self.0.len() > 0 {
            Some(&self.0[0])
        } else {
            None
        }
    }

    fn push(&mut self, value: V) {
        self.0.push_back(value);
    }
}

/// Whether `<` puts the first cost before the second.
pub open spec fn precedes<C: Ord>(a: C, b: C) -> bool {
    a.partial_cmp_spec(&b) == Some(Ordering::Less)
}

/// The place of the cost that a scan from the oldest to the newest settles on,
/// when it moves on to a cost only where that cost lies before the one it
/// holds. Where the costs are ordered, this is the oldest of the least costs.
pub open spec fn cheapest<C: Ord>(costs: Seq<C>) -> int
    decreases costs.len(),
{
    if costs.len() <= 1 {
        0
    } else {
        let held = cheapest(costs.drop_last());
        if precedes(costs.last(), costs[held]) {
            costs.len() - 1
        } else {
            held
        }
    }
}

/// Whether `<` orders the costs of type `C`: of two costs at most one lies
/// before the other, and a cost that lies before another lies before every
/// third cost or has the third before the other.
pub open spec fn ordered<C: Ord>() -> bool {
    &&& forall|a: C, b: C| !(#[trigger] precedes(a, b) && precedes(b, a))
    &&& forall|a: C, b: C, c: C|
        #![trigger precedes(a, b), precedes(a, c)]
        #![trigger precedes(a, b), precedes(c, b)]
        precedes(a, b) ==> precedes(a, c) || precedes(c, b)
}

/// Ordered costs are ordered transitively.
pub proof fn lemma_orders_are_transitive<C: Ord>(a: C, b: C, c: C)
    requires
        ordered::<C>(),
        precedes(a, b),
        precedes(b, c),
    ensures
        precedes(a, c),
{
    assert(precedes(a, c) || precedes(c, b));
}

/// The scan settles on a place among the costs.
pub proof fn lemma_cheapest_in_range<C: Ord>(costs: Seq<C>)
    requires
        costs.len() > 0,
    ensures
        0 <= cheapest(costs) < costs.len(),
    decreases costs.len(),
{
    if costs.len() > 1 {
        lemma_cheapest_in_range(costs.drop_last());
    }
}

/// Among ordered costs the scan settles on the oldest of the least: no cost
/// lies before it, and it lies before every older one.
pub proof fn lemma_cheapest_is_first_least<C: Ord>(costs: Seq<C>)
    requires
        costs.len() > 0,
        ordered::<C>(),
    ensures
        forall|i: int| 0 <= i < costs.len() ==> !precedes(#[trigger] costs[i], costs[cheapest(costs)]),
        forall|i: int|
            0 <= i < cheapest(costs) ==> precedes(costs[cheapest(costs)], #[trigger] costs[i]),
    decreases costs.len(),
{
    if costs.len() > 1 {
        let front = costs.drop_last();
        lemma_cheapest_in_range(front);
        lemma_cheapest_is_first_least(front);
        let held = cheapest(front);
        let last = costs.last();
        assert(front[held] == costs[held]);
        if precedes(last, costs[held]) {
            assert forall|i: int| 0 <= i < costs.len() implies !precedes(
                #[trigger] costs[i],
                last,
            ) by {
                if i < costs.len() - 1 {
                    assert(front[i] == costs[i]);
                    if precedes(costs[i], last) {
                        lemma_orders_are_transitive(costs[i], last, costs[held]);
                    }
                }
            }
            assert forall|i: int| 0 <= i < costs.len() - 1 implies precedes(
                last,
                #[trigger] costs[i],
            ) by {
                assert(front[i] == costs[i]);
                assert(precedes(last, costs[i]) || precedes(costs[i], costs[held]));
            }
        } else {
            assert forall|i: int| 0 <= i < costs.len() implies !precedes(
                #[trigger] costs[i],
                costs[held],
            ) by {
                if i < costs.len() - 1 {
                    assert(front[i] == costs[i]);
                }
            }
            assert forall|i: int| 0 <= i < held implies precedes(
                costs[held],
                #[trigger] costs[i],
            ) by {
                assert(front[i] == costs[i]);
            }
        }
    }
}

/// Whether the result of `<` on costs of type `C` is what `partial_cmp_spec`
/// says of them.
pub open spec fn comparable<C: Ord>() -> bool {
    C::obeys_partial_cmp_spec()
}

/// The costs of the entries of a priority queue, oldest first.
pub open spec fn costs<V, C>(entries: Seq<(V, C)>) -> Seq<C> {
    entries.map_values(|entry: (V, C)| entry.1)
}

/// A stable priority queue: the entry of the least cost comes out first, and of
/// several entries of the least cost the one pushed first. One value may be held
/// more than once.
#[derive(Clone)]
pub struct AstarContainer<V, C> {
    entries: Vec<(V, C)>,
}

impl<V, C> View for AstarContainer<V, C> {
    type V = Seq<(V, C)>;

    /// The entries held, each with its cost, oldest first.
    closed spec fn view(&self) -> Seq<(V, C)> {
        self.entries@
    }
}

impl<V, C: Ord> AstarContainer<V, C> {
    /// Makes an empty priority queue.
    pub fn new() -> (container: AstarContainer<V, C>)
        ensures
            container@ == Seq::<(V, C)>::empty(),
    {
        AstarContainer { entries: Vec::new() }
    }

    /// The place of the entry that comes out next.
    fn next_index(&self) -> (at: usize)
        requires
            comparable::<C>(),
            self@.len() > 0,
        ensures
            at == cheapest(costs(self@)),
            at < self@.len(),
    {
        let ghost all = costs(self@);
        let mut held: usize = 0;
        let mut i: usize = 1;
        assert(cheapest(all.take(1)) == 0);
        while i < self.entries.len()
            invariant
                comparable::<C>(),
                all == costs(self@),
                1 <= i <= self.entries.len(),
                held < i,
                held == cheapest(all.take(i as int)),
            decreases self.entries.len() - i,
        {
            proof {
                assert(all.take(i + 1).drop_last() =~= all.take(i as int));
                assert(all.take(i + 1).last() == self.entries[i as int].1);
                assert(all.take(i + 1)[held as int] == self.entries[held as int].1);
            }
            if self.entries[i].1 < self.entries[held].1 {
                held = i;
            }
            i += 1;
        }
        assert(all.take(i as int) =~= all);
        held
    }

    /// Takes out the entry of the least cost, of several the oldest; `None`
    /// where nothing is held.
    pub fn pop(&mut self) -> (entry: Option<(V, C)>)
        requires
            comparable::<C>(),
        ensures
            match entry {
                Some(entry) => {
                    &&& old(self)@.len() > 0
                    &&& entry == old(self)@[cheapest(costs(old(self)@))]
                    &&& final(self)@ == old(self)@.remove(cheapest(costs(old(self)@)))
                },
                None => old(self)@.len() == 0 && final(self)@ == old(self)@,
            },
    {
        if self.entries.len() == 0 {
            return None;
        }
        let at = self.next_index();
        Some(self.entries.remove(at))
    }

    /// Shows the entry of the least cost, of several the oldest; `None` where
    /// nothing is held.
    pub fn peek(&self) -> (entry: Option<(&V, &C)>)
        requires
            comparable::<C>(),
        ensures
            match entry {
                Some(entry) => {
                    &&& self@.len() > 0
                    &&& (*entry.0, *entry.1) == self@[cheapest(costs(self@))]
                },
                None => self@.len() == 0,
            },
    {
        if self.entries.len() == 0 {
            return None;
        }
        let at = self.next_index();
        let entry = &self.entries[at];
        Some((&entry.0, &entry.1))
    }

    /// Adds a value with its cost.
    pub fn push(&mut self, value: V, cost: C)
        ensures
            final(self)@ == old(self)@.push((value, cost)),
    {
        self.entries.push((value, cost));
    }
}

} // verus!
