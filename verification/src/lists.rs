//! Facts about the entries of lists.

use vstd::prelude::*;

verus! {

/// An entry of a list is its last entry or an entry of the rest.
pub proof fn lemma_contains_last<T>(list: Seq<T>, item: T)
    requires
        list.len() > 0,
    ensures
        list.contains(item) <==> list.drop_last().contains(item) || item == list.last(),
{
    let front = list.drop_last();
    if list.contains(item) {
        let i = choose|i: int| 0 <= i < list.len() && list[i] == item;
        if i < list.len() - 1 {
            assert(front[i] == item);
        }
    }
    if front.contains(item) {
        let i = choose|i: int| 0 <= i < front.len() && front[i] == item;
        assert(list[i] == item);
    }
    assert(list[list.len() - 1] == list.last());
}

/// The entries of a list with one more entry.
pub proof fn lemma_push_contains<T>(list: Seq<T>, last: T, item: T)
    ensures
        list.push(last).contains(item) <==> list.contains(item) || item == last,
{
    assert(list.push(last).drop_last() =~= list);
    lemma_contains_last(list.push(last), item);
}

/// The entries of a list without its first entry.
pub proof fn lemma_rest_contains<T>(list: Seq<T>, item: T)
    requires
        list.len() > 0,
    ensures
        list.contains(item) <==> list.remove(0).contains(item) || item == list[0],
{
    let rest = list.remove(0);
    if list.contains(item) {
        let i = choose|i: int| 0 <= i < list.len() && list[i] == item;
        if i > 0 {
            assert(rest[i - 1] == item);
        }
    }
    if rest.contains(item) {
        let i = choose|i: int| 0 <= i < rest.len() && rest[i] == item;
        assert(list[i + 1] == item);
    }
}

} // verus!
