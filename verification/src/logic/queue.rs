//! The priority queue of the cheapest-path search, from the `priority_queue` crate: what
//! the search relies on of it is stated here over the items it holds.
use vstd::prelude::*;

use std::collections::hash_map::RandomState;
use std::hash::Hash;

use priority_queue::PriorityQueue;

verus! {

#[verifier::external_type_specification]
#[verifier::external_body]
#[verifier::reject_recursive_types(I)]
#[verifier::reject_recursive_types(P)]
#[verifier::reject_recursive_types(H)]
pub struct ExPriorityQueue<I: Hash + Eq, P: Ord, H>(PriorityQueue<I, P, H>);

/// A queue of points, the cheapest first when priorities are costs negated.
pub type PointQueue = PriorityQueue<(i8, i8), i64, RandomState>;

/// The items of a queue of points, each with its priority.
pub uninterp spec fn queue_items(q: PointQueue) -> Map<(i8, i8), i64>;

/// The map after putting each pair in turn, a later pair replacing the priority of an
/// earlier one for the same item.
pub open spec fn insert_all(m: Map<(i8, i8), i64>, items: Seq<((i8, i8), i64)>) -> Map<(i8, i8), i64>
    decreases items.len(),
{
    if items.len() == 0 {
        m
    } else {
        insert_all(m.insert(items[0].0, items[0].1), items.drop_first())
    }
}

/// Whether one of the pairs puts `k`.
pub open spec fn puts(items: Seq<((i8, i8), i64)>, k: (i8, i8)) -> bool {
    exists|i: int| 0 <= i < items.len() && #[trigger] items[i].0 == k
}

/// Putting pairs that all carry the priority `pr`: the items queued afterwards are those
/// queued before and those put, the put ones with priority `pr` and the others as
/// before; the count grows only by items not queued before.
pub proof fn lemma_insert_all(m: Map<(i8, i8), i64>, items: Seq<((i8, i8), i64)>, pr: i64)
    requires
        m.dom().finite(),
        forall|i: int| 0 <= i < items.len() ==> (#[trigger] items[i]).1 == pr,
    ensures
        insert_all(m, items).dom().finite(),
        forall|k: (i8, i8)| #[trigger] insert_all(m, items).contains_key(k) <==> (m.contains_key(k) || puts(items, k)),
        forall|k: (i8, i8)| puts(items, k) ==> #[trigger] insert_all(m, items)[k] == pr,
        forall|k: (i8, i8)| !puts(items, k) ==> #[trigger] insert_all(m, items)[k] == m[k],
        insert_all(m, items).dom().len() <= m.dom().len() + items.len(),
        (forall|i: int| 0 <= i < items.len() ==> m.contains_key(#[trigger] items[i].0)) ==> insert_all(
            m,
            items,
        ).dom().len() == m.dom().len(),
    decreases items.len(),
{
    if items.len() > 0 {
        let m1 = m.insert(items[0].0, items[0].1);
        let rest = items.drop_first();
        assert forall|i: int| 0 <= i < rest.len() implies (#[trigger] rest[i]).1 == pr by {
            assert(rest[i] == items[i + 1]);
        }
        lemma_insert_all(m1, rest, pr);
        assert forall|k: (i8, i8)| puts(items, k) <==> (k == items[0].0 || puts(rest, k)) by {
            if puts(items, k) {
                let i = choose|i: int| 0 <= i < items.len() && #[trigger] items[i].0 == k;
                if i > 0 {
                    assert(rest[i - 1] == items[i]);
                }
            }
            if puts(rest, k) {
                let i = choose|i: int| 0 <= i < rest.len() && #[trigger] rest[i].0 == k;
                assert(items[i + 1] == rest[i]);
            }
            if k == items[0].0 {
                assert(items[0].0 == k);
            }
        }
        if m.contains_key(items[0].0) {
            assert(m1.dom() =~= m.dom());
        } else {
            assert(m1.dom() =~= m.dom().insert(items[0].0));
        }
        if forall|i: int| 0 <= i < items.len() ==> m.contains_key(#[trigger] items[i].0) {
            assert(m.contains_key(items[0].0));
            assert forall|i: int| 0 <= i < rest.len() implies m1.contains_key(#[trigger] rest[i].0) by {
                assert(rest[i] == items[i + 1]);
            }
        }
    }
}

/// `PriorityQueue::new`: an empty queue.
#[verifier::external_body]
pub(crate) fn queue_new() -> (res: PointQueue)
    ensures
        queue_items(res).is_empty(),
{
    PriorityQueue::new()
}

/// `PriorityQueue::extend`: each pair is pushed in turn; an item already queued gets the
/// new priority.
#[verifier::external_body]
pub(crate) fn queue_extend(q: &mut PointQueue, items: Vec<((i8, i8), i64)>)
    ensures
        queue_items(*final(q)) == insert_all(queue_items(*old(q)), items@),
{
    q.extend(items)
}

/// `PriorityQueue::pop`: an item with the greatest priority leaves the queue and comes
/// back with its priority; nothing comes back from an empty queue. Which of several items
/// with the greatest priority leaves is not stated.
#[verifier::external_body]
pub(crate) fn queue_pop(q: &mut PointQueue) -> (res: Option<((i8, i8), i64)>)
    ensures
        res is None <==> queue_items(*old(q)).is_empty(),
        res is None ==> queue_items(*final(q)) == queue_items(*old(q)),
        res matches Some(pair) ==> {
            &&& queue_items(*old(q)).contains_key(pair.0)
            &&& queue_items(*old(q))[pair.0] == pair.1
            &&& forall|j: (i8, i8)| #[trigger] queue_items(*old(q)).contains_key(j) ==> queue_items(*old(q))[j] <= pair.1
            &&& queue_items(*final(q)) == queue_items(*old(q)).remove(pair.0)
        },
{
    q.pop()
}

} // verus!
