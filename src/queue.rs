//! The match queue: a double-ended priority queue from match id to the number
//! of times that match has been served.
use priority_queue::DoublePriorityQueue;
use std::hash::Hash;
use vstd::prelude::*;

verus! {

#[verifier::external_type_specification]
#[verifier::external_body]
#[verifier::reject_recursive_types(I)]
#[verifier::reject_recursive_types(P)]
#[verifier::reject_recursive_types(H)]
pub struct ExDoublePriorityQueue<I: Hash + Eq, P: Ord, H>(DoublePriorityQueue<I, P, H>);

/// The queue used by the scheduler: match ids with their visit counts.
pub type MatchQueue = DoublePriorityQueue<String, u64>;

/// What a match queue holds: each match id with its priority.
pub uninterp spec fn queue_entries(q: MatchQueue) -> Map<Seq<char>, u64>;

/// `k` is in `q` and no entry of `q` has a lower priority.
pub open spec fn is_min_entry(q: Map<Seq<char>, u64>, k: Seq<char>) -> bool {
    &&& q.contains_key(k)
    &&& forall|j: Seq<char>| #[trigger] q.contains_key(j) ==> q[k] <= q[j]
}

/// `q` holds at least one entry.
pub open spec fn has_entries(q: Map<Seq<char>, u64>) -> bool {
    exists|k: Seq<char>| #[trigger] q.contains_key(k)
}

/// Some entry of `q` has a priority of at most `p`.
pub open spec fn has_entry_at_most(q: Map<Seq<char>, u64>, p: u64) -> bool {
    exists|k: Seq<char>| #[trigger] q.contains_key(k) && q[k] <= p
}

/// Relies on `DoublePriorityQueue::new`: the new queue is empty.
#[verifier::external_body]
pub(crate) fn queue_new() -> (r: MatchQueue)
    ensures
        queue_entries(r).dom() == Set::<Seq<char>>::empty(),
{
    DoublePriorityQueue::new()
}

/// Relies on `DoublePriorityQueue::push`: the item is in the queue afterwards
/// with the given priority, which replaces any priority it had before.
#[verifier::external_body]
pub(crate) fn queue_push(q: &mut MatchQueue, id: String, priority: u64)
    ensures
        queue_entries(*final(q)) == queue_entries(*old(q)).insert(id@, priority),
{
    q.push(id, priority);
}

/// Relies on `DoublePriorityQueue::peek_min`: `None` on an empty queue, else an
/// item whose priority is the lowest in the queue, with that priority.
#[verifier::external_body]
pub(crate) fn queue_peek_min(q: &MatchQueue) -> (r: Option<(String, u64)>)
    ensures
        r is None <==> !has_entries(queue_entries(*q)),
        r matches Some((k, p)) ==> is_min_entry(queue_entries(*q), k@) && queue_entries(*q)[k@]
            == p,
{
    q.peek_min().map(|(k, p)| (k.clone(), *p))
}

/// Relies on `DoublePriorityQueue::change_priority`: an item in the queue gets
/// the new priority and `Some` comes back; otherwise nothing changes.
#[verifier::external_body]
pub(crate) fn queue_change_priority(q: &mut MatchQueue, id: &str, priority: u64) -> (r: Option<
    u64,
>)
    ensures
        queue_entries(*old(q)).contains_key(id@) ==> queue_entries(*final(q)) == queue_entries(
            *old(q),
        ).insert(id@, priority) && r == Some(queue_entries(*old(q))[id@]),
        !queue_entries(*old(q)).contains_key(id@) ==> queue_entries(*final(q)) == queue_entries(
            *old(q),
        ) && r is None,
{
    q.change_priority(id, priority)
}

} // verus!
