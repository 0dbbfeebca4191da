use vstd::prelude::*;

verus! {

// ---------------------------------------------------------------------------
// The cell-selection priority queue, kept by the outside crate
// `keyed_priority_queue`. Keys are flat cell indices (0..81), priorities the
// number of eliminated digits. The queue's contents are modelled as a map
// from key to priority.
// ---------------------------------------------------------------------------

#[verifier::external_type_specification]
#[verifier::external_body]
#[verifier::reject_recursive_types(TKey)]
#[verifier::reject_recursive_types(TPriority)]
#[verifier::reject_recursive_types(S)]
pub struct ExKeyedPriorityQueue<
    TKey: core::hash::Hash + Eq,
    TPriority: Ord,
    S: core::hash::BuildHasher,
>(keyed_priority_queue::KeyedPriorityQueue<TKey, TPriority, S>);

pub type Kpq = keyed_priority_queue::KeyedPriorityQueue<usize, usize, std::hash::RandomState>;

/// The (key, priority) entries the queue currently holds.
pub uninterp spec fn queue_entries(q: Kpq) -> Map<usize, usize>;

/// Relies on KeyedPriorityQueue::new: creates an empty queue.
#[verifier::external_body]
pub fn kpq_new() -> (r: Kpq)
    ensures
        forall|k: usize| !queue_entries(r).dom().contains(k),
{
    keyed_priority_queue::KeyedPriorityQueue::new()
}

/// Relies on KeyedPriorityQueue::push: inserts a key with a priority, or
/// overwrites the priority of a key already present.
#[verifier::external_body]
pub fn kpq_push(q: &mut Kpq, key: usize, priority: usize)
    ensures
        queue_entries(*final(q)) == queue_entries(*old(q)).insert(key, priority),
{
    q.push(key, priority);
}

/// Relies on KeyedPriorityQueue::peek: returns a pair whose priority is
/// maximal among the entries, or None when the queue is empty. Which key of
/// several with equal greatest priority is returned is left open.
#[verifier::external_body]
pub fn kpq_peek(q: &Kpq) -> (r: Option<(usize, usize)>)
    ensures
        match r {
            Option::None => forall|k: usize| !queue_entries(*q).dom().contains(k),
            Option::Some(kp) => queue_entries(*q).dom().contains(kp.0) && queue_entries(*q)[kp.0]
                == kp.1 && forall|k2: usize|
                queue_entries(*q).dom().contains(k2) ==> queue_entries(*q)[k2] <= kp.1,
        },
{
    match q.peek() {
        Option::None => Option::None,
        Option::Some((k, p)) => Option::Some((*k, *p)),
    }
}

/// Relies on KeyedPriorityQueue::remove: removes a key, returning its
/// priority; a key not present leaves the queue unchanged.
#[verifier::external_body]
pub fn kpq_remove(q: &mut Kpq, key: usize) -> (r: Option<usize>)
    ensures
        match r {
            Option::Some(p) => queue_entries(*old(q)).dom().contains(key) && p == queue_entries(
                *old(q),
            )[key] && queue_entries(*final(q)) == queue_entries(*old(q)).remove(key),
            Option::None => !queue_entries(*old(q)).dom().contains(key) && queue_entries(*final(q))
                == queue_entries(*old(q)),
        },
{
    q.remove(&key)
}

/// Relies on KeyedPriorityQueue::set_priority: overwrites the priority of a
/// present key and returns the old one; an absent key is an error and leaves
/// the queue unchanged.
#[verifier::external_body]
pub fn kpq_set_priority(q: &mut Kpq, key: usize, priority: usize) -> (r: Option<usize>)
    ensures
        match r {
            Option::Some(p) => queue_entries(*old(q)).dom().contains(key) && p == queue_entries(
                *old(q),
            )[key] && queue_entries(*final(q)) == queue_entries(*old(q)).insert(key, priority),
            Option::None => !queue_entries(*old(q)).dom().contains(key) && queue_entries(*final(q))
                == queue_entries(*old(q)),
        },
{
    match q.set_priority(&key, priority) {
        Ok(p) => Option::Some(p),
        Err(_) => Option::None,
    }
}

/// Relies on KeyedPriorityQueue's derived Clone: the copy holds the same
/// entries.
#[verifier::external_body]
pub fn kpq_clone(q: &Kpq) -> (r: Kpq)
    ensures
        queue_entries(r) == queue_entries(*q),
{
    q.clone()
}

} // verus!
