//! Fresh ids and random choices.
use rand::seq::SliceRandom;
use vstd::prelude::*;

verus! {

/// Relies on `uuid::Uuid::new_v4` and the hyphenated text form of a UUID: a
/// random id of 36 characters.
#[verifier::external_body]
pub(crate) fn fresh_id() -> (r: String)
    ensures
        r@.len() == 36,
{
    uuid::Uuid::new_v4().to_string()
}

/// Relies on `SliceRandom::shuffle` with the thread-local generator: the same
/// values, each as often as before, in a random order.
#[verifier::external_body]
pub(crate) fn shuffled(v: Vec<usize>) -> (r: Vec<usize>)
    ensures
        r@.to_multiset() == v@.to_multiset(),
{
    let mut v = v;
    v.shuffle(&mut rand::thread_rng());
    v
}

/// `r` holds two elements of `ids` taken at two different positions.
pub open spec fn two_at_distinct_positions(r: Seq<String>, ids: Seq<String>) -> bool {
    &&& r.len() == 2
    &&& exists|a: int, b: int|
        0 <= a < ids.len() && 0 <= b < ids.len() && a != b && r[0] == ids[a] && r[1] == ids[b]
}

/// Relies on `SliceRandom::choose_multiple` with the thread-local generator,
/// which samples positions without repetition: from two or more ids, two taken
/// at distinct positions.
#[verifier::external_body]
pub(crate) fn choose_two(ids: &Vec<String>) -> (r: Vec<String>)
    ensures
        ids@.len() >= 2 ==> two_at_distinct_positions(r@, ids@),
{
    ids.choose_multiple(&mut rand::thread_rng(), 2).cloned().collect()
}

} // verus!
