use vstd::prelude::*;
use rand::RngExt;
use rand::rngs::ThreadRng;
use rand::seq::{IndexedRandom, IteratorRandom, SliceRandom};

verus! {

/// `rand`'s thread-local generator, carried through opaque.
#[verifier::external_type_specification]
#[verifier::external_body]
pub struct ExThreadRng(ThreadRng);

/// `ThreadRng::clone`: another handle to the same thread-local generator.
/// Nothing is stated of it.
pub assume_specification[ <ThreadRng as Clone>::clone ](rng: &ThreadRng) -> ThreadRng;

/// Calls `rand::rng()`: a handle to the thread-local generator. Nothing is
/// stated of it; it only feeds the random choices below.
#[verifier::external_body]
pub(crate) fn thread_rng() -> ThreadRng {
    rand::rng()
}

/// Calls `RngExt::random_range(0..n)`. For a non-empty range, `rand` returns
/// some value of the range; which one is left open, as it rests on chance.
#[verifier::external_body]
pub(crate) fn random_below(rng: &mut ThreadRng, n: usize) -> (r: usize)
    requires
        n > 0,
    ensures
        r < n,
{
    rng.random_range(0..n)
}

/// Calls `IteratorRandom::sample(rng, amount)` on the items of `items` with
/// `amount` equal to their number. Its source fills the reservoir with the
/// first `amount` items in order and, the iterator being then exhausted,
/// draws nothing more: the result is the items in their given order.
#[verifier::external_body]
pub(crate) fn sample_all<T: Copy>(items: &Vec<T>, rng: &mut ThreadRng) -> (r: Vec<T>)
    ensures
        r@ == items@,
{
    items.iter().copied().sample(rng, items.len())
}

/// Calls `SliceRandom::shuffle` on the items of `items`: they are put in an
/// order drawn at random. Only that the result holds the same items, each as
/// often as before, is stated; the order rests on chance.
#[verifier::external_body]
pub(crate) fn shuffle_all<T>(items: &mut Vec<T>, rng: &mut ThreadRng)
    ensures
        final(items)@.to_multiset() == old(items)@.to_multiset(),
{
    items.shuffle(rng)
}

/// Calls `IndexedRandom::choose` on `items`: `None` for an empty slice, else
/// one of its elements chosen at random.
#[verifier::external_body]
pub(crate) fn choose_one<T: Copy>(items: &Vec<T>, rng: &mut ThreadRng) -> (r: Option<T>)
    ensures
        items@.len() == 0 <==> r is None,
        r matches Some(v) ==> items@.contains(v),
{
    items.choose(rng).copied()
}

} // verus!
