//! The calls into the `rand` crate.
//!
//! Nothing is known of a random outcome except what holds of every outcome:
//! Verus takes each contract here on trust.

use vstd::prelude::*;
use rand::seq::SliceRandom;
use rand::Rng;

verus! {

/// Calls `Rng::gen_range` on the thread's generator with the range
/// `0..bound`. The result lies in that range. `gen_range` panics on an empty
/// range, which `bound > 0` rules out.
#[verifier::external_body]
pub(crate) fn below(bound: u8) -> (r: u8)
    requires
        bound > 0,
    ensures
        r < bound,
{
    rand::thread_rng().gen_range(0..bound)
}

/// Calls `SliceRandom::shuffle` on the list with the thread's generator. The
/// shuffle only swaps elements, so the list holds afterwards what it held
/// before, each element as often as before, in some order.
#[verifier::external_body]
pub(crate) fn shuffle(list: &mut Vec<usize>)
    ensures
        final(list)@.to_multiset() == old(list)@.to_multiset(),
{
    list.shuffle(&mut rand::thread_rng());
}

/// Calls `SliceRandom::choose` on the list with the thread's generator. The
/// result is `None` for an empty list and one of the list's elements
/// otherwise.
#[verifier::external_body]
pub(crate) fn pick_one(list: &[usize]) -> (r: Option<usize>)
    ensures
        list@.len() == 0 ==> r is None,
        list@.len() > 0 ==> r is Some && list@.contains(r.unwrap()),
{
    list.choose(&mut rand::thread_rng()).copied()
}

/// A list with the elements of one that repeats nothing repeats nothing,
/// and holds the same values.
pub proof fn lemma_same_elements(a: Seq<usize>, b: Seq<usize>)
    requires
        a.to_multiset() == b.to_multiset(),
        a.no_duplicates(),
    ensures
        b.no_duplicates(),
        b.len() == a.len(),
        forall|x: usize| a.contains(x) <==> b.contains(x),
{
    broadcast use vstd::seq_lib::group_to_multiset_ensures;

    assert(a.len() == a.to_multiset().len());
    assert(b.len() == b.to_multiset().len());
    a.lemma_multiset_has_no_duplicates();
    b.lemma_multiset_has_no_duplicates_conv();
    assert forall|x: usize| a.contains(x) <==> b.contains(x) by {
        assert(a.contains(x) <==> a.to_multiset().count(x) > 0);
        assert(b.contains(x) <==> b.to_multiset().count(x) > 0);
    }
}

} // verus!
