//! Random choices, made by the `rand` crate's thread-local generator.
use vstd::prelude::*;
use crate::value::Type;
use rand::seq::SliceRandom;

verus! {

/// `p` lists every index below `n` exactly once.
pub open spec fn is_permutation(p: Seq<int>, n: nat) -> bool {
    &&& p.len() == n
    &&& forall|i: int| 0 <= i < n ==> 0 <= #[trigger] p[i] < n
    &&& forall|i: int, j: int| 0 <= i < j < n ==> p[i] != p[j]
}

/// `SliceRandom::choose` with `rand::thread_rng()`: a reference to an element
/// picked at random, `None` for an empty list. The contract claims only
/// that the element is one of the list's.
#[verifier::external_body]
pub(crate) fn choose_one(list: &Vec<Type>) -> (r: Option<&Type>)
    ensures
        r is None <==> list@.len() == 0,
        r matches Some(x) ==> exists|i: int| 0 <= i < list@.len() && list@[i] == *x,
{
    list.choose(&mut rand::thread_rng())
}

/// `SliceRandom::shuffle` with `rand::thread_rng()`: the elements put in a
/// random order. The contract claims only that the result is a permutation.
#[verifier::external_body]
pub(crate) fn shuffle_all(list: &mut Vec<Type>)
    ensures
        exists|p: Seq<int>| is_permutation(p, old(list)@.len()) && final(list)@.len() == old(list)@.len()
            && forall|i: int| 0 <= i < old(list)@.len() ==> final(list)@[i] == old(list)@[#[trigger] p[i]],
{
    list.shuffle(&mut rand::thread_rng());
}

} // verus!
