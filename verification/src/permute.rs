//! Enumeration of the arrangements of `0..n`, and what is taken on trust
//! about it.
//!
//! The enumeration itself is done by another crate, lazily.  The functions
//! below hand its results out one at a time and state, over [`pending`],
//! what they are relied upon to do.

use itertools::{Itertools, Permutations};
use std::ops::Range;
use vstd::prelude::*;

verus! {

/// `p` arranges `0..n`: it has `n` entries, all below `n`, no two alike.
pub open spec fn is_permutation(p: Seq<usize>, n: int) -> bool {
    &&& p.len() == n
    &&& forall|i: int| 0 <= i < n ==> #[trigger] p[i] < n
    &&& forall|i: int, j: int| 0 <= i < n && 0 <= j < n && i != j ==> p[i] != p[j]
}

/// `Permutations` is carried through as it is: nothing inside it is
/// looked at.
#[verifier::external_type_specification]
#[verifier::external_body]
#[verifier::reject_recursive_types(I)]
pub struct ExPermutations<I: Iterator>(Permutations<I>);

/// The arrangements that an enumeration has yet to hand out, in the order
/// in which it will.
pub uninterp spec fn pending(it: Permutations<Range<usize>>) -> Seq<Seq<usize>>;

/// `Itertools::permutations` on `0..n` with length `n`: a fresh enumeration
/// of the arrangements of `0..n`.  Each of them is still to come, and
/// nothing else is.
#[verifier::external_body]
pub(crate) fn permutations(n: usize) -> (it: Permutations<Range<usize>>)
    ensures
        forall|k: int| 0 <= k < pending(it).len() ==> is_permutation(#[trigger] pending(it)[k], n as int),
        forall|p: Seq<usize>| is_permutation(p, n as int) ==> #[trigger] pending(it).contains(p),
{
    (0..n).permutations(n)
}

/// `Iterator::next` on the enumeration: hands out the first arrangement
/// that is still to come, or `None` once there is none left.
#[verifier::external_body]
pub(crate) fn next_permutation(it: &mut Permutations<Range<usize>>) -> (r: Option<Vec<usize>>)
    ensures
        match r {
            Some(p) => pending(*old(it)) == seq![p@] + pending(*final(it)),
            None => pending(*old(it)).len() == 0 && pending(*final(it)).len() == 0,
        },
{
    it.next()
}

} // verus!
