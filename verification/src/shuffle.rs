//! Shuffle vectors in place.
//!
//! Uses the Fisher-Yates algorithm; only the raw random draw is taken from
//! the outside random number generator, the permutation itself is ordinary
//! verified code. A shuffle rearranges its input: whatever positions the
//! random draws pick, the multiset of elements is unchanged.

use vstd::prelude::*;
use vstd::seq_lib::group_to_multiset_ensures;

verus! {

/// Relies on rand::random_range: a uniform sample from the range `0..n`
/// lies in [0, n). The call panics on an empty range, so `n` must be
/// positive.
#[verifier::external_body]
fn rand_below(n: usize) -> (r: usize)
    requires
        n > 0,
    ensures
        r < n,
{
    rand::random_range(0..n)
}

pub trait Shuffle: Sized {
    /// How a shuffled value relates to the value before the shuffle.
    spec fn shuffle_rel(pre: Self, post: Self) -> bool;

    fn shuffle(&mut self)
        ensures
            Self::shuffle_rel(*old(self), *final(self)),
    ;
}

/// Swapping two positions of a sequence leaves its multiset unchanged.
pub(crate) proof fn lemma_swap_multiset<T>(s: Seq<T>, i: int, j: int)
    requires
        0 <= i < s.len(),
        0 <= j < s.len(),
    ensures
        s.update(i, s[j]).update(j, s[i]).to_multiset() == s.to_multiset(),
{
    broadcast use group_to_multiset_ensures;
    broadcast use vstd::seq_lib::to_multiset_update;

    if i == j {
        assert(s.update(i, s[j]).update(j, s[i]) =~= s);
    } else {
        let s1 = s.update(i, s[j]);
        assert(s1[j] == s[j]);
        assert(s.to_multiset().contains(s[i])) by {
            assert(s.contains(s[i]));
        }
        assert(s1.update(j, s[i]).to_multiset() =~= s.to_multiset());
    }
}

impl<T: Copy> Shuffle for Vec<T> {
    /// A shuffle keeps exactly the elements it was given.
    open spec fn shuffle_rel(pre: Self, post: Self) -> bool {
        post@.to_multiset() == pre@.to_multiset() && post@.len() == pre@.len()
    }

    fn shuffle(&mut self) {
        broadcast use group_to_multiset_ensures;

        let n = self.len();
        let mut i: usize = n;
        while i > 1
            invariant
                i <= n,
                self@.len() == n,
                self@.to_multiset() == old(self)@.to_multiset(),
            decreases i,
        {
            i -= 1;
            let j = rand_below(i + 1);
            let vi = self[i];
            let vj = self[j];
            let ghost prev = self@;
            self[i] = vj;
            self[j] = vi;
            proof {
                lemma_swap_multiset(prev, i as int, j as int);
            }
        }
        proof {
            assert(Self::shuffle_rel(*old(self), *self)) by {
                assert(self@.to_multiset() == old(self)@.to_multiset());
                vstd::seq_lib::to_multiset_len(self@);
                vstd::seq_lib::to_multiset_len(old(self)@);
            }
        }
    }
}

} // verus!
