use vstd::prelude::*;
use rand::seq::SliceRandom;

verus! {

#[verifier::external_type_specification]
#[verifier::external_body]
pub struct ExSmallRng(rand::rngs::SmallRng);

/// Relies on rand's SliceRandom::shuffle: it permutes the elements of the
/// slice in place, so the length and the multiset of elements are kept.
#[verifier::external_body]
fn shuffle_pot(pot: &mut Vec<u32>, rng: &mut rand::rngs::SmallRng)
    ensures
        final(pot)@.len() == old(pot)@.len(),
        final(pot)@.to_multiset() == old(pot)@.to_multiset(),
{
    pot.shuffle(rng)
}

/// A pot of lottery balls numbered 1 through the chosen size.
pub struct Lotto {
    pub pot: Vec<u32>,
}

impl Lotto {
    /// A fresh pot holding the numbers 1..=pot_size in order.
    pub fn new(pot_size: u32) -> (l: Lotto)
        ensures
            l.pot@.len() == pot_size,
            forall|i: int| 0 <= i < pot_size ==> l.pot@[i] == i + 1,
    {
        let mut pot: Vec<u32> = Vec::new();
        let mut i: u32 = 0;
        while i < pot_size
            invariant
                i <= pot_size,
                pot@.len() == i,
                forall|k: int| 0 <= k < i ==> pot@[k] == k + 1,
            decreases pot_size - i,
        {
            pot.push(i + 1);
            i += 1;
        }
        Lotto { pot }
    }

    /// Draws `amount` numbers: shuffles the pot in place and returns its
    /// first `amount` elements (all of them when the pot is smaller). The
    /// pot afterwards holds the same numbers as before, reordered.
    pub fn take(&mut self, amount: usize, rng: &mut rand::rngs::SmallRng) -> (r: Vec<u32>)
        ensures
            final(self).pot@.len() == old(self).pot@.len(),
            final(self).pot@.to_multiset() == old(self).pot@.to_multiset(),
            r@.len() == (if amount <= old(self).pot@.len() {
                amount as int
            } else {
                old(self).pot@.len() as int
            }),
            forall|i: int| 0 <= i < r@.len() ==> r@[i] == final(self).pot@[i],
    {
        shuffle_pot(&mut self.pot, rng);
        let n = if amount <= self.pot.len() {
            amount
        } else {
            self.pot.len()
        };
        let mut r: Vec<u32> = Vec::new();
        let mut i: usize = 0;
        while i < n
            invariant
                i <= n,
                n <= self.pot@.len(),
                r@.len() == i,
                forall|k: int| 0 <= k < i ==> r@[k] == self.pot@[k],
            decreases n - i,
        {
            r.push(self.pot[i]);
            i += 1;
        }
        r
    }
}

} // verus!
