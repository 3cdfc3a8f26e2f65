//! Exact sums of amounts, and when they stay within 128 bits.

use vstd::prelude::*;

verus! {

/// The exact sum of the terms.
pub open spec fn sum(terms: Seq<int>) -> int
    decreases terms.len(),
{
    if terms.len() == 0 {
        0
    } else {
        sum(terms.drop_last()) + terms.last()
    }
}

/// Whether a number can be held in 128 signed bits.
pub open spec fn fits_i128(value: int) -> bool {
    i128::MIN <= value <= i128::MAX
}

/// Whether the sum that starts at `start` and takes in the terms one by one can be held in 128
/// signed bits all the way.
pub open spec fn running_sum_fits(start: int, terms: Seq<int>) -> bool {
    forall|n: int| 0 <= n <= terms.len() ==> fits_i128(start + sum(#[trigger] terms.take(n)))
}

/// Amounts as exact numbers.
pub open spec fn exact(amounts: Seq<i128>) -> Seq<int> {
    amounts.map_values(|amount: i128| amount as int)
}

/// One more term adds itself to the sum of the terms before it.
pub proof fn lemma_sum_take(terms: Seq<int>, n: int)
    requires
        0 <= n < terms.len(),
    ensures
        sum(terms.take(n + 1)) == sum(terms.take(n)) + terms[n],
{
    assert(terms.take(n + 1).drop_last() =~= terms.take(n));
}

/// The sum of two sequences, one behind the other, is the sum of their sums.
pub proof fn lemma_sum_concat(left: Seq<int>, right: Seq<int>)
    ensures
        sum(left + right) == sum(left) + sum(right),
    decreases right.len(),
{
    if right.len() == 0 {
        assert(left + right =~= left);
    } else {
        assert((left + right).drop_last() =~= left + right.drop_last());
        lemma_sum_concat(left, right.drop_last());
    }
}

/// A running sum that may leave 128 bits on the way: how often it went round, and what is left.
#[derive(Clone, Copy, Debug)]
pub struct WideSum {
    pub high: i128,
    pub low: i128,
}

impl WideSum {
    /// The exact sum.
    pub open spec fn value(self) -> int {
        self.high * 0x1_0000_0000_0000_0000_0000_0000_0000_0000 + self.low
    }

    /// The sum that starts at the number.
    pub fn start(number: i128) -> (sum: WideSum)
        ensures
            sum.value() == number,
            sum.high == 0,
    {
        WideSum { high: 0, low: number }
    }

    /// Takes one more term in.
    pub fn take_in(&mut self, term: i128)
        requires
            i128::MIN < old(self).high < i128::MAX,
        ensures
            final(self).value() == old(self).value() + term,
            old(self).high - 1 <= final(self).high <= old(self).high + 1,
    {
        match self.low.checked_add(term) {
            Some(low) => {
                self.low = low;
            },
            None => if term > 0 {
                self.low = (self.low + i128::MIN) + (term + i128::MIN);
                self.high = self.high + 1;
            } else {
                self.low = (self.low - i128::MIN) + (term - i128::MIN);
                self.high = self.high - 1;
            },
        }
    }

    /// The sum, if it can be held in 128 bits.
    pub fn total(&self) -> (total: Option<i128>)
        ensures
            match total {
                Some(number) => number == self.value(),
                None => !fits_i128(self.value()),
            },
    {
        if self.high == 0 {
            Some(self.low)
        } else {
            None
        }
    }
}

} // verus!
