//! A book kept by nature: records on the side of its nature add to it, records on the other side
//! take away.

use crate::accounts::AccountType;
use crate::sums;
use vstd::prelude::*;

verus! {

/// A book: the balance that its cover shows, the records written down since, and those still to be
/// written.
#[derive(Debug)]
pub struct Book {
    pub accounting_type: AccountType,
    pub cover_mirror: i32,
    pub durable_unapplied: Vec<BookRecord>,
    pub pending_write: Vec<BookRecord>,
}

/// One record of a book.
#[derive(Debug)]
pub struct BookRecord {
    pub accounting_type: AccountType,
    pub amount: i32,
    pub ledger_code: String,
    pub operation_id: String,
}

/// What a record adds to a book of the nature stated.
pub open spec fn effect(nature: AccountType, record: BookRecord) -> int {
    if record.accounting_type == nature {
        record.amount as int
    } else {
        -record.amount
    }
}

/// What each record adds.
pub open spec fn effects(nature: AccountType, records: Seq<BookRecord>) -> Seq<int> {
    records.map_values(|record: BookRecord| effect(nature, record))
}

/// Whether a number can be held in 32 signed bits.
pub open spec fn fits_i32(value: int) -> bool {
    i32::MIN <= value <= i32::MAX
}

impl Book {
    /// What every record adds, those written down first.
    pub open spec fn all_effects(self) -> Seq<int> {
        effects(self.accounting_type, self.durable_unapplied@) + effects(
            self.accounting_type,
            self.pending_write@,
        )
    }

    /// The balance with every record taken in.
    pub open spec fn balance(self) -> int {
        self.cover_mirror + sums::sum(self.all_effects())
    }

    /// The balance stays within 32 bits while the records are taken in one by one.
    pub open spec fn balance_fits(self) -> bool {
        forall|n: int|
            0 <= n <= self.all_effects().len() ==> fits_i32(
                self.cover_mirror + sums::sum(#[trigger] self.all_effects().take(n)),
            )
    }

    /// The balance after one more record.
    pub fn apply_entry(&self, initial: i32, e: &BookRecord) -> (balance: i32)
        requires
            fits_i32(initial + effect(self.accounting_type, *e)),
        ensures
            balance == initial + effect(self.accounting_type, *e),
    {
        match (e.accounting_type, self.accounting_type) {
            (AccountType::Debit, AccountType::Debit) => initial + e.amount,
            (AccountType::Credit, AccountType::Debit) => initial - e.amount,
            (AccountType::Debit, AccountType::Credit) => initial - e.amount,
            (AccountType::Credit, AccountType::Credit) => initial + e.amount,
        }
    }

    /// The balance with every record taken in, those written down first.
    pub fn get_balance(&self) -> (balance: i32)
        requires
            self.balance_fits(),
        ensures
            balance == self.balance(),
    {
        let ghost all = self.all_effects();
        let ghost split = self.durable_unapplied@.len() as int;
        let mut running: i32 = self.cover_mirror;
        let mut i: usize = 0;
        assert(all.take(0) =~= Seq::empty());
        while i < self.durable_unapplied.len()
            invariant
                i <= self.durable_unapplied@.len(),
                all == self.all_effects(),
                self.balance_fits(),
                running == self.cover_mirror + sums::sum(all.take(i as int)),
            decreases self.durable_unapplied@.len() - i,
        {
            proof {
                sums::lemma_sum_take(all, i as int);
                assert(fits_i32(self.cover_mirror + sums::sum(self.all_effects().take(i + 1))));
                assert(all[i as int] == effect(
                    self.accounting_type,
                    self.durable_unapplied@[i as int],
                ));
            }
            running = self.apply_entry(running, &self.durable_unapplied[i]);
            i = i + 1;
        }
        let mut k: usize = 0;
        while k < self.pending_write.len()
            invariant
                k <= self.pending_write@.len(),
                split == self.durable_unapplied@.len(),
                all == self.all_effects(),
                self.balance_fits(),
                running == self.cover_mirror + sums::sum(all.take(split + k)),
            decreases self.pending_write@.len() - k,
        {
            proof {
                sums::lemma_sum_take(all, split + k);
                assert(fits_i32(self.cover_mirror + sums::sum(self.all_effects().take(split + k + 1))));
                assert(all[split + k] == effect(
                    self.accounting_type,
                    self.pending_write@[k as int],
                ));
            }
            running = self.apply_entry(running, &self.pending_write[k]);
            k = k + 1;
        }
        assert(all.take(split + k) =~= all);
        running
    }
}

} // verus!
