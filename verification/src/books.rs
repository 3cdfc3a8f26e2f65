//! Books: what each one holds, and the registry of those in memory.

use crate::accounts::AccountId;
use crate::currency::Currency;
use crate::journal::JournalEntryBytes;
use crate::sums;
use crate::sums::WideSum;
use crate::vec_map::MapKey;
use std::collections::{HashMap, VecDeque};
use vstd::prelude::*;

verus! {

broadcast use vstd::std_specs::hash::group_hash_axioms;

/// Names a book.
pub type BookId = u64;

/// The books in memory, each under its identifier.
pub type BookRegistryMap = HashMap<BookId, BookState>;

/// Which balance of an account a book keeps.
#[derive(Clone, Copy, Debug, PartialEq, Eq, Hash, Structural)]
pub enum BalanceType {
    Current,
    Available,
    Hold,
}

impl MapKey for (Currency, BalanceType) {
    fn same(&self, other: &Self) -> (same: bool) {
        self.0 == other.0 && self.1 == other.1
    }
}

impl MapKey for (AccountId, Currency, BalanceType) {
    fn same(&self, other: &Self) -> (same: bool) {
        self.0 == other.0 && self.1 == other.1 && self.2 == other.2
    }
}

/// A book in memory: the balance rolled up so far, the entries that the journal holds but the
/// roll-up does not, and the amounts that wait for the journal.
#[derive(Debug)]
pub struct BookState {
    pub running_balance: i128,
    pub durable_pending_rollup: VecDeque<JournalEntryBytes>,
    pub pending_journal: VecDeque<i128>,
}

/// What a book in memory stands for.
#[verifier::ext_equal]
pub struct BookView {
    pub running_balance: i128,
    pub durable: Seq<JournalEntryBytes>,
    pub pending: Seq<i128>,
}

/// The amounts of journal entries.
pub open spec fn entry_amounts(entries: Seq<JournalEntryBytes>) -> Seq<int> {
    entries.map_values(|entry: JournalEntryBytes| entry.amount())
}

impl BookView {
    /// Every amount that the roll-up does not hold yet, oldest first.
    pub open spec fn amounts(self) -> Seq<int> {
        entry_amounts(self.durable) + sums::exact(self.pending)
    }

    /// The balance with everything that is accepted taken in.
    pub open spec fn balance(self) -> int {
        self.running_balance + sums::sum(self.amounts())
    }

    /// The balance can be held in 128 bits.
    pub open spec fn fits(self) -> bool {
        sums::fits_i128(self.balance())
    }

    /// The book with further amounts waiting for the journal.
    pub open spec fn staged(self, amounts: Seq<i128>) -> BookView {
        BookView { pending: self.pending + amounts, ..self }
    }

    /// The book without the `n` amounts that have waited longest.
    pub open spec fn released(self, n: int) -> BookView {
        BookView { pending: self.pending.skip(n), ..self }
    }

    /// The book with journal entries recorded in place of as many waiting amounts.
    pub open spec fn settled(self, entries: Seq<JournalEntryBytes>) -> BookView {
        BookView {
            durable: self.durable + entries,
            pending: self.pending.skip(entries.len() as int),
            ..self
        }
    }
}

/// A book that nothing was ever posted to.
pub open spec fn empty_book() -> BookView {
    BookView { running_balance: 0, durable: Seq::empty(), pending: Seq::empty() }
}

impl View for BookState {
    type V = BookView;

    open spec fn view(&self) -> BookView {
        BookView {
            running_balance: self.running_balance,
            durable: self.durable_pending_rollup@,
            pending: self.pending_journal@,
        }
    }
}

impl BookState {
    /// A book that nothing was ever posted to.
    pub fn new() -> (state: BookState)
        ensures
            state@ == empty_book(),
    {
        BookState {
            running_balance: 0,
            durable_pending_rollup: VecDeque::new(),
            pending_journal: VecDeque::new(),
        }
    }

    /// The balance with everything that is accepted taken in, if it can be held in 128 bits.
    fn total(&self) -> (total: Option<i128>)
        ensures
            match total {
                Some(balance) => balance == self@.balance(),
                None => !self@.fits(),
            },
    {
        let ghost amounts = self@.amounts();
        let ghost split = self.durable_pending_rollup@.len() as int;
        let mut sum = WideSum::start(self.running_balance);
        proof {
            assert(amounts.take(0) =~= Seq::empty());
        }
        let mut i: usize = 0;
        while i < self.durable_pending_rollup.len()
            invariant
                i <= self.durable_pending_rollup@.len(),
                amounts == self@.amounts(),
                sum.value() == self.running_balance + sums::sum(amounts.take(i as int)),
                -i <= sum.high <= i,
            decreases self.durable_pending_rollup@.len() - i,
        {
            let value = self.durable_pending_rollup[i].amount_value();
            proof {
                assert(amounts[i as int] == value);
                sums::lemma_sum_take(amounts, i as int);
            }
            sum.take_in(value);
            i = i + 1;
        }
        let mut k: usize = 0;
        while k < self.pending_journal.len()
            invariant
                k <= self.pending_journal@.len(),
                split == self.durable_pending_rollup@.len(),
                split <= usize::MAX,
                amounts == self@.amounts(),
                sum.value() == self.running_balance + sums::sum(amounts.take(split + k)),
                -split - k <= sum.high <= split + k,
            decreases self.pending_journal@.len() - k,
        {
            let value: i128 = self.pending_journal[k];
            proof {
                assert(amounts[split + k] == value);
                sums::lemma_sum_take(amounts, split + k);
            }
            sum.take_in(value);
            k = k + 1;
        }
        proof {
            assert(amounts.take(split + k) =~= amounts);
        }
        sum.total()
    }

    /// The balance with everything that is accepted taken in.
    pub fn balance(&self) -> (balance: i128)
        requires
            self@.fits(),
        ensures
            balance == self@.balance(),
    {
        match self.total() {
            Some(balance) => balance,
            None => {
                assert(false);
                0
            },
        }
    }

    /// Whether the balance can be held in 128 bits.
    pub fn balance_fits(&self) -> (fits: bool)
        ensures
            fits == self@.fits(),
    {
        self.total().is_some()
    }

    /// Lets one more amount wait for the journal.
    pub fn stage(&mut self, amount: i128)
        ensures
            final(self)@ == old(self)@.staged(seq![amount]),
    {
        self.pending_journal.push_back(amount);
        assert(self@ =~= old(self)@.staged(seq![amount]));
    }

    /// Drops the `n` amounts that have waited longest.
    pub fn release(&mut self, n: usize)
        requires
            n <= old(self)@.pending.len(),
        ensures
            final(self)@ == old(self)@.released(n as int),
    {
        let ghost before = self@;
        let mut i: usize = 0;
        assert(before.pending.skip(0) =~= before.pending);
        while i < n
            invariant
                i <= n <= before.pending.len(),
                self@ == before.released(i as int),
            decreases n - i,
        {
            let _ = self.pending_journal.pop_front();
            assert(self@ =~= before.released(i + 1));
            i = i + 1;
        }
    }

    /// Records journal entries in place of as many waiting amounts.
    pub fn settle(&mut self, entries: &Vec<JournalEntryBytes>)
        requires
            entries@.len() <= old(self)@.pending.len(),
        ensures
            final(self)@ == old(self)@.settled(entries@),
    {
        let ghost before = self@;
        let n = entries.len();
        self.release(n);
        let mut i: usize = 0;
        while i < n
            invariant
                i <= n == entries@.len(),
                self@ == (BookView {
                    durable: before.durable + entries@.take(i as int),
                    ..before.released(n as int)
                }),
            decreases n - i,
        {
            self.durable_pending_rollup.push_back(entries[i]);
            assert(self@ =~= (BookView {
                durable: before.durable + entries@.take(i + 1),
                ..before.released(n as int)
            }));
            i = i + 1;
        }
        assert(entries@.take(n as int) =~= entries@);
    }
}

/// Who owns a book that an operation posts to, and whether it may go below zero.
#[derive(Clone, Copy, Debug)]
pub struct InScopeBook {
    pub account_id: AccountId,
    pub allow_overdraft: bool,
}

/// The books in memory.
#[derive(Debug)]
pub struct BookRegistry {
    pub map: BookRegistryMap,
}

/// What each book in memory stands for.
pub open spec fn books_view(map: Map<BookId, BookState>) -> Map<BookId, BookView> {
    map.map_values(|state: BookState| state@)
}

/// Putting a book in place puts in place what it stands for.
pub(crate) proof fn lemma_books_view_insert(
    map: Map<BookId, BookState>,
    id: BookId,
    state: BookState,
)
    ensures
        books_view(map.insert(id, state)) == books_view(map).insert(id, state@),
{
    assert(books_view(map.insert(id, state)) =~= books_view(map).insert(id, state@));
}

impl View for BookRegistry {
    type V = Map<BookId, BookView>;

    open spec fn view(&self) -> Map<BookId, BookView> {
        books_view(self.map@)
    }
}

/// The books with those of `ids` that are missing loaded.
pub open spec fn with_books(books: Map<BookId, BookView>, ids: Seq<BookId>) -> Map<
    BookId,
    BookView,
> {
    Map::new(
        |id: BookId| books.contains_key(id) || ids.contains(id),
        |id: BookId|
            if books.contains_key(id) {
                books[id]
            } else {
                empty_book()
            },
    )
}

impl BookRegistry {
    /// No book.
    pub fn new() -> (registry: BookRegistry)
        ensures
            registry@ == Map::<BookId, BookView>::empty(),
    {
        let registry = BookRegistry { map: HashMap::new() };
        assert(registry@ =~= Map::<BookId, BookView>::empty());
        registry
    }

    /// Loads the books that are missing, and lists those asked for, each once, in the order in
    /// which they were first asked for.
    pub fn get_books(&mut self, ids: &Vec<BookId>) -> (loaded: Vec<BookId>)
        ensures
            final(self)@ == with_books(old(self)@, ids@),
            loaded@ == distinct(ids@),
    {
        let ghost before = self@;
        let mut loaded: Vec<BookId> = Vec::new();
        let mut i: usize = 0;
        assert(self@ =~= with_books(before, ids@.take(0)));
        while i < ids.len()
            invariant
                i <= ids@.len(),
                self@ == with_books(before, ids@.take(i as int)),
                loaded@ == distinct(ids@.take(i as int)),
            decreases ids@.len() - i,
        {
            let id: BookId = ids[i];
            let ghost seen = ids@.take(i as int);
            let ghost map = self.map@;
            proof {
                assert(ids@.take(i + 1).drop_last() =~= seen);
                lemma_distinct(seen);
                lemma_take_contains(ids@, i as int);
            }
            if !self.map.contains_key(&id) {
                assert(!self@.contains_key(id));
                let state = BookState::new();
                self.map.insert(id, state);
                proof {
                    lemma_books_view_insert(map, id, state);
                }
            } else {
                assert(self@.contains_key(id));
            }
            assert(self@ =~= with_books(before, ids@.take(i + 1)));
            if !contains_id(&loaded, id) {
                loaded.push(id);
            }
            i = i + 1;
        }
        assert(ids@.take(i as int) =~= ids@);
        loaded
    }
}

/// The identifiers, each once, in the order in which they first occur.
pub open spec fn distinct(ids: Seq<u64>) -> Seq<u64>
    decreases ids.len(),
{
    if ids.len() == 0 {
        Seq::empty()
    } else {
        let before = distinct(ids.drop_last());
        if before.contains(ids.last()) {
            before
        } else {
            before.push(ids.last())
        }
    }
}

/// The distinct identifiers are those that occur, and none stands twice.
pub proof fn lemma_distinct(ids: Seq<u64>)
    ensures
        distinct(ids).no_duplicates(),
        forall|id: u64| #[trigger] distinct(ids).contains(id) <==> ids.contains(id),
    decreases ids.len(),
{
    if ids.len() > 0 {
        let rest = ids.drop_last();
        let last = ids.last();
        lemma_distinct(rest);
        assert forall|id: u64| #[trigger] distinct(ids).contains(id) <==> ids.contains(id) by {
            assert(ids.contains(id) <==> (rest.contains(id) || id == last)) by {
                if rest.contains(id) {
                    let k = choose|k: int| 0 <= k < rest.len() && rest[k] == id;
                    assert(ids[k] == id);
                }
                if ids.contains(id) && id != last {
                    let k = choose|k: int| 0 <= k < ids.len() && ids[k] == id;
                    assert(rest[k] == id);
                }
                assert(ids[ids.len() - 1] == last);
            }
            let before = distinct(rest);
            if !before.contains(last) {
                assert(before.push(last)[before.len() as int] == last);
                if before.contains(id) {
                    let k = choose|k: int| 0 <= k < before.len() && before[k] == id;
                    assert(before.push(last)[k] == id);
                }
            }
        }
    }
}

/// The first identifiers and the next one are the first and one more.
pub(crate) proof fn lemma_take_contains(ids: Seq<u64>, i: int)
    requires
        0 <= i < ids.len(),
    ensures
        forall|id: u64| #[trigger]
            ids.take(i + 1).contains(id) <==> ids.take(i).contains(id) || id == ids[i],
{
    let seen = ids.take(i);
    let next = ids.take(i + 1);
    assert forall|id: u64| #[trigger] next.contains(id) <==> seen.contains(id) || id == ids[i] by {
        if seen.contains(id) {
            let k = choose|k: int| 0 <= k < seen.len() && seen[k] == id;
            assert(next[k] == id);
        }
        if next.contains(id) && id != ids[i] {
            let k = choose|k: int| 0 <= k < next.len() && next[k] == id;
            assert(seen[k] == id);
        }
        assert(next[i] == ids[i]);
    }
}

/// Whether the identifier is listed.
pub(crate) fn contains_id(ids: &Vec<u64>, id: u64) -> (found: bool)
    ensures
        found == ids@.contains(id),
{
    let mut i: usize = 0;
    while i < ids.len()
        invariant
            i <= ids@.len(),
            forall|k: int| 0 <= k < i ==> ids@[k] != id,
        decreases ids@.len() - i,
    {
        if ids[i] == id {
            return true;
        }
        i = i + 1;
    }
    false
}

} // verus!
