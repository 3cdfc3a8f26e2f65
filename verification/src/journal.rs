//! The journal: the records that it stores, and the operations on their way into it.

use crate::acceptor::{EndingBalances, OperationError, OperationResult};
use crate::books;
use crate::books::{BookId, BookRegistry, BookView};
use crate::bytes;
use crate::bytes::{i128_from_le, i128_to_le, u16_to_le, u32_to_le, u64_to_le};
use std::collections::HashMap;
use vstd::prelude::*;

verus! {

broadcast use vstd::std_specs::hash::group_hash_axioms;

/// The length of a stored record header, in bytes.
pub const JOURNAL_HEADER_LEN: usize = 71;

/// The length of a stored journal entry, in bytes.
pub const JOURNAL_ENTRY_LEN: usize = 38;

/// The cover of the journal as it is stored: how far it is written and how far it is rolled up.
#[derive(Clone, Copy, Debug, PartialEq, Eq)]
pub struct JournalCoverBytes {
    pub checkpoint_page: [u8; 4],
    pub checkpoint_line: [u8; 2],
    pub latest_page: [u8; 4],
    pub latest_line: [u8; 2],
    pub local_floor_page: [u8; 4],
    pub tip_operation_id: [u8; 8],
    pub tip_hash: [u8; 32],
}

/// What a stored cover stands for.
#[verifier::ext_equal]
pub struct JournalCoverView {
    pub checkpoint_page: nat,
    pub checkpoint_line: nat,
    pub latest_page: nat,
    pub latest_line: nat,
    pub local_floor_page: nat,
    pub tip_operation_id: nat,
    pub tip_hash: Seq<u8>,
}

impl View for JournalCoverBytes {
    type V = JournalCoverView;

    open spec fn view(&self) -> JournalCoverView {
        JournalCoverView {
            checkpoint_page: bytes::le_value(self.checkpoint_page@),
            checkpoint_line: bytes::le_value(self.checkpoint_line@),
            latest_page: bytes::le_value(self.latest_page@),
            latest_line: bytes::le_value(self.latest_line@),
            local_floor_page: bytes::le_value(self.local_floor_page@),
            tip_operation_id: bytes::le_value(self.tip_operation_id@),
            tip_hash: self.tip_hash@,
        }
    }
}

/// Thirty-two zero bytes: the hash of nothing.
pub open spec fn no_hash() -> Seq<u8> {
    Seq::new(32, |i: int| 0u8)
}

impl JournalCoverBytes {
    /// The cover of a journal in which nothing is written.
    pub fn blank() -> (cover: JournalCoverBytes)
        ensures
            cover@ == (JournalCoverView {
                checkpoint_page: 0,
                checkpoint_line: 0,
                latest_page: 0,
                latest_line: 0,
                local_floor_page: 0,
                tip_operation_id: 0,
                tip_hash: no_hash(),
            }),
    {
        let tip_hash: [u8; 32] = [0u8; 32];
        assert(tip_hash@ =~= no_hash());
        JournalCoverBytes {
            checkpoint_page: u32_to_le(0),
            checkpoint_line: u16_to_le(0),
            latest_page: u32_to_le(0),
            latest_line: u16_to_le(0),
            local_floor_page: u32_to_le(0),
            tip_operation_id: u64_to_le(0),
            tip_hash,
        }
    }
}

/// The header of one stored operation.
#[derive(Clone, Copy, Debug, PartialEq, Eq)]
pub struct JournalHeaderBytes {
    pub record_length: [u8; 2],
    pub entry_count: u8,
    pub operation_id: [u8; 8],
    pub timestamp_ns: [u8; 8],
    pub idempotency_key: [u8; 16],
    pub checksum: [u8; 4],
    pub prev_hash: [u8; 32],
}

/// What a stored header stands for.
#[verifier::ext_equal]
pub struct JournalHeaderView {
    pub record_length: nat,
    pub entry_count: nat,
    pub operation_id: nat,
    pub timestamp_ns: nat,
    pub idempotency_key: nat,
    pub checksum: nat,
    pub prev_hash: Seq<u8>,
}

impl View for JournalHeaderBytes {
    type V = JournalHeaderView;

    open spec fn view(&self) -> JournalHeaderView {
        JournalHeaderView {
            record_length: bytes::le_value(self.record_length@),
            entry_count: self.entry_count as nat,
            operation_id: bytes::le_value(self.operation_id@),
            timestamp_ns: bytes::le_value(self.timestamp_ns@),
            idempotency_key: bytes::be_value(self.idempotency_key@),
            checksum: bytes::le_value(self.checksum@),
            prev_hash: self.prev_hash@,
        }
    }
}

impl JournalHeaderBytes {
    /// The stored form: the fields one behind the other.
    pub open spec fn encoded(self) -> Seq<u8> {
        self.record_length@ + seq![self.entry_count] + self.operation_id@ + self.timestamp_ns@
            + self.idempotency_key@ + self.checksum@ + self.prev_hash@
    }

    /// The header as it is stored.
    pub fn encode(&self) -> (bytes: Vec<u8>)
        ensures
            bytes@ == self.encoded(),
            bytes@.len() == JOURNAL_HEADER_LEN,
    {
        let mut bytes: Vec<u8> = Vec::with_capacity(JOURNAL_HEADER_LEN);
        push_all(&mut bytes, self.record_length.as_slice());
        bytes.push(self.entry_count);
        push_all(&mut bytes, self.operation_id.as_slice());
        push_all(&mut bytes, self.timestamp_ns.as_slice());
        push_all(&mut bytes, self.idempotency_key.as_slice());
        push_all(&mut bytes, self.checksum.as_slice());
        push_all(&mut bytes, self.prev_hash.as_slice());
        assert(bytes@ =~= self.encoded());
        bytes
    }
}

/// One journal entry as it is stored.
#[derive(Clone, Copy, Debug, PartialEq, Eq)]
pub struct JournalEntryBytes {
    pub target_book_id: [u8; 8],
    pub target_page: [u8; 4],
    pub target_line: [u8; 2],
    pub amount: [u8; 16],
    pub ledger_code: [u8; 8],
}

/// What a stored entry stands for.
#[verifier::ext_equal]
pub struct JournalEntryView {
    pub target_book_id: nat,
    pub target_page: nat,
    pub target_line: nat,
    pub amount: int,
    pub ledger_code: Seq<u8>,
}

impl View for JournalEntryBytes {
    type V = JournalEntryView;

    open spec fn view(&self) -> JournalEntryView {
        JournalEntryView {
            target_book_id: bytes::le_value(self.target_book_id@),
            target_page: bytes::le_value(self.target_page@),
            target_line: bytes::le_value(self.target_line@),
            amount: self.amount(),
            ledger_code: self.ledger_code@,
        }
    }
}

impl JournalEntryBytes {
    /// The amount that the entry stores.
    pub open spec fn amount(self) -> int {
        bytes::signed_le_value(self.amount@)
    }

    /// An entry whose place in its book is not assigned yet.
    pub fn unplaced(book_id: BookId, amount: i128, ledger_code: [u8; 8]) -> (entry:
        JournalEntryBytes)
        ensures
            entry@ == unplaced_entry(book_id, amount, ledger_code@),
    {
        JournalEntryBytes {
            target_book_id: u64_to_le(book_id),
            target_page: u32_to_le(0),
            target_line: u16_to_le(0),
            amount: i128_to_le(amount),
            ledger_code,
        }
    }

    /// The amount that the entry stores.
    pub fn amount_value(&self) -> (amount: i128)
        ensures
            amount == self.amount(),
    {
        i128_from_le(self.amount)
    }

    /// The stored form: the fields one behind the other.
    pub open spec fn encoded(self) -> Seq<u8> {
        self.target_book_id@ + self.target_page@ + self.target_line@ + self.amount@
            + self.ledger_code@
    }

    /// The entry as it is stored.
    pub fn encode(&self) -> (bytes: Vec<u8>)
        ensures
            bytes@ == self.encoded(),
            bytes@.len() == JOURNAL_ENTRY_LEN,
    {
        let mut bytes: Vec<u8> = Vec::with_capacity(JOURNAL_ENTRY_LEN);
        push_all(&mut bytes, self.target_book_id.as_slice());
        push_all(&mut bytes, self.target_page.as_slice());
        push_all(&mut bytes, self.target_line.as_slice());
        push_all(&mut bytes, self.amount.as_slice());
        push_all(&mut bytes, self.ledger_code.as_slice());
        assert(bytes@ =~= self.encoded());
        bytes
    }
}

/// What an entry stands for whose place in its book is not assigned yet.
pub open spec fn unplaced_entry(
    book_id: BookId,
    amount: i128,
    ledger_code: Seq<u8>,
) -> JournalEntryView {
    JournalEntryView {
        target_book_id: book_id as nat,
        target_page: 0,
        target_line: 0,
        amount: amount as int,
        ledger_code,
    }
}

/// Puts the bytes behind those already there.
pub(crate) fn push_all(bytes: &mut Vec<u8>, more: &[u8])
    ensures
        final(bytes)@ == old(bytes)@ + more@,
{
    bytes.extend_from_slice(more);
    assert(bytes@ =~= old(bytes)@ + more@);
}

/// The entries that one operation posts to one book.
#[derive(Debug)]
pub struct BookContribution {
    pub book_id: BookId,
    pub entries: Vec<JournalEntryBytes>,
}

/// What a contribution stands for.
#[verifier::ext_equal]
pub struct ContributionView {
    pub book_id: BookId,
    pub entries: Seq<JournalEntryBytes>,
}

impl View for BookContribution {
    type V = ContributionView;

    open spec fn view(&self) -> ContributionView {
        ContributionView { book_id: self.book_id, entries: self.entries@ }
    }
}

/// The entries that the contributions post to one book, in order.
pub open spec fn entries_for(contributions: Seq<ContributionView>, id: BookId) -> Seq<
    JournalEntryBytes,
>
    decreases contributions.len(),
{
    if contributions.len() == 0 {
        Seq::empty()
    } else {
        let before = entries_for(contributions.drop_last(), id);
        if contributions.last().book_id == id {
            before + contributions.last().entries
        } else {
            before
        }
    }
}

/// Whether every book that is contributed to is in memory, with at least as many amounts waiting
/// for the journal as are contributed.
pub open spec fn covered(
    books: Map<BookId, BookView>,
    contributions: Seq<ContributionView>,
) -> bool {
    forall|i: int|
        0 <= i < contributions.len() ==> books.contains_key(
            (#[trigger] contributions[i]).book_id,
        ) && entries_for(contributions, contributions[i].book_id).len()
            <= books[contributions[i].book_id].pending.len()
}

/// The books once the contributions are in the journal.
pub open spec fn settled(
    books: Map<BookId, BookView>,
    contributions: Seq<ContributionView>,
) -> Map<BookId, BookView> {
    Map::new(
        |id: BookId| books.contains_key(id),
        |id: BookId| books[id].settled(entries_for(contributions, id)),
    )
}

/// The books once the contributions are given up.
pub open spec fn released(
    books: Map<BookId, BookView>,
    contributions: Seq<ContributionView>,
) -> Map<BookId, BookView> {
    Map::new(
        |id: BookId| books.contains_key(id),
        |id: BookId| books[id].released(entries_for(contributions, id).len() as int),
    )
}

/// Contributions behind one another post, to each book, entries behind one another.
pub proof fn lemma_entries_concat(
    left: Seq<ContributionView>,
    right: Seq<ContributionView>,
    id: BookId,
)
    ensures
        entries_for(left + right, id) == entries_for(left, id) + entries_for(right, id),
    decreases right.len(),
{
    if right.len() == 0 {
        assert(left + right =~= left);
        assert(entries_for(left, id) + entries_for(right, id) =~= entries_for(left, id));
    } else {
        assert((left + right).drop_last() =~= left + right.drop_last());
        lemma_entries_concat(left, right.drop_last(), id);
        assert(entries_for(left + right, id) =~= entries_for(left, id) + entries_for(right, id));
    }
}

/// The contributions up to and with the one at `i` post what those before it and it itself post.
proof fn lemma_entries_take(contributions: Seq<ContributionView>, i: int, id: BookId)
    requires
        0 <= i < contributions.len(),
    ensures
        entries_for(contributions.take(i + 1), id) == if contributions[i].book_id == id {
            entries_for(contributions.take(i), id) + contributions[i].entries
        } else {
            entries_for(contributions.take(i), id)
        },
        entries_for(contributions.take(i + 1), id).len() <= entries_for(contributions, id).len(),
{
    assert(contributions.take(i + 1).drop_last() =~= contributions.take(i));
    assert(contributions =~= contributions.take(i + 1) + contributions.skip(i + 1));
    lemma_entries_concat(contributions.take(i + 1), contributions.skip(i + 1), id);
}

/// An accepted operation on its way into the journal, with what its answer goes to.
#[derive(Debug)]
pub struct WriteCommand<R> {
    pub header: JournalHeaderBytes,
    pub book_contributions: Vec<BookContribution>,
    pub ending_balances: EndingBalances,
    pub response_tx: R,
}

/// Operations that go to the journal together.
pub type WriterBuffer<R> = Vec<WriteCommand<R>>;

/// The answer to an operation.
pub type Reply = Result<OperationResult, OperationError>;

impl<R> WriteCommand<R> {
    /// What the operation posts to each book.
    pub open spec fn contributions(self) -> Seq<ContributionView> {
        self.book_contributions@.map_values(|contribution: BookContribution| contribution@)
    }

    /// Gives the operation up for the reason stated: the amounts that have waited longest leave
    /// its books, as many as it posted, and the reason is its answer.
    pub fn abort(self, books: &mut BookRegistry, reason: OperationError) -> (answer: (R, Reply))
        requires
            covered(old(books)@, self.contributions()),
        ensures
            final(books)@ == released(old(books)@, self.contributions()),
            answer.0 == self.response_tx,
            answer.1 == Err::<OperationResult, OperationError>(reason),
    {
        let ghost before = books@;
        let ghost contributions = self.contributions();
        let mut i: usize = 0;
        assert(contributions.take(0) =~= Seq::empty());
        assert(books@ =~= released(before, contributions.take(0))) by {
            assert forall|id: BookId| before.contains_key(id) implies before[id].released(0)
                == before[id] by {
                assert(before[id].pending.skip(0) =~= before[id].pending);
            }
        }
        while i < self.book_contributions.len()
            invariant
                i <= self.book_contributions@.len(),
                contributions == self.contributions(),
                covered(before, contributions),
                books@ == released(before, contributions.take(i as int)),
            decreases self.book_contributions@.len() - i,
        {
            let id: BookId = self.book_contributions[i].book_id;
            let n = self.book_contributions[i].entries.len();
            let ghost done = contributions.take(i as int);
            let ghost map = books.map@;
            let ghost view = books@;
            proof {
                assert(contributions[i as int] == self.book_contributions@[i as int]@);
                lemma_entries_take(contributions, i as int, id);
                assert(before.contains_key(contributions[i as int].book_id));
                assert(view.contains_key(id));
                assert(map.contains_key(id));
            }
            match books.map.remove(&id) {
                Some(mut state) => {
                    assert(state@ == view[id]);
                    state.release(n);
                    books.map.insert(id, state);
                    proof {
                        assert(map.remove(id).insert(id, state) =~= map.insert(id, state));
                        books::lemma_books_view_insert(map, id, state);
                        assert(books@ == view.insert(id, state@));
                        assert forall|other: BookId| before.contains_key(other) implies #[trigger] books@[other]
                            == before[other].released(
                            entries_for(contributions.take(i + 1), other).len() as int,
                        ) by {
                            lemma_entries_take(contributions, i as int, other);
                            if other == id {
                                let m = entries_for(done, id).len() as int;
                                assert(before[id].pending.skip(m).skip(n as int)
                                    =~= before[id].pending.skip(m + n));
                            }
                        }
                        assert(books@ =~= released(before, contributions.take(i + 1)));
                    }
                },
                None => {
                    assert(false);
                },
            }
            i = i + 1;
        }
        assert(contributions.take(i as int) =~= contributions);
        (self.response_tx, Err(reason))
    }

    /// Answers that the operation is in the journal: its entries are recorded in its books, in
    /// place of the amounts that have waited longest, and its ending balances are its answer.
    pub fn ack(self, books: &mut BookRegistry) -> (answer: (R, Reply))
        requires
            covered(old(books)@, self.contributions()),
        ensures
            final(books)@ == settled(old(books)@, self.contributions()),
            answer.0 == self.response_tx,
            answer.1 == Ok::<OperationResult, OperationError>(
                OperationResult::Accepted(self.ending_balances),
            ),
    {
        let ghost before = books@;
        let ghost contributions = self.contributions();
        let mut i: usize = 0;
        assert(contributions.take(0) =~= Seq::empty());
        assert(books@ =~= settled(before, contributions.take(0))) by {
            assert forall|id: BookId| before.contains_key(id) implies before[id].settled(
                Seq::empty(),
            ) == before[id] by {
                assert(before[id].settled(Seq::empty()) =~= before[id]);
            }
        }
        while i < self.book_contributions.len()
            invariant
                i <= self.book_contributions@.len(),
                contributions == self.contributions(),
                covered(before, contributions),
                books@ == settled(before, contributions.take(i as int)),
            decreases self.book_contributions@.len() - i,
        {
            let id: BookId = self.book_contributions[i].book_id;
            let ghost done = contributions.take(i as int);
            let ghost map = books.map@;
            let ghost view = books@;
            let ghost entries = self.book_contributions@[i as int].entries@;
            proof {
                assert(contributions[i as int] == self.book_contributions@[i as int]@);
                lemma_entries_take(contributions, i as int, id);
                assert(before.contains_key(contributions[i as int].book_id));
                assert(view.contains_key(id));
                assert(map.contains_key(id));
            }
            match books.map.remove(&id) {
                Some(mut state) => {
                    assert(state@ == view[id]);
                    state.settle(&self.book_contributions[i].entries);
                    books.map.insert(id, state);
                    proof {
                        assert(map.remove(id).insert(id, state) =~= map.insert(id, state));
                        books::lemma_books_view_insert(map, id, state);
                        assert(books@ == view.insert(id, state@));
                        assert forall|other: BookId| before.contains_key(other) implies #[trigger] books@[other]
                            == before[other].settled(
                            entries_for(contributions.take(i + 1), other),
                        ) by {
                            lemma_entries_take(contributions, i as int, other);
                            if other == id {
                                let prior = entries_for(done, id);
                                assert(before[id].settled(prior).settled(entries)
                                    =~= before[id].settled(prior + entries));
                            }
                        }
                        assert(books@ =~= settled(before, contributions.take(i + 1)));
                    }
                },
                None => {
                    assert(false);
                },
            }
            i = i + 1;
        }
        assert(contributions.take(i as int) =~= contributions);
        (self.response_tx, Ok(OperationResult::Accepted(self.ending_balances)))
    }
}

/// What the operations of a batch post to each book, in order.
pub open spec fn batch_contributions<R>(batch: Seq<WriteCommand<R>>) -> Seq<ContributionView>
    decreases batch.len(),
{
    if batch.len() == 0 {
        Seq::empty()
    } else {
        batch_contributions(batch.drop_last()) + batch.last().contributions()
    }
}

/// The batch up to and with the command at `i` posts what those before it and it itself post, and
/// the whole batch posts that first.
proof fn lemma_batch_take<R>(batch: Seq<WriteCommand<R>>, i: int)
    requires
        0 <= i < batch.len(),
    ensures
        batch_contributions(batch.take(i + 1)) == batch_contributions(batch.take(i))
            + batch[i].contributions(),
        exists|rest: Seq<ContributionView>|
            #![trigger batch_contributions(batch.take(i + 1)) + rest]
            batch_contributions(batch) == batch_contributions(batch.take(i + 1)) + rest,
    decreases batch.len(),
{
    assert(batch.take(i + 1).drop_last() =~= batch.take(i));
    if i + 1 < batch.len() {
        let front = batch.drop_last();
        assert(front.take(i + 1) =~= batch.take(i + 1));
        assert(front.take(i) =~= batch.take(i));
        lemma_batch_take(front, i);
        let rest = choose|rest: Seq<ContributionView>|
            #![trigger batch_contributions(front.take(i + 1)) + rest]
            batch_contributions(front) == batch_contributions(front.take(i + 1)) + rest;
        let more = rest + batch.last().contributions();
        assert(batch_contributions(batch) =~= batch_contributions(batch.take(i + 1)) + more);
    } else {
        assert(batch.take(i + 1) =~= batch);
        assert(batch_contributions(batch) =~= batch_contributions(batch.take(i + 1))
            + Seq::<ContributionView>::empty());
    }
}

/// Books that cover contributions cover the later ones still once the earlier ones are settled or
/// released, and settle or release them all by settling or releasing them in turn.
pub proof fn lemma_covered_in_turn(
    books: Map<BookId, BookView>,
    first: Seq<ContributionView>,
    second: Seq<ContributionView>,
)
    requires
        covered(books, first + second),
    ensures
        covered(books, first),
        covered(settled(books, first), second),
        covered(released(books, first), second),
        settled(settled(books, first), second) == settled(books, first + second),
        released(released(books, first), second) == released(books, first + second),
{
    let both = first + second;
    assert forall|id: BookId| #[trigger] entries_for(both, id) == entries_for(first, id)
        + entries_for(second, id) by {
        lemma_entries_concat(first, second, id);
    }
    assert forall|i: int| 0 <= i < first.len() implies books.contains_key(
        (#[trigger] first[i]).book_id,
    ) && entries_for(first, first[i].book_id).len() <= books[first[i].book_id].pending.len() by {
        assert(both[i] == first[i]);
        assert(entries_for(both, first[i].book_id).len() <= books[first[i].book_id].pending.len());
    }
    assert forall|i: int| 0 <= i < second.len() implies books.contains_key(
        (#[trigger] second[i]).book_id,
    ) && entries_for(first, second[i].book_id).len() + entries_for(second, second[i].book_id).len()
        <= books[second[i].book_id].pending.len() by {
        assert(both[first.len() + i] == second[i]);
        assert(entries_for(both, second[i].book_id).len()
            <= books[second[i].book_id].pending.len());
    }
    assert forall|id: BookId| books.contains_key(id) implies entries_for(both, id).len()
        <= books[id].pending.len() by {
        lemma_covered_book(books, both, id);
    }
    assert forall|id: BookId| books.contains_key(id) implies books[id].settled(
        entries_for(first, id),
    ).settled(entries_for(second, id)) == books[id].settled(entries_for(both, id)) by {
        assert(entries_for(both, id).len() <= books[id].pending.len());
        assert(books[id].settled(entries_for(first, id)).settled(entries_for(second, id))
            =~= books[id].settled(entries_for(both, id)));
    }
    assert forall|id: BookId| books.contains_key(id) implies books[id].released(
        entries_for(first, id).len() as int,
    ).released(entries_for(second, id).len() as int) == books[id].released(
        entries_for(both, id).len() as int,
    ) by {
        assert(entries_for(both, id).len() <= books[id].pending.len());
        assert(books[id].released(entries_for(first, id).len() as int).released(
            entries_for(second, id).len() as int,
        ) =~= books[id].released(entries_for(both, id).len() as int));
    }
    assert(settled(settled(books, first), second) =~= settled(books, both));
    assert(released(released(books, first), second) =~= released(books, both));
}

/// Covered contributions post to no book more entries than amounts wait in it.
pub proof fn lemma_covered_book(
    books: Map<BookId, BookView>,
    contributions: Seq<ContributionView>,
    id: BookId,
)
    requires
        covered(books, contributions),
    ensures
        entries_for(contributions, id).len() > 0 ==> books.contains_key(id),
        books.contains_key(id) ==> entries_for(contributions, id).len() <= books[id].pending.len(),
{
    if entries_for(contributions, id).len() > 0 {
        lemma_posts_to(contributions, id);
        let i = choose|i: int|
            0 <= i < contributions.len() && (#[trigger] contributions[i]).book_id == id;
        assert(books.contains_key(contributions[i].book_id));
    }
}

/// Entries for a book come from a contribution to it.
proof fn lemma_posts_to(contributions: Seq<ContributionView>, id: BookId)
    requires
        entries_for(contributions, id).len() > 0,
    ensures
        exists|i: int| 0 <= i < contributions.len() && (#[trigger] contributions[i]).book_id == id,
    decreases contributions.len(),
{
    let last = contributions.len() - 1;
    if contributions[last].book_id != id {
        let front = contributions.drop_last();
        lemma_posts_to(front, id);
        let i = choose|i: int| 0 <= i < front.len() && (#[trigger] front[i]).book_id == id;
        assert(contributions[i].book_id == id);
    }
}

/// Whether every book that the batch posts to is in memory, with at least as many amounts waiting
/// as the batch posts.
pub fn is_covered<R>(batch: &WriterBuffer<R>, books: &BookRegistry) -> (is: bool)
    ensures
        is == covered(books@, batch_contributions(batch@)),
{
    let ghost all = batch_contributions(batch@);
    let mut left: HashMap<BookId, usize> = HashMap::new();
    let mut i: usize = 0;
    assert(batch@.take(0) =~= Seq::empty());
    while i < batch.len()
        invariant
            i <= batch@.len(),
            all == batch_contributions(batch@),
            tallies(left@, books@, batch_contributions(batch@.take(i as int))),
        decreases batch@.len() - i,
    {
        let command = &batch[i];
        let ghost before = batch_contributions(batch@.take(i as int));
        let ghost own = command.contributions();
        proof {
            lemma_batch_take(batch@, i as int);
        }
        let ghost rest = choose|rest: Seq<ContributionView>|
            #![trigger batch_contributions(batch@.take(i + 1)) + rest]
            batch_contributions(batch@) == batch_contributions(batch@.take(i + 1)) + rest;
        let mut k: usize = 0;
        assert(before + own.take(0) =~= before);
        while k < command.book_contributions.len()
            invariant
                k <= command.book_contributions@.len(),
                own == command.contributions(),
                all == batch_contributions(batch@),
                all == before + own + rest,
                tallies(left@, books@, before + own.take(k as int)),
            decreases command.book_contributions@.len() - k,
        {
            let id: BookId = command.book_contributions[k].book_id;
            let n = command.book_contributions[k].entries.len();
            let ghost done = before + own.take(k as int);
            let ghost tally = left@;
            let ghost one = own[k as int];
            proof {
                assert(one == command.book_contributions@[k as int]@);
                assert(before + own.take(k + 1) =~= done.push(one));
                assert(done.push(one).drop_last() =~= done);
                assert(all =~= done.push(one) + (own.skip(k + 1) + rest));
                lemma_entries_concat(done.push(one), own.skip(k + 1) + rest, id);
                assert(all[done.len() as int] == one);
            }
            let waiting: usize = match left.get(&id) {
                Some(left) => *left,
                None => match books.map.get(&id) {
                    Some(state) => {
                        assert(books@.contains_key(id) && books@[id] == state@);
                        proof {
                            if entries_for(done, id).len() > 0 {
                                lemma_posts_to(done, id);
                            }
                        }
                        state.pending_journal.len()
                    },
                    None => {
                        assert(!books@.contains_key(id));
                        assert(!covered(books@, all));
                        return false;
                    },
                },
            };
            if n > waiting {
                assert(entries_for(all, id).len() > books@[id].pending.len());
                assert(!covered(books@, all));
                return false;
            }
            left.insert(id, waiting - n);
            assert(tallies(left@, books@, done.push(one))) by {
                let next = done.push(one);
                assert forall|j: int| 0 <= j < next.len() implies left@.contains_key(
                    (#[trigger] next[j]).book_id,
                ) by {
                    if j < done.len() {
                        assert(next[j] == done[j]);
                        assert(tally.contains_key(done[j].book_id));
                    }
                }
            }
            k = k + 1;
        }
        assert(own.take(k as int) =~= own);
        i = i + 1;
    }
    assert(batch@.take(i as int) =~= batch@);
    true
}

/// Whether `left` holds, for each book that is contributed to, how many of the amounts that wait in
/// it the contributions leave.
pub open spec fn tallies(
    left: Map<BookId, usize>,
    books: Map<BookId, BookView>,
    contributions: Seq<ContributionView>,
) -> bool {
    &&& forall|i: int|
        0 <= i < contributions.len() ==> left.contains_key((#[trigger] contributions[i]).book_id)
    &&& forall|id: BookId| #[trigger]
        left.contains_key(id) ==> books.contains_key(id) && left[id]
            == books[id].pending.len() - entries_for(contributions, id).len()
}

/// Answers that the operations of a batch are in the journal, one after the other.
pub fn ack_batch<R>(batch: WriterBuffer<R>, books: &mut BookRegistry) -> (answers: Vec<(R, Reply)>)
    requires
        covered(old(books)@, batch_contributions(batch@)),
    ensures
        final(books)@ == settled(old(books)@, batch_contributions(batch@)),
        answers@.len() == batch@.len(),
        forall|i: int|
            0 <= i < batch@.len() ==> (#[trigger] answers@[i]).0 == batch@[i].response_tx
                && answers@[i].1 == Ok::<OperationResult, OperationError>(
                OperationResult::Accepted(batch@[i].ending_balances),
            ),
{
    let ghost before = books@;
    let ghost commands = batch@;
    let mut answers: Vec<(R, Reply)> = Vec::with_capacity(batch.len());
    assert(commands.take(0) =~= Seq::empty());
    assert(books@ =~= settled(before, batch_contributions(commands.take(0)))) by {
        assert forall|id: BookId| before.contains_key(id) implies before[id].settled(Seq::empty())
            == before[id] by {
            assert(before[id].settled(Seq::empty()) =~= before[id]);
        }
    }
    for command in it: batch
        invariant
            it.seq() == commands,
            covered(before, batch_contributions(commands)),
            books@ == settled(before, batch_contributions(commands.take(it.index()))),
            answers@.len() == it.index(),
            forall|i: int|
                0 <= i < it.index() ==> (#[trigger] answers@[i]).0 == commands[i].response_tx
                    && answers@[i].1 == Ok::<OperationResult, OperationError>(
                    OperationResult::Accepted(commands[i].ending_balances),
                ),
    {
        proof {
            let i = it.index();
            lemma_batch_take(commands, i);
            let rest = choose|rest: Seq<ContributionView>|
                #![trigger batch_contributions(commands.take(i + 1)) + rest]
                batch_contributions(commands) == batch_contributions(commands.take(i + 1)) + rest;
            lemma_covered_in_turn(before, batch_contributions(commands.take(i + 1)), rest);
            lemma_covered_in_turn(
                before,
                batch_contributions(commands.take(i)),
                command.contributions(),
            );
        }
        answers.push(command.ack(books));
    }
    assert(commands.take(commands.len() as int) =~= commands);
    answers
}

/// Gives the operations of a batch up for the reason stated, one after the other.
pub fn abort_batch<R>(
    batch: WriterBuffer<R>,
    books: &mut BookRegistry,
    reason: OperationError,
) -> (answers: Vec<(R, Reply)>)
    requires
        covered(old(books)@, batch_contributions(batch@)),
    ensures
        final(books)@ == released(old(books)@, batch_contributions(batch@)),
        answers@.len() == batch@.len(),
        forall|i: int|
            0 <= i < batch@.len() ==> (#[trigger] answers@[i]).0 == batch@[i].response_tx
                && answers@[i].1 == Err::<OperationResult, OperationError>(reason),
{
    let ghost before = books@;
    let ghost commands = batch@;
    let mut answers: Vec<(R, Reply)> = Vec::with_capacity(batch.len());
    assert(commands.take(0) =~= Seq::empty());
    assert(books@ =~= released(before, batch_contributions(commands.take(0)))) by {
        assert forall|id: BookId| before.contains_key(id) implies before[id].released(0)
            == before[id] by {
            assert(before[id].released(0) =~= before[id]);
        }
    }
    for command in it: batch
        invariant
            it.seq() == commands,
            covered(before, batch_contributions(commands)),
            books@ == released(before, batch_contributions(commands.take(it.index()))),
            answers@.len() == it.index(),
            forall|i: int|
                0 <= i < it.index() ==> (#[trigger] answers@[i]).0 == commands[i].response_tx
                    && answers@[i].1 == Err::<OperationResult, OperationError>(reason),
    {
        proof {
            let i = it.index();
            lemma_batch_take(commands, i);
            let rest = choose|rest: Seq<ContributionView>|
                #![trigger batch_contributions(commands.take(i + 1)) + rest]
                batch_contributions(commands) == batch_contributions(commands.take(i + 1)) + rest;
            lemma_covered_in_turn(before, batch_contributions(commands.take(i + 1)), rest);
            lemma_covered_in_turn(
                before,
                batch_contributions(commands.take(i)),
                command.contributions(),
            );
        }
        answers.push(command.abort(books, reason));
    }
    assert(commands.take(commands.len() as int) =~= commands);
    answers
}

} // verus!
