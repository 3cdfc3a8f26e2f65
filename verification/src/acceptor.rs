//! The acceptor: the verdict on each operation, and the batches in which accepted operations go to
//! the journal.

use crate::accounts::AccountId;
use crate::batch;
use crate::batch::{after_offer, after_quiet, capacity_of, BatchStep, Event};
use crate::books;
use crate::books::{BalanceType, BookId, BookRegistry, BookView};
use crate::bytes::{u16_to_le, u32_to_le, u64_to_le, uuid_into_bytes};
use crate::currency::Currency;
use crate::journal;
use crate::journal::{
    abort_batch, BookContribution, JournalEntryBytes, JournalHeaderBytes, JournalHeaderView, Reply,
    WriteCommand, WriterBuffer,
};
use crate::operation::{PreProcessedEntry, PreparedBook, PreparedOperation};
use crate::sums;
use crate::vec_map::VecMap;
use vstd::prelude::*;

verus! {

broadcast use vstd::std_specs::hash::group_hash_axioms;

/// The balances in which an operation leaves the books that it posts to.
pub type EndingBalances = VecMap<(AccountId, Currency, BalanceType), i128>;

/// Why an operation got no verdict.
#[derive(Clone, Copy, Debug, PartialEq, Eq, Structural)]
pub enum OperationError {
    AcceptorSystemFailure,
    AbortedFromFailedFlush,
    Recv,
}

impl OperationError {
    /// The error in words.
    pub open spec fn words(self) -> Seq<char> {
        match self {
            OperationError::AcceptorSystemFailure => "acceptor is no longer running"@,
            OperationError::AbortedFromFailedFlush => "operation aborted due to failed flush"@,
            OperationError::Recv => "acceptor dropped response channel"@,
        }
    }

    /// The error in words.
    pub fn message(&self) -> (text: String)
        ensures
            text@ == self.words(),
    {
        match self {
            OperationError::AcceptorSystemFailure => "acceptor is no longer running".to_string(),
            OperationError::AbortedFromFailedFlush => {
                "operation aborted due to failed flush".to_string()
            },
            OperationError::Recv => "acceptor dropped response channel".to_string(),
        }
    }
}

/// The verdict on an operation.
#[derive(Debug)]
pub enum OperationResult {
    /// Resulting balances per `(account, currency, balance_type)` triple after the accepted
    /// operation.
    Accepted(EndingBalances),
    /// The account whose book balance caused the rejection.
    Rejected(AccountId),
    /// The book whose projected balance would exceed the `i128` range.
    Overflow(BookId),
}

/// The balance in which an operation would leave one of its books.
pub open spec fn projected(books: Map<BookId, BookView>, book: PreparedBook) -> int {
    books[book.book_id].balance() + book.net_delta
}

/// Why an operation cannot post to one of its books, if it cannot.
pub open spec fn refusal(books: Map<BookId, BookView>, book: PreparedBook) -> Option<
    OperationResult,
> {
    if !sums::fits_i128(projected(books, book)) {
        Some(OperationResult::Overflow(book.book_id))
    } else if projected(books, book) < 0 && !book.allow_overdraft {
        Some(OperationResult::Rejected(book.account_id))
    } else {
        None
    }
}

/// Why an operation is refused, if it is: the reason of the first of its books that has one.
pub open spec fn first_refusal(
    books: Map<BookId, BookView>,
    per_book: Seq<PreparedBook>,
) -> Option<OperationResult>
    decreases per_book.len(),
{
    if per_book.len() == 0 {
        None
    } else {
        match first_refusal(books, per_book.drop_last()) {
            Some(result) => Some(result),
            None => refusal(books, per_book.last()),
        }
    }
}

/// Whether the verdict can be computed: every book is in memory, and the balance of each, up to
/// the first that refuses, can be held in 128 bits.
pub open spec fn judgeable(books: Map<BookId, BookView>, per_book: Seq<PreparedBook>) -> bool {
    &&& forall|i: int|
        0 <= i < per_book.len() ==> books.contains_key((#[trigger] per_book[i]).book_id)
    &&& forall|i: int|
        0 <= i < per_book.len() && first_refusal(books, #[trigger] per_book.take(i)) is None
            ==> books[per_book[i].book_id].fits()
}

/// The balances in which an operation leaves its books, by account, currency and balance type.
pub open spec fn ending_balances(
    books: Map<BookId, BookView>,
    per_book: Seq<PreparedBook>,
) -> Map<(AccountId, Currency, BalanceType), i128>
    decreases per_book.len(),
{
    if per_book.len() == 0 {
        Map::empty()
    } else {
        let book = per_book.last();
        ending_balances(books, per_book.drop_last()).insert(
            (book.account_id, book.currency, book.balance_type),
            projected(books, book) as i128,
        )
    }
}

/// The amounts of entries.
pub open spec fn posted_amounts(entries: Seq<PreProcessedEntry>) -> Seq<i128> {
    entries.map_values(|entry: PreProcessedEntry| entry.amount)
}

/// The amounts that an operation posts to one book, in order.
pub open spec fn amounts_for(per_book: Seq<PreparedBook>, id: BookId) -> Seq<i128>
    decreases per_book.len(),
{
    if per_book.len() == 0 {
        Seq::empty()
    } else {
        let before = amounts_for(per_book.drop_last(), id);
        if per_book.last().book_id == id {
            before + posted_amounts(per_book.last().entries@)
        } else {
            before
        }
    }
}

/// The books with the amounts of an operation waiting for the journal.
pub open spec fn staged(books: Map<BookId, BookView>, per_book: Seq<PreparedBook>) -> Map<
    BookId,
    BookView,
> {
    Map::new(
        |id: BookId| books.contains_key(id),
        |id: BookId| books[id].staged(amounts_for(per_book, id)),
    )
}

/// Whether the contribution carries the entries of the book, in order, not placed yet.
pub open spec fn contributes(contribution: BookContribution, book: PreparedBook) -> bool {
    &&& contribution.book_id == book.book_id
    &&& contribution.entries@.len() == book.entries@.len()
    &&& forall|k: int|
        0 <= k < book.entries@.len() ==> (#[trigger] contribution.entries@[k])@
            == journal::unplaced_entry(
            book.book_id,
            book.entries@[k].amount,
            book.entries@[k].ledger_code@,
        )
}

/// The header under which an operation is stored; its number, its checksum and the hash of the
/// record before it are not assigned yet.
pub open spec fn header_of(prepared: PreparedOperation, timestamp_ns: u64) -> JournalHeaderView {
    JournalHeaderView {
        record_length: prepared.record_length as nat,
        entry_count: prepared.total_entry_count as nat,
        operation_id: 0,
        timestamp_ns: timestamp_ns as nat,
        idempotency_key: prepared.idempotency_key as nat,
        checksum: 0,
        prev_hash: journal::no_hash(),
    }
}

/// Whether the command carries the operation, accepted on the books at the time stated.
pub open spec fn carries<R>(
    command: WriteCommand<R>,
    prepared: PreparedOperation,
    books: Map<BookId, BookView>,
    timestamp_ns: u64,
    response_tx: R,
) -> bool {
    &&& command.header@ == header_of(prepared, timestamp_ns)
    &&& command.book_contributions@.len() == prepared.per_book@.len()
    &&& forall|i: int|
        0 <= i < prepared.per_book@.len() ==> contributes(
            #[trigger] command.book_contributions@[i],
            prepared.per_book@[i],
        )
    &&& command.ending_balances@ == ending_balances(books, prepared.per_book@)
    &&& command.ending_balances.wf()
    &&& command.response_tx == response_tx
}

/// Whether the command, handled on the books with the batch gathered so far, leads to the later
/// batch, the later books and the answer. A refused operation is answered and changes nothing; an
/// accepted one is not answered yet, its amounts wait in its books, and it is last in the batch.
pub open spec fn handled<R>(
    batch: Seq<WriteCommand<R>>,
    books: Map<BookId, BookView>,
    command: AcceptorCommand<R>,
    timestamp_ns: u64,
    later_batch: Seq<WriteCommand<R>>,
    later_books: Map<BookId, BookView>,
    answer: Option<(R, OperationResult)>,
) -> bool {
    match first_refusal(books, command.prepared.per_book@) {
        Some(result) => {
            &&& answer == Some((command.response_tx, result))
            &&& later_books == books
            &&& later_batch == batch
        },
        None => {
            &&& answer is None
            &&& later_books == staged(books, command.prepared.per_book@)
            &&& later_batch.len() == batch.len() + 1
            &&& later_batch.drop_last() == batch
            &&& carries(
                later_batch.last(),
                command.prepared,
                books,
                timestamp_ns,
                command.response_tx,
            )
        },
    }
}

/// A refusal by one of the first books is the refusal of the operation.
pub proof fn lemma_first_refusal_take(
    books: Map<BookId, BookView>,
    per_book: Seq<PreparedBook>,
    n: int,
)
    requires
        0 <= n <= per_book.len(),
        first_refusal(books, per_book.take(n)) is Some,
    ensures
        first_refusal(books, per_book) == first_refusal(books, per_book.take(n)),
    decreases per_book.len(),
{
    if n < per_book.len() {
        assert(per_book.drop_last().take(n) =~= per_book.take(n));
        lemma_first_refusal_take(books, per_book.drop_last(), n);
    } else {
        assert(per_book.take(n) =~= per_book);
    }
}

/// An operation handed to the acceptor, with what its answer goes to.
#[derive(Debug)]
pub struct AcceptorCommand<R> {
    pub prepared: PreparedOperation,
    pub response_tx: R,
}

impl<R> AcceptorCommand<R> {
    /// Turns the operation away because the journal cannot be reached.
    pub fn abort(self) -> (answer: (R, Reply))
        ensures
            answer.0 == self.response_tx,
            answer.1 == Err::<OperationResult, OperationError>(
                OperationError::AbortedFromFailedFlush,
            ),
    {
        (self.response_tx, Err(OperationError::AbortedFromFailedFlush))
    }
}

/// Judges operations and gathers those accepted for the journal.
#[derive(Debug)]
pub struct Acceptor<R> {
    pub buffer: WriterBuffer<R>,
    /// How many operations a batch holds: the buffer goes out when it has gathered as many.
    pub room: usize,
}

/// The verdict of the books on an operation: the balances in which it leaves them, or why it is
/// refused.
pub fn judge(books: &BookRegistry, per_book: &Vec<PreparedBook>) -> (verdict: Result<
    EndingBalances,
    OperationResult,
>)
    requires
        judgeable(books@, per_book@),
    ensures
        match verdict {
            Ok(balances) => first_refusal(books@, per_book@) is None && balances@
                == ending_balances(books@, per_book@) && balances.wf(),
            Err(result) => first_refusal(books@, per_book@) == Some(result),
        },
{
    let mut balances: EndingBalances = VecMap::new();
    let mut i: usize = 0;
    assert(per_book@.take(0) =~= Seq::empty());
    while i < per_book.len()
        invariant
            i <= per_book@.len(),
            judgeable(books@, per_book@),
            first_refusal(books@, per_book@.take(i as int)) is None,
            balances@ == ending_balances(books@, per_book@.take(i as int)),
            balances.wf(),
        decreases per_book@.len() - i,
    {
        let book = &per_book[i];
        proof {
            assert(per_book@.take(i + 1).drop_last() =~= per_book@.take(i as int));
            assert(books@.contains_key(per_book@[i as int].book_id));
        }
        let merged: i128 = match books.map.get(&book.book_id) {
            Some(state) => {
                assert(books@[book.book_id] == state@);
                state.balance()
            },
            None => {
                assert(!books@.contains_key(book.book_id));
                0
            },
        };
        let projected: i128 = match merged.checked_add(book.net_delta) {
            Some(projected) => projected,
            None => {
                proof {
                    lemma_first_refusal_take(books@, per_book@, i + 1);
                }
                return Err(OperationResult::Overflow(book.book_id));
            },
        };
        if projected < 0 && !book.allow_overdraft {
            proof {
                lemma_first_refusal_take(books@, per_book@, i + 1);
            }
            return Err(OperationResult::Rejected(book.account_id));
        }
        balances.insert((book.account_id, book.currency, book.balance_type), projected);
        i = i + 1;
    }
    assert(per_book@.take(i as int) =~= per_book@);
    Ok(balances)
}

/// Whether the verdict of the books on an operation can be computed.
pub fn can_judge(books: &BookRegistry, per_book: &Vec<PreparedBook>) -> (can: bool)
    ensures
        can == judgeable(books@, per_book@),
{
    let mut i: usize = 0;
    while i < per_book.len()
        invariant
            i <= per_book@.len(),
            forall|k: int|
                0 <= k < i ==> books@.contains_key((#[trigger] per_book@[k]).book_id),
        decreases per_book@.len() - i,
    {
        if !books.map.contains_key(&per_book[i].book_id) {
            assert(!books@.contains_key(per_book@[i as int].book_id));
            return false;
        }
        assert(books@.contains_key(per_book@[i as int].book_id));
        i = i + 1;
    }
    let mut j: usize = 0;
    assert(per_book@.take(0) =~= Seq::empty());
    while j < per_book.len()
        invariant
            j <= per_book@.len(),
            forall|k: int|
                0 <= k < per_book@.len() ==> books@.contains_key(
                    (#[trigger] per_book@[k]).book_id,
                ),
            first_refusal(books@, per_book@.take(j as int)) is None,
            forall|k: int|
                0 <= k < j && first_refusal(books@, #[trigger] per_book@.take(k)) is None
                    ==> books@[per_book@[k].book_id].fits(),
        decreases per_book@.len() - j,
    {
        let book = &per_book[j];
        proof {
            assert(per_book@.take(j + 1).drop_last() =~= per_book@.take(j as int));
            assert(books@.contains_key(per_book@[j as int].book_id));
        }
        let merged: i128 = match books.map.get(&book.book_id) {
            Some(state) => {
                assert(books@[book.book_id] == state@);
                if !state.balance_fits() {
                    assert(!judgeable(books@, per_book@)) by {
                        assert(first_refusal(books@, per_book@.take(j as int)) is None);
                    }
                    return false;
                }
                state.balance()
            },
            None => {
                assert(!books@.contains_key(book.book_id));
                0
            },
        };
        let refused = match merged.checked_add(book.net_delta) {
            Some(projected) => projected < 0 && !book.allow_overdraft,
            None => true,
        };
        if refused {
            proof {
                assert(first_refusal(books@, per_book@.take(j + 1)) is Some);
                assert forall|k: int|
                    0 <= k < per_book@.len() && first_refusal(
                        books@,
                        #[trigger] per_book@.take(k),
                    ) is None implies books@[per_book@[k].book_id].fits() by {
                    if k > j {
                        assert(per_book@.take(k).take(j + 1) =~= per_book@.take(j + 1));
                        lemma_first_refusal_take(books@, per_book@.take(k), j + 1);
                    }
                }
            }
            return true;
        }
        j = j + 1;
    }
    true
}

/// Lets the amounts of one book of an operation wait for the journal, and makes the entries that
/// the journal will store for them.
fn stage_book(books: &mut BookRegistry, book: &PreparedBook) -> (contribution: BookContribution)
    requires
        old(books)@.contains_key(book.book_id),
    ensures
        final(books)@ == old(books)@.insert(
            book.book_id,
            old(books)@[book.book_id].staged(posted_amounts(book.entries@)),
        ),
        contributes(contribution, *book),
{
    let ghost map = books.map@;
    let ghost view = books@;
    let id: BookId = book.book_id;
    let mut entries: Vec<JournalEntryBytes> = Vec::with_capacity(book.entries.len());
    assert(map.contains_key(id));
    match books.map.remove(&id) {
        Some(mut state) => {
            let ghost before = state@;
            let mut k: usize = 0;
            assert(before.staged(posted_amounts(book.entries@).take(0)) =~= before);
            while k < book.entries.len()
                invariant
                    k <= book.entries@.len(),
                    id == book.book_id,
                    state@ == before.staged(posted_amounts(book.entries@).take(k as int)),
                    entries@.len() == k,
                    forall|n: int|
                        0 <= n < k ==> (#[trigger] entries@[n])@ == journal::unplaced_entry(
                            book.book_id,
                            book.entries@[n].amount,
                            book.entries@[n].ledger_code@,
                        ),
                decreases book.entries@.len() - k,
            {
                let entry = &book.entries[k];
                state.stage(entry.amount);
                entries.push(JournalEntryBytes::unplaced(id, entry.amount, entry.ledger_code));
                assert(state@ =~= before.staged(posted_amounts(book.entries@).take(k + 1)));
                k = k + 1;
            }
            assert(posted_amounts(book.entries@).take(k as int) =~= posted_amounts(book.entries@));
            books.map.insert(id, state);
            proof {
                assert(map.remove(id).insert(id, state) =~= map.insert(id, state));
                books::lemma_books_view_insert(map, id, state);
            }
        },
        None => {
            assert(false);
        },
    }
    BookContribution { book_id: id, entries }
}

impl<R> Acceptor<R> {
    /// An acceptor that has gathered nothing, with room for a batch of the size stated.
    pub fn new(buffer_capacity: usize) -> (acceptor: Acceptor<R>)
        ensures
            acceptor.buffer@.len() == 0,
            acceptor.room == buffer_capacity,
    {
        Acceptor { buffer: Vec::with_capacity(buffer_capacity), room: buffer_capacity }
    }

    /// Judges an operation. A refused one is answered at once and leaves no trace; the amounts of
    /// an accepted one wait in its books, and it joins the batch for the journal, which answers
    /// it.
    pub fn handle(
        &mut self,
        books: &mut BookRegistry,
        command: AcceptorCommand<R>,
        timestamp_ns: u64,
    ) -> (answer: Option<(R, OperationResult)>)
        requires
            judgeable(old(books)@, command.prepared.per_book@),
        ensures
            handled(
                old(self).buffer@,
                old(books)@,
                command,
                timestamp_ns,
                final(self).buffer@,
                final(books)@,
                answer,
            ),
            final(self).room == old(self).room,
    {
        let ghost before = books@;
        let prepared = command.prepared;
        let ghost per_book = prepared.per_book@;
        let balances = match judge(books, &prepared.per_book) {
            Ok(balances) => balances,
            Err(result) => {
                return Some((command.response_tx, result));
            },
        };
        let mut contributions: Vec<BookContribution> = Vec::with_capacity(prepared.per_book.len());
        let mut i: usize = 0;
        assert(books@ =~= staged(before, per_book.take(0))) by {
            assert(per_book.take(0) =~= Seq::empty());
            assert forall|id: BookId| before.contains_key(id) implies before[id].staged(
                Seq::empty(),
            ) == before[id] by {
                assert(before[id].staged(Seq::empty()) =~= before[id]);
            }
        }
        while i < prepared.per_book.len()
            invariant
                i <= prepared.per_book@.len(),
                per_book == prepared.per_book@,
                judgeable(before, per_book),
                books@ == staged(before, per_book.take(i as int)),
                contributions@.len() == i,
                forall|k: int|
                    0 <= k < i ==> contributes(#[trigger] contributions@[k], per_book[k]),
            decreases prepared.per_book@.len() - i,
        {
            let book = &prepared.per_book[i];
            let ghost view = books@;
            proof {
                assert(before.contains_key(per_book[i as int].book_id));
            }
            let contribution = stage_book(books, book);
            proof {
                assert forall|id: BookId| before.contains_key(id) implies #[trigger] books@[id]
                    == before[id].staged(amounts_for(per_book.take(i + 1), id)) by {
                    assert(per_book.take(i + 1).drop_last() =~= per_book.take(i as int));
                    if id == book.book_id {
                        assert(view[id].staged(posted_amounts(book.entries@))
                            =~= before[id].staged(amounts_for(per_book.take(i + 1), id)));
                    }
                }
                assert(books@ =~= staged(before, per_book.take(i + 1)));
            }
            contributions.push(contribution);
            i = i + 1;
        }
        assert(per_book.take(i as int) =~= per_book);
        let prev_hash: [u8; 32] = [0u8; 32];
        assert(prev_hash@ =~= journal::no_hash());
        let header = JournalHeaderBytes {
            record_length: u16_to_le(prepared.record_length),
            entry_count: prepared.total_entry_count,
            operation_id: u64_to_le(0),
            timestamp_ns: u64_to_le(timestamp_ns),
            idempotency_key: uuid_into_bytes(prepared.idempotency_key),
            checksum: u32_to_le(0),
            prev_hash,
        };
        self.buffer.push(
            WriteCommand {
                header,
                book_contributions: contributions,
                ending_balances: balances,
                response_tx: command.response_tx,
            },
        );
        assert(self.buffer@.drop_last() =~= old(self).buffer@);
        None
    }
}

/// What the acceptor does about an event.
#[derive(Debug)]
pub struct AcceptorStep<R> {
    /// The answer that goes out now.
    pub answer: Option<(R, OperationResult)>,
    /// What becomes of the batch.
    pub batch: BatchStep<WriteCommand<R>>,
}

/// The batch and the books to which an event leads. A command is handled, and the batch that it
/// joins, if it is accepted, goes out whole as soon as it fills the room for it; any other event
/// leaves the books as they are. The room stays as it is, unless the batch has outgrown it.
pub open spec fn stepped<R>(
    buffer: Seq<WriteCommand<R>>,
    room: usize,
    books: Map<BookId, BookView>,
    event: Event<AcceptorCommand<R>>,
    timestamp_ns: u64,
    later_buffer: Seq<WriteCommand<R>>,
    later_room: usize,
    later_books: Map<BookId, BookView>,
    step: AcceptorStep<R>,
) -> bool {
    match event {
        Event::Received(command) => {
            let gathered = match step.batch.flush {
                Some(batch) => batch@,
                None => later_buffer,
            };
            &&& handled(
                buffer,
                books,
                command,
                timestamp_ns,
                gathered,
                later_books,
                step.answer,
            )
            &&& gathered.len() <= room ==> later_room == room
            &&& gathered.len() > room ==> later_room >= gathered.len()
            &&& step.batch.flush is Some <==> gathered.len() == later_room
            &&& step.batch.flush is Some ==> later_buffer.len() == 0
            &&& step.batch.restart_timer == (buffer.len() == 0 && gathered.len() > 0)
            &&& !step.batch.stop
        },
        _ => {
            &&& step.answer is None
            &&& later_books == books
            &&& later_room == room
            &&& batch::follows_quiet(buffer, event, step.batch, later_buffer)
        },
    }
}

impl<R> Acceptor<R> {
    /// Whether the end of the wait for a timed flush matters.
    pub fn timer_armed(&self) -> (armed: bool)
        ensures
            armed == (self.buffer@.len() > 0),
    {
        !self.buffer.is_empty()
    }

    /// Takes one event. A batch that has outgrown its room, as the first operation outgrows none at
    /// all, gets the room that the allocator gave the buffer.
    pub fn step(
        &mut self,
        books: &mut BookRegistry,
        event: Event<AcceptorCommand<R>>,
        timestamp_ns: u64,
    ) -> (step: AcceptorStep<R>)
        requires
            event matches Event::Received(command) ==> judgeable(
                old(books)@,
                command.prepared.per_book@,
            ),
        ensures
            stepped(
                old(self).buffer@,
                old(self).room,
                old(books)@,
                event,
                timestamp_ns,
                final(self).buffer@,
                final(self).room,
                final(books)@,
                step,
            ),
    {
        match event {
            Event::Received(command) => {
                let was_empty = self.buffer.is_empty();
                let answer = self.handle(books, command, timestamp_ns);
                if self.buffer.len() > self.room {
                    self.room = capacity_of(&self.buffer);
                }
                let capacity = self.room;
                let batch = after_offer(&mut self.buffer, was_empty, capacity);
                AcceptorStep { answer, batch }
            },
            quiet => {
                let batch = after_quiet(&mut self.buffer, &quiet);
                AcceptorStep { answer: None, batch }
            },
        }
    }
}

/// Turns everything away once the journal cannot be reached: first the operations that came in and
/// were not judged, then those of the batch that could not be handed over.
pub fn fail_flush<R>(
    in_flight: Vec<AcceptorCommand<R>>,
    failed: WriterBuffer<R>,
    books: &mut BookRegistry,
) -> (answers: Vec<(R, Reply)>)
    requires
        journal::covered(old(books)@, journal::batch_contributions(failed@)),
    ensures
        final(books)@ == journal::released(old(books)@, journal::batch_contributions(failed@)),
        answers@.len() == in_flight@.len() + failed@.len(),
        forall|i: int|
            0 <= i < answers@.len() ==> (#[trigger] answers@[i]).1 == Err::<
                OperationResult,
                OperationError,
            >(OperationError::AbortedFromFailedFlush),
        forall|i: int|
            0 <= i < in_flight@.len() ==> (#[trigger] answers@[i]).0 == in_flight@[i].response_tx,
        forall|i: int|
            0 <= i < failed@.len() ==> (#[trigger] answers@[in_flight@.len() + i]).0
                == failed@[i].response_tx,
{
    let ghost commands = in_flight@;
    let mut answers: Vec<(R, Reply)> = Vec::with_capacity(in_flight.len());
    for command in it: in_flight
        invariant
            it.seq() == commands,
            answers@.len() == it.index(),
            forall|i: int|
                0 <= i < it.index() ==> (#[trigger] answers@[i]).0 == commands[i].response_tx
                    && answers@[i].1 == Err::<OperationResult, OperationError>(
                    OperationError::AbortedFromFailedFlush,
                ),
    {
        answers.push(command.abort());
    }
    let mut rest = abort_batch(failed, books, OperationError::AbortedFromFailedFlush);
    answers.append(&mut rest);
    answers
}

} // verus!
