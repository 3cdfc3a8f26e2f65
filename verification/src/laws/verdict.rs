//! What becomes of an operation, told by the states of its books.

use crate::acceptor;
use crate::acceptor::{AcceptorCommand, AcceptorStep, OperationResult};
use crate::accounts::AccountId;
use crate::batch::Event;
use crate::books;
use crate::books::{BalanceType, BookId, BookState, BookView};
use crate::bytes;
use crate::currency::Currency;
use crate::journal::{JournalEntryBytes, WriteCommand};
use crate::laws::posting;
use crate::operation;
use crate::operation::PreparedBook;
use crate::sums;
use vstd::prelude::*;

verus! {

/// The amounts that journal entries store, added up.
pub open spec fn recorded_total(entries: Seq<JournalEntryBytes>) -> int
    decreases entries.len(),
{
    if entries.len() == 0 {
        0
    } else {
        recorded_total(entries.drop_last()) + bytes::signed_le_value(entries.last().amount@)
    }
}

/// Amounts, added up.
pub open spec fn waiting_total(amounts: Seq<i128>) -> int
    decreases amounts.len(),
{
    if amounts.len() == 0 {
        0
    } else {
        waiting_total(amounts.drop_last()) + amounts.last()
    }
}

/// What a book comes to: the balance rolled up, what is recorded since, and what waits.
pub open spec fn standing(state: BookState) -> int {
    state.running_balance + recorded_total(state.durable_pending_rollup@) + waiting_total(
        state.pending_journal@,
    )
}

/// The sum of what is recorded is its total.
proof fn lemma_recorded_total(entries: Seq<JournalEntryBytes>)
    ensures
        sums::sum(books::entry_amounts(entries)) == recorded_total(entries),
    decreases entries.len(),
{
    if entries.len() > 0 {
        lemma_recorded_total(entries.drop_last());
        assert(books::entry_amounts(entries).drop_last() =~= books::entry_amounts(
            entries.drop_last(),
        ));
    }
}

/// The sum of amounts is their total.
proof fn lemma_waiting_total(amounts: Seq<i128>)
    ensures
        sums::sum(sums::exact(amounts)) == waiting_total(amounts),
    decreases amounts.len(),
{
    if amounts.len() > 0 {
        lemma_waiting_total(amounts.drop_last());
        assert(sums::exact(amounts).drop_last() =~= sums::exact(amounts.drop_last()));
    }
}

/// The balance of a book is the balance rolled up, every amount recorded since and every amount
/// that waits, and it can be held exactly if that is a number of 128 bits.
pub proof fn law_balance_takes_everything_in(state: BookState)
    ensures
        state@.balance() == standing(state),
        state@.fits() <==> i128::MIN <= standing(state) <= i128::MAX,
{
    lemma_recorded_total(state.durable_pending_rollup@);
    lemma_waiting_total(state.pending_journal@);
    sums::lemma_sum_concat(
        books::entry_amounts(state.durable_pending_rollup@),
        sums::exact(state.pending_journal@),
    );
}

/// Whether a book turns away what an operation would post to it: it would come to a number of more
/// than 128 bits, or to less than zero without leave.
pub open spec fn turns_away(state: BookState, book: PreparedBook) -> bool {
    let comes_to = standing(state) + book.net_delta;
    comes_to < i128::MIN || comes_to > i128::MAX || (comes_to < 0 && !book.allow_overdraft)
}

/// Whether none of the first books turns the operation away.
pub open spec fn none_turns_away(
    map: Map<BookId, BookState>,
    per_book: Seq<PreparedBook>,
    n: int,
) -> bool {
    forall|j: int|
        0 <= j < n ==> !turns_away(map[(#[trigger] per_book[j]).book_id], per_book[j])
}

/// A book refuses exactly if it turns away.
proof fn lemma_refusal(map: Map<BookId, BookState>, book: PreparedBook)
    requires
        map.contains_key(book.book_id),
    ensures
        acceptor::projected(books::books_view(map), book) == standing(map[book.book_id])
            + book.net_delta,
        acceptor::refusal(books::books_view(map), book) == if !turns_away(map[book.book_id], book) {
            None
        } else if i128::MIN <= standing(map[book.book_id]) + book.net_delta <= i128::MAX {
            Some(OperationResult::Rejected(book.account_id))
        } else {
            Some(OperationResult::Overflow(book.book_id))
        },
{
    law_balance_takes_everything_in(map[book.book_id]);
    assert(books::books_view(map)[book.book_id] == map[book.book_id]@);
}

/// The first books refuse nothing exactly if none of them turns the operation away.
proof fn lemma_first_refusal(map: Map<BookId, BookState>, per_book: Seq<PreparedBook>, n: int)
    requires
        0 <= n <= per_book.len(),
        forall|j: int| 0 <= j < n ==> map.contains_key((#[trigger] per_book[j]).book_id),
    ensures
        acceptor::first_refusal(books::books_view(map), per_book.take(n)) is None
            <==> none_turns_away(map, per_book, n),
    decreases n,
{
    if n > 0 {
        lemma_first_refusal(map, per_book, n - 1);
        assert(per_book.take(n).drop_last() =~= per_book.take(n - 1));
        assert(map.contains_key(per_book[n - 1].book_id));
        lemma_refusal(map, per_book[n - 1]);
    }
}

/// An operation can be judged exactly if all its books are in memory and each of them, up to the
/// first that turns it away, comes to a number of 128 bits.
pub proof fn law_judgeable_exactly_if_in_memory_and_in_range(
    map: Map<BookId, BookState>,
    per_book: Seq<PreparedBook>,
)
    ensures
        acceptor::judgeable(books::books_view(map), per_book) <==> {
            &&& forall|i: int|
                0 <= i < per_book.len() ==> map.contains_key((#[trigger] per_book[i]).book_id)
            &&& forall|i: int|
                0 <= i < per_book.len() && #[trigger] none_turns_away(map, per_book, i)
                    ==> i128::MIN <= standing(map[per_book[i].book_id]) <= i128::MAX
        },
{
    let view = books::books_view(map);
    let in_memory = forall|i: int|
        0 <= i < per_book.len() ==> map.contains_key((#[trigger] per_book[i]).book_id);
    assert(in_memory <==> forall|i: int|
        0 <= i < per_book.len() ==> view.contains_key((#[trigger] per_book[i]).book_id)) by {
        assert forall|id: BookId| #[trigger] view.contains_key(id) == map.contains_key(id) by {}
    }
    if in_memory {
        assert forall|i: int| 0 <= i < per_book.len() implies {
            &&& acceptor::first_refusal(view, #[trigger] per_book.take(i)) is None
                <==> none_turns_away(map, per_book, i)
            &&& view[per_book[i].book_id].fits() <==> i128::MIN <= standing(
                map[per_book[i].book_id],
            ) <= i128::MAX
        } by {
            lemma_first_refusal(map, per_book, i);
            assert(map.contains_key(per_book[i].book_id));
            law_balance_takes_everything_in(map[per_book[i].book_id]);
        }
        if acceptor::judgeable(view, per_book) {
            assert forall|i: int|
                0 <= i < per_book.len() && #[trigger] none_turns_away(
                    map,
                    per_book,
                    i,
                ) implies i128::MIN <= standing(map[per_book[i].book_id]) <= i128::MAX by {
                assert(acceptor::first_refusal(view, per_book.take(i)) is None);
            }
        }
        if forall|i: int|
            0 <= i < per_book.len() && #[trigger] none_turns_away(map, per_book, i) ==> i128::MIN
                <= standing(map[per_book[i].book_id]) <= i128::MAX {
            assert forall|i: int|
                0 <= i < per_book.len() && acceptor::first_refusal(
                    view,
                    #[trigger] per_book.take(i),
                ) is None implies view[per_book[i].book_id].fits() by {
                assert(none_turns_away(map, per_book, i));
            }
        }
    }
}

/// Whether the books are as they were.
pub open spec fn same_books(map: Map<BookId, BookState>, later: Map<BookId, BookState>) -> bool {
    &&& map.dom() == later.dom()
    &&& forall|id: BookId| #[trigger]
        map.contains_key(id) ==> {
            &&& later[id].running_balance == map[id].running_balance
            &&& later[id].durable_pending_rollup@ == map[id].durable_pending_rollup@
            &&& later[id].pending_journal@ == map[id].pending_journal@
        }
}

/// Books that stand for the same are as they were.
proof fn lemma_same_books(map: Map<BookId, BookState>, later: Map<BookId, BookState>)
    requires
        books::books_view(map) == books::books_view(later),
    ensures
        same_books(map, later),
{
    assert(map.dom() =~= later.dom()) by {
        assert(books::books_view(map).dom() =~= map.dom());
        assert(books::books_view(later).dom() =~= later.dom());
    }
    assert forall|id: BookId| #[trigger] map.contains_key(id) implies {
        &&& later[id].running_balance == map[id].running_balance
        &&& later[id].durable_pending_rollup@ == map[id].durable_pending_rollup@
        &&& later[id].pending_journal@ == map[id].pending_journal@
    } by {
        assert(later.contains_key(id));
        assert(books::books_view(map)[id] == map[id]@);
        assert(books::books_view(later)[id] == later[id]@);
    }
}

/// An operation is judged by its books. One that none of them turns away joins the batch,
/// unanswered. One that a book turns away is answered at once with the first that does, as the book
/// whose balance would leave 128 bits or as the account whose book would go below zero, and leaves
/// batch and books as they were.
pub proof fn law_verdict<R>(
    batch: Seq<WriteCommand<R>>,
    map: Map<BookId, BookState>,
    command: AcceptorCommand<R>,
    timestamp_ns: u64,
    later_batch: Seq<WriteCommand<R>>,
    later: Map<BookId, BookState>,
    answer: Option<(R, OperationResult)>,
    i: int,
)
    requires
        acceptor::judgeable(books::books_view(map), command.prepared.per_book@),
        acceptor::handled(
            batch,
            books::books_view(map),
            command,
            timestamp_ns,
            later_batch,
            books::books_view(later),
            answer,
        ),
        0 <= i <= command.prepared.per_book@.len(),
        none_turns_away(map, command.prepared.per_book@, i),
    ensures
        ({
            let per_book = command.prepared.per_book@;
            &&& i == per_book.len() ==> {
                &&& answer is None
                &&& later_batch.len() == batch.len() + 1
                &&& later_batch.drop_last() == batch
            }
            &&& i < per_book.len() && turns_away(map[per_book[i].book_id], per_book[i]) ==> {
                let comes_to = standing(map[per_book[i].book_id]) + per_book[i].net_delta;
                &&& answer == Some(
                    (
                        command.response_tx,
                        if i128::MIN <= comes_to <= i128::MAX {
                            OperationResult::Rejected(per_book[i].account_id)
                        } else {
                            OperationResult::Overflow(per_book[i].book_id)
                        },
                    ),
                )
                &&& later_batch == batch
                &&& same_books(map, later)
            }
        }),
{
    let view = books::books_view(map);
    let per_book = command.prepared.per_book@;
    assert forall|j: int| 0 <= j < per_book.len() implies map.contains_key(
        (#[trigger] per_book[j]).book_id,
    ) by {
        assert(view.contains_key(per_book[j].book_id));
    }
    lemma_first_refusal(map, per_book, i);
    if i == per_book.len() {
        assert(per_book.take(i) =~= per_book);
    } else if turns_away(map[per_book[i].book_id], per_book[i]) {
        assert(map.contains_key(per_book[i].book_id));
        lemma_refusal(map, per_book[i]);
        assert(per_book.take(i + 1).drop_last() =~= per_book.take(i));
        acceptor::lemma_first_refusal_take(view, per_book, i + 1);
        lemma_same_books(map, later);
    }
}

/// Whether each book occurs once.
pub open spec fn books_once(per_book: Seq<PreparedBook>) -> bool {
    forall|i: int, j: int|
        0 <= i < j < per_book.len() ==> (#[trigger] per_book[i]).book_id != (
        #[trigger] per_book[j]).book_id
}

/// The amounts of an accepted operation wait in its books, each in the book that it was prepared
/// for, in order, behind what waited there; nothing else changes in any book.
pub proof fn law_accepted_amounts_wait<R>(
    batch: Seq<WriteCommand<R>>,
    map: Map<BookId, BookState>,
    command: AcceptorCommand<R>,
    timestamp_ns: u64,
    later_batch: Seq<WriteCommand<R>>,
    later: Map<BookId, BookState>,
    id: BookId,
    i: int,
)
    requires
        acceptor::handled(
            batch,
            books::books_view(map),
            command,
            timestamp_ns,
            later_batch,
            books::books_view(later),
            None,
        ),
        books_once(command.prepared.per_book@),
        map.contains_key(id),
    ensures
        map.dom() == later.dom(),
        later[id].running_balance == map[id].running_balance,
        later[id].durable_pending_rollup@ == map[id].durable_pending_rollup@,
        ({
            let per_book = command.prepared.per_book@;
            let waiting = map[id].pending_journal@;
            &&& 0 <= i < per_book.len() && per_book[i].book_id == id ==> {
                &&& later[id].pending_journal@.len() == waiting.len() + per_book[i].entries@.len()
                &&& later[id].pending_journal@.take(waiting.len() as int) == waiting
                &&& forall|k: int|
                    0 <= k < per_book[i].entries@.len()
                        ==> #[trigger] later[id].pending_journal@[waiting.len() + k]
                        == per_book[i].entries@[k].amount
            }
            &&& (forall|j: int|
                0 <= j < per_book.len() ==> (#[trigger] per_book[j]).book_id != id)
                ==> later[id].pending_journal@ == waiting
        }),
{
    let per_book = command.prepared.per_book@;
    let ids = operation::prepared_ids(per_book);
    let view = books::books_view(map);
    assert(ids.no_duplicates()) by {
        assert forall|p: int, q: int|
            0 <= p < ids.len() && 0 <= q < ids.len() && p != q implies ids[p] != ids[q] by {
            assert(ids[p] == per_book[p].book_id && ids[q] == per_book[q].book_id);
        }
    }
    posting::lemma_amounts_for(per_book, id);
    assert(map.dom() =~= later.dom()) by {
        assert(books::books_view(later).dom() =~= later.dom());
        assert(acceptor::staged(view, per_book).dom() =~= map.dom());
    }
    assert(later.contains_key(id));
    assert(books::books_view(later)[id] == later[id]@);
    assert(view[id] == map[id]@);
    let waiting = map[id].pending_journal@;
    let amounts = acceptor::amounts_for(per_book, id);
    assert(later[id].pending_journal@ == waiting + amounts);
    if 0 <= i < per_book.len() && per_book[i].book_id == id {
        assert(amounts == acceptor::posted_amounts(per_book[i].entries@));
        assert((waiting + amounts).take(waiting.len() as int) =~= waiting);
    }
    if forall|j: int| 0 <= j < per_book.len() ==> (#[trigger] per_book[j]).book_id != id {
        assert(!ids.contains(id)) by {
            if ids.contains(id) {
                let k = choose|k: int| 0 <= k < ids.len() && ids[k] == id;
                assert(per_book[k].book_id == id);
            }
        }
        assert(waiting + amounts =~= waiting);
    }
}

/// The header of an accepted operation, read back from its seventy-one bytes: the length and the
/// number of entries that were prepared, the time at which the operation was handled, whatever it
/// is, and the key of the operation; the number, the checksum and the hash that are not assigned
/// yet are zero. Its answer goes where the answer to the operation is to go.
pub proof fn law_header_is_read_back<R>(
    batch: Seq<WriteCommand<R>>,
    map: Map<BookId, BookState>,
    command: AcceptorCommand<R>,
    timestamp_ns: u64,
    later_batch: Seq<WriteCommand<R>>,
    later: Map<BookId, BookState>,
)
    requires
        acceptor::handled(
            batch,
            books::books_view(map),
            command,
            timestamp_ns,
            later_batch,
            books::books_view(later),
            None,
        ),
    ensures
        ({
            let stored = later_batch.last().header.encoded();
            &&& stored.len() == 71
            &&& bytes::le_value(stored.subrange(0, 2)) == command.prepared.record_length
            &&& stored[2] == command.prepared.total_entry_count
            &&& bytes::le_value(stored.subrange(3, 11)) == 0
            &&& bytes::le_value(stored.subrange(11, 19)) == timestamp_ns
            &&& bytes::be_value(stored.subrange(19, 35)) == command.prepared.idempotency_key
            &&& bytes::le_value(stored.subrange(35, 39)) == 0
            &&& forall|k: int| 39 <= k < 71 ==> #[trigger] stored[k] == 0u8
        }),
        later_batch.last().response_tx == command.response_tx,
{
    let header = later_batch.last().header;
    let stored = header.encoded();
    assert(stored.subrange(0, 2) =~= header.record_length@);
    assert(stored.subrange(3, 11) =~= header.operation_id@);
    assert(stored.subrange(11, 19) =~= header.timestamp_ns@);
    assert(stored.subrange(19, 35) =~= header.idempotency_key@);
    assert(stored.subrange(35, 39) =~= header.checksum@);
    assert forall|k: int| 39 <= k < 71 implies #[trigger] stored[k] == 0u8 by {
        assert(stored[k] == header.prev_hash@[k - 39]);
    }
}

/// The entries of an accepted operation, read back from the thirty-eight bytes of each: every book
/// in order, and in it every entry in order, with the book, the amount and the ledger code; page and
/// line are not assigned yet.
pub proof fn law_entries_are_read_back<R>(
    batch: Seq<WriteCommand<R>>,
    map: Map<BookId, BookState>,
    command: AcceptorCommand<R>,
    timestamp_ns: u64,
    later_batch: Seq<WriteCommand<R>>,
    later: Map<BookId, BookState>,
    i: int,
    k: int,
)
    requires
        acceptor::handled(
            batch,
            books::books_view(map),
            command,
            timestamp_ns,
            later_batch,
            books::books_view(later),
            None,
        ),
        0 <= i < command.prepared.per_book@.len(),
    ensures
        ({
            let per_book = command.prepared.per_book@;
            let contributions = later_batch.last().book_contributions@;
            &&& contributions.len() == per_book.len()
            &&& contributions[i].book_id == per_book[i].book_id
            &&& contributions[i].entries@.len() == per_book[i].entries@.len()
            &&& 0 <= k < per_book[i].entries@.len() ==> {
                let stored = contributions[i].entries@[k].encoded();
                &&& stored.len() == 38
                &&& bytes::le_value(stored.subrange(0, 8)) == per_book[i].book_id
                &&& bytes::le_value(stored.subrange(8, 12)) == 0
                &&& bytes::le_value(stored.subrange(12, 14)) == 0
                &&& bytes::signed_le_value(stored.subrange(14, 30)) == per_book[i].entries@[k].amount
                &&& stored.subrange(30, 38) == per_book[i].entries@[k].ledger_code@
            }
        }),
{
    let per_book = command.prepared.per_book@;
    let contributions = later_batch.last().book_contributions@;
    assert(acceptor::contributes(contributions[i], per_book[i]));
    if 0 <= k < per_book[i].entries@.len() {
        let entry = contributions[i].entries@[k];
        let stored = entry.encoded();
        assert(stored.subrange(0, 8) =~= entry.target_book_id@);
        assert(stored.subrange(8, 12) =~= entry.target_page@);
        assert(stored.subrange(12, 14) =~= entry.target_line@);
        assert(stored.subrange(14, 30) =~= entry.amount@);
        assert(stored.subrange(30, 38) =~= entry.ledger_code@);
    }
}

/// Under what the balance of a book is reported: its account, its currency and its balance type.
pub open spec fn reported_under(book: PreparedBook) -> (AccountId, Currency, BalanceType) {
    (book.account_id, book.currency, book.balance_type)
}

/// What is reported is reported for a book that the operation posts to.
proof fn lemma_reported_for(
    view: Map<BookId, BookView>,
    per_book: Seq<PreparedBook>,
    key: (AccountId, Currency, BalanceType),
)
    ensures
        acceptor::ending_balances(view, per_book).contains_key(key) <==> exists|i: int|
            0 <= i < per_book.len() && reported_under(#[trigger] per_book[i]) == key,
    decreases per_book.len(),
{
    if per_book.len() > 0 {
        let front = per_book.drop_last();
        let n = per_book.len() - 1;
        lemma_reported_for(view, front, key);
        if exists|i: int| 0 <= i < front.len() && reported_under(#[trigger] front[i]) == key {
            let i = choose|i: int| 0 <= i < front.len() && reported_under(#[trigger] front[i])
                == key;
            assert(reported_under(per_book[i]) == key);
        }
        if exists|i: int| 0 <= i < per_book.len() && reported_under(#[trigger] per_book[i]) == key {
            let i = choose|i: int|
                0 <= i < per_book.len() && reported_under(#[trigger] per_book[i]) == key;
            if i < n {
                assert(reported_under(front[i]) == key);
            }
        }
        assert(reported_under(per_book[n]) == reported_under(per_book.last()));
    }
}

/// The last book under a key is what is reported under it.
proof fn lemma_reported_value(
    view: Map<BookId, BookView>,
    per_book: Seq<PreparedBook>,
    i: int,
)
    requires
        0 <= i < per_book.len(),
        forall|j: int|
            i < j < per_book.len() ==> reported_under(#[trigger] per_book[j]) != reported_under(
                per_book[i],
            ),
    ensures
        acceptor::ending_balances(view, per_book)[reported_under(per_book[i])]
            == acceptor::projected(view, per_book[i]) as i128,
    decreases per_book.len(),
{
    let n = per_book.len() - 1;
    if i < n {
        let front = per_book.drop_last();
        assert forall|j: int| i < j < front.len() implies reported_under(#[trigger] front[j])
            != reported_under(front[i]) by {
            assert(front[j] == per_book[j]);
        }
        lemma_reported_value(view, front, i);
        assert(reported_under(per_book[n]) != reported_under(per_book[i]));
    }
}

/// The balances with which an accepted operation is answered are those of the books that it posts
/// to and of no others: a key is reported exactly if some book of the operation has that account,
/// currency and balance type, and under it what the last such book came to with what the operation
/// posts there.
pub proof fn law_reports_exactly_the_books_posted_to<R>(
    batch: Seq<WriteCommand<R>>,
    map: Map<BookId, BookState>,
    command: AcceptorCommand<R>,
    timestamp_ns: u64,
    later_batch: Seq<WriteCommand<R>>,
    later: Map<BookId, BookState>,
    key: (AccountId, Currency, BalanceType),
    i: int,
)
    requires
        acceptor::judgeable(books::books_view(map), command.prepared.per_book@),
        acceptor::handled(
            batch,
            books::books_view(map),
            command,
            timestamp_ns,
            later_batch,
            books::books_view(later),
            None,
        ),
    ensures
        ({
            let per_book = command.prepared.per_book@;
            let reported = later_batch.last().ending_balances@;
            &&& reported.contains_key(key) <==> exists|j: int|
                0 <= j < per_book.len() && reported_under(#[trigger] per_book[j]) == key
            &&& 0 <= i < per_book.len() && (forall|j: int|
                i < j < per_book.len() ==> reported_under(#[trigger] per_book[j])
                    != reported_under(per_book[i])) ==> reported[reported_under(per_book[i])]
                == standing(map[per_book[i].book_id]) + per_book[i].net_delta
        }),
        later_batch.last().ending_balances.wf(),
{
    let per_book = command.prepared.per_book@;
    let view = books::books_view(map);
    lemma_reported_for(view, per_book, key);
    if 0 <= i < per_book.len() && (forall|j: int|
        i < j < per_book.len() ==> reported_under(#[trigger] per_book[j]) != reported_under(
            per_book[i],
        )) {
        lemma_reported_value(view, per_book, i);
        assert(view.contains_key(per_book[i].book_id));
        lemma_refusal(map, per_book[i]);
        posting::lemma_no_refusal(view, per_book, i);
    }
}

/// What an event leads to. A command is handled; what is then gathered goes out, whole, exactly if
/// it fills the room for a batch, and the wait starts over exactly if the buffer was empty and is
/// not any more. The end of the wait sends out what is gathered; an interruption does so if there is
/// anything, and ends the acceptor; the end of all commands ends it too and sends nothing. None of
/// the latter touches a book or answers anything.
pub proof fn law_step<R>(
    buffer: Seq<WriteCommand<R>>,
    room: usize,
    map: Map<BookId, BookState>,
    event: Event<AcceptorCommand<R>>,
    timestamp_ns: u64,
    later_buffer: Seq<WriteCommand<R>>,
    later_room: usize,
    later: Map<BookId, BookState>,
    step: AcceptorStep<R>,
)
    requires
        acceptor::stepped(
            buffer,
            room,
            books::books_view(map),
            event,
            timestamp_ns,
            later_buffer,
            later_room,
            books::books_view(later),
            step,
        ),
    ensures
        match event {
            Event::Received(command) => {
                let gathered = match step.batch.flush {
                    Some(sent) => sent@,
                    None => later_buffer,
                };
                &&& acceptor::handled(
                    buffer,
                    books::books_view(map),
                    command,
                    timestamp_ns,
                    gathered,
                    books::books_view(later),
                    step.answer,
                )
                &&& gathered.len() <= room ==> later_room == room
                &&& gathered.len() <= later_room
                &&& step.batch.flush is Some <==> gathered.len() == later_room
                &&& step.batch.flush is Some ==> later_buffer.len() == 0
                &&& step.batch.restart_timer <==> buffer.len() == 0 && gathered.len() > 0
                &&& !step.batch.stop
            },
            Event::FlushTimeout => {
                &&& step.batch.flush is Some
                &&& step.batch.flush->0@ == buffer
                &&& later_buffer.len() == 0
                &&& !step.batch.stop
            },
            Event::Interrupted => {
                &&& step.batch.flush is Some <==> buffer.len() > 0
                &&& step.batch.flush is Some ==> step.batch.flush->0@ == buffer
                &&& later_buffer.len() == 0
                &&& step.batch.stop
            },
            Event::Exhausted => {
                &&& step.batch.flush is None
                &&& later_buffer == buffer
                &&& step.batch.stop
            },
        },
        !(event is Received) ==> {
            &&& step.answer is None
            &&& same_books(map, later)
            &&& later_room == room
            &&& !step.batch.restart_timer
        },
{
    if !(event is Received) {
        lemma_same_books(map, later);
    }
}

/// A full batch goes out at once: with room for one operation more, an accepted operation that takes
/// up the last of the room sends out as many operations as there is room for and leaves none; one
/// that leaves room, and one that is refused, sends nothing.
pub proof fn law_full_batch_goes_out<R>(
    buffer: Seq<WriteCommand<R>>,
    room: usize,
    map: Map<BookId, BookState>,
    command: AcceptorCommand<R>,
    timestamp_ns: u64,
    later_buffer: Seq<WriteCommand<R>>,
    later_room: usize,
    later: Map<BookId, BookState>,
    step: AcceptorStep<R>,
)
    requires
        buffer.len() < room,
        acceptor::judgeable(books::books_view(map), command.prepared.per_book@),
        acceptor::stepped(
            buffer,
            room,
            books::books_view(map),
            Event::Received(command),
            timestamp_ns,
            later_buffer,
            later_room,
            books::books_view(later),
            step,
        ),
    ensures
        ({
            let per_book = command.prepared.per_book@;
            let accepted = none_turns_away(map, per_book, per_book.len() as int);
            &&& later_room == room
            &&& step.answer is None <==> accepted
            &&& accepted && buffer.len() + 1 == room ==> step.batch.flush is Some
                && step.batch.flush->0@.len() == room && step.batch.flush->0@.drop_last() == buffer
                && later_buffer.len() == 0
            &&& accepted && buffer.len() + 1 < room ==> step.batch.flush is None
                && later_buffer.len() == buffer.len() + 1 && later_buffer.drop_last() == buffer
            &&& !accepted ==> step.batch.flush is None && later_buffer == buffer
        }),
{
    let per_book = command.prepared.per_book@;
    let view = books::books_view(map);
    assert forall|j: int| 0 <= j < per_book.len() implies map.contains_key(
        (#[trigger] per_book[j]).book_id,
    ) by {
        assert(view.contains_key(per_book[j].book_id));
    }
    lemma_first_refusal(map, per_book, per_book.len() as int);
    assert(per_book.take(per_book.len() as int) =~= per_book);
}

} // verus!
