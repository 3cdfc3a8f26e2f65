//! What waits in the books, and what the journal does to it.

use crate::acceptor;
use crate::acceptor::AcceptorCommand;
use crate::books;
use crate::books::{BookId, BookView};
use crate::journal;
use crate::journal::{ContributionView, WriteCommand};
use crate::operation::{PreparedBook, PreparedOperation};
use crate::sums;
use vstd::prelude::*;

verus! {

/// Whether the operations queued are exactly what waits in the books: every book that they post to
/// is in memory, and what waits in each book is what they post to it, in order.
pub open spec fn awaits<R>(books: Map<BookId, BookView>, queue: Seq<WriteCommand<R>>) -> bool {
    let all = journal::batch_contributions(queue);
    &&& forall|i: int| 0 <= i < all.len() ==> books.contains_key((#[trigger] all[i]).book_id)
    &&& forall|id: BookId| #[trigger]
        books.contains_key(id) ==> sums::exact(books[id].pending) == books::entry_amounts(
            journal::entries_for(all, id),
        )
}

/// What the operations of a batch add to one book.
pub open spec fn batch_delta<R>(batch: Seq<WriteCommand<R>>, id: BookId) -> int {
    sums::sum(
        books::entry_amounts(journal::entries_for(journal::batch_contributions(batch), id)),
    )
}

/// Batches behind one another contribute one behind the other.
proof fn lemma_batch_concat<R>(left: Seq<WriteCommand<R>>, right: Seq<WriteCommand<R>>)
    ensures
        journal::batch_contributions(left + right) == journal::batch_contributions(left)
            + journal::batch_contributions(right),
    decreases right.len(),
{
    if right.len() == 0 {
        assert(left + right =~= left);
        assert(journal::batch_contributions(left) + journal::batch_contributions(right)
            =~= journal::batch_contributions(left));
    } else {
        assert((left + right).drop_last() =~= left + right.drop_last());
        lemma_batch_concat(left, right.drop_last());
        assert(journal::batch_contributions(left + right) =~= journal::batch_contributions(left)
            + journal::batch_contributions(right));
    }
}

/// A batch of one contributes what its operation contributes.
proof fn lemma_batch_of_one<R>(command: WriteCommand<R>)
    ensures
        journal::batch_contributions(seq![command]) == command.contributions(),
{
    assert(seq![command].drop_last() =~= Seq::empty());
    assert(journal::batch_contributions(Seq::<WriteCommand<R>>::empty()) + command.contributions()
        =~= command.contributions());
}

/// The amounts of entries behind one another stand behind one another.
proof fn lemma_entry_amounts_concat(
    left: Seq<journal::JournalEntryBytes>,
    right: Seq<journal::JournalEntryBytes>,
)
    ensures
        books::entry_amounts(left + right) == books::entry_amounts(left) + books::entry_amounts(
            right,
        ),
{
    assert(books::entry_amounts(left + right) =~= books::entry_amounts(left)
        + books::entry_amounts(right));
}

/// Whether the contributions carry, book by book, the amounts of the books prepared.
spec fn carry_amounts(contributions: Seq<ContributionView>, per_book: Seq<PreparedBook>) -> bool {
    &&& contributions.len() == per_book.len()
    &&& forall|i: int|
        0 <= i < per_book.len() ==> (#[trigger] contributions[i]).book_id == per_book[i].book_id
            && books::entry_amounts(contributions[i].entries) == sums::exact(
            acceptor::posted_amounts(per_book[i].entries@),
        )
}

/// Such contributions post to each book the amounts that were prepared for it.
proof fn lemma_carried_amounts(
    contributions: Seq<ContributionView>,
    per_book: Seq<PreparedBook>,
    id: BookId,
)
    requires
        carry_amounts(contributions, per_book),
    ensures
        books::entry_amounts(journal::entries_for(contributions, id)) == sums::exact(
            acceptor::amounts_for(per_book, id),
        ),
    decreases per_book.len(),
{
    if per_book.len() > 0 {
        let front = contributions.drop_last();
        assert(carry_amounts(front, per_book.drop_last())) by {
            assert forall|i: int| 0 <= i < front.len() implies (#[trigger] front[i]).book_id
                == per_book.drop_last()[i].book_id && books::entry_amounts(front[i].entries)
                == sums::exact(
                acceptor::posted_amounts(per_book.drop_last()[i].entries@),
            ) by {
                assert(front[i] == contributions[i]);
            }
        }
        lemma_carried_amounts(front, per_book.drop_last(), id);
        let n = per_book.len() - 1;
        assert(contributions[n].book_id == per_book[n].book_id);
        let before = journal::entries_for(front, id);
        let amounts = acceptor::amounts_for(per_book.drop_last(), id);
        if per_book[n].book_id == id {
            lemma_entry_amounts_concat(before, contributions[n].entries);
            assert(sums::exact(amounts + acceptor::posted_amounts(per_book[n].entries@))
                =~= sums::exact(amounts) + sums::exact(
                acceptor::posted_amounts(per_book[n].entries@),
            ));
        }
    } else {
        assert(books::entry_amounts(journal::entries_for(contributions, id)) =~= sums::exact(
            acceptor::amounts_for(per_book, id),
        ));
    }
}

/// A command that carries an operation carries its amounts.
proof fn lemma_carries_amounts<R>(
    command: WriteCommand<R>,
    prepared: PreparedOperation,
    books: Map<BookId, BookView>,
    timestamp_ns: u64,
    response_tx: R,
)
    requires
        acceptor::carries(command, prepared, books, timestamp_ns, response_tx),
    ensures
        carry_amounts(command.contributions(), prepared.per_book@),
{
    let contributions = command.contributions();
    let per_book = prepared.per_book@;
    assert forall|i: int| 0 <= i < per_book.len() implies (#[trigger] contributions[i]).book_id
        == per_book[i].book_id && books::entry_amounts(contributions[i].entries) == sums::exact(
        acceptor::posted_amounts(per_book[i].entries@),
    ) by {
        let contribution = command.book_contributions@[i];
        assert(acceptor::contributes(contribution, per_book[i]));
        assert(contributions[i] == contribution@);
        let amounts = sums::exact(acceptor::posted_amounts(per_book[i].entries@));
        assert forall|k: int| 0 <= k < amounts.len() implies books::entry_amounts(
            contribution.entries@,
        )[k] == amounts[k] by {
            assert(contribution.entries@[k]@.amount == per_book[i].entries@[k].amount as int);
        }
        assert(books::entry_amounts(contribution.entries@) =~= amounts);
    }
}

/// Before anything is accepted, an empty queue is what waits in books that nothing waits in; so it
/// is in books that have just been loaded.
pub proof fn law_nothing_waits_at_first<R>(ids: Seq<BookId>)
    ensures
        awaits::<R>(books::with_books(Map::empty(), ids), Seq::empty()),
{
    let books = books::with_books(Map::empty(), ids);
    assert forall|id: BookId| #[trigger] books.contains_key(id) implies sums::exact(
        books[id].pending,
    ) == books::entry_amounts(
        journal::entries_for(
            journal::batch_contributions(Seq::<WriteCommand<R>>::empty()),
            id,
        ),
    ) by {
        assert(sums::exact(books[id].pending) =~= books::entry_amounts(Seq::empty()));
    }
}

/// Loading further books changes neither what waits in the books nor any balance.
pub proof fn law_loading_keeps_what_waits<R>(
    books: Map<BookId, BookView>,
    ids: Seq<BookId>,
    queue: Seq<WriteCommand<R>>,
)
    requires
        awaits(books, queue),
    ensures
        awaits(books::with_books(books, ids), queue),
        forall|id: BookId| #[trigger]
            books.contains_key(id) ==> books::with_books(books, ids)[id] == books[id],
{
    let later = books::with_books(books, ids);
    let all = journal::batch_contributions(queue);
    assert forall|id: BookId| #[trigger] later.contains_key(id) implies sums::exact(
        later[id].pending,
    ) == books::entry_amounts(journal::entries_for(all, id)) by {
        if !books.contains_key(id) {
            if journal::entries_for(all, id).len() > 0 {
                lemma_posts_to_known(books, all, id);
            }
            assert(sums::exact(later[id].pending) =~= books::entry_amounts(
                journal::entries_for(all, id),
            ));
        }
    }
}

/// Contributions to books in memory post nothing to any other book.
proof fn lemma_posts_to_known(
    books: Map<BookId, BookView>,
    contributions: Seq<ContributionView>,
    id: BookId,
)
    requires
        forall|i: int|
            0 <= i < contributions.len() ==> books.contains_key(
                (#[trigger] contributions[i]).book_id,
            ),
        journal::entries_for(contributions, id).len() > 0,
    ensures
        books.contains_key(id),
    decreases contributions.len(),
{
    let n = contributions.len() - 1;
    if contributions[n].book_id == id {
        assert(books.contains_key(contributions[n].book_id));
    } else {
        let front = contributions.drop_last();
        assert forall|i: int| 0 <= i < front.len() implies books.contains_key(
            (#[trigger] front[i]).book_id,
        ) by {
            assert(front[i] == contributions[i]);
        }
        lemma_posts_to_known(books, front, id);
    }
}

/// The acceptor keeps the queue in step with the books: an operation that it accepts joins the end
/// of the queue, and one that it refuses leaves queue and books as they are.
pub proof fn law_accepting_keeps_what_waits<R>(
    batch: Seq<WriteCommand<R>>,
    books: Map<BookId, BookView>,
    command: AcceptorCommand<R>,
    timestamp_ns: u64,
    later_batch: Seq<WriteCommand<R>>,
    later_books: Map<BookId, BookView>,
    answer: Option<(R, acceptor::OperationResult)>,
    ahead: Seq<WriteCommand<R>>,
)
    requires
        acceptor::judgeable(books, command.prepared.per_book@),
        acceptor::handled(
            batch,
            books,
            command,
            timestamp_ns,
            later_batch,
            later_books,
            answer,
        ),
        awaits(books, ahead + batch),
    ensures
        awaits(later_books, ahead + later_batch),
{
    let per_book = command.prepared.per_book@;
    if acceptor::first_refusal(books, per_book) is None {
        let last = later_batch.last();
        let queue = ahead + batch;
        let later_queue = ahead + later_batch;
        assert(later_queue =~= queue + seq![last]);
        lemma_batch_concat(queue, seq![last]);
        lemma_batch_of_one(last);
        lemma_carries_amounts(last, command.prepared, books, timestamp_ns, command.response_tx);
        let before = journal::batch_contributions(queue);
        let own = last.contributions();
        let all = journal::batch_contributions(later_queue);
        assert(all == before + own);
        assert forall|i: int| 0 <= i < all.len() implies later_books.contains_key(
            (#[trigger] all[i]).book_id,
        ) by {
            if i < before.len() {
                assert(all[i] == before[i]);
                assert(books.contains_key(before[i].book_id));
            } else {
                let k = i - before.len();
                assert(all[i] == own[k]);
                assert(own[k].book_id == per_book[k].book_id);
                assert(books.contains_key(per_book[k].book_id));
            }
        }
        assert forall|id: BookId| #[trigger] later_books.contains_key(id) implies sums::exact(
            later_books[id].pending,
        ) == books::entry_amounts(journal::entries_for(all, id)) by {
            assert(books.contains_key(id));
            journal::lemma_entries_concat(before, own, id);
            lemma_entry_amounts_concat(
                journal::entries_for(before, id),
                journal::entries_for(own, id),
            );
            lemma_carried_amounts(own, per_book, id);
            assert(sums::exact(books[id].pending + acceptor::amounts_for(per_book, id))
                =~= sums::exact(books[id].pending) + sums::exact(
                acceptor::amounts_for(per_book, id),
            ));
        }
    }
}

/// What waits in the books suffices for the operations at the head of the queue to be recorded or
/// given up.
pub proof fn law_queued_operations_are_covered<R>(
    books: Map<BookId, BookView>,
    batch: Seq<WriteCommand<R>>,
    rest: Seq<WriteCommand<R>>,
)
    requires
        awaits(books, batch + rest),
    ensures
        journal::covered(books, journal::batch_contributions(batch)),
{
    lemma_batch_concat(batch, rest);
    let head = journal::batch_contributions(batch);
    let tail = journal::batch_contributions(rest);
    assert forall|i: int| 0 <= i < head.len() implies books.contains_key(
        (#[trigger] head[i]).book_id,
    ) && journal::entries_for(head, head[i].book_id).len()
        <= books[head[i].book_id].pending.len() by {
        assert((head + tail)[i] == head[i]);
        let id = head[i].book_id;
        assert(books.contains_key(id));
        journal::lemma_entries_concat(head, tail, id);
        assert(sums::exact(books[id].pending).len() == books[id].pending.len());
        assert(books::entry_amounts(journal::entries_for(head + tail, id)).len()
            == journal::entries_for(head + tail, id).len());
    }
}

/// Of the amounts that wait in a book, those that belong to the head of the queue stand first.
proof fn lemma_head_of_pending<R>(
    books: Map<BookId, BookView>,
    batch: Seq<WriteCommand<R>>,
    rest: Seq<WriteCommand<R>>,
    id: BookId,
)
    requires
        awaits(books, batch + rest),
        books.contains_key(id),
    ensures
        ({
            let head = journal::entries_for(journal::batch_contributions(batch), id);
            let tail = journal::entries_for(journal::batch_contributions(rest), id);
            &&& books[id].pending.len() == head.len() + tail.len()
            &&& sums::exact(books[id].pending.take(head.len() as int)) == books::entry_amounts(head)
            &&& sums::exact(books[id].pending.skip(head.len() as int)) == books::entry_amounts(tail)
        }),
{
    lemma_batch_concat(batch, rest);
    journal::lemma_entries_concat(
        journal::batch_contributions(batch),
        journal::batch_contributions(rest),
        id,
    );
    let head = journal::entries_for(journal::batch_contributions(batch), id);
    let tail = journal::entries_for(journal::batch_contributions(rest), id);
    lemma_entry_amounts_concat(head, tail);
    let pending = sums::exact(books[id].pending);
    assert(pending == books::entry_amounts(head) + books::entry_amounts(tail));
    assert(pending.len() == books[id].pending.len());
    let n = head.len() as int;
    assert(sums::exact(books[id].pending.take(n)) =~= pending.take(n));
    assert(sums::exact(books[id].pending.skip(n)) =~= pending.skip(n));
    assert(pending.take(n) =~= books::entry_amounts(head));
    assert(pending.skip(n) =~= books::entry_amounts(tail));
}

/// Recording the operations at the head of the queue in the journal takes them off the queue and
/// changes no balance: each was taken in when it was accepted.
pub proof fn law_recording_keeps_balances<R>(
    books: Map<BookId, BookView>,
    batch: Seq<WriteCommand<R>>,
    rest: Seq<WriteCommand<R>>,
)
    requires
        awaits(books, batch + rest),
    ensures
        awaits(journal::settled(books, journal::batch_contributions(batch)), rest),
        forall|id: BookId| #[trigger]
            books.contains_key(id) ==> journal::settled(
                books,
                journal::batch_contributions(batch),
            )[id].balance() == books[id].balance(),
{
    let later = journal::settled(books, journal::batch_contributions(batch));
    let all = journal::batch_contributions(rest);
    lemma_batch_concat(batch, rest);
    assert forall|i: int| 0 <= i < all.len() implies later.contains_key(
        (#[trigger] all[i]).book_id,
    ) by {
        let both = journal::batch_contributions(batch + rest);
        assert(both[journal::batch_contributions(batch).len() + i] == all[i]);
    }
    assert forall|id: BookId| #[trigger] later.contains_key(id) implies sums::exact(
        later[id].pending,
    ) == books::entry_amounts(journal::entries_for(all, id)) by {
        lemma_head_of_pending(books, batch, rest, id);
    }
    assert forall|id: BookId| #[trigger] books.contains_key(id) implies later[id].balance()
        == books[id].balance() by {
        lemma_head_of_pending(books, batch, rest, id);
        let book = books[id];
        let head = journal::entries_for(journal::batch_contributions(batch), id);
        let n = head.len() as int;
        lemma_entry_amounts_concat(book.durable, head);
        assert(later[id].amounts() =~= book.amounts()) by {
            assert(book.pending =~= book.pending.take(n) + book.pending.skip(n));
            assert(sums::exact(book.pending) =~= sums::exact(book.pending.take(n)) + sums::exact(
                book.pending.skip(n),
            ));
        }
    }
}

/// Giving up the operations at the head of the queue takes them off the queue and out of the
/// balances, each exactly once.
pub proof fn law_giving_up_takes_back<R>(
    books: Map<BookId, BookView>,
    batch: Seq<WriteCommand<R>>,
    rest: Seq<WriteCommand<R>>,
)
    requires
        awaits(books, batch + rest),
    ensures
        awaits(journal::released(books, journal::batch_contributions(batch)), rest),
        forall|id: BookId| #[trigger]
            books.contains_key(id) ==> journal::released(
                books,
                journal::batch_contributions(batch),
            )[id].balance() == books[id].balance() - batch_delta(batch, id),
{
    let later = journal::released(books, journal::batch_contributions(batch));
    let all = journal::batch_contributions(rest);
    lemma_batch_concat(batch, rest);
    assert forall|i: int| 0 <= i < all.len() implies later.contains_key(
        (#[trigger] all[i]).book_id,
    ) by {
        let both = journal::batch_contributions(batch + rest);
        assert(both[journal::batch_contributions(batch).len() + i] == all[i]);
    }
    assert forall|id: BookId| #[trigger] later.contains_key(id) implies sums::exact(
        later[id].pending,
    ) == books::entry_amounts(journal::entries_for(all, id)) by {
        lemma_head_of_pending(books, batch, rest, id);
    }
    assert forall|id: BookId| #[trigger] books.contains_key(id) implies later[id].balance()
        == books[id].balance() - batch_delta(batch, id) by {
        lemma_head_of_pending(books, batch, rest, id);
        let book = books[id];
        let n = journal::entries_for(journal::batch_contributions(batch), id).len() as int;
        let head = sums::exact(book.pending.take(n));
        let tail = sums::exact(book.pending.skip(n));
        let durable = books::entry_amounts(book.durable);
        assert(sums::exact(book.pending) =~= head + tail);
        sums::lemma_sum_concat(head, tail);
        sums::lemma_sum_concat(durable, head + tail);
        sums::lemma_sum_concat(durable, tail);
    }
}

/// Giving up everything that is queued leaves nothing waiting in any book.
pub proof fn law_giving_up_all_leaves_nothing_waiting<R>(
    books: Map<BookId, BookView>,
    batch: Seq<WriteCommand<R>>,
)
    requires
        awaits(books, batch),
    ensures
        forall|id: BookId| #[trigger]
            books.contains_key(id) ==> journal::released(
                books,
                journal::batch_contributions(batch),
            )[id] == (BookView { pending: Seq::empty(), ..books[id] }),
{
    assert(batch + Seq::empty() =~= batch);
    assert forall|id: BookId| #[trigger] books.contains_key(id) implies journal::released(
        books,
        journal::batch_contributions(batch),
    )[id] == (BookView { pending: Seq::empty(), ..books[id] }) by {
        lemma_head_of_pending(books, batch, Seq::empty(), id);
        let n = journal::entries_for(journal::batch_contributions(batch), id).len() as int;
        assert(books[id].pending.skip(n) =~= Seq::empty());
    }
}

/// An operation that is accepted while nothing waits in its own books, and then given up, leaves
/// all books as they were.
pub proof fn law_accepted_and_given_up_leaves_no_trace<R>(
    batch: Seq<WriteCommand<R>>,
    books: Map<BookId, BookView>,
    command: AcceptorCommand<R>,
    timestamp_ns: u64,
    later_batch: Seq<WriteCommand<R>>,
    later_books: Map<BookId, BookView>,
)
    requires
        acceptor::judgeable(books, command.prepared.per_book@),
        acceptor::handled(
            batch,
            books,
            command,
            timestamp_ns,
            later_batch,
            later_books,
            None,
        ),
        forall|i: int|
            0 <= i < command.prepared.per_book@.len() ==> books[(
            #[trigger] command.prepared.per_book@[i]).book_id].pending.len() == 0,
    ensures
        journal::covered(later_books, later_batch.last().contributions()),
        journal::released(later_books, later_batch.last().contributions()) == books,
{
    let per_book = command.prepared.per_book@;
    let last = later_batch.last();
    let own = last.contributions();
    lemma_carries_amounts(last, command.prepared, books, timestamp_ns, command.response_tx);
    let given_up = journal::released(later_books, own);
    assert forall|id: BookId| #[trigger] books.contains_key(id) implies journal::entries_for(
        own,
        id,
    ).len() == acceptor::amounts_for(per_book, id).len() && given_up[id] == books[id] by {
        lemma_carried_amounts(own, per_book, id);
        let n = journal::entries_for(own, id).len() as int;
        let amounts = acceptor::amounts_for(per_book, id);
        assert(books::entry_amounts(journal::entries_for(own, id)).len() == n);
        assert(sums::exact(amounts).len() == amounts.len());
        assert(later_books[id] == books[id].staged(amounts));
        if n > 0 {
            lemma_amounts_come_from(per_book, id);
            let i = choose|i: int| 0 <= i < per_book.len() && (#[trigger] per_book[i]).book_id == id;
            assert(books[per_book[i].book_id].pending.len() == 0);
        }
        assert((books[id].pending + amounts).skip(n) =~= books[id].pending);
    }
    assert(given_up =~= books);
    assert forall|i: int| 0 <= i < own.len() implies later_books.contains_key(
        (#[trigger] own[i]).book_id,
    ) && journal::entries_for(own, own[i].book_id).len()
        <= later_books[own[i].book_id].pending.len() by {
        assert(own[i].book_id == per_book[i].book_id);
        assert(books.contains_key(per_book[i].book_id));
    }
}

/// Amounts for a book come from a book prepared.
proof fn lemma_amounts_come_from(per_book: Seq<PreparedBook>, id: BookId)
    requires
        acceptor::amounts_for(per_book, id).len() > 0,
    ensures
        exists|i: int| 0 <= i < per_book.len() && (#[trigger] per_book[i]).book_id == id,
    decreases per_book.len(),
{
    let n = per_book.len() - 1;
    if per_book[n].book_id != id {
        let front = per_book.drop_last();
        lemma_amounts_come_from(front, id);
        let i = choose|i: int| 0 <= i < front.len() && (#[trigger] front[i]).book_id == id;
        assert(per_book[i].book_id == id);
    }
}

} // verus!
