//! How accepted operations reach the journal.

use crate::acceptor;
use crate::acceptor::{AcceptorCommand, AcceptorStep};
use crate::batch;
use crate::batch::{BatchStep, Event};
use crate::books::{BookId, BookView};
use crate::journal::WriteCommand;
use vstd::prelude::*;

verus! {

/// What was sent, one batch behind the other, with a batch that goes out.
pub open spec fn sent_with<T>(sent: Seq<T>, flush: Option<Vec<T>>) -> Seq<T> {
    match flush {
        Some(batch) => sent + batch@,
        None => sent,
    }
}

/// Whether the command on its way into the journal carries the operation that was handed in.
pub open spec fn stands_for<R>(write: WriteCommand<R>, command: AcceptorCommand<R>) -> bool {
    exists|books: Map<BookId, BookView>, timestamp_ns: u64| #[trigger]
        acceptor::carries(write, command.prepared, books, timestamp_ns, command.response_tx)
}

/// Whether the commands on their way into the journal are those handed in, in order, each once.
pub open spec fn stand_for<R>(
    writes: Seq<WriteCommand<R>>,
    accepted: Seq<AcceptorCommand<R>>,
) -> bool {
    &&& writes.len() == accepted.len()
    &&& forall|i: int|
        0 <= i < writes.len() ==> stands_for(#[trigger] writes[i], accepted[i])
}

/// The operations accepted so far, and the one of an event if the books accept it.
pub open spec fn accepted_with<R>(
    accepted: Seq<AcceptorCommand<R>>,
    books: Map<BookId, BookView>,
    event: Event<AcceptorCommand<R>>,
) -> Seq<AcceptorCommand<R>> {
    match event {
        Event::Received(command) => if acceptor::first_refusal(
            books,
            command.prepared.per_book@,
        ) is None {
            accepted.push(command)
        } else {
            accepted
        },
        _ => accepted,
    }
}

/// Nothing is lost, repeated or reordered on the way: an event adds to what was sent and what is
/// gathered, taken together, the operation that it brings in if that is accepted, at the end, and
/// nothing otherwise.
pub proof fn law_sent_and_gathered_grow_by_what_is_accepted<R>(
    sent: Seq<WriteCommand<R>>,
    buffer: Seq<WriteCommand<R>>,
    room: usize,
    books: Map<BookId, BookView>,
    event: Event<AcceptorCommand<R>>,
    timestamp_ns: u64,
    later_buffer: Seq<WriteCommand<R>>,
    later_room: usize,
    later_books: Map<BookId, BookView>,
    step: AcceptorStep<R>,
)
    requires
        acceptor::stepped(
            buffer,
            room,
            books,
            event,
            timestamp_ns,
            later_buffer,
            later_room,
            later_books,
            step,
        ),
    ensures
        ({
            let before = sent + buffer;
            let after = sent_with(sent, step.batch.flush) + later_buffer;
            match event {
                Event::Received(command) => if acceptor::first_refusal(
                    books,
                    command.prepared.per_book@,
                ) is None {
                    &&& after.len() == before.len() + 1
                    &&& after.drop_last() == before
                    &&& acceptor::carries(
                        after.last(),
                        command.prepared,
                        books,
                        timestamp_ns,
                        command.response_tx,
                    )
                } else {
                    after == before
                },
                _ => after == before,
            }
        }),
{
    let before = sent + buffer;
    let after = sent_with(sent, step.batch.flush) + later_buffer;
    let gathered = match step.batch.flush {
        Some(batch) => batch@,
        None => later_buffer,
    };
    assert(after =~= sent + gathered);
    if let Event::Received(command) = event {
        if acceptor::first_refusal(books, command.prepared.per_book@) is None {
            assert(after.drop_last() =~= sent + gathered.drop_last());
        }
    }
}

/// The batches sent, one behind the other, and then what is gathered are exactly the operations
/// accepted, in the order in which they came in, each once; no refused operation is among them. So
/// it is at first, and every event keeps it so.
pub proof fn law_batches_are_the_accepted_operations<R>(
    sent: Seq<WriteCommand<R>>,
    buffer: Seq<WriteCommand<R>>,
    accepted: Seq<AcceptorCommand<R>>,
    room: usize,
    books: Map<BookId, BookView>,
    event: Event<AcceptorCommand<R>>,
    timestamp_ns: u64,
    later_buffer: Seq<WriteCommand<R>>,
    later_room: usize,
    later_books: Map<BookId, BookView>,
    step: AcceptorStep<R>,
)
    requires
        stand_for(sent + buffer, accepted),
        acceptor::stepped(
            buffer,
            room,
            books,
            event,
            timestamp_ns,
            later_buffer,
            later_room,
            later_books,
            step,
        ),
    ensures
        stand_for(Seq::<WriteCommand<R>>::empty(), Seq::<AcceptorCommand<R>>::empty()),
        stand_for(
            sent_with(sent, step.batch.flush) + later_buffer,
            accepted_with(accepted, books, event),
        ),
{
    law_sent_and_gathered_grow_by_what_is_accepted(
        sent,
        buffer,
        room,
        books,
        event,
        timestamp_ns,
        later_buffer,
        later_room,
        later_books,
        step,
    );
    let before = sent + buffer;
    let after = sent_with(sent, step.batch.flush) + later_buffer;
    let listed = accepted_with(accepted, books, event);
    if after.len() > before.len() {
        assert forall|i: int| 0 <= i < after.len() implies stands_for(
            #[trigger] after[i],
            listed[i],
        ) by {
            if i < before.len() {
                assert(after.drop_last()[i] == before[i]);
                assert(listed[i] == accepted[i]);
            } else {
                assert(after[i] == after.last());
            }
        }
    }
}

/// A full batch goes out as soon as it is full, and no batch is larger: to a buffer with room for
/// one more at least, offering at most one item sends out nothing and leaves room, or sends out
/// exactly as many items as there is room for and leaves nothing.
pub proof fn law_full_batch_goes_out_at_once<T>(
    before: Seq<T>,
    buffer: Seq<T>,
    was_empty: bool,
    capacity: usize,
    step: BatchStep<T>,
    later_buffer: Seq<T>,
)
    requires
        before.len() < capacity,
        before.len() <= buffer.len() <= before.len() + 1,
        batch::follows_offer(buffer, was_empty, capacity, step, later_buffer),
    ensures
        later_buffer.len() < capacity,
        step.flush is Some <==> buffer.len() == capacity,
        step.flush matches Some(batch) ==> batch@.len() == capacity && later_buffer.len() == 0,
{
}

/// Whatever sends a batch out without its being full sends no empty batch and none larger than the
/// buffer has room for, as long as the end of the wait matters only while something is gathered.
pub proof fn law_no_other_batch_is_empty_or_too_large<T, C>(
    buffer: Seq<T>,
    capacity: usize,
    event: Event<C>,
    step: BatchStep<T>,
    later_buffer: Seq<T>,
)
    requires
        buffer.len() < capacity,
        event is FlushTimeout ==> buffer.len() > 0,
        batch::follows_quiet(buffer, event, step, later_buffer),
    ensures
        later_buffer.len() < capacity,
        step.flush matches Some(batch) ==> 1 <= batch@.len() < capacity && later_buffer.len() == 0,
{
}

} // verus!
