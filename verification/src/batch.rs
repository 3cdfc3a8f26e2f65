//! When what has been gathered goes out as a batch.

use vstd::prelude::*;

verus! {

/// Calls `std::vec::Vec::capacity`: how many items the buffer holds without growing, which is
/// never fewer than it has. How many more is up to the allocator.
#[verifier::external_body]
pub(crate) fn capacity_of<T>(buffer: &Vec<T>) -> (capacity: usize)
    ensures
        capacity >= buffer@.len(),
{
    buffer.capacity()
}

/// Takes the batch out, and leaves an empty buffer with as much room.
pub fn take_batch<T>(buffer: &mut Vec<T>) -> (batch: Vec<T>)
    ensures
        batch@ == old(buffer)@,
        final(buffer)@.len() == 0,
{
    let mut batch: Vec<T> = Vec::with_capacity(capacity_of(buffer));
    std::mem::swap(buffer, &mut batch);
    batch
}

/// What an acceptor waits for.
#[derive(Debug)]
pub enum Event<C> {
    /// A command came in.
    Received(C),
    /// The wait for a timed flush is over.
    FlushTimeout,
    /// The process is asked to end.
    Interrupted,
    /// Nothing can come in any more.
    Exhausted,
}

/// What follows from an event.
#[derive(Debug)]
pub struct BatchStep<T> {
    /// The wait for a timed flush starts over.
    pub restart_timer: bool,
    /// The batch that goes out now.
    pub flush: Option<Vec<T>>,
    /// The acceptor ends.
    pub stop: bool,
}

/// What is to follow once something was offered to a buffer with the capacity stated: the wait
/// starts over with the first item of a batch, and a full buffer goes out at once.
pub open spec fn follows_offer<T>(
    buffer: Seq<T>,
    was_empty: bool,
    capacity: usize,
    step: BatchStep<T>,
    later_buffer: Seq<T>,
) -> bool {
    &&& step.restart_timer == (was_empty && buffer.len() > 0)
    &&& match step.flush {
        Some(batch) => buffer.len() == capacity && batch@ == buffer && later_buffer.len() == 0,
        None => buffer.len() != capacity && later_buffer == buffer,
    }
    &&& !step.stop
}

/// What is to follow from any event but a command: the end of the wait sends the batch out, an
/// interruption does so if there is anything to send and ends the acceptor, and so does the end of
/// all commands, which sends nothing.
pub open spec fn follows_quiet<T, C>(
    buffer: Seq<T>,
    event: Event<C>,
    step: BatchStep<T>,
    later_buffer: Seq<T>,
) -> bool {
    &&& !step.restart_timer
    &&& step.stop == !(event is FlushTimeout)
    &&& match step.flush {
        Some(batch) => {
            &&& event is FlushTimeout || event is Interrupted && buffer.len() > 0
            &&& batch@ == buffer
            &&& later_buffer.len() == 0
        },
        None => {
            &&& event is Exhausted || event is Interrupted && buffer.len() == 0
            &&& later_buffer == buffer
        },
    }
}

/// Decides what follows once something was offered to a buffer with the capacity stated.
pub fn after_offer<T>(buffer: &mut Vec<T>, was_empty: bool, capacity: usize) -> (step: BatchStep<T>)
    ensures
        follows_offer(old(buffer)@, was_empty, capacity, step, final(buffer)@),
{
    let restart_timer = was_empty && !buffer.is_empty();
    let flush = if buffer.len() == capacity {
        Some(take_batch(buffer))
    } else {
        None
    };
    BatchStep { restart_timer, flush, stop: false }
}

/// Decides what follows from any event but a command.
pub fn after_quiet<T, C>(buffer: &mut Vec<T>, event: &Event<C>) -> (step: BatchStep<T>)
    requires
        !(event is Received),
    ensures
        follows_quiet(old(buffer)@, *event, step, final(buffer)@),
{
    match event {
        Event::FlushTimeout => {
            let batch = take_batch(buffer);
            BatchStep { restart_timer: false, flush: Some(batch), stop: false }
        },
        Event::Interrupted => {
            let flush = if buffer.is_empty() {
                None
            } else {
                Some(take_batch(buffer))
            };
            BatchStep { restart_timer: false, flush, stop: true }
        },
        _ => BatchStep { restart_timer: false, flush: None, stop: true },
    }
}

} // verus!
