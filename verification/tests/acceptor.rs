use ledger::acceptor::{
    can_judge, fail_flush, Acceptor, AcceptorCommand, OperationError, OperationResult,
};
use ledger::batch::Event;
use ledger::books::{BalanceType, BookId, BookRegistry};
use ledger::journal::{abort_batch, ack_batch, is_covered, JournalCoverBytes, JournalEntryBytes};
use ledger::operation::{PreProcessedEntry, PreparedBook, PreparedOperation};

fn posting(book_id: BookId, account_id: u64, allow_overdraft: bool, amounts: &[i128]) -> PreparedBook {
    let mut entries = Vec::new();
    for amount in amounts {
        entries.push(PreProcessedEntry {
            target_account_id: account_id,
            amount: *amount,
            ledger_code: *b"    CASH",
            currency: 840,
            balance_type: BalanceType::Current,
        });
    }
    PreparedBook {
        book_id,
        account_id,
        currency: 840,
        balance_type: BalanceType::Current,
        allow_overdraft,
        net_delta: amounts.iter().sum(),
        entries,
    }
}

fn command(per_book: Vec<PreparedBook>, response_tx: u32) -> AcceptorCommand<u32> {
    let mut count: u8 = 0;
    for book in &per_book {
        count += book.entries.len() as u8;
    }
    AcceptorCommand {
        prepared: PreparedOperation {
            idempotency_key: 0x0102_0304_0506_0708_090a_0b0c_0d0e_0f10,
            total_entry_count: count,
            record_length: 71 + 38 * count as u16,
            per_book,
        },
        response_tx,
    }
}

fn books(ids: &[BookId]) -> BookRegistry {
    let mut registry = BookRegistry::new();
    registry.get_books(&ids.to_vec());
    registry
}

fn waiting(registry: &BookRegistry, id: BookId) -> Vec<i128> {
    registry.map[&id].pending_journal.iter().copied().collect()
}

#[test]
fn an_accepted_operation_waits_in_its_books_and_in_the_batch() {
    let mut registry = books(&[10, 20, 30]);
    let mut acceptor: Acceptor<u32> = Acceptor::new(10);
    let cmd = command(vec![posting(10, 1, false, &[60, 40]), posting(20, 2, false, &[100])], 77);
    assert!(can_judge(&registry, &cmd.prepared.per_book));
    assert!(acceptor.handle(&mut registry, cmd, 5).is_none());
    assert_eq!(waiting(&registry, 10), vec![60, 40]);
    assert_eq!(waiting(&registry, 20), vec![100]);
    assert_eq!(waiting(&registry, 30), Vec::<i128>::new());
    assert_eq!(acceptor.buffer.len(), 1);
    let write = &acceptor.buffer[0];
    assert_eq!(write.response_tx, 77);
    assert_eq!(write.ending_balances.get(&(1, 840, BalanceType::Current)), Some(&100));
    assert_eq!(write.ending_balances.get(&(2, 840, BalanceType::Current)), Some(&100));
    assert_eq!(write.book_contributions.len(), 2);
    assert_eq!(write.book_contributions[0].book_id, 10);
    assert_eq!(write.book_contributions[0].entries.len(), 2);
    assert_eq!(write.book_contributions[0].entries[1].amount_value(), 40);
    assert_eq!(&write.book_contributions[0].entries[1].ledger_code, b"    CASH");
}

#[test]
fn the_header_is_stored_in_its_byte_order() {
    let mut registry = books(&[10]);
    let mut acceptor: Acceptor<u32> = Acceptor::new(10);
    let cmd = command(vec![posting(10, 1, false, &[1, 2, 3, 4, 5, 6, 7])], 1);
    acceptor.handle(&mut registry, cmd, 0x0102_0304_0506_0708);
    let stored = acceptor.buffer[0].header.encode();
    assert_eq!(stored.len(), 71);
    assert_eq!(&stored[0..2], &[0x51, 0x01]);
    assert_eq!(stored[2], 7);
    assert_eq!(&stored[3..11], &[0; 8]);
    assert_eq!(&stored[11..19], &[8, 7, 6, 5, 4, 3, 2, 1]);
    assert_eq!(
        &stored[19..35],
        &[1, 2, 3, 4, 5, 6, 7, 8, 9, 10, 11, 12, 13, 14, 15, 16]
    );
    assert_eq!(&stored[35..39], &[0; 4]);
    assert_eq!(&stored[39..71], &[0; 32]);
}

#[test]
fn the_header_tells_the_size_of_the_record() {
    let mut registry = books(&[10, 20]);
    let mut acceptor: Acceptor<u32> = Acceptor::new(10);
    let cmd = command(vec![posting(10, 1, false, &[1, 2]), posting(20, 2, false, &[3])], 1);
    acceptor.handle(&mut registry, cmd, 0);
    let write = &acceptor.buffer[0];
    let mut size = write.header.encode().len();
    let mut count: usize = 0;
    for contribution in &write.book_contributions {
        for entry in &contribution.entries {
            size += entry.encode().len();
            count += 1;
        }
    }
    assert_eq!(u16::from_le_bytes(write.header.record_length) as usize, size);
    assert_eq!(write.header.entry_count as usize, count);
}

#[test]
fn a_journal_entry_is_stored_in_its_byte_order() {
    let stored = JournalEntryBytes::unplaced(0x0102_0304_0506_0708, -2, *b"ABCDEFGH").encode();
    assert_eq!(stored.len(), 38);
    assert_eq!(&stored[0..8], &[8, 7, 6, 5, 4, 3, 2, 1]);
    assert_eq!(&stored[8..14], &[0; 6]);
    assert_eq!(stored[14], 0xfe);
    assert_eq!(&stored[15..30], &[0xff; 15]);
    assert_eq!(&stored[30..38], b"ABCDEFGH");
}

#[test]
fn amounts_survive_storage() {
    for amount in [0, 1, -1, 258, i128::MAX, i128::MIN] {
        let entry = JournalEntryBytes::unplaced(1, amount, *b"        ");
        assert_eq!(entry.amount_value(), amount);
        assert_eq!(entry.amount, amount.to_le_bytes());
    }
}

#[test]
fn a_blank_cover_is_all_zero() {
    let cover = JournalCoverBytes::blank();
    assert_eq!(cover.checkpoint_page, [0; 4]);
    assert_eq!(cover.checkpoint_line, [0; 2]);
    assert_eq!(cover.latest_page, [0; 4]);
    assert_eq!(cover.latest_line, [0; 2]);
    assert_eq!(cover.local_floor_page, [0; 4]);
    assert_eq!(cover.tip_operation_id, [0; 8]);
    assert_eq!(cover.tip_hash, [0; 32]);
}

#[test]
fn an_overdraft_is_rejected_and_leaves_no_trace() {
    let mut registry = books(&[10, 20]);
    let mut acceptor: Acceptor<u32> = Acceptor::new(10);
    let cmd = command(vec![posting(20, 2, false, &[1]), posting(10, 1, false, &[-1])], 9);
    match acceptor.handle(&mut registry, cmd, 0) {
        Some((9, OperationResult::Rejected(account))) => assert_eq!(account, 1),
        _ => panic!("not rejected"),
    }
    assert_eq!(acceptor.buffer.len(), 0);
    assert_eq!(waiting(&registry, 10), Vec::<i128>::new());
    assert_eq!(waiting(&registry, 20), Vec::<i128>::new());
}

#[test]
fn an_overdraft_may_be_allowed() {
    let mut registry = books(&[10]);
    let mut acceptor: Acceptor<u32> = Acceptor::new(10);
    let cmd = command(vec![posting(10, 1, true, &[-25])], 9);
    assert!(acceptor.handle(&mut registry, cmd, 0).is_none());
    assert_eq!(registry.map[&10].balance(), -25);
}

#[test]
fn a_balance_that_would_leave_the_range_overflows() {
    let mut registry = books(&[10]);
    registry.map.get_mut(&10).unwrap().running_balance = i128::MAX;
    let mut acceptor: Acceptor<u32> = Acceptor::new(10);
    let cmd = command(vec![posting(10, 1, true, &[1])], 3);
    assert!(can_judge(&registry, &cmd.prepared.per_book));
    match acceptor.handle(&mut registry, cmd, 0) {
        Some((3, OperationResult::Overflow(book))) => assert_eq!(book, 10),
        _ => panic!("not an overflow"),
    }
    assert_eq!(registry.map[&10].balance(), i128::MAX);
}

#[test]
fn amounts_that_wait_count_for_the_next_operation() {
    let mut registry = books(&[10]);
    let mut acceptor: Acceptor<u32> = Acceptor::new(10);
    assert!(acceptor.handle(&mut registry, command(vec![posting(10, 1, false, &[10])], 1), 0).is_none());
    assert!(acceptor.handle(&mut registry, command(vec![posting(10, 1, false, &[-10])], 2), 0).is_none());
    assert!(acceptor.handle(&mut registry, command(vec![posting(10, 1, false, &[-1])], 3), 0).is_some());
    assert_eq!(registry.map[&10].balance(), 0);
}

#[test]
fn books_that_are_missing_or_out_of_range_cannot_be_judged() {
    let mut registry = books(&[10]);
    assert!(!can_judge(&registry, &vec![posting(11, 1, false, &[1])]));
    registry.map.get_mut(&10).unwrap().running_balance = i128::MAX;
    registry.map.get_mut(&10).unwrap().stage(1);
    assert!(!can_judge(&registry, &vec![posting(10, 1, false, &[1])]));
}

#[test]
fn recording_a_batch_keeps_the_balances() {
    let mut registry = books(&[10, 20]);
    let mut acceptor: Acceptor<u32> = Acceptor::new(10);
    acceptor.handle(&mut registry, command(vec![posting(10, 1, false, &[60, 40])], 1), 0);
    acceptor.handle(
        &mut registry,
        command(vec![posting(10, 1, false, &[-30]), posting(20, 2, false, &[30])], 2),
        0,
    );
    let batch = std::mem::take(&mut acceptor.buffer);
    assert!(is_covered(&batch, &registry));
    let answers = ack_batch(batch, &mut registry);
    assert_eq!(answers.len(), 2);
    assert_eq!(answers[0].0, 1);
    assert_eq!(answers[1].0, 2);
    match &answers[1].1 {
        Ok(OperationResult::Accepted(balances)) => {
            assert_eq!(balances.get(&(1, 840, BalanceType::Current)), Some(&70));
            assert_eq!(balances.get(&(2, 840, BalanceType::Current)), Some(&30));
        }
        _ => panic!("not accepted"),
    }
    assert_eq!(waiting(&registry, 10), Vec::<i128>::new());
    assert_eq!(registry.map[&10].durable_pending_rollup.len(), 3);
    assert_eq!(registry.map[&10].balance(), 70);
    assert_eq!(registry.map[&20].balance(), 30);
}

#[test]
fn giving_a_batch_up_takes_it_back() {
    let mut registry = books(&[10]);
    let mut acceptor: Acceptor<u32> = Acceptor::new(10);
    acceptor.handle(&mut registry, command(vec![posting(10, 1, false, &[60, 40])], 1), 0);
    let first = std::mem::take(&mut acceptor.buffer);
    acceptor.handle(&mut registry, command(vec![posting(10, 1, false, &[5])], 2), 0);
    let second = std::mem::take(&mut acceptor.buffer);
    let answers = abort_batch(first, &mut registry, OperationError::AbortedFromFailedFlush);
    assert_eq!(answers.len(), 1);
    assert_eq!(answers[0].0, 1);
    assert!(matches!(answers[0].1, Err(OperationError::AbortedFromFailedFlush)));
    assert_eq!(waiting(&registry, 10), vec![5]);
    assert!(is_covered(&second, &registry));
    ack_batch(second, &mut registry);
    assert_eq!(registry.map[&10].balance(), 5);
}

#[test]
fn accepted_and_given_up_leaves_no_trace() {
    let mut registry = books(&[10]);
    registry.map.get_mut(&10).unwrap().running_balance = 12;
    let mut acceptor: Acceptor<u32> = Acceptor::new(10);
    acceptor.handle(&mut registry, command(vec![posting(10, 1, false, &[60, -40])], 1), 0);
    assert_eq!(registry.map[&10].balance(), 32);
    let batch = std::mem::take(&mut acceptor.buffer);
    abort_batch(batch, &mut registry, OperationError::AbortedFromFailedFlush);
    assert_eq!(registry.map[&10].balance(), 12);
    assert_eq!(registry.map[&10].pending_journal.len(), 0);
}

#[test]
fn a_batch_that_does_not_wait_is_not_covered() {
    let mut registry = books(&[10]);
    let mut acceptor: Acceptor<u32> = Acceptor::new(10);
    acceptor.handle(&mut registry, command(vec![posting(10, 1, false, &[1])], 1), 0);
    let batch = std::mem::take(&mut acceptor.buffer);
    registry.map.get_mut(&10).unwrap().release(1);
    assert!(!is_covered(&batch, &registry));
    registry.map.remove(&10);
    assert!(!is_covered(&batch, &registry));
}

#[test]
fn a_failed_flush_turns_everything_away() {
    let mut registry = books(&[10]);
    let mut acceptor: Acceptor<u32> = Acceptor::new(10);
    acceptor.handle(&mut registry, command(vec![posting(10, 1, false, &[4])], 1), 0);
    let failed = std::mem::take(&mut acceptor.buffer);
    let in_flight = vec![command(vec![posting(10, 1, false, &[6])], 2), command(vec![], 3)];
    let answers = fail_flush(in_flight, failed, &mut registry);
    let to: Vec<u32> = answers.iter().map(|answer| answer.0).collect();
    assert_eq!(to, vec![2, 3, 1]);
    for answer in &answers {
        assert!(matches!(answer.1, Err(OperationError::AbortedFromFailedFlush)));
    }
    assert_eq!(registry.map[&10].balance(), 0);
}

#[test]
fn a_full_buffer_goes_out_at_once() {
    let mut registry = books(&[10]);
    let mut acceptor: Acceptor<u32> = Acceptor::new(2);
    let room = acceptor.buffer.capacity();
    for sent in 1..=room {
        let cmd = command(vec![posting(10, 1, false, &[1])], sent as u32);
        let step = acceptor.step(&mut registry, Event::Received(cmd), 0);
        assert!(step.answer.is_none());
        assert!(!step.batch.stop);
        assert_eq!(step.batch.restart_timer, sent == 1);
        if sent == room {
            assert_eq!(step.batch.flush.unwrap().len(), room);
            assert_eq!(acceptor.buffer.len(), 0);
            assert!(acceptor.buffer.capacity() >= room);
        } else {
            assert!(step.batch.flush.is_none());
            assert!(acceptor.timer_armed());
        }
    }
    assert!(!acceptor.timer_armed());
}

#[test]
fn the_wait_and_an_interruption_send_the_batch_out() {
    let mut registry = books(&[10]);
    let mut acceptor: Acceptor<u32> = Acceptor::new(10);
    acceptor.step(
        &mut registry,
        Event::Received(command(vec![posting(10, 1, false, &[1])], 1)),
        0,
    );
    let step = acceptor.step(&mut registry, Event::FlushTimeout, 0);
    assert_eq!(step.batch.flush.unwrap().len(), 1);
    assert!(!step.batch.stop);
    assert!(!step.batch.restart_timer);
    let step = acceptor.step(&mut registry, Event::Interrupted, 0);
    assert!(step.batch.flush.is_none());
    assert!(step.batch.stop);
    acceptor.step(
        &mut registry,
        Event::Received(command(vec![posting(10, 1, false, &[1])], 2)),
        0,
    );
    let step = acceptor.step(&mut registry, Event::Interrupted, 0);
    assert_eq!(step.batch.flush.unwrap().len(), 1);
    assert!(step.batch.stop);
    acceptor.step(
        &mut registry,
        Event::Received(command(vec![posting(10, 1, false, &[1])], 3)),
        0,
    );
    let step = acceptor.step(&mut registry, Event::Exhausted, 0);
    assert!(step.batch.flush.is_none());
    assert!(step.batch.stop);
    assert_eq!(acceptor.buffer.len(), 1);
}

#[test]
fn a_refused_operation_does_not_restart_the_wait() {
    let mut registry = books(&[10]);
    let mut acceptor: Acceptor<u32> = Acceptor::new(10);
    let step = acceptor.step(
        &mut registry,
        Event::Received(command(vec![posting(10, 1, false, &[-1])], 1)),
        0,
    );
    assert!(step.answer.is_some());
    assert!(!step.batch.restart_timer);
    assert!(step.batch.flush.is_none());
}

#[test]
fn acceptor_errors_in_words() {
    assert_eq!(
        OperationError::AcceptorSystemFailure.message(),
        "acceptor is no longer running"
    );
    assert_eq!(
        OperationError::AbortedFromFailedFlush.message(),
        "operation aborted due to failed flush"
    );
    assert_eq!(OperationError::Recv.message(), "acceptor dropped response channel");
}

#[test]
fn the_first_book_that_refuses_is_named() {
    let mut registry = books(&[10, 20, 30]);
    registry.map.get_mut(&30).unwrap().running_balance = i128::MAX;
    let mut acceptor: Acceptor<u32> = Acceptor::new(10);
    let cmd = command(
        vec![
            posting(10, 1, true, &[-5]),
            posting(20, 2, false, &[-5]),
            posting(30, 3, false, &[10]),
        ],
        1,
    );
    match acceptor.handle(&mut registry, cmd, 0) {
        Some((1, OperationResult::Rejected(account))) => assert_eq!(account, 2),
        _ => panic!("not rejected"),
    }
    let cmd = command(vec![posting(30, 3, false, &[10]), posting(20, 2, false, &[-5])], 2);
    match acceptor.handle(&mut registry, cmd, 0) {
        Some((2, OperationResult::Overflow(book))) => assert_eq!(book, 30),
        _ => panic!("not an overflow"),
    }
}

#[test]
fn records_that_differ_are_stored_differently() {
    let entry = JournalEntryBytes::unplaced(1, 2, *b"       A");
    assert_ne!(entry.encode(), JournalEntryBytes::unplaced(2, 1, *b"       A").encode());
    assert_ne!(entry.encode(), JournalEntryBytes::unplaced(1, -2, *b"       A").encode());
    assert_ne!(entry.encode(), JournalEntryBytes::unplaced(1, 2, *b"A       ").encode());
    let mut registry = books(&[10]);
    let mut acceptor: Acceptor<u32> = Acceptor::new(10);
    acceptor.handle(&mut registry, command(vec![posting(10, 1, false, &[1])], 1), 3);
    acceptor.handle(&mut registry, command(vec![posting(10, 1, false, &[1])], 2), 4);
    assert_ne!(acceptor.buffer[0].header.encode(), acceptor.buffer[1].header.encode());
}

#[test]
fn a_balance_in_range_is_judged_whatever_it_goes_through() {
    let mut registry = books(&[1]);
    let state = registry.map.get_mut(&1).unwrap();
    state.running_balance = 10;
    state.stage(i128::MAX);
    state.stage(-100);
    let mut acceptor: Acceptor<u32> = Acceptor::new(10);
    let mut book = posting(1, 10, false, &[1]);
    book.currency = 123;
    book.balance_type = BalanceType::Available;
    let cmd = command(vec![book], 4);
    assert!(can_judge(&registry, &cmd.prepared.per_book));
    assert!(acceptor.handle(&mut registry, cmd, 0).is_none());
    assert_eq!(acceptor.buffer.len(), 1);
    let balances = &acceptor.buffer[0].ending_balances;
    assert_eq!(balances.entries.len(), 1);
    assert_eq!(balances.get(&(10, 123, BalanceType::Available)), Some(&(i128::MAX - 89)));
}

#[test]
fn giving_up_leaves_no_trace_while_other_books_wait() {
    let mut registry = books(&[10, 20]);
    let mut acceptor: Acceptor<u32> = Acceptor::new(10);
    acceptor.handle(&mut registry, command(vec![posting(20, 2, false, &[8])], 1), 0);
    acceptor.handle(&mut registry, command(vec![posting(10, 1, false, &[6, -2])], 2), 0);
    let last = acceptor.buffer.pop().unwrap();
    last.abort(&mut registry, OperationError::AbortedFromFailedFlush);
    assert_eq!(waiting(&registry, 10), Vec::<i128>::new());
    assert_eq!(waiting(&registry, 20), vec![8]);
}

#[test]
fn batches_and_buffer_are_the_accepted_operations_in_order() {
    let mut registry = books(&[10]);
    let mut acceptor: Acceptor<u32> = Acceptor::new(3);
    let room = acceptor.buffer.capacity();
    let mut sent: Vec<u32> = Vec::new();
    let mut accepted: Vec<u32> = Vec::new();
    for number in 0..20 {
        let refused = number % 4 == 3;
        let amount = if refused { -1000 } else { 1 };
        if !refused {
            accepted.push(number);
        }
        let cmd = command(vec![posting(10, 1, false, &[amount])], number);
        let step = acceptor.step(&mut registry, Event::Received(cmd), 0);
        assert_eq!(step.answer.is_some(), refused);
        if let Some(batch) = step.batch.flush {
            assert_eq!(batch.len(), room);
            sent.extend(batch.iter().map(|write| write.response_tx));
        }
        assert!(acceptor.buffer.len() < room);
        let mut all = sent.clone();
        all.extend(acceptor.buffer.iter().map(|write| write.response_tx));
        assert_eq!(all, accepted);
    }
}
