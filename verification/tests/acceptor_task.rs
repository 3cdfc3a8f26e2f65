use ledger::acceptor_task::{
    ack_batch, can_record, check_amounts_fit, Acceptor, AcceptorCommand, InvalidOperationError,
    OperationError, OperationResult, PreProcessedEntry, ValidOperation,
};
use ledger::accounts::{Account, AccountId, AccountType};
use ledger::batch::Event;
use ledger::books::{BalanceType, BookId};
use ledger::operation::{Operation, OperationEntry};
use ledger::vec_map::VecMap;
use std::collections::HashMap;

fn account(account_type: AccountType, books: &[(u16, BookId)]) -> Account {
    let mut map = VecMap::new();
    for (currency, book) in books {
        map.insert((*currency, BalanceType::Current), *book);
    }
    Account { account_type, allow_overdraft: false, books: map }
}

fn scope() -> HashMap<AccountId, Account> {
    let mut map = HashMap::new();
    map.insert(1, account(AccountType::Credit, &[(840, 10), (978, 11)]));
    map.insert(2, account(AccountType::Debit, &[(840, 20)]));
    map
}

fn entry(account: u64, op_type: AccountType, amount: i128, currency: u16) -> OperationEntry {
    OperationEntry {
        account,
        balance_type: BalanceType::Current,
        op_type,
        amount,
        currency,
        ledger_code: String::from("FEE"),
    }
}

fn parse(entries: Vec<OperationEntry>) -> Result<ValidOperation, InvalidOperationError> {
    let op = Operation { idempotency_key: 3, entries };
    assert!(check_amounts_fit(&op, &scope()));
    ValidOperation::parse(op, scope())
}

fn booked(account: u64, amount: i128, currency: u16) -> PreProcessedEntry {
    PreProcessedEntry {
        target_account_id: account,
        target_book_id: 4,
        amount,
        ledger_code: *b"     FEE",
        currency,
        balance_type: BalanceType::Current,
    }
}

fn command(entries: Vec<PreProcessedEntry>, response_tx: u32) -> AcceptorCommand<u32> {
    AcceptorCommand {
        operations: ValidOperation { idempotency_key: 0x1122, entries },
        response_tx,
    }
}

#[test]
fn entries_keep_their_order_and_their_book() {
    let valid = parse(vec![
        entry(1, AccountType::Credit, 8, 840),
        entry(2, AccountType::Credit, 8, 840),
    ])
    .unwrap();
    assert_eq!(valid.idempotency_key, 3);
    assert_eq!(valid.entries.len(), 2);
    assert_eq!(valid.entries[0].target_account_id, 1);
    assert_eq!(valid.entries[0].target_book_id, 10);
    assert_eq!(valid.entries[0].amount, 8);
    assert_eq!(&valid.entries[0].ledger_code, b"     FEE");
    assert_eq!(valid.entries[1].target_book_id, 20);
    assert_eq!(valid.entries[1].amount, -8);
}

#[test]
fn booked_amounts_must_come_to_zero() {
    assert_eq!(
        parse(vec![
            entry(1, AccountType::Credit, 8, 840),
            entry(2, AccountType::Debit, 8, 840),
        ])
        .unwrap_err(),
        InvalidOperationError::NonZeroSumEntries
    );
    let valid = parse(vec![
        entry(1, AccountType::Credit, 8, 840),
        entry(1, AccountType::Debit, 3, 840),
        entry(2, AccountType::Credit, 5, 840),
    ])
    .unwrap();
    assert_eq!(valid.entries.iter().map(|e| e.amount).sum::<i128>(), 0);
}

#[test]
fn there_is_no_limit_on_the_number_of_entries() {
    let mut entries = Vec::new();
    for _ in 0..60 {
        entries.push(entry(1, AccountType::Credit, 1, 840));
        entries.push(entry(1, AccountType::Debit, 1, 840));
    }
    assert_eq!(parse(entries).unwrap().entries.len(), 120);
}

#[test]
fn each_fault_has_its_error() {
    let error = |faulty: OperationEntry| parse(vec![faulty]).unwrap_err();
    assert_eq!(
        error(entry(7, AccountType::Credit, 0, 840)),
        InvalidOperationError::AccountNotFound
    );
    assert_eq!(
        error(entry(2, AccountType::Credit, 0, 978)),
        InvalidOperationError::BookNotFound
    );
    assert_eq!(
        error(entry(2, AccountType::Credit, 0, 840)),
        InvalidOperationError::ZeroAmountEntry
    );
    let mut coded = entry(2, AccountType::Credit, 1, 840);
    coded.ledger_code = String::from("123456789");
    assert_eq!(error(coded), InvalidOperationError::LedgerCodeInvalid);
}

#[test]
fn booked_amounts_that_leave_the_range_do_not_fit() {
    let fits = |entries: Vec<OperationEntry>| {
        check_amounts_fit(&Operation { idempotency_key: 1, entries }, &scope())
    };
    assert!(!fits(vec![entry(2, AccountType::Credit, i128::MIN, 840)]));
    assert!(fits(vec![entry(2, AccountType::Debit, i128::MIN, 840)]));
    assert!(!fits(vec![
        entry(1, AccountType::Credit, i128::MAX, 840),
        entry(1, AccountType::Credit, 1, 840),
    ]));
    assert!(fits(vec![
        entry(1, AccountType::Credit, i128::MAX, 840),
        entry(7, AccountType::Credit, 1, 840),
        entry(1, AccountType::Credit, 1, 840),
    ]));
}

#[test]
fn a_taken_operation_is_laid_out_for_the_journal() {
    let mut acceptor: Acceptor<u32> = Acceptor::new(10);
    let cmd = command(vec![booked(1, 8, 840), booked(2, -5, 840), booked(1, -3, 978)], 6);
    assert!(can_record(&acceptor.balances, &cmd.operations.entries));
    acceptor.handle(cmd, 0x0102_0304_0506_0708_090a_0b0c_0d0e_0f10);
    assert_eq!(acceptor.buffer.len(), 1);
    let write = &acceptor.buffer[0];
    assert_eq!(write.response_tx, 6);
    assert_eq!(write.ending_balances.len(), 2);
    assert_eq!(write.ending_balances[&1], (840, BalanceType::Current, 8));
    assert_eq!(write.ending_balances[&2], (840, BalanceType::Current, -5));
    assert_eq!(write.earlier_balances.entries.len(), 3);
    assert_eq!(write.earlier_balances.get(&(1, 978, BalanceType::Current)), Some(&0));
    assert_eq!(acceptor.balances.get(&(1, 840, BalanceType::Current)), Some(&8));
    assert_eq!(acceptor.balances.get(&(1, 978, BalanceType::Current)), Some(&-3));
    assert_eq!(write.entries.len(), 3);
    assert_eq!(write.entries[1].amount_value(), -5);
    assert_eq!(write.entries[1].target_book_id, [0; 8]);
    let stored = write.header.encode();
    assert_eq!(stored.len(), 80);
    assert_eq!(&stored[0..2], &194u16.to_le_bytes());
    assert_eq!(stored[2], 3);
    assert_eq!(&stored[3..11], &[0; 8]);
    assert_eq!(
        &stored[11..27],
        &[16, 15, 14, 13, 12, 11, 10, 9, 8, 7, 6, 5, 4, 3, 2, 1]
    );
    assert_eq!(&stored[27..41], &[0; 14]);
    assert_eq!(&stored[41..43], &[0x11, 0x22]);
    assert_eq!(&stored[43..80], &[0; 37]);
}

#[test]
fn the_header_counts_at_most_what_it_can_hold() {
    let mut acceptor: Acceptor<u32> = Acceptor::new(10);
    let mut entries = Vec::new();
    for _ in 0..255 {
        entries.push(booked(1, 0, 840));
    }
    assert!(can_record(&acceptor.balances, &entries));
    let mut more = entries.clone();
    more.push(booked(1, 0, 840));
    assert!(!can_record(&acceptor.balances, &more));
    acceptor.handle(command(entries, 1), 0);
    let header = acceptor.buffer[0].header;
    assert_eq!(header.entry_count, 255);
    assert_eq!(u16::from_le_bytes(header.record_length), 9770);
}

#[test]
fn balances_that_leave_the_range_cannot_be_recorded() {
    let mut acceptor: Acceptor<u32> = Acceptor::new(10);
    let none = VecMap::new();
    assert!(!can_record(&none, &vec![booked(1, i128::MAX, 840), booked(1, 1, 840)]));
    assert!(can_record(&none, &vec![booked(1, i128::MAX, 840), booked(1, 1, 978)]));
    assert!(can_record(&none, &vec![booked(1, i128::MAX, 840), booked(2, 1, 978)]));
    assert!(can_record(
        &none,
        &vec![booked(1, i128::MAX, 840), booked(1, 1, 840), booked(1, -1, 840)]
    ));
    acceptor.handle(command(vec![booked(1, i128::MAX, 840)], 1), 0);
    assert!(!can_record(&acceptor.balances, &vec![booked(1, 1, 840)]));
    assert!(can_record(&acceptor.balances, &vec![booked(1, -1, 840)]));
    assert!(can_record(&acceptor.balances, &vec![booked(2, 1, 840)]));
}

#[test]
fn the_second_operation_builds_on_the_first() {
    let mut acceptor: Acceptor<u32> = Acceptor::new(10);
    acceptor.handle(command(vec![booked(1, 5, 840), booked(3, 1, 840)], 1), 0);
    let first = std::mem::take(&mut acceptor.buffer);
    assert_eq!(first[0].ending_balances[&1], (840, BalanceType::Current, 5));
    acceptor.handle(command(vec![booked(1, 7, 840), booked(2, -7, 840)], 2), 0);
    let second = &acceptor.buffer[0];
    assert_eq!(second.ending_balances.len(), 2);
    assert_eq!(second.ending_balances[&1], (840, BalanceType::Current, 12));
    assert_eq!(second.ending_balances[&2], (840, BalanceType::Current, -7));
    assert_eq!(second.earlier_balances.get(&(1, 840, BalanceType::Current)), Some(&5));
    assert_eq!(second.earlier_balances.get(&(2, 840, BalanceType::Current)), Some(&0));
    assert_eq!(second.earlier_balances.get(&(3, 840, BalanceType::Current)), None);
    assert_eq!(acceptor.balances.entries.len(), 3);
    assert_eq!(acceptor.balances.get(&(1, 840, BalanceType::Current)), Some(&12));
    assert_eq!(acceptor.balances.get(&(3, 840, BalanceType::Current)), Some(&1));
}

#[test]
fn a_balance_counts_its_own_currency_and_type_only() {
    let mut acceptor: Acceptor<u32> = Acceptor::new(10);
    acceptor.handle(command(vec![booked(1, 100, 123)], 1), 0);
    acceptor.handle(command(vec![booked(1, 50, 124)], 2), 0);
    assert_eq!(acceptor.buffer[1].ending_balances[&1], (124, BalanceType::Current, 50));
    let mut held = booked(1, 7, 123);
    held.balance_type = BalanceType::Hold;
    acceptor.handle(command(vec![held], 3), 0);
    assert_eq!(acceptor.buffer[2].ending_balances[&1], (123, BalanceType::Hold, 7));
    acceptor.handle(command(vec![booked(1, 1, 123), booked(1, 2, 124)], 4), 0);
    assert_eq!(acceptor.buffer[3].ending_balances.len(), 1);
    assert_eq!(acceptor.buffer[3].ending_balances[&1], (123, BalanceType::Current, 101));
    assert_eq!(acceptor.balances.get(&(1, 124, BalanceType::Current)), Some(&52));
    assert_eq!(acceptor.balances.get(&(1, 123, BalanceType::Hold)), Some(&7));
}

#[test]
fn recorded_operations_are_answered_with_their_balances() {
    let mut acceptor: Acceptor<u32> = Acceptor::new(10);
    acceptor.handle(command(vec![booked(1, 8, 840)], 1), 0);
    acceptor.handle(command(vec![booked(2, 9, 840)], 2), 0);
    let answers = ack_batch(std::mem::take(&mut acceptor.buffer));
    assert_eq!(answers.len(), 2);
    assert_eq!(answers[1].0, 2);
    match &answers[1].1 {
        Ok(OperationResult::Accepted(balances)) => {
            assert_eq!(balances[&2], (840, BalanceType::Current, 9))
        }
        _ => panic!("not accepted"),
    }
}

#[test]
fn a_lost_writer_turns_away_what_is_not_handed_over() {
    let mut acceptor: Acceptor<u32> = Acceptor::new(10);
    acceptor.handle(command(vec![booked(1, 100, 840)], 9), 0);
    let handed_over = std::mem::take(&mut acceptor.buffer);
    acceptor.handle(command(vec![booked(1, 5, 978), booked(2, 6, 978)], 3), 0);
    acceptor.handle(command(vec![booked(2, 1, 978)], 4), 0);
    let failed = std::mem::take(&mut acceptor.buffer);
    acceptor.handle(command(vec![booked(1, 7, 978), booked(3, 8, 978)], 1), 0);
    let answers = acceptor.fail_flush(vec![command(vec![], 2)], failed);
    let to: Vec<u32> = answers.iter().map(|answer| answer.0).collect();
    assert_eq!(to, vec![2, 1]);
    for answer in &answers {
        assert!(matches!(answer.1, Err(OperationError::WriterSystemFailure)));
    }
    assert_eq!(acceptor.buffer.len(), 0);
    assert_eq!(handed_over.len(), 1);
    assert_eq!(acceptor.balances.get(&(1, 840, BalanceType::Current)), Some(&100));
    for (account, currency) in [(1, 978), (2, 978), (3, 978)] {
        assert_eq!(
            acceptor.balances.get(&(account, currency, BalanceType::Current)),
            Some(&0)
        );
    }
}

#[test]
fn events_send_the_gathered_operations_out() {
    let mut acceptor: Acceptor<u32> = Acceptor::new(10);
    assert!(!acceptor.timer_armed());
    let step = acceptor.step(Event::Received(command(vec![], 1)), 0);
    assert!(step.restart_timer);
    assert!(step.flush.is_none());
    assert!(acceptor.timer_armed());
    let step = acceptor.step(Event::Received(command(vec![], 2)), 0);
    assert!(!step.restart_timer);
    let step = acceptor.step(Event::FlushTimeout, 0);
    assert_eq!(step.flush.unwrap().len(), 2);
    assert!(!step.stop);
    let step = acceptor.step(Event::Interrupted, 0);
    assert!(step.flush.is_none());
    assert!(step.stop);
    assert!(acceptor.step(Event::Exhausted, 0).stop);
}

#[test]
fn errors_of_the_plain_acceptor_in_words() {
    assert_eq!(
        InvalidOperationError::AccountNotFound.message(),
        "Invalid operation structure"
    );
    assert_eq!(
        OperationError::AcceptorSystemFailure.message(),
        "acceptor is no longer running"
    );
    assert_eq!(OperationError::WriterSystemFailure.message(), "writer is no longer running");
}
