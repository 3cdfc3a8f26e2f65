use ledger::acceptor::{
    can_judge, Acceptor, AcceptorCommand, OperationError, OperationResult,
};
use ledger::accounts::{AccountRegistry, AccountType};
use ledger::api::{
    account_ids, book_owners, books_in_scope, prepare, respond, validate, ApiError, PendingRequest,
};
use ledger::books::{BalanceType, BookRegistry};
use ledger::journal::ack_batch;
use ledger::operation::{list_keys, InvalidOperationError, Operation, OperationEntry};
use ledger::text::decimal;
use ledger::vec_map::VecMap;
use std::collections::HashMap;

fn entry(account: u64, balance_type: BalanceType, op_type: AccountType, amount: i128) -> OperationEntry {
    OperationEntry {
        account,
        balance_type,
        op_type,
        amount,
        currency: 123,
        ledger_code: String::from("MOVE"),
    }
}

fn transfer(from: u64, to: u64, amount: i128) -> Operation {
    Operation {
        idempotency_key: 1,
        entries: vec![
            entry(from, BalanceType::Current, AccountType::Debit, amount),
            entry(to, BalanceType::Current, AccountType::Credit, amount),
        ],
    }
}

fn text(error: &ApiError) -> String {
    match error {
        ApiError::BadRequest(text) => text.clone(),
        ApiError::NotFound(text) => text.clone(),
        ApiError::Unprocessable(text) => text.clone(),
        ApiError::SystemError(text) => text.clone(),
    }
}

#[test]
fn decimals_have_no_leading_zeros() {
    assert_eq!(decimal(0), "0");
    assert_eq!(decimal(9), "9");
    assert_eq!(decimal(10), "10");
    assert_eq!(decimal(1023), "1023");
    assert_eq!(decimal(u64::MAX), "18446744073709551615");
}

#[test]
fn accounts_are_named_in_order() {
    assert_eq!(account_ids(&transfer(5, 2, 1)), vec![5, 2]);
    assert_eq!(account_ids(&transfer(5, 5, 1)), vec![5, 5]);
}

#[test]
fn invalid_requests_are_bad_requests() {
    let error = ApiError::from(InvalidOperationError::TooManyEntries);
    assert_eq!(error.status(), 400);
    assert_eq!(text(&error), "request validation failed");
    let mut accounts = AccountRegistry::new();
    let loaded = accounts.get_accounts(&vec![5, 2]);
    let error = validate(transfer(5, 2, 0), &loaded).unwrap_err();
    assert_eq!(error.status(), 400);
    assert_eq!(text(&error), "request validation failed");
}

#[test]
fn statuses() {
    assert_eq!(ApiError::BadRequest(String::new()).status(), 400);
    assert_eq!(ApiError::NotFound(String::new()).status(), 404);
    assert_eq!(ApiError::Unprocessable(String::new()).status(), 422);
    assert_eq!(ApiError::SystemError(String::new()).status(), 500);
}

#[test]
fn a_request_goes_through() {
    let mut accounts = AccountRegistry::new();
    let mut books = BookRegistry::new();
    let mut acceptor: Acceptor<()> = Acceptor::new(4);
    let op = transfer(5, 2, 30);
    let loaded = accounts.get_accounts(&account_ids(&op));
    let valid = validate(op, &loaded).unwrap();
    let owners = book_owners(&valid);
    assert_eq!(owners.len(), 2);
    assert_eq!(owners[&14], 5);
    assert_eq!(owners[&5], 2);
    let listed = books.get_books(&list_keys(&owners));
    assert_eq!(listed.len(), 2);
    let scope = books_in_scope(&listed, &owners, &loaded);
    assert_eq!(scope[&14].account_id, 5);
    assert!(!scope[&14].allow_overdraft);
    books.map.get_mut(&14).unwrap().running_balance = 100;
    let prepared = prepare(valid, &scope).unwrap();
    assert!(can_judge(&books, &prepared.per_book));
    let answer = acceptor.handle(&mut books, AcceptorCommand { prepared, response_tx: () }, 1);
    assert!(answer.is_none());
    assert_eq!(books.map[&14].balance(), 70);
    assert_eq!(books.map[&5].balance(), 30);
    let mut answers = ack_batch(std::mem::take(&mut acceptor.buffer), &mut books);
    assert_eq!(answers.len(), 1);
    let result = respond(answers.remove(0).1).unwrap();
    assert_eq!(result.resulting_balances.len(), 2);
    assert_eq!(result.resulting_balances[&5].len(), 1);
    assert_eq!(result.resulting_balances[&5][0].balance, 70);
    assert_eq!(result.resulting_balances[&5][0].currency, 123);
    assert_eq!(result.resulting_balances[&5][0].balance_type, BalanceType::Current);
    assert_eq!(result.resulting_balances[&2][0].balance, 30);
    assert_eq!(books.map[&14].balance(), 70);
}

#[test]
fn a_request_is_taken_up_and_laid_out() {
    let mut accounts = AccountRegistry::new();
    let mut books = BookRegistry::new();
    let op = transfer(5, 2, 30);
    let loaded = accounts.get_accounts(&account_ids(&op));
    let pending = PendingRequest::begin(op, loaded).unwrap().unwrap();
    let mut ids = pending.book_ids();
    ids.sort();
    assert_eq!(ids, vec![5, 14]);
    let listed = books.get_books(&ids);
    let prepared = pending.finish(&listed).unwrap().unwrap();
    assert_eq!(prepared.total_entry_count, 2);
    assert_eq!(prepared.record_length, 147);
    for book in &prepared.per_book {
        match book.book_id {
            14 => {
                assert_eq!(book.account_id, 5);
                assert_eq!(book.net_delta, -30);
            }
            _ => {
                assert_eq!(book.book_id, 5);
                assert_eq!(book.account_id, 2);
                assert_eq!(book.net_delta, 30);
            }
        }
    }
}

#[test]
fn a_request_that_is_not_valid_is_not_taken_up() {
    let mut accounts = AccountRegistry::new();
    let loaded = accounts.get_accounts(&vec![5]);
    let error = PendingRequest::begin(transfer(5, 2, 30), loaded).unwrap().unwrap_err();
    assert_eq!(error.status(), 400);
}

#[test]
fn a_request_out_of_range_comes_to_nothing() {
    let mut accounts = AccountRegistry::new();
    let loaded = accounts.get_accounts(&vec![5, 2]);
    assert!(PendingRequest::begin(transfer(5, 2, i128::MIN), loaded).is_none());
    let mut op = transfer(5, 2, i128::MAX);
    op.entries.push(entry(5, BalanceType::Current, AccountType::Debit, 2));
    op.entries.push(entry(2, BalanceType::Current, AccountType::Credit, 2));
    let loaded = accounts.get_accounts(&vec![5, 2]);
    let pending = PendingRequest::begin(op, loaded).unwrap().unwrap();
    assert!(pending.finish(&vec![5, 14]).is_none());
}

#[test]
fn a_request_on_a_book_that_was_not_loaded_is_unprocessable() {
    let mut accounts = AccountRegistry::new();
    let loaded = accounts.get_accounts(&vec![5, 2]);
    let pending = PendingRequest::begin(transfer(5, 2, 1), loaded).unwrap().unwrap();
    let error = pending.finish(&vec![14]).unwrap().unwrap_err();
    assert_eq!(error.status(), 422);
    assert_eq!(text(&error), "Book 5 not found");
}

#[test]
fn a_missing_book_is_unprocessable() {
    let mut accounts = AccountRegistry::new();
    let op = transfer(5, 2, 30);
    let loaded = accounts.get_accounts(&account_ids(&op));
    let valid = validate(op, &loaded).unwrap();
    let owners = book_owners(&valid);
    let scope = books_in_scope(&vec![5], &owners, &loaded);
    let error = prepare(valid, &scope).unwrap_err();
    assert_eq!(error.status(), 422);
    assert_eq!(text(&error), "Book 14 not found");
}

#[test]
fn refusals_are_unprocessable() {
    let error = respond(Ok(OperationResult::Rejected(42))).unwrap_err();
    assert_eq!(error.status(), 422);
    assert_eq!(text(&error), "Account 42 does not have enough balance");
    let error = respond(Ok(OperationResult::Overflow(7))).unwrap_err();
    assert_eq!(error.status(), 422);
    assert_eq!(text(&error), "Book 7 balance would exceed representable range");
}

#[test]
fn failures_are_system_errors() {
    let said = |error: OperationError| {
        let error = respond(Err(error)).unwrap_err();
        assert_eq!(error.status(), 500);
        text(&error)
    };
    assert_eq!(
        said(OperationError::AcceptorSystemFailure),
        "system error: AcceptorSystemFailure"
    );
    assert_eq!(
        said(OperationError::AbortedFromFailedFlush),
        "system error: AbortedFromFailedFlush"
    );
    assert_eq!(said(OperationError::Recv), "system error: Recv(RecvError(()))");
}

#[test]
fn balances_are_reported_by_account() {
    let mut balances = VecMap::new();
    balances.insert((1, 840, BalanceType::Current), 5);
    balances.insert((2, 840, BalanceType::Current), -6);
    balances.insert((1, 978, BalanceType::Hold), 7);
    let result = respond(Ok(OperationResult::Accepted(balances))).unwrap();
    let by_account: HashMap<u64, usize> =
        result.resulting_balances.iter().map(|(id, list)| (*id, list.len())).collect();
    assert_eq!(by_account.len(), 2);
    assert_eq!(by_account[&1], 2);
    assert_eq!(by_account[&2], 1);
    assert_eq!(result.resulting_balances[&1][0].balance, 5);
    assert_eq!(result.resulting_balances[&1][1].balance, 7);
    assert_eq!(result.resulting_balances[&1][1].currency, 978);
    assert_eq!(result.resulting_balances[&1][1].balance_type, BalanceType::Hold);
    assert_eq!(result.resulting_balances[&2][0].balance, -6);
}

#[test]
fn a_map_keeps_one_value_for_each_key() {
    let mut map = VecMap::new();
    map.insert((840, BalanceType::Current), 1);
    map.insert((840, BalanceType::Hold), 2);
    map.insert((840, BalanceType::Current), 3);
    assert_eq!(map.entries.len(), 2);
    assert_eq!(map.get(&(840, BalanceType::Current)), Some(&3));
    assert_eq!(map.get(&(840, BalanceType::Hold)), Some(&2));
    assert_eq!(map.get(&(840, BalanceType::Available)), None);
}
