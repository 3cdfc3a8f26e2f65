use ledger::accounts::{AccountRegistryMap, AccountState, AccountType};
use ledger::books::{BalanceType, BookId, InScopeBook};
use ledger::operation::{
    check_amounts_fit, store_ledger_code, InvalidOperationError, Operation, OperationEntry,
    ValidOperation,
};
use ledger::vec_map::VecMap;
use std::collections::HashMap;
use std::sync::Arc;

fn account(account_type: AccountType, books: &[(u16, BalanceType, BookId)]) -> Arc<AccountState> {
    let mut map = VecMap::new();
    for (currency, balance_type, book) in books {
        map.insert((*currency, *balance_type), *book);
    }
    Arc::new(AccountState { account_type, allow_overdraft: false, books: map })
}

fn accounts() -> AccountRegistryMap {
    let mut map: AccountRegistryMap = HashMap::new();
    map.insert(
        1,
        account(
            AccountType::Credit,
            &[(840, BalanceType::Current, 10), (978, BalanceType::Current, 11)],
        ),
    );
    map.insert(
        2,
        account(
            AccountType::Debit,
            &[(840, BalanceType::Current, 20), (978, BalanceType::Current, 21)],
        ),
    );
    map
}

fn entry(account: u64, op_type: AccountType, amount: i128, currency: u16) -> OperationEntry {
    OperationEntry {
        account,
        balance_type: BalanceType::Current,
        op_type,
        amount,
        currency,
        ledger_code: String::from("CASH"),
    }
}

fn parse(entries: Vec<OperationEntry>) -> Result<ValidOperation, InvalidOperationError> {
    let op = Operation { idempotency_key: 7, entries };
    let accounts = accounts();
    assert!(check_amounts_fit(&op, &accounts));
    ValidOperation::parse(op, &accounts)
}

fn scope(books: &[(BookId, u64, bool)]) -> HashMap<BookId, InScopeBook> {
    let mut map = HashMap::new();
    for (book, account_id, allow_overdraft) in books {
        map.insert(
            *book,
            InScopeBook { account_id: *account_id, allow_overdraft: *allow_overdraft },
        );
    }
    map
}

#[test]
fn entries_are_grouped_by_book_and_signed_by_nature() {
    let valid = parse(vec![
        entry(1, AccountType::Credit, 100, 840),
        entry(2, AccountType::Debit, 70, 840),
        entry(2, AccountType::Debit, 30, 840),
    ])
    .unwrap();
    assert_eq!(valid.idempotency_key, 7);
    assert_eq!(valid.entries_by_book.len(), 2);
    let on_credit = &valid.entries_by_book[&10];
    assert_eq!(on_credit.len(), 1);
    assert_eq!(on_credit[0].amount, 100);
    assert_eq!(on_credit[0].target_account_id, 1);
    let on_debit = &valid.entries_by_book[&20];
    assert_eq!(on_debit.len(), 2);
    assert_eq!(on_debit[0].amount, 70);
    assert_eq!(on_debit[1].amount, 30);
    assert_eq!(on_debit[0].currency, 840);
    assert_eq!(on_debit[0].balance_type, BalanceType::Current);
}

#[test]
fn an_entry_against_the_nature_is_stored_negative() {
    let valid = parse(vec![
        entry(1, AccountType::Debit, 5, 978),
        entry(2, AccountType::Credit, 5, 978),
    ])
    .unwrap();
    assert_eq!(valid.entries_by_book[&11][0].amount, -5);
    assert_eq!(valid.entries_by_book[&21][0].amount, -5);
}

#[test]
fn ledger_codes_are_padded_on_the_left() {
    let valid = parse(vec![
        entry(1, AccountType::Credit, 1, 840),
        entry(2, AccountType::Debit, 1, 840),
    ])
    .unwrap();
    assert_eq!(&valid.entries_by_book[&10][0].ledger_code, b"    CASH");
    assert_eq!(store_ledger_code(&String::from("")), Some(*b"        "));
    assert_eq!(store_ledger_code(&String::from("ABCDEFGH")), Some(*b"ABCDEFGH"));
    assert_eq!(store_ledger_code(&String::from("ABCDEFGHI")), None);
    assert_eq!(store_ledger_code(&String::from("caf\u{e9}")), None);
}

#[test]
fn too_many_entries_are_refused() {
    let mut entries = Vec::new();
    for _ in 0..101 {
        entries.push(entry(9, AccountType::Credit, 0, 1));
    }
    assert_eq!(parse(entries).unwrap_err(), InvalidOperationError::TooManyEntries);
}

#[test]
fn a_hundred_entries_are_accepted() {
    let mut entries = Vec::new();
    for _ in 0..50 {
        entries.push(entry(1, AccountType::Credit, 2, 840));
        entries.push(entry(2, AccountType::Debit, 2, 840));
    }
    let valid = parse(entries).unwrap();
    let scope = scope(&[(10, 1, false), (20, 2, false)]);
    assert!(valid.check_deltas_fit(&scope));
    let prepared = valid.into_prepared(&scope).unwrap();
    assert_eq!(prepared.total_entry_count, 100);
    assert_eq!(prepared.record_length, 3871);
}

#[test]
fn an_unknown_account_is_refused() {
    assert_eq!(
        parse(vec![entry(3, AccountType::Credit, 1, 840)]).unwrap_err(),
        InvalidOperationError::AccountNotFound
    );
}

#[test]
fn an_unknown_book_is_refused() {
    assert_eq!(
        parse(vec![entry(1, AccountType::Credit, 0, 826)]).unwrap_err(),
        InvalidOperationError::BookNotFound
    );
}

#[test]
fn a_zero_amount_is_refused() {
    let mut zero = entry(1, AccountType::Credit, 0, 840);
    zero.ledger_code = String::from("much too long");
    assert_eq!(parse(vec![zero]).unwrap_err(), InvalidOperationError::ZeroAmountEntry);
}

#[test]
fn a_ledger_code_that_cannot_be_stored_is_refused() {
    let mut long = entry(1, AccountType::Credit, 1, 840);
    long.ledger_code = String::from("TOO-LONG-CODE");
    assert_eq!(parse(vec![long]).unwrap_err(), InvalidOperationError::LedgerCodeInvalid);
}

#[test]
fn the_first_entry_at_fault_decides() {
    let entries = vec![
        entry(1, AccountType::Credit, 1, 840),
        entry(1, AccountType::Credit, 0, 840),
        entry(3, AccountType::Credit, 1, 840),
    ];
    assert_eq!(parse(entries).unwrap_err(), InvalidOperationError::ZeroAmountEntry);
}

#[test]
fn every_currency_must_balance() {
    assert_eq!(
        parse(vec![
            entry(1, AccountType::Credit, 100, 840),
            entry(2, AccountType::Debit, 100, 978),
        ])
        .unwrap_err(),
        InvalidOperationError::NonZeroSumEntries
    );
    assert!(parse(vec![
        entry(1, AccountType::Credit, 100, 840),
        entry(2, AccountType::Debit, 100, 840),
        entry(2, AccountType::Credit, 9, 978),
        entry(1, AccountType::Debit, 9, 978),
    ])
    .is_ok());
}

#[test]
fn sides_balance_whatever_the_natures() {
    let valid = parse(vec![
        entry(1, AccountType::Credit, 40, 840),
        entry(1, AccountType::Debit, 15, 840),
        entry(2, AccountType::Debit, 25, 840),
    ])
    .unwrap();
    let credit_nature: i128 = valid.entries_by_book[&10].iter().map(|e| e.amount).sum();
    let debit_nature: i128 = valid.entries_by_book[&20].iter().map(|e| e.amount).sum();
    assert_eq!(credit_nature, 25);
    assert_eq!(debit_nature, 25);
}

#[test]
fn an_empty_request_is_valid() {
    let valid = parse(vec![]).unwrap();
    assert_eq!(valid.entries_by_book.len(), 0);
    let prepared = valid.into_prepared(&scope(&[])).unwrap();
    assert_eq!(prepared.total_entry_count, 0);
    assert_eq!(prepared.record_length, 71);
    assert_eq!(prepared.per_book.len(), 0);
}

#[test]
fn amounts_that_cannot_be_negated_or_summed_do_not_fit() {
    let fits = |entries: Vec<OperationEntry>| {
        check_amounts_fit(&Operation { idempotency_key: 1, entries }, &accounts())
    };
    assert!(!fits(vec![entry(2, AccountType::Debit, i128::MIN, 840)]));
    assert!(!fits(vec![entry(2, AccountType::Credit, i128::MIN, 840)]));
    assert!(fits(vec![entry(1, AccountType::Credit, i128::MIN, 840)]));
    assert!(!fits(vec![
        entry(1, AccountType::Credit, i128::MAX, 840),
        entry(1, AccountType::Credit, 1, 840),
    ]));
    assert!(fits(vec![
        entry(1, AccountType::Credit, i128::MAX, 840),
        entry(1, AccountType::Credit, 1, 978),
    ]));
    assert!(fits(vec![
        entry(9, AccountType::Credit, 1, 840),
        entry(2, AccountType::Debit, i128::MIN, 840),
    ]));
}

#[test]
fn preparing_lays_the_operation_out_by_book() {
    let valid = parse(vec![
        entry(1, AccountType::Credit, 100, 840),
        entry(2, AccountType::Debit, 70, 840),
        entry(2, AccountType::Debit, 30, 840),
    ])
    .unwrap();
    let prepared = valid.into_prepared(&scope(&[(10, 1, true), (20, 2, false)])).unwrap();
    assert_eq!(prepared.idempotency_key, 7);
    assert_eq!(prepared.total_entry_count, 3);
    assert_eq!(prepared.record_length, 185);
    assert_eq!(prepared.per_book.len(), 2);
    for book in &prepared.per_book {
        assert_eq!(book.currency, 840);
        assert_eq!(book.balance_type, BalanceType::Current);
        assert_eq!(book.net_delta, 100);
        if book.book_id == 10 {
            assert_eq!(book.account_id, 1);
            assert!(book.allow_overdraft);
            assert_eq!(book.entries.len(), 1);
        } else {
            assert_eq!(book.book_id, 20);
            assert_eq!(book.account_id, 2);
            assert!(!book.allow_overdraft);
            assert_eq!(book.entries.len(), 2);
        }
    }
}

#[test]
fn preparing_names_a_book_that_is_not_in_scope() {
    let valid = parse(vec![
        entry(1, AccountType::Credit, 100, 840),
        entry(2, AccountType::Debit, 100, 840),
    ])
    .unwrap();
    assert_eq!(valid.into_prepared(&scope(&[(10, 1, true)])).unwrap_err(), 20);
}

#[test]
fn deltas_that_leave_the_range_do_not_fit() {
    let valid = parse(vec![
        entry(1, AccountType::Credit, i128::MAX, 840),
        entry(2, AccountType::Debit, i128::MAX, 840),
        entry(1, AccountType::Credit, 1, 840),
        entry(2, AccountType::Debit, 1, 840),
    ])
    .unwrap();
    assert!(!valid.check_deltas_fit(&scope(&[(10, 1, false), (20, 2, false)])));
    assert!(valid.check_deltas_fit(&scope(&[])));
}

#[test]
fn validation_errors_in_words() {
    let words = |error: InvalidOperationError| error.message();
    assert_eq!(words(InvalidOperationError::TooManyEntries), "too many entries in request");
    assert_eq!(words(InvalidOperationError::AccountNotFound), "account not found");
    assert_eq!(
        words(InvalidOperationError::ZeroAmountEntry),
        "entry with zero amount is not allowed"
    );
    assert_eq!(words(InvalidOperationError::NonZeroSumEntries), "entries are not DR/CR balanced");
    assert_eq!(
        words(InvalidOperationError::LedgerCodeInvalid),
        "ledger code must be 8-character ASCII"
    );
    assert_eq!(words(InvalidOperationError::BookNotFound), "book not found");
}
