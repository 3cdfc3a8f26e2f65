use ledger::accounts::{AccountRegistry, AccountType};
use ledger::books::{BalanceType, BookRegistry, BookState};
use ledger::journal::JournalEntryBytes;
use ledger::sums::WideSum;
use std::sync::Arc;

#[test]
fn a_fresh_account_has_three_books_of_its_own() {
    let mut registry = AccountRegistry::new();
    let loaded = registry.get_accounts(&vec![4, 9]);
    assert_eq!(loaded.len(), 2);
    let account = &loaded[&4];
    assert_eq!(account.account_type, AccountType::Credit);
    assert!(!account.allow_overdraft);
    assert_eq!(account.books.entries.len(), 3);
    assert_eq!(account.books.get(&(123, BalanceType::Available)), Some(&10));
    assert_eq!(account.books.get(&(123, BalanceType::Current)), Some(&11));
    assert_eq!(account.books.get(&(123, BalanceType::Hold)), Some(&12));
    assert_eq!(account.books.get(&(124, BalanceType::Hold)), None);
    assert_eq!(loaded[&9].books.get(&(123, BalanceType::Available)), Some(&25));
}

#[test]
fn loading_an_account_again_shares_it() {
    let mut registry = AccountRegistry::new();
    let first = registry.get_accounts(&vec![4, 4]);
    let second = registry.get_accounts(&vec![5, 4]);
    assert_eq!(first.len(), 1);
    assert_eq!(second.len(), 2);
    assert!(Arc::ptr_eq(&first[&4], &second[&4]));
    assert_eq!(registry.map.len(), 2);
}

#[test]
fn accounts_whose_books_cannot_be_numbered_cannot_be_loaded() {
    let registry = AccountRegistry::new();
    assert!(!registry.can_load(&vec![1, 0]));
    assert!(!registry.can_load(&vec![u64::MAX]));
    assert!(!registry.can_load(&vec![u64::MAX / 3 + 1]));
    assert!(registry.can_load(&vec![u64::MAX / 3]));
    assert!(registry.can_load(&vec![]));
}

#[test]
fn loading_books_lists_each_once_and_keeps_those_in_memory() {
    let mut registry = BookRegistry::new();
    assert_eq!(registry.get_books(&vec![8, 3, 8]), vec![8, 3]);
    registry.map.get_mut(&8).unwrap().stage(50);
    assert_eq!(registry.get_books(&vec![3, 8, 1]), vec![3, 8, 1]);
    assert_eq!(registry.map.len(), 3);
    assert_eq!(registry.map[&8].balance(), 50);
    assert_eq!(registry.map[&1].balance(), 0);
}

#[test]
fn a_balance_takes_in_what_is_recorded_and_what_waits() {
    let mut state = BookState::new();
    state.running_balance = 1000;
    state.stage(-300);
    state.stage(5);
    assert_eq!(state.balance(), 705);
    state.settle(&vec![JournalEntryBytes::unplaced(8, -300, *b"    CASH")]);
    assert_eq!(state.balance(), 705);
    assert_eq!(state.pending_journal.len(), 1);
    assert_eq!(state.durable_pending_rollup.len(), 1);
    assert_eq!(state.durable_pending_rollup[0].amount_value(), -300);
    state.release(1);
    assert_eq!(state.balance(), 700);
    assert!(state.balance_fits());
}

#[test]
fn a_balance_may_leave_the_range_on_the_way() {
    let mut state = BookState::new();
    state.running_balance = i128::MAX - 1;
    state.stage(5);
    assert!(!state.balance_fits());
    state.stage(-5);
    assert!(state.balance_fits());
    assert_eq!(state.balance(), i128::MAX - 1);
    let mut state = BookState::new();
    state.running_balance = i128::MIN;
    for amount in [i128::MIN, -1, i128::MAX] {
        state.stage(amount);
    }
    assert!(!state.balance_fits());
    state.stage(3);
    assert_eq!(state.balance(), i128::MIN + 1);
    state.stage(i128::MAX);
    assert!(state.balance_fits());
    assert_eq!(state.balance(), 0);
}

#[test]
fn wide_sums_are_exact() {
    let mut sum = WideSum::start(i128::MAX);
    sum.take_in(i128::MAX);
    assert_eq!(sum.total(), None);
    sum.take_in(i128::MAX);
    sum.take_in(i128::MIN);
    sum.take_in(i128::MIN);
    assert_eq!(sum.total(), Some(i128::MAX - 2));
    sum.take_in(i128::MIN);
    sum.take_in(i128::MIN);
    assert_eq!(sum.total(), None);
}
