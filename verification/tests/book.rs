use ledger::accounts::AccountType;
use ledger::book::{Book, BookRecord};

fn record(accounting_type: AccountType, amount: i32, code: &str, operation: &str) -> BookRecord {
    BookRecord {
        accounting_type,
        amount,
        ledger_code: String::from(code),
        operation_id: String::from(operation),
    }
}

#[test]
fn get_balance_debit() {
    let result = Book {
        accounting_type: AccountType::Debit,
        cover_mirror: 100,
        durable_unapplied: vec![
            BookRecord {
                accounting_type: AccountType::Debit,
                amount: 100,
                ledger_code: String::from("L1"),
                operation_id: String::from("OP1"),
            },
            BookRecord {
                accounting_type: AccountType::Credit,
                amount: 150,
                ledger_code: String::from("L4"),
                operation_id: String::from("OP4"),
            },
        ],
        pending_write: vec![
            BookRecord {
                accounting_type: AccountType::Credit,
                amount: 200,
                ledger_code: String::from("L3"),
                operation_id: String::from("OP3"),
            },
            BookRecord {
                accounting_type: AccountType::Debit,
                amount: 150,
                ledger_code: String::from("L2"),
                operation_id: String::from("OP2"),
            },
        ],
    }
    .get_balance();
    assert_eq!(result, 0);
}

#[test]
fn get_balance_credit() {
    let result = Book {
        accounting_type: AccountType::Credit,
        cover_mirror: 200,
        durable_unapplied: vec![
            BookRecord {
                accounting_type: AccountType::Debit,
                amount: 100,
                ledger_code: String::from("L1"),
                operation_id: String::from("OP1"),
            },
            BookRecord {
                accounting_type: AccountType::Credit,
                amount: 150,
                ledger_code: String::from("L4"),
                operation_id: String::from("OP4"),
            },
        ],
        pending_write: vec![
            BookRecord {
                accounting_type: AccountType::Credit,
                amount: 200,
                ledger_code: String::from("L3"),
                operation_id: String::from("OP3"),
            },
            BookRecord {
                accounting_type: AccountType::Debit,
                amount: 150,
                ledger_code: String::from("L2"),
                operation_id: String::from("OP2"),
            },
        ],
    }
    .get_balance();
    assert_eq!(result, 300);
}

#[test]
fn apply_entry_goes_by_both_sides() {
    let debit = Book {
        accounting_type: AccountType::Debit,
        cover_mirror: 0,
        durable_unapplied: vec![],
        pending_write: vec![],
    };
    let credit = Book {
        accounting_type: AccountType::Credit,
        cover_mirror: 0,
        durable_unapplied: vec![],
        pending_write: vec![],
    };
    let on_debit = record(AccountType::Debit, 7, "L1", "OP1");
    let on_credit = record(AccountType::Credit, 7, "L1", "OP1");
    assert_eq!(debit.apply_entry(10, &on_debit), 17);
    assert_eq!(debit.apply_entry(10, &on_credit), 3);
    assert_eq!(credit.apply_entry(10, &on_debit), 3);
    assert_eq!(credit.apply_entry(10, &on_credit), 17);
}

#[test]
fn other_nature_mirrors_the_balance() {
    let balance_of = |accounting_type: AccountType, cover_mirror: i32| {
        Book {
            accounting_type,
            cover_mirror,
            durable_unapplied: vec![record(AccountType::Debit, 30, "L1", "OP1")],
            pending_write: vec![record(AccountType::Credit, 100, "L2", "OP2")],
        }
        .get_balance()
    };
    assert_eq!(balance_of(AccountType::Debit, 5), -65);
    assert_eq!(balance_of(AccountType::Credit, -5), 65);
}

#[test]
fn writing_a_record_down_keeps_the_balance() {
    let before = Book {
        accounting_type: AccountType::Credit,
        cover_mirror: 1,
        durable_unapplied: vec![],
        pending_write: vec![
            record(AccountType::Credit, 20, "L1", "OP1"),
            record(AccountType::Debit, 3, "L2", "OP2"),
        ],
    };
    let after = Book {
        accounting_type: AccountType::Credit,
        cover_mirror: 1,
        durable_unapplied: vec![record(AccountType::Credit, 20, "L1", "OP1")],
        pending_write: vec![record(AccountType::Debit, 3, "L2", "OP2")],
    };
    assert_eq!(before.get_balance(), 18);
    assert_eq!(after.get_balance(), 18);
}
