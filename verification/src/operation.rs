//! Operations: what a request asks for, when it is valid, and how it is laid out by book.

use crate::accounts;
use crate::accounts::{AccountId, AccountRegistryMap, AccountState, AccountType, AccountView};
use crate::books::{BalanceType, BookId, InScopeBook};
use crate::currency::Currency;
use crate::journal::{JOURNAL_ENTRY_LEN, JOURNAL_HEADER_LEN};
use crate::sums;
use std::collections::HashMap;
use vstd::prelude::*;

verus! {

broadcast use vstd::std_specs::hash::group_hash_axioms;

/// The most entries that an operation may have.
pub const MAX_ENTRIES: usize = 100;

/// The length of a stored ledger code, in bytes.
pub const LEDGER_CODE_LEN: usize = 8;

/// A request to post entries to the books of some accounts.
#[derive(Debug)]
pub struct Operation {
    pub idempotency_key: u128,
    pub entries: Vec<OperationEntry>,
}

/// One entry of a request.
#[derive(Debug)]
pub struct OperationEntry {
    pub account: AccountId,
    pub balance_type: BalanceType,
    pub op_type: AccountType,
    pub amount: i128,
    pub currency: Currency,
    pub ledger_code: String,
}

/// What is wrong with one entry of a request.
#[derive(Clone, Copy, Debug, PartialEq, Eq, Structural)]
pub enum EntryFault {
    AccountNotFound,
    BookNotFound,
    ZeroAmountEntry,
    LedgerCodeInvalid,
}

/// Why a request is not valid.
#[derive(Clone, Copy, Debug, PartialEq, Eq, Structural)]
pub enum InvalidOperationError {
    TooManyEntries,
    AccountNotFound,
    ZeroAmountEntry,
    NonZeroSumEntries,
    LedgerCodeInvalid,
    BookNotFound,
}

impl InvalidOperationError {
    /// The error in words.
    pub open spec fn words(self) -> Seq<char> {
        match self {
            InvalidOperationError::TooManyEntries => "too many entries in request"@,
            InvalidOperationError::AccountNotFound => "account not found"@,
            InvalidOperationError::ZeroAmountEntry => "entry with zero amount is not allowed"@,
            InvalidOperationError::NonZeroSumEntries => "entries are not DR/CR balanced"@,
            InvalidOperationError::LedgerCodeInvalid => "ledger code must be 8-character ASCII"@,
            InvalidOperationError::BookNotFound => "book not found"@,
        }
    }

    /// The error in words.
    pub fn message(&self) -> (text: String)
        ensures
            text@ == self.words(),
    {
        match self {
            InvalidOperationError::TooManyEntries => "too many entries in request".to_string(),
            InvalidOperationError::AccountNotFound => "account not found".to_string(),
            InvalidOperationError::ZeroAmountEntry => {
                "entry with zero amount is not allowed".to_string()
            },
            InvalidOperationError::NonZeroSumEntries => {
                "entries are not DR/CR balanced".to_string()
            },
            InvalidOperationError::LedgerCodeInvalid => {
                "ledger code must be 8-character ASCII".to_string()
            },
            InvalidOperationError::BookNotFound => "book not found".to_string(),
        }
    }
}

/// An entry of a valid operation, in the sign in which its book keeps it.
#[derive(Clone, Copy, Debug, PartialEq, Eq)]
pub struct PreProcessedEntry {
    pub target_account_id: AccountId,
    pub amount: i128,
    pub ledger_code: [u8; 8],
    pub currency: Currency,
    pub balance_type: BalanceType,
}

/// What such an entry stands for.
#[verifier::ext_equal]
pub struct PreProcessedView {
    pub target_account_id: AccountId,
    pub amount: int,
    pub ledger_code: Seq<u8>,
    pub currency: Currency,
    pub balance_type: BalanceType,
}

impl View for PreProcessedEntry {
    type V = PreProcessedView;

    open spec fn view(&self) -> PreProcessedView {
        PreProcessedView {
            target_account_id: self.target_account_id,
            amount: self.amount as int,
            ledger_code: self.ledger_code@,
            currency: self.currency,
            balance_type: self.balance_type,
        }
    }
}

/// What entries stand for.
pub open spec fn entries_view(entries: Seq<PreProcessedEntry>) -> Seq<PreProcessedView> {
    entries.map_values(|entry: PreProcessedEntry| entry@)
}

/// The amounts of entries.
pub open spec fn view_amounts(entries: Seq<PreProcessedView>) -> Seq<int> {
    entries.map_values(|entry: PreProcessedView| entry.amount)
}

/// Whether a ledger code can be stored: at most eight characters, all of them ASCII.
pub open spec fn valid_ledger_code(code: Seq<char>) -> bool {
    code.len() <= LEDGER_CODE_LEN && vstd::utf8::is_ascii_chars(code)
}

/// A ledger code as it is stored: to the right, behind as many spaces as fill eight bytes.
pub open spec fn padded_code(code: Seq<char>) -> Seq<u8> {
    Seq::new(
        8,
        |i: int|
            if i < 8 - code.len() {
                32u8
            } else {
                code[i - (8 - code.len())] as u8
            },
    )
}

/// What is wrong with an entry on the account that it names, if anything; the account is missing
/// where there is none.
pub open spec fn entry_fault(entry: OperationEntry, account: Option<AccountView>) -> Option<
    EntryFault,
> {
    match account {
        None => Some(EntryFault::AccountNotFound),
        Some(account) => if !account.books.contains_key((entry.currency, entry.balance_type)) {
            Some(EntryFault::BookNotFound)
        } else if entry.amount == 0 {
            Some(EntryFault::ZeroAmountEntry)
        } else if !valid_ledger_code(entry.ledger_code@) {
            Some(EntryFault::LedgerCodeInvalid)
        } else {
            None
        },
    }
}

/// What is wrong with the first entry that is at fault, if any is.
pub open spec fn first_fault(
    entries: Seq<OperationEntry>,
    accounts: Map<AccountId, AccountView>,
) -> Option<EntryFault>
    decreases entries.len(),
{
    if entries.len() == 0 {
        None
    } else {
        match first_fault(entries.drop_last(), accounts) {
            Some(fault) => Some(fault),
            None => entry_fault(entries.last(), accounts.get(entries.last().account)),
        }
    }
}

/// What an entry adds to the credit side, less what it adds to the debit side.
pub open spec fn credited(entry: OperationEntry) -> int {
    match entry.op_type {
        AccountType::Debit => -entry.amount,
        AccountType::Credit => entry.amount as int,
    }
}

/// The amount in the sign in which the account's book keeps it: an entry on the side of the
/// account's nature adds, one on the other side takes away.
pub open spec fn signed_amount(entry: OperationEntry, account: AccountView) -> int {
    if account.account_type != entry.op_type {
        -entry.amount
    } else {
        entry.amount as int
    }
}

/// What the entries in one currency add to the credit side, less what they add to the debit side.
pub open spec fn currency_total(entries: Seq<OperationEntry>, currency: Currency) -> int
    decreases entries.len(),
{
    if entries.len() == 0 {
        0
    } else {
        currency_total(entries.drop_last(), currency) + if entries.last().currency == currency {
            credited(entries.last())
        } else {
            0
        }
    }
}

/// Debits and credits are equal in every currency.
pub open spec fn balanced(entries: Seq<OperationEntry>) -> bool {
    forall|currency: Currency| #[trigger] currency_total(entries, currency) == 0
}

/// Why a request is not valid, if it is not.
pub open spec fn request_error(
    entries: Seq<OperationEntry>,
    accounts: Map<AccountId, AccountView>,
) -> Option<InvalidOperationError> {
    if entries.len() > MAX_ENTRIES {
        Some(InvalidOperationError::TooManyEntries)
    } else {
        match first_fault(entries, accounts) {
            Some(fault) => Some(error_of(fault)),
            None => if balanced(entries) {
                None
            } else {
                Some(InvalidOperationError::NonZeroSumEntries)
            },
        }
    }
}

/// The error that a fault makes of a request.
pub open spec fn error_of(fault: EntryFault) -> InvalidOperationError {
    match fault {
        EntryFault::AccountNotFound => InvalidOperationError::AccountNotFound,
        EntryFault::BookNotFound => InvalidOperationError::BookNotFound,
        EntryFault::ZeroAmountEntry => InvalidOperationError::ZeroAmountEntry,
        EntryFault::LedgerCodeInvalid => InvalidOperationError::LedgerCodeInvalid,
    }
}

/// The book that an entry goes to.
pub open spec fn target_book(
    entry: OperationEntry,
    accounts: Map<AccountId, AccountView>,
) -> BookId {
    accounts[entry.account].books[(entry.currency, entry.balance_type)]
}

/// The entry in the form in which its book keeps it.
pub open spec fn preprocessed(
    entry: OperationEntry,
    accounts: Map<AccountId, AccountView>,
) -> PreProcessedView {
    PreProcessedView {
        target_account_id: entry.account,
        amount: signed_amount(entry, accounts[entry.account]),
        ledger_code: padded_code(entry.ledger_code@),
        currency: entry.currency,
        balance_type: entry.balance_type,
    }
}

/// The entries that go to one book, in the order of the request.
pub open spec fn book_entries(
    entries: Seq<OperationEntry>,
    accounts: Map<AccountId, AccountView>,
    book: BookId,
) -> Seq<PreProcessedView>
    decreases entries.len(),
{
    if entries.len() == 0 {
        Seq::empty()
    } else {
        let before = book_entries(entries.drop_last(), accounts, book);
        if target_book(entries.last(), accounts) == book {
            before.push(preprocessed(entries.last(), accounts))
        } else {
            before
        }
    }
}

/// The entries of a request by book.
pub open spec fn grouped(
    entries: Seq<OperationEntry>,
    accounts: Map<AccountId, AccountView>,
) -> Map<BookId, Seq<PreProcessedView>> {
    Map::new(
        |book: BookId| book_entries(entries, accounts, book).len() > 0,
        |book: BookId| book_entries(entries, accounts, book),
    )
}

/// Whether the amounts of the entry at `i`, and the total of its currency up to and with it, can
/// be held in 128 bits.
pub open spec fn entry_amounts_fit(
    entries: Seq<OperationEntry>,
    accounts: Map<AccountId, AccountView>,
    i: int,
) -> bool {
    &&& sums::fits_i128(credited(entries[i]))
    &&& sums::fits_i128(signed_amount(entries[i], accounts[entries[i].account]))
    &&& sums::fits_i128(currency_total(entries.take(i + 1), entries[i].currency))
}

/// Whether every amount that validation computes, up to the first entry at fault, can be held in
/// 128 bits.
pub open spec fn amounts_fit(
    entries: Seq<OperationEntry>,
    accounts: Map<AccountId, AccountView>,
) -> bool {
    entries.len() <= MAX_ENTRIES ==> forall|i: int|
        0 <= i < entries.len() && first_fault(#[trigger] entries.take(i + 1), accounts) is None
            ==> entry_amounts_fit(entries, accounts, i)
}

/// A fault among the first entries is the fault of the request.
pub proof fn lemma_first_fault_take(
    entries: Seq<OperationEntry>,
    accounts: Map<AccountId, AccountView>,
    n: int,
)
    requires
        0 <= n <= entries.len(),
        first_fault(entries.take(n), accounts) is Some,
    ensures
        first_fault(entries, accounts) == first_fault(entries.take(n), accounts),
    decreases entries.len(),
{
    if n < entries.len() {
        assert(entries.drop_last().take(n) =~= entries.take(n));
        lemma_first_fault_take(entries.drop_last(), accounts, n);
    } else {
        assert(entries.take(n) =~= entries);
    }
}

/// The error that a fault makes of a request.
pub fn fault_error(fault: EntryFault) -> (error: InvalidOperationError)
    ensures
        error == error_of(fault),
{
    match fault {
        EntryFault::AccountNotFound => InvalidOperationError::AccountNotFound,
        EntryFault::BookNotFound => InvalidOperationError::BookNotFound,
        EntryFault::ZeroAmountEntry => InvalidOperationError::ZeroAmountEntry,
        EntryFault::LedgerCodeInvalid => InvalidOperationError::LedgerCodeInvalid,
    }
}

/// A ledger code as it is stored, if it can be stored.
pub fn store_ledger_code(code: &String) -> (stored: Option<[u8; 8]>)
    ensures
        match stored {
            Some(bytes) => valid_ledger_code(code@) && bytes@ == padded_code(code@),
            None => !valid_ledger_code(code@),
        },
{
    let text = code.as_str();
    if !text.is_ascii() {
        return None;
    }
    let src = text.as_bytes();
    let n = src.len();
    if n > LEDGER_CODE_LEN {
        return None;
    }
    let mut stored: [u8; 8] = [32u8; 8];
    let mut i: usize = 0;
    while i < n
        invariant
            i <= n <= 8,
            n == src@.len() == code@.len(),
            forall|k: int| 0 <= k < 8 - n ==> stored@[k] == 32u8,
            forall|k: int| 0 <= k < i ==> #[trigger] stored@[8 - n + k] == src@[k],
        decreases n - i,
    {
        let at: usize = LEDGER_CODE_LEN - n + i;
        stored[at] = src[i];
        i = i + 1;
    }
    assert(stored@ =~= padded_code(code@)) by {
        assert forall|k: int| 0 <= k < 8 implies stored@[k] == padded_code(code@)[k] by {
            if k >= 8 - n {
                assert(stored@[8 - n + (k - (8 - n))] == src@[k - (8 - n)]);
            }
        }
    }
    Some(stored)
}

/// Checks one entry on the account that it names, and finds the book that it goes to and the
/// ledger code that is stored for it.
pub fn check_entry(entry: &OperationEntry, account: Option<&AccountState>) -> (checked: Result<
    (BookId, [u8; 8]),
    EntryFault,
>)
    ensures
        match checked {
            Ok((book, code)) => account is Some && entry_fault(*entry, Some(account->0@)) is None
                && book == account->0@.books[(entry.currency, entry.balance_type)] && code@
                == padded_code(entry.ledger_code@),
            Err(fault) => entry_fault(
                *entry,
                match account {
                    Some(account) => Some(account@),
                    None => None,
                },
            ) == Some(fault),
        },
{
    let account = match account {
        Some(account) => account,
        None => {
            return Err(EntryFault::AccountNotFound);
        },
    };
    let book: BookId = match account.books.get(&(entry.currency, entry.balance_type)) {
        Some(book) => *book,
        None => {
            return Err(EntryFault::BookNotFound);
        },
    };
    if entry.amount == 0 {
        return Err(EntryFault::ZeroAmountEntry);
    }
    match store_ledger_code(&entry.ledger_code) {
        Some(code) => Ok((book, code)),
        None => Err(EntryFault::LedgerCodeInvalid),
    }
}

/// A valid operation, its entries by book.
#[derive(Debug)]
pub struct ValidOperation {
    pub idempotency_key: u128,
    pub entries_by_book: HashMap<BookId, Vec<PreProcessedEntry>>,
}

/// What entries by book stand for.
pub open spec fn groups_view(groups: Map<BookId, Vec<PreProcessedEntry>>) -> Map<
    BookId,
    Seq<PreProcessedView>,
> {
    groups.map_values(|group: Vec<PreProcessedEntry>| entries_view(group@))
}

/// One more entry joins the entries of its book and no other's.
proof fn lemma_book_entries_take(
    entries: Seq<OperationEntry>,
    accounts: Map<AccountId, AccountView>,
    i: int,
    book: BookId,
)
    requires
        0 <= i < entries.len(),
    ensures
        book_entries(entries.take(i + 1), accounts, book) == if target_book(entries[i], accounts)
            == book {
            book_entries(entries.take(i), accounts, book).push(preprocessed(entries[i], accounts))
        } else {
            book_entries(entries.take(i), accounts, book)
        },
{
    assert(entries.take(i + 1).drop_last() =~= entries.take(i));
}

/// One more entry joins the total of its currency and no other's.
proof fn lemma_currency_total_take(entries: Seq<OperationEntry>, i: int, currency: Currency)
    requires
        0 <= i < entries.len(),
    ensures
        currency_total(entries.take(i + 1), currency) == currency_total(entries.take(i), currency)
            + if entries[i].currency == currency {
            credited(entries[i])
        } else {
            0
        },
{
    assert(entries.take(i + 1).drop_last() =~= entries.take(i));
}

/// Whether some total is not zero.
pub(crate) fn any_nonzero(totals: &HashMap<Currency, i128>) -> (any: bool)
    ensures
        any == exists|currency: Currency| #[trigger]
            totals@.contains_key(currency) && totals@[currency] != 0,
{
    for total in it: totals.values()
        invariant
            forall|k: int| 0 <= k < it.index() ==> *(#[trigger] it.seq()[k]) == 0,
    {
        if *total != 0 {
            assert(totals@.values().contains(*total)) by {
                assert(it.seq().unref()[it.index()] == *total);
                assert(it.seq().unref().to_set().contains(*total));
            }
            return true;
        }
    }
    assert forall|currency: Currency| #[trigger]
        totals@.contains_key(currency) implies totals@[currency] == 0 by {
        assert(totals@.values().contains(totals@[currency]));
    }
    false
}

impl ValidOperation {
    /// The entries of each book.
    pub open spec fn groups(self) -> Map<BookId, Seq<PreProcessedView>> {
        groups_view(self.entries_by_book@)
    }

    /// Validates a request on the accounts that it names, and lays its entries out by book.
    pub fn parse(op: Operation, accounts_in_scope: &AccountRegistryMap) -> (parsed: Result<
        Self,
        InvalidOperationError,
    >)
        requires
            amounts_fit(op.entries@, accounts::accounts_view(accounts_in_scope@)),
        ensures
            match parsed {
                Ok(valid) => {
                    &&& request_error(
                        op.entries@,
                        accounts::accounts_view(accounts_in_scope@),
                    ) is None
                    &&& valid.idempotency_key == op.idempotency_key
                    &&& valid.groups() == grouped(
                        op.entries@,
                        accounts::accounts_view(accounts_in_scope@),
                    )
                },
                Err(error) => request_error(
                    op.entries@,
                    accounts::accounts_view(accounts_in_scope@),
                ) == Some(error),
            },
    {
        if op.entries.len() > MAX_ENTRIES {
            return Err(InvalidOperationError::TooManyEntries);
        }
        let ghost entries = op.entries@;
        let ghost view = accounts::accounts_view(accounts_in_scope@);
        let mut totals: HashMap<Currency, i128> = HashMap::new();
        let mut entries_by_book: HashMap<BookId, Vec<PreProcessedEntry>> = HashMap::with_capacity(
            op.entries.len(),
        );
        let mut i: usize = 0;
        assert(groups_view(entries_by_book@) =~= grouped(entries.take(0), view));
        while i < op.entries.len()
            invariant
                i <= op.entries@.len() <= MAX_ENTRIES,
                entries == op.entries@,
                view == accounts::accounts_view(accounts_in_scope@),
                amounts_fit(entries, view),
                first_fault(entries.take(i as int), view) is None,
                forall|c: Currency| #[trigger]
                    currency_total(entries.take(i as int), c) == if totals@.contains_key(c) {
                        totals@[c] as int
                    } else {
                        0
                    },
                groups_view(entries_by_book@) == grouped(entries.take(i as int), view),
            decreases op.entries@.len() - i,
        {
            let entry = &op.entries[i];
            let found = accounts_in_scope.get(&entry.account);
            proof {
                assert(entries.take(i + 1).drop_last() =~= entries.take(i as int));
                assert(view.contains_key(entry.account) == accounts_in_scope@.contains_key(
                    entry.account,
                ));
            }
            let account: &AccountState = match found {
                Some(account) => &**account,
                None => {
                    proof {
                        lemma_first_fault_take(entries, view, i + 1);
                    }
                    return Err(InvalidOperationError::AccountNotFound);
                },
            };
            let (book, ledger_code) = match check_entry(entry, Some(account)) {
                Ok(checked) => checked,
                Err(fault) => {
                    proof {
                        lemma_first_fault_take(entries, view, i + 1);
                    }
                    return Err(fault_error(fault));
                },
            };
            assert(entry_amounts_fit(entries, view, i as int));
            proof {
                assert forall|c: Currency| #[trigger]
                    currency_total(entries.take(i + 1), c) == currency_total(
                        entries.take(i as int),
                        c,
                    ) + (if c == entry.currency {
                        credited(*entry)
                    } else {
                        0
                    }) by {
                    lemma_currency_total_take(entries, i as int, c);
                }
            }
            let credit: i128 = match entry.op_type {
                AccountType::Debit => -entry.amount,
                AccountType::Credit => entry.amount,
            };
            let before: i128 = match totals.get(&entry.currency) {
                Some(total) => *total,
                None => 0,
            };
            assert(before == currency_total(entries.take(i as int), entry.currency));
            totals.insert(entry.currency, before + credit);
            let amount: i128 = if account.account_type != entry.op_type {
                -entry.amount
            } else {
                entry.amount
            };
            let ghost groups_before = entries_by_book@;
            let mut group: Vec<PreProcessedEntry> = match entries_by_book.remove(&book) {
                Some(group) => group,
                None => Vec::new(),
            };
            let ghost group_before = group@;
            let pre = PreProcessedEntry {
                target_account_id: entry.account,
                amount,
                ledger_code,
                currency: entry.currency,
                balance_type: entry.balance_type,
            };
            group.push(pre);
            entries_by_book.insert(book, group);
            proof {
                let done = entries.take(i as int);
                let next = entries.take(i + 1);
                assert(pre@ =~= preprocessed(*entry, view));
                assert(target_book(*entry, view) == book);
                assert(entries_view(group_before) =~= book_entries(done, view, book)) by {
                    if groups_before.contains_key(book) {
                        assert(groups_view(groups_before).contains_key(book));
                        assert(groups_view(groups_before)[book] == book_entries(done, view, book));
                    } else {
                        assert(!groups_view(groups_before).contains_key(book));
                        assert(!grouped(done, view).contains_key(book));
                    }
                }
                assert(entries_view(group@) =~= entries_view(group_before).push(pre@));
                assert forall|b: BookId| #[trigger]
                    groups_view(entries_by_book@).contains_key(b) == grouped(
                        next,
                        view,
                    ).contains_key(b) && (grouped(next, view).contains_key(b) ==> groups_view(
                        entries_by_book@,
                    )[b] == grouped(next, view)[b]) by {
                    lemma_book_entries_take(entries, view, i as int, b);
                    assert(groups_view(groups_before).contains_key(b) == grouped(
                        done,
                        view,
                    ).contains_key(b));
                    if b != book {
                        assert(entries_by_book@.contains_key(b) == groups_before.contains_key(b));
                        if groups_before.contains_key(b) {
                            assert(groups_view(groups_before)[b] == grouped(done, view)[b]);
                        }
                    }
                }
                assert(groups_view(entries_by_book@) =~= grouped(next, view));
            }
            i = i + 1;
        }
        assert(entries.take(i as int) =~= entries);
        if any_nonzero(&totals) {
            assert(!balanced(entries)) by {
                let c = choose|c: Currency| #[trigger]
                    totals@.contains_key(c) && totals@[c] != 0;
                assert(currency_total(entries, c) != 0);
            }
            Err(InvalidOperationError::NonZeroSumEntries)
        } else {
            assert(balanced(entries));
            Ok(ValidOperation { idempotency_key: op.idempotency_key, entries_by_book })
        }
    }
}

/// Whether every amount that validating the request computes can be held in 128 bits.
pub fn check_amounts_fit(op: &Operation, accounts_in_scope: &AccountRegistryMap) -> (fit: bool)
    ensures
        fit == amounts_fit(op.entries@, accounts::accounts_view(accounts_in_scope@)),
{
    if op.entries.len() > MAX_ENTRIES {
        return true;
    }
    let ghost entries = op.entries@;
    let ghost view = accounts::accounts_view(accounts_in_scope@);
    let mut totals: HashMap<Currency, i128> = HashMap::new();
    let mut i: usize = 0;
    while i < op.entries.len()
        invariant
            i <= op.entries@.len() <= MAX_ENTRIES,
            entries == op.entries@,
            view == accounts::accounts_view(accounts_in_scope@),
            first_fault(entries.take(i as int), view) is None,
            forall|c: Currency| #[trigger]
                currency_total(entries.take(i as int), c) == if totals@.contains_key(c) {
                    totals@[c] as int
                } else {
                    0
                },
            forall|k: int|
                0 <= k < i && first_fault(#[trigger] entries.take(k + 1), view) is None
                    ==> entry_amounts_fit(entries, view, k),
        decreases op.entries@.len() - i,
    {
        let entry = &op.entries[i];
        let found = accounts_in_scope.get(&entry.account);
        proof {
            assert(entries.take(i + 1).drop_last() =~= entries.take(i as int));
            assert(view.contains_key(entry.account) == accounts_in_scope@.contains_key(
                entry.account,
            ));
            assert forall|c: Currency| #[trigger]
                currency_total(entries.take(i + 1), c) == currency_total(
                    entries.take(i as int),
                    c,
                ) + (if c == entry.currency {
                    credited(*entry)
                } else {
                    0
                }) by {
                lemma_currency_total_take(entries, i as int, c);
            }
        }
        let account: Option<&AccountState> = match found {
            Some(account) => Some(&**account),
            None => None,
        };
        let account_type: AccountType = match (check_entry(entry, account), account) {
            (Ok(_), Some(account)) => account.account_type,
            _ => {
                proof {
                    assert(first_fault(entries.take(i + 1), view) is Some);
                    assert forall|k: int|
                        0 <= k < entries.len() && first_fault(
                            #[trigger] entries.take(k + 1),
                            view,
                        ) is None implies entry_amounts_fit(entries, view, k) by {
                        if k >= i {
                            assert(entries.take(k + 1).take(i + 1) =~= entries.take(i + 1));
                            lemma_first_fault_take(entries.take(k + 1), view, i + 1);
                        }
                    }
                }
                return true;
            },
        };
        assert(first_fault(entries.take(i + 1), view) is None);
        if entry.amount == i128::MIN && (entry.op_type == AccountType::Debit || account_type
            != entry.op_type) {
            assert(!entry_amounts_fit(entries, view, i as int));
            return false;
        }
        let credit: i128 = match entry.op_type {
            AccountType::Debit => -entry.amount,
            AccountType::Credit => entry.amount,
        };
        let before: i128 = match totals.get(&entry.currency) {
            Some(total) => *total,
            None => 0,
        };
        assert(before == currency_total(entries.take(i as int), entry.currency));
        match before.checked_add(credit) {
            Some(total) => {
                totals.insert(entry.currency, total);
            },
            None => {
                assert(!entry_amounts_fit(entries, view, i as int));
                return false;
            },
        }
        i = i + 1;
    }
    true
}

/// The keys of a map listed in some order, each once.
pub open spec fn lists_keys<V>(keys: Seq<u64>, map: Map<u64, V>) -> bool {
    keys.no_duplicates() && forall|key: u64| #[trigger]
        keys.contains(key) <==> map.contains_key(key)
}

/// The number of entries of the books listed.
pub open spec fn entry_total(
    groups: Map<BookId, Seq<PreProcessedView>>,
    keys: Seq<BookId>,
) -> nat
    decreases keys.len(),
{
    if keys.len() == 0 {
        0
    } else {
        entry_total(groups, keys.drop_last()) + groups[keys.last()].len()
    }
}

/// Whether the entries of all books together number at most `most`.
pub open spec fn at_most_entries(groups: Map<BookId, Seq<PreProcessedView>>, most: nat) -> bool {
    forall|keys: Seq<BookId>| #[trigger]
        lists_keys(keys, groups) ==> entry_total(groups, keys) <= most
}

/// Whether no book is without an entry.
pub open spec fn none_empty(groups: Map<BookId, Seq<PreProcessedView>>) -> bool {
    forall|book: BookId| #[trigger] groups.contains_key(book) ==> groups[book].len() > 0
}

/// Whether every book is in scope.
pub open spec fn all_in_scope(
    groups: Map<BookId, Seq<PreProcessedView>>,
    scope: Map<BookId, InScopeBook>,
) -> bool {
    forall|book: BookId| #[trigger] groups.contains_key(book) ==> scope.contains_key(book)
}

/// Whether the amounts of every book in scope, taken one by one, sum up within 128 bits.
pub open spec fn deltas_fit(
    groups: Map<BookId, Seq<PreProcessedView>>,
    scope: Map<BookId, InScopeBook>,
) -> bool {
    forall|book: BookId| #[trigger]
        groups.contains_key(book) && scope.contains_key(book) ==> sums::running_sum_fits(
            0,
            view_amounts(groups[book]),
        )
}

/// What an operation posts to one book.
#[derive(Debug)]
pub struct PreparedBook {
    pub book_id: BookId,
    pub account_id: AccountId,
    pub currency: Currency,
    pub balance_type: BalanceType,
    pub allow_overdraft: bool,
    pub net_delta: i128,
    pub entries: Vec<PreProcessedEntry>,
}

/// An operation that is ready to be accepted.
#[derive(Debug)]
pub struct PreparedOperation {
    pub idempotency_key: u128,
    pub total_entry_count: u8,
    pub record_length: u16,
    pub per_book: Vec<PreparedBook>,
}

impl PreparedBook {
    /// Whether this is the book with the entries, owned as stated: its currency and balance type
    /// are those of the first entry, its net change the sum of the amounts.
    pub open spec fn prepares(self, entries: Seq<PreProcessedView>, scope: InScopeBook) -> bool {
        &&& self.account_id == scope.account_id
        &&& self.allow_overdraft == scope.allow_overdraft
        &&& self.currency == entries[0].currency
        &&& self.balance_type == entries[0].balance_type
        &&& self.net_delta == sums::sum(view_amounts(entries))
        &&& entries_view(self.entries@) == entries
    }
}

/// The books that an operation posts to, in order.
pub open spec fn prepared_ids(per_book: Seq<PreparedBook>) -> Seq<BookId> {
    per_book.map_values(|book: PreparedBook| book.book_id)
}

/// The length of a stored operation with so many entries, in bytes.
pub open spec fn stored_length(entries: nat) -> nat {
    JOURNAL_HEADER_LEN as nat + JOURNAL_ENTRY_LEN as nat * entries
}

/// Whether the prepared operation lays the valid one out for the books in scope: each of its books
/// once, in some order, with the entries that go to it, and the length of them all.
pub open spec fn lays_out(
    prepared: PreparedOperation,
    valid: ValidOperation,
    scope: Map<BookId, InScopeBook>,
) -> bool {
    let ids = prepared_ids(prepared.per_book@);
    &&& prepared.idempotency_key == valid.idempotency_key
    &&& lists_keys(ids, valid.groups())
    &&& forall|i: int|
        0 <= i < prepared.per_book@.len() ==> (#[trigger] prepared.per_book@[i]).prepares(
            valid.groups()[ids[i]],
            scope[ids[i]],
        )
    &&& prepared.total_entry_count == entry_total(valid.groups(), ids)
    &&& prepared.record_length == stored_length(entry_total(valid.groups(), ids))
}

/// Lists the keys of a map, each once, in an order left open.
pub fn list_keys<V>(map: &HashMap<u64, V>) -> (keys: Vec<u64>)
    ensures
        lists_keys(keys@, map@),
{
    let mut keys: Vec<u64> = Vec::with_capacity(map.len());
    for key in it: map.keys()
        invariant
            keys@ == it.seq().unref().take(it.index()),
    {
        keys.push(*key);
        assert(keys@ =~= it.seq().unref().take(it.index() + 1));
    }
    proof {
        let listed = vstd::std_specs::iter::IteratorSpec::remaining(
            &vstd::std_specs::hash::spec_keys_iter(map),
        ).unref();
        assert(keys@ =~= listed);
        assert forall|key: u64| #[trigger] keys@.contains(key) <==> map@.contains_key(key) by {
            assert(listed.to_set().contains(key) <==> map@.dom().contains(key));
        }
    }
    keys
}

/// The sum of the amounts.
fn net_delta(entries: &Vec<PreProcessedEntry>) -> (total: i128)
    requires
        sums::running_sum_fits(0, view_amounts(entries_view(entries@))),
    ensures
        total == sums::sum(view_amounts(entries_view(entries@))),
{
    let ghost amounts = view_amounts(entries_view(entries@));
    let mut total: i128 = 0;
    let mut i: usize = 0;
    assert(amounts.take(0) =~= Seq::empty());
    while i < entries.len()
        invariant
            i <= entries@.len(),
            amounts == view_amounts(entries_view(entries@)),
            sums::running_sum_fits(0, amounts),
            total == sums::sum(amounts.take(i as int)),
        decreases entries@.len() - i,
    {
        proof {
            sums::lemma_sum_take(amounts, i as int);
            assert(sums::fits_i128(0 + sums::sum(amounts.take(i + 1))));
        }
        total = total + entries[i].amount;
        i = i + 1;
    }
    assert(amounts.take(i as int) =~= amounts);
    total
}

impl ValidOperation {
    /// Lays the operation out for the books in scope, in an order left open; names a book that is
    /// not in scope where there is one.
    pub fn into_prepared(self, books_in_scope: &HashMap<BookId, InScopeBook>) -> (prepared: Result<
        PreparedOperation,
        BookId,
    >)
        requires
            none_empty(self.groups()),
            deltas_fit(self.groups(), books_in_scope@),
            all_in_scope(self.groups(), books_in_scope@) ==> at_most_entries(self.groups(), 255),
        ensures
            match prepared {
                Ok(prepared) => {
                    &&& all_in_scope(self.groups(), books_in_scope@)
                    &&& lays_out(prepared, self, books_in_scope@)
                },
                Err(book) => self.groups().contains_key(book) && !books_in_scope@.contains_key(
                    book,
                ),
            },
    {
        let ghost groups = self.groups();
        let keys = list_keys(&self.entries_by_book);
        proof {
            assert forall|book: BookId| #[trigger] keys@.contains(book) <==> groups.contains_key(
                book,
            ) by {
                assert(groups.contains_key(book) == self.entries_by_book@.contains_key(book));
            }
        }
        let mut i: usize = 0;
        while i < keys.len()
            invariant
                i <= keys@.len(),
                groups == self.groups(),
                lists_keys(keys@, groups),
                forall|k: int| 0 <= k < i ==> books_in_scope@.contains_key(#[trigger] keys@[k]),
            decreases keys@.len() - i,
        {
            if !books_in_scope.contains_key(&keys[i]) {
                assert(keys@.contains(keys@[i as int]));
                return Err(keys[i]);
            }
            i = i + 1;
        }
        assert(all_in_scope(groups, books_in_scope@)) by {
            assert forall|book: BookId| #[trigger]
                groups.contains_key(book) implies books_in_scope@.contains_key(book) by {
                assert(keys@.contains(book));
                let k = choose|k: int| 0 <= k < keys@.len() && keys@[k] == book;
                assert(books_in_scope@.contains_key(keys@[k]));
            }
        }
        let mut entries_by_book = self.entries_by_book;
        let mut per_book: Vec<PreparedBook> = Vec::with_capacity(keys.len());
        let mut total_entries: usize = 0;
        let mut j: usize = 0;
        assert(keys@.take(0) =~= Seq::empty());
        assert forall|k: int| 0 <= k < keys@.len() implies entries_by_book@.contains_key(
            #[trigger] keys@[k],
        ) && entries_view(entries_by_book@[keys@[k]]@) == groups[keys@[k]] by {
            assert(keys@.contains(keys@[k]));
        }
        while j < keys.len()
            invariant
                j <= keys@.len(),
                groups == self.groups(),
                lists_keys(keys@, groups),
                none_empty(groups),
                deltas_fit(groups, books_in_scope@),
                all_in_scope(groups, books_in_scope@),
                at_most_entries(groups, 255),
                forall|k: int|
                    j <= k < keys@.len() ==> entries_by_book@.contains_key(#[trigger] keys@[k])
                        && entries_view(entries_by_book@[keys@[k]]@) == groups[keys@[k]],
                per_book@.len() == j,
                forall|k: int|
                    0 <= k < j ==> (#[trigger] per_book@[k]).book_id == keys@[k]
                        && per_book@[k].prepares(groups[keys@[k]], books_in_scope@[keys@[k]]),
                total_entries == entry_total(groups, keys@.take(j as int)),
                total_entries <= 255,
            decreases keys@.len() - j,
        {
            let book_id: BookId = keys[j];
            proof {
                assert(keys@.contains(keys@[j as int]));
                lemma_entry_total_take(groups, keys@, j as int);
                assert(keys@.take(j + 1).drop_last() =~= keys@.take(j as int));
                assert(groups.contains_key(book_id) && books_in_scope@.contains_key(book_id));
            }
            match (books_in_scope.get(&book_id), entries_by_book.remove(&book_id)) {
                (Some(in_scope), Some(group)) => {
                    let delta: i128 = net_delta(&group);
                    assert(entries_view(group@).len() == group@.len());
                    assert(group@[0]@ == groups[book_id][0]);
                    total_entries = total_entries + group.len();
                    per_book.push(
                        PreparedBook {
                            book_id,
                            account_id: in_scope.account_id,
                            currency: group[0].currency,
                            balance_type: group[0].balance_type,
                            allow_overdraft: in_scope.allow_overdraft,
                            net_delta: delta,
                            entries: group,
                        },
                    );
                },
                _ => {
                    assert(false);
                },
            }
            j = j + 1;
        }
        proof {
            assert(keys@.take(j as int) =~= keys@);
            assert(prepared_ids(per_book@) =~= keys@);
        }
        let record_length: u16 = (JOURNAL_HEADER_LEN + JOURNAL_ENTRY_LEN * total_entries) as u16;
        let total_entry_count: u8 = total_entries as u8;
        Ok(
            PreparedOperation {
                idempotency_key: self.idempotency_key,
                total_entry_count,
                record_length,
                per_book,
            },
        )
    }
}

/// Whether the amounts, taken one by one, sum up within 128 bits.
fn delta_fits(entries: &Vec<PreProcessedEntry>) -> (fits: bool)
    ensures
        fits == sums::running_sum_fits(0, view_amounts(entries_view(entries@))),
{
    let ghost amounts = view_amounts(entries_view(entries@));
    let mut total: i128 = 0;
    let mut i: usize = 0;
    assert(amounts.take(0) =~= Seq::empty());
    while i < entries.len()
        invariant
            i <= entries@.len(),
            amounts == view_amounts(entries_view(entries@)),
            total == sums::sum(amounts.take(i as int)),
            forall|n: int|
                0 <= n <= i ==> sums::fits_i128(0 + sums::sum(#[trigger] amounts.take(n))),
        decreases entries@.len() - i,
    {
        proof {
            sums::lemma_sum_take(amounts, i as int);
        }
        match total.checked_add(entries[i].amount) {
            Some(next) => {
                total = next;
            },
            None => {
                assert(!sums::fits_i128(0 + sums::sum(amounts.take(i + 1))));
                return false;
            },
        }
        i = i + 1;
    }
    true
}

impl ValidOperation {
    /// Whether the amounts of every book in scope, taken one by one, sum up within 128 bits.
    pub fn check_deltas_fit(&self, books_in_scope: &HashMap<BookId, InScopeBook>) -> (fit: bool)
        ensures
            fit == deltas_fit(self.groups(), books_in_scope@),
    {
        let keys = list_keys(&self.entries_by_book);
        let mut i: usize = 0;
        while i < keys.len()
            invariant
                i <= keys@.len(),
                lists_keys(keys@, self.entries_by_book@),
                forall|k: int|
                    0 <= k < i && books_in_scope@.contains_key(#[trigger] keys@[k])
                        ==> sums::running_sum_fits(0, view_amounts(self.groups()[keys@[k]])),
            decreases keys@.len() - i,
        {
            let book: BookId = keys[i];
            assert(keys@.contains(keys@[i as int]));
            if books_in_scope.contains_key(&book) {
                match self.entries_by_book.get(&book) {
                    Some(group) => {
                        assert(self.groups().contains_key(book));
                        assert(self.groups()[book] == entries_view(group@));
                        if !delta_fits(group) {
                            return false;
                        }
                    },
                    None => {
                        assert(false);
                    },
                }
            }
            i = i + 1;
        }
        assert forall|book: BookId| #[trigger]
            self.groups().contains_key(book) && books_in_scope@.contains_key(
                book,
            ) implies sums::running_sum_fits(0, view_amounts(self.groups()[book])) by {
            assert(keys@.contains(book));
            let k = choose|k: int| 0 <= k < keys@.len() && keys@[k] == book;
            assert(books_in_scope@.contains_key(keys@[k]));
        }
        true
    }
}

/// The first books listed have no more entries than all of them.
proof fn lemma_entry_total_take(
    groups: Map<BookId, Seq<PreProcessedView>>,
    keys: Seq<BookId>,
    i: int,
)
    requires
        0 <= i < keys.len(),
    ensures
        entry_total(groups, keys.take(i + 1)) == entry_total(groups, keys.take(i))
            + groups[keys[i]].len(),
        entry_total(groups, keys.take(i + 1)) <= entry_total(groups, keys),
    decreases keys.len(),
{
    assert(keys.take(i + 1).drop_last() =~= keys.take(i));
    if i + 1 < keys.len() {
        assert(keys.drop_last().take(i + 1) =~= keys.take(i + 1));
        lemma_entry_total_take(groups, keys.drop_last(), i);
    } else {
        assert(keys.take(i + 1) =~= keys);
    }
}

} // verus!
