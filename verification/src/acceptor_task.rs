//! An acceptor that takes every valid operation: it lays each one out for the journal and sums up
//! what it posts to each account.

use crate::accounts::{Account, AccountId, AccountView};
use crate::batch;
use crate::batch::{after_offer, after_quiet, capacity_of, take_batch, BatchStep, Event};
use crate::books::{BalanceType, BookId};
use crate::bytes;
use crate::bytes::{u128_to_le, u16_to_le, u32_to_le, u64_to_le, uuid_into_bytes};
use crate::currency::Currency;
use crate::journal;
use crate::journal::{push_all, JournalEntryBytes};
use crate::operation;
use crate::operation::{any_nonzero, check_entry, EntryFault, Operation, OperationEntry};
use crate::sums;
use crate::sums::WideSum;
use crate::vec_map;
use crate::vec_map::VecMap;
use std::collections::HashMap;
use vstd::prelude::*;

verus! {

broadcast use vstd::std_specs::hash::group_hash_axioms;

/// The length of a stored operation header, in bytes.
pub const HEADER_RECORD_LEN: u16 = 80;

/// The length of a stored entry, in bytes.
pub const ENTRY_RECORD_LEN: usize = 38;

/// An entry of a valid operation, with the book that it goes to and in the sign in which that book
/// keeps it.
#[derive(Clone, Copy, Debug, PartialEq, Eq)]
pub struct PreProcessedEntry {
    pub target_account_id: AccountId,
    pub target_book_id: BookId,
    pub amount: i128,
    pub ledger_code: [u8; 8],
    pub currency: Currency,
    pub balance_type: BalanceType,
}

/// What such an entry stands for.
#[verifier::ext_equal]
pub struct PreProcessedView {
    pub target_account_id: AccountId,
    pub target_book_id: BookId,
    pub amount: int,
    pub ledger_code: Seq<u8>,
    pub currency: Currency,
    pub balance_type: BalanceType,
}

impl View for PreProcessedEntry {
    type V = PreProcessedView;

    open spec fn view(&self) -> PreProcessedView {
        PreProcessedView {
            target_account_id: self.target_account_id,
            target_book_id: self.target_book_id,
            amount: self.amount as int,
            ledger_code: self.ledger_code@,
            currency: self.currency,
            balance_type: self.balance_type,
        }
    }
}

/// What entries stand for.
pub open spec fn entries_view(entries: Seq<PreProcessedEntry>) -> Seq<PreProcessedView> {
    entries.map_values(|entry: PreProcessedEntry| entry@)
}

/// A valid operation.
#[derive(Debug)]
pub struct ValidOperation {
    pub idempotency_key: u128,
    pub entries: Vec<PreProcessedEntry>,
}

/// Why a request is not valid.
#[derive(Clone, Copy, Debug, PartialEq, Eq, Structural)]
pub enum InvalidOperationError {
    AccountNotFound,
    ZeroAmountEntry,
    NonZeroSumEntries,
    LedgerCodeInvalid,
    BookNotFound,
}

impl InvalidOperationError {
    /// The error in words.
    pub fn message(&self) -> (text: String)
        ensures
            text@ == "Invalid operation structure"@,
    {
        "Invalid operation structure".to_string()
    }
}

/// Why an operation got no result.
#[derive(Clone, Copy, Debug, PartialEq, Eq, Structural)]
pub enum OperationError {
    AcceptorSystemFailure,
    WriterSystemFailure,
}

impl OperationError {
    /// The error in words.
    pub open spec fn words(self) -> Seq<char> {
        match self {
            OperationError::AcceptorSystemFailure => "acceptor is no longer running"@,
            OperationError::WriterSystemFailure => "writer is no longer running"@,
        }
    }

    /// The error in words.
    pub fn message(&self) -> (text: String)
        ensures
            text@ == self.words(),
    {
        match self {
            OperationError::AcceptorSystemFailure => "acceptor is no longer running".to_string(),
            OperationError::WriterSystemFailure => "writer is no longer running".to_string(),
        }
    }
}

/// Names a balance: the account, the currency and the balance type.
pub type BalanceKey = (AccountId, Currency, BalanceType);

/// Balances, each under its account, currency and balance type.
pub type Balances = VecMap<BalanceKey, i128>;

/// A balance of an account, with the currency and the balance type that it is kept in.
pub type Balance = (Currency, BalanceType, i128);

/// The result of an operation.
#[derive(Debug)]
pub enum OperationResult {
    /// Contains the resulting balances after the accepted operation: for each account that it posts
    /// to, the balance in the currency and the balance type of the first entry that it posts there
    Accepted(HashMap<AccountId, Balance>),
    /// Contains the account whose balance caused the rejection
    Rejected(AccountId),
}

/// The answer to an operation.
pub type Reply = Result<OperationResult, OperationError>;

/// What each account in scope stands for.
pub open spec fn scope_view(map: Map<AccountId, Account>) -> Map<AccountId, AccountView> {
    map.map_values(|account: Account| account@)
}

/// What the entries in one currency add to the books that they go to.
pub open spec fn booked_total(
    entries: Seq<OperationEntry>,
    accounts: Map<AccountId, AccountView>,
    currency: Currency,
) -> int
    decreases entries.len(),
{
    if entries.len() == 0 {
        0
    } else {
        booked_total(entries.drop_last(), accounts, currency) + if entries.last().currency
            == currency {
            operation::signed_amount(entries.last(), accounts[entries.last().account])
        } else {
            0
        }
    }
}

/// What is added to books is taken from books in every currency.
pub open spec fn sums_to_zero(
    entries: Seq<OperationEntry>,
    accounts: Map<AccountId, AccountView>,
) -> bool {
    forall|currency: Currency| #[trigger] booked_total(entries, accounts, currency) == 0
}

/// The error that a fault makes of a request.
pub open spec fn error_of(fault: EntryFault) -> InvalidOperationError {
    match fault {
        EntryFault::AccountNotFound => InvalidOperationError::AccountNotFound,
        EntryFault::BookNotFound => InvalidOperationError::BookNotFound,
        EntryFault::ZeroAmountEntry => InvalidOperationError::ZeroAmountEntry,
        EntryFault::LedgerCodeInvalid => InvalidOperationError::LedgerCodeInvalid,
    }
}

/// Why a request is not valid, if it is not.
pub open spec fn request_error(
    entries: Seq<OperationEntry>,
    accounts: Map<AccountId, AccountView>,
) -> Option<InvalidOperationError> {
    match operation::first_fault(entries, accounts) {
        Some(fault) => Some(error_of(fault)),
        None => if sums_to_zero(entries, accounts) {
            None
        } else {
            Some(InvalidOperationError::NonZeroSumEntries)
        },
    }
}

/// The entry in the form in which its book keeps it.
pub open spec fn preprocessed(
    entry: OperationEntry,
    accounts: Map<AccountId, AccountView>,
) -> PreProcessedView {
    PreProcessedView {
        target_account_id: entry.account,
        target_book_id: operation::target_book(entry, accounts),
        amount: operation::signed_amount(entry, accounts[entry.account]),
        ledger_code: operation::padded_code(entry.ledger_code@),
        currency: entry.currency,
        balance_type: entry.balance_type,
    }
}

/// The entries in the form in which their books keep them.
pub open spec fn all_preprocessed(
    entries: Seq<OperationEntry>,
    accounts: Map<AccountId, AccountView>,
) -> Seq<PreProcessedView> {
    entries.map_values(|entry: OperationEntry| preprocessed(entry, accounts))
}

/// Whether the amount of the entry at `i`, and the total of its currency up to and with it, can be
/// held in 128 bits.
pub open spec fn entry_amounts_fit(
    entries: Seq<OperationEntry>,
    accounts: Map<AccountId, AccountView>,
    i: int,
) -> bool {
    &&& sums::fits_i128(operation::signed_amount(entries[i], accounts[entries[i].account]))
    &&& sums::fits_i128(booked_total(entries.take(i + 1), accounts, entries[i].currency))
}

/// Whether every amount that validation computes, up to the first entry at fault, can be held in
/// 128 bits.
pub open spec fn amounts_fit(
    entries: Seq<OperationEntry>,
    accounts: Map<AccountId, AccountView>,
) -> bool {
    forall|i: int|
        0 <= i < entries.len() && operation::first_fault(
            #[trigger] entries.take(i + 1),
            accounts,
        ) is None ==> entry_amounts_fit(entries, accounts, i)
}

/// One more entry joins the total of its currency and no other's.
proof fn lemma_booked_total_take(
    entries: Seq<OperationEntry>,
    accounts: Map<AccountId, AccountView>,
    i: int,
    currency: Currency,
)
    requires
        0 <= i < entries.len(),
    ensures
        booked_total(entries.take(i + 1), accounts, currency) == booked_total(
            entries.take(i),
            accounts,
            currency,
        ) + if entries[i].currency == currency {
            operation::signed_amount(entries[i], accounts[entries[i].account])
        } else {
            0
        },
{
    assert(entries.take(i + 1).drop_last() =~= entries.take(i));
}

/// The error that a fault makes of a request.
fn fault_error(fault: EntryFault) -> (error: InvalidOperationError)
    ensures
        error == error_of(fault),
{
    match fault {
        EntryFault::AccountNotFound => InvalidOperationError::AccountNotFound,
        EntryFault::BookNotFound => InvalidOperationError::BookNotFound,
        EntryFault::ZeroAmountEntry => InvalidOperationError::ZeroAmountEntry,
        EntryFault::LedgerCodeInvalid => InvalidOperationError::LedgerCodeInvalid,
    }
}

impl ValidOperation {
    /// Validates a request on the accounts that it names.
    pub fn parse(op: Operation, accounts_in_scope: HashMap<AccountId, Account>) -> (parsed: Result<
        Self,
        InvalidOperationError,
    >)
        requires
            amounts_fit(op.entries@, scope_view(accounts_in_scope@)),
        ensures
            match parsed {
                Ok(valid) => {
                    &&& request_error(op.entries@, scope_view(accounts_in_scope@)) is None
                    &&& valid.idempotency_key == op.idempotency_key
                    &&& entries_view(valid.entries@) == all_preprocessed(
                        op.entries@,
                        scope_view(accounts_in_scope@),
                    )
                },
                Err(error) => request_error(op.entries@, scope_view(accounts_in_scope@)) == Some(
                    error,
                ),
            },
    {
        let ghost entries = op.entries@;
        let ghost view = scope_view(accounts_in_scope@);
        let mut totals: HashMap<Currency, i128> = HashMap::new();
        let mut preprocessed_entries: Vec<PreProcessedEntry> = Vec::with_capacity(
            op.entries.len(),
        );
        let mut i: usize = 0;
        while i < op.entries.len()
            invariant
                i <= op.entries@.len(),
                entries == op.entries@,
                view == scope_view(accounts_in_scope@),
                amounts_fit(entries, view),
                operation::first_fault(entries.take(i as int), view) is None,
                forall|c: Currency| #[trigger]
                    booked_total(entries.take(i as int), view, c) == if totals@.contains_key(c) {
                        totals@[c] as int
                    } else {
                        0
                    },
                preprocessed_entries@.len() == i,
                forall|k: int|
                    0 <= k < i ==> (#[trigger] preprocessed_entries@[k])@ == preprocessed(
                        entries[k],
                        view,
                    ),
            decreases op.entries@.len() - i,
        {
            let entry = &op.entries[i];
            proof {
                assert(entries.take(i + 1).drop_last() =~= entries.take(i as int));
                assert(view.contains_key(entry.account) == accounts_in_scope@.contains_key(
                    entry.account,
                ));
            }
            let account: &Account = match accounts_in_scope.get(&entry.account) {
                Some(account) => account,
                None => {
                    proof {
                        operation::lemma_first_fault_take(entries, view, i + 1);
                    }
                    return Err(InvalidOperationError::AccountNotFound);
                },
            };
            let (target_book_id, ledger_code) = match check_entry(entry, Some(account)) {
                Ok(checked) => checked,
                Err(fault) => {
                    proof {
                        operation::lemma_first_fault_take(entries, view, i + 1);
                    }
                    return Err(fault_error(fault));
                },
            };
            proof {
                assert(entry_amounts_fit(entries, view, i as int));
                assert forall|c: Currency| #[trigger]
                    booked_total(entries.take(i + 1), view, c) == booked_total(
                        entries.take(i as int),
                        view,
                        c,
                    ) + (if c == entry.currency {
                        operation::signed_amount(*entry, view[entry.account])
                    } else {
                        0
                    }) by {
                    lemma_booked_total_take(entries, view, i as int, c);
                }
            }
            let amount: i128 = if account.account_type != entry.op_type {
                -entry.amount
            } else {
                entry.amount
            };
            let before: i128 = match totals.get(&entry.currency) {
                Some(total) => *total,
                None => 0,
            };
            assert(before == booked_total(entries.take(i as int), view, entry.currency));
            totals.insert(entry.currency, before + amount);
            preprocessed_entries.push(
                PreProcessedEntry {
                    target_account_id: entry.account,
                    target_book_id,
                    amount,
                    ledger_code,
                    currency: entry.currency,
                    balance_type: entry.balance_type,
                },
            );
            assert(preprocessed_entries@[i as int]@ =~= preprocessed(*entry, view));
            i = i + 1;
        }
        assert(entries.take(i as int) =~= entries);
        if any_nonzero(&totals) {
            assert(!sums_to_zero(entries, view)) by {
                let c = choose|c: Currency| #[trigger]
                    totals@.contains_key(c) && totals@[c] != 0;
                assert(booked_total(entries, view, c) != 0);
            }
            Err(InvalidOperationError::NonZeroSumEntries)
        } else {
            assert(sums_to_zero(entries, view));
            assert(entries_view(preprocessed_entries@) =~= all_preprocessed(entries, view));
            Ok(
                ValidOperation {
                    idempotency_key: op.idempotency_key,
                    entries: preprocessed_entries,
                },
            )
        }
    }
}

/// Whether every amount that validating the request computes can be held in 128 bits.
pub fn check_amounts_fit(op: &Operation, accounts_in_scope: &HashMap<AccountId, Account>) -> (fit:
    bool)
    ensures
        fit == amounts_fit(op.entries@, scope_view(accounts_in_scope@)),
{
    let ghost entries = op.entries@;
    let ghost view = scope_view(accounts_in_scope@);
    let mut totals: HashMap<Currency, i128> = HashMap::new();
    let mut i: usize = 0;
    while i < op.entries.len()
        invariant
            i <= op.entries@.len(),
            entries == op.entries@,
            view == scope_view(accounts_in_scope@),
            operation::first_fault(entries.take(i as int), view) is None,
            forall|c: Currency| #[trigger]
                booked_total(entries.take(i as int), view, c) == if totals@.contains_key(c) {
                    totals@[c] as int
                } else {
                    0
                },
            forall|k: int|
                0 <= k < i && operation::first_fault(#[trigger] entries.take(k + 1), view) is None
                    ==> entry_amounts_fit(entries, view, k),
        decreases op.entries@.len() - i,
    {
        let entry = &op.entries[i];
        let account = accounts_in_scope.get(&entry.account);
        proof {
            assert(entries.take(i + 1).drop_last() =~= entries.take(i as int));
            assert(view.contains_key(entry.account) == accounts_in_scope@.contains_key(
                entry.account,
            ));
            assert forall|c: Currency| #[trigger]
                booked_total(entries.take(i + 1), view, c) == booked_total(
                    entries.take(i as int),
                    view,
                    c,
                ) + (if c == entry.currency {
                    operation::signed_amount(*entry, view[entry.account])
                } else {
                    0
                }) by {
                lemma_booked_total_take(entries, view, i as int, c);
            }
        }
        let opposite: bool = match (check_entry(entry, account), account) {
            (Ok(_), Some(account)) => account.account_type != entry.op_type,
            _ => {
                proof {
                    assert(operation::first_fault(entries.take(i + 1), view) is Some);
                    assert forall|k: int|
                        0 <= k < entries.len() && operation::first_fault(
                            #[trigger] entries.take(k + 1),
                            view,
                        ) is None implies entry_amounts_fit(entries, view, k) by {
                        if k >= i {
                            assert(entries.take(k + 1).take(i + 1) =~= entries.take(i + 1));
                            operation::lemma_first_fault_take(entries.take(k + 1), view, i + 1);
                        }
                    }
                }
                return true;
            },
        };
        assert(operation::first_fault(entries.take(i + 1), view) is None);
        if opposite && entry.amount == i128::MIN {
            assert(!entry_amounts_fit(entries, view, i as int));
            return false;
        }
        let amount: i128 = if opposite {
            -entry.amount
        } else {
            entry.amount
        };
        let before: i128 = match totals.get(&entry.currency) {
            Some(total) => *total,
            None => 0,
        };
        assert(before == booked_total(entries.take(i as int), view, entry.currency));
        match before.checked_add(amount) {
            Some(total) => {
                totals.insert(entry.currency, total);
            },
            None => {
                assert(!entry_amounts_fit(entries, view, i as int));
                return false;
            },
        }
        i = i + 1;
    }
    true
}

/// The header of one stored operation.
#[derive(Clone, Copy, Debug, PartialEq, Eq)]
pub struct HeaderRecord {
    pub record_length: [u8; 2],
    pub entry_count: u8,
    pub operation_id: [u8; 8],
    pub timestamp_ns: [u8; 16],
    pub idempotency_key: [u8; 16],
    pub checksum: [u8; 4],
    pub prev_hash: [u8; 32],
    pub _pad: u8,
}

/// What a stored header stands for.
#[verifier::ext_equal]
pub struct HeaderView {
    pub record_length: nat,
    pub entry_count: nat,
    pub operation_id: nat,
    pub timestamp_ns: nat,
    pub idempotency_key: nat,
    pub checksum: nat,
    pub prev_hash: Seq<u8>,
    pub pad: nat,
}

impl View for HeaderRecord {
    type V = HeaderView;

    open spec fn view(&self) -> HeaderView {
        HeaderView {
            record_length: bytes::le_value(self.record_length@),
            entry_count: self.entry_count as nat,
            operation_id: bytes::le_value(self.operation_id@),
            timestamp_ns: bytes::le_value(self.timestamp_ns@),
            idempotency_key: bytes::be_value(self.idempotency_key@),
            checksum: bytes::le_value(self.checksum@),
            prev_hash: self.prev_hash@,
            pad: self._pad as nat,
        }
    }
}

impl HeaderRecord {
    /// The stored form: the fields one behind the other.
    pub open spec fn encoded(self) -> Seq<u8> {
        self.record_length@ + seq![self.entry_count] + self.operation_id@ + self.timestamp_ns@
            + self.idempotency_key@ + self.checksum@ + self.prev_hash@ + seq![self._pad]
    }

    /// The header as it is stored.
    pub fn encode(&self) -> (bytes: Vec<u8>)
        ensures
            bytes@ == self.encoded(),
            bytes@.len() == HEADER_RECORD_LEN,
    {
        let mut bytes: Vec<u8> = Vec::with_capacity(HEADER_RECORD_LEN as usize);
        push_all(&mut bytes, self.record_length.as_slice());
        bytes.push(self.entry_count);
        push_all(&mut bytes, self.operation_id.as_slice());
        push_all(&mut bytes, self.timestamp_ns.as_slice());
        push_all(&mut bytes, self.idempotency_key.as_slice());
        push_all(&mut bytes, self.checksum.as_slice());
        push_all(&mut bytes, self.prev_hash.as_slice());
        bytes.push(self._pad);
        assert(bytes@ =~= self.encoded());
        bytes
    }
}

/// One stored entry.
pub type EntryRecord = JournalEntryBytes;

/// An operation on its way into the journal, with what its answer goes to.
#[derive(Debug)]
pub struct WriteCommand<R> {
    pub header: HeaderRecord,
    pub entries: Vec<EntryRecord>,
    /// The balances that the operation is answered with, one for each account that it posts to.
    pub ending_balances: HashMap<AccountId, Balance>,
    /// The balances that it posts to, as it found them.
    pub earlier_balances: Balances,
    pub response_tx: R,
}

/// Operations that go to the journal together.
pub type WriterBuffer<R> = Vec<WriteCommand<R>>;

impl<R> WriteCommand<R> {
    /// Gives the operation up for the reason stated.
    pub fn abort(self, reason: OperationError) -> (answer: (R, Reply))
        ensures
            answer.0 == self.response_tx,
            answer.1 == Err::<OperationResult, OperationError>(reason),
    {
        (self.response_tx, Err(reason))
    }

    /// Answers that the operation is in the journal.
    pub fn ack(self) -> (answer: (R, Reply))
        ensures
            answer.0 == self.response_tx,
            answer.1 == Ok::<OperationResult, OperationError>(
                OperationResult::Accepted(self.ending_balances),
            ),
    {
        (self.response_tx, Ok(OperationResult::Accepted(self.ending_balances)))
    }
}

/// Answers that the operations of a batch are in the journal, one after the other.
pub fn ack_batch<R>(batch: WriterBuffer<R>) -> (answers: Vec<(R, Reply)>)
    ensures
        answers@.len() == batch@.len(),
        forall|i: int|
            0 <= i < batch@.len() ==> (#[trigger] answers@[i]).0 == batch@[i].response_tx
                && answers@[i].1 == Ok::<OperationResult, OperationError>(
                OperationResult::Accepted(batch@[i].ending_balances),
            ),
{
    let ghost commands = batch@;
    let mut answers: Vec<(R, Reply)> = Vec::with_capacity(batch.len());
    for command in it: batch
        invariant
            it.seq() == commands,
            answers@.len() == it.index(),
            forall|i: int|
                0 <= i < it.index() ==> (#[trigger] answers@[i]).0 == commands[i].response_tx
                    && answers@[i].1 == Ok::<OperationResult, OperationError>(
                    OperationResult::Accepted(commands[i].ending_balances),
                ),
    {
        answers.push(command.ack());
    }
    answers
}

/// The entries that go to one account, in order.
pub open spec fn account_entries(entries: Seq<PreProcessedView>, account: AccountId) -> Seq<
    PreProcessedView,
>
    decreases entries.len(),
{
    if entries.len() == 0 {
        Seq::empty()
    } else {
        let before = account_entries(entries.drop_last(), account);
        if entries.last().target_account_id == account {
            before.push(entries.last())
        } else {
            before
        }
    }
}

/// What the entries add to the books of one account.
pub open spec fn account_total(entries: Seq<PreProcessedView>, account: AccountId) -> int {
    sums::sum(
        account_entries(entries, account).map_values(|entry: PreProcessedView| entry.amount),
    )
}

/// The balance that an entry is posted to.
pub open spec fn key_of(entry: PreProcessedView) -> BalanceKey {
    (entry.target_account_id, entry.currency, entry.balance_type)
}

/// The entries that are posted to one balance, in order.
pub open spec fn key_entries(entries: Seq<PreProcessedView>, key: BalanceKey) -> Seq<
    PreProcessedView,
>
    decreases entries.len(),
{
    if entries.len() == 0 {
        Seq::empty()
    } else {
        let before = key_entries(entries.drop_last(), key);
        if key_of(entries.last()) == key {
            before.push(entries.last())
        } else {
            before
        }
    }
}

/// What the entries add to one balance.
pub open spec fn key_total(entries: Seq<PreProcessedView>, key: BalanceKey) -> int {
    sums::sum(key_entries(entries, key).map_values(|entry: PreProcessedView| entry.amount))
}

/// A balance, which is zero as long as nothing was posted to it.
pub open spec fn balance_of(balances: Map<BalanceKey, i128>, key: BalanceKey) -> int {
    if balances.contains_key(key) {
        balances[key] as int
    } else {
        0
    }
}

/// The balances that entries are posted to, as they leave them: what each was and what they add to
/// it.
pub open spec fn resulting(
    balances: Map<BalanceKey, i128>,
    entries: Seq<PreProcessedView>,
) -> Map<BalanceKey, i128> {
    Map::new(
        |key: BalanceKey| key_entries(entries, key).len() > 0,
        |key: BalanceKey| (balance_of(balances, key) + key_total(entries, key)) as i128,
    )
}

/// The balances that entries are posted to, as they find them.
pub open spec fn earlier(
    balances: Map<BalanceKey, i128>,
    entries: Seq<PreProcessedView>,
) -> Map<BalanceKey, i128> {
    Map::new(
        |key: BalanceKey| key_entries(entries, key).len() > 0,
        |key: BalanceKey| balance_of(balances, key) as i128,
    )
}

/// For each account that entries go to, one of the balances: the one that the first of them is
/// posted to.
pub open spec fn reported(
    results: Map<BalanceKey, i128>,
    entries: Seq<PreProcessedView>,
) -> Map<AccountId, Balance> {
    Map::new(
        |account: AccountId| account_entries(entries, account).len() > 0,
        |account: AccountId|
            {
                let first = account_entries(entries, account)[0];
                (first.currency, first.balance_type, results[key_of(first)])
            },
    )
}

/// Whether the balances that entries are posted to can be held in 128 bits as they leave them.
pub open spec fn balances_fit(
    balances: Map<BalanceKey, i128>,
    entries: Seq<PreProcessedView>,
) -> bool {
    forall|key: BalanceKey|
        (#[trigger] key_entries(entries, key)).len() > 0 ==> sums::fits_i128(
            balance_of(balances, key) + key_total(entries, key),
        )
}

/// The most entries that the header of a stored operation can count.
pub const MAX_RECORDED_ENTRIES: usize = 255;

/// Whether an operation with these entries can be recorded: the header can count them, and the
/// resulting balances can be held.
pub open spec fn recordable(
    balances: Map<BalanceKey, i128>,
    entries: Seq<PreProcessedView>,
) -> bool {
    entries.len() <= MAX_RECORDED_ENTRIES && balances_fit(balances, entries)
}

/// The header under which an operation is stored; its own number, its checksum and the hash of the
/// record before it are not assigned yet.
pub open spec fn header_of(operation: ValidOperation, timestamp_ns: u128) -> HeaderView {
    HeaderView {
        record_length: HEADER_RECORD_LEN as nat + ENTRY_RECORD_LEN as nat
            * operation.entries@.len(),
        entry_count: operation.entries@.len(),
        operation_id: 0,
        timestamp_ns: timestamp_ns as nat,
        idempotency_key: operation.idempotency_key as nat,
        checksum: 0,
        prev_hash: journal::no_hash(),
        pad: 0,
    }
}

/// Whether the command carries the operation, taken at the time stated on the balances stated; the
/// books, pages and lines of its entries are not assigned yet.
pub open spec fn carries<R>(
    command: WriteCommand<R>,
    balances: Map<BalanceKey, i128>,
    operation: ValidOperation,
    timestamp_ns: u128,
    response_tx: R,
) -> bool {
    &&& command.header@ == header_of(operation, timestamp_ns)
    &&& command.entries@.len() == operation.entries@.len()
    &&& forall|i: int|
        0 <= i < operation.entries@.len() ==> (#[trigger] command.entries@[i])@
            == journal::unplaced_entry(
            0,
            operation.entries@[i].amount,
            operation.entries@[i].ledger_code@,
        )
    &&& command.ending_balances@ == reported(
        resulting(balances, entries_view(operation.entries@)),
        entries_view(operation.entries@),
    )
    &&& command.earlier_balances@ == earlier(balances, entries_view(operation.entries@))
    &&& command.response_tx == response_tx
}

/// Whether taking the command, with the batch gathered so far and the balances kept, leads to the
/// later batch and the later balances: the operation is last in the batch, and the balances that it
/// posts to, and no others, are as it leaves them.
pub open spec fn taken<R>(
    batch: Seq<WriteCommand<R>>,
    balances: Map<BalanceKey, i128>,
    command: AcceptorCommand<R>,
    timestamp_ns: u128,
    later_batch: Seq<WriteCommand<R>>,
    later_balances: Map<BalanceKey, i128>,
) -> bool {
    &&& later_batch.len() == batch.len() + 1
    &&& later_batch.drop_last() == batch
    &&& carries(
        later_batch.last(),
        balances,
        command.operations,
        timestamp_ns,
        command.response_tx,
    )
    &&& later_balances == balances.union_prefer_right(
        resulting(balances, entries_view(command.operations.entries@)),
    )
}

/// The balances without the operations of a batch, the latest taken back first: what each of them
/// posted to is as it found it.
pub open spec fn undone_batch<R>(
    balances: Map<BalanceKey, i128>,
    batch: Seq<WriteCommand<R>>,
) -> Map<BalanceKey, i128>
    decreases batch.len(),
{
    if batch.len() == 0 {
        balances
    } else {
        undone_batch(
            balances.union_prefer_right(batch.last().earlier_balances@),
            batch.drop_last(),
        )
    }
}

/// One more entry joins the entries of its balance and no other's, and adds its amount to that
/// balance.
proof fn lemma_key_take(entries: Seq<PreProcessedView>, i: int, key: BalanceKey)
    requires
        0 <= i < entries.len(),
    ensures
        key_entries(entries.take(i + 1), key) == if key_of(entries[i]) == key {
            key_entries(entries.take(i), key).push(entries[i])
        } else {
            key_entries(entries.take(i), key)
        },
        key_total(entries.take(i + 1), key) == key_total(entries.take(i), key) + if key_of(
            entries[i],
        ) == key {
            entries[i].amount
        } else {
            0
        },
{
    assert(entries.take(i + 1).drop_last() =~= entries.take(i));
    let before = key_entries(entries.take(i), key);
    let amounts = before.map_values(|entry: PreProcessedView| entry.amount);
    if key_of(entries[i]) == key {
        let after = before.push(entries[i]).map_values(|entry: PreProcessedView| entry.amount);
        assert(after =~= amounts.push(entries[i].amount));
        assert(after.drop_last() =~= amounts);
    }
}

/// Each entry is among those of the balance that it is posted to.
proof fn lemma_key_has_entry(entries: Seq<PreProcessedView>, i: int)
    requires
        0 <= i < entries.len(),
    ensures
        key_entries(entries, key_of(entries[i])).len() > 0,
    decreases entries.len(),
{
    if i < entries.len() - 1 {
        assert(entries.drop_last()[i] == entries[i]);
        lemma_key_has_entry(entries.drop_last(), i);
    }
}

/// One more entry joins the entries of its account and no other's.
proof fn lemma_account_take(entries: Seq<PreProcessedView>, i: int, account: AccountId)
    requires
        0 <= i < entries.len(),
    ensures
        account_entries(entries.take(i + 1), account) == if entries[i].target_account_id
            == account {
            account_entries(entries.take(i), account).push(entries[i])
        } else {
            account_entries(entries.take(i), account)
        },
{
    assert(entries.take(i + 1).drop_last() =~= entries.take(i));
}

/// The entries of an account are among the entries.
proof fn lemma_account_entry(entries: Seq<PreProcessedView>, account: AccountId, k: int) -> (i: int)
    requires
        0 <= k < account_entries(entries, account).len(),
    ensures
        0 <= i < entries.len(),
        entries[i] == account_entries(entries, account)[k],
        entries[i].target_account_id == account,
    decreases entries.len(),
{
    let front = entries.drop_last();
    if k < account_entries(front, account).len() {
        lemma_account_entry(front, account, k)
    } else {
        entries.len() - 1
    }
}

/// What the entries leave on each balance that they are posted to, however far it goes on the way.
spec fn sums_so_far(
    running: Map<BalanceKey, WideSum>,
    balances: Map<BalanceKey, i128>,
    entries: Seq<PreProcessedView>,
) -> bool {
    forall|key: BalanceKey|
        #![trigger running.contains_key(key)]
        #![trigger key_entries(entries, key)]
        {
            &&& running.contains_key(key) <==> key_entries(entries, key).len() > 0
            &&& running.contains_key(key) ==> {
                &&& running[key].value() == balance_of(balances, key) + key_total(entries, key)
                &&& -(entries.len() as int) <= running[key].high <= entries.len()
            }
        }
}

/// Sums up, for each balance that entries are posted to, what it was and what they add to it.
fn sum_up(balances: &Balances, entries: &Vec<PreProcessedEntry>) -> (running: VecMap<
    BalanceKey,
    WideSum,
>)
    requires
        entries@.len() <= MAX_RECORDED_ENTRIES,
    ensures
        sums_so_far(running@, balances@, entries_view(entries@)),
{
    let ghost view = entries_view(entries@);
    let mut running: VecMap<BalanceKey, WideSum> = VecMap::new();
    let mut i: usize = 0;
    while i < entries.len()
        invariant
            i <= entries@.len() <= MAX_RECORDED_ENTRIES,
            view == entries_view(entries@),
            sums_so_far(running@, balances@, view.take(i as int)),
        decreases entries@.len() - i,
    {
        let entry = &entries[i];
        let key: BalanceKey = (entry.target_account_id, entry.currency, entry.balance_type);
        let ghost before = running@;
        let ghost done = view.take(i as int);
        proof {
            assert(view[i as int] == entry@);
            assert(before.contains_key(key) <==> key_entries(done, key).len() > 0);
            if !before.contains_key(key) {
                assert(key_entries(done, key) =~= Seq::empty());
                assert(key_total(done, key) == 0);
            }
        }
        let mut sum: WideSum = match running.get(&key) {
            Some(sum) => *sum,
            None => match balances.get(&key) {
                Some(balance) => WideSum::start(*balance),
                None => WideSum::start(0),
            },
        };
        sum.take_in(entry.amount);
        running.insert(key, sum);
        proof {
            let next = view.take(i + 1);
            assert forall|k: BalanceKey|
                #![trigger running@.contains_key(k)]
                #![trigger key_entries(next, k)]
                {
                    &&& running@.contains_key(k) <==> key_entries(next, k).len() > 0
                    &&& running@.contains_key(k) ==> {
                        &&& running@[k].value() == balance_of(balances@, k) + key_total(next, k)
                        &&& -(next.len() as int) <= running@[k].high <= next.len()
                    }
                } by {
                lemma_key_take(view, i as int, k);
                assert(before.contains_key(k) <==> key_entries(done, k).len() > 0);
            }
        }
        i = i + 1;
    }
    assert(view.take(i as int) =~= view);
    running
}

/// The balances that entries are posted to, as they leave them, if they can be held in 128 bits.
fn resulting_balances(balances: &Balances, entries: &Vec<PreProcessedEntry>) -> (results: Option<
    Balances,
>)
    requires
        entries@.len() <= MAX_RECORDED_ENTRIES,
    ensures
        match results {
            Some(results) => {
                &&& balances_fit(balances@, entries_view(entries@))
                &&& results@ == resulting(balances@, entries_view(entries@))
            },
            None => !balances_fit(balances@, entries_view(entries@)),
        },
{
    let ghost view = entries_view(entries@);
    let running = sum_up(balances, entries);
    let ghost listed = running.entries@;
    let mut results: Balances = VecMap::new();
    let mut i: usize = 0;
    while i < running.entries.len()
        invariant
            i <= running.entries@.len(),
            listed == running.entries@,
            view == entries_view(entries@),
            sums_so_far(running@, balances@, view),
            forall|k: BalanceKey| #[trigger]
                results@.contains_key(k) <==> vec_map::has_key(listed.take(i as int), k),
            forall|k: BalanceKey| #[trigger]
                results@.contains_key(k) ==> results@[k] == resulting(balances@, view)[k]
                    && sums::fits_i128(balance_of(balances@, k) + key_total(view, k)),
        decreases running.entries@.len() - i,
    {
        let key: BalanceKey = running.entries[i].0;
        let ghost before = results@;
        proof {
            assert(listed[i as int].0 == key);
            assert(running@.contains_key(key));
            assert(key_entries(view, key).len() > 0);
        }
        match running.get(&key) {
            Some(sum) => match sum.total() {
                Some(total) => {
                    results.insert(key, total);
                },
                None => {
                    assert(!balances_fit(balances@, view));
                    return None;
                },
            },
            None => {
                assert(false);
            },
        }
        proof {
            assert forall|k: BalanceKey| #[trigger]
                results@.contains_key(k) <==> vec_map::has_key(listed.take(i + 1), k) by {
                vec_map::lemma_take_has_key(listed, i as int, k);
                assert(before.contains_key(k) <==> vec_map::has_key(listed.take(i as int), k));
            }
            assert forall|k: BalanceKey| #[trigger] results@.contains_key(k) implies results@[k]
                == resulting(balances@, view)[k] && sums::fits_i128(
                balance_of(balances@, k) + key_total(view, k),
            ) by {
                if k != key {
                    assert(before.contains_key(k));
                }
            }
        }
        i = i + 1;
    }
    proof {
        assert(listed.take(i as int) =~= listed);
        assert forall|k: BalanceKey|
            (#[trigger] key_entries(view, k)).len() > 0 implies results@.contains_key(k) by {
            assert(running@.contains_key(k));
        }
        assert forall|k: BalanceKey| #[trigger] results@.contains_key(k) implies key_entries(
            view,
            k,
        ).len() > 0 by {
            assert(running@.contains_key(k));
        }
        assert(results@ =~= resulting(balances@, view));
    }
    Some(results)
}

/// Whether an operation with these entries can be recorded on the balances stated.
pub fn can_record(balances: &Balances, entries: &Vec<PreProcessedEntry>) -> (can: bool)
    ensures
        can == recordable(balances@, entries_view(entries@)),
{
    entries.len() <= MAX_RECORDED_ENTRIES && resulting_balances(balances, entries).is_some()
}

/// For each account that entries go to, the balance that the first of them is posted to.
fn report(results: &Balances, entries: &Vec<PreProcessedEntry>) -> (report: HashMap<
    AccountId,
    Balance,
>)
    requires
        forall|key: BalanceKey|
            (#[trigger] key_entries(entries_view(entries@), key)).len() > 0
                ==> results@.contains_key(key),
    ensures
        report@ == reported(results@, entries_view(entries@)),
{
    let ghost view = entries_view(entries@);
    let mut report: HashMap<AccountId, Balance> = HashMap::new();
    let mut i: usize = 0;
    assert(report@ =~= reported(results@, view.take(0)));
    while i < entries.len()
        invariant
            i <= entries@.len(),
            view == entries_view(entries@),
            forall|key: BalanceKey|
                (#[trigger] key_entries(view, key)).len() > 0 ==> results@.contains_key(key),
            report@ == reported(results@, view.take(i as int)),
        decreases entries@.len() - i,
    {
        let entry = &entries[i];
        let account: AccountId = entry.target_account_id;
        let ghost before = report@;
        let ghost done = view.take(i as int);
        let ghost next = view.take(i + 1);
        proof {
            assert(view[i as int] == entry@);
            lemma_key_has_entry(view, i as int);
            assert(before.contains_key(account) <==> account_entries(done, account).len() > 0);
            assert forall|a: AccountId| #[trigger] account_entries(next, a) == (if a == account {
                account_entries(done, a).push(view[i as int])
            } else {
                account_entries(done, a)
            }) by {
                lemma_account_take(view, i as int, a);
            }
        }
        if !report.contains_key(&account) {
            let key: BalanceKey = (account, entry.currency, entry.balance_type);
            match results.get(&key) {
                Some(balance) => {
                    report.insert(account, (entry.currency, entry.balance_type, *balance));
                },
                None => {
                    assert(false);
                },
            }
            assert(account_entries(next, account)[0] == view[i as int]);
        } else {
            assert(account_entries(next, account)[0] == account_entries(done, account)[0]);
        }
        assert(report@ =~= reported(results@, next));
        i = i + 1;
    }
    assert(view.take(i as int) =~= view);
    report
}

/// The balances under the keys of the results, as they are before the results take their place.
fn balances_before(balances: &Balances, results: &Balances) -> (before: Balances)
    ensures
        before@ == Map::new(
            |key: BalanceKey| results@.contains_key(key),
            |key: BalanceKey| balance_of(balances@, key) as i128,
        ),
{
    let ghost listed = results.entries@;
    let mut before: Balances = VecMap::new();
    let mut i: usize = 0;
    while i < results.entries.len()
        invariant
            i <= results.entries@.len(),
            listed == results.entries@,
            forall|k: BalanceKey| #[trigger]
                before@.contains_key(k) <==> vec_map::has_key(listed.take(i as int), k),
            forall|k: BalanceKey| #[trigger]
                before@.contains_key(k) ==> before@[k] == balance_of(balances@, k),
        decreases results.entries@.len() - i,
    {
        let key: BalanceKey = results.entries[i].0;
        let ghost prior = before@;
        let balance: i128 = match balances.get(&key) {
            Some(balance) => *balance,
            None => 0,
        };
        before.insert(key, balance);
        assert forall|k: BalanceKey| #[trigger]
            before@.contains_key(k) <==> vec_map::has_key(listed.take(i + 1), k) by {
            vec_map::lemma_take_has_key(listed, i as int, k);
            assert(prior.contains_key(k) <==> vec_map::has_key(listed.take(i as int), k));
        }
        i = i + 1;
    }
    proof {
        assert(listed.take(i as int) =~= listed);
        assert(before@ =~= Map::new(
            |key: BalanceKey| results@.contains_key(key),
            |key: BalanceKey| balance_of(balances@, key) as i128,
        ));
    }
    before
}

/// Puts balances in place of those under the same keys.
fn overwrite(balances: &mut Balances, with: &Balances)
    ensures
        final(balances)@ == old(balances)@.union_prefer_right(with@),
{
    let ghost start = balances@;
    let ghost listed = with.entries@;
    let mut i: usize = 0;
    while i < with.entries.len()
        invariant
            i <= with.entries@.len(),
            listed == with.entries@,
            forall|k: BalanceKey| #[trigger]
                balances@.contains_key(k) <==> start.contains_key(k) || vec_map::has_key(
                    listed.take(i as int),
                    k,
                ),
            forall|k: BalanceKey| #[trigger]
                balances@.contains_key(k) ==> balances@[k] == if vec_map::has_key(
                    listed.take(i as int),
                    k,
                ) {
                    with@[k]
                } else {
                    start[k]
                },
        decreases with.entries@.len() - i,
    {
        let key: BalanceKey = with.entries[i].0;
        proof {
            assert(listed[i as int].0 == key);
            assert(with@.contains_key(key));
            assert forall|k: BalanceKey| #[trigger]
                vec_map::has_key(listed.take(i + 1), k) <==> vec_map::has_key(
                    listed.take(i as int),
                    k,
                ) || k == key by {
                vec_map::lemma_take_has_key(listed, i as int, k);
            }
        }
        match with.get(&key) {
            Some(balance) => {
                balances.insert(key, *balance);
            },
            None => {
                assert(false);
            },
        }
        i = i + 1;
    }
    assert(listed.take(i as int) =~= listed);
    assert(balances@ =~= start.union_prefer_right(with@));
}

/// Takes the operations of a batch back out of the balances, the latest first.
fn undo_batch<R>(balances: &mut Balances, batch: &WriterBuffer<R>)
    ensures
        final(balances)@ == undone_batch(old(balances)@, batch@),
{
    let ghost start = balances@;
    let mut left: usize = batch.len();
    assert(batch@.take(left as int) =~= batch@);
    while left > 0
        invariant
            left <= batch@.len(),
            undone_batch(balances@, batch@.take(left as int)) == undone_batch(start, batch@),
        decreases left,
    {
        assert(batch@.take(left as int).drop_last() =~= batch@.take(left - 1));
        left = left - 1;
        overwrite(balances, &batch[left].earlier_balances);
    }
}

/// An operation handed to the acceptor, with what its answer goes to.
#[derive(Debug)]
pub struct AcceptorCommand<R> {
    pub operations: ValidOperation,
    pub response_tx: R,
}

impl<R> AcceptorCommand<R> {
    /// Turns the operation away because the journal cannot be reached.
    pub fn abort(self) -> (answer: (R, Reply))
        ensures
            answer.0 == self.response_tx,
            answer.1 == Err::<OperationResult, OperationError>(OperationError::WriterSystemFailure),
    {
        (self.response_tx, Err(OperationError::WriterSystemFailure))
    }
}

/// Takes operations, keeps the balances that they post to, and gathers them for the journal.
#[derive(Debug)]
pub struct Acceptor<R> {
    pub buffer: WriterBuffer<R>,
    /// How many operations a batch holds: the buffer goes out when it has gathered as many.
    pub room: usize,
    pub balances: Balances,
}

/// The batch and the balances to which an event leads. A command is taken, and the batch that it
/// joins goes out whole as soon as it fills the room for it; any other event leaves the balances as
/// they are. The room stays as it is, unless the batch has outgrown it.
pub open spec fn stepped<R>(
    buffer: Seq<WriteCommand<R>>,
    room: usize,
    balances: Map<BalanceKey, i128>,
    event: Event<AcceptorCommand<R>>,
    timestamp_ns: u128,
    later_buffer: Seq<WriteCommand<R>>,
    later_room: usize,
    later_balances: Map<BalanceKey, i128>,
    step: BatchStep<WriteCommand<R>>,
) -> bool {
    match event {
        Event::Received(command) => {
            let gathered = match step.flush {
                Some(batch) => batch@,
                None => later_buffer,
            };
            &&& taken(buffer, balances, command, timestamp_ns, gathered, later_balances)
            &&& gathered.len() <= room ==> later_room == room
            &&& gathered.len() > room ==> later_room >= gathered.len()
            &&& step.flush is Some <==> gathered.len() == later_room
            &&& step.flush is Some ==> later_buffer.len() == 0
            &&& step.restart_timer == (buffer.len() == 0)
            &&& !step.stop
        },
        _ => {
            &&& later_balances == balances
            &&& later_room == room
            &&& batch::follows_quiet(buffer, event, step, later_buffer)
        },
    }
}

impl<R> Acceptor<R> {
    /// An acceptor that has gathered nothing, with room for a batch of the size stated; nothing
    /// was posted yet.
    pub fn new(buffer_capacity: usize) -> (acceptor: Acceptor<R>)
        ensures
            acceptor.buffer@.len() == 0,
            acceptor.room == buffer_capacity,
            acceptor.balances@ == Map::<BalanceKey, i128>::empty(),
    {
        Acceptor {
            buffer: Vec::with_capacity(buffer_capacity),
            room: buffer_capacity,
            balances: VecMap::new(),
        }
    }

    /// Takes an operation: the balances that it posts to are as it leaves them from now on, and it
    /// joins the batch for the journal, which answers it with them.
    pub fn handle(&mut self, command: AcceptorCommand<R>, timestamp_ns: u128)
        requires
            recordable(old(self).balances@, entries_view(command.operations.entries@)),
        ensures
            taken(
                old(self).buffer@,
                old(self).balances@,
                command,
                timestamp_ns,
                final(self).buffer@,
                final(self).balances@,
            ),
            final(self).room == old(self).room,
            forall|account: AccountId|
                account_entries(entries_view(command.operations.entries@), account).len() > 0 ==> {
                    let entries = entries_view(command.operations.entries@);
                    let key = key_of(account_entries(entries, account)[0]);
                    let balance = #[trigger] final(self).buffer@.last().ending_balances@[account];
                    &&& balance.0 == key.1
                    &&& balance.1 == key.2
                    &&& balance.2 == balance_of(old(self).balances@, key) + key_total(entries, key)
                },
    {
        let operations = command.operations;
        let ghost view = entries_view(operations.entries@);
        let count = operations.entries.len();
        let mut entries: Vec<EntryRecord> = Vec::with_capacity(count);
        let mut i: usize = 0;
        while i < count
            invariant
                i <= count == operations.entries@.len(),
                entries@.len() == i,
                forall|k: int|
                    0 <= k < i ==> (#[trigger] entries@[k])@ == journal::unplaced_entry(
                        0,
                        operations.entries@[k].amount,
                        operations.entries@[k].ledger_code@,
                    ),
            decreases count - i,
        {
            let entry = &operations.entries[i];
            entries.push(EntryRecord::unplaced(0, entry.amount, entry.ledger_code));
            i = i + 1;
        }
        let results = match resulting_balances(&self.balances, &operations.entries) {
            Some(results) => results,
            None => {
                assert(false);
                VecMap::new()
            },
        };
        let ending_balances = report(&results, &operations.entries);
        let earlier_balances = balances_before(&self.balances, &results);
        assert(earlier_balances@ =~= earlier(self.balances@, view));
        overwrite(&mut self.balances, &results);
        assert forall|account: AccountId|
            account_entries(view, account).len() > 0 implies #[trigger] ending_balances@[account].2
            == balance_of(old(self).balances@, key_of(account_entries(view, account)[0]))
            + key_total(view, key_of(account_entries(view, account)[0])) by {
            let i = lemma_account_entry(view, account, 0);
            lemma_key_has_entry(view, i);
        }
        let entry_count: u8 = count as u8;
        let record_length: u16 = HEADER_RECORD_LEN + (ENTRY_RECORD_LEN * count) as u16;
        let prev_hash: [u8; 32] = [0u8; 32];
        assert(prev_hash@ =~= journal::no_hash());
        let header = HeaderRecord {
            record_length: u16_to_le(record_length),
            entry_count,
            operation_id: u64_to_le(0),
            timestamp_ns: u128_to_le(timestamp_ns),
            idempotency_key: uuid_into_bytes(operations.idempotency_key),
            checksum: u32_to_le(0),
            prev_hash,
            _pad: 0,
        };
        self.buffer.push(
            WriteCommand {
                header,
                entries,
                ending_balances,
                earlier_balances,
                response_tx: command.response_tx,
            },
        );
        assert(self.buffer@.drop_last() =~= old(self).buffer@);
    }

    /// Whether the end of the wait for a timed flush matters.
    pub fn timer_armed(&self) -> (armed: bool)
        ensures
            armed == (self.buffer@.len() > 0),
    {
        !self.buffer.is_empty()
    }

    /// Takes one event. A batch that has outgrown its room, as the first operation outgrows none at
    /// all, gets the room that the allocator gave the buffer.
    pub fn step(&mut self, event: Event<AcceptorCommand<R>>, timestamp_ns: u128) -> (step:
        BatchStep<WriteCommand<R>>)
        requires
            event matches Event::Received(command) ==> recordable(
                old(self).balances@,
                entries_view(command.operations.entries@),
            ),
        ensures
            stepped(
                old(self).buffer@,
                old(self).room,
                old(self).balances@,
                event,
                timestamp_ns,
                final(self).buffer@,
                final(self).room,
                final(self).balances@,
                step,
            ),
    {
        match event {
            Event::Received(command) => {
                let was_empty = self.buffer.is_empty();
                self.handle(command, timestamp_ns);
                if self.buffer.len() > self.room {
                    self.room = capacity_of(&self.buffer);
                }
                let capacity = self.room;
                after_offer(&mut self.buffer, was_empty, capacity)
            },
            quiet => after_quiet(&mut self.buffer, &quiet),
        }
    }

    /// Turns everything away once the journal cannot be reached: first the operations that came in
    /// and were not taken, then those gathered since the batch that could not be handed over went
    /// out. The operations of that batch itself are dropped without an answer. Neither they nor
    /// those turned away count in the balances any longer.
    pub fn fail_flush(
        &mut self,
        in_flight: Vec<AcceptorCommand<R>>,
        failed: WriterBuffer<R>,
    ) -> (answers: Vec<(R, Reply)>)
        ensures
            final(self).buffer@.len() == 0,
            final(self).room == old(self).room,
            final(self).balances@ == undone_batch(
                undone_batch(old(self).balances@, old(self).buffer@),
                failed@,
            ),
            answers@.len() == in_flight@.len() + old(self).buffer@.len(),
            forall|i: int|
                0 <= i < answers@.len() ==> (#[trigger] answers@[i]).1 == Err::<
                    OperationResult,
                    OperationError,
                >(OperationError::WriterSystemFailure),
            forall|i: int|
                0 <= i < in_flight@.len() ==> (#[trigger] answers@[i]).0
                    == in_flight@[i].response_tx,
            forall|i: int|
                0 <= i < old(self).buffer@.len() ==> (#[trigger] answers@[in_flight@.len()
                    + i]).0 == old(self).buffer@[i].response_tx,
    {
        let ghost commands = in_flight@;
        let ghost gathered = self.buffer@;
        let mut answers: Vec<(R, Reply)> = Vec::with_capacity(in_flight.len());
        for command in it: in_flight
            invariant
                it.seq() == commands,
                answers@.len() == it.index(),
                forall|i: int|
                    0 <= i < it.index() ==> (#[trigger] answers@[i]).0 == commands[i].response_tx
                        && answers@[i].1 == Err::<OperationResult, OperationError>(
                        OperationError::WriterSystemFailure,
                    ),
        {
            answers.push(command.abort());
        }
        let batch = take_batch(&mut self.buffer);
        undo_batch(&mut self.balances, &batch);
        undo_batch(&mut self.balances, &failed);
        for pending in it: batch
            invariant
                it.seq() == gathered,
                answers@.len() == commands.len() + it.index(),
                forall|i: int|
                    0 <= i < answers@.len() ==> (#[trigger] answers@[i]).1 == Err::<
                        OperationResult,
                        OperationError,
                    >(OperationError::WriterSystemFailure),
                forall|i: int|
                    0 <= i < commands.len() ==> (#[trigger] answers@[i]).0
                        == commands[i].response_tx,
                forall|i: int|
                    0 <= i < it.index() ==> (#[trigger] answers@[commands.len() + i]).0
                        == gathered[i].response_tx,
        {
            answers.push(pending.abort(OperationError::WriterSystemFailure));
        }
        answers
    }
}

} // verus!
