//! What the acceptor that takes every valid operation does, told by entries, accounts and bytes.

use crate::acceptor_task;
use crate::acceptor_task::{
    AcceptorCommand, BalanceKey, InvalidOperationError, PreProcessedEntry, PreProcessedView,
    ValidOperation, WriteCommand,
};
use crate::accounts::{Account, AccountId};
use crate::batch::{BatchStep, Event};
use crate::bytes;
use crate::currency::Currency;
use crate::laws::request;
use crate::operation;
use crate::operation::OperationEntry;
use vstd::prelude::*;

verus! {

/// Whether the account that an entry names is known and has a book for it.
pub open spec fn has_book(entry: OperationEntry, scope: Map<AccountId, Account>) -> bool {
    &&& scope.contains_key(entry.account)
    &&& scope[entry.account].books@.contains_key((entry.currency, entry.balance_type))
}

/// Whether nothing is wrong with an entry.
pub open spec fn sound(entry: OperationEntry, scope: Map<AccountId, Account>) -> bool {
    has_book(entry, scope) && entry.amount != 0 && request::short_ascii(entry.ledger_code@)
}

/// Whether nothing is wrong with any entry.
pub open spec fn all_sound(entries: Seq<OperationEntry>, scope: Map<AccountId, Account>) -> bool {
    forall|i: int| 0 <= i < entries.len() ==> sound(#[trigger] entries[i], scope)
}

/// What an entry adds to its book: its amount where it stands on the side of the account's nature,
/// and the opposite otherwise.
pub open spec fn added(entry: OperationEntry, scope: Map<AccountId, Account>) -> int {
    if entry.op_type == scope[entry.account].account_type {
        entry.amount as int
    } else {
        0 - entry.amount
    }
}

/// What the entries in one currency add to their books.
pub open spec fn added_total(
    entries: Seq<OperationEntry>,
    scope: Map<AccountId, Account>,
    currency: Currency,
) -> int
    decreases entries.len(),
{
    if entries.len() == 0 {
        0
    } else {
        added_total(entries.drop_last(), scope, currency) + if entries.last().currency == currency {
            added(entries.last(), scope)
        } else {
            0
        }
    }
}

/// An entry is at no fault exactly if nothing is wrong with it.
proof fn lemma_sound(entry: OperationEntry, scope: Map<AccountId, Account>)
    ensures
        operation::entry_fault(entry, acceptor_task::scope_view(scope).get(entry.account)) is None
            <==> sound(entry, scope),
        operation::entry_fault(entry, acceptor_task::scope_view(scope).get(entry.account)) == if
            !scope.contains_key(entry.account) {
            Some(operation::EntryFault::AccountNotFound)
        } else if !has_book(entry, scope) {
            Some(operation::EntryFault::BookNotFound)
        } else if entry.amount == 0 {
            Some(operation::EntryFault::ZeroAmountEntry)
        } else if !request::short_ascii(entry.ledger_code@) {
            Some(operation::EntryFault::LedgerCodeInvalid)
        } else {
            None
        },
        scope.contains_key(entry.account) ==> operation::signed_amount(
            entry,
            acceptor_task::scope_view(scope)[entry.account],
        ) == added(entry, scope),
{
    let code = entry.ledger_code@;
    assert(vstd::utf8::is_ascii_chars(code) <==> forall|i: int|
        0 <= i < code.len() ==> '\0' <= #[trigger] code[i] <= '\u{7f}');
}

/// No entry is at fault exactly if nothing is wrong with any, and then the entries come to what they
/// add.
proof fn lemma_all_sound(
    entries: Seq<OperationEntry>,
    scope: Map<AccountId, Account>,
    currency: Currency,
)
    ensures
        operation::first_fault(entries, acceptor_task::scope_view(scope)) is None <==> all_sound(
            entries,
            scope,
        ),
        all_sound(entries, scope) ==> acceptor_task::booked_total(
            entries,
            acceptor_task::scope_view(scope),
            currency,
        ) == added_total(entries, scope, currency),
    decreases entries.len(),
{
    if entries.len() > 0 {
        let front = entries.drop_last();
        let n = entries.len() - 1;
        lemma_all_sound(front, scope, currency);
        lemma_sound(entries.last(), scope);
        if all_sound(entries, scope) {
            assert forall|i: int| 0 <= i < front.len() implies sound(#[trigger] front[i], scope) by {
                assert(front[i] == entries[i]);
            }
            assert(sound(entries[n], scope));
        }
        if all_sound(front, scope) && sound(entries.last(), scope) {
            assert forall|i: int| 0 <= i < entries.len() implies sound(
                #[trigger] entries[i],
                scope,
            ) by {
                if i < n {
                    assert(sound(front[i], scope));
                }
            }
        }
    }
}

/// A request is valid exactly if nothing is wrong with any entry and what the entries add to their
/// books comes to nothing in every currency.
pub proof fn law_valid_exactly_if_sound_and_even(
    entries: Seq<OperationEntry>,
    scope: Map<AccountId, Account>,
)
    ensures
        acceptor_task::request_error(entries, acceptor_task::scope_view(scope)) is None <==> {
            &&& all_sound(entries, scope)
            &&& forall|currency: Currency| #[trigger] added_total(entries, scope, currency) == 0
        },
{
    let view = acceptor_task::scope_view(scope);
    assert forall|currency: Currency|
        #![trigger acceptor_task::booked_total(entries, view, currency)]
        #![trigger added_total(entries, scope, currency)]
        (operation::first_fault(entries, view) is None <==> all_sound(entries, scope)) && (
        all_sound(entries, scope) ==> acceptor_task::booked_total(entries, view, currency)
            == added_total(entries, scope, currency)) by {
        lemma_all_sound(entries, scope, currency);
    }
    lemma_all_sound(entries, scope, 0);
    if all_sound(entries, scope) && acceptor_task::sums_to_zero(entries, view) {
        assert forall|currency: Currency| #[trigger]
            added_total(entries, scope, currency) == 0 by {
            assert(acceptor_task::booked_total(entries, view, currency) == 0);
        }
    }
}

/// A request that is not valid is refused for the first entry that something is wrong with, and
/// there the account before the book, the book before the amount, and the amount before the ledger
/// code; only then that some currency does not come to nothing.
pub proof fn law_refused_for_the_first_fault(
    entries: Seq<OperationEntry>,
    scope: Map<AccountId, Account>,
    i: int,
)
    ensures
        ({
            let error = acceptor_task::request_error(entries, acceptor_task::scope_view(scope));
            &&& all_sound(entries, scope) ==> error is None || error == Some(
                InvalidOperationError::NonZeroSumEntries,
            )
            &&& 0 <= i < entries.len() && all_sound(entries.take(i), scope) && !sound(
                entries[i],
                scope,
            ) ==> error == Some(
                if !scope.contains_key(entries[i].account) {
                    InvalidOperationError::AccountNotFound
                } else if !has_book(entries[i], scope) {
                    InvalidOperationError::BookNotFound
                } else if entries[i].amount == 0 {
                    InvalidOperationError::ZeroAmountEntry
                } else {
                    InvalidOperationError::LedgerCodeInvalid
                },
            )
        }),
{
    let view = acceptor_task::scope_view(scope);
    lemma_all_sound(entries, scope, 0);
    if 0 <= i < entries.len() {
        lemma_all_sound(entries.take(i), scope, 0);
        lemma_sound(entries[i], scope);
        assert(entries.take(i + 1).drop_last() =~= entries.take(i));
        if all_sound(entries.take(i), scope) && !sound(entries[i], scope) {
            operation::lemma_first_fault_take(entries, view, i + 1);
        }
    }
}

/// The amounts of a request can be computed exactly if, up to the first entry that something is
/// wrong with, what each entry adds, and what its currency comes to up to and with it, are numbers
/// of 128 bits.
pub proof fn law_amounts_fit_exactly_if_each_does(
    entries: Seq<OperationEntry>,
    scope: Map<AccountId, Account>,
)
    ensures
        acceptor_task::amounts_fit(entries, acceptor_task::scope_view(scope)) <==> forall|i: int|
            0 <= i < entries.len() && all_sound(#[trigger] entries.take(i + 1), scope) ==> {
                &&& i128::MIN <= added(entries[i], scope) <= i128::MAX
                &&& i128::MIN <= added_total(entries.take(i + 1), scope, entries[i].currency)
                    <= i128::MAX
            },
{
    let view = acceptor_task::scope_view(scope);
    assert forall|i: int| 0 <= i < entries.len() implies (operation::first_fault(
        #[trigger] entries.take(i + 1),
        view,
    ) is None <==> all_sound(entries.take(i + 1), scope)) && (all_sound(entries.take(i + 1), scope)
        ==> (acceptor_task::entry_amounts_fit(entries, view, i) <==> {
        &&& i128::MIN <= added(entries[i], scope) <= i128::MAX
        &&& i128::MIN <= added_total(entries.take(i + 1), scope, entries[i].currency) <= i128::MAX
    })) by {
        lemma_all_sound(entries.take(i + 1), scope, entries[i].currency);
        lemma_sound(entries[i], scope);
        if all_sound(entries.take(i + 1), scope) {
            assert(sound(entries.take(i + 1)[i], scope));
        }
    }
}

/// Every entry of a valid request is kept, in its place: with its account, currency and balance
/// type, for the book that it names, with what it adds there, and with its ledger code to the right
/// of as many spaces as fill eight bytes. Nothing else is kept.
pub proof fn law_every_entry_is_kept(
    entries: Seq<OperationEntry>,
    scope: Map<AccountId, Account>,
    valid: ValidOperation,
    i: int,
)
    requires
        acceptor_task::request_error(entries, acceptor_task::scope_view(scope)) is None,
        acceptor_task::entries_view(valid.entries@) == acceptor_task::all_preprocessed(
            entries,
            acceptor_task::scope_view(scope),
        ),
        0 <= i < entries.len(),
    ensures
        valid.entries@.len() == entries.len(),
        ({
            let entry = entries[i];
            let kept = valid.entries@[i];
            let code = entry.ledger_code@;
            &&& kept.target_account_id == entry.account
            &&& kept.target_book_id == scope[entry.account].books@[(
                entry.currency,
                entry.balance_type,
            )]
            &&& kept.amount == added(entry, scope)
            &&& kept.currency == entry.currency
            &&& kept.balance_type == entry.balance_type
            &&& forall|j: int| 0 <= j < 8 - code.len() ==> #[trigger] kept.ledger_code@[j] == 32u8
            &&& forall|j: int|
                0 <= j < code.len() ==> #[trigger] kept.ledger_code@[8 - code.len() + j]
                    == code[j] as u8
        }),
{
    let view = acceptor_task::scope_view(scope);
    let entry = entries[i];
    let code = entry.ledger_code@;
    law_valid_exactly_if_sound_and_even(entries, scope);
    assert(sound(entries[i], scope));
    lemma_sound(entry, scope);
    assert(acceptor_task::entries_view(valid.entries@).len() == valid.entries@.len());
    assert(acceptor_task::all_preprocessed(entries, view).len() == entries.len());
    assert(acceptor_task::entries_view(valid.entries@)[i] == valid.entries@[i]@);
    assert(acceptor_task::all_preprocessed(entries, view)[i] == acceptor_task::preprocessed(
        entry,
        view,
    ));
    let stored = valid.entries@[i].ledger_code@;
    assert(stored == operation::padded_code(code));
    assert forall|j: int| 0 <= j < code.len() implies #[trigger] stored[8 - code.len() + j]
        == code[j] as u8 by {
        assert(operation::padded_code(code)[8 - code.len() + j] == code[j] as u8);
    }
}

/// Whether an entry is posted to a balance.
pub open spec fn goes_to(entry: PreProcessedEntry, key: BalanceKey) -> bool {
    entry.target_account_id == key.0 && entry.currency == key.1 && entry.balance_type == key.2
}

/// What entries post to one balance, added up.
pub open spec fn posted_total(entries: Seq<PreProcessedEntry>, key: BalanceKey) -> int
    decreases entries.len(),
{
    if entries.len() == 0 {
        0
    } else {
        posted_total(entries.drop_last(), key) + if goes_to(entries.last(), key) {
            entries.last().amount as int
        } else {
            0
        }
    }
}

/// Whether some entry is posted to a balance.
pub open spec fn posts_to(entries: Seq<PreProcessedEntry>, key: BalanceKey) -> bool {
    exists|i: int| 0 <= i < entries.len() && goes_to(#[trigger] entries[i], key)
}

/// What a balance was, which is zero if nothing was ever posted to it.
pub open spec fn was(balances: Map<BalanceKey, i128>, key: BalanceKey) -> int {
    if balances.contains_key(key) {
        balances[key] as int
    } else {
        0
    }
}

/// The entries of a balance are those posted to it, and come to what they post.
proof fn lemma_posted(entries: Seq<PreProcessedEntry>, key: BalanceKey)
    ensures
        acceptor_task::key_total(acceptor_task::entries_view(entries), key) == posted_total(
            entries,
            key,
        ),
        acceptor_task::key_entries(acceptor_task::entries_view(entries), key).len() > 0
            <==> posts_to(entries, key),
    decreases entries.len(),
{
    let view = acceptor_task::entries_view(entries);
    let own = acceptor_task::key_entries(view, key);
    if entries.len() == 0 {
        assert(own.map_values(|entry: PreProcessedView| entry.amount) =~= Seq::empty());
    } else {
        let front = entries.drop_last();
        let n = entries.len() - 1;
        lemma_posted(front, key);
        assert(view.drop_last() =~= acceptor_task::entries_view(front));
        let before = acceptor_task::key_entries(acceptor_task::entries_view(front), key);
        let amounts = before.map_values(|entry: PreProcessedView| entry.amount);
        if goes_to(entries.last(), key) {
            assert(own.map_values(|entry: PreProcessedView| entry.amount) =~= amounts.push(
                entries.last().amount as int,
            ));
            assert(amounts.push(entries.last().amount as int).drop_last() =~= amounts);
            assert(goes_to(entries[n], key));
        }
        if posts_to(front, key) {
            let i = choose|i: int| 0 <= i < front.len() && goes_to(#[trigger] front[i], key);
            assert(goes_to(entries[i], key));
        }
        if posts_to(entries, key) && !goes_to(entries.last(), key) {
            let i = choose|i: int| 0 <= i < entries.len() && goes_to(#[trigger] entries[i], key);
            assert(goes_to(front[i], key));
        }
    }
}

/// The first entry of an account, and that it has one exactly if an entry names it.
proof fn lemma_first_of_account(entries: Seq<PreProcessedEntry>, account: AccountId, i: int)
    ensures
        acceptor_task::account_entries(acceptor_task::entries_view(entries), account).len() > 0
            <==> exists|j: int|
            0 <= j < entries.len() && (#[trigger] entries[j]).target_account_id == account,
        0 <= i < entries.len() && entries[i].target_account_id == account && (forall|j: int|
            0 <= j < i ==> (#[trigger] entries[j]).target_account_id != account)
            ==> acceptor_task::account_entries(acceptor_task::entries_view(entries), account)[0]
            == entries[i]@,
    decreases entries.len(),
{
    let view = acceptor_task::entries_view(entries);
    if entries.len() > 0 {
        let front = entries.drop_last();
        let n = entries.len() - 1;
        lemma_first_of_account(front, account, i);
        assert(view.drop_last() =~= acceptor_task::entries_view(front));
        let before = acceptor_task::account_entries(acceptor_task::entries_view(front), account);
        assert(view.last() == entries[n]@);
        if exists|j: int| 0 <= j < front.len() && (#[trigger] front[j]).target_account_id
            == account {
            let j = choose|j: int|
                0 <= j < front.len() && (#[trigger] front[j]).target_account_id == account;
            assert(entries[j].target_account_id == account);
        }
        if exists|j: int| 0 <= j < entries.len() && (#[trigger] entries[j]).target_account_id
            == account {
            let j = choose|j: int|
                0 <= j < entries.len() && (#[trigger] entries[j]).target_account_id == account;
            if j < n {
                assert(front[j].target_account_id == account);
            }
        }
        if 0 <= i < entries.len() && entries[i].target_account_id == account && (forall|j: int|
            0 <= j < i ==> (#[trigger] entries[j]).target_account_id != account) {
            if i < n {
                assert forall|j: int| 0 <= j < i implies (#[trigger] front[j]).target_account_id
                    != account by {
                    assert(entries[j].target_account_id != account);
                }
                assert(front[i].target_account_id == account);
                assert(before.len() > 0);
            } else {
                assert(before.len() == 0) by {
                    if before.len() > 0 {
                        let j = choose|j: int|
                            0 <= j < front.len() && (#[trigger] front[j]).target_account_id
                                == account;
                        assert(entries[j].target_account_id == account);
                    }
                }
            }
        }
    }
}

/// An operation can be recorded exactly if it has at most 255 entries and every balance that it
/// posts to comes to a number of 128 bits.
pub proof fn law_recordable_exactly_if_in_range(
    balances: Map<BalanceKey, i128>,
    entries: Seq<PreProcessedEntry>,
)
    ensures
        acceptor_task::recordable(balances, acceptor_task::entries_view(entries)) <==> {
            &&& entries.len() <= 255
            &&& forall|key: BalanceKey| #[trigger]
                posts_to(entries, key) ==> i128::MIN <= was(balances, key) + posted_total(
                    entries,
                    key,
                ) <= i128::MAX
        },
{
    let view = acceptor_task::entries_view(entries);
    assert(view.len() == entries.len());
    assert forall|key: BalanceKey|
        #![trigger acceptor_task::key_entries(view, key)]
        #![trigger posts_to(entries, key)]
        acceptor_task::key_total(view, key) == posted_total(entries, key) && (
        acceptor_task::key_entries(view, key).len() > 0 <==> posts_to(entries, key))
            && acceptor_task::balance_of(balances, key) == was(balances, key) by {
        lemma_posted(entries, key);
    }
}

/// Taking an operation changes each balance that it posts to, and no other, by what it posts there,
/// and counts it from then on.
pub proof fn law_balances_change_by_what_is_posted<R>(
    batch: Seq<WriteCommand<R>>,
    balances: Map<BalanceKey, i128>,
    command: AcceptorCommand<R>,
    timestamp_ns: u128,
    later_batch: Seq<WriteCommand<R>>,
    later_balances: Map<BalanceKey, i128>,
    key: BalanceKey,
)
    requires
        acceptor_task::recordable(
            balances,
            acceptor_task::entries_view(command.operations.entries@),
        ),
        acceptor_task::taken(
            batch,
            balances,
            command,
            timestamp_ns,
            later_batch,
            later_balances,
        ),
    ensures
        ({
            let entries = command.operations.entries@;
            &&& later_balances.contains_key(key) <==> balances.contains_key(key) || posts_to(
                entries,
                key,
            )
            &&& posts_to(entries, key) ==> later_balances[key] == was(balances, key) + posted_total(
                entries,
                key,
            )
            &&& balances.contains_key(key) && !posts_to(entries, key) ==> later_balances[key]
                == balances[key]
        }),
        acceptor_task::balance_of(balances, key) == was(balances, key),
{
    lemma_posted(command.operations.entries@, key);
}

/// An operation is answered with one balance for each account that it posts to, and none for any
/// other: that in the currency and the balance type of the first entry that names the account, with
/// everything counted that the operation posts to it.
pub proof fn law_answered_with_the_balance_of_the_first_entry<R>(
    batch: Seq<WriteCommand<R>>,
    balances: Map<BalanceKey, i128>,
    command: AcceptorCommand<R>,
    timestamp_ns: u128,
    later_batch: Seq<WriteCommand<R>>,
    later_balances: Map<BalanceKey, i128>,
    account: AccountId,
    i: int,
)
    requires
        acceptor_task::recordable(
            balances,
            acceptor_task::entries_view(command.operations.entries@),
        ),
        acceptor_task::taken(
            batch,
            balances,
            command,
            timestamp_ns,
            later_batch,
            later_balances,
        ),
    ensures
        ({
            let entries = command.operations.entries@;
            let answered = later_batch.last().ending_balances@;
            &&& answered.contains_key(account) <==> exists|j: int|
                0 <= j < entries.len() && (#[trigger] entries[j]).target_account_id == account
            &&& 0 <= i < entries.len() && entries[i].target_account_id == account && (forall|j: int|
                0 <= j < i ==> (#[trigger] entries[j]).target_account_id != account) ==> {
                let key = (account, entries[i].currency, entries[i].balance_type);
                &&& answered[account].0 == entries[i].currency
                &&& answered[account].1 == entries[i].balance_type
                &&& answered[account].2 == was(balances, key) + posted_total(entries, key)
            }
        }),
{
    let entries = command.operations.entries@;
    lemma_first_of_account(entries, account, i);
    if 0 <= i < entries.len() && entries[i].target_account_id == account && (forall|j: int|
        0 <= j < i ==> (#[trigger] entries[j]).target_account_id != account) {
        let key = (account, entries[i].currency, entries[i].balance_type);
        lemma_posted(entries, key);
        assert(goes_to(entries[i], key));
        law_recordable_exactly_if_in_range(balances, entries);
        assert(posts_to(entries, key));
    }
}

/// The record of an operation, read back from its bytes: in the eighty of the header its length and
/// the number of its entries, the time at which it was taken and its key; in the thirty-eight of
/// each entry the amount and the ledger code, in order. What is not assigned yet is zero. The
/// operation stands last in the batch, and its answer goes where it is to go.
pub proof fn law_record_is_read_back<R>(
    batch: Seq<WriteCommand<R>>,
    balances: Map<BalanceKey, i128>,
    command: AcceptorCommand<R>,
    timestamp_ns: u128,
    later_batch: Seq<WriteCommand<R>>,
    later_balances: Map<BalanceKey, i128>,
    k: int,
)
    requires
        acceptor_task::taken(
            batch,
            balances,
            command,
            timestamp_ns,
            later_batch,
            later_balances,
        ),
    ensures
        later_batch.len() == batch.len() + 1,
        later_batch.drop_last() == batch,
        later_batch.last().response_tx == command.response_tx,
        ({
            let entries = command.operations.entries@;
            let stored = later_batch.last().header.encoded();
            &&& stored.len() == 80
            &&& bytes::le_value(stored.subrange(0, 2)) == 80 + 38 * entries.len()
            &&& stored[2] == entries.len()
            &&& bytes::le_value(stored.subrange(3, 11)) == 0
            &&& bytes::le_value(stored.subrange(11, 27)) == timestamp_ns
            &&& bytes::be_value(stored.subrange(27, 43)) == command.operations.idempotency_key
            &&& bytes::le_value(stored.subrange(43, 47)) == 0
            &&& forall|n: int| 47 <= n < 80 ==> #[trigger] stored[n] == 0u8
        }),
        later_batch.last().entries@.len() == command.operations.entries@.len(),
        0 <= k < command.operations.entries@.len() ==> {
            let stored = later_batch.last().entries@[k].encoded();
            &&& stored.len() == 38
            &&& bytes::le_value(stored.subrange(0, 8)) == 0
            &&& bytes::le_value(stored.subrange(8, 12)) == 0
            &&& bytes::le_value(stored.subrange(12, 14)) == 0
            &&& bytes::signed_le_value(stored.subrange(14, 30))
                == command.operations.entries@[k].amount
            &&& stored.subrange(30, 38) == command.operations.entries@[k].ledger_code@
        },
{
    let header = later_batch.last().header;
    let stored = header.encoded();
    assert(stored.subrange(0, 2) =~= header.record_length@);
    assert(stored.subrange(3, 11) =~= header.operation_id@);
    assert(stored.subrange(11, 27) =~= header.timestamp_ns@);
    assert(stored.subrange(27, 43) =~= header.idempotency_key@);
    assert(stored.subrange(43, 47) =~= header.checksum@);
    assert forall|n: int| 47 <= n < 80 implies #[trigger] stored[n] == 0u8 by {
        if n < 79 {
            assert(stored[n] == header.prev_hash@[n - 47]);
        }
    }
    if 0 <= k < command.operations.entries@.len() {
        let entry = later_batch.last().entries@[k];
        let written = entry.encoded();
        assert(written.subrange(0, 8) =~= entry.target_book_id@);
        assert(written.subrange(8, 12) =~= entry.target_page@);
        assert(written.subrange(12, 14) =~= entry.target_line@);
        assert(written.subrange(14, 30) =~= entry.amount@);
        assert(written.subrange(30, 38) =~= entry.ledger_code@);
    }
}

/// A balance that an operation posts to is remembered as it was, and given back when the operation
/// is taken back; all other balances stay.
pub proof fn law_taking_back_gives_back_what_was<R>(
    batch: Seq<WriteCommand<R>>,
    balances: Map<BalanceKey, i128>,
    command: AcceptorCommand<R>,
    timestamp_ns: u128,
    later_batch: Seq<WriteCommand<R>>,
    later_balances: Map<BalanceKey, i128>,
    key: BalanceKey,
)
    requires
        acceptor_task::taken(
            batch,
            balances,
            command,
            timestamp_ns,
            later_batch,
            later_balances,
        ),
    ensures
        was(acceptor_task::undone_batch(later_balances, seq![later_batch.last()]), key) == was(
            balances,
            key,
        ),
{
    let one = seq![later_batch.last()];
    assert(one.drop_last() =~= Seq::empty());
    lemma_posted(command.operations.entries@, key);
    let back = later_balances.union_prefer_right(later_batch.last().earlier_balances@);
    assert(acceptor_task::undone_batch(later_balances, one) == acceptor_task::undone_batch(
        back,
        one.drop_last(),
    ));
}

/// What an event leads to. A command is taken; what is then gathered goes out, whole, exactly if it
/// fills the room for a batch, and the wait starts over exactly if the buffer was empty. The end of
/// the wait sends out what is gathered; an interruption does so if there is anything, and ends the
/// acceptor; the end of all commands ends it too and sends nothing. None of the latter touches a
/// balance.
pub proof fn law_step<R>(
    buffer: Seq<WriteCommand<R>>,
    room: usize,
    balances: Map<BalanceKey, i128>,
    event: Event<AcceptorCommand<R>>,
    timestamp_ns: u128,
    later_buffer: Seq<WriteCommand<R>>,
    later_room: usize,
    later_balances: Map<BalanceKey, i128>,
    step: BatchStep<WriteCommand<R>>,
)
    requires
        acceptor_task::stepped(
            buffer,
            room,
            balances,
            event,
            timestamp_ns,
            later_buffer,
            later_room,
            later_balances,
            step,
        ),
    ensures
        match event {
            Event::Received(command) => {
                let gathered = match step.flush {
                    Some(sent) => sent@,
                    None => later_buffer,
                };
                &&& acceptor_task::taken(
                    buffer,
                    balances,
                    command,
                    timestamp_ns,
                    gathered,
                    later_balances,
                )
                &&& gathered.len() == buffer.len() + 1
                &&& buffer.len() < room ==> later_room == room
                &&& buffer.len() < room ==> (step.flush is Some <==> buffer.len() + 1 == room)
                &&& step.flush is Some <==> gathered.len() == later_room
                &&& step.flush is Some ==> later_buffer.len() == 0
                &&& step.restart_timer <==> buffer.len() == 0
                &&& !step.stop
            },
            Event::FlushTimeout => {
                &&& step.flush is Some
                &&& step.flush->0@ == buffer
                &&& later_buffer.len() == 0
                &&& !step.stop
            },
            Event::Interrupted => {
                &&& step.flush is Some <==> buffer.len() > 0
                &&& step.flush is Some ==> step.flush->0@ == buffer
                &&& later_buffer.len() == 0
                &&& step.stop
            },
            Event::Exhausted => {
                &&& step.flush is None
                &&& later_buffer == buffer
                &&& step.stop
            },
        },
        !(event is Received) ==> {
            &&& later_balances == balances
            &&& later_room == room
            &&& !step.restart_timer
        },
{
}

} // verus!
