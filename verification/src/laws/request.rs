//! What a request asks for, told by its own entries and by the accounts that they name.

use crate::accounts;
use crate::accounts::{AccountId, AccountState, AccountType, AccountView};
use crate::books::{BookId, InScopeBook};
use crate::currency::Currency;
use crate::laws::posting;
use crate::operation;
use crate::operation::{
    InvalidOperationError, OperationEntry, PreProcessedEntry, PreparedOperation, ValidOperation,
};
use crate::sums;
use std::sync::Arc;
use vstd::prelude::*;

verus! {

/// The amounts that stand on one side in one currency, added up.
pub open spec fn side_total(
    entries: Seq<OperationEntry>,
    currency: Currency,
    side: AccountType,
) -> int
    decreases entries.len(),
{
    if entries.len() == 0 {
        0
    } else {
        let last = entries.last();
        side_total(entries.drop_last(), currency, side) + if last.currency == currency
            && last.op_type == side {
            last.amount as int
        } else {
            0
        }
    }
}

/// Whether the account that an entry names is known and has a book for it.
pub open spec fn has_book(
    entry: OperationEntry,
    scope: Map<AccountId, Arc<AccountState>>,
) -> bool {
    &&& scope.contains_key(entry.account)
    &&& scope[entry.account].books@.contains_key((entry.currency, entry.balance_type))
}

/// The book that an entry names by account, currency and balance type.
pub open spec fn book_of(
    entry: OperationEntry,
    scope: Map<AccountId, Arc<AccountState>>,
) -> BookId {
    scope[entry.account].books@[(entry.currency, entry.balance_type)]
}

/// Whether a code has at most eight characters, all of them ASCII.
pub open spec fn short_ascii(code: Seq<char>) -> bool {
    code.len() <= 8 && forall|i: int| 0 <= i < code.len() ==> '\0' <= #[trigger] code[i] <= '\u{7f}'
}

/// Whether nothing is wrong with an entry.
pub open spec fn sound(entry: OperationEntry, scope: Map<AccountId, Arc<AccountState>>) -> bool {
    has_book(entry, scope) && entry.amount != 0 && short_ascii(entry.ledger_code@)
}

/// Whether nothing is wrong with any entry.
pub open spec fn all_sound(
    entries: Seq<OperationEntry>,
    scope: Map<AccountId, Arc<AccountState>>,
) -> bool {
    forall|i: int| 0 <= i < entries.len() ==> sound(#[trigger] entries[i], scope)
}

/// An entry is at no fault exactly if nothing is wrong with it.
proof fn lemma_sound(entry: OperationEntry, scope: Map<AccountId, Arc<AccountState>>)
    ensures
        operation::entry_fault(entry, accounts::accounts_view(scope).get(entry.account)) is None
            <==> sound(entry, scope),
        operation::entry_fault(entry, accounts::accounts_view(scope).get(entry.account)) == if
            !scope.contains_key(entry.account) {
            Some(operation::EntryFault::AccountNotFound)
        } else if !has_book(entry, scope) {
            Some(operation::EntryFault::BookNotFound)
        } else if entry.amount == 0 {
            Some(operation::EntryFault::ZeroAmountEntry)
        } else if !short_ascii(entry.ledger_code@) {
            Some(operation::EntryFault::LedgerCodeInvalid)
        } else {
            None
        },
{
    let code = entry.ledger_code@;
    assert(vstd::utf8::is_ascii_chars(code) <==> forall|i: int|
        0 <= i < code.len() ==> '\0' <= #[trigger] code[i] <= '\u{7f}');
}

/// No entry is at fault exactly if nothing is wrong with any.
proof fn lemma_all_sound(entries: Seq<OperationEntry>, scope: Map<AccountId, Arc<AccountState>>)
    ensures
        operation::first_fault(entries, accounts::accounts_view(scope)) is None <==> all_sound(
            entries,
            scope,
        ),
    decreases entries.len(),
{
    if entries.len() > 0 {
        let front = entries.drop_last();
        let n = entries.len() - 1;
        lemma_all_sound(front, scope);
        lemma_sound(entries.last(), scope);
        if all_sound(entries, scope) {
            assert forall|i: int| 0 <= i < front.len() implies sound(#[trigger] front[i], scope) by {
                assert(front[i] == entries[i]);
            }
            assert(sound(entries[n], scope));
        }
        if all_sound(front, scope) && sound(entries.last(), scope) {
            assert forall|i: int| 0 <= i < entries.len() implies sound(
                #[trigger] entries[i],
                scope,
            ) by {
                if i < n {
                    assert(sound(front[i], scope));
                }
            }
        }
    }
}

/// What counts toward the credit side is what stands there less what stands on the other.
proof fn lemma_sides(entries: Seq<OperationEntry>, currency: Currency)
    ensures
        operation::currency_total(entries, currency) == side_total(
            entries,
            currency,
            AccountType::Credit,
        ) - side_total(entries, currency, AccountType::Debit),
    decreases entries.len(),
{
    if entries.len() > 0 {
        lemma_sides(entries.drop_last(), currency);
    }
}

/// A request is valid exactly if it has at most a hundred entries, nothing is wrong with any of
/// them, and in every currency the debits come to as much as the credits, whatever the accounts and
/// the balance types.
pub proof fn law_valid_exactly_if_sound_and_balanced(
    entries: Seq<OperationEntry>,
    scope: Map<AccountId, Arc<AccountState>>,
)
    ensures
        operation::request_error(entries, accounts::accounts_view(scope)) is None <==> {
            &&& entries.len() <= 100
            &&& all_sound(entries, scope)
            &&& forall|currency: Currency| #[trigger]
                side_total(entries, currency, AccountType::Debit) == side_total(
                    entries,
                    currency,
                    AccountType::Credit,
                )
        },
{
    lemma_all_sound(entries, scope);
    assert forall|currency: Currency|
        #![trigger operation::currency_total(entries, currency)]
        #![trigger side_total(entries, currency, AccountType::Debit)]
        operation::currency_total(entries, currency) == side_total(
            entries,
            currency,
            AccountType::Credit,
        ) - side_total(entries, currency, AccountType::Debit) by {
        lemma_sides(entries, currency);
    }
    if operation::balanced(entries) {
        assert forall|currency: Currency| #[trigger]
            side_total(entries, currency, AccountType::Debit) == side_total(
                entries,
                currency,
                AccountType::Credit,
            ) by {
            assert(operation::currency_total(entries, currency) == 0);
        }
    }
}

/// A request that is not valid is refused for what is wrong with it: too many entries before
/// anything else, otherwise the first entry that something is wrong with, and there the account
/// before the book, the book before the amount, and the amount before the ledger code; only then
/// that some currency does not balance.
pub proof fn law_refused_for_the_first_fault(
    entries: Seq<OperationEntry>,
    scope: Map<AccountId, Arc<AccountState>>,
    i: int,
)
    ensures
        ({
            let error = operation::request_error(entries, accounts::accounts_view(scope));
            &&& entries.len() > 100 <==> error == Some(InvalidOperationError::TooManyEntries)
            &&& entries.len() <= 100 && all_sound(entries, scope) ==> error is None || error
                == Some(InvalidOperationError::NonZeroSumEntries)
            &&& entries.len() <= 100 && 0 <= i < entries.len() && all_sound(entries.take(i), scope)
                && !sound(entries[i], scope) ==> error == Some(
                if !scope.contains_key(entries[i].account) {
                    InvalidOperationError::AccountNotFound
                } else if !has_book(entries[i], scope) {
                    InvalidOperationError::BookNotFound
                } else if entries[i].amount == 0 {
                    InvalidOperationError::ZeroAmountEntry
                } else {
                    InvalidOperationError::LedgerCodeInvalid
                },
            )
        }),
{
    let view = accounts::accounts_view(scope);
    lemma_all_sound(entries, scope);
    if 0 <= i < entries.len() {
        lemma_all_sound(entries.take(i), scope);
        lemma_sound(entries[i], scope);
        assert(entries.take(i + 1).drop_last() =~= entries.take(i));
        if all_sound(entries.take(i), scope) && !sound(entries[i], scope) {
            operation::lemma_first_fault_take(entries, view, i + 1);
        }
    }
}

/// Whether the amounts that the entry at `i` makes necessary can be held in 128 bits: its own,
/// turned round where it stands on the debit side or against the account's nature, and the
/// difference of the sides of its currency up to and with it.
pub open spec fn fits_at(
    entries: Seq<OperationEntry>,
    scope: Map<AccountId, Arc<AccountState>>,
    i: int,
) -> bool {
    let entry = entries[i];
    let credits = side_total(entries.take(i + 1), entry.currency, AccountType::Credit);
    let debits = side_total(entries.take(i + 1), entry.currency, AccountType::Debit);
    &&& (entry.op_type == AccountType::Debit || scope[entry.account].account_type != entry.op_type)
        ==> entry.amount != i128::MIN
    &&& i128::MIN <= credits - debits <= i128::MAX
}

/// The amounts of a request can be computed exactly if, up to the first entry that something is
/// wrong with, none of them leaves 128 bits; of a request with too many entries none is computed.
pub proof fn law_amounts_fit_exactly_if_each_does(
    entries: Seq<OperationEntry>,
    scope: Map<AccountId, Arc<AccountState>>,
)
    ensures
        operation::amounts_fit(entries, accounts::accounts_view(scope)) <==> (entries.len() <= 100
            ==> forall|i: int|
            0 <= i < entries.len() && all_sound(#[trigger] entries.take(i + 1), scope) ==> fits_at(
                entries,
                scope,
                i,
            )),
{
    let view = accounts::accounts_view(scope);
    assert forall|i: int| 0 <= i < entries.len() implies (operation::first_fault(
        #[trigger] entries.take(i + 1),
        view,
    ) is None <==> all_sound(entries.take(i + 1), scope)) && (all_sound(entries.take(i + 1), scope)
        ==> (operation::entry_amounts_fit(entries, view, i) <==> fits_at(entries, scope, i))) by {
        lemma_all_sound(entries.take(i + 1), scope);
        lemma_sides(entries.take(i + 1), entries[i].currency);
        if all_sound(entries.take(i + 1), scope) {
            assert(sound(entries.take(i + 1)[i], scope));
        }
    }
}

/// The number of entries that name one book.
pub open spec fn count_for(
    entries: Seq<OperationEntry>,
    scope: Map<AccountId, Arc<AccountState>>,
    book: BookId,
) -> nat
    decreases entries.len(),
{
    if entries.len() == 0 {
        0
    } else {
        count_for(entries.drop_last(), scope, book) + if book_of(entries.last(), scope) == book {
            1nat
        } else {
            0nat
        }
    }
}

/// A book gets as many entries as name it.
proof fn lemma_count(
    entries: Seq<OperationEntry>,
    scope: Map<AccountId, Arc<AccountState>>,
    book: BookId,
)
    requires
        all_sound(entries, scope),
    ensures
        operation::book_entries(entries, accounts::accounts_view(scope), book).len() == count_for(
            entries,
            scope,
            book,
        ),
    decreases entries.len(),
{
    if entries.len() > 0 {
        let front = entries.drop_last();
        assert forall|i: int| 0 <= i < front.len() implies sound(#[trigger] front[i], scope) by {
            assert(front[i] == entries[i]);
        }
        lemma_count(front, scope, book);
        assert(sound(entries[entries.len() - 1], scope));
    }
}

/// Each entry stands in its book behind those that name the book before it.
proof fn lemma_place(
    entries: Seq<OperationEntry>,
    scope: Map<AccountId, Arc<AccountState>>,
    i: int,
)
    requires
        all_sound(entries, scope),
        0 <= i < entries.len(),
    ensures
        ({
            let view = accounts::accounts_view(scope);
            let book = book_of(entries[i], scope);
            let kept = operation::book_entries(entries, view, book);
            let place = count_for(entries.take(i), scope, book);
            &&& place < kept.len()
            &&& kept[place as int] == operation::preprocessed(entries[i], view)
        }),
    decreases entries.len(),
{
    let view = accounts::accounts_view(scope);
    let book = book_of(entries[i], scope);
    let front = entries.drop_last();
    assert(sound(entries[i], scope));
    assert forall|j: int| 0 <= j < front.len() implies sound(#[trigger] front[j], scope) by {
        assert(front[j] == entries[j]);
    }
    if i < front.len() {
        assert(front.take(i) =~= entries.take(i));
        lemma_place(front, scope, i);
    } else {
        assert(entries.take(i) =~= front);
        lemma_count(front, scope, book);
    }
}

/// Every entry of a valid request is kept for the book that it names, behind those before it that
/// name the same: with its account, currency and balance type, with the amount that it states,
/// added where it stands on the side of the account's nature and taken away otherwise, and with its
/// ledger code to the right of as many spaces as fill eight bytes.
pub proof fn law_every_entry_is_kept_for_its_book(
    entries: Seq<OperationEntry>,
    scope: Map<AccountId, Arc<AccountState>>,
    valid: ValidOperation,
    i: int,
)
    requires
        operation::request_error(entries, accounts::accounts_view(scope)) is None,
        valid.groups() == operation::grouped(entries, accounts::accounts_view(scope)),
        0 <= i < entries.len(),
    ensures
        ({
            let entry = entries[i];
            let code = entry.ledger_code@;
            let book = book_of(entry, scope);
            let group = valid.entries_by_book@[book]@;
            let place = count_for(entries.take(i), scope, book) as int;
            &&& valid.entries_by_book@.contains_key(book)
            &&& place < group.len()
            &&& group[place].target_account_id == entry.account
            &&& group[place].currency == entry.currency
            &&& group[place].balance_type == entry.balance_type
            &&& group[place].amount == if entry.op_type == scope[entry.account].account_type {
                entry.amount as int
            } else {
                0 - entry.amount
            }
            &&& forall|j: int|
                0 <= j < 8 - code.len() ==> #[trigger] group[place].ledger_code@[j] == 32u8
            &&& forall|j: int|
                0 <= j < code.len() ==> #[trigger] group[place].ledger_code@[8 - code.len() + j]
                    == code[j] as u8
        }),
{
    let view = accounts::accounts_view(scope);
    let entry = entries[i];
    let code = entry.ledger_code@;
    let book = book_of(entry, scope);
    law_valid_exactly_if_sound_and_balanced(entries, scope);
    assert(sound(entries[i], scope));
    lemma_place(entries, scope, i);
    let place = count_for(entries.take(i), scope, book) as int;
    assert(operation::grouped(entries, view).contains_key(book));
    assert(valid.groups().contains_key(book));
    let group = valid.entries_by_book@[book]@;
    assert(valid.groups()[book] == operation::entries_view(group));
    assert(operation::entries_view(group).len() == group.len());
    assert(group[place]@ == operation::preprocessed(entry, view));
    let stored = group[place].ledger_code@;
    assert(stored == operation::padded_code(code));
    assert forall|j: int| 0 <= j < code.len() implies #[trigger] stored[8 - code.len() + j]
        == code[j] as u8 by {
        assert(operation::padded_code(code)[8 - code.len() + j] == code[j] as u8);
    }
}

/// Nothing else is kept: a book has as many entries as name it, and no book is without any.
pub proof fn law_nothing_else_is_kept(
    entries: Seq<OperationEntry>,
    scope: Map<AccountId, Arc<AccountState>>,
    valid: ValidOperation,
    book: BookId,
)
    requires
        operation::request_error(entries, accounts::accounts_view(scope)) is None,
        valid.groups() == operation::grouped(entries, accounts::accounts_view(scope)),
    ensures
        valid.entries_by_book@.contains_key(book) <==> count_for(entries, scope, book) > 0,
        valid.entries_by_book@.contains_key(book) ==> valid.entries_by_book@[book]@.len()
            == count_for(entries, scope, book),
{
    let view = accounts::accounts_view(scope);
    law_valid_exactly_if_sound_and_balanced(entries, scope);
    lemma_count(entries, scope, book);
    assert(valid.groups().contains_key(book) == operation::grouped(entries, view).contains_key(
        book,
    ));
    assert(valid.groups().contains_key(book) == valid.entries_by_book@.contains_key(book));
    if valid.entries_by_book@.contains_key(book) {
        let group = valid.entries_by_book@[book]@;
        assert(valid.groups()[book] == operation::entries_view(group));
        assert(operation::entries_view(group).len() == group.len());
    }
}

/// The amounts of entries, added up.
pub open spec fn kept_total(entries: Seq<PreProcessedEntry>) -> int
    decreases entries.len(),
{
    if entries.len() == 0 {
        0
    } else {
        kept_total(entries.drop_last()) + entries.last().amount
    }
}

/// The sum of amounts is their total.
proof fn lemma_kept_total(entries: Seq<PreProcessedEntry>)
    ensures
        sums::sum(operation::view_amounts(operation::entries_view(entries))) == kept_total(entries),
    decreases entries.len(),
{
    let amounts = operation::view_amounts(operation::entries_view(entries));
    if entries.len() > 0 {
        lemma_kept_total(entries.drop_last());
        assert(amounts.drop_last() =~= operation::view_amounts(
            operation::entries_view(entries.drop_last()),
        ));
    }
}

/// Whether the amounts of every book that is in scope, up to any of them, come to a number of 128
/// bits.
pub open spec fn deltas_in_range(valid: ValidOperation, scope: Map<BookId, InScopeBook>) -> bool {
    forall|book: BookId, n: int|
        #![trigger valid.entries_by_book@[book]@.take(n)]
        valid.entries_by_book@.contains_key(book) && scope.contains_key(book) && 0 <= n
            <= valid.entries_by_book@[book]@.len() ==> i128::MIN <= kept_total(
            valid.entries_by_book@[book]@.take(n),
        ) <= i128::MAX
}

/// The changes of the books can be computed exactly if they are in range.
pub proof fn law_deltas_fit_exactly_if_in_range(
    valid: ValidOperation,
    scope: Map<BookId, InScopeBook>,
)
    ensures
        operation::deltas_fit(valid.groups(), scope) <==> deltas_in_range(valid, scope),
{
    assert forall|book: BookId, n: int|
        valid.entries_by_book@.contains_key(book) && 0 <= n
            <= valid.entries_by_book@[book]@.len() implies sums::sum(
        #[trigger] operation::view_amounts(valid.groups()[book]).take(n),
    ) == kept_total(valid.entries_by_book@[book]@.take(n)) by {
        let group = valid.entries_by_book@[book]@;
        lemma_kept_total(group.take(n));
        assert(valid.groups()[book] == operation::entries_view(group));
        assert(operation::view_amounts(valid.groups()[book]).take(n) =~= operation::view_amounts(
            operation::entries_view(group.take(n)),
        ));
    }
    if operation::deltas_fit(valid.groups(), scope) {
        assert forall|book: BookId, n: int|
            #![trigger valid.entries_by_book@[book]@.take(n)]
            valid.entries_by_book@.contains_key(book) && scope.contains_key(book) && 0 <= n
                <= valid.entries_by_book@[book]@.len() implies i128::MIN <= kept_total(
            valid.entries_by_book@[book]@.take(n),
        ) <= i128::MAX by {
            let amounts = operation::view_amounts(valid.groups()[book]);
            assert(valid.groups().contains_key(book));
            assert(sums::fits_i128(0 + sums::sum(amounts.take(n))));
        }
    }
    if deltas_in_range(valid, scope) {
        assert forall|book: BookId| #[trigger]
            valid.groups().contains_key(book) && scope.contains_key(
                book,
            ) implies sums::running_sum_fits(
            0,
            operation::view_amounts(valid.groups()[book]),
        ) by {
            let amounts = operation::view_amounts(valid.groups()[book]);
            assert(amounts.len() == valid.entries_by_book@[book]@.len());
            assert forall|n: int| 0 <= n <= amounts.len() implies sums::fits_i128(
                0 + sums::sum(#[trigger] amounts.take(n)),
            ) by {
                assert(i128::MIN <= kept_total(valid.entries_by_book@[book]@.take(n)) <= i128::MAX);
            }
        }
    }
}

/// A prepared operation has each book of the valid one, once: with its entries as they were kept,
/// with what they come to, in the currency and the balance type of the first of them, for the
/// account and with the leave to overdraw that the scope states.
pub proof fn law_prepared_books_are_those_kept(
    prepared: PreparedOperation,
    valid: ValidOperation,
    scope: Map<BookId, InScopeBook>,
    i: int,
)
    requires
        operation::none_empty(valid.groups()),
        operation::lays_out(prepared, valid, scope),
        0 <= i < prepared.per_book@.len(),
    ensures
        ({
            let book = prepared.per_book@[i];
            let group = valid.entries_by_book@[book.book_id]@;
            &&& valid.entries_by_book@.contains_key(book.book_id)
            &&& group.len() > 0
            &&& book.account_id == scope[book.book_id].account_id
            &&& book.allow_overdraft == scope[book.book_id].allow_overdraft
            &&& book.currency == group[0].currency
            &&& book.balance_type == group[0].balance_type
            &&& book.net_delta == kept_total(group)
            &&& book.entries@.len() == group.len()
            &&& forall|k: int|
                #![trigger book.entries@[k]]
                0 <= k < group.len() ==> {
                    &&& book.entries@[k].target_account_id == group[k].target_account_id
                    &&& book.entries@[k].amount == group[k].amount
                    &&& book.entries@[k].ledger_code@ == group[k].ledger_code@
                    &&& book.entries@[k].currency == group[k].currency
                    &&& book.entries@[k].balance_type == group[k].balance_type
                }
        }),
        prepared.idempotency_key == valid.idempotency_key,
        forall|j: int|
            0 <= j < prepared.per_book@.len() && j != i ==> (
            #[trigger] prepared.per_book@[j]).book_id != prepared.per_book@[i].book_id,
        forall|id: BookId| #[trigger]
            valid.entries_by_book@.contains_key(id) ==> exists|j: int|
                0 <= j < prepared.per_book@.len() && (#[trigger] prepared.per_book@[j]).book_id
                    == id,
{
    let per_book = prepared.per_book@;
    let ids = operation::prepared_ids(per_book);
    let book = per_book[i];
    assert(ids[i] == book.book_id);
    assert(ids.contains(book.book_id));
    assert(valid.groups().contains_key(book.book_id));
    let group = valid.entries_by_book@[book.book_id]@;
    assert(valid.groups()[book.book_id] == operation::entries_view(group));
    assert(operation::entries_view(group).len() == group.len());
    assert(operation::entries_view(book.entries@).len() == book.entries@.len());
    assert(book.prepares(valid.groups()[ids[i]], scope[ids[i]]));
    lemma_kept_total(group);
    assert(operation::entries_view(group)[0] == group[0]@);
    assert forall|k: int|
        #![trigger book.entries@[k]]
        0 <= k < group.len() implies book.entries@[k]@ == group[k]@ by {
        assert(operation::entries_view(book.entries@)[k] == book.entries@[k]@);
        assert(operation::entries_view(group)[k] == group[k]@);
    }
    assert forall|j: int| 0 <= j < per_book.len() && j != i implies (#[trigger] per_book[j]).book_id
        != per_book[i].book_id by {
        assert(ids[j] == per_book[j].book_id);
        assert(ids[i] != ids[j]);
    }
    assert forall|id: BookId| #[trigger] valid.entries_by_book@.contains_key(id) implies exists|j:
        int| 0 <= j < per_book.len() && (#[trigger] per_book[j]).book_id == id by {
        assert(valid.groups().contains_key(id));
        assert(ids.contains(id));
        let j = choose|j: int| 0 <= j < ids.len() && ids[j] == id;
        assert(per_book[j].book_id == id);
    }
}

/// A prepared operation counts the entries of the request, and the bytes that a record of them
/// takes: seventy-one for the header and thirty-eight for each entry.
pub proof fn law_prepared_operation_counts_the_entries(
    entries: Seq<OperationEntry>,
    accounts: Map<AccountId, AccountView>,
    valid: ValidOperation,
    prepared: PreparedOperation,
    scope: Map<BookId, InScopeBook>,
)
    requires
        operation::request_error(entries, accounts) is None,
        valid.groups() == operation::grouped(entries, accounts),
        operation::lays_out(prepared, valid, scope),
    ensures
        prepared.total_entry_count == entries.len(),
        prepared.record_length == 71 + 38 * entries.len(),
{
    posting::law_valid_request_can_be_prepared(entries, accounts);
    let ids = operation::prepared_ids(prepared.per_book@);
    assert(operation::lists_keys(ids, operation::grouped(entries, accounts)));
}

} // verus!
