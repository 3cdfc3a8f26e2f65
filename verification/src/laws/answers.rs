//! What a request is answered, and in which words.

use crate::acceptor::{EndingBalances, OperationError};
use crate::acceptor_task;
use crate::accounts;
use crate::accounts::{AccountId, AccountState};
use crate::api;
use crate::api::{ApiError, BalanceDescriptor, PendingRequest};
use crate::books::BookId;
use crate::laws::posting;
use crate::laws::records;
use crate::operation;
use crate::operation::{InvalidOperationError, OperationEntry, ValidOperation};
use crate::text;
use std::sync::Arc;
use vstd::prelude::*;

verus! {

/// The number that decimal digits spell.
pub open spec fn spelled(digits: Seq<char>) -> int
    decreases digits.len(),
{
    if digits.len() == 0 {
        0
    } else {
        10 * spelled(digits.drop_last()) + (digits.last() as int - 48)
    }
}

/// A number as text is made of digits, spells the number, and has no zero to spare in front.
pub proof fn law_decimal_spells_the_number(value: nat)
    ensures
        spelled(text::decimal_digits(value)) == value,
        text::decimal_digits(value).len() > 0,
        forall|i: int|
            0 <= i < text::decimal_digits(value).len() ==> '0' <= #[trigger] text::decimal_digits(
                value,
            )[i] <= '9',
        text::decimal_digits(value).len() > 1 ==> text::decimal_digits(value)[0] != '0',
    decreases value,
{
    let digits = text::decimal_digits(value);
    if value < 10 {
        assert(digits.drop_last() =~= Seq::empty());
        assert(spelled(Seq::<char>::empty()) == 0);
    } else {
        let front = text::decimal_digits(value / 10);
        law_decimal_spells_the_number(value / 10);
        assert(digits.drop_last() =~= front);
        assert forall|i: int| 0 <= i < digits.len() implies '0' <= #[trigger] digits[i] <= '9' by {
            if i < front.len() {
                assert(digits[i] == front[i]);
            }
        }
        assert(digits[0] == front[0]);
        if front.len() == 1 {
            assert(front[0] != '0') by {
                if front[0] == '0' {
                    assert(front.drop_last() =~= Seq::empty());
                    assert(spelled(Seq::<char>::empty()) == 0);
                    assert(spelled(front) == 0);
                }
            }
        }
    }
}

/// Each kind of response has its status, and the text that it was made with.
pub proof fn law_each_response_has_its_status(error: ApiError)
    ensures
        match error {
            ApiError::BadRequest(words) => error@.status == 400 && error@.text == words@,
            ApiError::NotFound(words) => error@.status == 404 && error@.text == words@,
            ApiError::Unprocessable(words) => error@.status == 422 && error@.text == words@,
            ApiError::SystemError(words) => error@.status == 500 && error@.text == words@,
        },
{
}

/// The words of the responses: a request that is not valid is a bad request; a missing book, an
/// account that cannot cover the operation and a book that cannot represent it are named by their
/// numbers, and cannot be processed; whatever else went wrong is an error of the system, by its name.
pub proof fn law_responses_say_what_went_wrong(number: u64, error: OperationError)
    ensures
        api::validation_failed().status == 400,
        api::validation_failed().text == "request validation failed"@,
        api::book_not_found(number).status == 422,
        api::book_not_found(number).text == "Book "@ + text::decimal_digits(number as nat)
            + " not found"@,
        api::not_enough_balance(number).status == 422,
        api::not_enough_balance(number).text == "Account "@ + text::decimal_digits(number as nat)
            + " does not have enough balance"@,
        api::balance_out_of_range(number).status == 422,
        api::balance_out_of_range(number).text == "Book "@ + text::decimal_digits(number as nat)
            + " balance would exceed representable range"@,
        api::system_error(error).status == 500,
        api::system_error(error).text == "system error: "@ + match error {
            OperationError::AcceptorSystemFailure => "AcceptorSystemFailure"@,
            OperationError::AbortedFromFailedFlush => "AbortedFromFailedFlush"@,
            OperationError::Recv => "Recv(RecvError(()))"@,
        },
{
}

/// The words of the errors.
pub proof fn law_errors_in_words(
    invalid: InvalidOperationError,
    error: OperationError,
    plain: acceptor_task::OperationError,
)
    ensures
        invalid.words() == match invalid {
            InvalidOperationError::TooManyEntries => "too many entries in request"@,
            InvalidOperationError::AccountNotFound => "account not found"@,
            InvalidOperationError::ZeroAmountEntry => "entry with zero amount is not allowed"@,
            InvalidOperationError::NonZeroSumEntries => "entries are not DR/CR balanced"@,
            InvalidOperationError::LedgerCodeInvalid => "ledger code must be 8-character ASCII"@,
            InvalidOperationError::BookNotFound => "book not found"@,
        },
        error.words() == match error {
            OperationError::AcceptorSystemFailure => "acceptor is no longer running"@,
            OperationError::AbortedFromFailedFlush => "operation aborted due to failed flush"@,
            OperationError::Recv => "acceptor dropped response channel"@,
        },
        plain.words() == match plain {
            acceptor_task::OperationError::AcceptorSystemFailure => {
                "acceptor is no longer running"@
            },
            acceptor_task::OperationError::WriterSystemFailure => "writer is no longer running"@,
        },
{
}

/// The accounts that a request needs are those that its entries name, in order.
pub proof fn law_accounts_are_those_named(entries: Seq<OperationEntry>, i: int)
    ensures
        api::named_accounts(entries).len() == entries.len(),
        0 <= i < entries.len() ==> api::named_accounts(entries)[i] == entries[i].account,
{
}

/// The account that a book of a valid request is taken to belong to is that of the first entry kept
/// for the book, and one of that account's books is the book.
pub proof fn law_books_belong_to_an_account_that_has_them(
    entries: Seq<OperationEntry>,
    scope: Map<AccountId, Arc<AccountState>>,
    valid: ValidOperation,
    book: BookId,
)
    requires
        operation::request_error(entries, accounts::accounts_view(scope)) is None,
        valid.groups() == operation::grouped(entries, accounts::accounts_view(scope)),
        valid.entries_by_book@.contains_key(book),
    ensures
        ({
            let owner = api::owners(valid.groups())[book];
            let first = valid.entries_by_book@[book]@[0];
            &&& api::owners(valid.groups()).contains_key(book)
            &&& owner == first.target_account_id
            &&& scope.contains_key(owner)
            &&& scope[owner].books@.contains_key((first.currency, first.balance_type))
            &&& scope[owner].books@[(first.currency, first.balance_type)] == book
        }),
        forall|id: BookId| #[trigger]
            api::owners(valid.groups()).contains_key(id) <==> valid.entries_by_book@.contains_key(
                id,
            ),
{
    let view = accounts::accounts_view(scope);
    let group = valid.entries_by_book@[book]@;
    assert(valid.groups().contains_key(book));
    assert(valid.groups()[book] == operation::entries_view(group));
    assert(operation::entries_view(group).len() == group.len());
    posting::law_valid_request_can_be_prepared(entries, view);
    assert(operation::grouped(entries, view).contains_key(book));
    assert(valid.groups()[book].len() > 0);
    assert(operation::entries_view(group)[0] == group[0]@);
    posting::lemma_entry_names_book(entries, view, book, 0);
    assert forall|id: BookId| #[trigger]
        api::owners(valid.groups()).contains_key(id) <==> valid.entries_by_book@.contains_key(
            id,
        ) by {
        assert(valid.groups().contains_key(id) == valid.entries_by_book@.contains_key(id));
    }
}

/// The books in scope are those loaded, each for the account that it belongs to, with that account's
/// leave to overdraw.
pub proof fn law_scope_is_what_was_loaded(
    loaded: Seq<BookId>,
    owned: Map<BookId, AccountId>,
    loaded_accounts: Map<AccountId, Arc<AccountState>>,
    book: BookId,
)
    requires
        api::owners_known(loaded, owned, accounts::accounts_view(loaded_accounts)),
    ensures
        ({
            let scope = api::scope(loaded, owned, accounts::accounts_view(loaded_accounts));
            &&& scope.contains_key(book) <==> loaded.contains(book)
            &&& loaded.contains(book) ==> scope[book].account_id == owned[book]
                && scope[book].allow_overdraft == loaded_accounts[owned[book]].allow_overdraft
        }),
{
    let view = accounts::accounts_view(loaded_accounts);
    if loaded.contains(book) {
        let i = choose|i: int| 0 <= i < loaded.len() && loaded[i] == book;
        assert(view.contains_key(owned[loaded[i]]));
        assert(view[owned[book]] == (*loaded_accounts[owned[book]])@);
    }
}

/// The books in scope for a request that is taken up are those loaded, each for the account of the
/// first entry kept for it, with that account's leave to overdraw.
pub proof fn law_pending_request_is_for_its_own_books(
    pending: PendingRequest,
    loaded: Seq<BookId>,
    book: BookId,
)
    requires
        pending.wf(),
        forall|i: int| 0 <= i < loaded.len() ==> pending.owners@.contains_key(#[trigger] loaded[i]),
    ensures
        pending.owners@.contains_key(book) <==> pending.valid.entries_by_book@.contains_key(book),
        pending.scope(loaded).contains_key(book) <==> loaded.contains(book),
        loaded.contains(book) ==> {
            let owner = pending.valid.entries_by_book@[book]@[0].target_account_id;
            &&& pending.owners@[book] == owner
            &&& pending.accounts@.contains_key(owner)
            &&& pending.scope(loaded)[book].account_id == owner
            &&& pending.scope(loaded)[book].allow_overdraft
                == pending.accounts@[owner].allow_overdraft
        },
{
    let groups = pending.valid.groups();
    assert(groups.contains_key(book) == pending.valid.entries_by_book@.contains_key(book));
    assert(pending.owners@.contains_key(book) == groups.contains_key(book));
    if loaded.contains(book) {
        let i = choose|i: int| 0 <= i < loaded.len() && loaded[i] == book;
        assert(pending.owners@.contains_key(loaded[i]));
        let group = pending.valid.entries_by_book@[book]@;
        assert(groups[book] == operation::entries_view(group));
        assert(operation::entries_view(group).len() == group.len());
        assert(groups[book].len() > 0);
        assert(operation::entries_view(group)[0] == group[0]@);
        let view = accounts::accounts_view(pending.accounts@);
        assert(view.contains_key(pending.owners@[book]));
        assert(view[pending.owners@[book]] == (*pending.accounts@[pending.owners@[book]])@);
    }
}

/// The response to an accepted operation lists under each account exactly the balances with which
/// the operation was answered for it, each once.
pub proof fn law_response_is_what_was_answered(
    balances: EndingBalances,
    listed: Map<AccountId, Vec<BalanceDescriptor>>,
    account: AccountId,
    descriptor: BalanceDescriptor,
)
    requires
        balances.wf(),
        api::balances_view(listed) == api::by_account(balances.entries@),
    ensures
        ({
            let key = (account, descriptor.currency, descriptor.balance_type);
            &&& listed.contains_key(account) && listed[account]@.contains(descriptor)
                <==> balances@.contains_key(key) && balances@[key] == descriptor.balance
            &&& listed.contains_key(account) ==> listed[account]@.no_duplicates()
                && listed[account]@.len() > 0
        }),
{
    records::law_response_lists_every_balance(balances, account, descriptor);
    let view = api::balances_view(listed);
    assert(view.contains_key(account) == listed.contains_key(account));
    if listed.contains_key(account) {
        assert(view[account] == listed[account]@);
        assert(api::by_account(balances.entries@).contains_key(account));
    }
}

} // verus!
