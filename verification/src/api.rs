//! What a request for an operation is answered: the accounts and the books that it needs, and the
//! response to each outcome.

use crate::acceptor;
use crate::acceptor::OperationError;
use crate::accounts;
use crate::accounts::{AccountId, AccountRegistryMap, AccountView};
use crate::books;
use crate::books::{BalanceType, BookId, InScopeBook};
use crate::currency::Currency;
use crate::journal::Reply;
use crate::laws;
use crate::operation;
use crate::operation::{
    check_amounts_fit, list_keys, InvalidOperationError, Operation, OperationEntry,
    PreProcessedView, PreparedOperation, ValidOperation,
};
use crate::text;
use crate::text::decimal;
use std::collections::HashMap;
use vstd::prelude::*;

verus! {

broadcast use vstd::std_specs::hash::group_hash_axioms;

/// One balance of an account after an operation.
#[derive(Clone, Copy, Debug, PartialEq, Eq)]
pub struct BalanceDescriptor {
    pub currency: Currency,
    pub balance_type: BalanceType,
    pub balance: i128,
}

/// The response to an accepted operation.
#[derive(Debug)]
pub struct OperationResult {
    pub resulting_balances: HashMap<AccountId, Vec<BalanceDescriptor>>,
}

/// The response to an operation that was not accepted.
#[derive(Debug)]
pub enum ApiError {
    BadRequest(String),
    NotFound(String),
    Unprocessable(String),
    SystemError(String),
}

/// What such a response stands for: its status and its text.
#[verifier::ext_equal]
pub struct ApiErrorView {
    pub status: u16,
    pub text: Seq<char>,
}

impl View for ApiError {
    type V = ApiErrorView;

    open spec fn view(&self) -> ApiErrorView {
        match self {
            ApiError::BadRequest(text) => ApiErrorView { status: 400, text: text@ },
            ApiError::NotFound(text) => ApiErrorView { status: 404, text: text@ },
            ApiError::Unprocessable(text) => ApiErrorView { status: 422, text: text@ },
            ApiError::SystemError(text) => ApiErrorView { status: 500, text: text@ },
        }
    }
}

impl ApiError {
    /// The status of the response.
    pub fn status(&self) -> (status: u16)
        ensures
            status == self@.status,
    {
        match self {
            ApiError::BadRequest(_) => 400,
            ApiError::NotFound(_) => 404,
            ApiError::Unprocessable(_) => 422,
            ApiError::SystemError(_) => 500,
        }
    }
}

/// The response to a request that is not valid.
pub open spec fn validation_failed() -> ApiErrorView {
    ApiErrorView { status: 400, text: "request validation failed"@ }
}

/// The response to an operation on a book that is not in scope.
pub open spec fn book_not_found(book: BookId) -> ApiErrorView {
    ApiErrorView {
        status: 422,
        text: "Book "@ + text::decimal_digits(book as nat) + " not found"@,
    }
}

/// The response to an operation that an account cannot cover.
pub open spec fn not_enough_balance(account: AccountId) -> ApiErrorView {
    ApiErrorView {
        status: 422,
        text: "Account "@ + text::decimal_digits(account as nat) + " does not have enough balance"@,
    }
}

/// The response to an operation that a book cannot represent.
pub open spec fn balance_out_of_range(book: BookId) -> ApiErrorView {
    ApiErrorView {
        status: 422,
        text: "Book "@ + text::decimal_digits(book as nat)
            + " balance would exceed representable range"@,
    }
}

/// The name of an error of the system.
pub open spec fn error_name(error: OperationError) -> Seq<char> {
    match error {
        OperationError::AcceptorSystemFailure => "AcceptorSystemFailure"@,
        OperationError::AbortedFromFailedFlush => "AbortedFromFailedFlush"@,
        OperationError::Recv => "Recv(RecvError(()))"@,
    }
}

/// The response to an operation that got no verdict.
pub open spec fn system_error(error: OperationError) -> ApiErrorView {
    ApiErrorView { status: 500, text: "system error: "@ + error_name(error) }
}

impl From<InvalidOperationError> for ApiError {
    fn from(_value: InvalidOperationError) -> (error: ApiError)
        ensures
            error@ == validation_failed(),
    {
        ApiError::BadRequest("request validation failed".to_string())
    }
}

// What the response is, its view says; no expression names the text that is allocated for it.
impl vstd::std_specs::convert::FromSpecImpl<InvalidOperationError> for ApiError {
    open spec fn obeys_from_spec() -> bool {
        false
    }

    open spec fn from_spec(value: InvalidOperationError) -> ApiError {
        arbitrary()
    }
}

/// The accounts that the entries name, in order.
pub open spec fn named_accounts(entries: Seq<OperationEntry>) -> Seq<AccountId> {
    entries.map_values(|entry: OperationEntry| entry.account)
}

/// The accounts that a request names, in order.
pub fn account_ids(op: &Operation) -> (ids: Vec<AccountId>)
    ensures
        ids@ == named_accounts(op.entries@),
{
    let mut ids: Vec<AccountId> = Vec::with_capacity(op.entries.len());
    let mut i: usize = 0;
    while i < op.entries.len()
        invariant
            i <= op.entries@.len(),
            ids@ == named_accounts(op.entries@).take(i as int),
        decreases op.entries@.len() - i,
    {
        ids.push(op.entries[i].account);
        assert(ids@ =~= named_accounts(op.entries@).take(i + 1));
        i = i + 1;
    }
    assert(ids@ =~= named_accounts(op.entries@));
    ids
}

/// Validates a request; one that is not valid is answered so.
pub fn validate(op: Operation, accounts_in_scope: &AccountRegistryMap) -> (validated: Result<
    ValidOperation,
    ApiError,
>)
    requires
        operation::amounts_fit(op.entries@, accounts::accounts_view(accounts_in_scope@)),
    ensures
        match validated {
            Ok(valid) => {
                &&& operation::request_error(
                    op.entries@,
                    accounts::accounts_view(accounts_in_scope@),
                ) is None
                &&& valid.idempotency_key == op.idempotency_key
                &&& valid.groups() == operation::grouped(
                    op.entries@,
                    accounts::accounts_view(accounts_in_scope@),
                )
            },
            Err(error) => {
                &&& operation::request_error(
                    op.entries@,
                    accounts::accounts_view(accounts_in_scope@),
                ) is Some
                &&& error@ == validation_failed()
            },
        },
{
    match ValidOperation::parse(op, accounts_in_scope) {
        Ok(valid) => Ok(valid),
        Err(error) => Err(ApiError::from(error)),
    }
}

/// The account that each book of an operation is taken to belong to: that of its first entry.
pub open spec fn owners(groups: Map<BookId, Seq<PreProcessedView>>) -> Map<BookId, AccountId> {
    groups.map_values(|entries: Seq<PreProcessedView>| entries[0].target_account_id)
}

/// The account that each book of an operation is taken to belong to.
pub fn book_owners(valid: &ValidOperation) -> (owned: HashMap<BookId, AccountId>)
    requires
        operation::none_empty(valid.groups()),
    ensures
        owned@ == owners(valid.groups()),
{
    let keys = list_keys(&valid.entries_by_book);
    let mut owned: HashMap<BookId, AccountId> = HashMap::new();
    let mut i: usize = 0;
    while i < keys.len()
        invariant
            i <= keys@.len(),
            operation::none_empty(valid.groups()),
            operation::lists_keys(keys@, valid.entries_by_book@),
            forall|book: BookId| #[trigger]
                owned@.contains_key(book) <==> keys@.take(i as int).contains(book),
            forall|book: BookId| #[trigger]
                owned@.contains_key(book) ==> owned@[book] == owners(valid.groups())[book],
        decreases keys@.len() - i,
    {
        let book: BookId = keys[i];
        proof {
            assert(keys@.contains(keys@[i as int]));
            books::lemma_take_contains(keys@, i as int);
        }
        match valid.entries_by_book.get(&book) {
            Some(group) => {
                assert(valid.groups().contains_key(book));
                assert(valid.groups()[book] == operation::entries_view(group@));
                assert(group@[0]@ == valid.groups()[book][0]);
                owned.insert(book, group[0].target_account_id);
            },
            None => {
                assert(false);
            },
        }
        i = i + 1;
    }
    proof {
        assert(keys@.take(i as int) =~= keys@);
        assert(owned@ =~= owners(valid.groups())) by {
            assert forall|book: BookId| owned@.contains_key(book) == owners(
                valid.groups(),
            ).contains_key(book) by {
                assert(keys@.contains(book) <==> valid.entries_by_book@.contains_key(book));
            }
        }
    }
    owned
}

/// Whether each book loaded belongs to an account that is known.
pub open spec fn owners_known(
    loaded: Seq<BookId>,
    owned: Map<BookId, AccountId>,
    accounts: Map<AccountId, AccountView>,
) -> bool {
    forall|i: int|
        0 <= i < loaded.len() ==> owned.contains_key(#[trigger] loaded[i])
            && accounts.contains_key(owned[loaded[i]])
}

/// The books loaded, each with the account that it belongs to and whether that account may go
/// below zero.
pub open spec fn scope(
    loaded: Seq<BookId>,
    owned: Map<BookId, AccountId>,
    accounts: Map<AccountId, AccountView>,
) -> Map<BookId, InScopeBook> {
    Map::new(
        |book: BookId| loaded.contains(book),
        |book: BookId|
            InScopeBook {
                account_id: owned[book],
                allow_overdraft: accounts[owned[book]].allow_overdraft,
            },
    )
}

/// The books loaded, each with the account that it belongs to and whether that account may go
/// below zero.
pub fn books_in_scope(
    loaded: &Vec<BookId>,
    owned: &HashMap<BookId, AccountId>,
    loaded_accounts: &AccountRegistryMap,
) -> (in_scope: HashMap<BookId, InScopeBook>)
    requires
        owners_known(loaded@, owned@, accounts::accounts_view(loaded_accounts@)),
    ensures
        in_scope@ == scope(loaded@, owned@, accounts::accounts_view(loaded_accounts@)),
{
    let ghost view = accounts::accounts_view(loaded_accounts@);
    let mut in_scope: HashMap<BookId, InScopeBook> = HashMap::with_capacity(loaded.len());
    let mut i: usize = 0;
    assert(in_scope@ =~= scope(loaded@.take(0), owned@, view));
    while i < loaded.len()
        invariant
            i <= loaded@.len(),
            view == accounts::accounts_view(loaded_accounts@),
            owners_known(loaded@, owned@, view),
            in_scope@ == scope(loaded@.take(i as int), owned@, view),
        decreases loaded@.len() - i,
    {
        let book: BookId = loaded[i];
        proof {
            books::lemma_take_contains(loaded@, i as int);
            assert(owned@.contains_key(loaded@[i as int]));
            assert(view.contains_key(owned@[book]));
        }
        match owned.get(&book) {
            Some(account_id) => match loaded_accounts.get(account_id) {
                Some(account) => {
                    in_scope.insert(
                        book,
                        InScopeBook {
                            account_id: *account_id,
                            allow_overdraft: account.allow_overdraft,
                        },
                    );
                },
                None => {
                    assert(false);
                },
            },
            None => {
                assert(false);
            },
        }
        assert(in_scope@ =~= scope(loaded@.take(i + 1), owned@, view));
        i = i + 1;
    }
    assert(loaded@.take(i as int) =~= loaded@);
    in_scope
}

/// Lays the operation out for the books in scope; one that posts to a book that is not in scope is
/// answered so.
pub fn prepare(valid: ValidOperation, books_in_scope: &HashMap<BookId, InScopeBook>) -> (prepared:
    Result<PreparedOperation, ApiError>)
    requires
        operation::none_empty(valid.groups()),
        operation::deltas_fit(valid.groups(), books_in_scope@),
        operation::all_in_scope(valid.groups(), books_in_scope@) ==> operation::at_most_entries(
            valid.groups(),
            255,
        ),
    ensures
        match prepared {
            Ok(prepared) => {
                &&& operation::all_in_scope(valid.groups(), books_in_scope@)
                &&& operation::lays_out(prepared, valid, books_in_scope@)
            },
            Err(error) => exists|book: BookId|
                valid.groups().contains_key(book) && !books_in_scope@.contains_key(book)
                    && error@ == #[trigger] book_not_found(book),
        },
{
    match valid.into_prepared(books_in_scope) {
        Ok(prepared) => Ok(prepared),
        Err(book) => {
            let mut text = "Book ".to_string();
            text.append(decimal(book).as_str());
            text.append(" not found");
            let error = ApiError::Unprocessable(text);
            assert(error@ == book_not_found(book));
            Err(error)
        },
    }
}

/// A valid request whose books are still to be loaded.
#[derive(Debug)]
pub struct PendingRequest {
    pub valid: ValidOperation,
    /// The account that each book belongs to.
    pub owners: HashMap<BookId, AccountId>,
    pub accounts: AccountRegistryMap,
}

impl PendingRequest {
    /// The operation can be laid out by book, and the account that each of its books belongs to is
    /// known.
    pub open spec fn wf(self) -> bool {
        let groups = self.valid.groups();
        &&& operation::none_empty(groups)
        &&& operation::at_most_entries(groups, operation::MAX_ENTRIES as nat)
        &&& self.owners@ == owners(groups)
        &&& forall|book: BookId| #[trigger]
            groups.contains_key(book) ==> accounts::accounts_view(self.accounts@).contains_key(
                self.owners@[book],
            )
    }

    /// The books loaded, each with the account that it belongs to and whether that account may go
    /// below zero.
    pub open spec fn scope(self, loaded: Seq<BookId>) -> Map<BookId, InScopeBook> {
        scope(loaded, self.owners@, accounts::accounts_view(self.accounts@))
    }

    /// Takes up a request once the accounts that it names are loaded; one that is not valid is
    /// answered so. Nothing comes of a request whose amounts cannot be summed up within 128 bits.
    pub fn begin(op: Operation, loaded_accounts: AccountRegistryMap) -> (begun: Option<
        Result<PendingRequest, ApiError>,
    >)
        ensures
            ({
                let view = accounts::accounts_view(loaded_accounts@);
                match begun {
                    None => !operation::amounts_fit(op.entries@, view),
                    Some(Ok(pending)) => {
                        &&& operation::amounts_fit(op.entries@, view)
                        &&& operation::request_error(op.entries@, view) is None
                        &&& pending.wf()
                        &&& pending.valid.idempotency_key == op.idempotency_key
                        &&& pending.valid.groups() == operation::grouped(op.entries@, view)
                        &&& pending.accounts == loaded_accounts
                    },
                    Some(Err(error)) => {
                        &&& operation::amounts_fit(op.entries@, view)
                        &&& operation::request_error(op.entries@, view) is Some
                        &&& error@ == validation_failed()
                    },
                }
            }),
    {
        if !check_amounts_fit(&op, &loaded_accounts) {
            return None;
        }
        let ghost entries = op.entries@;
        let ghost view = accounts::accounts_view(loaded_accounts@);
        match validate(op, &loaded_accounts) {
            Ok(valid) => {
                proof {
                    laws::posting::law_valid_request_can_be_prepared(entries, view);
                }
                let owners = book_owners(&valid);
                let pending = PendingRequest { valid, owners, accounts: loaded_accounts };
                proof {
                    laws::posting::law_books_belong_to_known_accounts(entries, view);
                }
                Some(Ok(pending))
            },
            Err(error) => Some(Err(error)),
        }
    }

    /// The books to load, each once, in an order left open.
    pub fn book_ids(&self) -> (ids: Vec<BookId>)
        requires
            self.wf(),
        ensures
            operation::lists_keys(ids@, self.valid.groups()),
    {
        let ids = list_keys(&self.owners);
        assert forall|book: BookId| #[trigger]
            ids@.contains(book) <==> self.valid.groups().contains_key(book) by {
            assert(self.owners@.contains_key(book) == self.valid.groups().contains_key(book));
        }
        ids
    }

    /// Lays the operation out for its books once they are loaded; one that posts to a book that
    /// was not loaded is answered so. Nothing comes of an operation whose amounts cannot be summed
    /// up, book by book, within 128 bits.
    pub fn finish(self, loaded: &Vec<BookId>) -> (finished: Option<
        Result<PreparedOperation, ApiError>,
    >)
        requires
            self.wf(),
            forall|i: int|
                0 <= i < loaded@.len() ==> self.owners@.contains_key(#[trigger] loaded@[i]),
        ensures
            match finished {
                None => !operation::deltas_fit(self.valid.groups(), self.scope(loaded@)),
                Some(Ok(prepared)) => {
                    &&& operation::deltas_fit(self.valid.groups(), self.scope(loaded@))
                    &&& operation::all_in_scope(self.valid.groups(), self.scope(loaded@))
                    &&& operation::lays_out(prepared, self.valid, self.scope(loaded@))
                },
                Some(Err(error)) => {
                    &&& operation::deltas_fit(self.valid.groups(), self.scope(loaded@))
                    &&& exists|book: BookId|
                        self.valid.groups().contains_key(book) && !loaded@.contains(book) && error@
                            == #[trigger] book_not_found(book)
                },
            },
    {
        assert forall|i: int| 0 <= i < loaded@.len() implies accounts::accounts_view(
            self.accounts@,
        ).contains_key(self.owners@[#[trigger] loaded@[i]]) by {
            assert(self.valid.groups().contains_key(loaded@[i]));
        }
        let in_scope = books_in_scope(loaded, &self.owners, &self.accounts);
        if !self.valid.check_deltas_fit(&in_scope) {
            return None;
        }
        Some(prepare(self.valid, &in_scope))
    }
}

/// The balances of one account among those in which an operation leaves its books, in order.
pub open spec fn descriptors(
    balances: Seq<((AccountId, Currency, BalanceType), i128)>,
    account: AccountId,
) -> Seq<BalanceDescriptor>
    decreases balances.len(),
{
    if balances.len() == 0 {
        Seq::empty()
    } else {
        let before = descriptors(balances.drop_last(), account);
        let last = balances.last();
        if last.0.0 == account {
            before.push(
                BalanceDescriptor {
                    currency: last.0.1,
                    balance_type: last.0.2,
                    balance: last.1,
                },
            )
        } else {
            before
        }
    }
}

/// The balances in which an operation leaves its books, by account.
pub open spec fn by_account(balances: Seq<((AccountId, Currency, BalanceType), i128)>) -> Map<
    AccountId,
    Seq<BalanceDescriptor>,
> {
    Map::new(
        |account: AccountId| descriptors(balances, account).len() > 0,
        |account: AccountId| descriptors(balances, account),
    )
}

/// What resulting balances stand for.
pub open spec fn balances_view(map: Map<AccountId, Vec<BalanceDescriptor>>) -> Map<
    AccountId,
    Seq<BalanceDescriptor>,
> {
    map.map_values(|balances: Vec<BalanceDescriptor>| balances@)
}

/// The response to an accepted operation.
pub fn accepted(balances: &acceptor::EndingBalances) -> (result: OperationResult)
    ensures
        balances_view(result.resulting_balances@) == by_account(balances.entries@),
{
    let ghost all = balances.entries@;
    let mut resulting: HashMap<AccountId, Vec<BalanceDescriptor>> = HashMap::new();
    let mut i: usize = 0;
    assert(balances_view(resulting@) =~= by_account(all.take(0)));
    while i < balances.entries.len()
        invariant
            i <= balances.entries@.len(),
            all == balances.entries@,
            balances_view(resulting@) == by_account(all.take(i as int)),
        decreases balances.entries@.len() - i,
    {
        let key = balances.entries[i].0;
        let account: AccountId = key.0;
        let ghost before = resulting@;
        let mut list: Vec<BalanceDescriptor> = match resulting.remove(&account) {
            Some(list) => list,
            None => Vec::new(),
        };
        let ghost listed = list@;
        let descriptor = BalanceDescriptor {
            currency: key.1,
            balance_type: key.2,
            balance: balances.entries[i].1,
        };
        list.push(descriptor);
        resulting.insert(account, list);
        proof {
            let done = all.take(i as int);
            let next = all.take(i + 1);
            assert(next.drop_last() =~= done);
            assert(listed == descriptors(done, account)) by {
                assert(balances_view(before).contains_key(account) == before.contains_key(account));
                if before.contains_key(account) {
                    assert(balances_view(before)[account] == by_account(done)[account]);
                } else {
                    assert(!by_account(done).contains_key(account));
                    assert(descriptors(done, account) =~= Seq::empty());
                }
            }
            assert(list@ == descriptors(next, account));
            assert forall|a: AccountId| a != account implies #[trigger] descriptors(next, a)
                == descriptors(done, a) by {}
            assert forall|a: AccountId| #[trigger]
                balances_view(resulting@).contains_key(a) == by_account(next).contains_key(a) && (
                by_account(next).contains_key(a) ==> balances_view(resulting@)[a] == by_account(
                    next,
                )[a]) by {
                assert(balances_view(before).contains_key(a) == by_account(done).contains_key(a));
                if a != account {
                    assert(descriptors(next, a) == descriptors(done, a));
                    assert(resulting@.contains_key(a) == before.contains_key(a));
                    if before.contains_key(a) {
                        assert(balances_view(before)[a] == by_account(done)[a]);
                    }
                }
            }
            assert(balances_view(resulting@) =~= by_account(next));
        }
        i = i + 1;
    }
    assert(all.take(i as int) =~= all);
    OperationResult { resulting_balances: resulting }
}

/// The response to the outcome of an operation.
pub fn respond(reply: Reply) -> (response: Result<OperationResult, ApiError>)
    ensures
        match reply {
            Ok(acceptor::OperationResult::Accepted(balances)) => response is Ok && balances_view(
                response->Ok_0.resulting_balances@,
            ) == by_account(balances.entries@),
            Ok(acceptor::OperationResult::Rejected(account)) => response is Err
                && response->Err_0@ == not_enough_balance(account),
            Ok(acceptor::OperationResult::Overflow(book)) => response is Err && response->Err_0@
                == balance_out_of_range(book),
            Err(error) => response is Err && response->Err_0@ == system_error(error),
        },
{
    match reply {
        Ok(acceptor::OperationResult::Accepted(balances)) => Ok(accepted(&balances)),
        Ok(acceptor::OperationResult::Rejected(account)) => {
            let mut text = "Account ".to_string();
            text.append(decimal(account).as_str());
            text.append(" does not have enough balance");
            Err(ApiError::Unprocessable(text))
        },
        Ok(acceptor::OperationResult::Overflow(book)) => {
            let mut text = "Book ".to_string();
            text.append(decimal(book).as_str());
            text.append(" balance would exceed representable range");
            Err(ApiError::Unprocessable(text))
        },
        Err(error) => {
            let mut text = "system error: ".to_string();
            text.append(
                match error {
                    OperationError::AcceptorSystemFailure => "AcceptorSystemFailure",
                    OperationError::AbortedFromFailedFlush => "AbortedFromFailedFlush",
                    OperationError::Recv => "Recv(RecvError(()))",
                },
            );
            Err(ApiError::SystemError(text))
        },
    }
}

} // verus!
