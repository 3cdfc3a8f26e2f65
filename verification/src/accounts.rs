//! Accounts: their nature, their books, and the registry of those in memory.

use crate::books;
use crate::books::{BalanceType, BookId};
use crate::currency::Currency;
use crate::vec_map::VecMap;
use std::collections::HashMap;
use std::sync::Arc;
use vstd::prelude::*;

verus! {

broadcast use vstd::std_specs::hash::group_hash_axioms;

/// Names an account.
pub type AccountId = u64;

/// The accounts in memory, each under its identifier.
pub type AccountRegistryMap = HashMap<AccountId, Arc<AccountState>>;

/// The side of the ledger on which an account, or one entry, stands.
#[derive(Clone, Copy, Debug, PartialEq, Eq, Structural)]
pub enum AccountType {
    Debit,
    Credit,
}

/// An account in memory.
#[derive(Debug)]
pub struct AccountState {
    pub account_type: AccountType,
    pub allow_overdraft: bool,
    pub books: VecMap<(Currency, BalanceType), BookId>,
}

/// An account, as a request refers to it.
pub type Account = AccountState;

/// What an account in memory stands for.
#[verifier::ext_equal]
pub struct AccountView {
    pub account_type: AccountType,
    pub allow_overdraft: bool,
    pub books: Map<(Currency, BalanceType), BookId>,
}

impl View for AccountState {
    type V = AccountView;

    open spec fn view(&self) -> AccountView {
        AccountView {
            account_type: self.account_type,
            allow_overdraft: self.allow_overdraft,
            books: self.books@,
        }
    }
}

/// What each account in memory stands for.
pub open spec fn accounts_view(map: Map<AccountId, Arc<AccountState>>) -> Map<
    AccountId,
    AccountView,
> {
    map.map_values(|account: Arc<AccountState>| (*account)@)
}

/// The currency in which a newly loaded account keeps its books.
pub const INITIAL_CURRENCY: Currency = 123;

/// Whether the books of the account can be numbered.
pub open spec fn loadable(id: AccountId) -> bool {
    0 < id && id * 3 <= u64::MAX
}

/// An account as it is when it is first loaded: of credit nature, without overdraft, with three
/// books of its own.
pub open spec fn initial_account(id: AccountId) -> AccountView {
    AccountView {
        account_type: AccountType::Credit,
        allow_overdraft: false,
        books: map![
            (INITIAL_CURRENCY, BalanceType::Available) => (id * 3 - 2) as BookId,
            (INITIAL_CURRENCY, BalanceType::Current) => (id * 3 - 1) as BookId,
            (INITIAL_CURRENCY, BalanceType::Hold) => (id * 3) as BookId,
        ],
    }
}

impl AccountState {
    /// The account as it is when it is first loaded.
    pub fn load(id: AccountId) -> (account: AccountState)
        requires
            loadable(id),
        ensures
            account@ == initial_account(id),
            account.books.wf(),
    {
        let mut books: VecMap<(Currency, BalanceType), BookId> = VecMap::new();
        books.insert((INITIAL_CURRENCY, BalanceType::Available), (id * 3) - 2);
        books.insert((INITIAL_CURRENCY, BalanceType::Current), (id * 3) - 1);
        books.insert((INITIAL_CURRENCY, BalanceType::Hold), id * 3);
        assert(books@ =~= initial_account(id).books);
        AccountState { account_type: AccountType::Credit, allow_overdraft: false, books }
    }
}

/// Calls `std::sync::Arc::clone`: another handle to the same account.
#[verifier::external_body]
pub(crate) fn share(account: &Arc<AccountState>) -> (shared: Arc<AccountState>)
    ensures
        shared == *account,
{
    Arc::clone(account)
}

/// The accounts in memory.
#[derive(Debug)]
pub struct AccountRegistry {
    pub map: AccountRegistryMap,
}

impl View for AccountRegistry {
    type V = Map<AccountId, AccountView>;

    open spec fn view(&self) -> Map<AccountId, AccountView> {
        accounts_view(self.map@)
    }
}

/// The accounts with those of `ids` that are missing loaded.
pub open spec fn with_accounts(
    accounts: Map<AccountId, AccountView>,
    ids: Seq<AccountId>,
) -> Map<AccountId, AccountView> {
    Map::new(
        |id: AccountId| accounts.contains_key(id) || ids.contains(id),
        |id: AccountId|
            if accounts.contains_key(id) {
                accounts[id]
            } else {
                initial_account(id)
            },
    )
}

/// Whether every missing account of `ids` can be loaded.
pub open spec fn all_loadable(accounts: Map<AccountId, AccountView>, ids: Seq<AccountId>) -> bool {
    forall|i: int|
        0 <= i < ids.len() && !accounts.contains_key(#[trigger] ids[i]) ==> loadable(ids[i])
}

impl AccountRegistry {
    /// No account.
    pub fn new() -> (registry: AccountRegistry)
        ensures
            registry@ == Map::<AccountId, AccountView>::empty(),
    {
        let registry = AccountRegistry { map: HashMap::new() };
        assert(registry@ =~= Map::<AccountId, AccountView>::empty());
        registry
    }

    /// Whether every account of `ids` that is missing can be loaded.
    pub fn can_load(&self, ids: &Vec<AccountId>) -> (can: bool)
        ensures
            can == all_loadable(self@, ids@),
    {
        let mut i: usize = 0;
        while i < ids.len()
            invariant
                i <= ids@.len(),
                forall|k: int|
                    0 <= k < i && !self@.contains_key(#[trigger] ids@[k]) ==> loadable(ids@[k]),
            decreases ids@.len() - i,
        {
            let id: AccountId = ids[i];
            if !self.map.contains_key(&id) && (id == 0 || id > u64::MAX / 3) {
                assert(!self@.contains_key(ids@[i as int]) && !loadable(ids@[i as int]));
                return false;
            }
            i = i + 1;
        }
        true
    }

    /// Loads the accounts that are missing, and hands out those asked for; an account in memory
    /// stays as it is, and is handed out again.
    pub fn get_accounts(&mut self, ids: &Vec<AccountId>) -> (loaded: AccountRegistryMap)
        requires
            all_loadable(old(self)@, ids@),
        ensures
            final(self)@ == with_accounts(old(self)@, ids@),
            old(self).map@.submap_of(final(self).map@),
            loaded@ == final(self).map@.restrict(ids@.to_set()),
            loaded@.dom() == ids@.to_set(),
    {
        let ghost before = self@;
        let ghost map_before = self.map@;
        let mut loaded: AccountRegistryMap = HashMap::new();
        let mut i: usize = 0;
        assert(self@ =~= with_accounts(before, ids@.take(0)));
        while i < ids.len()
            invariant
                i <= ids@.len(),
                all_loadable(before, ids@),
                self@ == with_accounts(before, ids@.take(i as int)),
                map_before.submap_of(self.map@),
                loaded@ == self.map@.restrict(ids@.take(i as int).to_set()),
            decreases ids@.len() - i,
        {
            let id: AccountId = ids[i];
            proof {
                books::lemma_take_contains(ids@, i as int);
            }
            let ghost map = self.map@;
            if !self.map.contains_key(&id) {
                assert(!self@.contains_key(id));
                assert(!before.contains_key(ids@[i as int]));
                let account = Arc::new(AccountState::load(id));
                self.map.insert(id, account);
                assert(accounts_view(map.insert(id, account)) =~= accounts_view(map).insert(
                    id,
                    initial_account(id),
                ));
                assert(map_before.submap_of(self.map@)) by {
                    assert forall|known: AccountId| #[trigger]
                        map_before.dom().contains(known) implies self.map@.dom().contains(known)
                        && map_before[known] == self.map@[known] by {
                        assert(map.dom().contains(known));
                    }
                }
            } else {
                assert(self@.contains_key(id));
            }
            assert(self@ =~= with_accounts(before, ids@.take(i + 1)));
            match self.map.get(&id) {
                Some(account) => {
                    loaded.insert(id, share(account));
                },
                None => {
                    assert(false);
                },
            }
            assert(loaded@ =~= self.map@.restrict(ids@.take(i + 1).to_set()));
            i = i + 1;
        }
        assert(ids@.take(i as int) =~= ids@);
        assert(loaded@.dom() =~= ids@.to_set()) by {
            assert forall|id: AccountId| ids@.to_set().contains(id) implies self.map@.contains_key(
                id,
            ) by {
                assert(self@.contains_key(id));
            }
        }
        loaded
    }
}

/// Accounts that are loaded afresh never share a book: each of an account's books belongs to that
/// account alone.
pub proof fn law_initial_books_are_private(
    left: AccountId,
    right: AccountId,
    left_key: (Currency, BalanceType),
    right_key: (Currency, BalanceType),
)
    requires
        loadable(left),
        loadable(right),
        initial_account(left).books.contains_key(left_key),
        initial_account(right).books.contains_key(right_key),
        initial_account(left).books[left_key] == initial_account(right).books[right_key],
    ensures
        left == right,
        left_key == right_key,
{
}

} // verus!
