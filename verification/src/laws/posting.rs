//! What an operation does to the balances.

use crate::acceptor;
use crate::accounts;
use crate::accounts::{AccountId, AccountType, AccountView};
use crate::api;
use crate::books;
use crate::books::{BalanceType, BookId, BookView, InScopeBook};
use crate::currency::Currency;
use crate::operation;
use crate::operation::{
    OperationEntry, PreProcessedView, PreparedBook, PreparedOperation, ValidOperation,
};
use crate::sums;
use vstd::prelude::*;

verus! {

/// The sum of a quantity over the books listed.
pub open spec fn total_over(keys: Seq<BookId>, part: spec_fn(BookId) -> int) -> int
    decreases keys.len(),
{
    if keys.len() == 0 {
        0
    } else {
        total_over(keys.drop_last(), part) + part(keys.last())
    }
}

/// The sum of a quantity over entries.
pub open spec fn weigh(
    entries: Seq<PreProcessedView>,
    weight: spec_fn(PreProcessedView) -> int,
) -> int {
    sums::sum(entries.map_values(weight))
}

/// The sum of a quantity over the entries of one book.
spec fn weigh_book(
    entries: Seq<OperationEntry>,
    accounts: Map<AccountId, AccountView>,
    weight: spec_fn(PreProcessedView) -> int,
) -> spec_fn(BookId) -> int {
    |book: BookId| weigh(operation::book_entries(entries, accounts, book), weight)
}

/// The sum of a quantity over the entries of a request.
spec fn weigh_request(
    entries: Seq<OperationEntry>,
    accounts: Map<AccountId, AccountView>,
    weight: spec_fn(PreProcessedView) -> int,
) -> int
    decreases entries.len(),
{
    if entries.len() == 0 {
        0
    } else {
        weigh_request(entries.drop_last(), accounts, weight) + weight(
            operation::preprocessed(entries.last(), accounts),
        )
    }
}

/// Quantities that agree on the books listed sum up to the same.
proof fn lemma_total_same(
    keys: Seq<BookId>,
    left: spec_fn(BookId) -> int,
    right: spec_fn(BookId) -> int,
)
    requires
        forall|i: int| 0 <= i < keys.len() ==> left(#[trigger] keys[i]) == right(keys[i]),
    ensures
        total_over(keys, left) == total_over(keys, right),
    decreases keys.len(),
{
    if keys.len() > 0 {
        let front = keys.drop_last();
        assert forall|i: int| 0 <= i < front.len() implies left(#[trigger] front[i]) == right(
            front[i],
        ) by {
            assert(front[i] == keys[i]);
        }
        lemma_total_same(front, left, right);
        assert(left(keys[keys.len() - 1]) == right(keys[keys.len() - 1]));
    }
}

/// A quantity that grows on one of the books listed and nowhere else grows by as much in the sum.
proof fn lemma_total_grows(
    keys: Seq<BookId>,
    before: spec_fn(BookId) -> int,
    after: spec_fn(BookId) -> int,
    at: BookId,
    by_how_much: int,
)
    requires
        keys.no_duplicates(),
        keys.contains(at),
        after(at) == before(at) + by_how_much,
        forall|book: BookId| book != at ==> #[trigger] after(book) == before(book),
    ensures
        total_over(keys, after) == total_over(keys, before) + by_how_much,
    decreases keys.len(),
{
    let front = keys.drop_last();
    let k = choose|k: int| 0 <= k < keys.len() && keys[k] == at;
    assert(front.no_duplicates()) by {
        assert forall|i: int, j: int| 0 <= i < front.len() && 0 <= j < front.len() && i
            != j implies front[i] != front[j] by {
            assert(keys[i] != keys[j]);
        }
    }
    if k == keys.len() - 1 {
        assert forall|i: int| 0 <= i < front.len() implies after(#[trigger] front[i]) == before(
            front[i],
        ) by {
            assert(keys[i] != keys[k]);
        }
        lemma_total_same(front, after, before);
    } else {
        assert(front[k] == at);
        lemma_total_grows(front, before, after, at, by_how_much);
        assert(keys[keys.len() - 1] != keys[k]);
    }
}

/// A quantity that is nothing anywhere sums up to nothing.
proof fn lemma_total_zero(keys: Seq<BookId>, part: spec_fn(BookId) -> int)
    requires
        forall|book: BookId| #[trigger] part(book) == 0,
    ensures
        total_over(keys, part) == 0,
    decreases keys.len(),
{
    if keys.len() > 0 {
        lemma_total_zero(keys.drop_last(), part);
        assert(part(keys.last()) == 0);
    }
}

/// Whatever is summed up over the entries of a request is the same summed up book by book.
proof fn lemma_partition(
    entries: Seq<OperationEntry>,
    accounts: Map<AccountId, AccountView>,
    keys: Seq<BookId>,
    weight: spec_fn(PreProcessedView) -> int,
)
    requires
        keys.no_duplicates(),
        forall|i: int|
            0 <= i < entries.len() ==> keys.contains(
                operation::target_book(#[trigger] entries[i], accounts),
            ),
    ensures
        total_over(keys, weigh_book(entries, accounts, weight)) == weigh_request(
            entries,
            accounts,
            weight,
        ),
    decreases entries.len(),
{
    let whole = weigh_book(entries, accounts, weight);
    if entries.len() == 0 {
        assert forall|book: BookId| #[trigger] whole(book) == 0 by {
            assert(operation::book_entries(entries, accounts, book).map_values(weight)
                =~= Seq::empty());
        }
        lemma_total_zero(keys, whole);
    } else {
        let front = entries.drop_last();
        let last = entries.last();
        let at = operation::target_book(last, accounts);
        assert forall|i: int| 0 <= i < front.len() implies keys.contains(
            operation::target_book(#[trigger] front[i], accounts),
        ) by {
            assert(front[i] == entries[i]);
        }
        lemma_partition(front, accounts, keys, weight);
        let part = weigh_book(front, accounts, weight);
        let one = operation::preprocessed(last, accounts);
        assert(whole(at) == part(at) + weight(one)) by {
            let group = operation::book_entries(front, accounts, at);
            assert(group.push(one).map_values(weight) =~= group.map_values(weight).push(
                weight(one),
            ));
            assert(group.map_values(weight).push(weight(one)).drop_last() =~= group.map_values(
                weight,
            ));
        }
        assert(keys.contains(operation::target_book(entries[entries.len() - 1], accounts)));
        lemma_total_grows(keys, part, whole, at, weight(one));
    }
}

/// The book of each entry has that entry.
proof fn lemma_has_entry(
    entries: Seq<OperationEntry>,
    accounts: Map<AccountId, AccountView>,
    i: int,
)
    requires
        0 <= i < entries.len(),
    ensures
        operation::book_entries(
            entries,
            accounts,
            operation::target_book(entries[i], accounts),
        ).len() > 0,
    decreases entries.len(),
{
    if i < entries.len() - 1 {
        assert(entries.drop_last()[i] == entries[i]);
        lemma_has_entry(entries.drop_last(), accounts, i);
    }
}

/// A listing of the books of a request has the book of each entry.
proof fn lemma_lists_targets(
    entries: Seq<OperationEntry>,
    accounts: Map<AccountId, AccountView>,
    keys: Seq<BookId>,
)
    requires
        operation::lists_keys(keys, operation::grouped(entries, accounts)),
    ensures
        keys.no_duplicates(),
        forall|i: int|
            0 <= i < entries.len() ==> keys.contains(
                operation::target_book(#[trigger] entries[i], accounts),
            ),
{
    assert forall|i: int| 0 <= i < entries.len() implies keys.contains(
        operation::target_book(#[trigger] entries[i], accounts),
    ) by {
        lemma_has_entry(entries, accounts, i);
        assert(operation::grouped(entries, accounts).contains_key(
            operation::target_book(entries[i], accounts),
        ));
    }
}

/// Summed up over the books listed, the groups of a request weigh what the request weighs.
proof fn lemma_grouped_weight(
    entries: Seq<OperationEntry>,
    accounts: Map<AccountId, AccountView>,
    keys: Seq<BookId>,
    weight: spec_fn(PreProcessedView) -> int,
    part: spec_fn(BookId) -> int,
)
    requires
        operation::lists_keys(keys, operation::grouped(entries, accounts)),
        forall|book: BookId| #[trigger]
            operation::grouped(entries, accounts).contains_key(book) ==> part(book) == weigh(
                operation::grouped(entries, accounts)[book],
                weight,
            ),
    ensures
        total_over(keys, part) == weigh_request(entries, accounts, weight),
{
    lemma_lists_targets(entries, accounts, keys);
    lemma_partition(entries, accounts, keys, weight);
    let whole = weigh_book(entries, accounts, weight);
    assert forall|i: int| 0 <= i < keys.len() implies whole(#[trigger] keys[i]) == part(
        keys[i],
    ) by {
        assert(keys.contains(keys[i]));
        assert(operation::grouped(entries, accounts).contains_key(keys[i]));
    }
    lemma_total_same(keys, whole, part);
}

/// The number of entries of the books listed is the sum of their numbers.
proof fn lemma_entry_total(groups: Map<BookId, Seq<PreProcessedView>>, keys: Seq<BookId>)
    ensures
        operation::entry_total(groups, keys) == total_over(
            keys,
            |book: BookId| groups[book].len() as int,
        ),
    decreases keys.len(),
{
    if keys.len() > 0 {
        lemma_entry_total(groups, keys.drop_last());
    }
}

/// Entries that each weigh one weigh as many as they are.
proof fn lemma_weigh_ones(entries: Seq<PreProcessedView>)
    ensures
        weigh(entries, |entry: PreProcessedView| 1int) == entries.len(),
    decreases entries.len(),
{
    let one = |entry: PreProcessedView| 1int;
    if entries.len() > 0 {
        lemma_weigh_ones(entries.drop_last());
        assert(entries.map_values(one).drop_last() =~= entries.drop_last().map_values(one));
    }
}

/// A request whose entries each weigh one weighs as many as it has.
proof fn lemma_request_ones(entries: Seq<OperationEntry>, accounts: Map<AccountId, AccountView>)
    ensures
        weigh_request(entries, accounts, |entry: PreProcessedView| 1int) == entries.len(),
    decreases entries.len(),
{
    if entries.len() > 0 {
        lemma_request_ones(entries.drop_last(), accounts);
    }
}

/// A valid request can be laid out for its books: each of them has an entry, and together they
/// have the entries of the request, which are at most a hundred.
pub proof fn law_valid_request_can_be_prepared(
    entries: Seq<OperationEntry>,
    accounts: Map<AccountId, AccountView>,
)
    requires
        operation::request_error(entries, accounts) is None,
    ensures
        operation::none_empty(operation::grouped(entries, accounts)),
        operation::at_most_entries(
            operation::grouped(entries, accounts),
            operation::MAX_ENTRIES as nat,
        ),
        forall|keys: Seq<BookId>| #[trigger]
            operation::lists_keys(keys, operation::grouped(entries, accounts))
                ==> operation::entry_total(operation::grouped(entries, accounts), keys)
                == entries.len(),
{
    let groups = operation::grouped(entries, accounts);
    let one = |entry: PreProcessedView| 1int;
    let size = |book: BookId| groups[book].len() as int;
    assert forall|keys: Seq<BookId>| #[trigger]
        operation::lists_keys(keys, groups) implies operation::entry_total(groups, keys)
        == entries.len() by {
        assert forall|book: BookId| #[trigger] groups.contains_key(book) implies size(book)
            == weigh(groups[book], one) by {
            lemma_weigh_ones(groups[book]);
        }
        lemma_grouped_weight(entries, accounts, keys, one, size);
        lemma_request_ones(entries, accounts);
        lemma_entry_total(groups, keys);
    }
}

/// An amount as it counts toward the credit side: on a book of an account of credit nature what is
/// added, on one of debit nature what is taken away.
pub open spec fn toward_credit(nature: AccountType, amount: int) -> int {
    match nature {
        AccountType::Credit => amount,
        AccountType::Debit => -amount,
    }
}

/// What an entry in one currency adds to the credit side.
pub open spec fn credit_weight(
    accounts: Map<AccountId, AccountView>,
    currency: Currency,
) -> spec_fn(PreProcessedView) -> int {
    |entry: PreProcessedView|
        if entry.currency == currency {
            toward_credit(accounts[entry.target_account_id].account_type, entry.amount)
        } else {
            0
        }
}

/// What the entries of each book in one currency add to the credit side.
pub open spec fn credit_shift(
    groups: Map<BookId, Seq<PreProcessedView>>,
    accounts: Map<AccountId, AccountView>,
    currency: Currency,
) -> spec_fn(BookId) -> int {
    |book: BookId| weigh(groups[book], credit_weight(accounts, currency))
}

/// What the entries of a request add to the credit side is what their sides say.
proof fn lemma_request_credit(
    entries: Seq<OperationEntry>,
    accounts: Map<AccountId, AccountView>,
    currency: Currency,
)
    ensures
        weigh_request(entries, accounts, credit_weight(accounts, currency))
            == operation::currency_total(entries, currency),
    decreases entries.len(),
{
    if entries.len() > 0 {
        lemma_request_credit(entries.drop_last(), accounts, currency);
    }
}

/// Double entry: in every currency, what a valid operation posts to its books adds as much to the
/// credit side as to the debit side, whatever the natures of the accounts.
pub proof fn law_debits_equal_credits(
    entries: Seq<OperationEntry>,
    accounts: Map<AccountId, AccountView>,
    keys: Seq<BookId>,
    currency: Currency,
)
    requires
        operation::request_error(entries, accounts) is None,
        operation::lists_keys(keys, operation::grouped(entries, accounts)),
    ensures
        total_over(
            keys,
            credit_shift(operation::grouped(entries, accounts), accounts, currency),
        ) == 0,
{
    let groups = operation::grouped(entries, accounts);
    let weight = credit_weight(accounts, currency);
    lemma_grouped_weight(
        entries,
        accounts,
        keys,
        weight,
        credit_shift(groups, accounts, currency),
    );
    lemma_request_credit(entries, accounts, currency);
    assert(operation::balanced(entries));
    assert(operation::currency_total(entries, currency) == 0);
}

/// Of books that each occur once, each gets the amounts prepared for it, and no other book any.
pub(crate) proof fn lemma_amounts_for(per_book: Seq<PreparedBook>, id: BookId)
    requires
        operation::prepared_ids(per_book).no_duplicates(),
    ensures
        forall|i: int|
            0 <= i < per_book.len() && (#[trigger] per_book[i]).book_id == id
                ==> acceptor::amounts_for(per_book, id) == acceptor::posted_amounts(
                per_book[i].entries@,
            ),
        !operation::prepared_ids(per_book).contains(id) ==> acceptor::amounts_for(
            per_book,
            id,
        ).len() == 0,
    decreases per_book.len(),
{
    if per_book.len() > 0 {
        let ids = operation::prepared_ids(per_book);
        let front = per_book.drop_last();
        let front_ids = operation::prepared_ids(front);
        assert(front_ids =~= ids.drop_last());
        assert(front_ids.no_duplicates()) by {
            assert forall|i: int, j: int|
                0 <= i < front_ids.len() && 0 <= j < front_ids.len() && i
                    != j implies front_ids[i] != front_ids[j] by {
                assert(ids[i] != ids[j]);
            }
        }
        lemma_amounts_for(front, id);
        let n = per_book.len() - 1;
        assert(ids[n] == per_book[n].book_id);
        if per_book[n].book_id == id {
            assert(!front_ids.contains(id)) by {
                if front_ids.contains(id) {
                    let k = choose|k: int| 0 <= k < front_ids.len() && front_ids[k] == id;
                    assert(ids[k] != ids[n]);
                }
            }
            assert(acceptor::amounts_for(per_book, id) =~= acceptor::posted_amounts(
                per_book[n].entries@,
            ));
            assert forall|i: int|
                0 <= i < per_book.len() && (#[trigger] per_book[i]).book_id
                    == id implies acceptor::amounts_for(per_book, id) == acceptor::posted_amounts(
                per_book[i].entries@,
            ) by {
                assert(ids[i] == ids[n]);
            }
        } else {
            assert forall|i: int|
                0 <= i < per_book.len() && (#[trigger] per_book[i]).book_id
                    == id implies acceptor::amounts_for(per_book, id) == acceptor::posted_amounts(
                per_book[i].entries@,
            ) by {
                assert(front[i] == per_book[i]);
            }
            if !ids.contains(id) && front_ids.contains(id) {
                let k = choose|k: int| 0 <= k < front_ids.len() && front_ids[k] == id;
                assert(ids[k] == id);
            }
        }
    }
}

/// Further amounts waiting in a book move its balance by their sum.
proof fn lemma_staged_balance(book: BookView, amounts: Seq<i128>)
    ensures
        book.staged(amounts).balance() == book.balance() + sums::sum(sums::exact(amounts)),
{
    assert(book.staged(amounts).amounts() =~= book.amounts() + sums::exact(amounts));
    sums::lemma_sum_concat(book.amounts(), sums::exact(amounts));
}

/// An accepted operation moves the balance of each of its books by the sum of the entries that go
/// to it, to the balance that was projected, and touches no other book.
pub proof fn law_acceptance_moves_each_book_by_its_entries(
    prepared: PreparedOperation,
    valid: ValidOperation,
    scope: Map<BookId, InScopeBook>,
    books: Map<BookId, BookView>,
)
    requires
        operation::lays_out(prepared, valid, scope),
        acceptor::judgeable(books, prepared.per_book@),
    ensures
        forall|i: int|
            0 <= i < prepared.per_book@.len() ==> acceptor::staged(
                books,
                prepared.per_book@,
            )[(#[trigger] prepared.per_book@[i]).book_id].balance() == acceptor::projected(
                books,
                prepared.per_book@[i],
            ) && acceptor::projected(books, prepared.per_book@[i])
                == books[prepared.per_book@[i].book_id].balance() + sums::sum(
                operation::view_amounts(valid.groups()[prepared.per_book@[i].book_id]),
            ),
        forall|id: BookId|
            books.contains_key(id) && !(#[trigger] valid.groups().contains_key(id))
                ==> acceptor::staged(books, prepared.per_book@)[id] == books[id],
{
    let per_book = prepared.per_book@;
    let ids = operation::prepared_ids(per_book);
    assert forall|i: int| 0 <= i < per_book.len() implies acceptor::staged(books, per_book)[(
    #[trigger] per_book[i]).book_id].balance() == acceptor::projected(books, per_book[i])
        && acceptor::projected(books, per_book[i]) == books[per_book[i].book_id].balance()
        + sums::sum(operation::view_amounts(valid.groups()[per_book[i].book_id])) by {
        let book = per_book[i];
        lemma_amounts_for(per_book, book.book_id);
        let amounts = acceptor::posted_amounts(book.entries@);
        lemma_staged_balance(books[book.book_id], amounts);
        assert(book.prepares(valid.groups()[ids[i]], scope[ids[i]]));
        assert(ids[i] == book.book_id);
        assert(operation::view_amounts(operation::entries_view(book.entries@)) =~= sums::exact(
            amounts,
        ));
        assert(books.contains_key(book.book_id));
    }
    assert forall|id: BookId|
        books.contains_key(id) && !(#[trigger] valid.groups().contains_key(
            id,
        )) implies acceptor::staged(books, per_book)[id] == books[id] by {
        assert(!ids.contains(id));
        lemma_amounts_for(per_book, id);
        assert(books[id].staged(acceptor::amounts_for(per_book, id)) =~= books[id]);
    }
}

/// None of the books of an operation refuses it unless the operation is refused.
pub(crate) proof fn lemma_no_refusal(books: Map<BookId, BookView>, per_book: Seq<PreparedBook>, i: int)
    requires
        acceptor::first_refusal(books, per_book) is None,
        0 <= i < per_book.len(),
    ensures
        acceptor::refusal(books, per_book[i]) is None,
    decreases per_book.len(),
{
    if i < per_book.len() - 1 {
        assert(per_book.drop_last()[i] == per_book[i]);
        lemma_no_refusal(books, per_book.drop_last(), i);
    }
}

/// No overdraft: an accepted operation leaves every book that must not go below zero at zero or
/// above, and every balance within 128 bits.
pub proof fn law_acceptance_never_overdraws(
    prepared: PreparedOperation,
    valid: ValidOperation,
    scope: Map<BookId, InScopeBook>,
    books: Map<BookId, BookView>,
)
    requires
        operation::lays_out(prepared, valid, scope),
        acceptor::judgeable(books, prepared.per_book@),
        acceptor::first_refusal(books, prepared.per_book@) is None,
    ensures
        forall|id: BookId| #[trigger]
            valid.groups().contains_key(id) ==> {
                let balance = acceptor::staged(books, prepared.per_book@)[id].balance();
                &&& sums::fits_i128(balance)
                &&& !scope[id].allow_overdraft ==> balance >= 0
            },
{
    law_acceptance_moves_each_book_by_its_entries(prepared, valid, scope, books);
    let per_book = prepared.per_book@;
    let ids = operation::prepared_ids(per_book);
    assert forall|id: BookId| #[trigger] valid.groups().contains_key(id) implies ({
        let balance = acceptor::staged(books, prepared.per_book@)[id].balance();
        &&& sums::fits_i128(balance)
        &&& !scope[id].allow_overdraft ==> balance >= 0
    }) by {
        assert(ids.contains(id));
        let i = choose|i: int| 0 <= i < ids.len() && ids[i] == id;
        lemma_no_refusal(books, per_book, i);
        assert(per_book[i].prepares(valid.groups()[ids[i]], scope[ids[i]]));
    }
}

/// An operation is refused exactly if one of its books refuses it, and the answer is the reason of
/// the first that does: the book whose balance would leave the 128-bit range, or the account whose
/// book would go below zero though it must not.
pub proof fn law_refusal_names_its_cause(books: Map<BookId, BookView>, per_book: Seq<PreparedBook>)
    ensures
        match acceptor::first_refusal(books, per_book) {
            Some(result) => exists|i: int|
                #![trigger per_book[i]]
                0 <= i < per_book.len() && acceptor::refusal(books, per_book[i]) == Some(result) && (
                forall|j: int| 0 <= j < i ==> acceptor::refusal(books, #[trigger] per_book[j]) is None)
                    && match result {
                    acceptor::OperationResult::Accepted(_) => false,
                    acceptor::OperationResult::Rejected(account) => account
                        == per_book[i].account_id && !per_book[i].allow_overdraft
                        && acceptor::projected(books, per_book[i]) < 0,
                    acceptor::OperationResult::Overflow(book) => book == per_book[i].book_id
                        && !sums::fits_i128(acceptor::projected(books, per_book[i])),
                },
            None => forall|i: int|
                0 <= i < per_book.len() ==> acceptor::refusal(books, #[trigger] per_book[i]) is None,
        },
    decreases per_book.len(),
{
    if per_book.len() > 0 {
        let front = per_book.drop_last();
        law_refusal_names_its_cause(books, front);
        let n = per_book.len() - 1;
        match acceptor::first_refusal(books, front) {
            Some(result) => {
                let i = choose|i: int|
                    #![trigger front[i]]
                    0 <= i < front.len() && acceptor::refusal(books, front[i]) == Some(result) && (
                    forall|j: int|
                        0 <= j < i ==> acceptor::refusal(books, #[trigger] front[j]) is None);
                assert(per_book[i] == front[i]);
                assert forall|j: int| 0 <= j < i implies acceptor::refusal(
                    books,
                    #[trigger] per_book[j],
                ) is None by {
                    assert(front[j] == per_book[j]);
                }
            },
            None => {
                assert forall|j: int| 0 <= j < n implies acceptor::refusal(
                    books,
                    #[trigger] per_book[j],
                ) is None by {
                    assert(front[j] == per_book[j]);
                }
                assert(per_book.last() == per_book[n]);
            },
        }
    }
}

/// Under what a book's balance is reported.
pub open spec fn balance_key(book: PreparedBook) -> (AccountId, Currency, BalanceType) {
    (book.account_id, book.currency, book.balance_type)
}

/// The balance reported under a key is that of the last book reported under it.
proof fn lemma_reported(books: Map<BookId, BookView>, per_book: Seq<PreparedBook>, i: int)
    requires
        0 <= i < per_book.len(),
        forall|j: int|
            i < j < per_book.len() ==> balance_key(#[trigger] per_book[j]) != balance_key(
                per_book[i],
            ),
    ensures
        acceptor::ending_balances(books, per_book).contains_key(balance_key(per_book[i])),
        acceptor::ending_balances(books, per_book)[balance_key(per_book[i])]
            == acceptor::projected(books, per_book[i]) as i128,
    decreases per_book.len(),
{
    let n = per_book.len() - 1;
    if i < n {
        let front = per_book.drop_last();
        assert(front[i] == per_book[i]);
        assert forall|j: int| i < j < front.len() implies balance_key(#[trigger] front[j])
            != balance_key(front[i]) by {
            assert(front[j] == per_book[j]);
        }
        lemma_reported(books, front, i);
        assert(balance_key(per_book[n]) != balance_key(per_book[i]));
    }
}

/// An entry of a book names, by account, currency and balance type, that book.
pub(crate) proof fn lemma_entry_names_book(
    entries: Seq<OperationEntry>,
    accounts: Map<AccountId, AccountView>,
    book: BookId,
    k: int,
)
    requires
        operation::first_fault(entries, accounts) is None,
        0 <= k < operation::book_entries(entries, accounts, book).len(),
    ensures
        ({
            let entry = operation::book_entries(entries, accounts, book)[k];
            let key = (entry.currency, entry.balance_type);
            &&& accounts.contains_key(entry.target_account_id)
            &&& accounts[entry.target_account_id].books.contains_key(key)
            &&& accounts[entry.target_account_id].books[key] == book
        }),
    decreases entries.len(),
{
    let front = entries.drop_last();
    if k < operation::book_entries(front, accounts, book).len() {
        lemma_entry_names_book(front, accounts, book, k);
    }
}

/// Every book of a valid request belongs to an account that is known.
pub proof fn law_books_belong_to_known_accounts(
    entries: Seq<OperationEntry>,
    accounts: Map<AccountId, AccountView>,
)
    requires
        operation::request_error(entries, accounts) is None,
    ensures
        forall|book: BookId| #[trigger]
            operation::grouped(entries, accounts).contains_key(book) ==> accounts.contains_key(
                api::owners(operation::grouped(entries, accounts))[book],
            ),
{
    let groups = operation::grouped(entries, accounts);
    assert forall|book: BookId| #[trigger] groups.contains_key(
        book,
    ) implies accounts.contains_key(api::owners(groups)[book]) by {
        lemma_entry_names_book(entries, accounts, book, 0);
    }
}

/// Once its books are loaded, every book of a valid request is in scope, under an account that is
/// known, and in memory: the request cannot fail for want of a book.
pub proof fn law_loaded_books_are_in_scope(
    entries: Seq<OperationEntry>,
    accounts: Map<AccountId, AccountView>,
    ids: Seq<BookId>,
    books: Map<BookId, BookView>,
)
    requires
        operation::request_error(entries, accounts) is None,
        operation::lists_keys(ids, operation::grouped(entries, accounts)),
    ensures
        ({
            let groups = operation::grouped(entries, accounts);
            let owned = api::owners(groups);
            let loaded = books::distinct(ids);
            let scope = api::scope(loaded, owned, accounts);
            &&& api::owners_known(loaded, owned, accounts)
            &&& operation::all_in_scope(groups, scope)
            &&& forall|book: BookId| #[trigger]
                groups.contains_key(book) ==> scope[book].account_id == owned[book]
                    && scope[book].allow_overdraft == accounts[owned[book]].allow_overdraft
                    && books::with_books(books, ids).contains_key(book)
        }),
{
    let groups = operation::grouped(entries, accounts);
    let owned = api::owners(groups);
    let loaded = books::distinct(ids);
    let scope = api::scope(loaded, owned, accounts);
    books::lemma_distinct(ids);
    assert forall|i: int| 0 <= i < loaded.len() implies owned.contains_key(#[trigger] loaded[i])
        && accounts.contains_key(owned[loaded[i]]) by {
        let book = loaded[i];
        assert(loaded.contains(book));
        assert(ids.contains(book));
        assert(groups.contains_key(book));
        lemma_entry_names_book(entries, accounts, book, 0);
    }
    assert forall|book: BookId| #[trigger] groups.contains_key(book) implies scope.contains_key(
        book,
    ) && scope[book].account_id == owned[book] && scope[book].allow_overdraft
        == accounts[owned[book]].allow_overdraft && books::with_books(books, ids).contains_key(
        book,
    ) by {
        assert(ids.contains(book));
        assert(loaded.contains(book));
    }
}

/// The balances reported for an accepted operation are those in which it leaves its books: each
/// book of an account is reported under that account, and no two under the same currency and
/// balance type.
pub proof fn law_reported_balances_are_those_kept(
    entries: Seq<OperationEntry>,
    accounts: Map<AccountId, AccountView>,
    valid: ValidOperation,
    scope: Map<BookId, InScopeBook>,
    prepared: PreparedOperation,
    books: Map<BookId, BookView>,
)
    requires
        operation::request_error(entries, accounts) is None,
        valid.groups() == operation::grouped(entries, accounts),
        forall|book: BookId| #[trigger]
            valid.groups().contains_key(book) ==> scope[book].account_id == api::owners(
                valid.groups(),
            )[book],
        operation::lays_out(prepared, valid, scope),
        acceptor::judgeable(books, prepared.per_book@),
        acceptor::first_refusal(books, prepared.per_book@) is None,
    ensures
        forall|i: int|
            #![trigger prepared.per_book@[i]]
            0 <= i < prepared.per_book@.len() ==> {
                let book = prepared.per_book@[i];
                let reported = acceptor::ending_balances(books, prepared.per_book@);
                &&& reported.contains_key(balance_key(book))
                &&& reported[balance_key(book)] == acceptor::staged(
                    books,
                    prepared.per_book@,
                )[book.book_id].balance()
            },
{
    let per_book = prepared.per_book@;
    let ids = operation::prepared_ids(per_book);
    let groups = valid.groups();
    law_acceptance_moves_each_book_by_its_entries(prepared, valid, scope, books);
    assert forall|i: int| 0 <= i < per_book.len() implies {
        let key = balance_key(#[trigger] per_book[i]);
        accounts[key.0].books[(key.1, key.2)] == per_book[i].book_id
    } by {
        let id = per_book[i].book_id;
        assert(ids[i] == id);
        assert(ids.contains(id));
        assert(groups.contains_key(id));
        assert(per_book[i].prepares(groups[ids[i]], scope[ids[i]]));
        lemma_entry_names_book(entries, accounts, id, 0);
    }
    assert forall|i: int|
        #![trigger per_book[i]]
        0 <= i < per_book.len() implies ({
        let book = per_book[i];
        let reported = acceptor::ending_balances(books, per_book);
        &&& reported.contains_key(balance_key(book))
        &&& reported[balance_key(book)] == acceptor::staged(books, per_book)[book.book_id].balance()
    }) by {
        assert forall|j: int| i < j < per_book.len() implies balance_key(#[trigger] per_book[j])
            != balance_key(per_book[i]) by {
            assert(ids[i] != ids[j]);
            assert(ids[i] == per_book[i].book_id && ids[j] == per_book[j].book_id);
        }
        lemma_reported(books, per_book, i);
        lemma_no_refusal(books, per_book, i);
    }
}

/// Whether each book of an operation is posted to in one currency, for accounts of one nature.
pub open spec fn one_sided(
    groups: Map<BookId, Seq<PreProcessedView>>,
    accounts: Map<AccountId, AccountView>,
) -> bool {
    forall|book: BookId, k: int|
        #![trigger groups[book][k]]
        groups.contains_key(book) && 0 <= k < groups[book].len() ==> groups[book][k].currency
            == groups[book][0].currency
            && accounts[groups[book][k].target_account_id].account_type
            == accounts[groups[book][0].target_account_id].account_type
}

/// How the balance of each book that is kept in one currency changes, as it counts toward the
/// credit side.
pub open spec fn credit_change(
    groups: Map<BookId, Seq<PreProcessedView>>,
    accounts: Map<AccountId, AccountView>,
    before: Map<BookId, BookView>,
    after: Map<BookId, BookView>,
    currency: Currency,
) -> spec_fn(BookId) -> int {
    |book: BookId|
        if groups[book][0].currency == currency {
            toward_credit(
                accounts[groups[book][0].target_account_id].account_type,
                after[book].balance() - before[book].balance(),
            )
        } else {
            0
        }
}

/// Whether every account is as it was when it was first loaded.
pub open spec fn all_initial(accounts: Map<AccountId, AccountView>) -> bool {
    forall|id: AccountId| #[trigger]
        accounts.contains_key(id) ==> accounts::loadable(id) && accounts[id]
            == accounts::initial_account(id)
}

/// The registry holds accounts as they were when they were first loaded: none at first, and loading
/// adds no other.
pub proof fn law_registry_holds_initial_accounts(
    accounts: Map<AccountId, AccountView>,
    ids: Seq<AccountId>,
)
    requires
        all_initial(accounts),
        accounts::all_loadable(accounts, ids),
    ensures
        all_initial(Map::empty()),
        all_initial(accounts::with_accounts(accounts, ids)),
{
    let later = accounts::with_accounts(accounts, ids);
    assert forall|id: AccountId| #[trigger] later.contains_key(id) implies accounts::loadable(id)
        && later[id] == accounts::initial_account(id) by {
        if !accounts.contains_key(id) {
            let i = choose|i: int| 0 <= i < ids.len() && ids[i] == id;
            assert(!accounts.contains_key(ids[i]));
        }
    }
}

/// A valid operation on accounts that the registry holds posts to each book in one currency, for
/// accounts of one nature.
pub proof fn law_operations_on_registered_accounts_are_one_sided(
    entries: Seq<OperationEntry>,
    accounts: Map<AccountId, AccountView>,
)
    requires
        operation::request_error(entries, accounts) is None,
        all_initial(accounts),
    ensures
        one_sided(operation::grouped(entries, accounts), accounts),
{
    let groups = operation::grouped(entries, accounts);
    assert forall|book: BookId, k: int|
        #![trigger groups[book][k]]
        groups.contains_key(book) && 0 <= k < groups[book].len() implies groups[book][k].currency
        == groups[book][0].currency && accounts[groups[book][k].target_account_id].account_type
        == accounts[groups[book][0].target_account_id].account_type by {
        lemma_entry_names_book(entries, accounts, book, k);
        lemma_entry_names_book(entries, accounts, book, 0);
    }
}

/// Entries of one currency and one nature add their sum to the one side.
proof fn lemma_one_side(
    entries: Seq<PreProcessedView>,
    accounts: Map<AccountId, AccountView>,
    currency: Currency,
    kept_in: Currency,
    nature: AccountType,
)
    requires
        forall|k: int|
            0 <= k < entries.len() ==> (#[trigger] entries[k]).currency == kept_in
                && accounts[entries[k].target_account_id].account_type == nature,
    ensures
        weigh(entries, credit_weight(accounts, currency)) == if kept_in == currency {
            toward_credit(nature, sums::sum(operation::view_amounts(entries)))
        } else {
            0
        },
    decreases entries.len(),
{
    let weight = credit_weight(accounts, currency);
    if entries.len() > 0 {
        let front = entries.drop_last();
        let n = entries.len() - 1;
        assert forall|k: int| 0 <= k < front.len() implies (#[trigger] front[k]).currency
            == kept_in && accounts[front[k].target_account_id].account_type == nature by {
            assert(front[k] == entries[k]);
        }
        lemma_one_side(front, accounts, currency, kept_in, nature);
        assert(entries.map_values(weight).drop_last() =~= front.map_values(weight));
        assert(operation::view_amounts(entries).drop_last() =~= operation::view_amounts(front));
        assert(entries[n].currency == kept_in);
    }
}

/// Double entry on the balances: in every currency, accepting a valid operation raises the balances
/// of accounts of credit nature, taken together, by as much as those of accounts of debit nature.
pub proof fn law_accepted_operation_keeps_the_ledger_balanced(
    entries: Seq<OperationEntry>,
    accounts: Map<AccountId, AccountView>,
    valid: ValidOperation,
    scope: Map<BookId, InScopeBook>,
    prepared: PreparedOperation,
    books: Map<BookId, BookView>,
    currency: Currency,
)
    requires
        operation::request_error(entries, accounts) is None,
        valid.groups() == operation::grouped(entries, accounts),
        operation::lays_out(prepared, valid, scope),
        acceptor::judgeable(books, prepared.per_book@),
        one_sided(valid.groups(), accounts),
    ensures
        total_over(
            operation::prepared_ids(prepared.per_book@),
            credit_change(
                valid.groups(),
                accounts,
                books,
                acceptor::staged(books, prepared.per_book@),
                currency,
            ),
        ) == 0,
{
    let groups = valid.groups();
    let per_book = prepared.per_book@;
    let ids = operation::prepared_ids(per_book);
    let after = acceptor::staged(books, per_book);
    law_acceptance_moves_each_book_by_its_entries(prepared, valid, scope, books);
    law_debits_equal_credits(entries, accounts, ids, currency);
    let shift = credit_shift(groups, accounts, currency);
    let change = credit_change(groups, accounts, books, after, currency);
    assert forall|i: int| 0 <= i < ids.len() implies shift(#[trigger] ids[i]) == change(
        ids[i],
    ) by {
        let book = ids[i];
        assert(book == per_book[i].book_id);
        assert(ids.contains(book));
        assert(groups.contains_key(book));
        let group = groups[book];
        assert forall|k: int| 0 <= k < group.len() implies (#[trigger] group[k]).currency
            == group[0].currency && accounts[group[k].target_account_id].account_type
            == accounts[group[0].target_account_id].account_type by {
            assert(groups[book][k] == group[k]);
        }
        lemma_one_side(
            group,
            accounts,
            currency,
            group[0].currency,
            accounts[group[0].target_account_id].account_type,
        );
    }
    lemma_total_same(ids, shift, change);
}

/// An accepted operation leaves every balance that could be held in 128 bits so: what was judged
/// can be judged again.
pub proof fn law_accepting_keeps_balances_in_range(
    prepared: PreparedOperation,
    valid: ValidOperation,
    scope: Map<BookId, InScopeBook>,
    books: Map<BookId, BookView>,
)
    requires
        operation::lays_out(prepared, valid, scope),
        acceptor::judgeable(books, prepared.per_book@),
        acceptor::first_refusal(books, prepared.per_book@) is None,
    ensures
        forall|id: BookId| #[trigger]
            books.contains_key(id) && books[id].fits() ==> acceptor::staged(
                books,
                prepared.per_book@,
            )[id].fits(),
{
    law_acceptance_never_overdraws(prepared, valid, scope, books);
    law_acceptance_moves_each_book_by_its_entries(prepared, valid, scope, books);
    assert forall|id: BookId| #[trigger]
        books.contains_key(id) && books[id].fits() implies acceptor::staged(
        books,
        prepared.per_book@,
    )[id].fits() by {
        let after = acceptor::staged(books, prepared.per_book@);
        if valid.groups().contains_key(id) {
            assert(sums::fits_i128(after[id].balance()));
        } else {
            assert(after[id] == books[id]);
        }
    }
}

} // verus!
