//! What is stored, loaded and reported.

use crate::acceptor;
use crate::acceptor::EndingBalances;
use crate::acceptor_task;
use crate::accounts;
use crate::accounts::{AccountId, AccountState, AccountView};
use crate::api;
use crate::api::BalanceDescriptor;
use crate::book;
use crate::book::{Book, BookRecord};
use crate::books;
use crate::books::{BalanceType, BookId, BookView, InScopeBook};
use crate::bytes;
use crate::currency::Currency;
use crate::journal;
use crate::journal::{ContributionView, JournalEntryBytes, JournalHeaderBytes, WriteCommand};
use crate::operation;
use crate::operation::{OperationEntry, PreProcessedView, PreparedOperation, ValidOperation};
use crate::sums;
use crate::vec_map;
use std::sync::Arc;
use vstd::prelude::*;

verus! {

/// The number of entries that contributions carry.
pub open spec fn carried_entries(contributions: Seq<ContributionView>) -> nat
    decreases contributions.len(),
{
    if contributions.len() == 0 {
        0
    } else {
        carried_entries(contributions.drop_last()) + contributions.last().entries.len()
    }
}

/// Contributions with as many entries as the groups of their books carry as many as those groups.
proof fn lemma_carried_entries(
    contributions: Seq<ContributionView>,
    groups: Map<BookId, Seq<PreProcessedView>>,
    keys: Seq<BookId>,
)
    requires
        contributions.len() == keys.len(),
        forall|i: int|
            0 <= i < keys.len() ==> (#[trigger] contributions[i]).entries.len()
                == groups[keys[i]].len(),
    ensures
        carried_entries(contributions) == operation::entry_total(groups, keys),
    decreases keys.len(),
{
    if keys.len() > 0 {
        let front = contributions.drop_last();
        assert forall|i: int| 0 <= i < keys.drop_last().len() implies (
        #[trigger] front[i]).entries.len() == groups[keys.drop_last()[i]].len() by {
            assert(front[i] == contributions[i]);
        }
        lemma_carried_entries(front, groups, keys.drop_last());
        assert(contributions[keys.len() - 1].entries.len() == groups[keys[keys.len() - 1]].len());
    }
}

/// The header of a stored operation tells how many entries follow it, and how many bytes it and
/// they take.
pub proof fn law_header_tells_the_size<R>(
    command: WriteCommand<R>,
    prepared: PreparedOperation,
    valid: ValidOperation,
    scope: Map<BookId, InScopeBook>,
    books: Map<BookId, BookView>,
    timestamp_ns: u64,
    response_tx: R,
)
    requires
        operation::lays_out(prepared, valid, scope),
        acceptor::carries(command, prepared, books, timestamp_ns, response_tx),
    ensures
        command.header@.entry_count == carried_entries(command.contributions()),
        command.header@.record_length == journal::JOURNAL_HEADER_LEN + journal::JOURNAL_ENTRY_LEN
            * carried_entries(command.contributions()),
{
    let contributions = command.contributions();
    let per_book = prepared.per_book@;
    let ids = operation::prepared_ids(per_book);
    assert forall|i: int| 0 <= i < ids.len() implies (#[trigger] contributions[i]).entries.len()
        == valid.groups()[ids[i]].len() by {
        assert(acceptor::contributes(command.book_contributions@[i], per_book[i]));
        assert(per_book[i].prepares(valid.groups()[ids[i]], scope[ids[i]]));
        assert(operation::entries_view(per_book[i].entries@).len() == per_book[i].entries@.len());
    }
    lemma_carried_entries(contributions, valid.groups(), ids);
}

/// The book, the amount and the ledger code of an entry are read back from where they are stored;
/// page and line are zero until they are assigned.
pub proof fn law_entry_is_read_back(
    entry: JournalEntryBytes,
    book_id: BookId,
    amount: i128,
    ledger_code: Seq<u8>,
)
    requires
        entry@ == journal::unplaced_entry(book_id, amount, ledger_code),
    ensures
        entry.encoded().len() == 38,
        bytes::le_value(entry.encoded().subrange(0, 8)) == book_id,
        bytes::le_value(entry.encoded().subrange(8, 12)) == 0,
        bytes::le_value(entry.encoded().subrange(12, 14)) == 0,
        bytes::signed_le_value(entry.encoded().subrange(14, 30)) == amount,
        entry.encoded().subrange(30, 38) == ledger_code,
{
    assert(entry.encoded().subrange(0, 8) =~= entry.target_book_id@);
    assert(entry.encoded().subrange(8, 12) =~= entry.target_page@);
    assert(entry.encoded().subrange(12, 14) =~= entry.target_line@);
    assert(entry.encoded().subrange(14, 30) =~= entry.amount@);
    assert(entry.encoded().subrange(30, 38) =~= entry.ledger_code@);
}

/// Entries that are stored alike stand for the same.
pub proof fn law_stored_entry_is_unambiguous(left: JournalEntryBytes, right: JournalEntryBytes)
    requires
        left.encoded() == right.encoded(),
    ensures
        left@ == right@,
{
    assert(left.target_book_id@ =~= left.encoded().subrange(0, 8));
    assert(right.target_book_id@ =~= right.encoded().subrange(0, 8));
    assert(left.target_page@ =~= left.encoded().subrange(8, 12));
    assert(right.target_page@ =~= right.encoded().subrange(8, 12));
    assert(left.target_line@ =~= left.encoded().subrange(12, 14));
    assert(right.target_line@ =~= right.encoded().subrange(12, 14));
    assert(left.amount@ =~= left.encoded().subrange(14, 30));
    assert(right.amount@ =~= right.encoded().subrange(14, 30));
    assert(left.ledger_code@ =~= left.encoded().subrange(30, 38));
    assert(right.ledger_code@ =~= right.encoded().subrange(30, 38));
}

/// Headers that are stored alike stand for the same.
pub proof fn law_stored_header_is_unambiguous(left: JournalHeaderBytes, right: JournalHeaderBytes)
    requires
        left.encoded() == right.encoded(),
    ensures
        left@ == right@,
{
    assert(left.record_length@ =~= left.encoded().subrange(0, 2));
    assert(right.record_length@ =~= right.encoded().subrange(0, 2));
    assert(left.entry_count == left.encoded()[2]);
    assert(right.entry_count == right.encoded()[2]);
    assert(left.operation_id@ =~= left.encoded().subrange(3, 11));
    assert(right.operation_id@ =~= right.encoded().subrange(3, 11));
    assert(left.timestamp_ns@ =~= left.encoded().subrange(11, 19));
    assert(right.timestamp_ns@ =~= right.encoded().subrange(11, 19));
    assert(left.idempotency_key@ =~= left.encoded().subrange(19, 35));
    assert(right.idempotency_key@ =~= right.encoded().subrange(19, 35));
    assert(left.checksum@ =~= left.encoded().subrange(35, 39));
    assert(right.checksum@ =~= right.encoded().subrange(35, 39));
    assert(left.prev_hash@ =~= left.encoded().subrange(39, 71));
    assert(right.prev_hash@ =~= right.encoded().subrange(39, 71));
}

/// Loading accounts again changes nothing, and loading never changes an account in memory.
pub proof fn law_loading_accounts_again_changes_nothing(
    accounts: Map<AccountId, AccountView>,
    ids: Seq<AccountId>,
)
    ensures
        accounts::with_accounts(accounts::with_accounts(accounts, ids), ids)
            == accounts::with_accounts(accounts, ids),
        accounts.submap_of(accounts::with_accounts(accounts, ids)),
{
    assert(accounts::with_accounts(accounts::with_accounts(accounts, ids), ids)
        =~= accounts::with_accounts(accounts, ids));
}

/// An account that was handed out is handed out again, the same in every part, by every later
/// request that asks for it.
pub proof fn law_accounts_are_handed_out_again(
    map: Map<AccountId, Arc<AccountState>>,
    ids: Seq<AccountId>,
    handed_out: Map<AccountId, Arc<AccountState>>,
    later_map: Map<AccountId, Arc<AccountState>>,
    later_ids: Seq<AccountId>,
    later_handed_out: Map<AccountId, Arc<AccountState>>,
    id: AccountId,
)
    requires
        handed_out == map.restrict(ids.to_set()),
        handed_out.dom() == ids.to_set(),
        map.submap_of(later_map),
        later_handed_out == later_map.restrict(later_ids.to_set()),
        later_handed_out.dom() == later_ids.to_set(),
        ids.contains(id),
        later_ids.contains(id),
    ensures
        handed_out.contains_key(id),
        later_handed_out.contains_key(id),
        later_handed_out[id] == handed_out[id],
{
    assert(handed_out.dom().contains(id));
    assert(later_handed_out.dom().contains(id));
}

/// Loading books again changes nothing, and loading never changes a book in memory.
pub proof fn law_loading_books_again_changes_nothing(
    books: Map<BookId, BookView>,
    ids: Seq<BookId>,
)
    ensures
        books::with_books(books::with_books(books, ids), ids) == books::with_books(books, ids),
        books.submap_of(books::with_books(books, ids)),
{
    assert(books::with_books(books::with_books(books, ids), ids) =~= books::with_books(books, ids));
}

/// The descriptors of an account are the balances reported for it.
proof fn lemma_descriptors(
    balances: Seq<((AccountId, Currency, BalanceType), i128)>,
    account: AccountId,
    descriptor: BalanceDescriptor,
)
    ensures
        api::descriptors(balances, account).contains(descriptor) <==> balances.contains(
            (
                (account, descriptor.currency, descriptor.balance_type),
                descriptor.balance,
            ),
        ),
    decreases balances.len(),
{
    let reported = ((account, descriptor.currency, descriptor.balance_type), descriptor.balance);
    if balances.len() > 0 {
        let front = balances.drop_last();
        let before = api::descriptors(front, account);
        let n = balances.len() - 1;
        let last = balances[n];
        lemma_descriptors(front, account, descriptor);
        assert(balances.contains(reported) <==> (front.contains(reported) || last == reported)) by {
            if front.contains(reported) {
                let k = choose|k: int| 0 <= k < front.len() && front[k] == reported;
                assert(balances[k] == reported);
            }
            if balances.contains(reported) && last != reported {
                let k = choose|k: int| 0 <= k < balances.len() && balances[k] == reported;
                assert(front[k] == reported);
            }
        }
        if last.0.0 == account {
            let own = BalanceDescriptor {
                currency: last.0.1,
                balance_type: last.0.2,
                balance: last.1,
            };
            let after = before.push(own);
            assert(after.contains(descriptor) <==> (before.contains(descriptor) || own
                == descriptor)) by {
                if before.contains(descriptor) {
                    let k = choose|k: int| 0 <= k < before.len() && before[k] == descriptor;
                    assert(after[k] == descriptor);
                }
                if own == descriptor {
                    assert(after[before.len() as int] == descriptor);
                }
                if after.contains(descriptor) && own != descriptor {
                    let k = choose|k: int| 0 <= k < after.len() && after[k] == descriptor;
                    assert(before[k] == descriptor);
                }
            }
        }
    }
}

/// No balance is listed twice.
proof fn lemma_descriptors_once(
    balances: Seq<((AccountId, Currency, BalanceType), i128)>,
    account: AccountId,
)
    requires
        forall|i: int, j: int|
            0 <= i < j < balances.len() ==> (#[trigger] balances[i]).0 != (
            #[trigger] balances[j]).0,
    ensures
        api::descriptors(balances, account).no_duplicates(),
    decreases balances.len(),
{
    if balances.len() > 0 {
        let front = balances.drop_last();
        let n = balances.len() - 1;
        let last = balances[n];
        assert forall|i: int, j: int| 0 <= i < j < front.len() implies (#[trigger] front[i]).0 != (
        #[trigger] front[j]).0 by {
            assert(balances[i].0 != balances[j].0);
        }
        lemma_descriptors_once(front, account);
        if last.0.0 == account {
            let own = BalanceDescriptor {
                currency: last.0.1,
                balance_type: last.0.2,
                balance: last.1,
            };
            let before = api::descriptors(front, account);
            assert(!before.contains(own)) by {
                lemma_descriptors(front, account, own);
                if before.contains(own) {
                    let k = choose|k: int| 0 <= k < front.len() && front[k] == last;
                    assert(balances[k].0 != balances[n].0);
                }
            }
            assert forall|i: int, j: int|
                0 <= i < before.push(own).len() && 0 <= j < before.push(own).len() && i
                    != j implies before.push(own)[i] != before.push(own)[j] by {
                if i == before.len() {
                    assert(before[j] == before.push(own)[j]);
                } else if j == before.len() {
                    assert(before[i] == before.push(own)[i]);
                }
            }
        }
    }
}

/// The response to an accepted operation lists, under each account, exactly the balances in which
/// the operation leaves the books of that account, each once.
pub proof fn law_response_lists_every_balance(
    balances: EndingBalances,
    account: AccountId,
    descriptor: BalanceDescriptor,
)
    requires
        balances.wf(),
    ensures
        ({
            let listed = api::by_account(balances.entries@);
            let key = (account, descriptor.currency, descriptor.balance_type);
            &&& listed.contains_key(account) && listed[account].contains(descriptor)
                <==> balances@.contains_key(key) && balances@[key] == descriptor.balance
            &&& listed.contains_key(account) ==> listed[account].no_duplicates()
        }),
{
    let key = (account, descriptor.currency, descriptor.balance_type);
    lemma_descriptors(balances.entries@, account, descriptor);
    lemma_descriptors_once(balances.entries@, account);
    vec_map::lemma_entries_are_values(balances, key, descriptor.balance);
}

/// Negated terms sum up to the negated sum.
proof fn lemma_sum_negated(left: Seq<int>, right: Seq<int>)
    requires
        left.len() == right.len(),
        forall|i: int| 0 <= i < left.len() ==> #[trigger] left[i] == -right[i],
    ensures
        sums::sum(left) == -sums::sum(right),
    decreases left.len(),
{
    if left.len() > 0 {
        assert forall|i: int| 0 <= i < left.drop_last().len() implies #[trigger] left.drop_last()[i]
            == -right.drop_last()[i] by {
            assert(left[i] == -right[i]);
        }
        lemma_sum_negated(left.drop_last(), right.drop_last());
        assert(left[left.len() - 1] == -right[left.len() - 1]);
    }
}

/// The same records on a book of the other nature, from the opposite cover, come to the opposite
/// balance.
pub proof fn law_other_nature_mirrors_the_balance(left: Book, right: Book)
    requires
        left.accounting_type != right.accounting_type,
        left.cover_mirror == -right.cover_mirror,
        left.durable_unapplied@ == right.durable_unapplied@,
        left.pending_write@ == right.pending_write@,
    ensures
        left.balance() == -right.balance(),
{
    let mine = left.all_effects();
    let other = right.all_effects();
    assert forall|i: int| 0 <= i < mine.len() implies #[trigger] mine[i] == -other[i] by {
        let split = left.durable_unapplied@.len() as int;
        if i < split {
            assert(mine[i] == book::effect(left.accounting_type, left.durable_unapplied@[i]));
            assert(other[i] == book::effect(right.accounting_type, right.durable_unapplied@[i]));
        } else {
            assert(mine[i] == book::effect(left.accounting_type, left.pending_write@[i - split]));
            assert(other[i] == book::effect(
                right.accounting_type,
                right.pending_write@[i - split],
            ));
        }
    }
    lemma_sum_negated(mine, other);
}

/// What a record adds to a book: its amount if it is on the side of the book's nature, and the
/// opposite otherwise.
pub open spec fn added_by(book: Book, record: BookRecord) -> int {
    if record.accounting_type == book.accounting_type {
        record.amount as int
    } else {
        0 - record.amount
    }
}

/// A book without records has the balance of its cover.
pub proof fn law_book_without_records_has_its_cover(book: Book)
    requires
        book.durable_unapplied@.len() == 0,
        book.pending_write@.len() == 0,
    ensures
        book.balance() == book.cover_mirror,
        book.balance_fits(),
{
    let all = book.all_effects();
    assert(all =~= Seq::empty());
    assert forall|n: int| 0 <= n <= all.len() implies book::fits_i32(
        book.cover_mirror + sums::sum(#[trigger] all.take(n)),
    ) by {
        assert(all.take(n) =~= Seq::empty());
    }
}

/// One more pending record changes the balance by exactly what the record adds, however many records
/// the book has; and the balance can be computed exactly if it could be before and the new one is a
/// number of 32 bits.
pub proof fn law_one_more_pending_record_counts(before: Book, after: Book, record: BookRecord)
    requires
        after.accounting_type == before.accounting_type,
        after.cover_mirror == before.cover_mirror,
        after.durable_unapplied@ == before.durable_unapplied@,
        after.pending_write@ == before.pending_write@.push(record),
    ensures
        after.balance() == before.balance() + added_by(before, record),
        after.balance_fits() <==> before.balance_fits() && i32::MIN <= before.balance() + added_by(
            before,
            record,
        ) <= i32::MAX,
{
    let all = before.all_effects();
    let more = after.all_effects();
    assert(book::effect(before.accounting_type, record) == added_by(before, record));
    assert(more =~= all.push(added_by(before, record)));
    assert(more.drop_last() =~= all);
    assert forall|n: int| 0 <= n <= all.len() implies #[trigger] more.take(n) == all.take(n) by {
        assert(more.take(n) =~= all.take(n));
    }
    assert(more.take(more.len() as int) =~= more);
    assert(all.take(all.len() as int) =~= all);
    if after.balance_fits() {
        assert forall|n: int| 0 <= n <= all.len() implies book::fits_i32(
            before.cover_mirror + sums::sum(#[trigger] all.take(n)),
        ) by {
            assert(book::fits_i32(after.cover_mirror + sums::sum(more.take(n))));
        }
        assert(book::fits_i32(
            after.cover_mirror + sums::sum(after.all_effects().take(more.len() as int)),
        ));
    }
    if before.balance_fits() && i32::MIN <= before.balance() + added_by(before, record)
        <= i32::MAX {
        assert forall|n: int| 0 <= n <= more.len() implies book::fits_i32(
            after.cover_mirror + sums::sum(#[trigger] more.take(n)),
        ) by {
            if n <= all.len() {
                assert(book::fits_i32(before.cover_mirror + sums::sum(all.take(n))));
            }
        }
    }
}

/// One more record written down changes the balance by exactly what the record adds, however many
/// records the book has.
pub proof fn law_one_more_durable_record_counts(before: Book, after: Book, record: BookRecord)
    requires
        after.accounting_type == before.accounting_type,
        after.cover_mirror == before.cover_mirror,
        after.durable_unapplied@ == before.durable_unapplied@.push(record),
        after.pending_write@ == before.pending_write@,
    ensures
        after.balance() == before.balance() + added_by(before, record),
{
    let nature = before.accounting_type;
    let durable = book::effects(nature, before.durable_unapplied@);
    let more = book::effects(nature, after.durable_unapplied@);
    let pending = book::effects(nature, before.pending_write@);
    assert(book::effect(nature, record) == added_by(before, record));
    assert(more =~= durable.push(added_by(before, record)));
    assert(more.drop_last() =~= durable);
    sums::lemma_sum_concat(durable, pending);
    sums::lemma_sum_concat(more, pending);
}

/// Applying a record to a number changes it by what the record adds.
pub proof fn law_applied_record_counts(book: Book, record: BookRecord)
    ensures
        book::effect(book.accounting_type, record) == added_by(book, record),
{
}

/// Writing the oldest pending record down does not change the balance.
pub proof fn law_writing_down_keeps_the_balance(before: Book, after: Book)
    requires
        before.pending_write@.len() > 0,
        after.accounting_type == before.accounting_type,
        after.cover_mirror == before.cover_mirror,
        after.durable_unapplied@ == before.durable_unapplied@.push(before.pending_write@[0]),
        after.pending_write@ == before.pending_write@.skip(1),
    ensures
        after.balance() == before.balance(),
        after.balance_fits() == before.balance_fits(),
{
    assert(after.all_effects() =~= before.all_effects());
}

/// The sum of the amounts of entries in one currency.
pub open spec fn booked_amount(
    entries: Seq<acceptor_task::PreProcessedView>,
    currency: Currency,
) -> int
    decreases entries.len(),
{
    if entries.len() == 0 {
        0
    } else {
        booked_amount(entries.drop_last(), currency) + if entries.last().currency == currency {
            entries.last().amount
        } else {
            0
        }
    }
}

/// Entries in the form in which their books keep them come to what the request books.
proof fn lemma_booked_amount(
    entries: Seq<OperationEntry>,
    accounts: Map<AccountId, AccountView>,
    currency: Currency,
)
    ensures
        booked_amount(acceptor_task::all_preprocessed(entries, accounts), currency)
            == acceptor_task::booked_total(entries, accounts, currency),
    decreases entries.len(),
{
    if entries.len() > 0 {
        lemma_booked_amount(entries.drop_last(), accounts, currency);
        assert(acceptor_task::all_preprocessed(entries, accounts).drop_last()
            =~= acceptor_task::all_preprocessed(entries.drop_last(), accounts));
    }
}

/// The entries that the acceptor which takes every valid operation is handed come to zero in every
/// currency.
pub proof fn law_booked_entries_come_to_zero(
    entries: Seq<OperationEntry>,
    accounts: Map<AccountId, AccountView>,
    currency: Currency,
)
    requires
        acceptor_task::request_error(entries, accounts) is None,
    ensures
        booked_amount(acceptor_task::all_preprocessed(entries, accounts), currency) == 0,
{
    lemma_booked_amount(entries, accounts, currency);
    assert(acceptor_task::sums_to_zero(entries, accounts));
    assert(acceptor_task::booked_total(entries, accounts, currency) == 0);
}

} // verus!
