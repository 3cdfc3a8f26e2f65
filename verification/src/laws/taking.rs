//! What the acceptor that takes every valid operation does to the balances.

use crate::acceptor_task;
use crate::acceptor_task::{
    AcceptorCommand, BalanceKey, PreProcessedView, ValidOperation, WriteCommand,
};
use crate::accounts::AccountId;
use crate::batch::{BatchStep, Event};
use crate::books::BalanceType;
use crate::currency::Currency;
use crate::laws::batching;
use vstd::prelude::*;

verus! {

/// The entries of an operation that go to one account.
pub open spec fn posted_to(operation: ValidOperation, account: AccountId) -> Seq<PreProcessedView> {
    acceptor_task::account_entries(acceptor_task::entries_view(operation.entries@), account)
}

/// Whether an operation posts to an account, and there in one currency and balance type only.
pub open spec fn posts_only(
    operation: ValidOperation,
    account: AccountId,
    currency: Currency,
    balance_type: BalanceType,
) -> bool {
    &&& posted_to(operation, account).len() > 0
    &&& forall|k: int|
        0 <= k < posted_to(operation, account).len() ==> (#[trigger] posted_to(
            operation,
            account,
        )[k]).currency == currency && posted_to(operation, account)[k].balance_type
            == balance_type
}

/// What is posted to an account in one currency and balance type only is all posted to one balance.
proof fn lemma_one_kind(
    entries: Seq<PreProcessedView>,
    account: AccountId,
    currency: Currency,
    balance_type: BalanceType,
)
    requires
        forall|k: int|
            0 <= k < acceptor_task::account_entries(entries, account).len() ==> (
            #[trigger] acceptor_task::account_entries(entries, account)[k]).currency == currency
                && acceptor_task::account_entries(entries, account)[k].balance_type
                == balance_type,
    ensures
        acceptor_task::key_entries(entries, (account, currency, balance_type))
            == acceptor_task::account_entries(entries, account),
    decreases entries.len(),
{
    if entries.len() > 0 {
        let front = entries.drop_last();
        let all = acceptor_task::account_entries(entries, account);
        let before = acceptor_task::account_entries(front, account);
        assert forall|k: int| 0 <= k < before.len() implies (#[trigger] before[k]).currency
            == currency && before[k].balance_type == balance_type by {
            assert(all[k] == before[k]);
        }
        lemma_one_kind(front, account, currency, balance_type);
        if entries.last().target_account_id == account {
            assert(all[before.len() as int] == entries.last());
        }
    }
}

/// A balance reported under a currency and a balance type counts what was posted to the account in
/// that currency and balance type, and nothing else: what it was, and what the operation adds to it.
pub proof fn law_reported_balance_counts_its_currency_only<R>(
    batch: Seq<WriteCommand<R>>,
    balances: Map<BalanceKey, i128>,
    command: AcceptorCommand<R>,
    timestamp_ns: u128,
    later_batch: Seq<WriteCommand<R>>,
    later_balances: Map<BalanceKey, i128>,
    account: AccountId,
)
    requires
        acceptor_task::recordable(
            balances,
            acceptor_task::entries_view(command.operations.entries@),
        ),
        acceptor_task::taken(
            batch,
            balances,
            command,
            timestamp_ns,
            later_batch,
            later_balances,
        ),
        posted_to(command.operations, account).len() > 0,
    ensures
        later_batch.last().ending_balances@.contains_key(account),
        ({
            let entries = acceptor_task::entries_view(command.operations.entries@);
            let reported = later_batch.last().ending_balances@[account];
            let key = (account, reported.0, reported.1);
            &&& key == acceptor_task::key_of(posted_to(command.operations, account)[0])
            &&& reported.2 == acceptor_task::balance_of(balances, key) + acceptor_task::key_total(
                entries,
                key,
            )
            &&& reported.2 == acceptor_task::balance_of(later_balances, key)
        }),
{
    let entries = acceptor_task::entries_view(command.operations.entries@);
    let first = posted_to(command.operations, account)[0];
    lemma_posted(entries, account, 0);
    assert(first.target_account_id == account);
    assert(acceptor_task::key_entries(entries, acceptor_task::key_of(first)).len() > 0);
}

/// What is posted to an account is posted to one of its balances.
proof fn lemma_posted(entries: Seq<PreProcessedView>, account: AccountId, k: int)
    requires
        0 <= k < acceptor_task::account_entries(entries, account).len(),
    ensures
        ({
            let entry = acceptor_task::account_entries(entries, account)[k];
            &&& entry.target_account_id == account
            &&& acceptor_task::key_entries(entries, acceptor_task::key_of(entry)).len() > 0
        }),
    decreases entries.len(),
{
    let front = entries.drop_last();
    if k < acceptor_task::account_entries(front, account).len() {
        lemma_posted(front, account, k);
    }
}

/// Resulting balances: of two operations taken one after the other that both post to an account in
/// the same currency and balance type only, the second is answered with the balance that the first
/// was answered with and what the second adds to it. The first operation on a balance is answered
/// with what it adds.
pub proof fn law_second_operation_builds_on_the_first<R>(
    balances: Map<BalanceKey, i128>,
    first_batch: Seq<WriteCommand<R>>,
    first: AcceptorCommand<R>,
    first_time: u128,
    with_first: Seq<WriteCommand<R>>,
    after_first: Map<BalanceKey, i128>,
    second_batch: Seq<WriteCommand<R>>,
    second: AcceptorCommand<R>,
    second_time: u128,
    with_second: Seq<WriteCommand<R>>,
    after_second: Map<BalanceKey, i128>,
    account: AccountId,
    currency: Currency,
    balance_type: BalanceType,
)
    requires
        acceptor_task::recordable(
            balances,
            acceptor_task::entries_view(first.operations.entries@),
        ),
        acceptor_task::taken(first_batch, balances, first, first_time, with_first, after_first),
        acceptor_task::recordable(
            after_first,
            acceptor_task::entries_view(second.operations.entries@),
        ),
        acceptor_task::taken(
            second_batch,
            after_first,
            second,
            second_time,
            with_second,
            after_second,
        ),
        posts_only(first.operations, account, currency, balance_type),
        posts_only(second.operations, account, currency, balance_type),
    ensures
        ({
            let one = with_first.last().ending_balances@;
            let two = with_second.last().ending_balances@;
            &&& one.contains_key(account)
            &&& one[account].0 == currency
            &&& one[account].1 == balance_type
            &&& two.contains_key(account)
            &&& two[account].0 == currency
            &&& two[account].1 == balance_type
            &&& two[account].2 == one[account].2 + acceptor_task::account_total(
                acceptor_task::entries_view(second.operations.entries@),
                account,
            )
            &&& !balances.contains_key((account, currency, balance_type)) ==> one[account].2
                == acceptor_task::account_total(
                acceptor_task::entries_view(first.operations.entries@),
                account,
            )
        }),
{
    lemma_one_kind(
        acceptor_task::entries_view(first.operations.entries@),
        account,
        currency,
        balance_type,
    );
    lemma_one_kind(
        acceptor_task::entries_view(second.operations.entries@),
        account,
        currency,
        balance_type,
    );
    assert(posted_to(first.operations, account)[0].currency == currency);
    assert(posted_to(second.operations, account)[0].currency == currency);
    law_reported_balance_counts_its_currency_only(
        first_batch,
        balances,
        first,
        first_time,
        with_first,
        after_first,
        account,
    );
    law_reported_balance_counts_its_currency_only(
        second_batch,
        after_first,
        second,
        second_time,
        with_second,
        after_second,
        account,
    );
}

/// An operation changes the balances that it posts to, each by what it adds there, and no others.
pub proof fn law_only_balances_posted_to_change<R>(
    batch: Seq<WriteCommand<R>>,
    balances: Map<BalanceKey, i128>,
    command: AcceptorCommand<R>,
    timestamp_ns: u128,
    later_batch: Seq<WriteCommand<R>>,
    later_balances: Map<BalanceKey, i128>,
    key: BalanceKey,
)
    requires
        acceptor_task::recordable(
            balances,
            acceptor_task::entries_view(command.operations.entries@),
        ),
        acceptor_task::taken(
            batch,
            balances,
            command,
            timestamp_ns,
            later_batch,
            later_balances,
        ),
    ensures
        acceptor_task::balance_of(later_balances, key) == acceptor_task::balance_of(balances, key)
            + acceptor_task::key_total(
            acceptor_task::entries_view(command.operations.entries@),
            key,
        ),
        acceptor_task::key_entries(
            acceptor_task::entries_view(command.operations.entries@),
            key,
        ).len() == 0 ==> later_balances.get(key) == balances.get(key),
{
    let entries = acceptor_task::entries_view(command.operations.entries@);
    let own = acceptor_task::key_entries(entries, key);
    if own.len() == 0 {
        assert(own.map_values(|entry: PreProcessedView| entry.amount) =~= Seq::empty());
    }
}

/// The batches sent, one behind the other, and then what is gathered are the operations that came
/// in, in order: a command adds itself at the end, and any other event adds nothing.
pub proof fn law_sent_and_gathered_grow_by_what_comes_in<R>(
    sent: Seq<WriteCommand<R>>,
    buffer: Seq<WriteCommand<R>>,
    room: usize,
    balances: Map<BalanceKey, i128>,
    event: Event<AcceptorCommand<R>>,
    timestamp_ns: u128,
    later_buffer: Seq<WriteCommand<R>>,
    later_room: usize,
    later_balances: Map<BalanceKey, i128>,
    step: BatchStep<WriteCommand<R>>,
)
    requires
        acceptor_task::stepped(
            buffer,
            room,
            balances,
            event,
            timestamp_ns,
            later_buffer,
            later_room,
            later_balances,
            step,
        ),
    ensures
        ({
            let before = sent + buffer;
            let after = batching::sent_with(sent, step.flush) + later_buffer;
            match event {
                Event::Received(command) => acceptor_task::taken(
                    before,
                    balances,
                    command,
                    timestamp_ns,
                    after,
                    later_balances,
                ),
                _ => after == before,
            }
        }),
{
    let before = sent + buffer;
    let after = batching::sent_with(sent, step.flush) + later_buffer;
    let gathered = match step.flush {
        Some(batch) => batch@,
        None => later_buffer,
    };
    assert(after =~= sent + gathered);
    if event is Received {
        assert(after.drop_last() =~= sent + gathered.drop_last());
    }
}

/// Balances that are the same are the same without a batch.
proof fn lemma_undone_same<R>(
    left: Map<BalanceKey, i128>,
    right: Map<BalanceKey, i128>,
    batch: Seq<WriteCommand<R>>,
    key: BalanceKey,
)
    requires
        forall|k: BalanceKey| #[trigger]
            acceptor_task::balance_of(left, k) == acceptor_task::balance_of(right, k),
    ensures
        acceptor_task::balance_of(acceptor_task::undone_batch(left, batch), key)
            == acceptor_task::balance_of(acceptor_task::undone_batch(right, batch), key),
    decreases batch.len(),
{
    if batch.len() > 0 {
        let found = batch.last().earlier_balances@;
        let one = left.union_prefer_right(found);
        let two = right.union_prefer_right(found);
        assert forall|k: BalanceKey| #[trigger]
            acceptor_task::balance_of(one, k) == acceptor_task::balance_of(two, k) by {
            assert(acceptor_task::balance_of(left, k) == acceptor_task::balance_of(right, k));
        }
        lemma_undone_same(one, two, batch.drop_last(), key);
    }
}

/// A batch that cannot be handed over does not count: whatever a balance comes to without the
/// operations gathered so far, it comes to without one more as well.
pub proof fn law_operations_taken_back_do_not_count<R>(
    batch: Seq<WriteCommand<R>>,
    balances: Map<BalanceKey, i128>,
    command: AcceptorCommand<R>,
    timestamp_ns: u128,
    later_batch: Seq<WriteCommand<R>>,
    later_balances: Map<BalanceKey, i128>,
    key: BalanceKey,
)
    requires
        acceptor_task::taken(
            batch,
            balances,
            command,
            timestamp_ns,
            later_batch,
            later_balances,
        ),
    ensures
        acceptor_task::balance_of(acceptor_task::undone_batch(later_balances, later_batch), key)
            == acceptor_task::balance_of(acceptor_task::undone_batch(balances, batch), key),
        acceptor_task::undone_batch(balances, Seq::<WriteCommand<R>>::empty()) == balances,
{
    let found = later_batch.last().earlier_balances@;
    let back = later_balances.union_prefer_right(found);
    assert forall|k: BalanceKey| #[trigger]
        acceptor_task::balance_of(back, k) == acceptor_task::balance_of(balances, k) by {}
    lemma_undone_same(back, balances, batch, key);
}

} // verus!
