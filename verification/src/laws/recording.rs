//! What recording and giving up do to the states of the books, and what loading puts into memory.

use crate::accounts;
use crate::accounts::{AccountId, AccountState, AccountType};
use crate::books;
use crate::books::{BalanceType, BookId, BookState};
use crate::bytes;
use crate::journal;
use crate::journal::{
    BookContribution, ContributionView, JournalCoverBytes, JournalCoverView, WriteCommand,
};
use crate::vec_map;
use crate::vec_map::VecMap;
use std::sync::Arc;
use vstd::prelude::*;

verus! {

/// Whether no two contributions go to the same book.
pub open spec fn contributions_once(contributions: Seq<BookContribution>) -> bool {
    forall|i: int, j: int|
        0 <= i < j < contributions.len() ==> (#[trigger] contributions[i]).book_id != (
        #[trigger] contributions[j]).book_id
}

/// Of contributions that each go to another book, each is all that its book gets, and no other book
/// gets anything.
proof fn lemma_entries_once(contributions: Seq<ContributionView>, id: BookId)
    requires
        forall|i: int, j: int|
            0 <= i < j < contributions.len() ==> (#[trigger] contributions[i]).book_id != (
            #[trigger] contributions[j]).book_id,
    ensures
        forall|i: int|
            0 <= i < contributions.len() && (#[trigger] contributions[i]).book_id == id
                ==> journal::entries_for(contributions, id) == contributions[i].entries,
        (forall|i: int| 0 <= i < contributions.len() ==> (#[trigger] contributions[i]).book_id != id)
            ==> journal::entries_for(contributions, id).len() == 0,
    decreases contributions.len(),
{
    if contributions.len() > 0 {
        let front = contributions.drop_last();
        let n = contributions.len() - 1;
        assert forall|i: int, j: int| 0 <= i < j < front.len() implies (#[trigger] front[i]).book_id
            != (#[trigger] front[j]).book_id by {
            assert(contributions[i].book_id != contributions[j].book_id);
        }
        lemma_entries_once(front, id);
        if contributions[n].book_id == id {
            assert forall|i: int| 0 <= i < front.len() implies (#[trigger] front[i]).book_id
                != id by {
                assert(contributions[i].book_id != contributions[n].book_id);
            }
            assert(journal::entries_for(contributions, id) =~= contributions[n].entries);
            assert forall|i: int|
                0 <= i < contributions.len() && (#[trigger] contributions[i]).book_id
                    == id implies i == n by {
                if i < n {
                    assert(contributions[i].book_id != contributions[n].book_id);
                }
            }
        } else {
            assert forall|i: int|
                0 <= i < contributions.len() && (#[trigger] contributions[i]).book_id
                    == id implies journal::entries_for(contributions, id)
                == contributions[i].entries by {
                assert(front[i] == contributions[i]);
            }
            if forall|i: int|
                0 <= i < contributions.len() ==> (#[trigger] contributions[i]).book_id != id {
                assert forall|i: int| 0 <= i < front.len() implies (#[trigger] front[i]).book_id
                    != id by {
                    assert(front[i] == contributions[i]);
                }
            }
        }
    }
}

/// What contributions stand for is their books and their entries.
proof fn lemma_contributions<R>(command: WriteCommand<R>)
    requires
        contributions_once(command.book_contributions@),
    ensures
        command.contributions().len() == command.book_contributions@.len(),
        forall|i: int|
            0 <= i < command.book_contributions@.len() ==> (
            #[trigger] command.contributions()[i]).book_id
                == command.book_contributions@[i].book_id && command.contributions()[i].entries
                == command.book_contributions@[i].entries@,
        forall|i: int, j: int|
            0 <= i < j < command.contributions().len() ==> (
            #[trigger] command.contributions()[i]).book_id != (
            #[trigger] command.contributions()[j]).book_id,
{
    let own = command.book_contributions@;
    assert forall|i: int, j: int| 0 <= i < j < command.contributions().len() implies (
    #[trigger] command.contributions()[i]).book_id != (
    #[trigger] command.contributions()[j]).book_id by {
        assert(own[i].book_id != own[j].book_id);
    }
}

/// An operation can be recorded or given up exactly if each book that it posted to is in memory and
/// at least as many amounts wait there as it posted.
pub proof fn law_covered_exactly_if_as_many_wait<R>(
    command: WriteCommand<R>,
    map: Map<BookId, BookState>,
)
    requires
        contributions_once(command.book_contributions@),
    ensures
        journal::covered(books::books_view(map), command.contributions()) <==> forall|i: int|
            0 <= i < command.book_contributions@.len() ==> {
                let contribution = #[trigger] command.book_contributions@[i];
                &&& map.contains_key(contribution.book_id)
                &&& contribution.entries@.len()
                    <= map[contribution.book_id].pending_journal@.len()
            },
{
    let own = command.book_contributions@;
    let view = books::books_view(map);
    lemma_contributions(command);
    assert forall|i: int| 0 <= i < own.len() implies journal::entries_for(
        command.contributions(),
        (#[trigger] own[i]).book_id,
    ) == own[i].entries@ by {
        lemma_entries_once(command.contributions(), own[i].book_id);
        assert(command.contributions()[i].book_id == own[i].book_id);
    }
    if journal::covered(view, command.contributions()) {
        assert forall|i: int| 0 <= i < own.len() implies map.contains_key(
            (#[trigger] own[i]).book_id,
        ) && own[i].entries@.len() <= map[own[i].book_id].pending_journal@.len() by {
            assert(view.contains_key(command.contributions()[i].book_id));
        }
    }
    if forall|i: int|
        0 <= i < own.len() ==> {
            let contribution = #[trigger] own[i];
            &&& map.contains_key(contribution.book_id)
            &&& contribution.entries@.len() <= map[contribution.book_id].pending_journal@.len()
        } {
        assert forall|i: int| 0 <= i < command.contributions().len() implies view.contains_key(
            (#[trigger] command.contributions()[i]).book_id,
        ) && journal::entries_for(
            command.contributions(),
            command.contributions()[i].book_id,
        ).len() <= view[command.contributions()[i].book_id].pending.len() by {
            assert(map.contains_key(own[i].book_id));
        }
    }
}

/// Recording an operation puts its entries, in order, behind those recorded in each of its books,
/// and takes off as many of the amounts that have waited longest there; nothing else changes in any
/// book.
pub proof fn law_recording_moves_entries_into_the_books<R>(
    command: WriteCommand<R>,
    map: Map<BookId, BookState>,
    later: Map<BookId, BookState>,
    id: BookId,
    i: int,
)
    requires
        contributions_once(command.book_contributions@),
        journal::covered(books::books_view(map), command.contributions()),
        books::books_view(later) == journal::settled(
            books::books_view(map),
            command.contributions(),
        ),
        map.contains_key(id),
    ensures
        map.dom() == later.dom(),
        later[id].running_balance == map[id].running_balance,
        ({
            let own = command.book_contributions@;
            let n = own[i].entries@.len();
            &&& 0 <= i < own.len() && own[i].book_id == id ==> {
                &&& later[id].durable_pending_rollup@ == map[id].durable_pending_rollup@
                    + own[i].entries@
                &&& later[id].pending_journal@.len() == map[id].pending_journal@.len() - n
                &&& forall|k: int|
                    0 <= k < later[id].pending_journal@.len()
                        ==> #[trigger] later[id].pending_journal@[k]
                        == map[id].pending_journal@[n + k]
            }
            &&& (forall|j: int| 0 <= j < own.len() ==> (#[trigger] own[j]).book_id != id) ==> {
                &&& later[id].durable_pending_rollup@ == map[id].durable_pending_rollup@
                &&& later[id].pending_journal@ == map[id].pending_journal@
            }
        }),
{
    lemma_after(command, map, id, i);
    let view = books::books_view(map);
    assert(map.dom() =~= later.dom()) by {
        assert(books::books_view(later).dom() =~= later.dom());
        assert(journal::settled(view, command.contributions()).dom() =~= map.dom());
    }
    assert(later.contains_key(id));
    assert(books::books_view(later)[id] == later[id]@);
    let entries = journal::entries_for(command.contributions(), id);
    if entries.len() == 0 {
        assert(map[id].durable_pending_rollup@ + entries =~= map[id].durable_pending_rollup@);
        assert(map[id].pending_journal@.skip(0) =~= map[id].pending_journal@);
    }
}

/// Giving up an operation takes as many of the amounts that have waited longest off each of its
/// books as it posted there; nothing else changes in any book.
pub proof fn law_giving_up_takes_amounts_off_the_books<R>(
    command: WriteCommand<R>,
    map: Map<BookId, BookState>,
    later: Map<BookId, BookState>,
    id: BookId,
    i: int,
)
    requires
        contributions_once(command.book_contributions@),
        journal::covered(books::books_view(map), command.contributions()),
        books::books_view(later) == journal::released(
            books::books_view(map),
            command.contributions(),
        ),
        map.contains_key(id),
    ensures
        map.dom() == later.dom(),
        later[id].running_balance == map[id].running_balance,
        later[id].durable_pending_rollup@ == map[id].durable_pending_rollup@,
        ({
            let own = command.book_contributions@;
            let n = own[i].entries@.len();
            &&& 0 <= i < own.len() && own[i].book_id == id ==> {
                &&& later[id].pending_journal@.len() == map[id].pending_journal@.len() - n
                &&& forall|k: int|
                    0 <= k < later[id].pending_journal@.len()
                        ==> #[trigger] later[id].pending_journal@[k]
                        == map[id].pending_journal@[n + k]
            }
            &&& (forall|j: int| 0 <= j < own.len() ==> (#[trigger] own[j]).book_id != id)
                ==> later[id].pending_journal@ == map[id].pending_journal@
        }),
{
    lemma_after(command, map, id, i);
    let view = books::books_view(map);
    assert(map.dom() =~= later.dom()) by {
        assert(books::books_view(later).dom() =~= later.dom());
        assert(journal::released(view, command.contributions()).dom() =~= map.dom());
    }
    assert(later.contains_key(id));
    assert(books::books_view(later)[id] == later[id]@);
    assert(map[id].pending_journal@.skip(0) =~= map[id].pending_journal@);
}

/// What an operation posts to one book is its contribution there, and no more than waits there.
proof fn lemma_after<R>(
    command: WriteCommand<R>,
    map: Map<BookId, BookState>,
    id: BookId,
    i: int,
)
    requires
        contributions_once(command.book_contributions@),
        journal::covered(books::books_view(map), command.contributions()),
        map.contains_key(id),
    ensures
        books::books_view(map)[id] == map[id]@,
        ({
            let own = command.book_contributions@;
            let entries = journal::entries_for(command.contributions(), id);
            &&& entries.len() <= map[id].pending_journal@.len()
            &&& 0 <= i < own.len() && own[i].book_id == id ==> entries == own[i].entries@
            &&& (forall|j: int| 0 <= j < own.len() ==> (#[trigger] own[j]).book_id != id)
                ==> entries.len() == 0
        }),
{
    let own = command.book_contributions@;
    lemma_contributions(command);
    lemma_entries_once(command.contributions(), id);
    journal::lemma_covered_book(books::books_view(map), command.contributions(), id);
    if 0 <= i < own.len() && own[i].book_id == id {
        assert(command.contributions()[i].book_id == id);
    }
    if forall|j: int| 0 <= j < own.len() ==> (#[trigger] own[j]).book_id != id {
        assert forall|j: int| 0 <= j < command.contributions().len() implies (
        #[trigger] command.contributions()[j]).book_id != id by {
            assert(own[j].book_id != id);
        }
    }
}

/// Recording, or giving up, a batch is doing so with all but its last operation and then with the
/// last; an empty batch changes nothing.
pub proof fn law_batch_is_worked_off_in_turn<R>(
    batch: Seq<WriteCommand<R>>,
    command: WriteCommand<R>,
    map: Map<BookId, BookState>,
)
    requires
        journal::covered(
            books::books_view(map),
            journal::batch_contributions(batch.push(command)),
        ),
    ensures
        ({
            let view = books::books_view(map);
            let first = journal::batch_contributions(batch);
            let all = journal::batch_contributions(batch.push(command));
            &&& all == first + command.contributions()
            &&& journal::covered(view, first)
            &&& journal::covered(journal::settled(view, first), command.contributions())
            &&& journal::covered(journal::released(view, first), command.contributions())
            &&& journal::settled(view, all) == journal::settled(
                journal::settled(view, first),
                command.contributions(),
            )
            &&& journal::released(view, all) == journal::released(
                journal::released(view, first),
                command.contributions(),
            )
        }),
        journal::batch_contributions(Seq::<WriteCommand<R>>::empty()).len() == 0,
{
    assert(batch.push(command).drop_last() =~= batch);
    journal::lemma_covered_in_turn(
        books::books_view(map),
        journal::batch_contributions(batch),
        command.contributions(),
    );
}

/// Loading books puts those asked for that are missing into memory, at zero, with nothing recorded
/// and nothing waiting, and leaves those in memory as they are.
pub proof fn law_loaded_books_start_at_zero(
    map: Map<BookId, BookState>,
    ids: Seq<BookId>,
    later: Map<BookId, BookState>,
    id: BookId,
)
    requires
        books::books_view(later) == books::with_books(books::books_view(map), ids),
    ensures
        later.contains_key(id) <==> map.contains_key(id) || ids.contains(id),
        map.contains_key(id) ==> {
            &&& later[id].running_balance == map[id].running_balance
            &&& later[id].durable_pending_rollup@ == map[id].durable_pending_rollup@
            &&& later[id].pending_journal@ == map[id].pending_journal@
        },
        !map.contains_key(id) && ids.contains(id) ==> {
            &&& later[id].running_balance == 0
            &&& later[id].durable_pending_rollup@.len() == 0
            &&& later[id].pending_journal@.len() == 0
        },
{
    let view = books::books_view(map);
    assert(books::books_view(later).contains_key(id) == later.contains_key(id));
    assert(view.contains_key(id) == map.contains_key(id));
    if later.contains_key(id) {
        assert(books::books_view(later)[id] == later[id]@);
    }
    if map.contains_key(id) {
        assert(view[id] == map[id]@);
    }
}

/// Loading accounts puts those asked for that are missing into memory: of credit nature, without
/// leave to overdraw, and with three books, in one currency, numbered in a row up to three times the
/// account's number. Those in memory stay as they are.
pub proof fn law_loaded_accounts_start_with_three_books(
    map: Map<AccountId, Arc<AccountState>>,
    ids: Seq<AccountId>,
    later: Map<AccountId, Arc<AccountState>>,
    id: AccountId,
)
    requires
        accounts::accounts_view(later) == accounts::with_accounts(
            accounts::accounts_view(map),
            ids,
        ),
        accounts::all_loadable(accounts::accounts_view(map), ids),
    ensures
        later.contains_key(id) <==> map.contains_key(id) || ids.contains(id),
        map.contains_key(id) ==> {
            &&& later[id].account_type == map[id].account_type
            &&& later[id].allow_overdraft == map[id].allow_overdraft
            &&& later[id].books@ == map[id].books@
        },
        !map.contains_key(id) && ids.contains(id) ==> {
            let books = later[id].books@;
            &&& later[id].account_type == AccountType::Credit
            &&& !later[id].allow_overdraft
            &&& forall|key: (u16, BalanceType)| #[trigger]
                books.contains_key(key) <==> key.0 == 123
            &&& books[(123u16, BalanceType::Available)] == 3 * id - 2
            &&& books[(123u16, BalanceType::Current)] == 3 * id - 1
            &&& books[(123u16, BalanceType::Hold)] == 3 * id
        },
{
    let view = accounts::accounts_view(map);
    assert(accounts::accounts_view(later).contains_key(id) == later.contains_key(id));
    assert(view.contains_key(id) == map.contains_key(id));
    if later.contains_key(id) {
        assert(accounts::accounts_view(later)[id] == (*later[id])@);
    }
    if map.contains_key(id) {
        assert(view[id] == (*map[id])@);
    } else if ids.contains(id) {
        let i = choose|i: int| 0 <= i < ids.len() && ids[i] == id;
        assert(!view.contains_key(ids[i]));
        assert forall|key: (u16, BalanceType)| #[trigger]
            later[id].books@.contains_key(key) <==> key.0 == 123 by {
            match key.1 {
                BalanceType::Current => {},
                BalanceType::Available => {},
                BalanceType::Hold => {},
            }
        }
    }
}

/// Accounts can be loaded exactly if each that is missing is numbered from one up to a third of what
/// sixty-four bits hold.
pub proof fn law_accounts_can_be_loaded_exactly_if_numbered(
    map: Map<AccountId, Arc<AccountState>>,
    ids: Seq<AccountId>,
)
    ensures
        accounts::all_loadable(accounts::accounts_view(map), ids) <==> forall|i: int|
            0 <= i < ids.len() && !map.contains_key(#[trigger] ids[i]) ==> 1 <= ids[i]
                <= 0x5555_5555_5555_5555,
{
    assert forall|id: AccountId| #[trigger]
        accounts::accounts_view(map).contains_key(id) == map.contains_key(id) by {}
}

/// A key is found exactly if an entry has it, and with the value of the first such entry.
pub proof fn law_lookup_finds_the_first_entry<K, V>(map: VecMap<K, V>, key: K, i: int)
    ensures
        map@.contains_key(key) <==> exists|j: int|
            0 <= j < map.entries@.len() && (#[trigger] map.entries@[j]).0 == key,
        0 <= i < map.entries@.len() && map.entries@[i].0 == key && (forall|j: int|
            0 <= j < i ==> (#[trigger] map.entries@[j]).0 != key) ==> map@[key]
            == map.entries@[i].1,
{
    if 0 <= i < map.entries@.len() && map.entries@[i].0 == key && (forall|j: int|
        0 <= j < i ==> (#[trigger] map.entries@[j]).0 != key) {
        vec_map::lemma_value_of(map.entries@, i, key);
        assert(map@.contains_key(key));
    }
}

/// Bytes in a row spell, least significant first, the first of them and 256 times the rest; most
/// significant first, the last of them and 256 times those before it.
pub proof fn law_bytes_are_digits(byte: u8, rest: Seq<u8>)
    ensures
        bytes::le_value(Seq::empty()) == 0,
        bytes::be_value(Seq::empty()) == 0,
        bytes::le_value(seq![byte] + rest) == byte + 256 * bytes::le_value(rest),
        bytes::be_value(rest.push(byte)) == byte + 256 * bytes::be_value(rest),
{
    assert((seq![byte] + rest).drop_first() =~= rest);
    assert(rest.push(byte).drop_last() =~= rest);
}

/// Signed numbers are stored in two's complement: up to half of what 128 bits hold bytes spell the
/// number itself, from there on the number less all that 128 bits hold.
pub proof fn law_signed_bytes_are_twos_complement(stored: Seq<u8>)
    ensures
        bytes::le_value(stored) <= i128::MAX ==> bytes::signed_le_value(stored) == bytes::le_value(
            stored,
        ),
        bytes::le_value(stored) > i128::MAX ==> bytes::signed_le_value(stored) == bytes::le_value(
            stored,
        ) - u128::MAX - 1,
{
}

/// A cover that stands for a blank journal has nothing but zeros in it.
pub proof fn law_blank_cover_is_all_zero(cover: JournalCoverBytes)
    requires
        cover@ == (JournalCoverView {
            checkpoint_page: 0,
            checkpoint_line: 0,
            latest_page: 0,
            latest_line: 0,
            local_floor_page: 0,
            tip_operation_id: 0,
            tip_hash: journal::no_hash(),
        }),
    ensures
        bytes::le_value(cover.checkpoint_page@) == 0,
        bytes::le_value(cover.checkpoint_line@) == 0,
        bytes::le_value(cover.latest_page@) == 0,
        bytes::le_value(cover.latest_line@) == 0,
        bytes::le_value(cover.local_floor_page@) == 0,
        bytes::le_value(cover.tip_operation_id@) == 0,
        forall|i: int| 0 <= i < 32 ==> #[trigger] cover.tip_hash@[i] == 0u8,
{
    assert forall|i: int| 0 <= i < 32 implies #[trigger] cover.tip_hash@[i] == 0u8 by {
        assert(journal::no_hash()[i] == 0u8);
    }
}

} // verus!
