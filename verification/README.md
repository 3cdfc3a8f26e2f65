# ledger

A double-entry ledger: requests are validated, judged on the balances of the books that they post
to, and gathered into batches for the journal.

- `src/` is the library. Every function states what it does in `requires` and `ensures`, and Verus
  proves it; `src/laws/` holds what is true of the functions together: debits equal credits, no
  book is overdrawn against its account's wish, recording a batch changes no balance, giving one up
  takes it back. What the library asks of `zerocopy`, `uuid` and std is stated in `src/bytes.rs`,
  `share` in `src/accounts.rs` and `capacity_of` in `src/batch.rs`.
- `tests/` runs the library on concrete values.
- `app/` is the service around it: the HTTP route, the tasks and their channels. Some functions of the library are not defined
  on every value; before it calls one, `app/` asks the function that decides (`can_judge`,
  `can_record`, `can_load`, `is_covered`, or a `None` from `PendingRequest`), and panics where the
  answer is no.
