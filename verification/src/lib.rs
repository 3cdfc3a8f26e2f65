//! A double-entry ledger.
//!
//! A request names entries on accounts; [`operation`] says when it is valid and lays it out by
//! book. The [`acceptor`] judges it on the balances in [`books`] and gathers what it accepts into
//! batches, which the [`journal`] records and answers. [`api`] says what a request is answered, and
//! [`laws`] what holds of all this together. [`acceptor_task`] is a plainer acceptor, and [`book`] a
//! plainer book, that stand on their own.

pub mod acceptor;
pub mod acceptor_task;
pub mod accounts;
pub mod api;
pub mod batch;
pub mod book;
pub mod books;
pub mod bytes;
pub mod currency;
pub mod journal;
pub mod laws;
pub mod operation;
pub mod sums;
pub mod text;
pub mod vec_map;
