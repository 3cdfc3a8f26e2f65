//! Currencies.

use vstd::prelude::*;

verus! {

/// The numeric code of a currency.
pub type Currency = u16;

} // verus!
