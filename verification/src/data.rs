//! Token counts of a single usage record.

use vstd::prelude::*;

verus! {

/// The tokens of a usage record: those sent in plus those received.
pub fn total_tokens(tokens_in: u64, tokens_out: u64) -> (total: u64)
    requires
        tokens_in + tokens_out <= u64::MAX,
    ensures
        total == tokens_in + tokens_out,
{
    tokens_in + tokens_out
}

} // verus!
