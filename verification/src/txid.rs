//! Transaction ids of DNS queries.

use rand::Rng;
use vstd::prelude::*;

verus! {

/// Draws a number with `rand::Rng::random_range` on the thread's generator, `rand::rng()`.
///
/// Claimed of it: the number lies in the inclusive range. Which one of them is drawn is chance,
/// so two calls may differ; that all are equally likely is not stated. `random_range` panics on an
/// empty range, hence the precondition. The generator itself panics only where the system cannot
/// give it a seed, whatever the arguments.
#[verifier::external_body]
fn random_in_range(low: u16, high: u16) -> (drawn: u16)
    requires
        low <= high,
    ensures
        low <= drawn <= high,
{
    rand::rng().random_range(low..=high)
}

/// Draws the transaction id of a query. Every non-zero id may come out, zero never does.
pub fn random_txid() -> (txid: u16)
    ensures
        1 <= txid <= u16::MAX,
{
    random_in_range(1, u16::MAX)
}

} // verus!
