//! Resumable, idempotent ingestion of a chat service's message history into a
//! keyed record store, with a weekly word-occurrence aggregation over it.
//!
//! The library holds the verified core: the record store with its uniqueness
//! and batch-atomicity guarantees, the completion tracker, the cursor
//! paginator, the ingestion orchestrator, and the aggregation query. I/O
//! (the remote API, the durable database, the chart) lives outside.

pub mod msg;
pub mod orchestrator;
pub mod paginate;
pub mod store;
pub mod text;
pub mod weeks;

use vstd::prelude::*;

verus! {

/// Rounded-up division, used to state how many page fetches a full
/// pagination run takes.
pub open spec fn ceil_div(n: nat, b: nat) -> nat
    recommends
        b > 0,
{
    ((n + b - 1) / b as int) as nat
}

} // verus!
