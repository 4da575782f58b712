//! A bridge between a desktop shell and a single long-lived local backend
//! process. The backend speaks a line-framed JSON protocol over its standard
//! streams; the bridge owns the process lifecycle, frames and encodes request
//! envelopes, decodes response envelopes, and correlates each response with
//! the caller that is waiting for it.
//!
//! Everything here is pure logic: the host program performs the actual
//! process spawning and stream I/O and feeds the resulting bytes and events
//! into these verified state machines.

use vstd::prelude::*;

pub mod json;
pub mod codec;
pub mod correlator;
pub mod supervisor;
pub mod bridge;

verus! {

/// Fixed identity string returned by the synchronous liveness probe.
///
/// The probe bypasses the backend entirely: it takes no state, performs no
/// I/O, and always returns the same value, so repeated calls are idempotent.
pub fn ping() -> (r: &'static str)
    ensures
        r@ == "easykatago"@,
{
    "easykatago"
}

/// The probe is idempotent: any two calls return equal values.
pub proof fn lemma_ping_idempotent(a: Seq<char>, b: Seq<char>)
    requires
        a == "easykatago"@,
        b == "easykatago"@,
    ensures
        a == b,
{
}

} // verus!
