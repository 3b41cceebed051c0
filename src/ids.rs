//! Composite client order ids: a 16-bit session id in the high half and a
//! 32-bit client-chosen order id in the low half of a `u64`.
use vstd::prelude::*;

verus! {

/// Two to the 32nd power: the weight of the session id in a composite id.
pub const LOW_SPAN: u64 = 4294967296;

/// The composite id of order `id` of session `session_id`:
/// `(session_id << 32) | id`.
pub open spec fn composite(session_id: u16, id: u32) -> int {
    session_id as int * LOW_SPAN as int + id as int
}

/// The session id carried by a composite id (its bits 32 to 47).
pub open spec fn session_of(cid: u64) -> int {
    (cid as int / LOW_SPAN as int) % 65536
}

/// The order id carried by a composite id (its low 32 bits).
pub open spec fn internal_of(cid: u64) -> int {
    cid as int % LOW_SPAN as int
}

/// Builds the exchange `newClientOrderId` of an order.
pub fn compose(session_id: u16, id: u32) -> (r: u64)
    ensures
        r as int == composite(session_id, id),
{
    assert(session_id as int * 4294967296 <= 65535 * 4294967296) by (nonlinear_arith)
        requires
            session_id <= 65535,
    ;
    (session_id as u64) * LOW_SPAN + (id as u64)
}

/// Splits a composite id into its session id and its order id.
pub fn decompose(cid: u64) -> (r: (u16, u32))
    ensures
        r.0 as int == session_of(cid),
        r.1 as int == internal_of(cid),
{
    let high: u64 = cid / LOW_SPAN;
    ((high % 65536) as u16, (cid % LOW_SPAN) as u32)
}

/// Decomposing a composed id gives back the session id and the order id.
pub proof fn lemma_compose_round_trip(session_id: u16, id: u32)
    ensures
        0 <= composite(session_id, id) < 18446744073709551616,
        session_of(composite(session_id, id) as u64) == session_id as int,
        internal_of(composite(session_id, id) as u64) == id as int,
{
    let c = composite(session_id, id);
    assert(0 <= c < 18446744073709551616) by (nonlinear_arith)
        requires
            c == session_id as int * 4294967296 + id as int,
            0 <= session_id < 65536,
            0 <= id < 4294967296,
    ;
    assert(c / 4294967296 == session_id as int && c % 4294967296 == id as int) by (nonlinear_arith)
        requires
            c == session_id as int * 4294967296 + id as int,
            0 <= session_id < 65536,
            0 <= id < 4294967296,
    ;
}

} // verus!
