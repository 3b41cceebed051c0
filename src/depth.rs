//! Book sanity before a depth frame reaches clients: bids that arrive in
//! ascending order are turned around, and a crossed or disordered book is
//! dropped.
use vstd::prelude::*;
use crate::chat::{Depth, Quote};

verus! {

/// `b` in the opposite order.
pub open spec fn reversed(b: Seq<Quote>) -> Seq<Quote> {
    Seq::new(b.len(), |i: int| b[b.len() - 1 - i])
}

/// Bids as they are forwarded: turned around when the first two ascend.
pub open spec fn oriented(b: Seq<Quote>) -> Seq<Quote> {
    if b.len() >= 2 && b[0].price < b[1].price { reversed(b) } else { b }
}

/// The best price of a side, zero for an empty side.
pub open spec fn top(b: Seq<Quote>) -> int {
    if b.len() > 0 { b[0].price as int } else { 0 }
}

/// Prices strictly decrease along `b`.
pub open spec fn strictly_descending(b: Seq<Quote>) -> bool {
    forall|i: int, j: int| 0 <= i < j < b.len() ==> #[trigger] b[i].price > #[trigger] b[j].price
}

/// A book that may be forwarded: bids strictly descending and the best bid
/// below the best ask.
pub open spec fn forwardable(bids: Seq<Quote>, asks: Seq<Quote>) -> bool {
    strictly_descending(bids) && top(bids) < top(asks)
}

/// `b` in the opposite order.
pub fn reverse_quotes(b: &Vec<Quote>) -> (r: Vec<Quote>)
    ensures
        r@ == reversed(b@),
{
    let n = b.len();
    let mut out: Vec<Quote> = Vec::new();
    let mut i: usize = 0;
    while i < n
        invariant
            n == b@.len(),
            i <= n,
            out@.len() == i,
            forall|k: int| 0 <= k < i ==> #[trigger] out@[k] == b@[n - 1 - k],
        decreases n - i,
    {
        out.push(b[n - 1 - i]);
        i = i + 1;
    }
    assert(out@ =~= reversed(b@));
    out
}

/// Whether prices strictly decrease along `b`.
pub fn is_strictly_descending(b: &Vec<Quote>) -> (r: bool)
    ensures
        r == strictly_descending(b@),
{
    let n = b.len();
    if n < 2 {
        return true;
    }
    let mut i: usize = 1;
    while i < n
        invariant
            n == b@.len(),
            1 <= i <= n,
            strictly_descending(b@.subrange(0, i as int)),
        decreases n - i,
    {
        if b[i - 1].price <= b[i].price {
            assert(!strictly_descending(b@)) by {
                assert(b@[i - 1].price <= b@[i as int].price);
            }
            return false;
        }
        proof {
            let p = b@.subrange(0, i as int);
            let q = b@.subrange(0, i + 1);
            assert forall|x: int, y: int| 0 <= x < y < q.len() implies #[trigger] q[x].price > #[trigger] q[y].price by {
                if y < i {
                    assert(p[x] == q[x] && p[y] == q[y]);
                } else if x < i - 1 {
                    assert(p[x] == q[x] && p[i - 1] == q[i - 1]);
                    assert(p[x].price > p[i - 1].price);
                }
            }
        }
        i = i + 1;
    }
    assert(b@.subrange(0, n as int) =~= b@);
    true
}

/// Turns ascending bids around, then keeps the frame only when its book is
/// forwardable.
pub fn sanitize(depth: Depth) -> (r: Option<Depth>)
    ensures
        r is Some <==> forwardable(oriented(depth.bids@), depth.asks@),
        r matches Some(d) ==> {
            &&& d.time == depth.time
            &&& d.symbol == depth.symbol
            &&& d.stream == depth.stream
            &&& d.bids@ == oriented(depth.bids@)
            &&& d.asks@ == depth.asks@
            &&& strictly_descending(d.bids@)
            &&& top(d.bids@) < top(d.asks@)
        },
{
    let Depth { time, symbol, stream, bids, asks } = depth;
    let bids = if bids.len() >= 2 && bids[0].price < bids[1].price {
        reverse_quotes(&bids)
    } else {
        bids
    };
    if !is_strictly_descending(&bids) {
        return None;
    }
    let top_bid: i64 = if bids.len() > 0 { bids[0].price } else { 0 };
    let top_ask: i64 = if asks.len() > 0 { asks[0].price } else { 0 };
    if top_bid >= top_ask {
        return None;
    }
    Some(Depth { time, symbol, stream, bids, asks })
}

} // verus!
