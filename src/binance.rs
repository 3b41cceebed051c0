//! The exchange's wire shapes, field for field, and their conversion into
//! the gateway's entities. Numbers arrive as decimal strings and symbols in
//! upper case: conversion lowercases symbols and reads every amount with
//! `parse_amount` (an unreadable amount counts as zero).
#![allow(non_snake_case)]
use vstd::prelude::*;
use crate::chat::{Depth, Kline, OrderType, Quote, Side, State, Tif, Order, order_type_of, tif_of};
use crate::fixed::{all_digits, amount_of, lemma_digits_nonneg, parse_amount, read_digits, unsigned_of};
use crate::ids::{internal_of};
use crate::text::{join, lower, to_lower};
use crate::session::{Venue, fill_delta};

verus! {

pub struct KlineData {
    pub t: i64,
    pub T: i64,
    pub i: String,
    pub f: i64,
    pub L: i64,
    pub o: String,
    pub c: String,
    pub h: String,
    pub l: String,
    pub v: String,
    pub x: bool,
    pub q: String,
}

/// A kline event: `{"s": symbol, "k": {...}}`.
pub struct BinanceKline {
    pub s: String,
    pub k: KlineData,
}

/// One level of an exchange book: `[price, quantity]`, both as text.
#[derive(Debug)]
pub struct BinanceQuote {
    pub price: String,
    pub quantity: String,
}

/// A depth event or snapshot.
pub struct BinanceDepth {
    pub E: i64,
    pub s: String,
    pub b: Vec<BinanceQuote>,
    pub a: Vec<BinanceQuote>,
}

/// A best bid/offer event (`bookTicker`).
pub struct BinanceBookTicker {
    pub E: i64,
    pub s: String,
    pub b: String,
    pub B: String,
    pub a: String,
    pub A: String,
}

/// The levels `b` in the opposite order.
pub open spec fn reversed_levels(b: Seq<BinanceQuote>) -> Seq<BinanceQuote> {
    Seq::new(b.len(), |i: int| b[b.len() - 1 - i])
}

/// The quote `q` read as amounts.
pub open spec fn quote_of(q: BinanceQuote) -> Quote {
    Quote { price: amount_of(q.price@) as i64, quantity: amount_of(q.quantity@) as i64 }
}

pub fn read_quote(q: &BinanceQuote) -> (r: Quote)
    ensures
        r == quote_of(*q),
{
    Quote { price: parse_amount(q.price.as_str()), quantity: parse_amount(q.quantity.as_str()) }
}

/// Every level of `b` read as amounts.
pub fn read_quotes(b: &Vec<BinanceQuote>) -> (r: Vec<Quote>)
    ensures
        r@.len() == b@.len(),
        forall|i: int| 0 <= i < b@.len() ==> #[trigger] r@[i] == quote_of(b@[i]),
{
    let mut out: Vec<Quote> = Vec::new();
    let mut i: usize = 0;
    while i < b.len()
        invariant
            i <= b@.len(),
            out@.len() == i,
            forall|k: int| 0 <= k < i ==> #[trigger] out@[k] == quote_of(b@[k]),
        decreases b@.len() - i,
    {
        out.push(read_quote(&b[i]));
        i = i + 1;
    }
    out
}

impl BinanceKline {
    /// The client stream this candle belongs to: `symbol@kline:interval`.
    pub fn stream(&self) -> (r: String)
        ensures
            r@ == lower(self.s@) + "@kline:"@ + self.k.i@,
    {
        let symbol = to_lower(self.s.as_str());
        let head = join(symbol.as_str(), "@kline:");
        join(head.as_str(), self.k.i.as_str())
    }

    /// The candle as clients see it: closing time, lowercase symbol, and
    /// the prices and volumes read as amounts.
    pub fn to_kline(&self) -> (r: Kline)
        ensures
            r.time == self.k.T,
            r.symbol@ == lower(self.s@),
            r.stream@ == lower(self.s@) + "@kline:"@ + self.k.i@,
            r.open == amount_of(self.k.o@),
            r.high == amount_of(self.k.h@),
            r.low == amount_of(self.k.l@),
            r.close == amount_of(self.k.c@),
            r.volume == amount_of(self.k.v@),
            r.amount == amount_of(self.k.q@),
    {
        Kline {
            time: self.k.T,
            symbol: to_lower(self.s.as_str()),
            stream: self.stream(),
            open: parse_amount(self.k.o.as_str()),
            high: parse_amount(self.k.h.as_str()),
            low: parse_amount(self.k.l.as_str()),
            close: parse_amount(self.k.c.as_str()),
            volume: parse_amount(self.k.v.as_str()),
            amount: parse_amount(self.k.q.as_str()),
        }
    }
}

impl BinanceDepth {
    /// The client stream of this book: `symbol@depth`.
    pub fn stream(&self) -> (r: String)
        ensures
            r@ == lower(self.s@) + "@depth"@,
    {
        let symbol = to_lower(self.s.as_str());
        join(symbol.as_str(), "@depth")
    }

    /// Turns the bid side around (for books that list bids ascending).
    pub fn reverse(&mut self)
        ensures
            final(self).b@ == reversed_levels(old(self).b@),
            final(self).a@ == old(self).a@,
            final(self).E == old(self).E,
            final(self).s == old(self).s,
    {
        let ghost orig = self.b@;
        let n = self.b.len();
        let mut out: Vec<BinanceQuote> = Vec::new();
        while self.b.len() > 0
            invariant
                n == orig.len(),
                self.b@ == orig.subrange(0, self.b@.len() as int),
                out@.len() == n - self.b@.len(),
                forall|k: int| 0 <= k < out@.len() ==> #[trigger] out@[k] == orig[n - 1 - k],
                self.a@ == old(self).a@,
                self.E == old(self).E,
                self.s == old(self).s,
            decreases self.b@.len(),
        {
            let ghost before = self.b@;
            let q = self.b.pop().unwrap();
            assert(q == orig[before.len() - 1]);
            out.push(q);
            assert(self.b@ =~= orig.subrange(0, self.b@.len() as int));
        }
        assert(out@ =~= reversed_levels(orig));
        self.b = out;
    }

    /// The price of bid level `level`, zero where the book is shallower.
    pub fn bid(&self, level: usize) -> (r: i64)
        ensures
            r == if level < self.b@.len() { amount_of(self.b@[level as int].price@) } else { 0 },
    {
        if level < self.b.len() {
            parse_amount(self.b[level].price.as_str())
        } else {
            0
        }
    }

    /// The price of ask level `level`, zero where the book is shallower.
    pub fn ask(&self, level: usize) -> (r: i64)
        ensures
            r == if level < self.a@.len() { amount_of(self.a@[level as int].price@) } else { 0 },
    {
        if level < self.a.len() {
            parse_amount(self.a[level].price.as_str())
        } else {
            0
        }
    }

    /// The book as clients see it (before any sanity check).
    pub fn to_depth(&self) -> (r: Depth)
        ensures
            r.time == self.E,
            r.symbol@ == lower(self.s@),
            r.stream@ == lower(self.s@) + "@depth"@,
            r.bids@.len() == self.b@.len(),
            forall|i: int| 0 <= i < self.b@.len() ==> #[trigger] r.bids@[i] == quote_of(self.b@[i]),
            r.asks@.len() == self.a@.len(),
            forall|i: int| 0 <= i < self.a@.len() ==> #[trigger] r.asks@[i] == quote_of(self.a@[i]),
    {
        Depth {
            time: self.E,
            symbol: to_lower(self.s.as_str()),
            stream: self.stream(),
            bids: read_quotes(&self.b),
            asks: read_quotes(&self.a),
        }
    }
}

impl BinanceBookTicker {
    /// The best bid and offer as a one-level book on stream `symbol@bbo`.
    pub fn to_depth(&self) -> (r: Depth)
        ensures
            r.time == self.E,
            r.symbol@ == lower(self.s@),
            r.stream@ == lower(self.s@) + "@bbo"@,
            r.bids@ == seq![Quote { price: amount_of(self.b@) as i64, quantity: amount_of(self.B@) as i64 }],
            r.asks@ == seq![Quote { price: amount_of(self.a@) as i64, quantity: amount_of(self.A@) as i64 }],
    {
        let symbol = to_lower(self.s.as_str());
        let stream = join(symbol.as_str(), "@bbo");
        let mut bids: Vec<Quote> = Vec::new();
        bids.push(Quote { price: parse_amount(self.b.as_str()), quantity: parse_amount(self.B.as_str()) });
        let mut asks: Vec<Quote> = Vec::new();
        asks.push(Quote { price: parse_amount(self.a.as_str()), quantity: parse_amount(self.A.as_str()) });
        proof {
            assert(bids@ =~= seq![Quote { price: amount_of(self.b@) as i64, quantity: amount_of(self.B@) as i64 }]);
            assert(asks@ =~= seq![Quote { price: amount_of(self.a@) as i64, quantity: amount_of(self.A@) as i64 }]);
        }
        Depth { time: self.E, symbol, stream, bids, asks }
    }
}

/// Reads a client order id: a decimal `u64`.
pub fn parse_client_order_id(s: &str) -> (r: Option<u64>)
    ensures
        r matches Some(v) ==> unsigned_of(s@) == Some(v as int),
        r is None ==> unsigned_of(s@) is None,
{
    let n = s.unicode_len();
    if n == 0 {
        return None;
    }
    let r = read_digits(s, 0, n, u64::MAX);
    assert(s@.subrange(0, n as int) =~= s@);
    proof {
        if all_digits(s@) {
            lemma_digits_nonneg(s@);
        }
    }
    r
}

/// The order id a client order id carries: its low 32 bits; zero where the
/// text is not a decimal `u64` (an order placed outside the gateway).
pub open spec fn internal_id_of(c: Seq<char>) -> int {
    match unsigned_of(c) {
        Some(v) => internal_of(v as u64),
        None => 0,
    }
}

/// A spot execution report (`executionReport` event).
pub struct ExecutionReport {
    pub E: i64,
    pub s: String,
    pub S: Side,
    pub o: String,
    pub f: String,
    pub q: String,
    pub p: String,
    pub c: String,
    pub C: String,
    pub X: State,
    pub i: i64,
    pub N: Option<String>,
    pub n: Option<String>,
    pub T: i64,
    pub t: i64,
    pub l: String,
    pub L: String,
    pub z: String,
    pub m: bool,
    pub O: i64,
}

/// The order part of a perpetual `ORDER_TRADE_UPDATE` event.
pub struct OrderData {
    pub s: String,
    pub c: String,
    pub S: Side,
    pub o: String,
    pub f: String,
    pub q: String,
    pub p: String,
    pub X: State,
    pub i: i64,
    pub N: Option<String>,
    pub n: Option<String>,
    pub T: i64,
    pub t: i64,
    pub L: String,
    pub l: String,
    pub z: String,
    pub m: bool,
}

/// A perpetual `ORDER_TRADE_UPDATE` event.
pub struct OrderUpdate {
    pub E: i64,
    pub o: OrderData,
}

/// The trade an order event reports, as position accounting needs it.
#[derive(Debug)]
pub struct Fill {
    pub client_order_id: String,
    pub symbol: String,
    pub side: Side,
    pub state: State,
    pub trade_volume: i64,
    pub commission: i64,
}

/// A commission field: absent counts as zero.
pub open spec fn commission_of(n: Option<String>) -> int {
    match n {
        Some(s) => amount_of(s@),
        None => 0,
    }
}

fn read_commission(n: &Option<String>) -> (r: i64)
    ensures
        r == commission_of(*n),
{
    match n {
        Some(s) => parse_amount(s.as_str()),
        None => 0,
    }
}

fn internal_id(c: &String) -> (r: u32)
    ensures
        r == internal_id_of(c@),
{
    match parse_client_order_id(c.as_str()) {
        Some(v) => (v % 4294967296) as u32,
        None => 0,
    }
}

impl ExecutionReport {
    /// The trade this report carries (`l` traded, `n` commission).
    pub fn fill(&self) -> (r: Fill)
        ensures
            r.client_order_id@ == (if self.X == State::CANCELED { self.C@ } else { self.c@ }),
            r.symbol@ == lower(self.s@),
            r.side == self.S,
            r.state == self.X,
            r.trade_volume == amount_of(self.l@),
            r.commission == commission_of(self.n),
            fill_delta(Venue::Spot, r.trade_volume as int, r.commission as int) == amount_of(self.l@) - commission_of(self.n),
    {
        Fill {
            client_order_id: if self.X == State::CANCELED { self.C.clone() } else { self.c.clone() },
            symbol: to_lower(self.s.as_str()),
            side: self.S,
            state: self.X,
            trade_volume: parse_amount(self.l.as_str()),
            commission: read_commission(&self.n),
        }
    }

    /// The order update clients see. `None` where the order type is not
    /// one the gateway knows.
    pub fn to_order(&self) -> (r: Option<Order>)
        ensures
            r is None <==> order_type_of(self.o@) is None,
            r matches Some(o) ==> {
                &&& o.time == self.E
                &&& o.symbol@ == lower(self.s@)
                &&& o.side == self.S
                &&& o.state == self.X
                &&& Some(o.order_type) == order_type_of(self.o@)
                &&& o.tif == tif_of(self.f@)
                &&& o.quantity == amount_of(self.q@)
                &&& o.price == amount_of(self.p@)
                &&& o.order_id == self.i
                &&& o.internal_id == internal_id_of(if self.X == State::CANCELED { self.C@ } else { self.c@ })
                &&& o.trade_time == self.T
                &&& o.trade_price == amount_of(self.L@)
                &&& o.trade_quantity == amount_of(self.l@)
                &&& o.acc == amount_of(self.z@)
                &&& o.making == self.m
            },
    {
        let order_type = match OrderType::parse(self.o.as_str()) {
            Some(t) => t,
            None => return None,
        };
        let cid = if self.X == State::CANCELED { &self.C } else { &self.c };
        Some(Order {
            time: self.E,
            symbol: to_lower(self.s.as_str()),
            side: self.S,
            state: self.X,
            order_type,
            tif: Tif::parse(self.f.as_str()),
            quantity: parse_amount(self.q.as_str()),
            price: parse_amount(self.p.as_str()),
            order_id: self.i,
            internal_id: internal_id(cid),
            trade_time: self.T,
            trade_price: parse_amount(self.L.as_str()),
            trade_quantity: parse_amount(self.l.as_str()),
            acc: parse_amount(self.z.as_str()),
            making: self.m,
        })
    }
}

impl OrderUpdate {
    /// The trade this update carries (`l` traded, `n` commission).
    pub fn fill(&self) -> (r: Fill)
        ensures
            r.client_order_id@ == self.o.c@,
            r.symbol@ == lower(self.o.s@),
            r.side == self.o.S,
            r.state == self.o.X,
            r.trade_volume == amount_of(self.o.l@),
            r.commission == commission_of(self.o.n),
            fill_delta(Venue::Perpetual, r.trade_volume as int, r.commission as int) == amount_of(self.o.l@),
    {
        Fill {
            client_order_id: self.o.c.clone(),
            symbol: to_lower(self.o.s.as_str()),
            side: self.o.S,
            state: self.o.X,
            trade_volume: parse_amount(self.o.l.as_str()),
            commission: read_commission(&self.o.n),
        }
    }

    /// The order update clients see. `None` where the order type is not
    /// one the gateway knows.
    pub fn to_order(&self) -> (r: Option<Order>)
        ensures
            r is None <==> order_type_of(self.o.o@) is None,
            r matches Some(o) ==> {
                &&& o.time == self.E
                &&& o.symbol@ == lower(self.o.s@)
                &&& o.side == self.o.S
                &&& o.state == self.o.X
                &&& Some(o.order_type) == order_type_of(self.o.o@)
                &&& o.tif == tif_of(self.o.f@)
                &&& o.quantity == amount_of(self.o.q@)
                &&& o.price == amount_of(self.o.p@)
                &&& o.order_id == self.o.i
                &&& o.internal_id == internal_id_of(self.o.c@)
                &&& o.trade_time == self.o.T
                &&& o.trade_price == amount_of(self.o.L@)
                &&& o.trade_quantity == amount_of(self.o.l@)
                &&& o.acc == amount_of(self.o.z@)
                &&& o.making == self.o.m
            },
    {
        let o = &self.o;
        let order_type = match OrderType::parse(o.o.as_str()) {
            Some(t) => t,
            None => return None,
        };
        Some(Order {
            time: self.E,
            symbol: to_lower(o.s.as_str()),
            side: o.S,
            state: o.X,
            order_type,
            tif: Tif::parse(o.f.as_str()),
            quantity: parse_amount(o.q.as_str()),
            price: parse_amount(o.p.as_str()),
            order_id: o.i,
            internal_id: internal_id(&o.c),
            trade_time: o.T,
            trade_price: parse_amount(o.L.as_str()),
            trade_quantity: parse_amount(o.l.as_str()),
            acc: parse_amount(o.z.as_str()),
            making: o.m,
        })
    }
}

/// An order request from a client (`order` method).
#[derive(Debug)]
pub struct BinanceOrder {
    pub id: u32,
    pub symbol: String,
    pub price: i64,
    pub quantity: i64,
    pub side: Side,
    pub order_type: OrderType,
    pub tif: Tif,
    pub session_id: u16,
}

/// A cancel request from a client (`cancel` method).
#[derive(Debug)]
pub struct BinanceCancel {
    pub symbol: String,
    pub session_id: u16,
    pub order_id: u32,
}

/// A listen-key response: where the key sits is the only difference
/// between the venues.
pub trait ListenKey {
    fn key(&self) -> &str;
}

/// Spot and margin listen-key response `{"listenKey": ..}`.
pub struct SpotListenKey {
    pub listenKey: String,
}

/// Perpetual listen-key response `{"listenKey": ..}`.
pub struct UsdtListenKey {
    pub listenKey: String,
}

impl ListenKey for SpotListenKey {
    fn key(&self) -> &str {
        self.listenKey.as_str()
    }
}

impl ListenKey for UsdtListenKey {
    fn key(&self) -> &str {
        self.listenKey.as_str()
    }
}

} // verus!
