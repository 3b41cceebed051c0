//! The gateway's own entities, as clients see them. Prices, quantities and
//! positions are fixed-point amounts in units of 10^-8.
use vstd::prelude::*;
use crate::text::same_text;

verus! {

/// Error code: the client has not logged in.
pub const NOT_LOGIN: i32 = -10001;
/// Error code: the session is already held by another client.
pub const DUPLICATE_LOGIN: i32 = -10002;
/// Error code: the symbol is not a listed product.
pub const INVALID_SYMBOL: i32 = -10003;
/// Error code: the stream kind is not one the gateway serves.
pub const INVALID_STREAM: i32 = -10004;
/// Error code: the session does not trade.
pub const NONTRADING: i32 = -10005;
/// Error code: an upstream link is down.
pub const DISCONNECTED: i32 = -30002;
/// Error code: anything else.
pub const UNDEF_ERROR: i32 = -30003;

/// A client request: `{"id": .., "method": .., "params": ..}`.
#[derive(Debug)]
pub struct Request<T> {
    pub id: i64,
    pub method: String,
    pub params: T,
}

/// A reply to a client request: `{"id": .., "result": ..}`.
#[derive(Debug)]
pub struct Response<T> {
    pub id: i64,
    pub result: T,
}

/// The result of a failed request.
#[derive(Debug)]
pub struct Error {
    pub code: i32,
    pub msg: String,
}

/// Parameters of `login`.
#[derive(Debug)]
pub struct Login {
    pub session_id: u16,
    pub name: Option<String>,
    pub trading: bool,
}

/// Parameters of `get_positions`.
#[derive(Debug)]
pub struct PositionReq {
    pub session_id: u16,
    pub symbols: Vec<String>,
}

/// Result of `get_positions`.
#[derive(Debug)]
pub struct PositionRsp {
    pub session_id: u16,
    pub positions: Vec<Position>,
}

/// One price level of a book.
#[derive(Clone, Copy, PartialEq, Eq, Structural, Debug)]
pub struct Quote {
    pub price: i64,
    pub quantity: i64,
}

/// A book snapshot pushed to clients.
#[derive(Debug)]
pub struct Depth {
    pub time: i64,
    pub symbol: String,
    pub stream: String,
    pub bids: Vec<Quote>,
    pub asks: Vec<Quote>,
}

/// A candle pushed to clients.
#[derive(Debug)]
pub struct Kline {
    pub time: i64,
    pub symbol: String,
    pub stream: String,
    pub open: i64,
    pub high: i64,
    pub low: i64,
    pub close: i64,
    pub volume: i64,
    pub amount: i64,
}

/// An order update pushed to clients.
#[derive(Debug)]
pub struct Order {
    pub time: i64,
    pub symbol: String,
    pub side: Side,
    pub state: State,
    pub order_type: OrderType,
    pub tif: Tif,
    pub quantity: i64,
    pub price: i64,
    pub order_id: i64,
    pub internal_id: u32,
    pub trade_time: i64,
    pub trade_price: i64,
    pub trade_quantity: i64,
    pub acc: i64,
    pub making: bool,
}

/// The net holding of a session in one symbol.
#[derive(Debug)]
pub struct Position {
    pub symbol: String,
    pub net: i64,
}

#[allow(non_camel_case_types)]
#[derive(Clone, Copy, PartialEq, Eq, Structural, Debug)]
pub enum State {
    NEW,
    PARTIALLY_FILLED,
    FILLED,
    CANCELED,
    REJECTED,
    EXPIRED,
    EXPIRED_IN_MATCH,
}

#[derive(Clone, Copy, PartialEq, Eq, Structural, Debug)]
pub enum Side {
    BUY,
    SELL,
}

#[allow(non_camel_case_types)]
#[derive(Clone, Copy, PartialEq, Eq, Structural, Debug)]
pub enum OrderType {
    LIMIT,
    LIMIT_MAKER,
    MARKET,
    STOP,
    STOP_MARKET,
    STOP_LOSS,
    STOP_LOSS_LIMIT,
    TAKE_PROFIT,
    TAKE_PROFIT_LIMIT,
    TAKE_PROFIT_MARKET,
    TRAILING_STOP_MARKET,
}

#[derive(Clone, Copy, PartialEq, Eq, Structural, Debug)]
pub enum Tif {
    GTC,
    IOC,
    FOK,
    GTX,
    GTD,
    UNDEF,
}

pub open spec fn state_of(s: Seq<char>) -> Option<State> {
    if s == "NEW"@ {
        Some(State::NEW)
    } else if s == "PARTIALLY_FILLED"@ {
        Some(State::PARTIALLY_FILLED)
    } else if s == "FILLED"@ {
        Some(State::FILLED)
    } else if s == "CANCELED"@ {
        Some(State::CANCELED)
    } else if s == "REJECTED"@ {
        Some(State::REJECTED)
    } else if s == "EXPIRED"@ {
        Some(State::EXPIRED)
    } else if s == "EXPIRED_IN_MATCH"@ {
        Some(State::EXPIRED_IN_MATCH)
    } else {
        None
    }
}

pub open spec fn side_of(s: Seq<char>) -> Option<Side> {
    if s == "BUY"@ {
        Some(Side::BUY)
    } else if s == "SELL"@ {
        Some(Side::SELL)
    } else {
        None
    }
}

pub open spec fn order_type_of(s: Seq<char>) -> Option<OrderType> {
    if s == "LIMIT"@ {
        Some(OrderType::LIMIT)
    } else if s == "LIMIT_MAKER"@ {
        Some(OrderType::LIMIT_MAKER)
    } else if s == "MARKET"@ {
        Some(OrderType::MARKET)
    } else if s == "STOP"@ {
        Some(OrderType::STOP)
    } else if s == "STOP_MARKET"@ {
        Some(OrderType::STOP_MARKET)
    } else if s == "STOP_LOSS"@ {
        Some(OrderType::STOP_LOSS)
    } else if s == "STOP_LOSS_LIMIT"@ {
        Some(OrderType::STOP_LOSS_LIMIT)
    } else if s == "TAKE_PROFIT"@ {
        Some(OrderType::TAKE_PROFIT)
    } else if s == "TAKE_PROFIT_LIMIT"@ {
        Some(OrderType::TAKE_PROFIT_LIMIT)
    } else if s == "TAKE_PROFIT_MARKET"@ {
        Some(OrderType::TAKE_PROFIT_MARKET)
    } else if s == "TRAILING_STOP_MARKET"@ {
        Some(OrderType::TRAILING_STOP_MARKET)
    } else {
        None
    }
}

/// Time-in-force names; an unknown name is `UNDEF`.
pub open spec fn tif_of(s: Seq<char>) -> Tif {
    if s == "GTC"@ {
        Tif::GTC
    } else if s == "IOC"@ {
        Tif::IOC
    } else if s == "FOK"@ {
        Tif::FOK
    } else if s == "GTX"@ {
        Tif::GTX
    } else if s == "GTD"@ {
        Tif::GTD
    } else {
        Tif::UNDEF
    }
}

impl State {
    pub fn parse(s: &str) -> (r: Option<State>)
        ensures
            r == state_of(s@),
    {
        if same_text(s, "NEW") {
            Some(State::NEW)
        } else if same_text(s, "PARTIALLY_FILLED") {
            Some(State::PARTIALLY_FILLED)
        } else if same_text(s, "FILLED") {
            Some(State::FILLED)
        } else if same_text(s, "CANCELED") {
            Some(State::CANCELED)
        } else if same_text(s, "REJECTED") {
            Some(State::REJECTED)
        } else if same_text(s, "EXPIRED") {
            Some(State::EXPIRED)
        } else if same_text(s, "EXPIRED_IN_MATCH") {
            Some(State::EXPIRED_IN_MATCH)
        } else {
            None
        }
    }
}

impl Side {
    pub fn parse(s: &str) -> (r: Option<Side>)
        ensures
            r == side_of(s@),
    {
        if same_text(s, "BUY") {
            Some(Side::BUY)
        } else if same_text(s, "SELL") {
            Some(Side::SELL)
        } else {
            None
        }
    }
}

impl OrderType {
    pub fn parse(s: &str) -> (r: Option<OrderType>)
        ensures
            r == order_type_of(s@),
    {
        if same_text(s, "LIMIT") {
            Some(OrderType::LIMIT)
        } else if same_text(s, "LIMIT_MAKER") {
            Some(OrderType::LIMIT_MAKER)
        } else if same_text(s, "MARKET") {
            Some(OrderType::MARKET)
        } else if same_text(s, "STOP") {
            Some(OrderType::STOP)
        } else if same_text(s, "STOP_MARKET") {
            Some(OrderType::STOP_MARKET)
        } else if same_text(s, "STOP_LOSS") {
            Some(OrderType::STOP_LOSS)
        } else if same_text(s, "STOP_LOSS_LIMIT") {
            Some(OrderType::STOP_LOSS_LIMIT)
        } else if same_text(s, "TAKE_PROFIT") {
            Some(OrderType::TAKE_PROFIT)
        } else if same_text(s, "TAKE_PROFIT_LIMIT") {
            Some(OrderType::TAKE_PROFIT_LIMIT)
        } else if same_text(s, "TAKE_PROFIT_MARKET") {
            Some(OrderType::TAKE_PROFIT_MARKET)
        } else if same_text(s, "TRAILING_STOP_MARKET") {
            Some(OrderType::TRAILING_STOP_MARKET)
        } else {
            None
        }
    }
}

impl Tif {
    pub fn parse(s: &str) -> (r: Tif)
        ensures
            r == tif_of(s@),
    {
        if same_text(s, "GTC") {
            Tif::GTC
        } else if same_text(s, "IOC") {
            Tif::IOC
        } else if same_text(s, "FOK") {
            Tif::FOK
        } else if same_text(s, "GTX") {
            Tif::GTX
        } else if same_text(s, "GTD") {
            Tif::GTD
        } else {
            Tif::UNDEF
        }
    }
}

impl Order {
    /// A locally made order record (a synthetic `REJECTED`, say) of client
    /// order `id`, stamped `time`: no exchange id (-1) and no trade yet.
    pub fn new(
        id: u32,
        symbol: String,
        side: Side,
        state: State,
        order_type: OrderType,
        tif: Tif,
        quantity: i64,
        price: i64,
        time: i64,
    ) -> (r: Order)
        ensures
            r.time == time,
            r.symbol@ == symbol@,
            r.side == side,
            r.state == state,
            r.order_type == order_type,
            r.tif == tif,
            r.quantity == quantity,
            r.price == price,
            r.order_id == -1,
            r.internal_id == id,
            r.trade_time == 0,
            r.trade_price == 0,
            r.trade_quantity == 0,
            r.acc == 0,
            !r.making,
    {
        Order {
            time,
            symbol,
            side,
            state,
            order_type,
            tif,
            quantity,
            price,
            order_id: -1,
            internal_id: id,
            trade_time: 0,
            trade_price: 0,
            trade_quantity: 0,
            acc: 0,
            making: false,
        }
    }
}

} // verus!
