//! The decisions of the request dispatcher: which method a request names,
//! whether a subscription request is valid, and what a request gets while
//! an upstream link is down.
use vstd::prelude::*;
use crate::chat::{Error, Login, DISCONNECTED, DUPLICATE_LOGIN, INVALID_STREAM, INVALID_SYMBOL};
use crate::market::Market;
use crate::session::SessionTable;
use crate::product::{Product, is_listed};
use crate::stream::{is_stream_kind, is_stream_kind_name, kind_part, split_stream, symbol_part};
use crate::text::{first_index, join, lower, same_text, to_lower};

verus! {

/// The methods clients may call.
#[derive(Clone, Copy, PartialEq, Eq, Structural, Debug)]
pub enum Method {
    Login,
    Subscribe,
    GetProducts,
    GetPositions,
    Order,
    Cancel,
}

pub open spec fn method_of(s: Seq<char>) -> Option<Method> {
    if s == "login"@ {
        Some(Method::Login)
    } else if s == "subscribe"@ {
        Some(Method::Subscribe)
    } else if s == "get_products"@ {
        Some(Method::GetProducts)
    } else if s == "get_positions"@ {
        Some(Method::GetPositions)
    } else if s == "order"@ {
        Some(Method::Order)
    } else if s == "cancel"@ {
        Some(Method::Cancel)
    } else {
        None
    }
}

/// The method a request names; `None` for an unknown one (ignored).
pub fn parse_method(s: &str) -> (r: Option<Method>)
    ensures
        r == method_of(s@),
{
    if same_text(s, "login") {
        Some(Method::Login)
    } else if same_text(s, "subscribe") {
        Some(Method::Subscribe)
    } else if same_text(s, "get_products") {
        Some(Method::GetProducts)
    } else if same_text(s, "get_positions") {
        Some(Method::GetPositions)
    } else if same_text(s, "order") {
        Some(Method::Order)
    } else if same_text(s, "cancel") {
        Some(Method::Cancel)
    } else {
        None
    }
}

pub open spec fn listed(products: Seq<Product>, symbol: Seq<char>) -> bool {
    exists|k: int| 0 <= k < products.len() && #[trigger] products[k].symbol@ == symbol
}

/// What is wrong with stream name `s` (taken in lowercase), if anything:
/// no `@` or an unlisted symbol is `INVALID_SYMBOL`, an unknown kind is
/// `INVALID_STREAM`.
pub open spec fn stream_error(products: Seq<Product>, s: Seq<char>) -> Option<i32> {
    let l = lower(s);
    if first_index(l, '@') == l.len() {
        Some(INVALID_SYMBOL)
    } else if !listed(products, symbol_part(l)) {
        Some(INVALID_SYMBOL)
    } else if !is_stream_kind(kind_part(l)) {
        Some(INVALID_STREAM)
    } else {
        None
    }
}

/// Checks one stream name; gives its lowercase form or the error.
pub fn check_stream(products: &Vec<Product>, s: &String) -> (r: Result<String, Error>)
    ensures
        r is Ok <==> stream_error(products@, s@) is None,
        r matches Ok(l) ==> l@ == lower(s@),
        r matches Err(e) ==> stream_error(products@, s@) == Some(e.code),
{
    let l = to_lower(s.as_str());
    match split_stream(l.as_str()) {
        None => {
            let msg = join("invalid symbol ", l.as_str());
            Err(Error { code: INVALID_SYMBOL, msg })
        },
        Some((symbol, kind)) => {
            if !is_listed(products, symbol.as_str()) {
                let msg = join("invalid symbol ", l.as_str());
                return Err(Error { code: INVALID_SYMBOL, msg });
            }
            if !is_stream_kind_name(kind.as_str()) {
                let msg = join("invalid stream ", l.as_str());
                return Err(Error { code: INVALID_STREAM, msg });
            }
            Ok(l)
        },
    }
}

/// Validates a subscription request against the listed products: every
/// stream must be `symbol@depth`, `symbol@bbo` or `symbol@kline:I` with a
/// listed symbol (case aside). Gives the streams in lowercase, or the error
/// of the first invalid one.
pub fn validate_subscription(products: &Vec<Product>, streams: &Vec<String>) -> (r: Result<Vec<String>, Error>)
    ensures
        r is Ok <==> forall|j: int| 0 <= j < streams@.len() ==> (#[trigger] stream_error(products@, streams@[j]@)) is None,
        r matches Ok(v) ==> v@.len() == streams@.len() && forall|j: int| 0 <= j < streams@.len() ==> #[trigger] v@[j]@ == lower(streams@[j]@),
        r matches Err(e) ==> exists|j: int|
            0 <= j < streams@.len() && stream_error(products@, #[trigger] streams@[j]@) == Some(e.code) && forall|k: int|
                0 <= k < j ==> (#[trigger] stream_error(products@, streams@[k]@)) is None,
{
    let mut out: Vec<String> = Vec::new();
    let mut i: usize = 0;
    while i < streams.len()
        invariant
            i <= streams@.len(),
            out@.len() == i,
            forall|j: int| 0 <= j < i ==> (#[trigger] stream_error(products@, streams@[j]@)) is None,
            forall|j: int| 0 <= j < i ==> #[trigger] out@[j]@ == lower(streams@[j]@),
        decreases streams@.len() - i,
    {
        match check_stream(products, &streams[i]) {
            Ok(l) => out.push(l),
            Err(e) => {
                assert(stream_error(products@, streams@[i as int]@) == Some(e.code));
                return Err(e);
            },
        }
        i = i + 1;
    }
    Ok(out)
}

/// A `login` request of `client`. A trading login takes the session (see
/// `SessionTable::login`); a refused one changes nothing and gives its
/// error code. Otherwise the client becomes a market subscriber, and the
/// request is answered by echoing its parameters.
pub fn handle_login(market: &mut Market, sessions: &mut SessionTable, client: u64, login: &Login) -> (r: Result<(), i32>)
    requires
        old(market).wf(),
        old(sessions).wf(),
    ensures
        final(market).wf(),
        final(sessions).wf(),
        r matches Err(e) ==> e == DUPLICATE_LOGIN && *final(market) == *old(market) && *final(sessions) == *old(sessions),
        r is Err <==> (login.trading && (old(sessions).owner(login.session_id) matches Some(Some(_)))),
        r is Ok ==> forall|c: u64|
            final(market).logged_in(c) == (old(market).logged_in(c) || (c == client && old(market).connected(client))),
        r is Ok && login.trading ==> final(sessions).owner(login.session_id) == Some(Some(client)),
        !login.trading ==> *final(sessions) == *old(sessions),
        forall|s: u16| s != login.session_id ==> final(sessions).owner(s) == old(sessions).owner(s),
        forall|s: u16, sym: Seq<char>|
            final(sessions).positions_view().net(s, sym) == old(sessions).positions_view().net(s, sym),
        r is Ok && login.trading ==> final(sessions).positions_view().has_table(login.session_id),
        final(sessions).venue_spec() == old(sessions).venue_spec(),
{
    if login.trading {
        sessions.login(client, login.session_id)?;
    }
    market.handle_login(client);
    Ok(())
}

/// The shapes of a frame on the market link.
#[derive(Clone, Copy, PartialEq, Eq, Structural, Debug)]
pub enum MarketEvent {
    /// An answer (`result` or error) to an upstream request.
    Reply,
    Kline,
    BookTicker,
    Depth,
}

/// Tells a market frame's shape by its structure: a frame with an `id` and
/// no `stream` answers a request; otherwise its payload is a kline when its
/// `e` is `kline`, a best bid/offer when it has both `A` and `B`, and a
/// book otherwise.
pub fn classify_market(has_id: bool, has_stream: bool, event: &str, has_best: bool) -> (r: MarketEvent)
    ensures
        r == if has_id && !has_stream {
            MarketEvent::Reply
        } else if event@ == "kline"@ {
            MarketEvent::Kline
        } else if has_best {
            MarketEvent::BookTicker
        } else {
            MarketEvent::Depth
        },
{
    if has_id && !has_stream {
        MarketEvent::Reply
    } else if same_text(event, "kline") {
        MarketEvent::Kline
    } else if has_best {
        MarketEvent::BookTicker
    } else {
        MarketEvent::Depth
    }
}

/// The shapes of a frame on the user-data link that the gateway acts on.
#[derive(Clone, Copy, PartialEq, Eq, Structural, Debug)]
pub enum AccountEvent {
    /// A spot `executionReport`.
    ExecutionReport,
    /// A perpetual `ORDER_TRADE_UPDATE`.
    OrderUpdate,
    /// Anything else (balances, account updates): dropped.
    Other,
}

/// Tells a user-data frame's shape by its `e` field.
pub fn classify_account(event: &str) -> (r: AccountEvent)
    ensures
        r == if event@ == "executionReport"@ {
            AccountEvent::ExecutionReport
        } else if event@ == "ORDER_TRADE_UPDATE"@ {
            AccountEvent::OrderUpdate
        } else {
            AccountEvent::Other
        },
{
    if same_text(event, "executionReport") {
        AccountEvent::ExecutionReport
    } else if same_text(event, "ORDER_TRADE_UPDATE") {
        AccountEvent::OrderUpdate
    } else {
        AccountEvent::Other
    }
}

/// What a request gets before it is dispatched: `DISCONNECTED` while either
/// upstream link is down, else nothing (it goes on to its method).
pub fn request_gate(market_disconnected: bool, account_disconnected: bool) -> (r: Option<Error>)
    ensures
        r is Some <==> (market_disconnected || account_disconnected),
        r matches Some(e) ==> e.code == DISCONNECTED,
{
    if market_disconnected || account_disconnected {
        Some(disconnected_error())
    } else {
        None
    }
}

/// Whether `client` may place or cancel orders of session `sid`: it holds
/// the session. Other orders are dropped.
pub fn may_trade(sessions: &SessionTable, client: u64, sid: u16) -> (r: bool)
    requires
        sessions.wf(),
    ensures
        r == (sessions.owner(sid) == Some(Some(client))),
{
    match sessions.owner_of(sid) {
        Some(Some(c)) => c == client,
        _ => false,
    }
}

/// Whether an order placement counts as rejected, so that a `REJECTED`
/// order goes back to the client: the request did not get through, or the
/// exchange answered with an error (a body with a `code`).
pub fn order_rejected(delivered: bool, body_has_code: bool) -> (r: bool)
    ensures
        r == (!delivered || body_has_code),
{
    !delivered || body_has_code
}

/// The reply to any request while an upstream link is down.
pub fn disconnected_error() -> (r: Error)
    ensures
        r.code == DISCONNECTED,
{
    Error { code: DISCONNECTED, msg: String::from_str("disconnected") }
}

} // verus!
