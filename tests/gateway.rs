use xcrypto::account::Account;
use xcrypto::chat::{Login, Position};
use xcrypto::dispatch::{may_trade, order_rejected, request_gate, classify_account, classify_market, handle_login, AccountEvent, MarketEvent};
use xcrypto::product::select_products;
use xcrypto::binance::Fill;
use xcrypto::chat::{Depth, OrderType, Quote, Side, State, Tif, DUPLICATE_LOGIN, INVALID_STREAM, INVALID_SYMBOL};
use xcrypto::depth::sanitize;
use xcrypto::dispatch::{parse_method, validate_subscription, Method};
use xcrypto::ids::{compose, decompose};
use xcrypto::market::{Market, SubscribeAction};
use xcrypto::product::Product;
use xcrypto::session::{PositionDB, SessionTable, Venue};
use xcrypto::stream::upstream_name;

fn names(v: &[&str]) -> Vec<String> {
    v.iter().map(|s| s.to_string()).collect()
}

fn logged_in(m: &mut Market, client: u64) {
    m.handle_connect(client);
    m.handle_login(client);
}

#[test]
fn composite_ids_round_trip() {
    assert_eq!(compose(3, 2), 12884901890);
    assert_eq!(decompose(12884901890), (3, 2));
    for (sid, id) in [(0u16, 0u32), (65535, u32::MAX), (9, 123456), (1, 0)] {
        assert_eq!(decompose(compose(sid, id)), (sid, id));
    }
}

#[test]
fn login_and_subscribe() {
    let mut m = Market::new(0);
    logged_in(&mut m, 1);
    match m.handle_subscribe(1, 2, &names(&["btcusdt@depth"])) {
        SubscribeAction::Upstream { id, keys, streams } => {
            assert_eq!(id, 1);
            assert_eq!(keys, names(&["btcusdt@depth"]));
            assert_eq!(streams, names(&["btcusdt@depth20@100ms"]));
            assert_eq!(m.on_reply(id), Some((1, 2)));
            assert_eq!(m.on_reply(id), None);
        }
        _ => panic!("expected an upstream SUBSCRIBE"),
    }
    assert!(m.is_subscribed(1, &"btcusdt@depth".to_string()));
}

#[test]
fn subscribe_before_login_is_refused() {
    let mut m = Market::new(0);
    m.handle_connect(1);
    assert!(matches!(m.handle_subscribe(1, 5, &names(&["btcusdt@bbo"])), SubscribeAction::NotLogin));
}

#[test]
fn refcount_shares_one_upstream_subscription() {
    let mut m = Market::new(0);
    logged_in(&mut m, 1);
    logged_in(&mut m, 2);
    let key = "ethusdt@bbo".to_string();
    match m.handle_subscribe(1, 10, &names(&["ethusdt@bbo"])) {
        SubscribeAction::Upstream { streams, .. } => assert_eq!(streams, names(&["ethusdt@bookTicker"])),
        _ => panic!("first subscriber subscribes upstream"),
    }
    assert!(matches!(m.handle_subscribe(2, 11, &names(&["ethusdt@bbo"])), SubscribeAction::Done));
    assert_eq!(m.refcount_of(&key), 2);
    let mut r = m.recipients(&key);
    r.sort();
    assert_eq!(r, vec![1, 2]);
    assert!(m.handle_close(1).is_none());
    assert_eq!(m.refcount_of(&key), 1);
    let u = m.handle_close(2).expect("last follower unsubscribes");
    assert_eq!(u.streams, names(&["ethusdt@bookTicker"]));
    assert_eq!(u.id, 2);
    assert_eq!(m.refcount_of(&key), 0);
}

#[test]
fn subscribing_twice_is_a_noop_upstream() {
    let mut m = Market::new(0);
    logged_in(&mut m, 7);
    let s = names(&["bnbusdt@kline:1m", "bnbusdt@kline:1m"]);
    match m.handle_subscribe(7, 1, &s) {
        SubscribeAction::Upstream { streams, .. } => assert_eq!(streams, names(&["bnbusdt@kline_1m"])),
        _ => panic!("expected upstream"),
    }
    assert_eq!(m.refcount_of(&"bnbusdt@kline:1m".to_string()), 1);
    assert!(matches!(m.handle_subscribe(7, 2, &s), SubscribeAction::Done));
    assert_eq!(m.refcount_of(&"bnbusdt@kline:1m".to_string()), 1);
}

#[test]
fn closing_twice_is_idempotent() {
    let mut m = Market::new(0);
    logged_in(&mut m, 4);
    let _ = m.handle_subscribe(4, 1, &names(&["btcusdt@depth"]));
    assert!(m.handle_close(4).is_some());
    assert!(m.handle_close(4).is_none());
    assert_eq!(m.refcount_of(&"btcusdt@depth".to_string()), 0);
    assert!(!m.is_subscribed(4, &"btcusdt@depth".to_string()));
}

#[test]
fn reconnect_waits_thirty_seconds_then_resubscribes() {
    let mut m = Market::new(1_000);
    logged_in(&mut m, 1);
    let _ = m.handle_subscribe(1, 1, &names(&["btcusdt@depth", "ethusdt@bbo"]));
    m.mark_disconnected();
    assert!(m.disconnected());
    assert!(!m.reconnect_due(20_000));
    assert!(!m.reconnect_due(30_999));
    assert!(m.reconnect_due(31_000));
    assert!(!m.reconnect_due(40_000));
    let r = m.on_reconnected().expect("resubscribe");
    assert!(!m.disconnected());
    let mut s = r.streams.clone();
    s.sort();
    assert_eq!(s, names(&["btcusdt@depth20@100ms", "ethusdt@bookTicker"]));
    assert_eq!(r.id, 2);
}

#[test]
fn account_timers() {
    let mut a = Account::new(0);
    assert!(!a.keepalive_due(1_799_999));
    assert!(a.keepalive_due(1_800_000));
    a.mark_disconnected();
    assert!(!a.reconnect_due(1_809_999));
    assert!(a.reconnect_due(1_810_000));
    a.on_reconnected();
    assert!(!a.reconnect_due(2_000_000));
}

fn quote(price: i64) -> Quote {
    Quote { price, quantity: 100000000 }
}

fn depth(bids: Vec<Quote>, asks: Vec<Quote>) -> Depth {
    Depth { time: 1, symbol: "btcusdt".to_string(), stream: "btcusdt@depth".to_string(), bids, asks }
}

#[test]
fn crossed_book_is_dropped() {
    let d = depth(vec![quote(10000000000)], vec![quote(9900000000)]);
    assert!(sanitize(d).is_none());
    let d = depth(vec![quote(100)], vec![quote(100)]);
    assert!(sanitize(d).is_none());
}

#[test]
fn ascending_bids_are_turned_around() {
    let d = depth(vec![quote(97), quote(98), quote(99)], vec![quote(100), quote(101)]);
    let d = sanitize(d).expect("a sane book passes");
    assert_eq!(d.bids.iter().map(|q| q.price).collect::<Vec<_>>(), vec![99, 98, 97]);
    let d = depth(vec![quote(99), quote(99)], vec![quote(100)]);
    assert!(sanitize(d).is_none());
}

fn fill(cid: &str, side: Side, state: State, volume: i64, commission: i64) -> Fill {
    Fill {
        client_order_id: cid.to_string(),
        symbol: "btcusdt".to_string(),
        side,
        state,
        trade_volume: volume,
        commission,
    }
}

#[test]
fn order_accounting_on_spot() {
    let mut t = SessionTable::new(Venue::Spot, PositionDB::new());
    assert_eq!(t.login(100, 3), Ok(()));
    let cid = compose(3, 1).to_string();
    let o = t.on_fill(&fill(&cid, Side::BUY, State::PARTIALLY_FILLED, 400000000, 400000)).unwrap();
    assert_eq!(o.session_id, 3);
    assert_eq!(o.owner, Some(100));
    assert_eq!(o.position.unwrap().net, 399600000);
    let o = t.on_fill(&fill(&cid, Side::BUY, State::FILLED, 600000000, 600000)).unwrap();
    assert_eq!(o.position.unwrap().net, 999000000);
    let o = t.on_fill(&fill(&cid, Side::SELL, State::NEW, 600000000, 0)).unwrap();
    assert!(o.position.is_none());
    assert_eq!(t.net_of(3, "btcusdt"), Some(999000000));
    assert!(t.on_fill(&fill("web_123", Side::BUY, State::FILLED, 1, 0)).is_none());
    assert!(t.on_fill(&fill(&compose(4, 1).to_string(), Side::BUY, State::FILLED, 1, 0)).is_none());
}

#[test]
fn order_accounting_on_perpetual() {
    let mut t = SessionTable::new(Venue::Perpetual, PositionDB::new());
    assert_eq!(t.login(1, 5), Ok(()));
    let cid = compose(5, 9).to_string();
    let o = t.on_fill(&fill(&cid, Side::SELL, State::FILLED, 200000000, 500000)).unwrap();
    assert_eq!(o.position.unwrap().net, -200000000);
    let p = t.positions(5, &vec![]);
    assert_eq!(p.len(), 1);
    assert_eq!(p[0].symbol, "btcusdt");
    assert!(t.positions(5, &names(&["ethusdt"])).is_empty());
    assert_eq!(t.positions(5, &names(&["ethusdt", "btcusdt"]))[0].net, -200000000);
    assert!(t.positions(6, &vec![]).is_empty());
}

#[test]
fn duplicate_login_is_refused_until_release() {
    let mut t = SessionTable::new(Venue::Spot, PositionDB::new());
    assert_eq!(t.login(10, 9), Ok(()));
    let cid = compose(9, 1).to_string();
    let _ = t.on_fill(&fill(&cid, Side::BUY, State::FILLED, 100000000, 0));
    assert_eq!(t.login(11, 9), Err(DUPLICATE_LOGIN));
    t.close(10);
    t.close(10);
    assert_eq!(t.login(11, 9), Ok(()));
    assert_eq!(t.net_of(9, "btcusdt"), Some(100000000));
    let o = t.on_fill(&fill(&cid, Side::BUY, State::FILLED, 100000000, 0)).unwrap();
    assert_eq!(o.owner, Some(11));
}

#[test]
fn store_keeps_latest_positions() {
    let mut s = PositionDB::new();
    assert!(s.get_positions(1).is_none());
    s.create_table(1);
    s.create_table(1);
    assert_eq!(s.get_positions(1).unwrap().len(), 0);
    s.update(1, "btcusdt", 5);
    s.update(1, "btcusdt", 7);
    s.update(1, "ethusdt", -3);
    let p = s.get_positions(1).unwrap();
    assert_eq!(p.len(), 2);
    assert_eq!(s.net_of(1, "btcusdt"), Some(7));
}

fn product(symbol: &str) -> Product {
    Product {
        symbol: symbol.to_string(),
        delivery: None,
        onboard: None,
        order: vec![],
        tif: None,
        price_filter: None,
        lot_size: None,
        min_notional: None,
    }
}

#[test]
fn subscription_requests_are_validated() {
    let products = vec![product("btcusdt"), product("ethusdt")];
    let ok = validate_subscription(&products, &names(&["BTCUSDT@depth", "ethusdt@kline:1M", "ethusdt@bbo"])).unwrap();
    assert_eq!(ok, names(&["btcusdt@depth", "ethusdt@kline:1m", "ethusdt@bbo"]));
    let e = validate_subscription(&products, &names(&["btcusdt@depth", "dogeusdt@depth"])).unwrap_err();
    assert_eq!(e.code, INVALID_SYMBOL);
    let e = validate_subscription(&products, &names(&["btcusdt"])).unwrap_err();
    assert_eq!(e.code, INVALID_SYMBOL);
    let e = validate_subscription(&products, &names(&["btcusdt@trade"])).unwrap_err();
    assert_eq!(e.code, INVALID_STREAM);
    let e = validate_subscription(&products, &names(&["btcusdt@kline:7m"])).unwrap_err();
    assert_eq!(e.code, INVALID_STREAM);
}

#[test]
fn methods_are_recognised() {
    assert_eq!(parse_method("get_positions"), Some(Method::GetPositions));
    assert_eq!(parse_method("login"), Some(Method::Login));
    assert_eq!(parse_method("ping"), None);
}

#[test]
fn upstream_names() {
    assert_eq!(upstream_name("btcusdt@depth"), "btcusdt@depth20@100ms");
    assert_eq!(upstream_name("ethusdt@bbo"), "ethusdt@bookTicker");
    assert_eq!(upstream_name("bnbusdt@kline:1m"), "bnbusdt@kline_1m");
    assert_eq!(upstream_name("btcusdt@trade"), "btcusdt@trade");
    assert_eq!(upstream_name("plain"), "plain");
}

#[test]
fn order_kinds_unused_warning_guard() {
    let _ = (OrderType::LIMIT, Tif::GTC);
}

#[test]
fn trading_login_takes_the_session() {
    let mut m = Market::new(0);
    let mut t = SessionTable::new(Venue::Spot, PositionDB::new());
    m.handle_connect(1);
    m.handle_connect(2);
    let login = Login { session_id: 7, name: Some("a".to_string()), trading: true };
    assert_eq!(handle_login(&mut m, &mut t, 1, &login), Ok(()));
    assert_eq!(handle_login(&mut m, &mut t, 2, &login), Err(DUPLICATE_LOGIN));
    assert!(matches!(m.handle_subscribe(2, 1, &names(&["btcusdt@bbo"])), SubscribeAction::NotLogin));
    let watch = Login { session_id: 7, name: None, trading: false };
    assert_eq!(handle_login(&mut m, &mut t, 2, &watch), Ok(()));
    assert!(matches!(m.handle_subscribe(2, 1, &names(&["btcusdt@bbo"])), SubscribeAction::Upstream { .. }));
    assert_eq!(t.owner_of(7), Some(Some(1)));
}

#[test]
fn products_are_selected_by_name() {
    let products = vec![product("btcusdt"), product("ethusdt"), product("bnbusdt")];
    assert_eq!(select_products(&products, &vec![]), vec![0, 1, 2]);
    assert_eq!(select_products(&products, &names(&["BNBUSDT", "btcusdt", "xrpusdt"])), vec![0, 2]);
}

#[test]
fn requests_while_disconnected_get_an_error() {
    assert_eq!(xcrypto::dispatch::disconnected_error().code, xcrypto::chat::DISCONNECTED);
    assert_eq!(xcrypto::chat::DISCONNECTED, -30002);
    assert_eq!(xcrypto::chat::NOT_LOGIN, -10001);
}

#[test]
fn stored_rows_load_without_zero_positions() {
    let mut s = PositionDB::new();
    let rows = vec![
        Position { symbol: "btcusdt".to_string(), net: 0 },
        Position { symbol: "ethusdt".to_string(), net: 250000000 },
    ];
    s.load(4, &rows);
    assert_eq!(s.net_of(4, "btcusdt"), None);
    assert_eq!(s.net_of(4, "ethusdt"), Some(250000000));
    assert_eq!(s.get_positions(4).unwrap().len(), 1);
    assert!(s.get_positions(5).is_none());
}

#[test]
fn frames_are_told_apart_by_structure() {
    assert_eq!(classify_market(true, false, "", false), MarketEvent::Reply);
    assert_eq!(classify_market(true, true, "kline", false), MarketEvent::Kline);
    assert_eq!(classify_market(false, true, "", true), MarketEvent::BookTicker);
    assert_eq!(classify_market(false, true, "depthUpdate", false), MarketEvent::Depth);
    assert_eq!(classify_account("executionReport"), AccountEvent::ExecutionReport);
    assert_eq!(classify_account("ORDER_TRADE_UPDATE"), AccountEvent::OrderUpdate);
    assert_eq!(classify_account("ACCOUNT_UPDATE"), AccountEvent::Other);
}

#[test]
fn small_dispatch_decisions() {
    assert!(request_gate(false, false).is_none());
    assert_eq!(request_gate(true, false).unwrap().code, xcrypto::chat::DISCONNECTED);
    assert_eq!(request_gate(false, true).unwrap().code, xcrypto::chat::DISCONNECTED);
    let mut t = SessionTable::new(Venue::Spot, PositionDB::new());
    assert_eq!(t.login(3, 8), Ok(()));
    assert!(may_trade(&t, 3, 8));
    assert!(!may_trade(&t, 4, 8));
    assert!(!may_trade(&t, 3, 9));
    assert!(order_rejected(false, false));
    assert!(order_rejected(true, true));
    assert!(!order_rejected(true, false));
}
