use xcrypto::binance::{
    BinanceBookTicker, BinanceDepth, BinanceKline, BinanceQuote, ExecutionReport, KlineData, OrderData,
    OrderUpdate,
};
use xcrypto::chat::{OrderType, Side, State, Tif};
use xcrypto::fixed::parse_amount;
use xcrypto::product::{BinanceProduct, ConctactStatus, FilterField, SizeFilter};

fn q(p: &str, v: &str) -> BinanceQuote {
    BinanceQuote { price: p.to_string(), quantity: v.to_string() }
}

fn strings(v: &[&str]) -> Vec<String> {
    v.iter().map(|s| s.to_string()).collect()
}

#[test]
fn chat_test_depth() {
    let depth = BinanceDepth {
        E: 1714977197753,
        s: "BTCUSDT".to_string(),
        b: vec![
            q("64280.00000000", "1.51596000"),
            q("64279.81000000", "0.18344000"),
            q("64278.01000000", "0.01907000"),
            q("64277.37000000", "0.00312000"),
            q("64276.96000000", "0.00000000"),
        ],
        a: vec![
            q("64280.01000000", "7.16998000"),
            q("64280.13000000", "0.00000000"),
            q("64280.74000000", "0.00000000"),
            q("64280.98000000", "0.00155000"),
            q("64281.46000000", "0.00000000"),
        ],
    };
    let depth = depth.to_depth();
    assert_eq!(depth.time, 1714977197753);
    assert_eq!(depth.symbol, "btcusdt");
    assert_eq!(depth.stream, "btcusdt@depth");
    assert_eq!(depth.bids.len(), 5);
    assert_eq!(depth.asks.len(), 5);
    assert_eq!(depth.bids[0].price, 6428000000000);
    assert_eq!(depth.bids[0].quantity, 151596000);
}

fn kline_data() -> KlineData {
    KlineData {
        t: 123400000,
        T: 123460000,
        i: "1m".to_string(),
        f: 100,
        L: 200,
        o: "0.0010".to_string(),
        c: "0.0020".to_string(),
        h: "0.0025".to_string(),
        l: "0.0015".to_string(),
        v: "1000".to_string(),
        x: false,
        q: "1.0000".to_string(),
    }
}

#[test]
fn chat_test_kline() {
    let kline = BinanceKline { s: "BNBUSDT".to_string(), k: kline_data() };
    assert_eq!(kline.stream(), "bnbusdt@kline:1m");
    let kline = kline.to_kline();
    assert_eq!(kline.time, 123460000);
    assert_eq!(kline.symbol, "bnbusdt");
    assert_eq!(kline.stream, "bnbusdt@kline:1m");
    assert_eq!(kline.open, 100000);
    assert_eq!(kline.high, 250000);
    assert_eq!(kline.low, 150000);
    assert_eq!(kline.close, 200000);
    assert_eq!(kline.volume, 100000000000);
    assert_eq!(kline.amount, 100000000);
}

fn spot_product() -> BinanceProduct {
    BinanceProduct {
        symbol: "ETHBTC".to_string(),
        status: ConctactStatus::TRADING,
        deliveryDate: None,
        onboardDate: None,
        filters: vec![
            FilterField::PRICE_FILTER {
                minPrice: "0.00001000".to_string(),
                maxPrice: "922327.00000000".to_string(),
                tickSize: "0.00001000".to_string(),
            },
            FilterField::LOT_SIZE {
                minQty: "0.00010000".to_string(),
                maxQty: "100000.00000000".to_string(),
                stepSize: "0.00010000".to_string(),
            },
            FilterField::ICEBERG_PARTS { limit: 10 },
            FilterField::MARKET_LOT_SIZE {
                minQty: "0.00000000".to_string(),
                maxQty: "2703.20648368".to_string(),
                stepSize: "0.00000000".to_string(),
            },
            FilterField::TRAILING_DELTA {
                minTrailingAboveDelta: 10,
                maxTrailingAboveDelta: 2000,
                minTrailingBelowDelta: 10,
                maxTrailingBelowDelta: 2000,
            },
            FilterField::PERCENT_PRICE_BY_SIDE {
                bidMultiplierUp: "5".to_string(),
                bidMultiplierDown: "0.2".to_string(),
                askMultiplierUp: "5".to_string(),
                askMultiplierDown: "0.2".to_string(),
                avgPriceMins: 5,
            },
            FilterField::NOTIONAL {
                minNotional: "0.00010000".to_string(),
                applyMinToMarket: true,
                maxNotional: "9000000.00000000".to_string(),
                applyMaxToMarket: false,
                avgPriceMins: 5,
            },
            FilterField::MAX_NUM_ORDERS { maxNumOrders: Some(200), limit: None },
            FilterField::MAX_NUM_ALGO_ORDERS { maxNumAlgoOrders: Some(5), limit: None },
        ],
        orderTypes: strings(&["LIMIT", "LIMIT_MAKER", "MARKET", "STOP_LOSS_LIMIT", "TAKE_PROFIT_LIMIT"]),
        timeInForce: None,
    }
}

fn future_product() -> BinanceProduct {
    BinanceProduct {
        symbol: "BTCUSDT".to_string(),
        status: ConctactStatus::TRADING,
        deliveryDate: Some(4133404800000),
        onboardDate: Some(1569398400000),
        filters: vec![
            FilterField::PRICE_FILTER {
                maxPrice: "4529764".to_string(),
                minPrice: "556.80".to_string(),
                tickSize: "0.10".to_string(),
            },
            FilterField::LOT_SIZE { stepSize: "0.001".to_string(), maxQty: "1000".to_string(), minQty: "0.001".to_string() },
            FilterField::MARKET_LOT_SIZE {
                minQty: "0.001".to_string(),
                stepSize: "0.001".to_string(),
                maxQty: "120".to_string(),
            },
            FilterField::MAX_NUM_ORDERS { maxNumOrders: None, limit: Some(200) },
            FilterField::MAX_NUM_ALGO_ORDERS { maxNumAlgoOrders: None, limit: Some(10) },
            FilterField::MIN_NOTIONAL { notional: "100".to_string() },
            FilterField::PERCENT_PRICE {
                multiplierDecimal: "4".to_string(),
                multiplierDown: "0.9500".to_string(),
                multiplierUp: "1.0500".to_string(),
            },
        ],
        orderTypes: strings(&[
            "LIMIT",
            "MARKET",
            "STOP",
            "STOP_MARKET",
            "TAKE_PROFIT",
            "TAKE_PROFIT_MARKET",
            "TRAILING_STOP_MARKET",
        ]),
        timeInForce: Some(strings(&["GTC", "IOC", "FOK", "GTX", "GTD"])),
    }
}

#[test]
fn chat_test_product() {
    let product = spot_product();
    assert_eq!(product.status, ConctactStatus::TRADING);
    assert_eq!(product.deliveryDate, None);
    assert_eq!(product.onboardDate, None);
    assert_eq!(product.filters.len(), 9);
    assert_eq!(product.orderTypes.len(), 5);
    assert!(product.timeInForce.is_none());
    let p = product.to_product();
    assert_eq!(p.symbol, "ethbtc");
    assert_eq!(p.price_filter, Some(SizeFilter { size: 1000, max: 92232700000000, min: 1000 }));
    assert_eq!(p.lot_size, Some(SizeFilter { size: 10000, max: 10000000000000, min: 10000 }));
    assert_eq!(p.min_notional, Some(10000));

    let product = future_product();
    assert_eq!(product.status, ConctactStatus::TRADING);
    assert_eq!(product.deliveryDate, Some(4133404800000));
    assert_eq!(product.onboardDate, Some(1569398400000));
    assert_eq!(product.filters.len(), 7);
    assert_eq!(product.orderTypes.len(), 7);
    assert_eq!(product.timeInForce.as_ref().unwrap().len(), 5);
    let p = product.to_product();
    assert_eq!(p.symbol, "btcusdt");
    assert_eq!(p.delivery, Some(4133404800000));
    assert_eq!(p.tif.unwrap().len(), 5);
    assert_eq!(p.order.len(), 7);
    assert_eq!(p.price_filter, Some(SizeFilter { size: 10000000, max: 452976400000000, min: 55680000000 }));
    assert_eq!(p.min_notional, Some(10000000000));
}

#[test]
fn amounts_parse_exactly() {
    assert_eq!(parse_amount("3.996"), 399600000);
    assert_eq!(parse_amount("-0.5"), -50000000);
    assert_eq!(parse_amount("100"), 10000000000);
    assert_eq!(parse_amount(".25"), 25000000);
    assert_eq!(parse_amount("7."), 700000000);
    assert_eq!(parse_amount("0.123456789"), 12345678);
}

#[test]
fn unreadable_amounts_are_zero() {
    assert_eq!(parse_amount(""), 0);
    assert_eq!(parse_amount("abc"), 0);
    assert_eq!(parse_amount("1.2.3"), 0);
    assert_eq!(parse_amount("-"), 0);
    assert_eq!(parse_amount("."), 0);
    assert_eq!(parse_amount("99999999999"), 0);
    assert_eq!(parse_amount("92233720368.54775807"), 9223372036854775807);
}

#[test]
fn enum_names_parse() {
    assert_eq!(Side::parse("SELL"), Some(Side::SELL));
    assert_eq!(Side::parse("sell"), None);
    assert_eq!(State::parse("PARTIALLY_FILLED"), Some(State::PARTIALLY_FILLED));
    assert_eq!(OrderType::parse("TAKE_PROFIT_MARKET"), Some(OrderType::TAKE_PROFIT_MARKET));
    assert_eq!(OrderType::parse("NOPE"), None);
    assert_eq!(Tif::parse("GTX"), Tif::GTX);
    assert_eq!(Tif::parse("XYZ"), Tif::UNDEF);
}

fn report(state: State, c: &str, big_c: &str) -> ExecutionReport {
    ExecutionReport {
        E: 1716433595260,
        s: "DOGEUSDT".to_string(),
        S: Side::SELL,
        o: "LIMIT".to_string(),
        f: "GTC".to_string(),
        q: "25.0".to_string(),
        p: "0.2".to_string(),
        c: c.to_string(),
        C: big_c.to_string(),
        X: state,
        i: 45382967722,
        N: None,
        n: Some("0.001".to_string()),
        T: 1716433595260,
        t: 1,
        l: "5".to_string(),
        L: "0.2".to_string(),
        z: "5".to_string(),
        m: false,
        O: 1716433595260,
    }
}

#[test]
fn execution_report_to_order() {
    // session 3, order 2
    let r = report(State::NEW, "12884901890", "");
    let o = r.to_order().unwrap();
    assert_eq!(o.time, 1716433595260);
    assert_eq!(o.symbol, "dogeusdt");
    assert_eq!(o.side, Side::SELL);
    assert_eq!(o.state, State::NEW);
    assert_eq!(o.order_type, OrderType::LIMIT);
    assert_eq!(o.tif, Tif::GTC);
    assert_eq!(o.quantity, 2500000000);
    assert_eq!(o.price, 20000000);
    assert_eq!(o.order_id, 45382967722);
    assert_eq!(o.internal_id, 2);
    assert_eq!(o.trade_quantity, 500000000);
    assert!(!o.making);
    let f = r.fill();
    assert_eq!(f.client_order_id, "12884901890");
    assert_eq!(f.trade_volume, 500000000);
    assert_eq!(f.commission, 100000);
    // a cancel reports the original id in C
    let r = report(State::CANCELED, "web_x", "12884901891");
    assert_eq!(r.to_order().unwrap().internal_id, 3);
    // an outside order keeps internal id 0
    let r = report(State::NEW, "web_x", "");
    assert_eq!(r.to_order().unwrap().internal_id, 0);
    let mut r = report(State::NEW, "1", "");
    r.o = "ICEBERG".to_string();
    assert!(r.to_order().is_none());
}

#[test]
fn order_update_to_order() {
    let u = OrderUpdate {
        E: 10,
        o: OrderData {
            s: "BTCUSDT".to_string(),
            c: "4294967297".to_string(),
            S: Side::BUY,
            o: "MARKET".to_string(),
            f: "IOC".to_string(),
            q: "1".to_string(),
            p: "0".to_string(),
            X: State::FILLED,
            i: 7,
            N: None,
            n: None,
            T: 11,
            t: 12,
            L: "60000.5".to_string(),
            l: "1".to_string(),
            z: "1".to_string(),
            m: true,
        },
    };
    let o = u.to_order().unwrap();
    assert_eq!(o.internal_id, 1);
    assert_eq!(o.trade_price, 6000050000000);
    assert!(o.making);
    let f = u.fill();
    assert_eq!(f.commission, 0);
    assert_eq!(f.symbol, "btcusdt");
}

#[test]
fn book_ticker_is_one_level_book() {
    let t = BinanceBookTicker {
        E: 5,
        s: "ETHUSDT".to_string(),
        b: "3000.1".to_string(),
        B: "2".to_string(),
        a: "3000.2".to_string(),
        A: "1".to_string(),
    };
    let d = t.to_depth();
    assert_eq!(d.stream, "ethusdt@bbo");
    assert_eq!(d.bids.len(), 1);
    assert_eq!(d.asks[0].price, 300020000000);
}

#[test]
fn depth_levels_read_with_default() {
    let depth = BinanceDepth { E: 1, s: "X".to_string(), b: vec![q("1", "1")], a: vec![] };
    assert_eq!(depth.bid(0), 100000000);
    assert_eq!(depth.bid(1), 0);
    assert_eq!(depth.ask(0), 0);
}

#[test]
fn depth_bids_turn_around() {
    let mut depth = BinanceDepth { E: 1, s: "X".to_string(), b: vec![q("1", "1"), q("2", "1"), q("3", "1")], a: vec![] };
    depth.reverse();
    assert_eq!(depth.bid(0), 300000000);
    assert_eq!(depth.bid(2), 100000000);
}
