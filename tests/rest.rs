use base64::Engine;
use xcrypto::chat::{OrderType, Side, Tif};
use xcrypto::fixed::parse_amount;
use xcrypto::rest::{cancel_params, format_amount, listen_url, order_params, query_string, u64_text, Rest};

fn key_pem() -> Vec<u8> {
    let key = openssl::pkey::PKey::generate_ed25519().unwrap();
    key.private_key_to_pem_pkcs8().unwrap()
}

fn pairs(v: &[(&str, &str)]) -> Vec<(String, String)> {
    v.iter().map(|(k, v)| (k.to_string(), v.to_string())).collect()
}

#[test]
fn amounts_format_and_read_back() {
    assert_eq!(format_amount(1000000000), "10.00000000");
    assert_eq!(format_amount(-399600000), "-3.99600000");
    assert_eq!(format_amount(5), "0.00000005");
    for v in [0i64, 1, -1, 123456789012, i64::MAX, i64::MIN + 1] {
        assert_eq!(parse_amount(&format_amount(v)), v);
    }
    assert_eq!(u64_text(0), "0");
    assert_eq!(u64_text(18446744073709551615), "18446744073709551615");
}

#[test]
fn query_keeps_parameter_order() {
    assert_eq!(query_string(&pairs(&[("b", "2"), ("a", "1")])), "b=2&a=1");
    assert_eq!(query_string(&vec![]), "");
}

#[test]
fn order_parameters_in_fixed_order() {
    let p = order_params("btcusdt", Side::BUY, OrderType::LIMIT, Tif::GTC, 1000000000, 10000000000, 3, 2);
    let keys: Vec<&str> = p.iter().map(|(k, _)| k.as_str()).collect();
    assert_eq!(keys, vec!["symbol", "side", "type", "timeInForce", "quantity", "price", "newClientOrderId", "newOrderRespType"]);
    assert_eq!(p[0].1, "BTCUSDT");
    assert_eq!(p[1].1, "BUY");
    assert_eq!(p[2].1, "LIMIT");
    assert_eq!(p[3].1, "GTC");
    assert_eq!(p[4].1, "10.00000000");
    assert_eq!(p[6].1, "12884901890");
    assert_eq!(p[7].1, "RESULT");
    let c = cancel_params("btcUSDT", 3, 2);
    assert_eq!(c, pairs(&[("symbol", "BTCUSDT"), ("origClientOrderId", "12884901890")]));
}

#[test]
fn signed_requests() {
    let rest = Rest::new("https://fapi.binance.com//", "SECRET-REDACTED", &key_pem(), 3000).unwrap();
    assert_eq!(rest.apikey(), "SECRET-REDACTED");
    assert_eq!(rest.url("/fapi/v1/order"), "https://fapi.binance.com/fapi/v1/order");
    let p = rest.signed_params(&pairs(&[("symbol", "BTCUSDT")]), 1700000000000);
    assert_eq!(p, pairs(&[("symbol", "BTCUSDT"), ("timestamp", "1700000000000"), ("recvWindow", "3000")]));
    let sig = rest.sign(&"symbol=BTCUSDT".to_string()).unwrap();
    let raw = base64::engine::general_purpose::STANDARD.decode(sig.as_bytes()).unwrap();
    assert_eq!(raw.len(), 64);
    let q = rest.signed_query(&pairs(&[("symbol", "BTCUSDT")]), 1).unwrap();
    assert!(q.starts_with("symbol=BTCUSDT&timestamp=1&recvWindow=3000&signature="));
    assert!(Rest::new("x", "k", b"not a key", 0).is_err());
}

#[test]
fn listen_urls() {
    assert_eq!(listen_url("wss://fstream.binance.com/ws", "abc").unwrap(), "wss://fstream.binance.com/ws/abc");
    assert!(listen_url("not a url", "abc").is_none());
}

#[test]
fn listen_urls_are_normalized() {
    assert_eq!(listen_url("WSS://Stream.Binance.COM:9443/ws", "k").unwrap(), "wss://stream.binance.com:9443/ws/k");
}
