//! The client-facing stream grammar `symbol@depth | symbol@bbo |
//! symbol@kline:I` and its mapping onto the exchange's stream names.
use vstd::prelude::*;
use crate::text::{first_index, find_char, holds_at, join, lemma_first_index_bound, same_text, slice};

verus! {

/// The part of a stream name before its first `@`.
pub open spec fn symbol_part(s: Seq<char>) -> Seq<char> {
    s.subrange(0, first_index(s, '@') as int)
}

/// The part of a stream name after its first `@` (empty when it has none).
pub open spec fn kind_part(s: Seq<char>) -> Seq<char> {
    let at = first_index(s, '@') as int;
    if at < s.len() { s.subrange(at + 1, s.len() as int) } else { Seq::empty() }
}

/// Whether `s` names one of the kline intervals the gateway serves.
pub open spec fn is_interval(s: Seq<char>) -> bool {
    s == "1s"@ || s == "1m"@ || s == "3m"@ || s == "5m"@ || s == "15m"@ || s == "30m"@
        || s == "1h"@ || s == "2h"@ || s == "4h"@ || s == "6h"@ || s == "8h"@ || s == "12h"@
        || s == "1d"@ || s == "3d"@ || s == "1w"@ || s == "1M"@
}

/// Whether `k` is a kline kind `kline:I`.
pub open spec fn is_kline_kind(k: Seq<char>) -> bool {
    k.len() > 6 && k.subrange(0, 6) == "kline:"@
}

/// Whether `k` is a stream kind a client may subscribe to.
pub open spec fn is_stream_kind(k: Seq<char>) -> bool {
    k == "depth"@ || k == "bbo"@ || (is_kline_kind(k) && is_interval(k.subrange(6, k.len() as int)))
}

/// The exchange's name for a client stream name: `X@depth` is
/// `X@depth20@100ms`, `X@bbo` is `X@bookTicker`, `X@kline:I` is
/// `X@kline_I`; any other name passes through.
pub open spec fn upstream_of(s: Seq<char>) -> Seq<char> {
    let at = first_index(s, '@') as int;
    let k = kind_part(s);
    if at == s.len() {
        s
    } else if k == "depth"@ {
        symbol_part(s) + "@depth20@100ms"@
    } else if k == "bbo"@ {
        symbol_part(s) + "@bookTicker"@
    } else if is_kline_kind(k) {
        symbol_part(s) + "@kline_"@ + k.subrange(6, k.len() as int)
    } else {
        s
    }
}

/// Whether `s` is one of the kline intervals.
pub fn is_interval_name(s: &str) -> (r: bool)
    ensures
        r == is_interval(s@),
{
    same_text(s, "1s") || same_text(s, "1m") || same_text(s, "3m") || same_text(s, "5m")
        || same_text(s, "15m") || same_text(s, "30m") || same_text(s, "1h") || same_text(s, "2h")
        || same_text(s, "4h") || same_text(s, "6h") || same_text(s, "8h") || same_text(s, "12h")
        || same_text(s, "1d") || same_text(s, "3d") || same_text(s, "1w") || same_text(s, "1M")
}

/// Splits a stream name at its first `@`: the symbol and the kind.
/// `None` where the name holds no `@`.
pub fn split_stream(s: &str) -> (r: Option<(String, String)>)
    ensures
        r is None <==> first_index(s@, '@') == s@.len(),
        r matches Some(p) ==> p.0@ == symbol_part(s@) && p.1@ == kind_part(s@),
{
    let n = s.unicode_len();
    let at = find_char(s, '@');
    proof {
        lemma_first_index_bound(s@, '@');
    }
    if at == n {
        return None;
    }
    Some((slice(s, 0, at), slice(s, at + 1, n)))
}

/// Whether `k` is a stream kind a client may subscribe to.
pub fn is_stream_kind_name(k: &str) -> (r: bool)
    ensures
        r == is_stream_kind(k@),
{
    proof {
        reveal_strlit("kline:");
    }
    if same_text(k, "depth") || same_text(k, "bbo") {
        return true;
    }
    let n = k.unicode_len();
    if n > 6 && holds_at(k, 0, "kline:") {
        let interval = slice(k, 6, n);
        return is_interval_name(interval.as_str());
    }
    false
}

/// The exchange's name for a client stream name.
pub fn upstream_name(s: &str) -> (r: String)
    ensures
        r@ == upstream_of(s@),
{
    proof {
        reveal_strlit("kline:");
    }
    match split_stream(s) {
        None => String::from_str(s),
        Some((symbol, kind)) => {
            let k = kind.as_str();
            if same_text(k, "depth") {
                join(symbol.as_str(), "@depth20@100ms")
            } else if same_text(k, "bbo") {
                join(symbol.as_str(), "@bookTicker")
            } else {
                let n = k.unicode_len();
                if n > 6 && holds_at(k, 0, "kline:") {
                    let head = join(symbol.as_str(), "@kline_");
                    let interval = slice(k, 6, n);
                    join(head.as_str(), interval.as_str())
                } else {
                    String::from_str(s)
                }
            }
        },
    }
}

} // verus!
