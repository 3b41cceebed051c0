//! Signed REST requests: the canonical query string (parameters in the
//! order given), the `timestamp` and `recvWindow` fields, the signature,
//! and the fixed parameter lists of order placement and cancellation.
//! Sending the request is the caller's part.
use vstd::prelude::*;
use base64::Engine;
use crate::chat::{OrderType, Side, Tif};
use crate::binance::internal_id_of;
use crate::ids::{compose, composite, internal_of, lemma_compose_round_trip, session_of};
use crate::text::{join, lemma_first_index, push_char, to_upper, upper};
use crate::fixed::{all_digits, amount_of, unsigned_of, digit_of, digits_value, fraction_units, is_digit, unsigned_units};
use vstd::arithmetic::div_mod::{lemma_div_denominator, lemma_fundamental_div_mod};

verus! {

#[verifier::external_type_specification]
#[verifier::external_body]
#[verifier::reject_recursive_types(T)]
pub struct ExPKey<T>(openssl::pkey::PKey<T>);

#[verifier::external_type_specification]
#[verifier::external_body]
pub struct ExPrivate(openssl::pkey::Private);

#[verifier::external_type_specification]
#[verifier::external_body]
pub struct ExErrorStack(openssl::error::ErrorStack);

/// The standard, padded base64 text of `b`.
pub uninterp spec fn base64_of(b: Seq<u8>) -> Seq<char>;

/// What `url::Url::parse` makes of `s`: its serialization, or `None` where
/// `s` is not a URL.
pub uninterp spec fn url_of(s: Seq<char>) -> Option<Seq<char>>;

/// Relies on `PKey::private_key_from_pem`: reads a PEM-encoded private key.
/// Its memory buffer asserts that the input fits a C `int`.
#[verifier::external_body]
fn load_private_key(pem: &[u8]) -> (r: Result<openssl::pkey::PKey<openssl::pkey::Private>, openssl::error::ErrorStack>)
    requires
        pem@.len() <= i32::MAX,
{
    openssl::pkey::PKey::private_key_from_pem(pem)
}

#[verifier::external_type_specification]
#[verifier::external_body]
pub struct ExSigner<'a>(openssl::sign::Signer<'a>);

/// Relies on `Signer::new_without_digest`: a signer of `key` that signs
/// without a digest (as Ed25519 does).
#[verifier::external_body]
fn new_signer<'a>(key: &'a openssl::pkey::PKey<openssl::pkey::Private>) -> (r: Result<openssl::sign::Signer<'a>, openssl::error::ErrorStack>) {
    openssl::sign::Signer::new_without_digest(key)
}

/// Relies on `Signer::sign_oneshot_to_vec`: the signature of `data`.
#[verifier::external_body]
fn sign_oneshot(signer: &mut openssl::sign::Signer, data: &[u8]) -> (r: Result<Vec<u8>, openssl::error::ErrorStack>) {
    signer.sign_oneshot_to_vec(data)
}

/// Relies on `base64::engine::general_purpose::STANDARD.encode`: the
/// padded standard base64 text of `b`.
#[verifier::external_body]
fn encode_base64(b: &[u8]) -> (r: String)
    ensures
        r@ == base64_of(b@),
{
    base64::engine::general_purpose::STANDARD.encode(b)
}

/// Relies on `url::Url::parse` and `Url::as_str`: the serialization of a
/// parsed URL.
#[verifier::external_body]
fn parse_url(s: &str) -> (r: Option<String>)
    ensures
        r matches Some(u) ==> url_of(s@) == Some(u@),
        r is None ==> url_of(s@) is None,
{
    match url::Url::parse(s) {
        Ok(u) => Some(u.as_str().to_string()),
        Err(_) => None,
    }
}

/// Why a REST request could not be made.
#[derive(Clone, Copy, PartialEq, Eq, Structural, Debug)]
pub enum RestError {
    /// The private key could not be read.
    Key,
    /// Signing failed.
    Sign,
}

/// The decimal digits of `n`.
pub open spec fn decimal_text(n: nat) -> Seq<char>
    decreases n,
{
    if n < 10 {
        seq![(('0' as u32) + n) as char]
    } else {
        decimal_text(n / 10).push((('0' as u32) + (n % 10)) as char)
    }
}

/// Appends the decimal digits of `n` to `s`.
pub fn push_decimal(s: &mut String, n: u64)
    ensures
        final(s)@ == old(s)@ + decimal_text(n as nat),
    decreases n,
{
    if n >= 10 {
        push_decimal(s, n / 10);
    }
    let d = (n % 10) as u32;
    let c = (('0' as u32) + d) as u8 as char;
    push_char(s, c);
    proof {
        assert((('0' as u32) + d) as u8 as char == (('0' as u32) + (n as nat % 10)) as char);
        if n >= 10 {
            assert(decimal_text(n as nat) == decimal_text((n / 10) as nat).push(c));
        } else {
            assert(decimal_text(n as nat) == seq![c]);
        }
    }
}

/// The decimal text of `n`.
pub fn u64_text(n: u64) -> (r: String)
    ensures
        r@ == decimal_text(n as nat),
{
    let mut s = String::new();
    push_decimal(&mut s, n);
    assert(s@ =~= decimal_text(n as nat));
    s
}

/// The eight-digit text of a fraction in units of 10^-8 (`f < 10^8`).
pub open spec fn fraction_text(f: nat) -> Seq<char> {
    Seq::new(8, |i: int| (('0' as u32) + ((f / pow10_nat((7 - i) as nat)) % 10)) as char)
}

pub open spec fn pow10_nat(n: nat) -> nat
    decreases n,
{
    if n == 0 { 1 } else { 10 * pow10_nat((n - 1) as nat) }
}

/// The text of amount `v` (units of 10^-8): sign, whole part, a point and
/// eight fractional digits.
pub open spec fn amount_text(v: int) -> Seq<char> {
    let m = if v < 0 { -v } else { v };
    (if v < 0 { seq!['-'] } else { Seq::empty() }) + decimal_text((m / 100000000) as nat) + seq!['.']
        + fraction_text((m % 100000000) as nat)
}

/// The text of amount `v`.
pub fn format_amount(v: i64) -> (r: String)
    ensures
        r@ == amount_text(v as int),
{
    let mut s = String::new();
    let m: u64 = if v < 0 { (0 - (v as i128)) as u64 } else { v as u64 };
    if v < 0 {
        push_char(&mut s, '-');
    }
    let ghost head = s@;
    push_decimal(&mut s, m / 100000000);
    push_char(&mut s, '.');
    let f: u64 = m % 100000000;
    let ghost body = s@;
    let mut div: u64 = 10000000;
    let mut i: usize = 0;
    proof {
        reveal_with_fuel(pow10_nat, 9);
    }
    while i < 8
        invariant
            i <= 8,
            f < 100000000,
            div as nat == pow10_nat((7 - i) as nat) || i == 8,
            s@.len() == body.len() + i,
            s@.subrange(0, body.len() as int) == body,
            forall|k: int| 0 <= k < i ==> #[trigger] s@[body.len() + k] == fraction_text(f as nat)[k],
        decreases 8 - i,
    {
        proof {
            reveal_with_fuel(pow10_nat, 9);
            assert(div > 0);
        }
        let d = ((f / div) % 10) as u32;
        let ghost before = s@;
        push_char(&mut s, (('0' as u32) + d) as u8 as char);
        proof {
            assert(s@[body.len() + i] == fraction_text(f as nat)[i as int]);
            assert forall|k: int| 0 <= k < i + 1 implies #[trigger] s@[body.len() + k] == fraction_text(f as nat)[k] by {
                if k < i {
                    assert(s@[body.len() + k] == before[body.len() + k]);
                }
            }
            assert(s@.subrange(0, body.len() as int) =~= before.subrange(0, body.len() as int));
        }
        i = i + 1;
        if i < 8 {
            div = div / 10;
            proof {
                reveal_with_fuel(pow10_nat, 9);
            }
        }
    }
    proof {
        assert forall|k: int| 0 <= k < s@.len() implies s@[k] == (body + fraction_text(f as nat))[k] by {
            if k < body.len() {
                assert(s@.subrange(0, body.len() as int)[k] == s@[k]);
            } else {
                assert(s@[body.len() + (k - body.len())] == fraction_text(f as nat)[k - body.len()]);
            }
        }
        assert(s@ =~= body + fraction_text(f as nat));
        assert(m as int == if v < 0 { -(v as int) } else { v as int });
    }
    s
}

proof fn lemma_decimal_text(n: nat)
    ensures
        all_digits(decimal_text(n)),
        decimal_text(n).len() >= 1,
        digits_value(decimal_text(n)) == n,
    decreases n,
{
    let s = decimal_text(n);
    if n < 10 {
        assert(s.drop_last() =~= Seq::<char>::empty());
        assert(digits_value(Seq::<char>::empty()) == 0);
        assert(s.last() as int == 48 + n);
        assert(digits_value(s) == digits_value(s.drop_last()) * 10 + digit_of(s.last()));
    } else {
        lemma_decimal_text(n / 10);
        let p = decimal_text(n / 10);
        assert(s.drop_last() =~= p);
        assert(s.last() as int == 48 + n % 10);
        assert forall|k: int| 0 <= k < s.len() implies is_digit(#[trigger] s[k]) by {
            if k < p.len() {
                assert(s[k] == p[k]);
            }
        }
        assert(n == 10 * (n / 10) + n % 10);
        assert(digits_value(s) == digits_value(p) * 10 + digit_of(s.last()));
    }
}

proof fn lemma_fraction_prefix(f: nat, k: nat)
    requires
        f < 100000000,
        k <= 8,
    ensures
        all_digits(fraction_text(f).subrange(0, k as int)),
        digits_value(fraction_text(f).subrange(0, k as int)) == f / pow10_nat((8 - k) as nat),
    decreases k,
{
    reveal_with_fuel(pow10_nat, 9);
    let t = fraction_text(f);
    if k == 0 {
        assert(t.subrange(0, 0) =~= Seq::<char>::empty());
        assert(f / 100000000 == 0);
    } else {
        lemma_fraction_prefix(f, (k - 1) as nat);
        let p = t.subrange(0, k - 1);
        let q = t.subrange(0, k as int);
        assert(q.drop_last() =~= p);
        let big = pow10_nat((8 - (k - 1)) as nat);
        let small = pow10_nat((8 - k) as nat);
        assert(big == 10 * small);
        assert(q.last() == t[k - 1]);
        assert(t[k - 1] as int == 48 + (f / small) % 10);
        assert(small > 0);
        lemma_div_denominator(f as int, small as int, 10);
        assert((f / small) / 10 == f / (small * 10));
        lemma_fundamental_div_mod((f / small) as int, 10);
        assert forall|j: int| 0 <= j < q.len() implies is_digit(#[trigger] q[j]) by {
            if j < p.len() {
                assert(q[j] == p[j]);
            }
        }
    }
}

/// Reading back the text of an amount gives the amount (every `i64` but
/// `i64::MIN`, whose magnitude has no `i64`).
pub proof fn lemma_amount_round_trip(v: i64)
    requires
        v > i64::MIN,
    ensures
        amount_of(amount_text(v as int)) == v,
{
    reveal_with_fuel(pow10_nat, 9);
    let m: int = if v < 0 { -v } else { v as int };
    let w = (m / 100000000) as nat;
    let f = (m % 100000000) as nat;
    let d = decimal_text(w);
    let ft = fraction_text(f);
    let body = d + seq!['.'] + ft;
    let s = amount_text(v as int);
    lemma_decimal_text(w);
    lemma_fraction_prefix(f, 8);
    assert(ft.subrange(0, 8) =~= ft);
    assert(fraction_units(ft) == f);
    if v < 0 {
        assert(s =~= seq!['-'] + body);
        assert(s.subrange(1, s.len() as int) =~= body);
    } else {
        assert(s =~= body);
        assert(is_digit(d[0]));
    }
    assert forall|k: int| 0 <= k < d.len() implies body[k] != '.' by {
        assert(body[k] == d[k]);
        assert(is_digit(d[k]));
    }
    assert(body[d.len() as int] == '.');
    lemma_first_index(body, '.', d.len() as int);
    assert(body.subrange(0, d.len() as int) =~= d);
    assert(body.subrange(d.len() + 1int, body.len() as int) =~= ft);
    assert(unsigned_units(body) == Some((w * 100000000 + f) as int));
    assert(m == w * 100000000 + f);
}

/// The client order id sent with an order, read back from an execution
/// report (`internal_id_of`, as `to_order` reads it), names the same
/// session and order id.
pub proof fn lemma_client_order_id_text(session_id: u16, id: u32)
    ensures
        unsigned_of(decimal_text(composite(session_id, id) as nat)) == Some(composite(session_id, id)),
        session_of(composite(session_id, id) as u64) == session_id,
        internal_of(composite(session_id, id) as u64) == id,
        internal_id_of(decimal_text(composite(session_id, id) as nat)) == id,
{
    lemma_compose_round_trip(session_id, id);
    lemma_decimal_text(composite(session_id, id) as nat);
}

/// A REST client of the exchange: base URI, API key, signing key and the
/// `recvWindow` to ask for (none when not positive).
pub struct Rest {
    base_uri: String,
    apikey: String,
    private_key: openssl::pkey::PKey<openssl::pkey::Private>,
    recvwindow: i64,
}

/// `s` without trailing `/`.
pub open spec fn trim_end_slashes(s: Seq<char>) -> Seq<char>
    decreases s.len(),
{
    if s.len() > 0 && s.last() == '/' { trim_end_slashes(s.drop_last()) } else { s }
}

/// `s` without leading `/`.
pub open spec fn trim_start_slashes(s: Seq<char>) -> Seq<char>
    decreases s.len(),
{
    if s.len() > 0 && s[0] == '/' { trim_start_slashes(s.subrange(1, s.len() as int)) } else { s }
}

/// `k1=v1&k2=v2...`, in the order given.
pub open spec fn query_of(p: Seq<(Seq<char>, Seq<char>)>) -> Seq<char>
    decreases p.len(),
{
    if p.len() == 0 {
        Seq::empty()
    } else if p.len() == 1 {
        p[0].0 + seq!['='] + p[0].1
    } else {
        query_of(p.drop_last()) + seq!['&'] + p.last().0 + seq!['='] + p.last().1
    }
}

/// The parameters of a signed request: those given, `timestamp`, and
/// `recvWindow` where it is positive.
pub open spec fn signed_pairs(p: Seq<(Seq<char>, Seq<char>)>, timestamp_ms: u64, recvwindow: i64) -> Seq<(Seq<char>, Seq<char>)> {
    let t = p.push(("timestamp"@, decimal_text(timestamp_ms as nat)));
    if recvwindow > 0 { t.push(("recvWindow"@, decimal_text(recvwindow as nat))) } else { t }
}

pub open spec fn pairs_of(p: Seq<(String, String)>) -> Seq<(Seq<char>, Seq<char>)> {
    p.map_values(|x: (String, String)| (x.0@, x.1@))
}

/// The canonical query string of `params`: `k=v` joined by `&`, in order.
pub fn query_string(params: &Vec<(String, String)>) -> (r: String)
    ensures
        r@ == query_of(pairs_of(params@)),
{
    let mut s = String::new();
    let mut i: usize = 0;
    while i < params.len()
        invariant
            i <= params@.len(),
            s@ == query_of(pairs_of(params@.subrange(0, i as int))),
        decreases params@.len() - i,
    {
        let ghost before = s@;
        if i > 0 {
            push_char(&mut s, '&');
        }
        s.append(params[i].0.as_str());
        push_char(&mut s, '=');
        s.append(params[i].1.as_str());
        i = i + 1;
        proof {
            let p = pairs_of(params@.subrange(0, i as int));
            assert(p.drop_last() =~= pairs_of(params@.subrange(0, i - 1)));
            assert(p.last() == (params@[i - 1].0@, params@[i - 1].1@));
            if i == 1 {
                assert(s@ =~= p[0].0 + seq!['='] + p[0].1);
            } else {
                assert(s@ =~= query_of(p.drop_last()) + seq!['&'] + p.last().0 + seq!['='] + p.last().1);
            }
        }
    }
    assert(params@.subrange(0, i as int) =~= params@);
    s
}

fn pair(k: &str, v: String) -> (r: (String, String))
    ensures
        r.0@ == k@,
        r.1@ == v@,
{
    (String::from_str(k), v)
}

impl Rest {
    pub closed spec fn base_spec(&self) -> Seq<char> {
        self.base_uri@
    }

    pub closed spec fn apikey_spec(&self) -> Seq<char> {
        self.apikey@
    }

    pub closed spec fn recvwindow_spec(&self) -> i64 {
        self.recvwindow
    }

    /// A client for `base_uri` (trailing `/` dropped) signing with the
    /// PEM-encoded private key `pem`.
    pub fn new(base_uri: &str, apikey: &str, pem: &[u8], recvwindow: i64) -> (r: Result<Rest, RestError>)
        requires
            pem@.len() <= i32::MAX,
        ensures
            r matches Ok(rest) ==> rest.base_spec() == trim_end_slashes(base_uri@) && rest.apikey_spec() == apikey@
                && rest.recvwindow_spec() == recvwindow,
            r matches Err(e) ==> e == RestError::Key,
    {
        let key = match load_private_key(pem) {
            Ok(k) => k,
            Err(_) => return Err(RestError::Key),
        };
        let mut n = base_uri.unicode_len();
        assert(base_uri@.subrange(0, n as int) =~= base_uri@);
        while n > 0 && base_uri.get_char(n - 1) == '/'
            invariant
                n <= base_uri@.len(),
                trim_end_slashes(base_uri@.subrange(0, n as int)) == trim_end_slashes(base_uri@),
            decreases n,
        {
            let ghost t = base_uri@.subrange(0, n as int);
            assert(t.drop_last() =~= base_uri@.subrange(0, n - 1));
            n = n - 1;
        }
        let base = String::from_str(base_uri.substring_char(0, n));
        Ok(Rest { base_uri: base, apikey: String::from_str(apikey), private_key: key, recvwindow })
    }

    /// The API key, sent as header `X-MBX-APIKEY`.
    pub fn apikey(&self) -> (r: &str)
        ensures
            r@ == self.apikey_spec(),
    {
        self.apikey.as_str()
    }

    /// The URL of endpoint `path`: the base URI, one `/`, and the path
    /// without its leading `/`.
    #[verifier::rlimit(40)]
    pub fn url(&self, path: &str) -> (r: String)
        ensures
            r@ == self.base_spec() + seq!['/'] + trim_start_slashes(path@),
    {
        let n = path.unicode_len();
        let mut i: usize = 0;
        assert(path@.subrange(0, n as int) =~= path@);
        while i < n && path.get_char(i) == '/'
            invariant
                i <= n == path@.len(),
                trim_start_slashes(path@.subrange(i as int, n as int)) == trim_start_slashes(path@),
            decreases n - i,
        {
            let ghost t = path@.subrange(i as int, n as int);
            assert(t.subrange(1, t.len() as int) =~= path@.subrange(i + 1, n as int));
            i = i + 1;
        }
        proof {
            assert(path@.subrange(0, n as int) =~= path@);
        }
        let mut s = self.base_uri.clone();
        push_char(&mut s, '/');
        s.append(path.substring_char(i, n));
        proof {
            let t = path@.subrange(i as int, n as int);
            assert(!(t.len() > 0 && t[0] == '/'));
        }
        s
    }

    /// The parameters of a signed request made at `timestamp_ms`: those
    /// given, then `timestamp`, then `recvWindow` where it is positive.
    pub fn signed_params(&self, params: &Vec<(String, String)>, timestamp_ms: u64) -> (r: Vec<(String, String)>)
        ensures
            pairs_of(r@) == signed_pairs(pairs_of(params@), timestamp_ms, self.recvwindow_spec()),
    {
        let mut out: Vec<(String, String)> = Vec::new();
        let mut i: usize = 0;
        while i < params.len()
            invariant
                i <= params@.len(),
                out@.len() == i,
                forall|k: int| 0 <= k < i ==> #[trigger] pairs_of(out@)[k] == pairs_of(params@)[k],
            decreases params@.len() - i,
        {
            let ghost before = out@;
            let k0 = params[i].0.clone();
            let k1 = params[i].1.clone();
            out.push((k0, k1));
            proof {
                assert(pairs_of(out@)[i as int] == pairs_of(params@)[i as int]);
                assert forall|k: int| 0 <= k < i + 1 implies #[trigger] pairs_of(out@)[k] == pairs_of(params@)[k] by {
                    if k < i {
                        assert(out@[k] == before[k]);
                        assert(pairs_of(before)[k] == pairs_of(params@)[k]);
                    }
                }
            }
            i = i + 1;
        }
        let ghost mid = out@;
        out.push(pair("timestamp", u64_text(timestamp_ms)));
        if self.recvwindow > 0 {
            out.push(pair("recvWindow", u64_text(self.recvwindow as u64)));
        }
        proof {
            assert forall|i: int| 0 <= i < params@.len() implies #[trigger] pairs_of(out@)[i] == pairs_of(params@)[i] by {
                assert(out@[i] == mid[i]);
                assert(pairs_of(mid)[i] == pairs_of(params@)[i]);
            }
            assert(pairs_of(out@) =~= signed_pairs(pairs_of(params@), timestamp_ms, self.recvwindow));
        }
        out
    }

    /// The base64 text of a signature of `data`.
    pub fn sign(&self, data: &String) -> (r: Result<String, RestError>)
        ensures
            r matches Ok(s) ==> exists|sig: Seq<u8>| s@ == base64_of(sig),
            r matches Err(e) ==> e == RestError::Sign,
    {
        let bytes = data.as_str().as_bytes();
        let mut signer = match new_signer(&self.private_key) {
            Ok(signer) => signer,
            Err(_) => return Err(RestError::Sign),
        };
        match sign_oneshot(&mut signer, bytes) {
            Ok(sig) => {
                let s = encode_base64(sig.as_slice());
                Ok(s)
            },
            Err(_) => Err(RestError::Sign),
        }
    }

    /// The signed query of `params` made at `timestamp_ms`: the canonical
    /// query of the signed parameters, then `&signature=` and the signature.
    pub fn signed_query(&self, params: &Vec<(String, String)>, timestamp_ms: u64) -> (r: Result<String, RestError>)
        ensures
            r matches Ok(q) ==> exists|sig: Seq<u8>|
                q@ == query_of(signed_pairs(pairs_of(params@), timestamp_ms, self.recvwindow_spec())) + "&signature="@
                    + base64_of(sig),
            r matches Err(e) ==> e == RestError::Sign,
    {
        let all = self.signed_params(params, timestamp_ms);
        let query = query_string(&all);
        let sig = self.sign(&query)?;
        let head = join(query.as_str(), "&signature=");
        Ok(join(head.as_str(), sig.as_str()))
    }
}

/// The parameters of an order placement, in the exchange's order:
/// `symbol, side, type, timeInForce, quantity, price, newClientOrderId,
/// newOrderRespType=RESULT`. The symbol goes in upper case; the client
/// order id is the composite of the session and the client's order id.
pub fn order_params(
    symbol: &str,
    side: Side,
    order_type: OrderType,
    tif: Tif,
    quantity: i64,
    price: i64,
    session_id: u16,
    id: u32,
) -> (r: Vec<(String, String)>)
    ensures
        r@.len() == 8,
        pairs_of(r@)[0] == ("symbol"@, upper(symbol@)),
        pairs_of(r@)[1] == ("side"@, side_text(side)),
        pairs_of(r@)[2] == ("type"@, order_type_text(order_type)),
        pairs_of(r@)[3] == ("timeInForce"@, tif_text(tif)),
        pairs_of(r@)[4] == ("quantity"@, amount_text(quantity as int)),
        pairs_of(r@)[5] == ("price"@, amount_text(price as int)),
        pairs_of(r@)[6] == ("newClientOrderId"@, decimal_text(composite(session_id, id) as nat)),
        pairs_of(r@)[7] == ("newOrderRespType"@, "RESULT"@),
{
    let mut out: Vec<(String, String)> = Vec::new();
    out.push(pair("symbol", to_upper(symbol)));
    out.push(pair("side", String::from_str(side_name(side))));
    out.push(pair("type", String::from_str(order_type_name(order_type))));
    out.push(pair("timeInForce", String::from_str(tif_name(tif))));
    out.push(pair("quantity", format_amount(quantity)));
    out.push(pair("price", format_amount(price)));
    out.push(pair("newClientOrderId", u64_text(compose(session_id, id))));
    out.push(pair("newOrderRespType", String::from_str("RESULT")));
    out
}

/// The parameters of a cancellation: `symbol` (in upper case),
/// `origClientOrderId`.
pub fn cancel_params(symbol: &str, session_id: u16, order_id: u32) -> (r: Vec<(String, String)>)
    ensures
        r@.len() == 2,
        pairs_of(r@)[0] == ("symbol"@, upper(symbol@)),
        pairs_of(r@)[1] == ("origClientOrderId"@, decimal_text(composite(session_id, order_id) as nat)),
{
    let mut out: Vec<(String, String)> = Vec::new();
    out.push(pair("symbol", to_upper(symbol)));
    out.push(pair("origClientOrderId", u64_text(compose(session_id, order_id))));
    out
}

/// The URL of a user-data stream: the parsed base URL, `/`, the listen key.
pub fn listen_url(base: &str, key: &str) -> (r: Option<String>)
    ensures
        r is None <==> url_of(base@) is None,
        r matches Some(u) ==> url_of(base@) == Some(u@.subrange(0, u@.len() - 1 - key@.len()))
            && u@.subrange(u@.len() - 1 - key@.len(), u@.len() as int) == seq!['/'] + key@,
{
    match parse_url(base) {
        Some(u) => {
            let mut s = u;
            let ghost head = s@;
            push_char(&mut s, '/');
            s.append(key);
            proof {
                assert(s@.subrange(0, s@.len() - 1 - key@.len()) =~= head);
                assert(s@.subrange(s@.len() - 1 - key@.len(), s@.len() as int) =~= seq!['/'] + key@);
            }
            Some(s)
        },
        None => None,
    }
}

pub open spec fn side_text(side: Side) -> Seq<char> {
    match side {
        Side::BUY => "BUY"@,
        Side::SELL => "SELL"@,
    }
}

pub open spec fn order_type_text(t: OrderType) -> Seq<char> {
    match t {
        OrderType::LIMIT => "LIMIT"@,
        OrderType::LIMIT_MAKER => "LIMIT_MAKER"@,
        OrderType::MARKET => "MARKET"@,
        OrderType::STOP => "STOP"@,
        OrderType::STOP_MARKET => "STOP_MARKET"@,
        OrderType::STOP_LOSS => "STOP_LOSS"@,
        OrderType::STOP_LOSS_LIMIT => "STOP_LOSS_LIMIT"@,
        OrderType::TAKE_PROFIT => "TAKE_PROFIT"@,
        OrderType::TAKE_PROFIT_LIMIT => "TAKE_PROFIT_LIMIT"@,
        OrderType::TAKE_PROFIT_MARKET => "TAKE_PROFIT_MARKET"@,
        OrderType::TRAILING_STOP_MARKET => "TRAILING_STOP_MARKET"@,
    }
}

pub open spec fn tif_text(t: Tif) -> Seq<char> {
    match t {
        Tif::GTC => "GTC"@,
        Tif::IOC => "IOC"@,
        Tif::FOK => "FOK"@,
        Tif::GTX => "GTX"@,
        Tif::GTD => "GTD"@,
        Tif::UNDEF => "UNDEF"@,
    }
}

/// The exchange's name of a side.
pub fn side_name(side: Side) -> (r: &'static str)
    ensures
        r@ == side_text(side),
{
    match side {
        Side::BUY => "BUY",
        Side::SELL => "SELL",
    }
}

/// The exchange's name of an order type.
pub fn order_type_name(t: OrderType) -> (r: &'static str)
    ensures
        r@ == order_type_text(t),
{
    match t {
        OrderType::LIMIT => "LIMIT",
        OrderType::LIMIT_MAKER => "LIMIT_MAKER",
        OrderType::MARKET => "MARKET",
        OrderType::STOP => "STOP",
        OrderType::STOP_MARKET => "STOP_MARKET",
        OrderType::STOP_LOSS => "STOP_LOSS",
        OrderType::STOP_LOSS_LIMIT => "STOP_LOSS_LIMIT",
        OrderType::TAKE_PROFIT => "TAKE_PROFIT",
        OrderType::TAKE_PROFIT_LIMIT => "TAKE_PROFIT_LIMIT",
        OrderType::TAKE_PROFIT_MARKET => "TAKE_PROFIT_MARKET",
        OrderType::TRAILING_STOP_MARKET => "TRAILING_STOP_MARKET",
    }
}

/// The exchange's name of a time in force.
pub fn tif_name(t: Tif) -> (r: &'static str)
    ensures
        r@ == tif_text(t),
{
    match t {
        Tif::GTC => "GTC",
        Tif::IOC => "IOC",
        Tif::FOK => "FOK",
        Tif::GTX => "GTX",
        Tif::GTD => "GTD",
        Tif::UNDEF => "UNDEF",
    }
}

} // verus!
