//! Fixed-point amounts. Prices, quantities and positions travel on the
//! exchange wire as decimal strings; the library holds them as signed
//! integers counting units of 10^-8, which keeps position arithmetic exact.
use vstd::prelude::*;
use crate::text::{first_index, find_char, lemma_first_index_bound};

verus! {

/// Units per whole: amounts count steps of 10^-8.
pub const SCALE: u64 = 100000000;

/// Number of fractional digits an amount keeps.
pub const FRACTION_DIGITS: usize = 8;

/// Largest magnitude an amount may have.
pub const AMOUNT_MAX: i64 = 9223372036854775807;

pub open spec fn is_digit(c: char) -> bool {
    '0' <= c && c <= '9'
}

pub open spec fn digit_of(c: char) -> int {
    c as int - '0' as int
}

pub open spec fn all_digits(s: Seq<char>) -> bool {
    forall|k: int| 0 <= k < s.len() ==> is_digit(#[trigger] s[k])
}

/// The value of a string of decimal digits, most significant first.
pub open spec fn digits_value(s: Seq<char>) -> int
    decreases s.len(),
{
    if s.len() == 0 {
        0
    } else {
        digits_value(s.drop_last()) * 10 + digit_of(s.last())
    }
}

pub open spec fn pow10(n: nat) -> int
    decreases n,
{
    if n == 0 {
        1
    } else {
        10 * pow10((n - 1) as nat)
    }
}

/// The fractional digits `f` (those after the point) in units of 10^-8;
/// digits past the eighth are dropped.
pub open spec fn fraction_units(f: Seq<char>) -> int {
    if f.len() >= 8 {
        digits_value(f.subrange(0, 8))
    } else {
        digits_value(f) * pow10((8 - f.len()) as nat)
    }
}

/// The value of a decimal string `[-]digits[.digits]` in units of 10^-8,
/// or `None` where `s` does not have that shape (or holds no digit).
pub open spec fn decimal_units(s: Seq<char>) -> Option<int> {
    let neg = s.len() > 0 && s[0] == '-';
    let body = if neg { s.subrange(1, s.len() as int) } else { s };
    match unsigned_units(body) {
        Some(v) => Some(if neg { -v } else { v }),
        None => None,
    }
}

/// What an amount field decodes to: its value where it is a decimal whose
/// magnitude fits an `i64`, else zero (the exchange has shipped empty strings).
pub open spec fn amount_of(s: Seq<char>) -> int {
    match decimal_units(s) {
        Some(v) => if -(AMOUNT_MAX as int) <= v <= AMOUNT_MAX as int { v } else { 0 },
        None => 0,
    }
}

/// The value of a string of decimal digits, where it is one and fits `u64`.
pub open spec fn unsigned_of(s: Seq<char>) -> Option<int> {
    if s.len() > 0 && all_digits(s) && digits_value(s) <= u64::MAX as int {
        Some(digits_value(s))
    } else {
        None
    }
}

pub proof fn lemma_digits_nonneg(s: Seq<char>)
    requires
        all_digits(s),
    ensures
        digits_value(s) >= 0,
    decreases s.len(),
{
    if s.len() > 0 {
        assert(is_digit(s[s.len() - 1]));
        lemma_digits_nonneg(s.drop_last());
    }
}

/// A prefix of a digit string is worth no more than the whole.
pub proof fn lemma_digits_prefix(s: Seq<char>, j: int)
    requires
        all_digits(s),
        0 <= j <= s.len(),
    ensures
        digits_value(s.subrange(0, j)) <= digits_value(s),
    decreases s.len(),
{
    if j < s.len() {
        let t = s.drop_last();
        assert(is_digit(s[s.len() - 1]));
        assert(all_digits(t)) by {
            assert forall|k: int| 0 <= k < t.len() implies is_digit(#[trigger] t[k]) by {
                assert(t[k] == s[k]);
            }
        }
        assert(t.subrange(0, j) =~= s.subrange(0, j));
        lemma_digits_prefix(t, j);
        lemma_digits_nonneg(t);
    } else {
        assert(s.subrange(0, j) =~= s);
    }
}

pub proof fn lemma_pow10_positive(n: nat)
    ensures
        pow10(n) >= 1,
    decreases n,
{
    if n > 0 {
        lemma_pow10_positive((n - 1) as nat);
    }
}

/// Reads the digits of `s` from `from` up to `to`. Gives their value where
/// all are digits and the value is at most `bound`, else `None`.
pub fn read_digits(s: &str, from: usize, to: usize, bound: u64) -> (r: Option<u64>)
    requires
        from <= to <= s@.len(),
    ensures
        ({
            let t = s@.subrange(from as int, to as int);
            r == if all_digits(t) && digits_value(t) <= bound as int {
                Some(digits_value(t) as u64)
            } else {
                None::<u64>
            }
        }),
{
    let ghost t = s@.subrange(from as int, to as int);
    let mut acc: u128 = 0;
    let mut i: usize = from;
    while i < to
        invariant
            from <= i <= to <= s@.len(),
            t == s@.subrange(from as int, to as int),
            all_digits(t.subrange(0, i - from)),
            acc as int == digits_value(t.subrange(0, i - from)),
            acc <= bound,
        decreases to - i,
    {
        let c = s.get_char(i);
        let ghost p = t.subrange(0, i - from + 1);
        assert(p.drop_last() =~= t.subrange(0, i - from));
        assert(p.last() == c);
        if !('0' <= c && c <= '9') {
            assert(!all_digits(t)) by {
                assert(t[i - from] == c);
            }
            return None;
        }
        let d = (c as u32 - '0' as u32) as u128;
        acc = acc * 10 + d;
        i = i + 1;
        assert(all_digits(p)) by {
            assert forall|k: int| 0 <= k < p.len() implies is_digit(#[trigger] p[k]) by {
                if k < p.len() - 1 {
                    assert(p[k] == t.subrange(0, i - 1 - from)[k]);
                }
            }
        }
        if acc > bound as u128 {
            proof {
                if all_digits(t) {
                    lemma_digits_prefix(t, i - from);
                }
            }
            return None;
        }
    }
    assert(t.subrange(0, to - from) =~= t);
    Some(acc as u64)
}

/// Whether the characters of `s` from `from` up to `to` are all digits.
pub fn digits_only(s: &str, from: usize, to: usize) -> (r: bool)
    requires
        from <= to <= s@.len(),
    ensures
        r == all_digits(s@.subrange(from as int, to as int)),
{
    let ghost t = s@.subrange(from as int, to as int);
    let mut i: usize = from;
    while i < to
        invariant
            from <= i <= to <= s@.len(),
            t == s@.subrange(from as int, to as int),
            forall|k: int| 0 <= k < i - from ==> is_digit(#[trigger] t[k]),
        decreases to - i,
    {
        let c = s.get_char(i);
        if !('0' <= c && c <= '9') {
            assert(t[i - from] == c);
            return false;
        }
        i = i + 1;
    }
    true
}

/// The fractional digits of `s` from `from` up to `to`, in units of
/// 10^-8, where they are all digits.
fn read_fraction(s: &str, from: usize, to: usize) -> (r: Option<u64>)
    requires
        from <= to <= s@.len(),
    ensures
        r is Some <==> all_digits(s@.subrange(from as int, to as int)),
        r matches Some(u) ==> u as int == fraction_units(s@.subrange(from as int, to as int)),
        r matches Some(u) ==> u <= 99999999,
{
    let ghost fp = s@.subrange(from as int, to as int);
    let kept_to: usize = if to - from > FRACTION_DIGITS { from + FRACTION_DIGITS } else { to };
    let ghost kp = s@.subrange(from as int, kept_to as int);
    let ghost tail = s@.subrange(kept_to as int, to as int);
    assert(fp =~= kp + tail);
    let kept = match read_digits(s, from, kept_to, 99999999) {
        Some(k) => k,
        None => {
            proof {
                if all_digits(fp) {
                    assert(all_digits(kp)) by {
                        assert forall|k: int| 0 <= k < kp.len() implies is_digit(#[trigger] kp[k]) by {
                            assert(kp[k] == fp[k]);
                        }
                    }
                    lemma_digits_bound(kp);
                }
            }
            return None;
        },
    };
    if !digits_only(s, kept_to, to) {
        proof {
            if all_digits(fp) {
                assert forall|k: int| 0 <= k < tail.len() implies is_digit(#[trigger] tail[k]) by {
                    assert(tail[k] == fp[kp.len() + k]);
                }
            }
        }
        return None;
    }
    assert(all_digits(fp)) by {
        assert forall|k: int| 0 <= k < fp.len() implies is_digit(#[trigger] fp[k]) by {
            if k < kp.len() {
                assert(fp[k] == kp[k]);
            } else {
                assert(fp[k] == tail[k - kp.len()]);
            }
        }
    }
    let mut units: u64 = kept;
    let mut pad: usize = kept_to - from;
    proof {
        lemma_digits_below_pow(kp);
        assert(pow10(0) == 1);
    }
    while pad < FRACTION_DIGITS
        invariant
            kept_to - from <= pad <= FRACTION_DIGITS,
            kp.len() == kept_to - from,
            kp.len() < 8 ==> units as int == digits_value(kp) * pow10((pad - kp.len()) as nat),
            kp.len() >= 8 ==> units as int == digits_value(kp),
            units as int <= pow10(pad as nat) - 1,
        decreases FRACTION_DIGITS - pad,
    {
        proof {
            lemma_pow10_le_scale(pad as nat);
        }
        let ghost before = units as int;
        units = units * 10;
        pad = pad + 1;
        assert(pow10((pad - kp.len()) as nat) == 10 * pow10((pad - 1 - kp.len()) as nat));
        assert(pow10(pad as nat) == 10 * pow10((pad - 1) as nat));
        proof {
            if kp.len() < 8 {
                let a = digits_value(kp);
                let b = pow10((pad - 1 - kp.len()) as nat);
                assert(before * 10 == a * (10 * b)) by (nonlinear_arith)
                    requires
                        before == a * b,
                ;
            }
        }
    }
    proof {
        lemma_pow10_le_scale(8);
        if fp.len() >= 8 {
            assert(fp.subrange(0, 8) =~= kp);
        } else {
            assert(kp =~= fp);
        }
    }
    Some(units)
}

/// The unsigned part of an amount: `digits[.digits]` in units of 10^-8.
pub open spec fn unsigned_units(body: Seq<char>) -> Option<int> {
    let dot = first_index(body, '.') as int;
    let ip = body.subrange(0, dot);
    let fp = if dot < body.len() { body.subrange(dot + 1, body.len() as int) } else { Seq::empty() };
    if all_digits(ip) && all_digits(fp) && ip.len() + fp.len() > 0 {
        Some(digits_value(ip) * (SCALE as int) + fraction_units(fp))
    } else {
        None
    }
}

/// Reads `digits[.digits]`; `None` where `s` has another shape or its
/// value is beyond `AMOUNT_MAX`.
fn read_unsigned(s: &str) -> (r: Option<u64>)
    ensures
        r is Some <==> (unsigned_units(s@) matches Some(v) && v <= AMOUNT_MAX as int),
        r matches Some(x) ==> unsigned_units(s@) == Some(x as int) && x <= AMOUNT_MAX as u64,
        unsigned_units(s@) matches Some(v) ==> v >= 0,
{
    let m = s.unicode_len();
    let dot = find_char(s, '.');
    proof {
        lemma_first_index_bound(s@, '.');
    }
    let frac_from: usize = if dot < m { dot + 1 } else { m };
    let ghost ip = s@.subrange(0, dot as int);
    let ghost fp = if dot < m { s@.subrange(dot + 1, m as int) } else { Seq::<char>::empty() };
    assert(s@.subrange(frac_from as int, m as int) =~= fp);
    if dot + (m - frac_from) == 0 {
        return None;
    }
    let frac = match read_fraction(s, frac_from, m) {
        Some(f) => f,
        None => return None,
    };
    proof {
        lemma_fraction_nonneg(fp);
        if all_digits(ip) {
            lemma_digits_nonneg(ip);
            let w = digits_value(ip);
            if w > 92233720368 {
                assert(w * 100000000 >= 9223372036900000000) by (nonlinear_arith)
                    requires
                        w >= 92233720369,
                ;
            }
        }
    }
    let whole = match read_digits(s, 0, dot, 92233720368) {
        Some(w) => w,
        None => return None,
    };
    assert(whole * SCALE <= 9223372036800000000) by (nonlinear_arith)
        requires
            whole <= 92233720368,
            SCALE == 100000000,
    ;
    let total: u64 = whole * SCALE + frac;
    assert(all_digits(ip) && all_digits(fp) && ip.len() + fp.len() > 0);
    assert(whole as int == digits_value(ip));
    assert(frac as int == fraction_units(fp));
    assert(unsigned_units(s@) == Some(digits_value(ip) * (SCALE as int) + fraction_units(fp)));
    if total > AMOUNT_MAX as u64 {
        return None;
    }
    Some(total)
}

/// Decodes an amount field: a decimal string `[-]digits[.digits]` becomes
/// its value in units of 10^-8 (digits past the eighth after the point are
/// dropped); any other string, or one whose magnitude does not fit an `i64`,
/// becomes zero.
pub fn parse_amount(s: &str) -> (r: i64)
    ensures
        r as int == amount_of(s@),
{
    let n = s.unicode_len();
    let neg = n > 0 && s.get_char(0) == '-';
    let start: usize = if neg { 1 } else { 0 };
    let rest = s.substring_char(start, n);
    assert(rest@ == (if neg { s@.subrange(1, n as int) } else { s@ })) by {
        if !neg {
            assert(s@.subrange(0, n as int) =~= s@);
        }
    }
    match read_unsigned(rest) {
        Some(v) => {
            let v = v as i64;
            if neg { -v } else { v }
        },
        None => 0,
    }
}

proof fn lemma_fraction_nonneg(f: Seq<char>)
    requires
        all_digits(f),
    ensures
        fraction_units(f) >= 0,
{
    if f.len() >= 8 {
        let k = f.subrange(0, 8);
        assert(all_digits(k)) by {
            assert forall|j: int| 0 <= j < k.len() implies is_digit(#[trigger] k[j]) by {
                assert(k[j] == f[j]);
            }
        }
        lemma_digits_nonneg(k);
    } else {
        lemma_digits_nonneg(f);
        lemma_pow10_positive((8 - f.len()) as nat);
        let a = digits_value(f);
        let b = pow10((8 - f.len()) as nat);
        assert(a * b >= 0) by (nonlinear_arith)
            requires
                a >= 0,
                b >= 1,
        ;
    }
}

proof fn lemma_pow10_mono(a: nat, b: nat)
    requires
        a <= b,
    ensures
        pow10(a) <= pow10(b),
    decreases b,
{
    if a < b {
        lemma_pow10_mono(a, (b - 1) as nat);
        lemma_pow10_positive((b - 1) as nat);
    }
}

proof fn lemma_pow10_le_scale(n: nat)
    requires
        n <= 8,
    ensures
        pow10(n) <= 100000000,
        pow10(8) == 100000000,
{
    reveal_with_fuel(pow10, 9);
    lemma_pow10_mono(n, 8);
}

proof fn lemma_digits_bound(s: Seq<char>)
    requires
        all_digits(s),
        s.len() <= 8,
    ensures
        digits_value(s) <= 99999999,
{
    lemma_digits_below_pow(s);
    reveal_with_fuel(pow10, 9);
}


pub proof fn lemma_digits_below_pow(s: Seq<char>)
    requires
        all_digits(s),
    ensures
        0 <= digits_value(s) < pow10(s.len()),
    decreases s.len(),
{
    if s.len() > 0 {
        let t = s.drop_last();
        assert(is_digit(s[s.len() - 1]));
        assert(all_digits(t)) by {
            assert forall|k: int| 0 <= k < t.len() implies is_digit(#[trigger] t[k]) by {
                assert(t[k] == s[k]);
            }
        }
        lemma_digits_below_pow(t);
    }
}

} // verus!
