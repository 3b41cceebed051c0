//! Exchange instrument descriptors and their normalized client form.
#![allow(non_snake_case)]
use vstd::prelude::*;
use crate::fixed::{amount_of, parse_amount};
use crate::text::{lower, same_text, to_lower};

verus! {

/// One entry of an instrument's `filters` list, tagged by `filterType`.
#[allow(non_camel_case_types)]
pub enum FilterField {
    PRICE_FILTER { tickSize: String, maxPrice: String, minPrice: String },
    LOT_SIZE { stepSize: String, maxQty: String, minQty: String },
    MARKET_LOT_SIZE { stepSize: String, maxQty: String, minQty: String },
    MAX_NUM_ORDERS { maxNumOrders: Option<i64>, limit: Option<i64> },
    MAX_NUM_ALGO_ORDERS { maxNumAlgoOrders: Option<i64>, limit: Option<i64> },
    MAX_NUM_ICEBERG_ORDERS { maxNumIcebergOrders: i64 },
    MIN_NOTIONAL { notional: String },
    MAX_POSITION { maxPosition: String },
    NOTIONAL {
        minNotional: String,
        applyMinToMarket: bool,
        maxNotional: String,
        applyMaxToMarket: bool,
        avgPriceMins: i32,
    },
    PERCENT_PRICE { multiplierDecimal: String, multiplierDown: String, multiplierUp: String },
    ICEBERG_PARTS { limit: i32 },
    TRAILING_DELTA {
        minTrailingAboveDelta: i32,
        maxTrailingAboveDelta: i32,
        minTrailingBelowDelta: i32,
        maxTrailingBelowDelta: i32,
    },
    PERCENT_PRICE_BY_SIDE {
        bidMultiplierUp: String,
        bidMultiplierDown: String,
        askMultiplierUp: String,
        askMultiplierDown: String,
        avgPriceMins: i32,
    },
    EXCHANGE_MAX_NUM_ORDERS { maxNumOrders: i64 },
    EXCHANGE_MAX_ALGO_ORDERS { maxNumAlgoOrders: i64 },
    EXCHANGE_MAX_NUM_ICEBERG_ORDERS { maxNumIcebergOrders: i64 },
}

/// Trading status of an instrument.
#[allow(non_camel_case_types)]
#[derive(Clone, Copy, PartialEq, Eq, Structural, Debug)]
pub enum ConctactStatus {
    PENDING_TRADING,
    TRADING,
    PRE_DELIVERING,
    DELIVERING,
    DELIVERED,
    PRE_SETTLE,
    SETTLING,
    CLOSE,
    PRE_TRADING,
    POST_TRADING,
    END_OF_DAY,
    HALT,
    BREAK,
}

/// An instrument as the exchange describes it.
pub struct BinanceProduct {
    pub symbol: String,
    pub status: ConctactStatus,
    pub deliveryDate: Option<u64>,
    pub onboardDate: Option<u64>,
    pub filters: Vec<FilterField>,
    pub orderTypes: Vec<String>,
    pub timeInForce: Option<Vec<String>>,
}

/// A `{size, max, min}` bound: tick size and price range, or step size
/// and quantity range.
#[derive(Clone, Copy, PartialEq, Eq, Structural, Debug)]
pub struct SizeFilter {
    pub size: i64,
    pub max: i64,
    pub min: i64,
}

/// An instrument as clients see it.
pub struct Product {
    pub symbol: String,
    pub delivery: Option<u64>,
    pub onboard: Option<u64>,
    pub order: Vec<String>,
    pub tif: Option<Vec<String>>,
    pub price_filter: Option<SizeFilter>,
    pub lot_size: Option<SizeFilter>,
    pub min_notional: Option<i64>,
}

pub open spec fn size_of(size: String, max: String, min: String) -> SizeFilter {
    SizeFilter { size: amount_of(size@) as i64, max: amount_of(max@) as i64, min: amount_of(min@) as i64 }
}

/// What the last `PRICE_FILTER` of `fs` says, if any.
pub open spec fn price_filter_of(fs: Seq<FilterField>) -> Option<SizeFilter>
    decreases fs.len(),
{
    if fs.len() == 0 {
        None
    } else {
        match fs.last() {
            FilterField::PRICE_FILTER { tickSize, maxPrice, minPrice } => Some(size_of(tickSize, maxPrice, minPrice)),
            _ => price_filter_of(fs.drop_last()),
        }
    }
}

/// What the last `LOT_SIZE` of `fs` says, if any.
pub open spec fn lot_size_of(fs: Seq<FilterField>) -> Option<SizeFilter>
    decreases fs.len(),
{
    if fs.len() == 0 {
        None
    } else {
        match fs.last() {
            FilterField::LOT_SIZE { stepSize, maxQty, minQty } => Some(size_of(stepSize, maxQty, minQty)),
            _ => lot_size_of(fs.drop_last()),
        }
    }
}

/// The minimum notional of the last `NOTIONAL` or `MIN_NOTIONAL` of `fs`.
pub open spec fn min_notional_of(fs: Seq<FilterField>) -> Option<i64>
    decreases fs.len(),
{
    if fs.len() == 0 {
        None
    } else {
        match fs.last() {
            FilterField::NOTIONAL { minNotional, .. } => Some(amount_of(minNotional@) as i64),
            FilterField::MIN_NOTIONAL { notional } => Some(amount_of(notional@) as i64),
            _ => min_notional_of(fs.drop_last()),
        }
    }
}

pub open spec fn names_of(v: Seq<String>) -> Seq<Seq<char>> {
    v.map_values(|s: String| s@)
}

/// A copy of a list of strings.
pub fn copy_strings(v: &Vec<String>) -> (r: Vec<String>)
    ensures
        names_of(r@) == names_of(v@),
{
    let mut out: Vec<String> = Vec::new();
    let mut i: usize = 0;
    while i < v.len()
        invariant
            i <= v@.len(),
            out@.len() == i,
            forall|k: int| 0 <= k < i ==> #[trigger] out@[k]@ == v@[k]@,
        decreases v@.len() - i,
    {
        out.push(v[i].clone());
        i = i + 1;
    }
    assert(names_of(out@) =~= names_of(v@));
    out
}

impl BinanceProduct {
    /// The normalized descriptor: lowercase symbol, dates, order types and
    /// time-in-force lists as given, and the price, lot-size and notional
    /// filters read as amounts.
    pub fn to_product(&self) -> (r: Product)
        ensures
            r.symbol@ == lower(self.symbol@),
            r.delivery == self.deliveryDate,
            r.onboard == self.onboardDate,
            names_of(r.order@) == names_of(self.orderTypes@),
            r.tif is Some <==> self.timeInForce is Some,
            r.tif matches Some(t) ==> names_of(t@) == names_of(self.timeInForce->Some_0@),
            r.price_filter == price_filter_of(self.filters@),
            r.lot_size == lot_size_of(self.filters@),
            r.min_notional == min_notional_of(self.filters@),
    {
        let mut price_filter: Option<SizeFilter> = None;
        let mut lot_size: Option<SizeFilter> = None;
        let mut min_notional: Option<i64> = None;
        let mut i: usize = 0;
        while i < self.filters.len()
            invariant
                i <= self.filters@.len(),
                price_filter == price_filter_of(self.filters@.subrange(0, i as int)),
                lot_size == lot_size_of(self.filters@.subrange(0, i as int)),
                min_notional == min_notional_of(self.filters@.subrange(0, i as int)),
            decreases self.filters@.len() - i,
        {
            let ghost next = self.filters@.subrange(0, i + 1);
            assert(next.drop_last() =~= self.filters@.subrange(0, i as int));
            match &self.filters[i] {
                FilterField::PRICE_FILTER { tickSize, maxPrice, minPrice } => {
                    price_filter = Some(
                        SizeFilter {
                            size: parse_amount(tickSize.as_str()),
                            max: parse_amount(maxPrice.as_str()),
                            min: parse_amount(minPrice.as_str()),
                        },
                    );
                },
                FilterField::LOT_SIZE { stepSize, maxQty, minQty } => {
                    lot_size = Some(
                        SizeFilter {
                            size: parse_amount(stepSize.as_str()),
                            max: parse_amount(maxQty.as_str()),
                            min: parse_amount(minQty.as_str()),
                        },
                    );
                },
                FilterField::NOTIONAL { minNotional, .. } => {
                    min_notional = Some(parse_amount(minNotional.as_str()));
                },
                FilterField::MIN_NOTIONAL { notional } => {
                    min_notional = Some(parse_amount(notional.as_str()));
                },
                _ => {},
            }
            i = i + 1;
        }
        assert(self.filters@.subrange(0, i as int) =~= self.filters@);
        Product {
            symbol: to_lower(self.symbol.as_str()),
            delivery: self.deliveryDate,
            onboard: self.onboardDate,
            order: copy_strings(&self.orderTypes),
            tif: match &self.timeInForce {
                Some(t) => Some(copy_strings(t)),
                None => None,
            },
            price_filter,
            lot_size,
            min_notional,
        }
    }
}

/// Whether product `p` is asked for by `names` (any case); an empty list
/// asks for all.
pub open spec fn asked(names: Seq<String>, p: Product) -> bool {
    names.len() == 0 || exists|j: int| 0 <= j < names.len() && lower(#[trigger] names[j]@) == p.symbol@
}

/// Whether `symbol` (in any case) is one of `names`.
fn names_symbol(names: &Vec<String>, symbol: &str) -> (r: bool)
    ensures
        r == exists|j: int| 0 <= j < names@.len() && lower(#[trigger] names@[j]@) == symbol@,
{
    let mut j: usize = 0;
    while j < names.len()
        invariant
            j <= names@.len(),
            forall|k: int| 0 <= k < j ==> lower(#[trigger] names@[k]@) != symbol@,
        decreases names@.len() - j,
    {
        let l = to_lower(names[j].as_str());
        if same_text(l.as_str(), symbol) {
            return true;
        }
        j = j + 1;
    }
    false
}

/// The reply to `get_products`: the positions in `products` of those asked
/// for, in order.
pub fn select_products(products: &Vec<Product>, names: &Vec<String>) -> (r: Vec<usize>)
    ensures
        forall|i: int, j: int| 0 <= i < j < r@.len() ==> r@[i] < r@[j],
        forall|i: int| 0 <= i < r@.len() ==> #[trigger] r@[i] < products@.len() && asked(names@, products@[r@[i] as int]),
        forall|k: int| 0 <= k < products@.len() && asked(names@, #[trigger] products@[k]) ==> r@.contains(k as usize),
{
    let mut out: Vec<usize> = Vec::new();
    let mut k: usize = 0;
    while k < products.len()
        invariant
            k <= products@.len(),
            forall|i: int, j: int| 0 <= i < j < out@.len() ==> out@[i] < out@[j],
            forall|i: int| 0 <= i < out@.len() ==> #[trigger] out@[i] < k && asked(names@, products@[out@[i] as int]),
            forall|x: int| 0 <= x < k && asked(names@, #[trigger] products@[x]) ==> out@.contains(x as usize),
        decreases products@.len() - k,
    {
        if names.len() == 0 || names_symbol(names, products[k].symbol.as_str()) {
            let ghost before = out@;
            out.push(k);
            proof {
                assert forall|x: int| 0 <= x < k + 1 && asked(names@, #[trigger] products@[x]) implies out@.contains(x as usize) by {
                    if x < k {
                        let i = choose|i: int| 0 <= i < before.len() && before[i] == x as usize;
                        assert(out@[i] == x as usize);
                    } else {
                        assert(out@[before.len() as int] == x as usize);
                    }
                }
            }
        } else {
            proof {
                assert forall|x: int| 0 <= x < k + 1 && asked(names@, #[trigger] products@[x]) implies out@.contains(x as usize) by {
                    if x == k {
                        assert(!asked(names@, products@[x]));
                    }
                }
            }
        }
        k = k + 1;
    }
    out
}

/// Whether `symbol` names one of `products`.
pub fn is_listed(products: &Vec<Product>, symbol: &str) -> (r: bool)
    ensures
        r == exists|k: int| 0 <= k < products@.len() && #[trigger] products@[k].symbol@ == symbol@,
{
    let mut i: usize = 0;
    while i < products.len()
        invariant
            i <= products@.len(),
            forall|k: int| 0 <= k < i ==> #[trigger] products@[k].symbol@ != symbol@,
        decreases products@.len() - i,
    {
        if same_text(products[i].symbol.as_str(), symbol) {
            return true;
        }
        i = i + 1;
    }
    false
}

} // verus!
