//! Quote records as the logic consumes them.
//!
//! The upstream snapshot provider reports prices and volumes as decimal
//! numbers; the caller decodes them into fixed-point integers in
//! millionths (see [`PRICE_SCALE`]) before handing records to this
//! library, so that every later computation is exact.

use crate::models::logic_models::{currency_of, TradingCurrencyType};
use vstd::prelude::*;

verus! {

/// Fixed-point scale of prices and volumes: one unit is `PRICE_SCALE`
/// stored ticks, so a stored price `p` means the real number
/// `p / PRICE_SCALE`.
pub const PRICE_SCALE: u32 = 1_000_000;

/// Identity of one side of a quote.
#[derive(Debug, Default)]
pub struct CurrencyInfo {
    pub id: u64,
    pub item_id: u64,
    pub currency_category_id: u64,
    pub api_id: String,
    pub text: String,
    pub category_api_id: String,
    pub icon_url: String,
}

/// Market data of one side of a quote. `relative_price` is the number of
/// units of the opposite side paid per unit of this side, in ticks of
/// `1 / PRICE_SCALE`.
#[derive(Clone, Copy, Debug, Default)]
pub struct CurrencyData {
    pub highest_stock: u64,
    pub relative_price: u32,
    pub stock_value: u64,
    pub value_traded: u64,
    pub volume_traded: u64,
}

/// One observed exchange pair of a snapshot.
#[derive(Debug, Default)]
pub struct ExchangeRecord {
    pub pair_id: u64,
    pub snapshot_id: u64,
    /// Trading volume in ticks of `1 / PRICE_SCALE`, never negative.
    pub volume: u64,
    pub currency_one: CurrencyInfo,
    pub currency_two: CurrencyInfo,
    pub currency_one_data: CurrencyData,
    pub currency_two_data: CurrencyData,
}

impl Clone for CurrencyInfo {
    fn clone(&self) -> (r: Self)
        ensures
            r == *self,
    {
        CurrencyInfo {
            id: self.id,
            item_id: self.item_id,
            currency_category_id: self.currency_category_id,
            api_id: self.api_id.clone(),
            text: self.text.clone(),
            category_api_id: self.category_api_id.clone(),
            icon_url: self.icon_url.clone(),
        }
    }
}

impl Clone for ExchangeRecord {
    fn clone(&self) -> (r: Self)
        ensures
            r == *self,
    {
        ExchangeRecord {
            pair_id: self.pair_id,
            snapshot_id: self.snapshot_id,
            volume: self.volume,
            currency_one: self.currency_one.clone(),
            currency_two: self.currency_two.clone(),
            currency_one_data: self.currency_one_data,
            currency_two_data: self.currency_two_data,
        }
    }
}

impl ExchangeRecord {
    /// Classification of the two sides' currency labels.
    pub open spec fn spec_currencies(&self) -> (TradingCurrencyType, TradingCurrencyType) {
        (currency_of(self.currency_one.text@), currency_of(self.currency_two.text@))
    }

    /// A bridge quote relates exactly one hub to one non-hub item.
    pub open spec fn spec_is_valid_bridge(&self) -> bool {
        let (c1, c2) = self.spec_currencies();
        (c1.is_hub() && !c2.is_hub()) || (!c1.is_hub() && c2.is_hub())
    }

    /// The hub side of a valid bridge quote.
    pub open spec fn spec_hub(&self) -> TradingCurrencyType {
        if currency_of(self.currency_one.text@).is_hub() {
            currency_of(self.currency_one.text@)
        } else {
            currency_of(self.currency_two.text@)
        }
    }

    /// Relative price of the hub side of a valid bridge quote.
    pub open spec fn spec_hub_price(&self) -> u32 {
        if currency_of(self.currency_one.text@).is_hub() {
            self.currency_one_data.relative_price
        } else {
            self.currency_two_data.relative_price
        }
    }

    /// Stable identity of the bridge side of a valid bridge quote.
    pub open spec fn spec_bridge_id(&self) -> u64 {
        if currency_of(self.currency_one.text@).is_hub() {
            self.currency_two.item_id
        } else {
            self.currency_one.item_id
        }
    }

    /// Relative price of the bridge side of a valid bridge quote.
    pub open spec fn spec_bridge_price(&self) -> u32 {
        if currency_of(self.currency_one.text@).is_hub() {
            self.currency_two_data.relative_price
        } else {
            self.currency_one_data.relative_price
        }
    }

    /// Classifies both sides of the quote; unknown labels come back as
    /// `Other` rather than failing.
    pub fn trading_currency(&self) -> (r: (TradingCurrencyType, TradingCurrencyType))
        ensures
            r == self.spec_currencies(),
    {
        let curr1 = TradingCurrencyType::from_str(self.currency_one.text.as_str()).unwrap();
        let curr2 = TradingCurrencyType::from_str(self.currency_two.text.as_str()).unwrap();
        (curr1, curr2)
    }

    /// True iff exactly one side is a hub currency: such a quote carries a
    /// hub-to-bridge rate. Hub-to-hub quotes belong to base-rate
    /// extraction instead, and quotes between two non-hub items carry no
    /// routable information.
    pub fn is_valid_bridge(&self) -> (b: bool)
        ensures
            b == self.spec_is_valid_bridge(),
    {
        let (curr1, curr2) = self.trading_currency();
        (curr1 != TradingCurrencyType::Other && curr2 == TradingCurrencyType::Other) || (curr1
            == TradingCurrencyType::Other && curr2 != TradingCurrencyType::Other)
    }

    /// For a valid bridge quote, the hub tag, the hub side's price, the
    /// bridge item's stable id, and the bridge side's price; `None` for
    /// any other quote.
    pub fn hub_bridge_price(&self) -> (r: Option<(TradingCurrencyType, u32, u64, u32)>)
        ensures
            self.spec_is_valid_bridge() ==> r == Some(
                (self.spec_hub(), self.spec_hub_price(), self.spec_bridge_id(), self.spec_bridge_price()),
            ),
            !self.spec_is_valid_bridge() ==> r is None,
    {
        let (curr1, curr2) = self.trading_currency();
        if curr1 != TradingCurrencyType::Other && curr2 == TradingCurrencyType::Other {
            Some(
                (
                    curr1,
                    self.currency_one_data.relative_price,
                    self.currency_two.item_id,
                    self.currency_two_data.relative_price,
                ),
            )
        } else if curr1 == TradingCurrencyType::Other && curr2 != TradingCurrencyType::Other {
            Some(
                (
                    curr2,
                    self.currency_two_data.relative_price,
                    self.currency_one.item_id,
                    self.currency_one_data.relative_price,
                ),
            )
        } else {
            None
        }
    }
}

} // verus!
