//! Data model of the snapshot pipeline.
//!
//! The types in this file are the first revision of the snapshot record,
//! which kept the provider's decimal fields as raw text; the submodules
//! hold the current decoded form ([`api_models`]) and the types the
//! arbitrage logic itself works with ([`logic_models`]).

pub mod api_models;
pub mod logic_models;

use vstd::prelude::*;
use vstd::string::StringExecFns;

verus! {

/// Identity of one side of a quote, as first decoded.
#[derive(Debug, Default)]
pub struct CurrencyInfo {
    pub id: u64,
    pub item_id: u64,
    pub currency_category_id: u64,
    pub api_id: String,
    pub text: String,
    pub category_api_id: String,
    pub icon_url: String,
}

/// Market data of one side of a quote, with the provider's decimal fields
/// still in their textual form.
#[derive(Debug, Default)]
pub struct CurrencyData {
    pub highest_stock: u64,
    pub relative_price: String,
    pub stock_value: String,
    pub value_traded: String,
    pub volume_traded: u64,
}

/// One observed exchange pair, with the volume still in its textual form.
#[derive(Debug, Default)]
pub struct ExchangeRecord {
    pub pair_id: u64,
    pub snapshot_id: u64,
    pub volume: String,
    pub currency_one: CurrencyInfo,
    pub currency_two: CurrencyInfo,
    pub currency_one_data: CurrencyData,
    pub currency_two_data: CurrencyData,
}

/// The closed set of recognized currencies, as first modeled.
#[derive(Debug, PartialEq, Eq, Structural)]
pub enum TradingCurrencyId {
    Exalt,
    Chaos,
    Divine,
    Other,
}

/// Classification of a currency label: the three hub labels map to their
/// tags, every other label degrades to `Other`.
pub open spec fn currency_id_of(s: Seq<char>) -> TradingCurrencyId {
    if s == "Exalted Orb"@ {
        TradingCurrencyId::Exalt
    } else if s == "Chaos Orb"@ {
        TradingCurrencyId::Chaos
    } else if s == "Divine Orb"@ {
        TradingCurrencyId::Divine
    } else {
        TradingCurrencyId::Other
    }
}

impl TradingCurrencyId {
    /// Maps a currency label to its tag; unrecognized labels map to
    /// `Other`, so classification never fails.
    pub fn from_str(s: &str) -> (r: Result<TradingCurrencyId, ()>)
        ensures
            r == Ok::<TradingCurrencyId, ()>(currency_id_of(s@)),
    {
        let owned = s.to_owned();
        if owned == String::from_str("Exalted Orb") {
            Ok(TradingCurrencyId::Exalt)
        } else if owned == String::from_str("Chaos Orb") {
            Ok(TradingCurrencyId::Chaos)
        } else if owned == String::from_str("Divine Orb") {
            Ok(TradingCurrencyId::Divine)
        } else {
            Ok(TradingCurrencyId::Other)
        }
    }
}

impl ExchangeRecord {
    /// Classification of the two sides' currency labels.
    pub open spec fn spec_currencies(&self) -> (TradingCurrencyId, TradingCurrencyId) {
        (currency_id_of(self.currency_one.text@), currency_id_of(self.currency_two.text@))
    }

    /// Classifies both sides of the quote.
    pub fn trading_currency(&self) -> (r: (TradingCurrencyId, TradingCurrencyId))
        ensures
            r == self.spec_currencies(),
    {
        let curr1 = TradingCurrencyId::from_str(self.currency_one.text.as_str()).unwrap();
        let curr2 = TradingCurrencyId::from_str(self.currency_two.text.as_str()).unwrap();
        (curr1, curr2)
    }

    /// True iff exactly one side is a hub currency.
    pub fn is_valid(&self) -> (b: bool)
        ensures
            b == {
                let (c1, c2) = self.spec_currencies();
                (c1 != TradingCurrencyId::Other && c2 == TradingCurrencyId::Other) || (c1
                    == TradingCurrencyId::Other && c2 != TradingCurrencyId::Other)
            },
    {
        let (curr1, curr2) = self.trading_currency();
        (curr1 != TradingCurrencyId::Other && curr2 == TradingCurrencyId::Other) || (curr1
            == TradingCurrencyId::Other && curr2 != TradingCurrencyId::Other)
    }
}

} // verus!
