//! Core tag and rate types used by the arbitrage logic.

use crate::rational::{rat_div, rat_eq, Ratio};
use vstd::prelude::*;
use vstd::string::StringExecFns;

verus! {

/// The closed set of recognized currencies: the three hub currencies, and
/// `Other` for every remaining tradable item (including unknown labels).
#[derive(Debug, Copy, Clone, PartialEq, Eq, Hash, Structural)]
pub enum TradingCurrencyType {
    Exalt,
    Chaos,
    Divine,
    Other,
}

/// Classification of a currency label: the three hub labels map to their
/// tags, every other label degrades to `Other`.
pub open spec fn currency_of(s: Seq<char>) -> TradingCurrencyType {
    if s == "Exalted Orb"@ {
        TradingCurrencyType::Exalt
    } else if s == "Chaos Orb"@ {
        TradingCurrencyType::Chaos
    } else if s == "Divine Orb"@ {
        TradingCurrencyType::Divine
    } else {
        TradingCurrencyType::Other
    }
}

impl TradingCurrencyType {
    /// A hub currency is anything but the `Other` catch-all.
    pub open spec fn is_hub(self) -> bool {
        self != TradingCurrencyType::Other
    }

    /// Maps a currency label to its tag; unrecognized labels map to
    /// `Other`, so classification never fails.
    pub fn from_str(s: &str) -> (r: Result<TradingCurrencyType, ()>)
        ensures
            r == Ok::<TradingCurrencyType, ()>(currency_of(s@)),
    {
        let owned = s.to_owned();
        if owned == String::from_str("Exalted Orb") {
            Ok(TradingCurrencyType::Exalt)
        } else if owned == String::from_str("Chaos Orb") {
            Ok(TradingCurrencyType::Chaos)
        } else if owned == String::from_str("Divine Orb") {
            Ok(TradingCurrencyType::Divine)
        } else {
            Ok(TradingCurrencyType::Other)
        }
    }
}

/// The three direct hub-to-hub base rates of one batch.
///
/// `div_to_exalt` and `chaos_to_exalt` are observed directly;
/// `div_to_chaos` is their exact quotient.
#[derive(Debug, Copy, Clone, PartialEq, Eq, Structural)]
pub struct TradingCurrencyRates {
    pub div_to_exalt: Ratio,
    pub div_to_chaos: Ratio,
    pub chaos_to_exalt: Ratio,
}

impl TradingCurrencyRates {
    /// All three rates are positive, and the derived divine-to-chaos rate
    /// equals divine-to-exalt over chaos-to-exalt.
    pub open spec fn wf(&self) -> bool {
        &&& self.div_to_exalt.wf()
        &&& self.div_to_chaos.wf()
        &&& self.chaos_to_exalt.wf()
        &&& self.div_to_exalt.num > 0
        &&& self.div_to_chaos.num > 0
        &&& self.chaos_to_exalt.num > 0
        &&& rat_eq(self.div_to_chaos@, rat_div(self.div_to_exalt@, self.chaos_to_exalt@))
    }
}

} // verus!
