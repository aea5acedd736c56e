//! The arbitrage synthesis pipeline.
//!
//! One refresh pass runs: base-rate extraction over the whole batch,
//! volume/validity filtering, hub-bridge indexing, two-hop synthesis,
//! profitability filtering, and ranking. Each stage is a pure function
//! of its inputs; nothing carries over between passes.

use crate::index::{
    build_hub_bridge_maps, lemma_fwd_map_key, lemma_maps_at_last_occurrence, HubBridgeIndex,
};
use crate::models::api_models::{ExchangeRecord, PRICE_SCALE};
use crate::models::logic_models::{TradingCurrencyRates, TradingCurrencyType};
use crate::ranking::{
    all_wf, count_of, filter_hub, lemma_count_at_least_one, lemma_count_at_least_two,
    lemma_count_of_distinct, lemma_count_pos_exists, lemma_insert_desc_at, lemma_sort_desc_count,
    lemma_sort_desc_sorted, opp_ge, rank_spec, sort_desc, sorted_desc,
};
use crate::rational::{
    cross_ge, cross_mul, lemma_rat_ge_trans, rat_div, rat_eq, rat_mul, CrossRate, Rat, Ratio,
};
use vstd::prelude::*;

verus! {

/// Raised when a batch lacks a usable Divine/Exalt or Chaos/Exalt quote:
/// the derived divine-to-chaos rate would be meaningless, so base-rate
/// dependent filtering cannot proceed and the caller keeps its previous
/// results.
#[derive(Clone, Copy, Debug, PartialEq, Eq, Structural)]
pub struct IncompleteBaseRatesError;

/// The price recorded by the last quote of the batch whose classified
/// pair is exactly `(c1, c2)`, side one's relative price being read as
/// hub ticks per Exalt; zero if no such quote exists.
pub open spec fn last_pair_price(
    rs: Seq<ExchangeRecord>,
    c1: TradingCurrencyType,
    c2: TradingCurrencyType,
) -> u32
    decreases rs.len(),
{
    if rs.len() == 0 {
        0u32
    } else if rs.last().spec_currencies() == (c1, c2) {
        rs.last().currency_one_data.relative_price
    } else {
        last_pair_price(rs.drop_last(), c1, c2)
    }
}

/// Whether the batch determines all three base rates: both directly
/// observed prices must be present and positive (an absent pair defaults
/// to a zero price, and a zero price would make the derived rate
/// meaningless).
pub open spec fn spec_base_rates_complete(rs: Seq<ExchangeRecord>) -> bool {
    last_pair_price(rs, TradingCurrencyType::Divine, TradingCurrencyType::Exalt) > 0
        && last_pair_price(rs, TradingCurrencyType::Chaos, TradingCurrencyType::Exalt) > 0
}

/// The base rates a batch denotes: the two observed prices over the
/// fixed-point scale, and their exact quotient for divine-to-chaos.
pub open spec fn spec_base_rates(rs: Seq<ExchangeRecord>) -> TradingCurrencyRates {
    let d = last_pair_price(rs, TradingCurrencyType::Divine, TradingCurrencyType::Exalt);
    let c = last_pair_price(rs, TradingCurrencyType::Chaos, TradingCurrencyType::Exalt);
    TradingCurrencyRates {
        div_to_exalt: Ratio { num: d, den: PRICE_SCALE },
        div_to_chaos: Ratio { num: d, den: c },
        chaos_to_exalt: Ratio { num: c, den: PRICE_SCALE },
    }
}

/// Scans every quote of the batch (unfiltered by volume) for the direct
/// Divine/Exalt and Chaos/Exalt pairs; the last quote of each pair wins.
/// Returns the three base rates, or an error when either pair is absent
/// or priced at zero.
pub fn get_base_prices(records: &[ExchangeRecord]) -> (r: Result<
    TradingCurrencyRates,
    IncompleteBaseRatesError,
>)
    ensures
        spec_base_rates_complete(records@) ==> r == Ok::<_, IncompleteBaseRatesError>(
            spec_base_rates(records@),
        ),
        !spec_base_rates_complete(records@) ==> r == Err::<TradingCurrencyRates, _>(
            IncompleteBaseRatesError,
        ),
        r matches Ok(rates) ==> rates.wf(),
{
    let mut div_price: u32 = 0;
    let mut chaos_price: u32 = 0;
    let n = records.len();
    let mut i: usize = 0;
    proof {
        assert(records@.take(0) =~= Seq::<ExchangeRecord>::empty());
    }
    while i < n
        invariant
            i <= n,
            n == records@.len(),
            div_price == last_pair_price(
                records@.take(i as int),
                TradingCurrencyType::Divine,
                TradingCurrencyType::Exalt,
            ),
            chaos_price == last_pair_price(
                records@.take(i as int),
                TradingCurrencyType::Chaos,
                TradingCurrencyType::Exalt,
            ),
        decreases n - i,
    {
        let record = &records[i];
        let pair = record.trading_currency();
        if pair.0 == TradingCurrencyType::Divine && pair.1 == TradingCurrencyType::Exalt {
            div_price = record.currency_one_data.relative_price;
        } else if pair.0 == TradingCurrencyType::Chaos && pair.1 == TradingCurrencyType::Exalt {
            chaos_price = record.currency_one_data.relative_price;
        }
        proof {
            assert(records@.take(i as int + 1).drop_last() =~= records@.take(i as int));
            assert(records@.take(i as int + 1).last() == records@[i as int]);
        }
        i += 1;
    }
    proof {
        assert(records@.take(n as int) =~= records@);
    }
    if div_price > 0 && chaos_price > 0 {
        let rates = TradingCurrencyRates {
            div_to_exalt: Ratio { num: div_price, den: PRICE_SCALE },
            div_to_chaos: Ratio { num: div_price, den: chaos_price },
            chaos_to_exalt: Ratio { num: chaos_price, den: PRICE_SCALE },
        };
        proof {
            let d = div_price as int;
            let c = chaos_price as int;
            let s = PRICE_SCALE as int;
            assert(rat_eq(rates.div_to_chaos@, rat_div(rates.div_to_exalt@, rates.chaos_to_exalt@)))
                by (nonlinear_arith)
                requires
                    d > 0,
                    c > 0,
                    s > 0,
                    rates.div_to_chaos@ == (Rat { num: d, den: c }),
                    rates.div_to_exalt@ == (Rat { num: d, den: s }),
                    rates.chaos_to_exalt@ == (Rat { num: c, den: s }),
            ;
        }
        Ok(rates)
    } else {
        Err(IncompleteBaseRatesError)
    }
}

/// One synthesized two-hop route: trade `hub_one` into the bridge item,
/// then the bridge item into `hub_two`. The implied rate is the exact
/// product of the two observed rates.
#[derive(Clone, Copy, Debug, PartialEq, Eq, Structural)]
pub struct Opportunity {
    pub hub_one: TradingCurrencyType,
    pub bridge_id: u64,
    pub hub_two: TradingCurrencyType,
    pub implied_rate: CrossRate,
}

impl Opportunity {
    pub open spec fn route(self) -> (TradingCurrencyType, u64, TradingCurrencyType) {
        (self.hub_one, self.bridge_id, self.hub_two)
    }
}

/// An opportunity is sound for a pair of rate maps when its hubs are two
/// distinct hub currencies, both of its keys are present, and its implied
/// rate is the exact product of the forward and inverse rates.
pub open spec fn opp_sound(
    fwd: Map<(TradingCurrencyType, u64), Rat>,
    inv: Map<(u64, TradingCurrencyType), Rat>,
    o: Opportunity,
) -> bool {
    &&& o.hub_one.is_hub()
    &&& o.hub_two.is_hub()
    &&& o.hub_one != o.hub_two
    &&& fwd.contains_key((o.hub_one, o.bridge_id))
    &&& inv.contains_key((o.bridge_id, o.hub_two))
    &&& o.implied_rate@ == rat_mul(fwd[(o.hub_one, o.bridge_id)], inv[(o.bridge_id, o.hub_two)])
}

/// Collects, for one ordered hub pair, one opportunity per bridge item
/// that the forward index knows under `hub_one` and the inverse index
/// knows under `hub_two`.
fn synth_pair(
    idx: &HubBridgeIndex,
    hub_one: TradingCurrencyType,
    hub_two: TradingCurrencyType,
) -> (out: Vec<Opportunity>)
    requires
        idx.wf(),
        hub_one.is_hub(),
        hub_two.is_hub(),
        hub_one != hub_two,
    ensures
        forall|i: int|
            0 <= i < out@.len() ==> {
                &&& opp_sound(idx.forward_map(), idx.inverse_map(), #[trigger] out@[i])
                &&& out@[i].hub_one == hub_one
                &&& out@[i].hub_two == hub_two
                &&& out@[i].implied_rate.wf()
                &&& out@[i].implied_rate.num > 0
            },
        forall|i: int, j: int|
            0 <= i < j < out@.len() ==> (#[trigger] out@[i]).bridge_id != (
            #[trigger] out@[j]).bridge_id,
        forall|b: u64|
            idx.forward_map().contains_key((hub_one, b)) && idx.inverse_map().contains_key(
                (b, hub_two),
            ) ==> exists|i: int|
                0 <= i < out@.len() && (#[trigger] out@[i]).bridge_id == b,
{
    let mut out: Vec<Opportunity> = Vec::new();
    let ghost entries = idx.entries_seq();
    let n = idx.len();
    let mut i: usize = 0;
    while i < n
        invariant
            idx.wf(),
            hub_one.is_hub(),
            hub_two.is_hub(),
            hub_one != hub_two,
            entries == idx.entries_seq(),
            n == entries.len(),
            i <= n,
            forall|p: int|
                0 <= p < out@.len() ==> {
                    &&& opp_sound(idx.forward_map(), idx.inverse_map(), #[trigger] out@[p])
                    &&& out@[p].hub_one == hub_one
                    &&& out@[p].hub_two == hub_two
                    &&& out@[p].implied_rate.wf()
                    &&& out@[p].implied_rate.num > 0
                },
            forall|p: int, q: int|
                0 <= p < q < out@.len() ==> (#[trigger] out@[p]).bridge_id != (
                #[trigger] out@[q]).bridge_id,
            forall|p: int|
                0 <= p < out@.len() ==> exists|j: int|
                    0 <= j < i && (#[trigger] entries[j]).key() == (
                    hub_one,
                    (#[trigger] out@[p]).bridge_id,
                    ),
            forall|j: int|
                0 <= j < i && (#[trigger] entries[j]).hub == hub_one
                    && idx.inverse_map().contains_key((entries[j].bridge_id, hub_two)) ==> exists|
                    p: int,
                |
                    0 <= p < out@.len() && (#[trigger] out@[p]).bridge_id
                        == entries[j].bridge_id,
        decreases n - i,
    {
        let e = idx.entry(i);
        if e.hub == hub_one {
            if let Some(r2) = idx.inverse_rate(e.bridge_id, hub_two) {
                let r1 = Ratio { num: e.hub_price, den: e.bridge_price };
                proof {
                    lemma_maps_at_last_occurrence(entries, i as int);
                    assert(entries[i as int].wf());
                    // any opportunity already present for this bridge would
                    // point at an earlier entry with the same key, which
                    // uniqueness of keys rules out
                    assert(forall|p: int|
                        0 <= p < out@.len() ==> (#[trigger] out@[p]).bridge_id
                            != e.bridge_id) by {
                        assert forall|p: int|
                            0 <= p < out@.len() implies (#[trigger] out@[p]).bridge_id
                            != e.bridge_id by {
                            let j = choose|j: int|
                                0 <= j < i && (#[trigger] entries[j]).key() == (
                                hub_one,
                                out@[p].bridge_id,
                                );
                            assert(entries[j].key() != entries[i as int].key());
                        }
                    }
                }
                let implied = cross_mul(&r1, &r2);
                let ghost pre = out@;
                out.push(
                    Opportunity { hub_one, bridge_id: e.bridge_id, hub_two, implied_rate: implied },
                );
                proof {
                    assert(forall|p: int| 0 <= p < pre.len() ==> out@[p] == pre[p]);
                    assert(out@[out@.len() - 1].bridge_id == e.bridge_id);
                    assert(entries[i as int].hub == hub_one);
                }
            }
        }
        i += 1;
    }
    proof {
        assert forall|b: u64|
            idx.forward_map().contains_key((hub_one, b)) && idx.inverse_map().contains_key(
                (b, hub_two),
            ) implies exists|p: int|
            0 <= p < out@.len() && (#[trigger] out@[p]).bridge_id == b by {
            lemma_fwd_map_key(entries, hub_one, b);
            let j = choose|j: int| 0 <= j < entries.len() && (#[trigger] entries[j]).key() == (
                hub_one,
                b,
            );
            assert(entries[j].hub == hub_one && entries[j].bridge_id == b);
        }
    }
    out
}

/// Synthesizes every two-hop opportunity of the index: for each ordered
/// pair of distinct hubs and each bridge item known on both sides, the
/// implied rate is the exact product of the forward and inverse rates.
/// The result holds exactly one opportunity per such route, each with a
/// positive implied rate.
pub fn build_bridges(idx: &HubBridgeIndex) -> (res: Vec<Opportunity>)
    requires
        idx.wf(),
    ensures
        forall|i: int|
            0 <= i < res@.len() ==> {
                &&& opp_sound(idx.forward_map(), idx.inverse_map(), #[trigger] res@[i])
                &&& res@[i].implied_rate.wf()
                &&& res@[i].implied_rate.num > 0
            },
        forall|h1: TradingCurrencyType, h2: TradingCurrencyType, b: u64|
            #![trigger idx.forward_map().contains_key((h1, b)), idx.inverse_map().contains_key((b, h2))]
            h1.is_hub() && h2.is_hub() && h1 != h2 && idx.forward_map().contains_key((h1, b))
                && idx.inverse_map().contains_key((b, h2)) ==> exists|i: int|
                0 <= i < res@.len() && (#[trigger] res@[i]).route() == (h1, b, h2),
        forall|i: int, j: int|
            0 <= i < j < res@.len() ==> (#[trigger] res@[i]).route() != (#[trigger] res@[j]).route(),
{
    let mut results: Vec<Opportunity> = synth_pair(
        idx,
        TradingCurrencyType::Divine,
        TradingCurrencyType::Chaos,
    );
    let ghost s1 = results@;
    let ghost n1 = results@.len() as int;
    let mut part = synth_pair(idx, TradingCurrencyType::Divine, TradingCurrencyType::Exalt);
    let ghost s2 = part@;
    results.append(&mut part);
    let ghost n2 = results@.len() as int;
    let mut part = synth_pair(idx, TradingCurrencyType::Chaos, TradingCurrencyType::Divine);
    let ghost s3 = part@;
    results.append(&mut part);
    let ghost n3 = results@.len() as int;
    let mut part = synth_pair(idx, TradingCurrencyType::Chaos, TradingCurrencyType::Exalt);
    let ghost s4 = part@;
    results.append(&mut part);
    let ghost n4 = results@.len() as int;
    let mut part = synth_pair(idx, TradingCurrencyType::Exalt, TradingCurrencyType::Divine);
    let ghost s5 = part@;
    results.append(&mut part);
    let ghost n5 = results@.len() as int;
    let mut part = synth_pair(idx, TradingCurrencyType::Exalt, TradingCurrencyType::Chaos);
    let ghost s6 = part@;
    results.append(&mut part);
    let ghost n6 = results@.len() as int;
    proof {
        let s = results@;
        assert(forall|i: int| 0 <= i < n1 ==> (#[trigger] s[i]) == s1[i]);
        assert(forall|i: int| n1 <= i < n2 ==> (#[trigger] s[i]) == s2[i - n1]);
        assert(forall|i: int| n2 <= i < n3 ==> (#[trigger] s[i]) == s3[i - n2]);
        assert(forall|i: int| n3 <= i < n4 ==> (#[trigger] s[i]) == s4[i - n3]);
        assert(forall|i: int| n4 <= i < n5 ==> (#[trigger] s[i]) == s5[i - n4]);
        assert(forall|i: int| n5 <= i < n6 ==> (#[trigger] s[i]) == s6[i - n5]);
        assert forall|h1: TradingCurrencyType, h2: TradingCurrencyType, b: u64|
            h1.is_hub() && h2.is_hub() && h1 != h2 && idx.forward_map().contains_key((h1, b))
                && idx.inverse_map().contains_key(
                (b, h2),
            ) implies exists|i: int|
            0 <= i < s.len() && (#[trigger] s[i]).route() == (h1, b, h2) by {
            if h1 == TradingCurrencyType::Divine && h2 == TradingCurrencyType::Chaos {
                let p = choose|p: int| 0 <= p < s1.len() && (#[trigger] s1[p]).bridge_id == b;
                assert(s[p].route() == (h1, b, h2));
            } else if h1 == TradingCurrencyType::Divine && h2 == TradingCurrencyType::Exalt {
                let p = choose|p: int| 0 <= p < s2.len() && (#[trigger] s2[p]).bridge_id == b;
                assert(s[n1 + p].route() == (h1, b, h2));
            } else if h1 == TradingCurrencyType::Chaos && h2 == TradingCurrencyType::Divine {
                let p = choose|p: int| 0 <= p < s3.len() && (#[trigger] s3[p]).bridge_id == b;
                assert(s[n2 + p].route() == (h1, b, h2));
            } else if h1 == TradingCurrencyType::Chaos && h2 == TradingCurrencyType::Exalt {
                let p = choose|p: int| 0 <= p < s4.len() && (#[trigger] s4[p]).bridge_id == b;
                assert(s[n3 + p].route() == (h1, b, h2));
            } else if h1 == TradingCurrencyType::Exalt && h2 == TradingCurrencyType::Divine {
                let p = choose|p: int| 0 <= p < s5.len() && (#[trigger] s5[p]).bridge_id == b;
                assert(s[n4 + p].route() == (h1, b, h2));
            } else {
                let p = choose|p: int| 0 <= p < s6.len() && (#[trigger] s6[p]).bridge_id == b;
                assert(s[n5 + p].route() == (h1, b, h2));
            }
        }
        assert forall|i: int, j: int| 0 <= i < j < s.len() implies (#[trigger] s[i]).route() != (
        #[trigger] s[j]).route() by {
            let pi = (s[i].hub_one, s[i].hub_two);
            let pj = (s[j].hub_one, s[j].hub_two);
            if pi == pj {
                assert(s[i].bridge_id != s[j].bridge_id);
            }
        }
    }
    results
}

/// The direct base rate against which a route between two hubs is
/// judged; only the three observed hub pairs have one, every other pair
/// has no comparable base rate.
pub open spec fn base_rate_for(
    rates: TradingCurrencyRates,
    h1: TradingCurrencyType,
    h2: TradingCurrencyType,
) -> Option<Ratio> {
    if h1 == TradingCurrencyType::Divine && h2 == TradingCurrencyType::Exalt {
        Some(rates.div_to_exalt)
    } else if h1 == TradingCurrencyType::Chaos && h2 == TradingCurrencyType::Exalt {
        Some(rates.chaos_to_exalt)
    } else if h1 == TradingCurrencyType::Divine && h2 == TradingCurrencyType::Chaos {
        Some(rates.div_to_chaos)
    } else {
        None
    }
}

/// The relative profitability test `|implied - base| >= frac * base`,
/// written over cross-multiplied integers: both sides have been scaled by
/// the positive product of the three denominators, under which the
/// inequality is unchanged.
pub open spec fn spec_profitable(implied: Rat, base: Rat, frac: Rat) -> bool {
    vstd::math::abs(implied.num * base.den - base.num * implied.den) * frac.den >= frac.num
        * base.num * implied.den
}

/// Whether the profitability filter keeps an opportunity: its hub pair
/// must have a base rate and the implied rate must deviate from it by at
/// least the threshold fraction of it.
pub open spec fn spec_keeps(o: Opportunity, rates: TradingCurrencyRates, frac: Rat) -> bool {
    match base_rate_for(rates, o.hub_one, o.hub_two) {
        Some(base) => spec_profitable(o.implied_rate@, base@, frac),
        None => false,
    }
}

/// Decides whether one opportunity clears the profitability threshold:
/// true iff the route's hub pair has a direct base rate and the implied
/// rate deviates from it, in absolute value, by at least
/// `min_profit_frac` times the base rate. The threshold is relative so
/// that hub pairs of very different magnitudes are judged alike.
pub fn eval_profit(
    opportunity: &Opportunity,
    ratios: &TradingCurrencyRates,
    min_profit_frac: Ratio,
) -> (keep: bool)
    ensures
        keep == spec_keeps(*opportunity, *ratios, min_profit_frac@),
{
    let base = if opportunity.hub_one == TradingCurrencyType::Divine && opportunity.hub_two
        == TradingCurrencyType::Exalt {
        Some(ratios.div_to_exalt)
    } else if opportunity.hub_one == TradingCurrencyType::Chaos && opportunity.hub_two
        == TradingCurrencyType::Exalt {
        Some(ratios.chaos_to_exalt)
    } else if opportunity.hub_one == TradingCurrencyType::Divine && opportunity.hub_two
        == TradingCurrencyType::Chaos {
        Some(ratios.div_to_chaos)
    } else {
        None
    };
    if let Some(base) = base {
        let i_num = opportunity.implied_rate.num as u128;
        let i_den = opportunity.implied_rate.den as u128;
        proof {
            assert((opportunity.implied_rate.num as int) * (base.den as int) <= (u64::MAX as int)
                * (u32::MAX as int) && (base.num as int) * (opportunity.implied_rate.den as int)
                <= (u64::MAX as int) * (u32::MAX as int) && (u64::MAX as int) * (u32::MAX as int)
                <= u128::MAX) by (nonlinear_arith)
                requires
                    opportunity.implied_rate.num <= u64::MAX,
                    opportunity.implied_rate.den <= u64::MAX,
                    base.num <= u32::MAX,
                    base.den <= u32::MAX,
            ;
        }
        let a1 = i_num * (base.den as u128);
        let a2 = (base.num as u128) * i_den;
        let deviation = if a1 >= a2 {
            a1 - a2
        } else {
            a2 - a1
        };
        proof {
            assert(deviation * (min_profit_frac.den as int) <= u128::MAX) by (nonlinear_arith)
                requires
                    0 <= deviation <= (u64::MAX as int) * (u32::MAX as int),
                    min_profit_frac.den <= u32::MAX,
            ;
            assert((min_profit_frac.num as int) * (base.num as int) <= (u32::MAX as int) * (
            u32::MAX as int)) by (nonlinear_arith)
                requires
                    min_profit_frac.num <= u32::MAX,
                    base.num <= u32::MAX,
            ;
            assert(deviation == vstd::math::abs(
                (opportunity.implied_rate.num as int) * (base.den as int) - (base.num as int) * (
                opportunity.implied_rate.den as int),
            ));
        }
        let lhs = deviation * (min_profit_frac.den as u128);
        let frac_times_base = (min_profit_frac.num as u128) * (base.num as u128);
        proof {
            assert(frac_times_base * (opportunity.implied_rate.den as int) <= u128::MAX)
                by (nonlinear_arith)
                requires
                    0 <= frac_times_base <= (u32::MAX as int) * (u32::MAX as int),
                    opportunity.implied_rate.den <= u64::MAX,
            ;
        }
        let rhs = frac_times_base * i_den;
        lhs >= rhs
    } else {
        false
    }
}

/// The subsequence of opportunities that clear the profitability
/// threshold, in their original order.
pub open spec fn filter_profitable_spec(
    s: Seq<Opportunity>,
    rates: TradingCurrencyRates,
    frac: Rat,
) -> Seq<Opportunity>
    decreases s.len(),
{
    if s.len() == 0 {
        Seq::empty()
    } else {
        let rest = filter_profitable_spec(s.drop_last(), rates, frac);
        if spec_keeps(s.last(), rates, frac) {
            rest.push(s.last())
        } else {
            rest
        }
    }
}

/// Keeps exactly the opportunities whose implied rate deviates from the
/// applicable direct base rate by at least `min_profit_frac` times that
/// base rate, preserving their order.
pub fn filter_profitable(
    opportunities: &[Opportunity],
    rates: &TradingCurrencyRates,
    min_profit_frac: Ratio,
) -> (res: Vec<Opportunity>)
    ensures
        res@ == filter_profitable_spec(opportunities@, *rates, min_profit_frac@),
{
    let mut res: Vec<Opportunity> = Vec::new();
    let n = opportunities.len();
    let mut i: usize = 0;
    proof {
        assert(opportunities@.take(0) =~= Seq::<Opportunity>::empty());
    }
    while i < n
        invariant
            i <= n,
            n == opportunities@.len(),
            res@ == filter_profitable_spec(
                opportunities@.take(i as int),
                *rates,
                min_profit_frac@,
            ),
        decreases n - i,
    {
        let opportunity = &opportunities[i];
        if eval_profit(opportunity, rates, min_profit_frac) {
            res.push(*opportunity);
        }
        proof {
            assert(opportunities@.take(i as int + 1).drop_last() =~= opportunities@.take(i as int));
            assert(opportunities@.take(i as int + 1).last() == opportunities@[i as int]);
        }
        i += 1;
    }
    proof {
        assert(opportunities@.take(n as int) =~= opportunities@);
    }
    res
}

/// The subsequence of quotes that may feed the hub-bridge index: valid
/// bridge quotes whose volume meets the threshold, in their original
/// order.
pub open spec fn bridge_filter(rs: Seq<ExchangeRecord>, min_volume: u64) -> Seq<ExchangeRecord>
    decreases rs.len(),
{
    if rs.len() == 0 {
        Seq::empty()
    } else {
        let rest = bridge_filter(rs.drop_last(), min_volume);
        if rs.last().volume >= min_volume && rs.last().spec_is_valid_bridge() {
            rest.push(rs.last())
        } else {
            rest
        }
    }
}

/// Keeps exactly the valid bridge quotes whose volume meets the
/// threshold, preserving their order.
pub fn filter_bridge_quotes(records: &[ExchangeRecord], min_volume: u64) -> (res: Vec<
    ExchangeRecord,
>)
    ensures
        res@ == bridge_filter(records@, min_volume),
{
    let mut res: Vec<ExchangeRecord> = Vec::new();
    let n = records.len();
    let mut i: usize = 0;
    proof {
        assert(records@.take(0) =~= Seq::<ExchangeRecord>::empty());
    }
    while i < n
        invariant
            i <= n,
            n == records@.len(),
            res@ == bridge_filter(records@.take(i as int), min_volume),
        decreases n - i,
    {
        let record = &records[i];
        if record.volume >= min_volume && record.is_valid_bridge() {
            res.push(record.clone());
        }
        proof {
            assert(records@.take(i as int + 1).drop_last() =~= records@.take(i as int));
            assert(records@.take(i as int + 1).last() == records@[i as int]);
        }
        i += 1;
    }
    proof {
        assert(records@.take(n as int) =~= records@);
    }
    res
}

/// Ranks opportunities for one hub of interest: sorts the whole list by
/// descending implied rate (stably), keeps those departing from
/// `currency`, and returns at most the first `num_items` of them.
/// Requires every implied rate to be well-formed: rejecting meaningless
/// rates is the earlier stages' job, not the sort's.
pub fn get_top_items(
    all_items: &[Opportunity],
    currency: &TradingCurrencyType,
    num_items: usize,
) -> (res: Vec<Opportunity>)
    requires
        all_wf(all_items@),
    ensures
        res@ == rank_spec(all_items@, *currency, num_items as int),
{
    let sorted = sort_by_rate_desc(all_items);
    let mut filtered: Vec<Opportunity> = Vec::new();
    let m = sorted.len();
    let mut j: usize = 0;
    proof {
        assert(sorted@.take(0) =~= Seq::<Opportunity>::empty());
    }
    while j < m
        invariant
            j <= m,
            m == sorted@.len(),
            filtered@ == filter_hub(sorted@.take(j as int), *currency),
        decreases m - j,
    {
        let candidate = sorted[j];
        if candidate.hub_one == *currency {
            filtered.push(candidate);
        }
        proof {
            assert(sorted@.take(j as int + 1).drop_last() =~= sorted@.take(j as int));
            assert(sorted@.take(j as int + 1).last() == sorted@[j as int]);
        }
        j += 1;
    }
    proof {
        assert(sorted@.take(m as int) =~= sorted@);
    }
    if filtered.len() > num_items {
        filtered.truncate(num_items);
        proof {
            assert(filtered@ =~= filter_hub(sort_desc(all_items@), *currency).take(
                num_items as int,
            ));
        }
    }
    filtered
}

/// Every quote the bridge filter keeps is a quote of the batch, is a
/// valid bridge quote, and meets the volume threshold.
pub proof fn lemma_bridge_filter_elems(rs: Seq<ExchangeRecord>, min_volume: u64)
    ensures
        forall|p: int|
            0 <= p < bridge_filter(rs, min_volume).len() ==> exists|k: int|
                0 <= k < rs.len() && (#[trigger] rs[k]) == (#[trigger] bridge_filter(
                    rs,
                    min_volume,
                )[p]) && rs[k].volume >= min_volume && rs[k].spec_is_valid_bridge(),
    decreases rs.len(),
{
    if rs.len() > 0 {
        lemma_bridge_filter_elems(rs.drop_last(), min_volume);
        let f = bridge_filter(rs, min_volume);
        let rest = bridge_filter(rs.drop_last(), min_volume);
        assert forall|p: int| 0 <= p < f.len() implies exists|k: int|
            0 <= k < rs.len() && (#[trigger] rs[k]) == (#[trigger] f[p]) && rs[k].volume
                >= min_volume && rs[k].spec_is_valid_bridge() by {
            if p < rest.len() {
                assert(f[p] == rest[p]);
                let k = choose|k: int|
                    0 <= k < rs.drop_last().len() && (#[trigger] rs.drop_last()[k]) == rest[p]
                        && rs.drop_last()[k].volume >= min_volume
                        && rs.drop_last()[k].spec_is_valid_bridge();
                assert(rs[k] == f[p]);
            } else {
                assert(f[p] == rs.last());
                assert(rs[rs.len() - 1] == f[p]);
            }
        }
    }
}

/// A quote whose volume is below the threshold never reaches the
/// hub-bridge index: every entry of the index built from the filtered
/// batch is witnessed by a valid bridge quote whose volume meets the
/// threshold.
pub proof fn lemma_low_volume_never_indexed(
    records: Seq<ExchangeRecord>,
    min_volume: u64,
    hub: TradingCurrencyType,
    bridge_id: u64,
)
    requires
        crate::index::records_fwd_map(bridge_filter(records, min_volume)).contains_key(
            (hub, bridge_id),
        ),
    ensures
        exists|i: int|
            0 <= i < records.len() && (#[trigger] records[i]).volume >= min_volume
                && records[i].spec_is_valid_bridge() && records[i].spec_hub() == hub
                && records[i].spec_bridge_id() == bridge_id,
{
    let filtered = bridge_filter(records, min_volume);
    crate::index::lemma_records_fwd_key(filtered, hub, bridge_id);
    lemma_bridge_filter_elems(records, min_volume);
    let p = choose|p: int|
        0 <= p < filtered.len() && crate::index::spec_indexable(#[trigger] filtered[p])
            && filtered[p].spec_hub() == hub && filtered[p].spec_bridge_id() == bridge_id;
    let k = choose|k: int|
        0 <= k < records.len() && (#[trigger] records[k]) == filtered[p] && records[k].volume
            >= min_volume && records[k].spec_is_valid_bridge();
    assert(records[k].spec_hub() == hub && records[k].spec_bridge_id() == bridge_id);
}

/// With a zero profitability threshold, every opportunity whose implied
/// rate differs at all from its base rate is kept.
pub proof fn lemma_zero_threshold_keeps_every_deviation(
    o: Opportunity,
    rates: TradingCurrencyRates,
    frac: Rat,
)
    requires
        frac.num == 0,
        frac.den > 0,
        o.implied_rate.wf(),
        base_rate_for(rates, o.hub_one, o.hub_two) matches Some(base) && base.wf() && !rat_eq(
            o.implied_rate@,
            base@,
        ),
    ensures
        spec_keeps(o, rates, frac),
{
    let base = base_rate_for(rates, o.hub_one, o.hub_two).unwrap();
    let deviation = vstd::math::abs(
        o.implied_rate@.num * base@.den - base@.num * o.implied_rate@.den,
    );
    assert(deviation * frac.den >= 0) by (nonlinear_arith)
        requires
            deviation >= 0,
            frac.den > 0,
    ;
    assert(frac.num * base@.num * o.implied_rate@.den == 0);
}

/// With a full (100%) profitability threshold, an opportunity whose
/// implied rate deviates from its base rate by less than the base rate
/// itself is dropped.
pub proof fn lemma_full_threshold_keeps_none(
    o: Opportunity,
    rates: TradingCurrencyRates,
    frac: Rat,
)
    requires
        frac.num == frac.den,
        frac.den > 0,
        o.implied_rate.wf(),
        base_rate_for(rates, o.hub_one, o.hub_two) matches Some(base) && base.wf()
            && vstd::math::abs(o.implied_rate@.num * base@.den - base@.num * o.implied_rate@.den)
            < base@.num * o.implied_rate@.den,
    ensures
        !spec_keeps(o, rates, frac),
{
    let base = base_rate_for(rates, o.hub_one, o.hub_two).unwrap();
    let deviation = vstd::math::abs(
        o.implied_rate@.num * base@.den - base@.num * o.implied_rate@.den,
    );
    assert(deviation * frac.den < frac.num * (base@.num * o.implied_rate@.den))
        by (nonlinear_arith)
        requires
            deviation < base@.num * o.implied_rate@.den,
            frac.den > 0,
            frac.num == frac.den,
    ;
    assert(frac.num * base@.num * o.implied_rate@.den == frac.num * (base@.num
        * o.implied_rate@.den)) by (nonlinear_arith);
}

/// Every element of the profitability filter's output is an element of
/// its input and clears the threshold; every input element that clears
/// the threshold is in the output; and nothing occurs in the output more
/// often than in the input.
pub proof fn lemma_filter_profitable_props(
    s: Seq<Opportunity>,
    rates: TradingCurrencyRates,
    frac: Rat,
)
    ensures
        forall|p: int|
            0 <= p < filter_profitable_spec(s, rates, frac).len() ==> s.contains(
                #[trigger] filter_profitable_spec(s, rates, frac)[p],
            ) && spec_keeps(filter_profitable_spec(s, rates, frac)[p], rates, frac),
        forall|k: int|
            0 <= k < s.len() && spec_keeps(#[trigger] s[k], rates, frac)
                ==> filter_profitable_spec(s, rates, frac).contains(s[k]),
        forall|e: Opportunity|
            #[trigger] count_of(filter_profitable_spec(s, rates, frac), e) <= count_of(s, e)
                && count_of(filter_profitable_spec(s, rates, frac), e) >= 0,
    decreases s.len(),
{
    if s.len() == 0 {
        assert(forall|e: Opportunity| count_of(Seq::<Opportunity>::empty(), e) == 0);
    } else {
        lemma_filter_profitable_props(s.drop_last(), rates, frac);
        let f = filter_profitable_spec(s, rates, frac);
        let rest = filter_profitable_spec(s.drop_last(), rates, frac);
        assert(forall|k: int| 0 <= k < s.drop_last().len() ==> (#[trigger] s.drop_last()[k])
            == s[k]);
        assert forall|p: int| 0 <= p < f.len() implies s.contains(#[trigger] f[p]) && spec_keeps(
            f[p],
            rates,
            frac,
        ) by {
            if p < rest.len() {
                assert(f[p] == rest[p]);
                let k = choose|k: int| 0 <= k < s.drop_last().len() && s.drop_last()[k] == rest[p];
                assert(s[k] == rest[p]);
            } else {
                assert(f[p] == s.last());
                assert(s[s.len() - 1] == s.last());
            }
        }
        assert forall|k: int|
            0 <= k < s.len() && spec_keeps(#[trigger] s[k], rates, frac) implies f.contains(
            s[k],
        ) by {
            if k < s.len() - 1 {
                assert(s.drop_last()[k] == s[k]);
                assert(rest.contains(s.drop_last()[k]));
                let p = choose|p: int| 0 <= p < rest.len() && rest[p] == s[k];
                assert(f[p] == s[k]);
            } else {
                assert(s[k] == s.last());
                assert(f[f.len() - 1] == s.last());
            }
        }
        assert forall|e: Opportunity|
            #[trigger] count_of(f, e) <= count_of(s, e) && count_of(f, e) >= 0 by {
            assert(count_of(rest, e) <= count_of(s.drop_last(), e) && count_of(rest, e) >= 0);
            if spec_keeps(s.last(), rates, frac) {
                assert(rest.push(s.last()).drop_last() =~= rest);
                assert(rest.push(s.last()).last() == s.last());
            }
        }
    }
}

/// Whether the route through bridge `b` from `h1` to `h2`, at the implied
/// rate the two maps give it, clears the profitability threshold.
pub open spec fn spec_route_kept(
    fwd: Map<(TradingCurrencyType, u64), Rat>,
    inv: Map<(u64, TradingCurrencyType), Rat>,
    rates: TradingCurrencyRates,
    frac: Rat,
    h1: TradingCurrencyType,
    b: u64,
    h2: TradingCurrencyType,
) -> bool {
    match base_rate_for(rates, h1, h2) {
        Some(base) => spec_profitable(rat_mul(fwd[(h1, b)], inv[(b, h2)]), base@, frac),
        None => false,
    }
}

/// One full refresh pass: extract the base rates from the whole batch,
/// index the valid bridge quotes that meet the volume threshold,
/// synthesize every two-hop opportunity, keep those clearing the
/// profitability threshold, and sort them by descending implied rate.
/// Fails exactly when the base rates are incomplete; an empty result then
/// means no route cleared the threshold (or the index was empty, which
/// [`crate::index::HubBridgeIndex::is_empty`] can tell apart upstream).
pub fn compute_opportunities(
    records: &[ExchangeRecord],
    min_volume: u64,
    min_profit_frac: Ratio,
) -> (r: Result<Vec<Opportunity>, IncompleteBaseRatesError>)
    ensures
        !spec_base_rates_complete(records@) ==> r == Err::<Vec<Opportunity>, _>(
            IncompleteBaseRatesError,
        ),
        spec_base_rates_complete(records@) ==> r is Ok,
        r matches Ok(v) ==> {
            let rates = spec_base_rates(records@);
            let fwd = crate::index::records_fwd_map(bridge_filter(records@, min_volume));
            let inv = crate::index::records_inv_map(bridge_filter(records@, min_volume));
            &&& sorted_desc(v@)
            &&& forall|i: int|
                0 <= i < v@.len() ==> opp_sound(fwd, inv, #[trigger] v@[i]) && spec_keeps(
                    v@[i],
                    rates,
                    min_profit_frac@,
                ) && v@[i].implied_rate.wf() && v@[i].implied_rate.num > 0
            &&& forall|h1: TradingCurrencyType, h2: TradingCurrencyType, b: u64|
                #![trigger fwd.contains_key((h1, b)), inv.contains_key((b, h2))]
                h1.is_hub() && h2.is_hub() && h1 != h2 && fwd.contains_key((h1, b))
                    && inv.contains_key((b, h2)) && spec_route_kept(
                    fwd,
                    inv,
                    rates,
                    min_profit_frac@,
                    h1,
                    b,
                    h2,
                ) ==> exists|i: int|
                    0 <= i < v@.len() && (#[trigger] v@[i]).route() == (h1, b, h2)
            &&& forall|i: int, j: int|
                0 <= i < j < v@.len() ==> (#[trigger] v@[i]).route() != (#[trigger] v@[j]).route()
        },
{
    let rates = match get_base_prices(records) {
        Ok(rates) => rates,
        Err(e) => {
            return Err(e);
        },
    };
    let filtered = filter_bridge_quotes(records, min_volume);
    let idx = build_hub_bridge_maps(filtered.as_slice());
    let opportunities = build_bridges(&idx);
    let kept = filter_profitable(opportunities.as_slice(), &rates, min_profit_frac);
    proof {
        lemma_filter_profitable_props(opportunities@, rates, min_profit_frac@);
        assert(all_wf(kept@)) by {
            assert forall|p: int| 0 <= p < kept@.len() implies (
            #[trigger] kept@[p]).implied_rate.wf() by {
                let k = choose|k: int|
                    0 <= k < opportunities@.len() && opportunities@[k] == kept@[p];
            }
        }
    }
    let ranked = sort_by_rate_desc(kept.as_slice());
    proof {
        let fwd = crate::index::records_fwd_map(bridge_filter(records@, min_volume));
        let inv = crate::index::records_inv_map(bridge_filter(records@, min_volume));
        lemma_sort_desc_sorted(kept@);
        assert forall|i: int| 0 <= i < ranked@.len() implies opp_sound(
            fwd,
            inv,
            #[trigger] ranked@[i],
        ) && spec_keeps(ranked@[i], rates, min_profit_frac@) && ranked@[i].implied_rate.wf()
            && ranked@[i].implied_rate.num > 0 by {
            let p = choose|p: int| 0 <= p < kept@.len() && kept@[p] == ranked@[i];
            let k = choose|k: int| 0 <= k < opportunities@.len() && opportunities@[k] == kept@[p];
        }
        assert forall|h1: TradingCurrencyType, h2: TradingCurrencyType, b: u64|
            h1.is_hub() && h2.is_hub() && h1 != h2 && fwd.contains_key((h1, b))
                && inv.contains_key((b, h2)) && spec_route_kept(
                fwd,
                inv,
                rates,
                min_profit_frac@,
                h1,
                b,
                h2,
            ) implies exists|i: int|
            0 <= i < ranked@.len() && (#[trigger] ranked@[i]).route() == (h1, b, h2) by {
            let k = choose|k: int|
                0 <= k < opportunities@.len() && (#[trigger] opportunities@[k]).route() == (
                h1,
                b,
                h2,
            );
            let e = opportunities@[k];
            assert(spec_keeps(e, rates, min_profit_frac@));
            assert(kept@.contains(e));
            let p = choose|p: int| 0 <= p < kept@.len() && kept@[p] == e;
            lemma_count_at_least_one(kept@, e, p);
            lemma_sort_desc_count(kept@, e);
            lemma_count_pos_exists(ranked@, e);
            let i = choose|i: int| 0 <= i < ranked@.len() && (#[trigger] ranked@[i]) == e;
            assert(ranked@[i].route() == (h1, b, h2));
        }
        assert forall|i: int, j: int| 0 <= i < j < ranked@.len() implies (
        #[trigger] ranked@[i]).route() != (#[trigger] ranked@[j]).route() by {
            if ranked@[i].route() == ranked@[j].route() {
                assert(ranked@[i] == ranked@[j]);
                let e = ranked@[i];
                lemma_count_at_least_two(ranked@, e, i, j);
                lemma_sort_desc_count(kept@, e);
                assert(forall|p: int, q: int|
                    0 <= p < q < opportunities@.len() ==> (#[trigger] opportunities@[p]) != (
                    #[trigger] opportunities@[q]));
                lemma_count_of_distinct(opportunities@, e);
            }
        }
    }
    Ok(ranked)
}

/// Sorts opportunities by descending implied rate with a stable insertion
/// sort.
fn sort_by_rate_desc(items: &[Opportunity]) -> (res: Vec<Opportunity>)
    requires
        all_wf(items@),
    ensures
        res@ == sort_desc(items@),
{
    let n = items.len();
    let mut sorted: Vec<Opportunity> = Vec::new();
    let mut i: usize = 0;
    proof {
        assert(items@.take(0) =~= Seq::<Opportunity>::empty());
    }
    while i < n
        invariant
            i <= n,
            n == items@.len(),
            all_wf(items@),
            sorted@ == sort_desc(items@.take(i as int)),
        decreases n - i,
    {
        let x = items[i];
        proof {
            assert(all_wf(items@.take(i as int))) by {
                assert(forall|k: int|
                    0 <= k < i ==> (#[trigger] items@.take(i as int)[k]) == items@[k]);
            }
            lemma_sort_desc_sorted(items@.take(i as int));
        }
        let slen = sorted.len();
        let mut pos: usize = 0;
        while pos < slen && cross_ge(&sorted[pos].implied_rate, &x.implied_rate)
            invariant
                pos <= slen,
                slen == sorted@.len(),
                forall|k: int| 0 <= k < pos ==> opp_ge(#[trigger] sorted@[k], x),
            decreases slen - pos,
        {
            pos += 1;
        }
        proof {
            assert forall|k: int| pos <= k < sorted@.len() implies !opp_ge(
                #[trigger] sorted@[k],
                x,
            ) by {
                if k > pos && opp_ge(sorted@[k], x) {
                    lemma_rat_ge_trans(
                        sorted@[pos as int].implied_rate@,
                        sorted@[k].implied_rate@,
                        x.implied_rate@,
                    );
                }
            }
            lemma_insert_desc_at(sorted@, x, pos as int);
            assert(items@.take(i as int + 1).drop_last() =~= items@.take(i as int));
            assert(items@.take(i as int + 1).last() == items@[i as int]);
        }
        sorted.insert(pos, x);
        i += 1;
    }
    proof {
        assert(items@.take(n as int) =~= items@);
    }
    sorted
}

} // verus!
