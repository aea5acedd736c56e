use flip_finder::index::build_hub_bridge_maps;
use flip_finder::logic::{
    build_bridges, compute_opportunities, eval_profit, filter_bridge_quotes, filter_profitable,
    get_base_prices, get_top_items, IncompleteBaseRatesError, Opportunity,
};
use flip_finder::models::api_models::{ExchangeRecord, PRICE_SCALE};
use flip_finder::models::logic_models::TradingCurrencyType;
use flip_finder::rational::{CrossRate, Ratio};

const SCALE: u64 = PRICE_SCALE as u64;

fn quote(
    text_one: &str,
    id_one: u64,
    price_one: u32,
    text_two: &str,
    id_two: u64,
    price_two: u32,
    volume: u64,
) -> ExchangeRecord {
    let mut record = ExchangeRecord::default();
    record.currency_one.text = text_one.to_string();
    record.currency_one.item_id = id_one;
    record.currency_one_data.relative_price = price_one;
    record.currency_two.text = text_two.to_string();
    record.currency_two.item_id = id_two;
    record.currency_two_data.relative_price = price_two;
    record.volume = volume;
    record
}

/// The worked example: Divine/Exalt at 400, Chaos/Exalt at 12, ItemX
/// bridging both at 100 divine-per-item and 3.5 item-per-chaos.
fn example_batch() -> Vec<ExchangeRecord> {
    vec![
        quote("Divine Orb", 1, 400 * PRICE_SCALE, "Exalted Orb", 3, PRICE_SCALE, 9000 * SCALE),
        quote("Chaos Orb", 2, 12 * PRICE_SCALE, "Exalted Orb", 3, PRICE_SCALE, 9000 * SCALE),
        quote("ItemX", 42, 10_000, "Divine Orb", 1, PRICE_SCALE, 5000 * SCALE),
        quote("ItemX", 42, 3_500_000, "Chaos Orb", 2, PRICE_SCALE, 5000 * SCALE),
    ]
}

#[test]
fn base_rates_of_example() {
    let rates = get_base_prices(&example_batch()).unwrap();
    assert_eq!(rates.div_to_exalt, Ratio { num: 400 * PRICE_SCALE, den: PRICE_SCALE });
    assert_eq!(rates.chaos_to_exalt, Ratio { num: 12 * PRICE_SCALE, den: PRICE_SCALE });
    // div_to_chaos == 400/12 == 33.33..., kept exactly as a ratio
    assert_eq!(rates.div_to_chaos, Ratio { num: 400 * PRICE_SCALE, den: 12 * PRICE_SCALE });
}

#[test]
fn base_rates_last_quote_wins() {
    let mut batch = example_batch();
    batch.push(quote(
        "Divine Orb",
        1,
        390 * PRICE_SCALE,
        "Exalted Orb",
        3,
        PRICE_SCALE,
        100 * SCALE,
    ));
    let rates = get_base_prices(&batch).unwrap();
    assert_eq!(rates.div_to_exalt, Ratio { num: 390 * PRICE_SCALE, den: PRICE_SCALE });
}

#[test]
fn base_rates_incomplete_without_chaos_quote() {
    let batch = vec![quote(
        "Divine Orb",
        1,
        400 * PRICE_SCALE,
        "Exalted Orb",
        3,
        PRICE_SCALE,
        9000 * SCALE,
    )];
    assert_eq!(get_base_prices(&batch), Err(IncompleteBaseRatesError));
}

#[test]
fn base_rates_incomplete_on_zero_price() {
    let mut batch = example_batch();
    batch.push(quote("Chaos Orb", 2, 0, "Exalted Orb", 3, PRICE_SCALE, 9000 * SCALE));
    assert_eq!(get_base_prices(&batch), Err(IncompleteBaseRatesError));
}

/// The example synthesizes Divine -> ItemX -> Chaos at an implied rate of
/// (1 / 0.01) * 3.5 == 350.
#[test]
fn example_synthesizes_implied_rate_350() {
    let batch = example_batch();
    let opportunities =
        compute_opportunities(&batch, 1000 * SCALE, Ratio { num: 0, den: 1 }).unwrap();
    let found: Vec<&Opportunity> = opportunities
        .iter()
        .filter(|o| {
            o.hub_one == TradingCurrencyType::Divine && o.hub_two == TradingCurrencyType::Chaos
        })
        .collect();
    assert_eq!(found.len(), 1);
    let opportunity = found[0];
    assert_eq!(opportunity.bridge_id, 42);
    // implied == 350 exactly, as a ratio
    assert_eq!(
        opportunity.implied_rate.num as u128,
        350 * opportunity.implied_rate.den as u128
    );
}

/// The implied rate is the quotient of the two forward rates, whatever
/// the numbers: rate(h1, b) * rate(b, h2) == rate(h1, b) / rate(h2, b).
#[test]
fn implied_rate_is_forward_quotient() {
    let batch = example_batch();
    let filtered = filter_bridge_quotes(&batch, 0);
    let index = build_hub_bridge_maps(&filtered);
    let f_div = index.forward_rate(TradingCurrencyType::Divine, 42).unwrap();
    let f_chaos = index.forward_rate(TradingCurrencyType::Chaos, 42).unwrap();
    let inv_chaos = index.inverse_rate(42, TradingCurrencyType::Chaos).unwrap();
    // f_div * inv_chaos == f_div / f_chaos, by cross-multiplication
    let lhs_num = f_div.num as u128 * inv_chaos.num as u128;
    let lhs_den = f_div.den as u128 * inv_chaos.den as u128;
    let rhs_num = f_div.num as u128 * f_chaos.den as u128;
    let rhs_den = f_div.den as u128 * f_chaos.num as u128;
    assert_eq!(lhs_num * rhs_den, rhs_num * lhs_den);
}

/// Forward and inverse entries of one bridge multiply to exactly one.
#[test]
fn forward_times_inverse_is_one() {
    let batch = example_batch();
    let filtered = filter_bridge_quotes(&batch, 0);
    let index = build_hub_bridge_maps(&filtered);
    for hub in [TradingCurrencyType::Divine, TradingCurrencyType::Chaos] {
        let forward = index.forward_rate(hub, 42).unwrap();
        let inverse = index.inverse_rate(42, hub).unwrap();
        assert_eq!(
            forward.num as u64 * inverse.num as u64,
            forward.den as u64 * inverse.den as u64
        );
    }
}

/// Every synthesized opportunity carries a positive implied rate.
#[test]
fn synthesized_rates_are_positive() {
    let batch = example_batch();
    let filtered = filter_bridge_quotes(&batch, 0);
    let index = build_hub_bridge_maps(&filtered);
    let opportunities = build_bridges(&index);
    assert!(!opportunities.is_empty());
    for o in &opportunities {
        assert!(o.implied_rate.num > 0);
        assert!(o.implied_rate.den > 0);
    }
}

/// A quote at exactly the volume threshold is indexed; one a tick below
/// is not.
#[test]
fn volume_threshold_is_inclusive() {
    let threshold = 1000 * SCALE;
    let batch = vec![
        quote("AtLimit", 7, 2_000_000, "Divine Orb", 1, PRICE_SCALE, threshold),
        quote("Below", 8, 2_000_000, "Divine Orb", 1, PRICE_SCALE, threshold - 1),
    ];
    let filtered = filter_bridge_quotes(&batch, threshold);
    let index = build_hub_bridge_maps(&filtered);
    assert!(index.forward_rate(TradingCurrencyType::Divine, 7).is_some());
    assert!(index.forward_rate(TradingCurrencyType::Divine, 8).is_none());
    assert!(index.inverse_rate(7, TradingCurrencyType::Divine).is_some());
    assert!(index.inverse_rate(8, TradingCurrencyType::Divine).is_none());
}

/// A hub-to-hub quote never reaches the hub-bridge index.
#[test]
fn hub_pairs_never_indexed() {
    let batch = example_batch();
    let filtered = filter_bridge_quotes(&batch, 0);
    let index = build_hub_bridge_maps(&filtered);
    // the Divine/Exalt and Chaos/Exalt quotes leave no trace under any
    // hub or item id they mention
    for hub in [
        TradingCurrencyType::Divine,
        TradingCurrencyType::Chaos,
        TradingCurrencyType::Exalt,
    ] {
        assert!(index.forward_rate(hub, 1).is_none());
        assert!(index.forward_rate(hub, 2).is_none());
        assert!(index.forward_rate(hub, 3).is_none());
    }
    assert_eq!(index.len(), 2);
}

/// On duplicate (hub, bridge) keys the last quote of the batch wins.
#[test]
fn duplicate_keys_take_last_quote() {
    let mut batch = example_batch();
    batch.push(quote("ItemX", 42, 20_000, "Divine Orb", 1, PRICE_SCALE, 5000 * SCALE));
    let filtered = filter_bridge_quotes(&batch, 0);
    let index = build_hub_bridge_maps(&filtered);
    let forward = index.forward_rate(TradingCurrencyType::Divine, 42).unwrap();
    assert_eq!(forward, Ratio { num: PRICE_SCALE, den: 20_000 });
}

/// A zero-priced quote is rejected before any rate is formed.
#[test]
fn zero_priced_quotes_never_indexed() {
    let batch = vec![quote("Worthless", 9, 0, "Divine Orb", 1, PRICE_SCALE, 5000 * SCALE)];
    let filtered = filter_bridge_quotes(&batch, 0);
    let index = build_hub_bridge_maps(&filtered);
    assert!(index.is_empty());
}

/// With a zero threshold, any deviation at all is kept.
#[test]
fn zero_threshold_keeps_deviations() {
    let rates = get_base_prices(&example_batch()).unwrap();
    let opportunity = Opportunity {
        hub_one: TradingCurrencyType::Divine,
        bridge_id: 42,
        hub_two: TradingCurrencyType::Chaos,
        implied_rate: CrossRate { num: 350, den: 1 },
    };
    assert!(eval_profit(&opportunity, &rates, Ratio { num: 0, den: 1 }));
}

/// With a 100% threshold, a deviation smaller than the base rate itself
/// is dropped.
#[test]
fn full_threshold_drops_small_deviations() {
    let rates = get_base_prices(&example_batch()).unwrap();
    // implied 30 vs base 400/12 = 33.33: deviation 3.33 is far below the
    // base rate, so a 100% margin drops it
    let close = Opportunity {
        hub_one: TradingCurrencyType::Divine,
        bridge_id: 42,
        hub_two: TradingCurrencyType::Chaos,
        implied_rate: CrossRate { num: 30, den: 1 },
    };
    assert!(!eval_profit(&close, &rates, Ratio { num: 1, den: 1 }));
    // implied 350 deviates by far more than the base rate, so even a
    // 100% margin keeps it
    let far = Opportunity {
        hub_one: TradingCurrencyType::Divine,
        bridge_id: 42,
        hub_two: TradingCurrencyType::Chaos,
        implied_rate: CrossRate { num: 350, den: 1 },
    };
    assert!(eval_profit(&far, &rates, Ratio { num: 1, den: 1 }));
}

/// A route between hubs without a direct base rate is never kept.
#[test]
fn routes_without_base_rate_are_dropped() {
    let rates = get_base_prices(&example_batch()).unwrap();
    let backwards = Opportunity {
        hub_one: TradingCurrencyType::Exalt,
        bridge_id: 42,
        hub_two: TradingCurrencyType::Divine,
        implied_rate: CrossRate { num: 350, den: 1 },
    };
    assert!(!eval_profit(&backwards, &rates, Ratio { num: 0, den: 1 }));
}

/// The profitability filter keeps order and drops exactly the failures.
#[test]
fn filter_profitable_keeps_qualifying_routes() {
    let rates = get_base_prices(&example_batch()).unwrap();
    let keep = Opportunity {
        hub_one: TradingCurrencyType::Divine,
        bridge_id: 42,
        hub_two: TradingCurrencyType::Chaos,
        implied_rate: CrossRate { num: 350, den: 1 },
    };
    let drop = Opportunity {
        hub_one: TradingCurrencyType::Exalt,
        bridge_id: 42,
        hub_two: TradingCurrencyType::Divine,
        implied_rate: CrossRate { num: 350, den: 1 },
    };
    let kept = filter_profitable(&[drop, keep, drop], &rates, Ratio { num: 0, den: 1 });
    assert_eq!(kept, vec![keep]);
}

fn opportunity_at(num: u64, den: u64, bridge_id: u64) -> Opportunity {
    Opportunity {
        hub_one: TradingCurrencyType::Divine,
        bridge_id,
        hub_two: TradingCurrencyType::Chaos,
        implied_rate: CrossRate { num, den },
    }
}

/// Ranking sorts by descending implied rate, filters by hub, truncates.
#[test]
fn ranking_sorts_and_truncates() {
    let all = vec![
        opportunity_at(10, 1, 1),
        opportunity_at(700, 2, 2),  // 350
        opportunity_at(40, 1, 3),
    ];
    let top = get_top_items(&all, &TradingCurrencyType::Divine, 2);
    assert_eq!(top.len(), 2);
    assert_eq!(top[0].bridge_id, 2);
    assert_eq!(top[1].bridge_id, 3);
    let none = get_top_items(&all, &TradingCurrencyType::Chaos, 2);
    assert!(none.is_empty());
}

/// Asking for more items than exist returns them all; an empty batch
/// yields no base rates at all.
#[test]
fn ranking_beyond_the_list_and_empty_batches() {
    let all = vec![opportunity_at(10, 1, 1), opportunity_at(40, 1, 3)];
    let top = get_top_items(&all, &TradingCurrencyType::Divine, 100);
    assert_eq!(top.len(), 2);
    assert_eq!(get_base_prices(&[]), Err(IncompleteBaseRatesError));
}

/// Ranking a ranked, truncated list again returns it unchanged.
#[test]
fn ranking_is_idempotent() {
    let all = vec![
        opportunity_at(10, 1, 1),
        opportunity_at(700, 2, 2),
        opportunity_at(40, 1, 3),
        opportunity_at(40, 1, 4),  // tied with bridge 3; stable order kept
    ];
    let once = get_top_items(&all, &TradingCurrencyType::Divine, 3);
    let twice = get_top_items(&once, &TradingCurrencyType::Divine, 3);
    assert_eq!(twice, once);
    assert_eq!(once[1].bridge_id, 3);
    assert_eq!(once[2].bridge_id, 4);
}

/// The whole pass: filter, index, synthesize, keep profitable, sort.
#[test]
fn compute_opportunities_runs_whole_pass() {
    let batch = example_batch();
    let result = compute_opportunities(&batch, 1000 * SCALE, Ratio { num: 50_000, den: PRICE_SCALE })
        .unwrap();
    // of the two synthesized routes over ItemX only Divine -> Chaos has a
    // comparable base rate, and at a 5% margin it clears it
    assert_eq!(result.len(), 1);
    assert_eq!(result[0].hub_one, TradingCurrencyType::Divine);
    assert_eq!(result[0].hub_two, TradingCurrencyType::Chaos);
    let incomplete = compute_opportunities(
        &batch[2..],
        1000 * SCALE,
        Ratio { num: 50_000, den: PRICE_SCALE },
    );
    assert_eq!(incomplete, Err(IncompleteBaseRatesError));
}
