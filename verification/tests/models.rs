use flip_finder::models::{ExchangeRecord, TradingCurrencyId};

#[test]
fn models_test_parse_exalt() {
    let orb = TradingCurrencyId::from_str("Exalted Orb");
    assert_eq!(orb.unwrap(), TradingCurrencyId::Exalt)
}

#[test]
fn models_test_parse_divine() {
    let orb = TradingCurrencyId::from_str("Divine Orb");
    assert_eq!(orb.unwrap(), TradingCurrencyId::Divine)
}

#[test]
fn models_test_parse_chaos() {
    let orb = TradingCurrencyId::from_str("Chaos Orb");
    assert_eq!(orb.unwrap(), TradingCurrencyId::Chaos)
}

#[test]
fn models_test_parse_other() {
    let orb = TradingCurrencyId::from_str("Vaal Orb");
    assert_eq!(orb.unwrap(), TradingCurrencyId::Other)
}

#[test]
fn models_test_is_valid_curr1_curr2_other() {
    let mut exchange = ExchangeRecord::default();
    exchange.currency_one.text = "Exalted Orb".to_string();
    exchange.currency_two.text = "Vaal Orb".to_string();
    assert!(exchange.is_valid())
}

#[test]
fn models_test_is_valid_curr1_other_curr2() {
    let mut exchange = ExchangeRecord::default();
    exchange.currency_two.text = "Exalted Orb".to_string();
    exchange.currency_one.text = "Vaal Orb".to_string();
    assert!(exchange.is_valid())
}

#[test]
fn models_test_is_valid_curr1_curr2() {
    let mut exchange = ExchangeRecord::default();
    exchange.currency_two.text = "Exalted Orb".to_string();
    exchange.currency_one.text = "Divine Orb".to_string();
    assert!(!exchange.is_valid())
}

#[test]
fn models_test_is_valid_curr1_other_curr2_other() {
    let mut exchange = ExchangeRecord::default();
    exchange.currency_two.text = "Orb of Transmutation".to_string();
    exchange.currency_one.text = "Vaal Orb".to_string();
    assert!(!exchange.is_valid())
}
