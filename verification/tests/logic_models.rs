use flip_finder::models::logic_models::TradingCurrencyType;

#[test]
fn logic_models_test_parse_exalt() {
    let orb = TradingCurrencyType::from_str("Exalted Orb");
    assert_eq!(orb.unwrap(), TradingCurrencyType::Exalt)
}

#[test]
fn logic_models_test_parse_divine() {
    let orb = TradingCurrencyType::from_str("Divine Orb");
    assert_eq!(orb.unwrap(), TradingCurrencyType::Divine)
}

#[test]
fn logic_models_test_parse_chaos() {
    let orb = TradingCurrencyType::from_str("Chaos Orb");
    assert_eq!(orb.unwrap(), TradingCurrencyType::Chaos)
}

#[test]
fn logic_models_test_parse_other() {
    let orb = TradingCurrencyType::from_str("Vaal Orb");
    assert_eq!(orb.unwrap(), TradingCurrencyType::Other)
}
