use flip_finder::models::api_models::ExchangeRecord;

#[test]
fn api_models_test_is_valid_curr1_curr2_other() {
    let mut exchange = ExchangeRecord::default();
    exchange.currency_one.text = "Exalted Orb".to_string();
    exchange.currency_two.text = "Vaal Orb".to_string();
    assert!(exchange.is_valid_bridge())
}

#[test]
fn api_models_test_is_valid_curr1_other_curr2() {
    let mut exchange = ExchangeRecord::default();
    exchange.currency_two.text = "Exalted Orb".to_string();
    exchange.currency_one.text = "Vaal Orb".to_string();
    assert!(exchange.is_valid_bridge())
}

#[test]
fn api_models_test_is_valid_curr1_curr2() {
    let mut exchange = ExchangeRecord::default();
    exchange.currency_two.text = "Exalted Orb".to_string();
    exchange.currency_one.text = "Divine Orb".to_string();
    assert!(!exchange.is_valid_bridge())
}

#[test]
fn api_models_test_is_valid_curr1_other_curr2_other() {
    let mut exchange = ExchangeRecord::default();
    exchange.currency_two.text = "Orb of Transmutation".to_string();
    exchange.currency_one.text = "Vaal Orb".to_string();
    assert!(!exchange.is_valid_bridge())
}
