use suez::utils::{parse_decimal, Config, ParseDecimalError};

#[test]
fn it_parses_plain_decimals() {
    assert_eq!(parse_decimal("12.34", 2, true), Ok(1234));
    assert_eq!(parse_decimal("1.5", 2, true), Ok(150));
    assert_eq!(parse_decimal("0.00", 2, true), Ok(0));
    assert_eq!(parse_decimal("7", 3, true), Ok(7000));
    assert_eq!(parse_decimal("+3.4", 1, true), Ok(34));
    assert_eq!(parse_decimal("2.", 2, true), Ok(200));
}

#[test]
fn it_truncates_excess_precision_only_when_allowed() {
    assert_eq!(parse_decimal("1.29", 1, true), Ok(12));
    assert_eq!(parse_decimal("1.29", 1, false), Err(ParseDecimalError::PrecisionTooHigh));
    assert_eq!(parse_decimal("1.2", 1, false), Ok(12));
}

#[test]
fn it_rejects_malformed_decimals() {
    assert_eq!(parse_decimal("", 2, true), Err(ParseDecimalError::BadIntegerPart));
    assert_eq!(parse_decimal(".5", 2, true), Err(ParseDecimalError::BadIntegerPart));
    assert_eq!(parse_decimal("a", 2, true), Err(ParseDecimalError::BadIntegerPart));
    assert_eq!(parse_decimal("-1", 2, true), Err(ParseDecimalError::BadIntegerPart));
    assert_eq!(parse_decimal("1.x", 2, true), Err(ParseDecimalError::BadDecimalPart));
    assert_eq!(parse_decimal("1.2.3", 2, true), Err(ParseDecimalError::ExtraDecimalPoint));
    assert_eq!(parse_decimal("1..2", 2, true), Err(ParseDecimalError::ExtraDecimalPoint));
}

#[test]
fn it_hardcodes_the_development_registry() {
    let config = Config::hardcoded();
    assert_eq!(config.markets.len(), 1);
    assert_eq!(config.markets[0].id, 1);
    assert_eq!(config.markets[0].name, "BTCUSD");
    assert_eq!(config.markets[0].base_asset_id, 1);
    assert_eq!(config.markets[0].quote_asset_id, 2);
    assert_eq!(config.assets.len(), 2);
    assert_eq!(config.assets[0].name, "BTC");
    assert_eq!(config.assets[0].precision, 8);
    assert_eq!(config.assets[1].name, "USD");
    assert_eq!(config.assets[1].precision, 5);
}
