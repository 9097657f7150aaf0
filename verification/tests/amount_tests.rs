use bankledger::ledger::{parse_amount, LedgerError};

#[test]
fn parse_amount_accepts_digit_strings() {
    assert_eq!(parse_amount("0"), Ok(0));
    assert_eq!(parse_amount("100"), Ok(100));
    assert_eq!(parse_amount("007"), Ok(7));
    assert_eq!(parse_amount("18446744073709551615"), Ok(u64::MAX));
}

#[test]
fn parse_amount_rejects_malformed_strings() {
    assert_eq!(parse_amount(""), Err(LedgerError::InvalidFormat));
    assert_eq!(parse_amount("12x"), Err(LedgerError::InvalidFormat));
    assert_eq!(parse_amount("-5"), Err(LedgerError::InvalidFormat));
    assert_eq!(parse_amount(" 5"), Err(LedgerError::InvalidFormat));
}

#[test]
fn parse_amount_rejects_overflowing_values() {
    assert_eq!(
        parse_amount("18446744073709551616"),
        Err(LedgerError::InvalidFormat)
    );
    assert_eq!(
        parse_amount("99999999999999999999999"),
        Err(LedgerError::InvalidFormat)
    );
}
