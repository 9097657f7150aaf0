use bankledger::luhn::{get_check_digit, AccountNumber};

#[test]
fn valid_account_numbers_in_different_lengths() {
    let accounts = [
        AccountNumber::from_str("35001576202"),
        AccountNumber::from_str("8536276945"),
        AccountNumber::from_str("20024"),
        AccountNumber::from_str("26"),
    ];

    for account in accounts {
        assert!(account.is_ok());
    }
}

#[test]
fn valid_account_numbers_fixed_length() {
    let valid_account_numbers = [
        "2334841596",
        "5072686164",
        "8330789085",
        "2303133926",
        "7730632457",
        "1310866767",
        "9083062142",
        "8936042657",
        "3188178648",
        "1513312791",
        "0204434294",
    ];
    for v in valid_account_numbers {
        let account = AccountNumber::from_str(v);
        assert!(account.is_ok())
    }
}

#[test]
fn invalid_account_numbers_fixed_length() {
    let invalid_account_numbers = [
        "2334841592",
        "5072686163",
        "8330789084",
        "2303133925",
        "7730632456",
        "1310866766",
        "9083062141",
        "8936042656",
        "3188178647",
        "1513312790",
        "0204434293",
    ];
    for v in invalid_account_numbers {
        let account = AccountNumber::from_str(v);
        assert!(account.is_err());
    }
}

#[test]
fn check_digit_of_known_payload() {
    let payload = [3u8, 5, 0, 0, 1, 5, 7, 6, 2, 0];
    assert_eq!(get_check_digit(&payload), 2);
    assert!(AccountNumber::from_str("35001576202").is_ok());
}

#[test]
fn empty_payload_check_digit_is_zero() {
    let payload: [u8; 0] = [];
    assert_eq!(get_check_digit(&payload), 0);
}

#[test]
fn parse_single_digit_strings() {
    assert!(AccountNumber::from_str("0").is_ok());
    assert!(AccountNumber::from_str("1").is_err());
}

#[test]
fn parse_rejects_non_digits_and_empty() {
    assert!(AccountNumber::from_str("").is_err());
    assert!(AccountNumber::from_str("12a4").is_err());
    assert!(AccountNumber::from_str(" 26").is_err());
}

#[test]
fn single_digit_flips_are_detected() {
    let valid = "35001576202";
    for pos in 0..valid.len() {
        for replacement in b'0'..=b'9' {
            let mut bytes = valid.as_bytes().to_vec();
            if bytes[pos] == replacement {
                continue;
            }
            bytes[pos] = replacement;
            let mutated = String::from_utf8(bytes).unwrap();
            assert!(
                AccountNumber::from_str(&mutated).is_err(),
                "flip at {pos} to {replacement} was not detected"
            );
        }
    }
}

#[test]
fn generated_numbers_round_trip() {
    for length in 2..=16 {
        let account = AccountNumber::new(length);
        let rendered = account.human_readable();
        assert_eq!(rendered.len(), length);
        assert!(rendered.chars().all(|c| c.is_ascii_digit()));
        let reparsed = AccountNumber::from_str(&rendered);
        assert!(reparsed.is_ok());
        assert_eq!(reparsed.unwrap().human_readable(), rendered);
    }
}

#[test]
fn recomputed_check_digit_matches_rendering() {
    let account = AccountNumber::from_str("8536276945").unwrap();
    assert_eq!(account.check_digit(), 5);
    assert_eq!(account.human_readable(), "8536276945");
}

#[test]
fn default_account_number_is_ten_digits() {
    let account = AccountNumber::default();
    let rendered = account.human_readable();
    assert_eq!(rendered.len(), 10);
    assert!(AccountNumber::from_str(&rendered).is_ok());
}
