use bankledger::ledger::{Ledger, LedgerError};
use bankledger::luhn::AccountNumber;

fn open_account(ledger: &mut Ledger, balance: u64) -> (u64, String, String) {
    let number = AccountNumber::new(10);
    let rendered = number.human_readable();
    let id = ledger.create_account(&number, balance).unwrap();
    let pin = ledger.fetch_account(&rendered).unwrap().pin.clone();
    (id, rendered, pin)
}

fn wrong_pin(pin: &str) -> String {
    let replacement = if pin.starts_with('0') { "1" } else { "0" };
    let mut s = String::from(replacement);
    s.push_str(&pin[1..]);
    s
}

#[test]
fn created_account_is_correct_fetched_from_db() {
    let mut ledger = Ledger::new();
    let number = AccountNumber::new(10);
    let id = ledger.create_account(&number, 0).unwrap();
    let fetched = ledger.fetch_account(&number.human_readable()).unwrap();
    assert_eq!(id, fetched.id);
}

#[test]
fn created_accounts_get_consecutive_ids() {
    let mut ledger = Ledger::new();
    for expected in 1u64..=5 {
        let (id, _, _) = open_account(&mut ledger, 0);
        assert_eq!(id, expected);
    }
}

#[test]
fn created_account_has_six_digit_pin() {
    let mut ledger = Ledger::new();
    let (_, _, pin) = open_account(&mut ledger, 0);
    assert_eq!(pin.len(), 6);
    assert!(pin.chars().all(|c| c.is_ascii_digit()));
}

#[test]
fn deposit_reflects_in_balance() {
    let mut ledger = Ledger::new();
    let (_, number, pin) = open_account(&mut ledger, 250);
    assert_eq!(ledger.deposit("100", &pin, &number), Ok(350));
    assert_eq!(ledger.show_balance(&number), Ok(350));
}

#[test]
fn deposit_with_wrong_pin_is_rejected() {
    let mut ledger = Ledger::new();
    let (_, number, pin) = open_account(&mut ledger, 250);
    assert_eq!(
        ledger.deposit("100", &wrong_pin(&pin), &number),
        Err(LedgerError::AuthorizationFailure)
    );
    assert_eq!(ledger.show_balance(&number), Ok(250));
}

#[test]
fn deposit_rejects_unparsable_amount() {
    let mut ledger = Ledger::new();
    let (_, number, pin) = open_account(&mut ledger, 250);
    assert_eq!(
        ledger.deposit("12x", &pin, &number),
        Err(LedgerError::InvalidFormat)
    );
    assert_eq!(
        ledger.deposit("", &pin, &number),
        Err(LedgerError::InvalidFormat)
    );
    assert_eq!(ledger.show_balance(&number), Ok(250));
}

#[test]
fn deposit_rejects_overflowing_balance() {
    let mut ledger = Ledger::new();
    let (_, number, pin) = open_account(&mut ledger, u64::MAX - 10);
    assert_eq!(
        ledger.deposit("11", &pin, &number),
        Err(LedgerError::ArithmeticOverflow)
    );
    assert_eq!(ledger.show_balance(&number), Ok(u64::MAX - 10));
    assert_eq!(ledger.deposit("10", &pin, &number), Ok(u64::MAX));
}

#[test]
fn deposit_to_unknown_account_is_not_found() {
    let mut ledger = Ledger::new();
    assert_eq!(
        ledger.deposit("100", "000000", "35001576202"),
        Err(LedgerError::NotFound)
    );
    assert_eq!(
        ledger.show_balance("35001576202"),
        Err(LedgerError::NotFound)
    );
}

#[test]
fn withdraw_reflects_in_balance() {
    let mut ledger = Ledger::new();
    let (_, number, pin) = open_account(&mut ledger, 250);
    assert_eq!(ledger.withdraw("100", &pin, &number), Ok(150));
    assert_eq!(ledger.show_balance(&number), Ok(150));
}

#[test]
fn withdraw_beyond_balance_reports_insufficient_funds() {
    let mut ledger = Ledger::new();
    let (_, number, pin) = open_account(&mut ledger, 250);
    assert_eq!(
        ledger.withdraw("251", &pin, &number),
        Err(LedgerError::InsufficientFunds)
    );
    assert_eq!(ledger.show_balance(&number), Ok(250));
}

#[test]
fn withdraw_with_wrong_pin_is_rejected() {
    let mut ledger = Ledger::new();
    let (_, number, pin) = open_account(&mut ledger, 250);
    assert_eq!(
        ledger.withdraw("100", &wrong_pin(&pin), &number),
        Err(LedgerError::AuthorizationFailure)
    );
    assert_eq!(ledger.show_balance(&number), Ok(250));
}

#[test]
fn transfer_of_full_balance_conserves_total() {
    let mut ledger = Ledger::new();
    let (_, src, src_pin) = open_account(&mut ledger, 400);
    let (_, dst, _) = open_account(&mut ledger, 70);
    assert_eq!(ledger.transfer("400", &src_pin, &src, &dst), Ok(0));
    assert_eq!(ledger.show_balance(&src), Ok(0));
    assert_eq!(ledger.show_balance(&dst), Ok(470));
}

#[test]
fn transfer_to_same_account_is_rejected() {
    let mut ledger = Ledger::new();
    let (_, number, pin) = open_account(&mut ledger, 400);
    assert_eq!(
        ledger.transfer("100", &pin, &number, &number),
        Err(LedgerError::SameAccountTransfer)
    );
    assert_eq!(
        ledger.transfer("100", &wrong_pin(&pin), &number, &number),
        Err(LedgerError::SameAccountTransfer)
    );
    assert_eq!(ledger.show_balance(&number), Ok(400));
}

#[test]
fn transfer_beyond_balance_is_rejected() {
    let mut ledger = Ledger::new();
    let (_, src, src_pin) = open_account(&mut ledger, 400);
    let (_, dst, _) = open_account(&mut ledger, 70);
    assert_eq!(
        ledger.transfer("401", &src_pin, &src, &dst),
        Err(LedgerError::InsufficientFunds)
    );
    assert_eq!(ledger.show_balance(&src), Ok(400));
    assert_eq!(ledger.show_balance(&dst), Ok(70));
}

#[test]
fn transfer_to_unknown_destination_is_rejected() {
    let mut ledger = Ledger::new();
    let (_, src, src_pin) = open_account(&mut ledger, 400);
    let dst = {
        let other = AccountNumber::new(10);
        let rendered = other.human_readable();
        if rendered == src {
            return;
        }
        rendered
    };
    assert_eq!(
        ledger.transfer("100", &src_pin, &src, &dst),
        Err(LedgerError::NotFound)
    );
    assert_eq!(ledger.show_balance(&src), Ok(400));
}

#[test]
fn delete_account_removes_the_record() {
    let mut ledger = Ledger::new();
    let (_, number, pin) = open_account(&mut ledger, 400);
    assert_eq!(ledger.delete_account(&number, &pin), Ok(()));
    assert_eq!(ledger.show_balance(&number), Err(LedgerError::NotFound));
    assert_eq!(ledger.len(), 0);
}

#[test]
fn delete_account_with_wrong_pin_is_rejected() {
    let mut ledger = Ledger::new();
    let (_, number, pin) = open_account(&mut ledger, 400);
    assert_eq!(
        ledger.delete_account(&number, &wrong_pin(&pin)),
        Err(LedgerError::AuthorizationFailure)
    );
    assert_eq!(ledger.show_balance(&number), Ok(400));
}
