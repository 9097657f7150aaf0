//! A small single-ledger account store.
//!
//! The `luhn` module produces and validates self-checking account
//! numbers: a random digit payload followed by a Luhn check digit.
//! The `ledger` module owns the account records and performs the
//! PIN-authorized balance mutations (create, deposit, withdraw,
//! transfer, delete, query).

pub mod ledger;
pub mod luhn;
