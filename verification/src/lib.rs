//! A small bank: named accounts with signed balances, wallets that take in
//! batches of transactions, and a comma-separated text form of the accounts.
use vstd::prelude::*;

pub mod csv;
pub mod errors;
pub mod storage;
pub mod text;
pub mod transaction;
pub mod wallet;

pub use storage::Storage;
pub use wallet::{OpKind, Transaction, Wallet};

verus! {

/// The name of an account holder.
pub type Name = String;

/// An amount of money; it may be negative.
pub type Balance = i64;

} // verus!
