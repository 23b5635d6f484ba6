//! The errors of balance operations, and the operations themselves as a trait.
use vstd::prelude::*;

use crate::storage::{
    can_withdraw, deposit_fits, deposited, withdraw_fits, withdrawn, Storage,
};
use crate::{Balance, Name};

verus! {

/// Why a deposit or a withdrawal was refused.
#[derive(Debug)]
pub enum BalanceManagerError {
    /// No account carries this name.
    UserNotFound(Name),
    /// The account holds less than the amount asked for.
    NotEnoughMoney { required: i64, available: i64 },
}

/// Something that keeps balances by name and can pay money in and out of them.
pub trait BalanceManager {
    /// The balance of each account, by the characters of its name.
    spec fn balances(&self) -> Map<Seq<char>, i64>;

    /// Pays `amount` into the account named `name`; `UserNotFound` when there is none.
    fn deposit(&mut self, name: &Name, amount: &Balance) -> (r: Result<(), BalanceManagerError>)
        requires
            deposit_fits(old(self).balances(), name@, *amount),
        ensures
            final(self).balances() == deposited(old(self).balances(), name@, *amount),
            old(self).balances().contains_key(name@) ==> r == Ok::<(), BalanceManagerError>(()),
            !old(self).balances().contains_key(name@) ==> r == Err::<(), BalanceManagerError>(
                BalanceManagerError::UserNotFound(*name),
            ),
    ;

    /// Takes `amount` from the account named `name`: `UserNotFound` when there is none,
    /// `NotEnoughMoney` when it holds less than `amount`.
    fn withdraw(&mut self, name: &Name, amount: Balance) -> (r: Result<(), BalanceManagerError>)
        requires
            withdraw_fits(old(self).balances(), name@, amount),
        ensures
            final(self).balances() == withdrawn(old(self).balances(), name@, amount),
            !old(self).balances().contains_key(name@) ==> r == Err::<(), BalanceManagerError>(
                BalanceManagerError::UserNotFound(*name),
            ),
            can_withdraw(old(self).balances(), name@, amount) ==> r == Ok::<(), BalanceManagerError>(()),
            old(self).balances().contains_key(name@) && old(self).balances()[name@] < amount ==> r
                == Err::<(), BalanceManagerError>(
                BalanceManagerError::NotEnoughMoney {
                    required: amount,
                    available: old(self).balances()[name@],
                },
            ),
    ;
}

impl BalanceManager for Storage {
    open spec fn balances(&self) -> Map<Seq<char>, i64> {
        self@
    }

    fn deposit(&mut self, name: &Name, amount: &Balance) -> (r: Result<(), BalanceManagerError>) {
        Storage::deposit(self, name, *amount)
    }

    fn withdraw(&mut self, name: &Name, amount: Balance) -> (r: Result<(), BalanceManagerError>) {
        Storage::withdraw(self, name, amount)
    }
}

} // verus!
