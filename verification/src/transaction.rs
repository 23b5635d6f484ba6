//! Transactions on the account store: deposits, withdrawals and transfers.
use vstd::prelude::*;

use crate::storage::{deposit_fits, deposited, withdraw_fits, withdrawn, Storage};

verus! {

/// Why a transaction was refused.
#[derive(Debug)]
pub enum TxError {
    /// An account holds less than the amount to take from it.
    InsufficientFunds,
    /// An account that the transaction names does not exist.
    InvalidAccount,
}

/// Something that can be applied to the accounts of a bank.
pub trait Transaction {
    /// The balances after this transaction is applied to `m`, or why it is refused.
    spec fn outcome(&self, m: Map<Seq<char>, i64>) -> Result<Map<Seq<char>, i64>, TxError>;

    /// Applying this transaction to `m` keeps every balance within `i64`.
    spec fn fits(&self, m: Map<Seq<char>, i64>) -> bool;

    /// Applies this transaction; a refused one changes nothing.
    fn apply(&self, accounts: &mut Storage) -> (r: Result<(), TxError>)
        requires
            self.fits(old(accounts)@),
        ensures
            match self.outcome(old(accounts)@) {
                Ok(m) => r is Ok && final(accounts)@ == m,
                Err(e) => r == Err::<(), TxError>(e) && final(accounts)@ == old(accounts)@,
            },
    ;
}

/// Pays `amount` into `account`.
pub struct Deposit {
    pub account: String,
    pub amount: i64,
}

/// Takes `amount` from `account`.
pub struct Withdraw {
    pub account: String,
    pub amount: i64,
}

/// Moves `amount` from `from` to `to`.
pub struct Transfer {
    pub from: String,
    pub to: String,
    pub amount: i64,
}

impl Transaction for Deposit {
    open spec fn outcome(&self, m: Map<Seq<char>, i64>) -> Result<Map<Seq<char>, i64>, TxError> {
        if m.contains_key(self.account@) {
            Ok(deposited(m, self.account@, self.amount))
        } else {
            Err(TxError::InvalidAccount)
        }
    }

    open spec fn fits(&self, m: Map<Seq<char>, i64>) -> bool {
        deposit_fits(m, self.account@, self.amount)
    }

    fn apply(&self, accounts: &mut Storage) -> (r: Result<(), TxError>)
        ensures
            old(accounts)@.contains_key(self.account@) ==> r is Ok && final(accounts)@ == old(accounts)@.insert(self.account@, (old(accounts)@[self.account@] + self.amount) as i64),
            !old(accounts)@.contains_key(self.account@) ==> r == Err::<(), TxError>(
                TxError::InvalidAccount,
            ) && final(accounts)@ == old(accounts)@,
    {
        match accounts.deposit(&self.account, self.amount) {
            Ok(()) => Ok(()),
            Err(_) => Err(TxError::InvalidAccount),
        }
    }
}

impl Transaction for Withdraw {
    open spec fn outcome(&self, m: Map<Seq<char>, i64>) -> Result<Map<Seq<char>, i64>, TxError> {
        if !m.contains_key(self.account@) {
            Err(TxError::InvalidAccount)
        } else if m[self.account@] < self.amount {
            Err(TxError::InsufficientFunds)
        } else {
            Ok(withdrawn(m, self.account@, self.amount))
        }
    }

    open spec fn fits(&self, m: Map<Seq<char>, i64>) -> bool {
        withdraw_fits(m, self.account@, self.amount)
    }

    fn apply(&self, accounts: &mut Storage) -> (r: Result<(), TxError>)
        ensures
            old(accounts)@.contains_key(self.account@) && old(accounts)@[self.account@]
                >= self.amount ==> r is Ok && final(accounts)@ == old(accounts)@.insert(
                self.account@,
                (old(accounts)@[self.account@] - self.amount) as i64,
            ),
            old(accounts)@.contains_key(self.account@) && old(accounts)@[self.account@]
                < self.amount ==> r == Err::<(), TxError>(TxError::InsufficientFunds) && final(accounts)@ == old(accounts)@,
            !old(accounts)@.contains_key(self.account@) ==> r == Err::<(), TxError>(
                TxError::InvalidAccount,
            ) && final(accounts)@ == old(accounts)@,
    {
        match accounts.get_balance(&self.account) {
            None => Err(TxError::InvalidAccount),
            Some(balance) => {
                if balance < self.amount {
                    Err(TxError::InsufficientFunds)
                } else {
                    let _ = accounts.withdraw(&self.account, self.amount);
                    Ok(())
                }
            },
        }
    }
}

impl Transaction for Transfer {
    open spec fn outcome(&self, m: Map<Seq<char>, i64>) -> Result<Map<Seq<char>, i64>, TxError> {
        if !m.contains_key(self.from@) || !m.contains_key(self.to@) {
            Err(TxError::InvalidAccount)
        } else if m[self.from@] < self.amount {
            Err(TxError::InsufficientFunds)
        } else {
            Ok(deposited(withdrawn(m, self.from@, self.amount), self.to@, self.amount))
        }
    }

    open spec fn fits(&self, m: Map<Seq<char>, i64>) -> bool {
        &&& withdraw_fits(m, self.from@, self.amount)
        &&& deposit_fits(withdrawn(m, self.from@, self.amount), self.to@, self.amount)
    }

    fn apply(&self, accounts: &mut Storage) -> (r: Result<(), TxError>)
        ensures
            old(accounts)@.contains_key(self.from@) && old(accounts)@.contains_key(self.to@) && old(accounts)@[self.from@] >= self.amount ==> r is Ok,
            old(accounts)@.contains_key(self.from@) && old(accounts)@.contains_key(self.to@)
                && self.from@ != self.to@ && old(accounts)@[self.from@] >= self.amount ==> final(accounts)@ == old(accounts)@.insert(
                self.from@,
                (old(accounts)@[self.from@] - self.amount) as i64,
            ).insert(self.to@, (old(accounts)@[self.to@] + self.amount) as i64),
            old(accounts)@.contains_key(self.from@) && self.from@ == self.to@ ==> final(accounts)@
                == old(accounts)@,
            !old(accounts)@.contains_key(self.from@) || !old(accounts)@.contains_key(self.to@)
                ==> r == Err::<(), TxError>(TxError::InvalidAccount) && final(accounts)@ == old(accounts)@,
            old(accounts)@.contains_key(self.from@) && old(accounts)@.contains_key(self.to@) && old(accounts)@[self.from@] < self.amount ==> r == Err::<(), TxError>(TxError::InsufficientFunds)
                && final(accounts)@ == old(accounts)@,
    {
        let from_balance = accounts.get_balance(&self.from);
        let to_balance = accounts.get_balance(&self.to);
        match (from_balance, to_balance) {
            (Some(balance), Some(_)) => {
                if balance < self.amount {
                    Err(TxError::InsufficientFunds)
                } else {
                    let _ = accounts.withdraw(&self.from, self.amount);
                    let _ = accounts.deposit(&self.to, self.amount);
                    Ok(())
                }
            },
            _ => Err(TxError::InvalidAccount),
        }
    }
}

/// A deposit into an existing account goes through and raises that account by exactly its
/// amount, leaving every other account as it was; into a missing account it is refused.
pub proof fn law_deposit_transaction(t: Deposit, m: Map<Seq<char>, i64>)
    requires
        t.fits(m),
    ensures
        m.contains_key(t.account@) ==> t.outcome(m) is Ok && t.outcome(m)->Ok_0.dom() == m.dom()
            && t.outcome(m)->Ok_0[t.account@] == m[t.account@] + t.amount && forall|k: Seq<char>|
            k != t.account@ && m.contains_key(k) ==> #[trigger] t.outcome(m)->Ok_0[k] == m[k],
        !m.contains_key(t.account@) ==> t.outcome(m) == Err::<Map<Seq<char>, i64>, TxError>(
            TxError::InvalidAccount,
        ),
{
    if m.contains_key(t.account@) {
        assert(t.outcome(m)->Ok_0.dom() =~= m.dom());
    }
}

/// A withdrawal goes through exactly when the account exists and holds at least the amount,
/// and then lowers it by exactly the amount, leaving every other account as it was.
pub proof fn law_withdraw_transaction(t: Withdraw, m: Map<Seq<char>, i64>)
    requires
        t.fits(m),
    ensures
        m.contains_key(t.account@) && m[t.account@] >= t.amount ==> t.outcome(m) is Ok
            && t.outcome(m)->Ok_0.dom() == m.dom() && t.outcome(m)->Ok_0[t.account@] == m[t.account@]
            - t.amount && forall|k: Seq<char>| k != t.account@ && m.contains_key(k) ==> #[trigger] t.outcome(
            m,
        )->Ok_0[k] == m[k],
        m.contains_key(t.account@) && m[t.account@] < t.amount ==> t.outcome(m) == Err::<
            Map<Seq<char>, i64>,
            TxError,
        >(TxError::InsufficientFunds),
        !m.contains_key(t.account@) ==> t.outcome(m) == Err::<Map<Seq<char>, i64>, TxError>(
            TxError::InvalidAccount,
        ),
{
    if m.contains_key(t.account@) && m[t.account@] >= t.amount {
        assert(t.outcome(m)->Ok_0.dom() =~= m.dom());
    }
}

/// A transfer between existing accounts goes through whenever the source holds at least the
/// amount; it is refused for a missing account, or when the source holds less.
pub proof fn law_transfer_goes_through(t: Transfer, m: Map<Seq<char>, i64>)
    requires
        t.fits(m),
    ensures
        m.contains_key(t.from@) && m.contains_key(t.to@) && m[t.from@] >= t.amount ==> t.outcome(
            m,
        ) is Ok,
        m.contains_key(t.from@) && t.from@ == t.to@ && m[t.from@] >= t.amount ==> t.outcome(m)
            == Ok::<Map<Seq<char>, i64>, TxError>(m),
        !m.contains_key(t.from@) || !m.contains_key(t.to@) ==> t.outcome(m) == Err::<
            Map<Seq<char>, i64>,
            TxError,
        >(TxError::InvalidAccount),
        m.contains_key(t.from@) && m.contains_key(t.to@) && m[t.from@] < t.amount ==> t.outcome(m)
            == Err::<Map<Seq<char>, i64>, TxError>(TxError::InsufficientFunds),
{
    if m.contains_key(t.from@) && t.from@ == t.to@ && m[t.from@] >= t.amount {
        assert(t.outcome(m)->Ok_0 =~= m);
    }
}

/// A transfer between two different accounts takes its amount from one and adds it to
/// the other: their sum stays as it was, and no other account changes.
pub proof fn law_transfer_moves_money(t: Transfer, m: Map<Seq<char>, i64>)
    requires
        t.fits(m),
        t.from@ != t.to@,
        t.outcome(m) is Ok,
    ensures
        ({
            let after = t.outcome(m)->Ok_0;
            &&& after.dom() == m.dom()
            &&& after[t.from@] == m[t.from@] - t.amount
            &&& after[t.to@] == m[t.to@] + t.amount
            &&& after[t.from@] + after[t.to@] == m[t.from@] + m[t.to@]
            &&& forall|k: Seq<char>| k != t.from@ && k != t.to@ ==> #[trigger] after.contains_key(k)
                == m.contains_key(k) && after[k] == m[k]
        }),
{
    let after = t.outcome(m)->Ok_0;
    assert(after.dom() =~= m.dom());
}

} // verus!
