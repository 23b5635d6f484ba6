//! The account store: a set of named accounts, each with a balance.
use vstd::prelude::*;

use crate::errors::BalanceManagerError;
use crate::{Balance, Name};

verus! {

/// An account as the specifications see it: the characters of its name and its balance.
pub type Row = (Seq<char>, i64);

/// No two rows carry the same name.
pub open spec fn keys_distinct(rows: Seq<Row>) -> bool {
    forall|i: int, j: int|
        0 <= i < rows.len() && 0 <= j < rows.len() && i != j ==> #[trigger] rows[i].0 != #[trigger] rows[j].0
}

/// Some row carries the name `k`.
pub open spec fn has_key(rows: Seq<Row>, k: Seq<char>) -> bool {
    exists|i: int| 0 <= i < rows.len() && #[trigger] rows[i].0 == k
}

/// The map from names to balances that a list of rows describes.
pub open spec fn rows_map(rows: Seq<Row>) -> Map<Seq<char>, i64>
    decreases rows.len(),
{
    if rows.len() == 0 {
        Map::empty()
    } else {
        rows_map(rows.drop_last()).insert(rows.last().0, rows.last().1)
    }
}

/// The balances after `amount` is paid into the account `k`; unchanged when there is none.
pub open spec fn deposited(m: Map<Seq<char>, i64>, k: Seq<char>, amount: i64) -> Map<Seq<char>, i64> {
    if m.contains_key(k) {
        m.insert(k, (m[k] + amount) as i64)
    } else {
        m
    }
}

/// A deposit of `amount` into `k` keeps the balance within `i64`.
pub open spec fn deposit_fits(m: Map<Seq<char>, i64>, k: Seq<char>, amount: i64) -> bool {
    m.contains_key(k) ==> i64::MIN <= m[k] + amount <= i64::MAX
}

/// The account `k` exists and holds at least `amount`.
pub open spec fn can_withdraw(m: Map<Seq<char>, i64>, k: Seq<char>, amount: i64) -> bool {
    m.contains_key(k) && m[k] >= amount
}

/// The balances after `amount` is taken from `k`; unchanged when the account is missing
/// or holds less than `amount`.
pub open spec fn withdrawn(m: Map<Seq<char>, i64>, k: Seq<char>, amount: i64) -> Map<Seq<char>, i64> {
    if can_withdraw(m, k, amount) {
        m.insert(k, (m[k] - amount) as i64)
    } else {
        m
    }
}

/// A withdrawal of `amount` from `k` keeps the balance within `i64`
/// (only a negative amount can push it over the top).
pub open spec fn withdraw_fits(m: Map<Seq<char>, i64>, k: Seq<char>, amount: i64) -> bool {
    can_withdraw(m, k, amount) ==> m[k] - amount <= i64::MAX
}

/// The balances after an account named `k` is opened with a zero balance,
/// when no account carries that name yet.
pub open spec fn with_user(m: Map<Seq<char>, i64>, k: Seq<char>) -> Map<Seq<char>, i64> {
    if m.contains_key(k) {
        m
    } else {
        m.insert(k, 0)
    }
}

pub proof fn lemma_rows_map_dom(rows: Seq<Row>, k: Seq<char>)
    ensures
        rows_map(rows).contains_key(k) <==> has_key(rows, k),
    decreases rows.len(),
{
    if rows.len() > 0 {
        let dl = rows.drop_last();
        lemma_rows_map_dom(dl, k);
        if has_key(dl, k) {
            let i = choose|i: int| 0 <= i < dl.len() && #[trigger] dl[i].0 == k;
            assert(rows[i].0 == k);
        }
        if has_key(rows, k) && rows.last().0 != k {
            let i = choose|i: int| 0 <= i < rows.len() && #[trigger] rows[i].0 == k;
            assert(dl[i].0 == k);
        }
    }
}

pub proof fn lemma_rows_map_len(rows: Seq<Row>)
    requires
        keys_distinct(rows),
    ensures
        rows_map(rows).dom().finite(),
        rows_map(rows).len() == rows.len(),
    decreases rows.len(),
{
    if rows.len() > 0 {
        lemma_drop_last_distinct(rows);
        lemma_rows_map_len(rows.drop_last());
        lemma_rows_map_dom(rows.drop_last(), rows.last().0);
    }
}

pub proof fn lemma_rows_map_index(rows: Seq<Row>, i: int)
    requires
        keys_distinct(rows),
        0 <= i < rows.len(),
    ensures
        rows_map(rows).contains_key(rows[i].0),
        rows_map(rows)[rows[i].0] == rows[i].1,
    decreases rows.len(),
{
    let dl = rows.drop_last();
    if i < rows.len() - 1 {
        assert(keys_distinct(dl)) by {
            assert forall|a: int, b: int|
                0 <= a < dl.len() && 0 <= b < dl.len() && a != b implies #[trigger] dl[a].0
                != #[trigger] dl[b].0 by {
                assert(dl[a] == rows[a] && dl[b] == rows[b]);
            }
        }
        lemma_rows_map_index(dl, i);
        assert(rows[i].0 != rows[rows.len() - 1].0);
    }
}

pub proof fn lemma_drop_last_distinct(rows: Seq<Row>)
    requires
        keys_distinct(rows),
        rows.len() > 0,
    ensures
        keys_distinct(rows.drop_last()),
        !has_key(rows.drop_last(), rows.last().0),
{
    let dl = rows.drop_last();
    assert forall|a: int, b: int|
        0 <= a < dl.len() && 0 <= b < dl.len() && a != b implies #[trigger] dl[a].0
        != #[trigger] dl[b].0 by {
        assert(dl[a] == rows[a] && dl[b] == rows[b]);
    }
    if has_key(dl, rows.last().0) {
        let i = choose|i: int| 0 <= i < dl.len() && #[trigger] dl[i].0 == rows.last().0;
        assert(rows[i].0 == rows[rows.len() - 1].0);
    }
}

pub proof fn lemma_rows_map_update(rows: Seq<Row>, i: int, v: i64)
    requires
        keys_distinct(rows),
        0 <= i < rows.len(),
    ensures
        rows_map(rows.update(i, (rows[i].0, v))) == rows_map(rows).insert(rows[i].0, v),
    decreases rows.len(),
{
    let nr = rows.update(i, (rows[i].0, v));
    let dl = rows.drop_last();
    lemma_drop_last_distinct(rows);
    if i == rows.len() - 1 {
        assert(nr.drop_last() =~= dl);
        assert(rows_map(nr) =~= rows_map(rows).insert(rows[i].0, v));
    } else {
        assert(nr.drop_last() =~= dl.update(i, (dl[i].0, v)));
        lemma_rows_map_update(dl, i, v);
        assert(rows[i].0 != rows.last().0);
        assert(rows_map(nr) =~= rows_map(rows).insert(rows[i].0, v));
    }
}

pub proof fn lemma_rows_map_remove(rows: Seq<Row>, i: int)
    requires
        keys_distinct(rows),
        0 <= i < rows.len(),
    ensures
        rows_map(rows.remove(i)) == rows_map(rows).remove(rows[i].0),
    decreases rows.len(),
{
    let nr = rows.remove(i);
    let dl = rows.drop_last();
    lemma_drop_last_distinct(rows);
    lemma_rows_map_dom(dl, rows.last().0);
    if i == rows.len() - 1 {
        assert(nr =~= dl);
        assert(rows_map(nr) =~= rows_map(rows).remove(rows[i].0));
    } else {
        assert(nr.drop_last() =~= dl.remove(i));
        assert(nr.last() == rows.last());
        lemma_rows_map_remove(dl, i);
        assert(dl[i] == rows[i]);
        assert(rows[i].0 != rows.last().0);
        assert(rows_map(nr) =~= rows_map(rows).remove(rows[i].0));
    }
}

/// Paying an amount into an account and then taking the same amount out gives back the
/// balances one began with, when the account exists and its balance is not negative.
pub proof fn law_withdraw_undoes_deposit(m: Map<Seq<char>, i64>, k: Seq<char>, amount: i64)
    requires
        m.contains_key(k),
        m[k] >= 0,
        deposit_fits(m, k, amount),
    ensures
        can_withdraw(deposited(m, k, amount), k, amount),
        withdraw_fits(deposited(m, k, amount), k, amount),
        withdrawn(deposited(m, k, amount), k, amount) == m,
{
    assert(withdrawn(deposited(m, k, amount), k, amount) =~= m);
}

/// Taking an amount out of an account and then paying it back in gives back the balances
/// one began with.
pub proof fn law_deposit_undoes_withdraw(m: Map<Seq<char>, i64>, k: Seq<char>, amount: i64)
    requires
        can_withdraw(m, k, amount),
        withdraw_fits(m, k, amount),
    ensures
        deposit_fits(withdrawn(m, k, amount), k, amount),
        deposited(withdrawn(m, k, amount), k, amount) == m,
{
    assert(deposited(withdrawn(m, k, amount), k, amount) =~= m);
}

/// A withdrawal that goes through never leaves the account below zero.
pub proof fn law_withdraw_never_overdraws(m: Map<Seq<char>, i64>, k: Seq<char>, amount: i64)
    requires
        can_withdraw(m, k, amount),
        withdraw_fits(m, k, amount),
    ensures
        withdrawn(m, k, amount)[k] >= 0,
{
}

/// A new account starts at zero, and closing it again gives back the balances one began with.
pub proof fn law_remove_undoes_add(m: Map<Seq<char>, i64>, k: Seq<char>)
    requires
        !m.contains_key(k),
    ensures
        with_user(m, k).contains_key(k),
        with_user(m, k)[k] == 0,
        with_user(m, k).remove(k) == m,
{
    assert(with_user(m, k).remove(k) =~= m);
}

/// Opening, paying into, taking from or closing one account leaves every other account as
/// it was.
pub proof fn law_other_accounts_untouched(m: Map<Seq<char>, i64>, k: Seq<char>, other: Seq<char>, amount: i64)
    requires
        other != k,
    ensures
        deposited(m, k, amount).contains_key(other) == m.contains_key(other),
        deposited(m, k, amount)[other] == m[other],
        withdrawn(m, k, amount).contains_key(other) == m.contains_key(other),
        withdrawn(m, k, amount)[other] == m[other],
        with_user(m, k).contains_key(other) == m.contains_key(other),
        with_user(m, k)[other] == m[other],
        m.remove(k).contains_key(other) == m.contains_key(other),
        m.remove(k)[other] == m[other],
{
}

/// Opening an account under a name that is already taken changes nothing.
pub proof fn law_taken_name_changes_nothing(m: Map<Seq<char>, i64>, k: Seq<char>)
    requires
        m.contains_key(k),
    ensures
        with_user(m, k) == m,
{
}

/// Opening an account under a new name adds that one account, at zero, and nothing else.
pub proof fn law_new_name_opens_at_zero(m: Map<Seq<char>, i64>, k: Seq<char>)
    requires
        !m.contains_key(k),
    ensures
        with_user(m, k).dom() == m.dom().insert(k),
        with_user(m, k)[k] == 0,
        forall|j: Seq<char>| j != k && m.contains_key(j) ==> #[trigger] with_user(m, k)[j] == m[j],
{
    assert(with_user(m, k).dom() =~= m.dom().insert(k));
}

/// A deposit into an existing account raises its balance by exactly the amount, and keeps
/// the set of accounts; a deposit into a missing account changes nothing.
pub proof fn law_deposit_adds_amount(m: Map<Seq<char>, i64>, k: Seq<char>, amount: i64)
    requires
        deposit_fits(m, k, amount),
    ensures
        deposited(m, k, amount).dom() == m.dom(),
        m.contains_key(k) ==> deposited(m, k, amount)[k] == m[k] + amount,
        !m.contains_key(k) ==> deposited(m, k, amount) == m,
{
    assert(deposited(m, k, amount).dom() =~= m.dom());
}

/// A withdrawal from an account that holds at least the amount lowers its balance by
/// exactly the amount; any other withdrawal changes nothing. The set of accounts stays.
pub proof fn law_withdraw_subtracts_amount(m: Map<Seq<char>, i64>, k: Seq<char>, amount: i64)
    requires
        withdraw_fits(m, k, amount),
    ensures
        withdrawn(m, k, amount).dom() == m.dom(),
        m.contains_key(k) && m[k] >= amount ==> withdrawn(m, k, amount)[k] == m[k] - amount,
        !(m.contains_key(k) && m[k] >= amount) ==> withdrawn(m, k, amount) == m,
{
    assert(withdrawn(m, k, amount).dom() =~= m.dom());
}

/// The set of accounts, each with a unique name.
pub struct Storage {
    accounts: Vec<(Name, Balance)>,
}

impl View for Storage {
    type V = Map<Seq<char>, i64>;

    /// The balance of each account, by the characters of its name.
    open spec fn view(&self) -> Map<Seq<char>, i64> {
        rows_map(self.rows())
    }
}

impl Storage {
    /// The accounts in the order in which they are held.
    pub closed spec fn rows(&self) -> Seq<Row> {
        self.accounts@.map_values(|p: (Name, Balance)| (p.0@, p.1))
    }

    #[verifier::type_invariant]
    spec fn names_unique(&self) -> bool {
        keys_distinct(self.rows())
    }

    /// Creates an empty bank.
    pub fn new() -> (s: Storage)
        ensures
            s@ == Map::<Seq<char>, i64>::empty(),
    {
        let s = Storage { accounts: Vec::new() };
        assert(s.rows() =~= Seq::<Row>::empty());
        s
    }

    /// The position of the account named `name`, if there is one.
    fn find(&self, name: &Name) -> (r: Option<usize>)
        ensures
            match r {
                Some(i) => i < self.rows().len() && self.rows()[i as int].0 == name@,
                None => !has_key(self.rows(), name@),
            },
    {
        let mut i: usize = 0;
        while i < self.accounts.len()
            invariant
                0 <= i <= self.accounts.len(),
                forall|j: int| 0 <= j < i ==> #[trigger] self.rows()[j].0 != name@,
            decreases self.accounts.len() - i,
        {
            if self.accounts[i].0 == *name {
                return Some(i);
            }
            i = i + 1;
        }
        proof {
            if has_key(self.rows(), name@) {
                let j = choose|j: int| 0 <= j < self.rows().len() && #[trigger] self.rows()[j].0 == name@;
                assert(self.rows()[j].0 != name@);
            }
        }
        None
    }

    /// Opens an account named `name` with a zero balance. Returns `Some(0)` when it was
    /// opened, and `None`, leaving everything as it was, when the name is taken.
    pub fn add_user(&mut self, name: Name) -> (r: Option<Balance>)
        ensures
            final(self)@ == with_user(old(self)@, name@),
            r == (if old(self)@.contains_key(name@) { None } else { Some(0i64) }),
            old(self)@.contains_key(name@) ==> final(self)@ == old(self)@,
            !old(self)@.contains_key(name@) ==> final(self)@ == old(self)@.insert(name@, 0i64),
    {
        proof {
            use_type_invariant(&*self);
            lemma_rows_map_dom(self.rows(), name@);
        }
        match self.find(&name) {
            Some(_) => None,
            None => {
                let ghost old_rows = self.rows();
                let ghost key = name@;
                let mut accounts: Vec<(Name, Balance)> = Vec::new();
        std::mem::swap(&mut accounts, &mut self.accounts);
                accounts.push((name, 0));
                proof {
                    let new_rows = accounts@.map_values(|p: (Name, Balance)| (p.0@, p.1));
                    assert(new_rows =~= old_rows.push((key, 0i64)));
                    assert(new_rows.drop_last() =~= old_rows);
                }
                self.accounts = accounts;
                Some(0)
            },
        }
    }

    /// Closes the account named `name` and returns its balance, or `None` when there is none.
    pub fn remove_user(&mut self, name: &Name) -> (r: Option<Balance>)
        ensures
            final(self)@ == old(self)@.remove(name@),
            r == (if old(self)@.contains_key(name@) { Some(old(self)@[name@]) } else { None }),
    {
        proof {
            use_type_invariant(&*self);
            lemma_rows_map_dom(self.rows(), name@);
        }
        match self.find(name) {
            Some(i) => {
                let ghost old_rows = self.rows();
                proof {
                    lemma_rows_map_index(old_rows, i as int);
                    lemma_rows_map_remove(old_rows, i as int);
                }
                let mut accounts: Vec<(Name, Balance)> = Vec::new();
        std::mem::swap(&mut accounts, &mut self.accounts);
                let (_, balance) = accounts.remove(i);
                proof {
                    let new_rows = accounts@.map_values(|p: (Name, Balance)| (p.0@, p.1));
                    assert(new_rows =~= old_rows.remove(i as int));
                }
                self.accounts = accounts;
                Some(balance)
            },
            None => {
                assert(old(self)@.remove(name@) =~= old(self)@);
                None
            },
        }
    }

    /// The balance of the account named `name`, or `None` when there is none.
    pub fn get_balance(&self, name: &Name) -> (r: Option<Balance>)
        ensures
            r == (if self@.contains_key(name@) { Some(self@[name@]) } else { None }),
    {
        proof {
            use_type_invariant(self);
            lemma_rows_map_dom(self.rows(), name@);
        }
        match self.find(name) {
            Some(i) => {
                proof {
                    lemma_rows_map_index(self.rows(), i as int);
                }
                Some(self.accounts[i].1)
            },
            None => None,
        }
    }

    /// Sets the balance of the account at position `i` to `value`.
    fn set_balance(&mut self, i: usize, value: Balance)
        requires
            i < old(self).rows().len(),
        ensures
            final(self)@ == old(self)@.insert(old(self).rows()[i as int].0, value),
            final(self).rows().len() == old(self).rows().len(),
    {
        proof {
            use_type_invariant(&*self);
            lemma_rows_map_update(self.rows(), i as int, value);
        }
        let ghost old_rows = self.rows();
        let mut accounts: Vec<(Name, Balance)> = Vec::new();
        std::mem::swap(&mut accounts, &mut self.accounts);
        let name = accounts[i].0.clone();
        accounts.set(i, (name, value));
        proof {
            let new_rows = accounts@.map_values(|p: (Name, Balance)| (p.0@, p.1));
            assert(new_rows =~= old_rows.update(i as int, (old_rows[i as int].0, value)));
        }
        self.accounts = accounts;
    }

    /// Pays `amount` into the account named `name`.
    pub fn deposit(&mut self, name: &Name, amount: Balance) -> (r: Result<(), BalanceManagerError>)
        requires
            deposit_fits(old(self)@, name@, amount),
        ensures
            final(self)@ == deposited(old(self)@, name@, amount),
            old(self)@.contains_key(name@) ==> final(self)@ == old(self)@.insert(
                name@,
                (old(self)@[name@] + amount) as i64,
            ),
            !old(self)@.contains_key(name@) ==> final(self)@ == old(self)@,
            old(self)@.contains_key(name@) ==> r == Ok::<(), BalanceManagerError>(()),
            !old(self)@.contains_key(name@) ==> r == Err::<(), BalanceManagerError>(
                BalanceManagerError::UserNotFound(*name),
            ),
    {
        proof {
            use_type_invariant(&*self);
            lemma_rows_map_dom(self.rows(), name@);
        }
        match self.find(name) {
            Some(i) => {
                proof {
                    lemma_rows_map_index(self.rows(), i as int);
                }
                let balance = self.accounts[i].1;
                self.set_balance(i, balance + amount);
                Ok(())
            },
            None => Err(BalanceManagerError::UserNotFound(name.clone())),
        }
    }

    /// Takes `amount` from the account named `name`, when it holds at least that much.
    pub fn withdraw(&mut self, name: &Name, amount: Balance) -> (r: Result<(), BalanceManagerError>)
        requires
            withdraw_fits(old(self)@, name@, amount),
        ensures
            final(self)@ == withdrawn(old(self)@, name@, amount),
            old(self)@.contains_key(name@) && old(self)@[name@] >= amount ==> final(self)@ == old(self)@.insert(name@, (old(self)@[name@] - amount) as i64),
            !(old(self)@.contains_key(name@) && old(self)@[name@] >= amount) ==> final(self)@ == old(self)@,
            !old(self)@.contains_key(name@) ==> r == Err::<(), BalanceManagerError>(
                BalanceManagerError::UserNotFound(*name),
            ),
            can_withdraw(old(self)@, name@, amount) ==> r == Ok::<(), BalanceManagerError>(()),
            old(self)@.contains_key(name@) && old(self)@[name@] < amount ==> r == Err::<
                (),
                BalanceManagerError,
            >(BalanceManagerError::NotEnoughMoney { required: amount, available: old(self)@[name@] }),
    {
        proof {
            use_type_invariant(&*self);
            lemma_rows_map_dom(self.rows(), name@);
        }
        match self.find(name) {
            Some(i) => {
                proof {
                    lemma_rows_map_index(self.rows(), i as int);
                }
                let balance = self.accounts[i].1;
                if balance >= amount {
                    self.set_balance(i, balance - amount);
                    Ok(())
                } else {
                    Err(BalanceManagerError::NotEnoughMoney { required: amount, available: balance })
                }
            },
            None => Err(BalanceManagerError::UserNotFound(name.clone())),
        }
    }

    /// Every account with its balance, each exactly once.
    pub fn get_all(&self) -> (r: Vec<(Name, Balance)>)
        ensures
            keys_distinct(r@.map_values(|p: (Name, Balance)| (p.0@, p.1))),
            rows_map(r@.map_values(|p: (Name, Balance)| (p.0@, p.1))) == self@,
            r@.len() == self@.len(),
    {
        proof {
            use_type_invariant(self);
        }
        let mut r: Vec<(Name, Balance)> = Vec::new();
        let mut i: usize = 0;
        while i < self.accounts.len()
            invariant
                0 <= i <= self.accounts.len(),
                r@.map_values(|p: (Name, Balance)| (p.0@, p.1)) =~= self.rows().take(i as int),
            decreases self.accounts.len() - i,
        {
            let name = self.accounts[i].0.clone();
            let ghost prev = r@;
            r.push((name, self.accounts[i].1));
            proof {
                assert(self.rows()[i as int] == (self.accounts@[i as int].0@, self.accounts@[i as int].1));
                assert(r@ == prev.push((name, self.accounts@[i as int].1)));
                assert(self.rows().take(i + 1) =~= self.rows().take(i as int).push(self.rows()[i as int]));
                assert(r@.map_values(|p: (Name, Balance)| (p.0@, p.1)) =~= prev.map_values(
                    |p: (Name, Balance)| (p.0@, p.1),
                ).push(self.rows()[i as int]));
            }
            i = i + 1;
        }
        proof {
            assert(self.rows().take(i as int) =~= self.rows());
            lemma_rows_map_len(self.rows());
        }
        r
    }
}

impl Default for Storage {
    fn default() -> (s: Storage)
        ensures
            s@ == Map::<Seq<char>, i64>::empty(),
    {
        Storage::new()
    }
}

} // verus!
