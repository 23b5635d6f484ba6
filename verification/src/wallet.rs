//! Wallets that take in batches of transactions, each at most once.
use vstd::prelude::*;

verus! {

/// A movement of money into (positive `sum`) or out of (negative `sum`) a wallet.
#[derive(Debug, Clone, Copy)]
pub struct Transaction {
    pub id: u128,
    pub wallet_id: u128,
    pub sum: i64,
}

impl From<(u128, u128, i64)> for Transaction {
    /// Builds a transaction from `(id, wallet_id, sum)`.
    fn from(parts: (u128, u128, i64)) -> (r: Transaction) {
        Transaction { id: parts.0, wallet_id: parts.1, sum: parts.2 }
    }
}

impl vstd::std_specs::convert::FromSpecImpl<(u128, u128, i64)> for Transaction {
    open spec fn obeys_from_spec() -> bool {
        true
    }

    open spec fn from_spec(parts: (u128, u128, i64)) -> Transaction {
        Transaction { id: parts.0, wallet_id: parts.1, sum: parts.2 }
    }
}

/// A wallet: its balance and the transactions it has already taken in.
pub struct Wallet {
    pub id: u128,
    pub ballance: i64,
    pub latest_history: Vec<Transaction>,
}

/// What a wallet could do with a balance.
#[derive(Debug, Clone)]
pub enum OpKind {
    /// Pay money in.
    Deposit(u32),
    /// Take money out.
    Withdraw(u32),
    /// Close the account, taking all the money out.
    CloseAccount,
}

/// `t` is for the wallet `id` and its id is not among those of `history`.
pub open spec fn is_new(t: Transaction, id: u128, history: Seq<Transaction>) -> bool {
    &&& t.wallet_id == id
    &&& forall|j: int| 0 <= j < history.len() ==> #[trigger] history[j].id != t.id
}

/// The transactions of `ts` that are new to the wallet `id` with the given history, in order.
/// Two of them may share an id: each is measured against `history` alone.
pub open spec fn new_transactions(ts: Seq<Transaction>, id: u128, history: Seq<Transaction>) -> Seq<
    Transaction,
>
    decreases ts.len(),
{
    if ts.len() == 0 {
        Seq::empty()
    } else {
        let earlier = new_transactions(ts.drop_last(), id, history);
        if is_new(ts.last(), id, history) {
            earlier.push(ts.last())
        } else {
            earlier
        }
    }
}

/// The sum of the amounts of `ts`.
pub open spec fn total(ts: Seq<Transaction>) -> int
    decreases ts.len(),
{
    if ts.len() == 0 {
        0
    } else {
        total(ts.drop_last()) + ts.last().sum
    }
}

/// Adding up the amounts of `ts` from the first one on stays within `i64` at every step.
pub open spec fn running_totals_fit(ts: Seq<Transaction>) -> bool {
    forall|k: int| 0 <= k <= ts.len() ==> i64::MIN <= #[trigger] total(ts.take(k)) <= i64::MAX
}

proof fn lemma_new_transactions_prefix(ts: Seq<Transaction>, id: u128, history: Seq<Transaction>, i: int)
    requires
        0 <= i <= ts.len(),
    ensures
        new_transactions(ts.take(i), id, history).len() <= new_transactions(ts, id, history).len(),
        new_transactions(ts.take(i), id, history) == new_transactions(ts, id, history).take(
            new_transactions(ts.take(i), id, history).len() as int,
        ),
    decreases ts.len(),
{
    if i == ts.len() {
        assert(ts.take(i) =~= ts);
        assert(new_transactions(ts, id, history).take(new_transactions(ts, id, history).len() as int)
            =~= new_transactions(ts, id, history));
    } else {
        lemma_new_transactions_prefix(ts.drop_last(), id, history, i);
        assert(ts.drop_last().take(i) =~= ts.take(i));
        let a = new_transactions(ts.take(i), id, history);
        let b = new_transactions(ts.drop_last(), id, history);
        assert(new_transactions(ts, id, history).take(a.len() as int) =~= b.take(a.len() as int));
    }
}

proof fn lemma_new_transactions_contains(ts: Seq<Transaction>, id: u128, history: Seq<Transaction>, k: int)
    requires
        0 <= k < ts.len(),
        is_new(ts[k], id, history),
    ensures
        exists|j: int|
            0 <= j < new_transactions(ts, id, history).len() && #[trigger] new_transactions(
                ts,
                id,
                history,
            )[j] == ts[k],
    decreases ts.len(),
{
    let f = new_transactions(ts, id, history);
    if k == ts.len() - 1 {
        assert(f[f.len() - 1] == ts[k]);
    } else {
        lemma_new_transactions_contains(ts.drop_last(), id, history, k);
        let g = new_transactions(ts.drop_last(), id, history);
        let j = choose|j: int| 0 <= j < g.len() && #[trigger] g[j] == ts.drop_last()[k];
        assert(f[j] == ts[k]);
    }
}

proof fn lemma_new_transactions_empty(ts: Seq<Transaction>, id: u128, history: Seq<Transaction>)
    requires
        forall|k: int| 0 <= k < ts.len() ==> !is_new(#[trigger] ts[k], id, history),
    ensures
        new_transactions(ts, id, history).len() == 0,
    decreases ts.len(),
{
    if ts.len() > 0 {
        assert forall|k: int| 0 <= k < ts.drop_last().len() implies !is_new(
            #[trigger] ts.drop_last()[k],
            id,
            history,
        ) by {
            assert(ts.drop_last()[k] == ts[k]);
        }
        lemma_new_transactions_empty(ts.drop_last(), id, history);
        assert(!is_new(ts[ts.len() - 1], id, history));
    }
}

/// Taking in a batch a second time takes in nothing: every transaction of it that was new
/// is in the history now.
pub proof fn law_update_twice_adds_nothing(ts: Seq<Transaction>, id: u128, history: Seq<Transaction>)
    ensures
        new_transactions(ts, id, history + new_transactions(ts, id, history)).len() == 0,
{
    let fresh = new_transactions(ts, id, history);
    let after = history + fresh;
    assert forall|k: int| 0 <= k < ts.len() implies !is_new(#[trigger] ts[k], id, after) by {
        if is_new(ts[k], id, history) {
            lemma_new_transactions_contains(ts, id, history, k);
            let j = choose|j: int| 0 <= j < fresh.len() && #[trigger] fresh[j] == ts[k];
            assert(after[history.len() + j].id == ts[k].id);
        } else if ts[k].wallet_id == id {
            let j = choose|j: int| 0 <= j < history.len() && #[trigger] history[j].id == ts[k].id;
            assert(after[j].id == ts[k].id);
        }
    }
    lemma_new_transactions_empty(ts, id, after);
}

/// A batch whose only new transaction has the sum `t.sum` (of either sign) fits exactly when
/// the balance plus that sum stays within `i64`: adding up one `i64` never overflows.
pub proof fn law_single_new_transaction_fits(t: Transaction, id: u128, history: Seq<Transaction>, ballance: i64)
    requires
        is_new(t, id, history),
    ensures
        new_transactions(seq![t], id, history) == seq![t],
        total(new_transactions(seq![t], id, history)) == t.sum,
        running_totals_fit(new_transactions(seq![t], id, history)),
        (running_totals_fit(new_transactions(seq![t], id, history)) && i64::MIN <= ballance + total(
            new_transactions(seq![t], id, history),
        ) <= i64::MAX) <==> (i64::MIN <= ballance + t.sum <= i64::MAX),
{
    let one = seq![t];
    assert(one.drop_last() =~= Seq::<Transaction>::empty());
    assert(new_transactions(Seq::<Transaction>::empty(), id, history) =~= Seq::<Transaction>::empty());
    assert(new_transactions(one, id, history) =~= one);
    assert(total(Seq::<Transaction>::empty()) == 0);
    assert(one.take(0) =~= Seq::<Transaction>::empty());
    assert(one.take(1) =~= one);
    assert forall|k: int| 0 <= k <= one.len() implies i64::MIN <= #[trigger] total(one.take(k))
        <= i64::MAX by {
        if k == 0 {
            assert(one.take(k) =~= Seq::<Transaction>::empty());
        } else {
            assert(one.take(k) =~= one);
        }
    }
}

/// Every running total of a batch stays within `i64` when its sums are all of one sign and
/// their total does: in particular withdrawals (negative sums) are as welcome as deposits.
pub proof fn law_running_totals_of_one_sign_fit(ts: Seq<Transaction>)
    requires
        (forall|i: int| 0 <= i < ts.len() ==> #[trigger] ts[i].sum <= 0) || (forall|i: int|
            0 <= i < ts.len() ==> #[trigger] ts[i].sum >= 0),
        i64::MIN <= total(ts) <= i64::MAX,
    ensures
        running_totals_fit(ts),
{
    assert forall|k: int| 0 <= k <= ts.len() implies i64::MIN <= #[trigger] total(ts.take(k))
        <= i64::MAX by {
        lemma_total_prefix_between(ts, k);
    }
}

proof fn lemma_total_prefix_between(ts: Seq<Transaction>, k: int)
    requires
        0 <= k <= ts.len(),
        (forall|i: int| 0 <= i < ts.len() ==> #[trigger] ts[i].sum <= 0) || (forall|i: int|
            0 <= i < ts.len() ==> #[trigger] ts[i].sum >= 0),
    ensures
        (forall|i: int| 0 <= i < ts.len() ==> #[trigger] ts[i].sum <= 0) ==> total(ts) <= total(
            ts.take(k),
        ) <= 0,
        (forall|i: int| 0 <= i < ts.len() ==> #[trigger] ts[i].sum >= 0) ==> 0 <= total(ts.take(k))
            <= total(ts),
    decreases ts.len(), k,
{
    if ts.len() == 0 {
        assert(ts.take(k) =~= ts);
    } else if k == ts.len() {
        assert(ts.take(k) =~= ts);
        lemma_total_prefix_between(ts, 0);
    } else {
        let dl = ts.drop_last();
        assert forall|i: int| 0 <= i < dl.len() implies #[trigger] dl[i].sum == ts[i].sum by {}
        lemma_total_prefix_between(dl, k);
        assert(dl.take(k) =~= ts.take(k));
        assert(ts.last().sum == ts[ts.len() - 1].sum);
    }
}

/// Tells whether some transaction of `history` has the id `id`.
fn seen(history: &Vec<Transaction>, id: u128) -> (r: bool)
    ensures
        r == exists|j: int| 0 <= j < history@.len() && #[trigger] history@[j].id == id,
{
    let mut i: usize = 0;
    while i < history.len()
        invariant
            0 <= i <= history.len(),
            forall|j: int| 0 <= j < i ==> #[trigger] history@[j].id != id,
        decreases history.len() - i,
    {
        if history[i].id == id {
            return true;
        }
        i = i + 1;
    }
    false
}

impl Wallet {
    /// Tells whether `update` can take in this batch without an amount leaving `i64`:
    /// neither the running total of the new transactions nor the final balance may.
    pub fn update_fits(&self, transactions: &Vec<Transaction>) -> (r: bool)
        ensures
            r == (running_totals_fit(new_transactions(transactions@, self.id, self.latest_history@))
                && i64::MIN <= self.ballance + total(
                new_transactions(transactions@, self.id, self.latest_history@),
            ) <= i64::MAX),
            r == ((forall|k: int|
                0 <= k <= new_transactions(transactions@, self.id, self.latest_history@).len()
                    ==> i64::MIN <= #[trigger] total(
                    new_transactions(transactions@, self.id, self.latest_history@).take(k),
                ) <= i64::MAX) && i64::MIN <= self.ballance + total(
                new_transactions(transactions@, self.id, self.latest_history@),
            ) <= i64::MAX),
    {
        let ghost fresh = new_transactions(transactions@, self.id, self.latest_history@);
        let mut sum: i64 = 0;
        let mut count: usize = 0;
        let mut i: usize = 0;
        assert(transactions@.take(0) =~= Seq::<Transaction>::empty());
        assert(fresh.take(0) =~= Seq::<Transaction>::empty());
        while i < transactions.len()
            invariant
                0 <= i <= transactions.len(),
                fresh == new_transactions(transactions@, self.id, self.latest_history@),
                count == new_transactions(transactions@.take(i as int), self.id, self.latest_history@).len(),
                count <= fresh.len(),
                count <= i,
                fresh.take(count as int) == new_transactions(transactions@.take(i as int), self.id, self.latest_history@),
                sum == total(fresh.take(count as int)),
                forall|k: int| 0 <= k <= count ==> i64::MIN <= #[trigger] total(fresh.take(k)) <= i64::MAX,
            decreases transactions.len() - i,
        {
            let t = transactions[i];
            proof {
                assert(transactions@.take(i + 1).drop_last() =~= transactions@.take(i as int));
                assert(transactions@.take(i + 1).last() == t);
                lemma_new_transactions_prefix(transactions@, self.id, self.latest_history@, i + 1);
                lemma_new_transactions_prefix(transactions@, self.id, self.latest_history@, i as int);
            }
            if t.wallet_id == self.id && !seen(&self.latest_history, t.id) {
                proof {
                    let prev = fresh.take(count as int);
                    let next = prev.push(t);
                    assert(next == fresh.take(count + 1));
                    assert(next.drop_last() =~= prev);
                }
                match sum.checked_add(t.sum) {
                    Some(s) => {
                        sum = s;
                    },
                    None => {
                        proof {
                            assert(count + 1 <= fresh.len());
                            assert(total(fresh.take(count + 1)) == sum + t.sum);
                            assert(!(i64::MIN <= total(fresh.take(count + 1)) <= i64::MAX));
                            assert(!running_totals_fit(fresh));
                        }
                        return false;
                    },
                }
                count = count + 1;
            }
            i = i + 1;
        }
        assert(transactions@.take(i as int) =~= transactions@);
        assert(fresh.take(count as int) =~= fresh);
        self.ballance.checked_add(sum).is_some()
    }

    /// Takes in the transactions of the batch that are for this wallet and whose ids are not
    /// in its history yet: their amounts are added to the balance and they are appended
    /// to the history, in order. Returns how many were taken in.
    pub fn update(&mut self, transactions: Vec<Transaction>) -> (r: usize)
        requires
            running_totals_fit(new_transactions(transactions@, old(self).id, old(self).latest_history@)),
            i64::MIN <= old(self).ballance + total(
                new_transactions(transactions@, old(self).id, old(self).latest_history@),
            ) <= i64::MAX,
        ensures
            ({
                let fresh = new_transactions(transactions@, old(self).id, old(self).latest_history@);
                &&& r == fresh.len()
                &&& final(self).id == old(self).id
                &&& final(self).ballance == old(self).ballance + total(fresh)
                &&& final(self).latest_history@ == old(self).latest_history@ + fresh
            }),
    {
        let ghost fresh = new_transactions(transactions@, self.id, self.latest_history@);
        let mut added: Vec<Transaction> = Vec::new();
        let mut sum: i64 = 0;
        let mut i: usize = 0;
        assert(transactions@.take(0) =~= Seq::<Transaction>::empty());
        while i < transactions.len()
            invariant
                0 <= i <= transactions.len(),
                fresh == new_transactions(transactions@, self.id, self.latest_history@),
                running_totals_fit(fresh),
                added@ == new_transactions(transactions@.take(i as int), self.id, self.latest_history@),
                sum == total(added@),
            decreases transactions.len() - i,
        {
            let t = transactions[i];
            proof {
                assert(transactions@.take(i + 1).drop_last() =~= transactions@.take(i as int));
                assert(transactions@.take(i + 1).last() == t);
                lemma_new_transactions_prefix(transactions@, self.id, self.latest_history@, i + 1);
            }
            if t.wallet_id == self.id && !seen(&self.latest_history, t.id) {
                proof {
                    let next = added@.push(t);
                    assert(next == fresh.take(next.len() as int));
                    assert(next.drop_last() =~= added@);
                    assert(total(fresh.take(next.len() as int)) == sum + t.sum);
                }
                sum = sum + t.sum;
                added.push(t);
            }
            i = i + 1;
        }
        assert(transactions@.take(i as int) =~= transactions@);
        self.ballance = self.ballance + sum;
        let count = added.len();
        self.latest_history.append(&mut added);
        count
    }
}

} // verus!
