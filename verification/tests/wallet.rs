use bank_system::{OpKind, Transaction, Wallet};

fn history() -> Vec<Transaction> {
    vec![(0, 32, 100).into(), (1, 32, -50).into(), (4, 32, 150).into()]
}

#[test]
fn wallet_takes_in_only_new_transactions() {
    let mut wallet = Wallet { id: 32, ballance: 100, latest_history: history() };
    let updates1: Vec<Transaction> = vec![
        (2, 10, -500).into(),
        (3, 21, 10000).into(),
        (4, 32, 150).into(),
        (5, 32, 50).into(),
        (6, 10, 1000).into(),
        (8, 32, 50).into(),
    ];
    let updates2: Vec<Transaction> = vec![
        Transaction::from((4, 32, 150)),
        (7, 32, 100).into(),
        (10, 10, 100).into(),
        (11, 32, -50).into(),
    ];
    assert_eq!(wallet.update(updates1), 2);
    assert_eq!(wallet.ballance, 200);
    assert_eq!(wallet.update(updates2), 2);
    assert_eq!(wallet.ballance, 250);
    let ids: Vec<u128> = wallet.latest_history.iter().map(|t| t.id).collect();
    assert_eq!(ids, vec![0, 1, 4, 5, 8, 7, 11]);
}

#[test]
fn wallet_update_twice_adds_nothing() {
    let mut wallet = Wallet { id: 7, ballance: 0, latest_history: Vec::new() };
    let batch: Vec<Transaction> = vec![(1, 7, 10).into(), (2, 7, -3).into(), (3, 8, 99).into()];
    assert_eq!(wallet.update(batch.clone()), 2);
    assert_eq!(wallet.ballance, 7);
    assert_eq!(wallet.update(batch), 0);
    assert_eq!(wallet.ballance, 7);
    assert_eq!(wallet.latest_history.len(), 2);
}

#[test]
fn wallet_counts_repeats_within_one_batch() {
    let mut wallet = Wallet { id: 1, ballance: 0, latest_history: Vec::new() };
    let batch: Vec<Transaction> = vec![(5, 1, 10).into(), (5, 1, 10).into()];
    assert_eq!(wallet.update(batch), 2);
    assert_eq!(wallet.ballance, 20);
}

#[test]
fn transaction_from_tuple() {
    let t = Transaction::from((9, 3, -4));
    assert_eq!(t.id, 9);
    assert_eq!(t.wallet_id, 3);
    assert_eq!(t.sum, -4);
}

#[test]
fn op_kinds_can_be_built() {
    let ops = [OpKind::Deposit(32), OpKind::Withdraw(64), OpKind::CloseAccount];
    assert_eq!(ops.len(), 3);
    assert!(matches!(ops[0].clone(), OpKind::Deposit(32)));
}

#[test]
fn update_fits_spots_overflow() {
    let wallet = Wallet { id: 1, ballance: i64::MAX - 5, latest_history: Vec::new() };
    let small: Vec<Transaction> = vec![(1, 1, 5).into(), (2, 2, 100).into()];
    assert!(wallet.update_fits(&small));
    let big: Vec<Transaction> = vec![(1, 1, 6).into()];
    assert!(!wallet.update_fits(&big));
    let running: Vec<Transaction> = vec![(1, 1, i64::MAX).into(), (2, 1, 1).into(), (3, 1, -10).into()];
    let empty = Wallet { id: 1, ballance: 0, latest_history: Vec::new() };
    assert!(!empty.update_fits(&running));
}
