use bank_system::transaction::{Deposit, Transaction, Transfer, TxError, Withdraw};
use bank_system::Storage;

fn bank() -> Storage {
    let mut storage = Storage::new();
    storage.add_user("A".to_string());
    storage.add_user("B".to_string());
    storage.deposit(&"A".to_string(), 50).unwrap();
    storage
}

#[test]
fn deposit_transaction() {
    let mut storage = bank();
    let tx = Deposit { account: "B".to_string(), amount: 8 };
    assert!(tx.apply(&mut storage).is_ok());
    assert_eq!(storage.get_balance(&"B".to_string()), Some(8));
    let tx = Deposit { account: "C".to_string(), amount: 8 };
    assert!(matches!(tx.apply(&mut storage), Err(TxError::InvalidAccount)));
}

#[test]
fn withdraw_transaction() {
    let mut storage = bank();
    let tx = Withdraw { account: "A".to_string(), amount: 51 };
    assert!(matches!(tx.apply(&mut storage), Err(TxError::InsufficientFunds)));
    assert_eq!(storage.get_balance(&"A".to_string()), Some(50));
    let tx = Withdraw { account: "A".to_string(), amount: 50 };
    assert!(tx.apply(&mut storage).is_ok());
    assert_eq!(storage.get_balance(&"A".to_string()), Some(0));
    let tx = Withdraw { account: "Q".to_string(), amount: 1 };
    assert!(matches!(tx.apply(&mut storage), Err(TxError::InvalidAccount)));
}

#[test]
fn transfer_transaction_moves_money() {
    let mut storage = bank();
    let tx = Transfer { from: "A".to_string(), to: "B".to_string(), amount: 20 };
    assert!(tx.apply(&mut storage).is_ok());
    assert_eq!(storage.get_balance(&"A".to_string()), Some(30));
    assert_eq!(storage.get_balance(&"B".to_string()), Some(20));
    let tx = Transfer { from: "B".to_string(), to: "A".to_string(), amount: 21 };
    assert!(matches!(tx.apply(&mut storage), Err(TxError::InsufficientFunds)));
    let tx = Transfer { from: "A".to_string(), to: "Z".to_string(), amount: 1 };
    assert!(matches!(tx.apply(&mut storage), Err(TxError::InvalidAccount)));
    assert_eq!(storage.get_balance(&"A".to_string()), Some(30));
    let tx = Transfer { from: "A".to_string(), to: "A".to_string(), amount: 30 };
    assert!(tx.apply(&mut storage).is_ok());
    assert_eq!(storage.get_balance(&"A".to_string()), Some(30));
}
