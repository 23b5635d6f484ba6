use bank_system::errors::{BalanceManager, BalanceManagerError};
use bank_system::Storage;

#[test]
fn test_add_user() {
    let mut storage = Storage::new();
    assert_eq!(storage.add_user("Alice".to_string()), Some(0));
    assert_eq!(storage.add_user("Alice".to_string()), None);
}

#[test]
fn test_remove_user() {
    let mut storage = Storage::new();
    storage.add_user("Bob".to_string());
    storage.deposit(&"Bob".to_string(), 100).unwrap();

    assert_eq!(storage.remove_user(&"Bob".to_string()), Some(100));
    assert_eq!(storage.remove_user(&"Bob".to_string()), None);
}

#[test]
fn test_nonexistent_user() {
    let mut storage = Storage::new();

    assert!(storage.deposit(&"Dana".to_string(), 100).is_err());
    assert!(storage.withdraw(&"Dana".to_string(), 50).is_err());
    assert_eq!(storage.get_balance(&"Dana".to_string()), None);
}

#[test]
fn deposit_unknown_user_names_the_user() {
    let mut storage = Storage::new();
    match storage.deposit(&"Dana".to_string(), 5) {
        Err(BalanceManagerError::UserNotFound(name)) => assert_eq!(name, "Dana"),
        other => panic!("unexpected {:?}", other),
    }
}

#[test]
fn withdraw_reports_missing_funds() {
    let mut storage = Storage::new();
    storage.add_user("Eve".to_string());
    storage.deposit(&"Eve".to_string(), 30).unwrap();
    match storage.withdraw(&"Eve".to_string(), 31) {
        Err(BalanceManagerError::NotEnoughMoney { required, available }) => {
            assert_eq!(required, 31);
            assert_eq!(available, 30);
        }
        other => panic!("unexpected {:?}", other),
    }
    assert_eq!(storage.get_balance(&"Eve".to_string()), Some(30));
    assert!(storage.withdraw(&"Eve".to_string(), 30).is_ok());
    assert_eq!(storage.get_balance(&"Eve".to_string()), Some(0));
}

#[test]
fn withdraw_unknown_user_names_the_user() {
    let mut storage = Storage::new();
    match storage.withdraw(&"Zed".to_string(), 1) {
        Err(BalanceManagerError::UserNotFound(name)) => assert_eq!(name, "Zed"),
        other => panic!("unexpected {:?}", other),
    }
}

#[test]
fn negative_deposit_lowers_the_balance() {
    let mut storage = Storage::new();
    storage.add_user("Ann".to_string());
    storage.deposit(&"Ann".to_string(), -7).unwrap();
    assert_eq!(storage.get_balance(&"Ann".to_string()), Some(-7));
    assert!(storage.withdraw(&"Ann".to_string(), 0).is_err());
    assert!(storage.withdraw(&"Ann".to_string(), -8).is_ok());
    assert_eq!(storage.get_balance(&"Ann".to_string()), Some(1));
}

#[test]
fn deposit_then_withdraw_restores_balances() {
    let mut storage = Storage::new();
    storage.add_user("Kim".to_string());
    storage.deposit(&"Kim".to_string(), 12).unwrap();
    storage.deposit(&"Kim".to_string(), 40).unwrap();
    storage.withdraw(&"Kim".to_string(), 40).unwrap();
    assert_eq!(storage.get_balance(&"Kim".to_string()), Some(12));
}

#[test]
fn other_accounts_are_untouched() {
    let mut storage = Storage::new();
    storage.add_user("A".to_string());
    storage.add_user("B".to_string());
    storage.deposit(&"A".to_string(), 9).unwrap();
    storage.deposit(&"B".to_string(), 4).unwrap();
    storage.withdraw(&"A".to_string(), 2).unwrap();
    storage.remove_user(&"A".to_string());
    assert_eq!(storage.get_balance(&"B".to_string()), Some(4));
    assert_eq!(storage.get_balance(&"A".to_string()), None);
}

#[test]
fn remove_after_add_leaves_nothing() {
    let mut storage = Storage::default();
    assert_eq!(storage.add_user("Tom".to_string()), Some(0));
    assert_eq!(storage.get_balance(&"Tom".to_string()), Some(0));
    assert_eq!(storage.remove_user(&"Tom".to_string()), Some(0));
    assert!(storage.get_all().is_empty());
}

#[test]
fn get_all_lists_each_account_once() {
    let mut storage = Storage::new();
    storage.add_user("X".to_string());
    storage.add_user("Y".to_string());
    storage.add_user("X".to_string());
    storage.deposit(&"Y".to_string(), 3).unwrap();
    let mut all = storage.get_all();
    all.sort();
    assert_eq!(all, vec![("X".to_string(), 0), ("Y".to_string(), 3)]);
}

#[test]
fn balance_manager_trait_matches_storage() {
    let mut storage = Storage::new();
    storage.add_user("Lee".to_string());
    assert!(BalanceManager::deposit(&mut storage, &"Lee".to_string(), &25).is_ok());
    assert!(BalanceManager::withdraw(&mut storage, &"Lee".to_string(), 10).is_ok());
    assert!(BalanceManager::withdraw(&mut storage, &"Lee".to_string(), 16).is_err());
    assert!(BalanceManager::deposit(&mut storage, &"Nobody".to_string(), &1).is_err());
    assert_eq!(storage.get_balance(&"Lee".to_string()), Some(15));
}
