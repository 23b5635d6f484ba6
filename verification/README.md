# bank_system

A small bank, verified with Verus.

- `src/storage.rs`: the account store (`Storage`), its map model and the laws of its operations.
- `src/errors.rs`: `BalanceManagerError` and the `BalanceManager` trait, implemented by `Storage`.
- `src/transaction.rs`: deposits, withdrawals and transfers as `Transaction`s.
- `src/wallet.rs`: `Wallet`, which takes in batches of `Transaction` records at most once each.
- `src/text.rs`: whitespace trimming and decimal `i64` reading and writing.
- `src/csv.rs`: the `name,balance` text form of the accounts, read and written.
- `app/main.rs`: the file side (loading and saving) and the wallet demonstration.
