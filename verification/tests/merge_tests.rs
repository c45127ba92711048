use snapshot_merger::account::{AccountKey, AccountRecord, Authorities};
use snapshot_merger::bank::Bank;
use snapshot_merger::merge;
use snapshot_merger::store::AccountStore;

fn key(n: u64) -> AccountKey {
    AccountKey { w0: n, w1: 0, w2: 0, w3: 0 }
}

fn record(lamports: u64, data_len: usize, owner: AccountKey) -> AccountRecord {
    AccountRecord {
        lamports,
        data: vec![0; data_len],
        owner,
        executable: false,
        rent_epoch: 0,
    }
}

fn test_authorities() -> Authorities {
    Authorities { vote: key(101), stake: key(102) }
}

// A minimal bank for testing: a few plain system accounts, no validators.
fn create_test_bank() -> Bank {
    let mut accounts = AccountStore::new();
    accounts.upsert(key(1), record(1_000, 0, AccountKey::zero()));
    accounts.upsert(key(2), record(2_000, 8, AccountKey::zero()));
    accounts.upsert(key(3), record(3_000, 16, AccountKey::zero()));
    Bank::new_root(0, key(99), accounts, 6_000)
}

#[test]
fn test_count_total_accounts() {
    let bank = create_test_bank();
    let count = merge::count_total_accounts(&bank);
    // A fresh bank should have at least some accounts (system program, etc.)
    assert!(count > 0);
}

#[test]
fn test_inspect_bank_contents() {
    let bank = create_test_bank();
    let auth = test_authorities();

    // Print total accounts
    let count = merge::count_total_accounts(&bank);
    println!("Total accounts in test bank: {}", count);

    // Check if any vote/stake accounts exist
    let vote_accounts = merge::extract_vote_accounts(&bank, &auth);
    let stake_accounts = merge::extract_stake_accounts(&bank, &auth);

    println!("Vote accounts: {}", vote_accounts.len());
    println!("Stake accounts: {}", stake_accounts.len());

    assert_eq!(vote_accounts.len(), 0);
    assert_eq!(stake_accounts.len(), 0);
}

#[test]
fn test_extract_vote_accounts() {
    let bank = create_test_bank();
    let auth = test_authorities();
    let accounts = merge::extract_vote_accounts(&bank, &auth);
    // A fresh test bank has no vote accounts by default
    assert_eq!(accounts.len(), 0);
}

#[test]
fn test_extract_stake_accounts() {
    let bank = create_test_bank();
    let auth = test_authorities();
    let accounts = merge::extract_stake_accounts(&bank, &auth);
    // A fresh test bank has no stake accounts by default
    assert_eq!(accounts.len(), 0);
}

#[test]
fn test_remove_vote_accounts_with_no_accounts() {
    let mut bank = create_test_bank();
    let auth = test_authorities();
    let count = merge::remove_vote_accounts(&mut bank, &auth);
    // Should return 0 when there are no vote accounts to remove
    assert_eq!(count, 0);
}

#[test]
fn test_remove_stake_accounts_with_no_accounts() {
    let mut bank = create_test_bank();
    let auth = test_authorities();
    let count = merge::remove_stake_accounts(&mut bank, &auth);
    // Should return 0 when there are no stake accounts to remove
    assert_eq!(count, 0);
}

#[test]
fn test_add_accounts() {
    let bank = create_test_bank();
    let mut accounts = AccountStore::new();

    // Create a dummy account
    let account = AccountRecord {
        lamports: 1000,
        data: vec![0; 100],
        owner: AccountKey::zero(),
        executable: false,
        rent_epoch: 0,
    };

    accounts.upsert(key(7), account);

    // Adding accounts should not fail
    let chain = merge::add_accounts(bank, &accounts, u64::MAX);
    assert!(chain.len() >= 1);
}
