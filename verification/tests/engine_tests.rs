use snapshot_merger::account::{AccountKey, AccountRecord, Authorities, OwnerClass};
use snapshot_merger::bank::{Bank, BankPhase, WarpError};
use snapshot_merger::merge;
use snapshot_merger::plan::{self, MergePolicy};
use snapshot_merger::store::AccountStore;

fn key(n: u64) -> AccountKey {
    AccountKey { w0: n, w1: 0, w2: 0, w3: 0 }
}

fn record(lamports: u64, data_len: usize, owner: AccountKey) -> AccountRecord {
    AccountRecord {
        lamports,
        data: vec![0; data_len],
        owner,
        executable: false,
        rent_epoch: 0,
    }
}

fn auth() -> Authorities {
    Authorities { vote: key(101), stake: key(102) }
}

fn bank_of(slot: u64, entries: Vec<(AccountKey, AccountRecord)>, cap: u64) -> Bank {
    let mut accounts = AccountStore::new();
    for (k, r) in entries {
        accounts.upsert(k, r);
    }
    Bank::new_root(slot, key(99), accounts, cap)
}

// Target with one account per class, used by several cases below.
fn mixed_target() -> Bank {
    bank_of(
        10,
        vec![
            (key(1), record(100, 0, key(50))),      // A: Other
            (key(2), record(200, 0, key(101))),     // B: Vote
            (key(3), record(300, 0, key(102))),     // C: Stake
        ],
        600,
    )
}

fn empty_bank(slot: u64) -> Bank {
    bank_of(slot, vec![], 0)
}

#[test]
fn partition_covers_every_account_exactly_once() {
    let bank = mixed_target();
    let a = auth();
    let votes = merge::classify_accounts(&bank, OwnerClass::Vote, &a);
    let stakes = merge::classify_accounts(&bank, OwnerClass::Stake, &a);
    let others = merge::classify_accounts(&bank, OwnerClass::Other, &a);
    let total = merge::count_total_accounts(&bank);
    assert_eq!(votes.len() + stakes.len() + others.len(), total);
    assert_eq!(votes.len(), 1);
    assert_eq!(stakes.len(), 1);
    assert_eq!(others.len(), 1);
    // Pairwise exclusive: each classified key turns up in exactly one class.
    assert!(votes.get(&key(2)).is_some());
    assert!(stakes.get(&key(2)).is_none());
    assert!(others.get(&key(2)).is_none());
}

#[test]
fn partition_tie_breaks_vote_over_stake() {
    // Defensive tie-break: with both authorities equal, everything they own
    // classifies as Vote, never as Stake.
    let same = Authorities { vote: key(7), stake: key(7) };
    let bank = bank_of(0, vec![(key(1), record(10, 0, key(7)))], 10);
    let votes = merge::classify_accounts(&bank, OwnerClass::Vote, &same);
    let stakes = merge::classify_accounts(&bank, OwnerClass::Stake, &same);
    assert_eq!(votes.len(), 1);
    assert_eq!(stakes.len(), 0);
}

#[test]
fn exclusion_keeps_exactly_the_other_class() {
    let a = auth();
    let target = mixed_target();
    let source = empty_bank(0);
    let (chain, stats) = merge::merge_snapshots(
        target,
        &source,
        MergePolicy::OwnershipClassExclusion,
        &a,
        1_000_000,
        None,
    )
    .unwrap();
    let fin = chain.last().unwrap();
    // The Other account survives untouched.
    let kept = fin.store().get(&key(1)).unwrap();
    assert_eq!(kept.lamports, 100);
    // The Vote and Stake accounts are tombstoned, not deleted.
    let b = fin.store().get(&key(2)).unwrap();
    assert_eq!(b.lamports, 0);
    assert_eq!(b.owner, key(101));
    let c = fin.store().get(&key(3)).unwrap();
    assert_eq!(c.lamports, 0);
    // Size-for-size: one live account, the Other class.
    assert_eq!(stats.vote_accounts_excluded, 1);
    assert_eq!(stats.stake_accounts_excluded, 1);
    assert_eq!(stats.final_total_accounts, 3);
    assert_eq!(stats.capitalization_after, 100);
}

#[test]
fn overwrite_yields_target_other_plus_source_validators() {
    let a = auth();
    // Target accounts {A(Other), B(Vote), C(Stake)}.
    let target = mixed_target();
    // Source accounts {D(Vote), E(Stake)}.
    let source = bank_of(
        5,
        vec![
            (key(4), record(400, 0, key(101))),     // D: Vote
            (key(5), record(500, 0, key(102))),     // E: Stake
        ],
        900,
    );
    let (chain, stats) = merge::merge_snapshots(
        target,
        &source,
        MergePolicy::CrossSourceOverwrite,
        &a,
        1_000_000,
        None,
    )
    .unwrap();
    let fin = chain.last().unwrap();
    // Final set {A, D, E}: A kept, D and E copied in, B and C tombstoned.
    assert_eq!(fin.store().get(&key(1)).unwrap().lamports, 100);
    assert_eq!(fin.store().get(&key(4)).unwrap().lamports, 400);
    assert_eq!(fin.store().get(&key(5)).unwrap().lamports, 500);
    assert_eq!(fin.store().get(&key(2)).unwrap().lamports, 0);
    assert_eq!(fin.store().get(&key(3)).unwrap().lamports, 0);
    assert_eq!(stats.final_total_accounts, 5);
    assert_eq!(stats.capitalization_after, 100 + 400 + 500);
    assert_eq!(stats.capitalization_before, 600);
}

#[test]
fn reconcile_zero_one_and_boundary() {
    // No accounts: the aggregate is zero.
    let mut b0 = empty_bank(0);
    assert_eq!(b0.reconcile_capitalization(), 0);
    assert_eq!(b0.capitalization(), 0);

    // One account: the aggregate is its balance, exactly.
    let mut b1 = bank_of(0, vec![(key(1), record(12_345, 0, key(50)))], 7);
    assert_eq!(b1.reconcile_capitalization(), 12_345);
    assert_eq!(b1.capitalization(), 12_345);

    // One account at the 64-bit boundary: kept exactly.
    let mut b2 = bank_of(0, vec![(key(1), record(u64::MAX, 0, key(50)))], 0);
    assert_eq!(b2.reconcile_capitalization(), u64::MAX);

    // Beyond the boundary the sum saturates.
    let mut b3 = bank_of(
        0,
        vec![
            (key(1), record(u64::MAX, 0, key(50))),
            (key(2), record(1, 0, key(50))),
        ],
        0,
    );
    assert_eq!(b3.reconcile_capitalization(), u64::MAX);
}

#[test]
fn reconcile_overwrites_stale_aggregate() {
    // The stored aggregate starts wrong on purpose; reconciliation fixes it.
    let mut b = bank_of(0, vec![(key(1), record(70, 0, key(50)))], 9_999);
    assert_eq!(b.capitalization(), 9_999);
    let recomputed = b.reconcile_capitalization();
    assert_eq!(recomputed, 70);
    assert_eq!(b.capitalization(), 70);
}

#[test]
fn three_records_batch_into_two_slots() {
    // Three records with empty data each cost 512; with a limit of 1000 the
    // second record reaches 1024, so it closes the first slot and the third
    // record lands alone in a second slot.
    let base = empty_bank(5);
    let mut records = AccountStore::new();
    records.upsert(key(1), record(10, 0, key(50)));
    records.upsert(key(2), record(20, 0, key(50)));
    records.upsert(key(3), record(30, 0, key(50)));
    let chain = merge::add_accounts(base, &records, 1_000);
    assert_eq!(chain.len(), 2);
    assert_eq!(chain[0].slot(), 5);
    assert_eq!(chain[1].slot(), 6);
    // First slot took two records; the second holds all three cumulatively.
    assert_eq!(merge::count_total_accounts(&chain[0]), 2);
    assert_eq!(merge::count_total_accounts(&chain[1]), 3);
    assert_eq!(chain[0].phase(), BankPhase::Squashed);
    assert!(chain[0].is_flushed());
    assert_eq!(chain[1].phase(), BankPhase::Working);
    assert!(chain[1].is_flushed());
    assert_eq!(chain[1].parent_slot(), Some(5));
}

#[test]
fn batching_is_deterministic() {
    let mk = || {
        let mut records = AccountStore::new();
        records.upsert(key(1), record(10, 700, key(50)));
        records.upsert(key(2), record(20, 100, key(50)));
        records.upsert(key(3), record(30, 900, key(50)));
        records
    };
    let chain_a = merge::add_accounts(empty_bank(0), &mk(), 1_000);
    let chain_b = merge::add_accounts(empty_bank(0), &mk(), 1_000);
    assert_eq!(chain_a.len(), chain_b.len());
    for (x, y) in chain_a.iter().zip(chain_b.iter()) {
        assert_eq!(x.slot(), y.slot());
        assert_eq!(merge::count_total_accounts(x), merge::count_total_accounts(y));
    }
}

#[test]
fn warp_rejects_working_parent() {
    let parent = empty_bank(3);
    let r = Bank::warp_from_parent(&parent, key(99), 100);
    assert_eq!(r.err().unwrap(), WarpError::NotSquashed);
}

#[test]
fn warp_rejects_unflushed_parent() {
    let mut parent = empty_bank(3);
    parent.store_account(key(1), record(5, 0, key(50)));
    parent.squash();
    let r = Bank::warp_from_parent(&parent, key(99), 100);
    assert_eq!(r.err().unwrap(), WarpError::NotFlushed);
}

#[test]
fn warp_rejects_slot_not_ahead() {
    let mut parent = empty_bank(3);
    parent.squash();
    parent.force_flush();
    let r = Bank::warp_from_parent(&parent, key(99), 3);
    assert_eq!(r.err().unwrap(), WarpError::SlotNotAhead);
}

#[test]
fn warp_lands_exactly_on_target() {
    let mut parent = bank_of(3, vec![(key(1), record(5, 0, key(50)))], 5);
    parent.squash();
    parent.force_flush();
    let warped = Bank::warp_from_parent(&parent, key(99), 1_000).unwrap();
    assert_eq!(warped.slot(), 1_000);
    assert_eq!(warped.parent_slot(), Some(3));
    assert_eq!(warped.phase(), BankPhase::Working);
    assert_eq!(warped.store().get(&key(1)).unwrap().lamports, 5);
}

#[test]
fn merge_with_warp_lands_on_requested_slot() {
    let a = auth();
    let (chain, _stats) = merge::merge_snapshots(
        mixed_target(),
        &empty_bank(0),
        MergePolicy::OwnershipClassExclusion,
        &a,
        1_000_000,
        Some(5_000),
    )
    .unwrap();
    let fin = chain.last().unwrap();
    assert_eq!(fin.slot(), 5_000);
    assert_eq!(fin.phase(), BankPhase::Working);
}

#[test]
fn merge_with_stale_warp_slot_fails() {
    let a = auth();
    let r = merge::merge_snapshots(
        mixed_target(),
        &empty_bank(0),
        MergePolicy::OwnershipClassExclusion,
        &a,
        1_000_000,
        Some(1),
    );
    assert_eq!(r.err().unwrap(), WarpError::SlotNotAhead);
}

#[test]
fn remove_vote_accounts_tombstones_in_place() {
    let a = auth();
    let mut bank = mixed_target();
    let removed = merge::remove_vote_accounts(&mut bank, &a);
    assert_eq!(removed, 1);
    // The key survives with a zero balance and its data intact.
    let tomb = bank.store().get(&key(2)).unwrap();
    assert_eq!(tomb.lamports, 0);
    assert_eq!(tomb.owner, key(101));
    assert_eq!(merge::count_total_accounts(&bank), 3);
}

#[test]
fn remove_stake_accounts_tombstones_in_place() {
    let a = auth();
    let mut bank = mixed_target();
    let removed = merge::remove_stake_accounts(&mut bank, &a);
    assert_eq!(removed, 1);
    assert_eq!(bank.store().get(&key(3)).unwrap().lamports, 0);
}

#[test]
fn extract_system_accounts_selects_zero_owner() {
    let a = auth();
    let bank = bank_of(
        0,
        vec![
            (key(1), record(10, 0, AccountKey::zero())),
            (key(2), record(20, 0, key(50))),
        ],
        30,
    );
    let sys = merge::extract_system_accounts(&bank, &a);
    assert_eq!(sys.len(), 1);
    assert!(sys.get(&key(1)).is_some());
}

#[test]
fn extract_vote_accounts_copies_records() {
    // Through a public function, a wrapper-less extraction must hand back
    // the very record contents, not its input unchanged.
    let a = auth();
    let bank = bank_of(0, vec![(key(2), record(200, 4, key(101)))], 200);
    let votes = merge::extract_vote_accounts(&bank, &a);
    assert_eq!(votes.len(), 1);
    let rec = votes.get(&key(2)).unwrap();
    assert_eq!(rec.lamports, 200);
    assert_eq!(rec.data.len(), 4);
}

#[test]
fn store_upsert_replaces_and_get_finds() {
    let mut s = AccountStore::new();
    s.upsert(key(1), record(10, 0, key(50)));
    s.upsert(key(1), record(20, 0, key(50)));
    assert_eq!(s.len(), 1);
    assert_eq!(s.get(&key(1)).unwrap().lamports, 20);
    assert!(s.get(&key(2)).is_none());
}

#[test]
fn plan_counts_excluded_classes() {
    let a = auth();
    let target = mixed_target();
    let source = empty_bank(0);
    let p = plan::plan_merge(MergePolicy::OwnershipClassExclusion, &target, &source, &a);
    assert_eq!(p.excluded_vote, 1);
    assert_eq!(p.excluded_stake, 1);
    assert_eq!(p.accepted.len(), 3);
}

#[test]
fn lifecycle_runs_one_way_to_archived() {
    let mut b = bank_of(0, vec![(key(1), record(5, 0, key(50)))], 5);
    assert_eq!(b.phase(), BankPhase::Working);
    b.squash();
    assert_eq!(b.phase(), BankPhase::Squashed);
    b.force_flush();
    b.archive();
    assert_eq!(b.phase(), BankPhase::Archived);
    // Contents survive the whole lifecycle untouched.
    assert_eq!(b.store().get(&key(1)).unwrap().lamports, 5);
}
