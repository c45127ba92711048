//! The merge engine's public functions: classification of accounts by
//! owning authority, removal (tombstoning) of validator accounts, batched
//! application of records onto a bank chain, and account counting.

use vstd::prelude::*;
use crate::account::{AccountKey, AccountRecord, RecordView, OwnerClass, Authorities,
    classify_owner, class_of};
use crate::bank::{Bank, WarpError, sum_lamports};
use crate::store::{AccountStore, map_of, keys_unique, has_key};

verus! {

broadcast use vstd::seq_lib::group_seq_properties;

/// Selects the entries owned by one fixed authority key.
pub open spec fn owned_pred(owner: AccountKey) -> spec_fn((AccountKey, RecordView)) -> bool {
    |e: (AccountKey, RecordView)| e.1.owner == owner
}

/// Selects the entries of one ownership class.
pub open spec fn class_pred(c: OwnerClass, auth: Authorities) -> spec_fn(
    (AccountKey, RecordView),
) -> bool {
    |e: (AccountKey, RecordView)| class_of(e.1.owner, auth) == c
}

/// Collects into a fresh store every account of `bank` that the selection
/// accepts: one ownership class under the given authorities, or one owner
/// key.  The ghost predicate `p` mirrors the selection, so the result is
/// pinned exactly: its entry list is the bank's filtered entry list.
fn extract_where(bank: &Bank, sel: &Authorities, class: Option<OwnerClass>, owner: Option<&AccountKey>)
    -> (r: AccountStore)
    requires
        class is Some <==> owner is None,
    ensures
        class matches Some(c) ==> r.entries() == bank@.entries.filter(class_pred(c, *sel)),
        owner matches Some(o) ==> r.entries() == bank@.entries.filter(owned_pred(*o)),
{
    broadcast use vstd::prelude::Seq::lemma_filter_push;

    let ghost p: spec_fn((AccountKey, RecordView)) -> bool = match class {
        Some(c) => class_pred(c, *sel),
        None => owned_pred(*owner.unwrap()),
    };
    let store = bank.store();
    store.well_formedness();
    let n = store.len();
    let mut r = AccountStore::new();
    let mut i: usize = 0;
    proof {
        assert(bank@.entries.take(0) =~= Seq::<(AccountKey, RecordView)>::empty());
        assert(bank@.entries.take(0).filter(p) =~= Seq::<(AccountKey, RecordView)>::empty());
    }
    while i < n
        invariant
            i <= n,
            n == bank@.entries.len(),
            store.entries() == bank@.entries,
            store@ == bank@.accounts(),
            keys_unique(bank@.entries),
            r.entries() == bank@.entries.take(i as int).filter(p),
            (match class {
                Some(c) => p == class_pred(c, *sel),
                None => owner matches Some(o) && p == owned_pred(*o),
            }),
            class is Some <==> owner is None,
        decreases n - i,
    {
        let key = store.key_at(i);
        let rec = store.record_at(i);
        let selected = match class {
            Some(c) => {
                let oc = classify_owner(&rec.owner, sel);
                oc == c
            },
            None => rec.owner == *owner.unwrap(),
        };
        proof {
            assert(bank@.entries[i as int].1 == rec@);
            assert(bank@.entries[i as int].0 == key);
            assert(selected == p(bank@.entries[i as int]));
        }
        if selected {
            let rec_owned = rec.clone();
            proof {
                if r@.contains_key(key) {
                    crate::store::lemma_map_of_dom(r.entries());
                    let t = choose|t: int| 0 <= t < r.entries().len()
                        && (#[trigger] r.entries()[t]).0 == key;
                    let e = r.entries()[t];
                    bank@.entries.take(i as int).lemma_filter_contains_rev(p, e);
                    let j = choose|j: int| 0 <= j < i
                        && #[trigger] bank@.entries.take(i as int)[j] == e;
                    assert(bank@.entries[j].0 == key);
                    assert(bank@.entries[i as int].0 == key);
                    assert(false);
                }
            }
            r.push_new(key, rec_owned);
        }
        proof {
            let e = bank@.entries[i as int];
            vstd::prelude::Seq::lemma_filter_push(bank@.entries.take(i as int), e, p);
            assert(bank@.entries.take(i as int + 1) =~= bank@.entries.take(i as int).push(e));
            if selected {
                assert(p(e));
                assert(r.entries() == bank@.entries.take(i as int).filter(p).push(e));
            } else {
                assert(!p(e));
                assert(r.entries() == bank@.entries.take(i as int).filter(p));
            }
            assert(r.entries() =~= bank@.entries.take(i as int).push(e).filter(p));
            assert(r.entries() =~= bank@.entries.take(i as int + 1).filter(p));
        }
        i += 1;
    }
    proof {
        assert(bank@.entries.take(n as int) =~= bank@.entries);
    }
    r
}

/// Every account owned by the vote authority, in the bank's entry order.
pub fn extract_vote_accounts(bank: &Bank, auth: &Authorities) -> (r: AccountStore)
    ensures
        r.entries() == bank@.entries.filter(owned_pred(auth.vote)),
{
    extract_where(bank, auth, None, Some(&auth.vote))
}

/// Every account owned by the stake authority, in the bank's entry order.
pub fn extract_stake_accounts(bank: &Bank, auth: &Authorities) -> (r: AccountStore)
    ensures
        r.entries() == bank@.entries.filter(owned_pred(auth.stake)),
{
    extract_where(bank, auth, None, Some(&auth.stake))
}

/// Every account owned by the system authority: the all-zero key.
pub fn extract_system_accounts(bank: &Bank, auth: &Authorities) -> (r: AccountStore)
    ensures
        r.entries() == bank@.entries.filter(owned_pred(AccountKey::zero_spec())),
{
    let zero = AccountKey::zero();
    extract_where(bank, auth, None, Some(&zero))
}

/// Every account of one ownership class, in the bank's entry order.  The
/// class partition tie-breaks Vote over Stake over Other.
pub fn classify_accounts(bank: &Bank, class: OwnerClass, auth: &Authorities) -> (r: AccountStore)
    ensures
        r.entries() == bank@.entries.filter(class_pred(class, *auth)),
{
    extract_where(bank, auth, Some(class), None)
}

/// The number of accounts the bank holds, which is both its entry count
/// and the size of its account map.
pub fn count_total_accounts(bank: &Bank) -> (n: usize)
    ensures
        n == bank@.entries.len(),
        n == bank@.accounts().dom().len(),
{
    bank.well_formedness();
    bank.store().len()
}

/// The map left after tombstoning every account owned by `owner`: such a
/// record keeps its key but its balance drops to zero.
pub open spec fn tombstoned_by_owner(
    m: Map<AccountKey, RecordView>,
    owner: AccountKey,
) -> Map<AccountKey, RecordView> {
    Map::new(
        |k: AccountKey| m.contains_key(k),
        |k: AccountKey| if m[k].owner == owner {
            m[k].tombstone_view()
        } else {
            m[k]
        },
    )
}

/// Zeroes the balance of every account owned by `owner`, in place, and
/// says how many there were.  No key is removed: exclusion tombstones.
fn remove_owned_accounts(bank: &mut Bank, owner: &AccountKey, auth: &Authorities) -> (n: usize)
    requires
        old(bank)@.phase is Working,
    ensures
        n == old(bank)@.entries.filter(owned_pred(*owner)).len(),
        final(bank)@.accounts() =~= tombstoned_by_owner(old(bank)@.accounts(), *owner),
        final(bank)@.slot == old(bank)@.slot,
        final(bank)@.parent_slot == old(bank)@.parent_slot,
        final(bank)@.collector == old(bank)@.collector,
        final(bank)@.capitalization == old(bank)@.capitalization,
        final(bank)@.phase is Working,
        n > 0 ==> !final(bank)@.flushed,
        n == 0 ==> final(bank)@.flushed == old(bank)@.flushed,
{
    let ghost m0 = old(bank)@.accounts();
    bank.well_formedness();
    proof {
        crate::store::lemma_map_of_dom(old(bank)@.entries);
    }
    let sel = extract_where(bank, auth, None, Some(owner));
    let ghost ext = sel.entries();
    sel.well_formedness();
    let count = sel.len();
    let n = count;
    let mut i: usize = 0;
    proof {
        lemma_filter_map_facts(old(bank)@.entries, owned_pred(*owner));
        assert forall|t: int| 0 <= t < ext.len() implies m0.contains_key((#[trigger] ext[t]).0)
            && m0[ext[t].0] == ext[t].1 by {}
        assert(masked_map(m0, ext, 0) =~= m0);
    }
    while i < n
        invariant
            i <= n,
            n == ext.len(),
            sel.entries() == ext,
            ext == old(bank)@.entries.filter(owned_pred(*owner)),
            keys_unique(ext),
            m0 == old(bank)@.accounts(),
            forall|t: int| 0 <= t < ext.len() ==> m0.contains_key((#[trigger] ext[t]).0)
                && m0[ext[t].0] == ext[t].1,
            bank@.accounts() =~= masked_map(m0, ext, i as int),
            bank@.slot == old(bank)@.slot,
            bank@.parent_slot == old(bank)@.parent_slot,
            bank@.collector == old(bank)@.collector,
            bank@.capitalization == old(bank)@.capitalization,
            bank@.phase is Working,
            i > 0 ==> !bank@.flushed,
            i == 0 ==> bank@.flushed == old(bank)@.flushed,
        decreases n - i,
    {
        let key = sel.key_at(i);
        let tomb = sel.record_at(i).tombstone();
        bank.store_account(key, tomb);
        proof {
            assert(ext[i as int].0 == key);
            assert(tomb@ == ext[i as int].1.tombstone_view());
            assert(m0[key] == ext[i as int].1);
            assert(bank@.accounts() =~= masked_map(m0, ext, i as int + 1)) by {
                lemma_masked_step(m0, ext, i as int);
            }
        }
        i += 1;
    }
    proof {
        assert(bank@.accounts() =~= tombstoned_by_owner(m0, *owner)) by {
            lemma_filter_map_facts(old(bank)@.entries, owned_pred(*owner));
            crate::store::lemma_map_of_dom(old(bank)@.entries);
            assert(ext.take(n as int) =~= ext);
            assert forall|k: AccountKey| #[trigger] has_key(ext, k)
                <==> m0.contains_key(k) && m0[k].owner == *owner by {
                assert(owned_pred(*owner)((k, m0[k])) == (m0[k].owner == *owner));
            }
            assert(masked_map(m0, ext, n as int) =~= tombstoned_by_owner(m0, *owner));
        }
    }
    n
}

/// The map after the first `i` entries of `ext` have been tombstoned.
spec fn masked_map(
    m: Map<AccountKey, RecordView>,
    ext: Seq<(AccountKey, RecordView)>,
    i: int,
) -> Map<AccountKey, RecordView> {
    Map::new(
        |k: AccountKey| m.contains_key(k),
        |k: AccountKey| if has_key(ext.take(i), k) {
            m[k].tombstone_view()
        } else {
            m[k]
        },
    )
}

/// Tombstoning one more extracted entry inserts one more tombstone.
proof fn lemma_masked_step(
    m: Map<AccountKey, RecordView>,
    ext: Seq<(AccountKey, RecordView)>,
    i: int,
)
    requires
        0 <= i < ext.len(),
        m.contains_key(ext[i].0),
        m[ext[i].0] == ext[i].1,
    ensures
        masked_map(m, ext, i).insert(ext[i].0, ext[i].1.tombstone_view())
            =~= masked_map(m, ext, i + 1),
{
    let a = masked_map(m, ext, i).insert(ext[i].0, ext[i].1.tombstone_view());
    let b = masked_map(m, ext, i + 1);
    assert forall|k: AccountKey| a.contains_key(k) <==> b.contains_key(k) by {}
    assert forall|k: AccountKey| a.contains_key(k) implies a[k] == b[k] by {
        if k == ext[i].0 {
            assert(has_key(ext.take(i + 1), k)) by {
                assert(ext.take(i + 1)[i] == ext[i]);
            }
        } else {
            assert(has_key(ext.take(i + 1), k) <==> has_key(ext.take(i), k)) by {
                if has_key(ext.take(i + 1), k) {
                    let t = choose|t: int| 0 <= t < i + 1 && (#[trigger] ext.take(i + 1)[t]).0 == k;
                    assert(t < i);
                    assert(ext.take(i)[t].0 == k);
                }
                if has_key(ext.take(i), k) {
                    let t = choose|t: int| 0 <= t < i && (#[trigger] ext.take(i)[t]).0 == k;
                    assert(ext.take(i + 1)[t].0 == k);
                }
            }
        }
    }
}

/// Relates a filtered entry list back to the full list: a key is in the
/// filtered list exactly when the full list holds it with a record the
/// predicate accepts; the filtered entries keep their records.
pub proof fn lemma_filter_map_facts(
    s: Seq<(AccountKey, RecordView)>,
    p: spec_fn((AccountKey, RecordView)) -> bool,
)
    requires
        keys_unique(s),
    ensures
        keys_unique(s.filter(p)),
        forall|t: int| 0 <= t < s.filter(p).len()
            ==> map_of(s).contains_key((#[trigger] s.filter(p)[t]).0)
                && map_of(s)[s.filter(p)[t].0] == s.filter(p)[t].1
                && p(s.filter(p)[t]),
        forall|k: AccountKey| #[trigger] has_key(s.filter(p), k)
            <==> map_of(s).contains_key(k) && p((k, map_of(s)[k])),
{
    let f = s.filter(p);
    crate::store::lemma_map_of_dom(s);
    assert forall|t: int| 0 <= t < f.len() implies map_of(s).contains_key((#[trigger] f[t]).0)
        && map_of(s)[f[t].0] == f[t].1 && p(f[t]) by {
        s.lemma_filter_contains_rev(p, f[t]);
        let j = choose|j: int| 0 <= j < s.len() && #[trigger] s[j] == f[t];
        crate::store::lemma_map_of_index(s, j);
        s.lemma_filter_pred(p, t);
    }
    lemma_filter_keys_unique(s, p);
    assert forall|k: AccountKey| #[trigger] has_key(f, k) implies map_of(s).contains_key(k)
        && p((k, map_of(s)[k])) by {
        let t = choose|t: int| 0 <= t < f.len() && (#[trigger] f[t]).0 == k;
        assert(f[t] == (k, map_of(s)[k]));
    }
    assert forall|k: AccountKey| map_of(s).contains_key(k) && p((k, map_of(s)[k]))
        implies #[trigger] has_key(f, k) by {
        let j = choose|j: int| 0 <= j < s.len() && (#[trigger] s[j]).0 == k;
        crate::store::lemma_map_of_index(s, j);
        assert(s[j] == (k, map_of(s)[k]));
        assert(p(s[j]));
        s.lemma_filter_contains(p, j);
        let t = choose|t: int| 0 <= t < f.len() && #[trigger] f[t] == s[j];
    }
}

/// Filtering an entry list with unique keys keeps the keys unique.
pub proof fn lemma_filter_keys_unique(
    s: Seq<(AccountKey, RecordView)>,
    p: spec_fn((AccountKey, RecordView)) -> bool,
)
    requires
        keys_unique(s),
    ensures
        keys_unique(s.filter(p)),
    decreases s.len(),
{
    if s.len() > 0 {
        let d = s.drop_last();
        assert(keys_unique(d)) by {
            assert(forall|a: int, b: int| 0 <= a < b < s.len() - 1 ==>
                (#[trigger] d[a]).0 != (#[trigger] d[b]).0);
        }
        lemma_filter_keys_unique(d, p);
        vstd::prelude::Seq::lemma_filter_push(d, s.last(), p);
        assert(s =~= d.push(s.last()));
        let fd = d.filter(p);
        if p(s.last()) {
            assert forall|t: int| 0 <= t < fd.len()
                implies (#[trigger] fd[t]).0 != s.last().0 by {
                d.lemma_filter_contains_rev(p, fd[t]);
                let j = choose|j: int| 0 <= j < d.len() && #[trigger] d[j] == fd[t];
                assert(s[j] == fd[t]);
                assert(s[j].0 != s[s.len() - 1].0);
            }
            let f = fd.push(s.last());
            assert(keys_unique(f)) by {
                assert(forall|t: int| 0 <= t < fd.len() ==> (#[trigger] f[t]) == fd[t]);
            }
        }
    }
}

/// Zeroes the balance of every vote-authority account; says how many.
pub fn remove_vote_accounts(bank: &mut Bank, auth: &Authorities) -> (n: usize)
    requires
        old(bank)@.phase is Working,
    ensures
        n == old(bank)@.entries.filter(owned_pred(auth.vote)).len(),
        final(bank)@.accounts() =~= tombstoned_by_owner(old(bank)@.accounts(), auth.vote),
        final(bank)@.slot == old(bank)@.slot,
        final(bank)@.parent_slot == old(bank)@.parent_slot,
        final(bank)@.collector == old(bank)@.collector,
        final(bank)@.capitalization == old(bank)@.capitalization,
        final(bank)@.phase is Working,
        n > 0 ==> !final(bank)@.flushed,
        n == 0 ==> final(bank)@.flushed == old(bank)@.flushed,
{
    let owner = auth.vote;
    remove_owned_accounts(bank, &owner, auth)
}

/// Zeroes the balance of every stake-authority account; says how many.
pub fn remove_stake_accounts(bank: &mut Bank, auth: &Authorities) -> (n: usize)
    requires
        old(bank)@.phase is Working,
    ensures
        n == old(bank)@.entries.filter(owned_pred(auth.stake)).len(),
        final(bank)@.accounts() =~= tombstoned_by_owner(old(bank)@.accounts(), auth.stake),
        final(bank)@.slot == old(bank)@.slot,
        final(bank)@.parent_slot == old(bank)@.parent_slot,
        final(bank)@.collector == old(bank)@.collector,
        final(bank)@.capitalization == old(bank)@.capitalization,
        final(bank)@.phase is Working,
        n > 0 ==> !final(bank)@.flushed,
        n == 0 ==> final(bank)@.flushed == old(bank)@.flushed,
{
    let owner = auth.stake;
    remove_owned_accounts(bank, &owner, auth)
}


/// Fixed per-record cost overhead modelling storage bookkeeping.
pub const ACCOUNT_STORAGE_OVERHEAD: u64 = 512;

/// How many applied records may pass before a flush is forced to bound
/// resident memory, without ending the slot.
pub const FLUSH_INTERVAL_ACCOUNTS: usize = 250000;

/// The approximate byte cost one record adds to its slot.
pub open spec fn record_cost(r: RecordView) -> int {
    r.data.len() + ACCOUNT_STORAGE_OVERHEAD
}

/// The cost sequence of an entry list.
pub open spec fn costs_of(recs: Seq<(AccountKey, RecordView)>) -> Seq<int> {
    recs.map_values(|e: (AccountKey, RecordView)| record_cost(e.1))
}

/// The batching layout, continued from record `i` with `cum` already
/// accumulated in the current slot: the record index at which each slot
/// ends, one entry per slot, the last being the final partial slot.  A
/// slot ends right after the record that lifts its accumulated cost to
/// the limit or beyond; the accumulator then resets.
pub open spec fn batch_ends_from(costs: Seq<int>, limit: int, i: int, cum: int) -> Seq<int>
    decreases costs.len() - i,
{
    if i < 0 || i >= costs.len() {
        seq![costs.len() as int]
    } else if cum + costs[i] >= limit {
        seq![i + 1] + batch_ends_from(costs, limit, i + 1, 0)
    } else {
        batch_ends_from(costs, limit, i + 1, cum + costs[i])
    }
}

/// Where each slot ends when a cost sequence is batched under a limit.
/// The layout is a function of the costs, their order and the limit alone.
pub open spec fn batch_ends(costs: Seq<int>, limit: int) -> Seq<int> {
    batch_ends_from(costs, limit, 0, 0)
}

/// The account map after the first `n` records have been written over `m`.
pub open spec fn store_after(
    m: Map<AccountKey, RecordView>,
    recs: Seq<(AccountKey, RecordView)>,
    n: int,
) -> Map<AccountKey, RecordView>
    decreases n,
{
    if n <= 0 {
        m
    } else {
        store_after(m, recs, n - 1).insert(recs[n - 1].0, recs[n - 1].1)
    }
}

/// Applies the records, in their given order, onto a chain of bank states
/// grown from `base`: each record is written into the current working
/// state; when the accumulated approximate cost of the current slot
/// reaches or exceeds `slot_byte_limit`, that state is flushed, squashed,
/// and a fresh working child opens at the next slot.  Every fixed number
/// of records a flush is forced without ending the slot, and one final
/// flush always runs.  The whole chain comes back, the last state still
/// working; its slot layout is exactly the batching layout of the record
/// costs under the limit.
pub fn add_accounts(base: Bank, records: &AccountStore, slot_byte_limit: u64)
    -> (chain: Vec<Bank>)
    requires
        base@.phase is Working,
        base@.slot + records.entries().len() <= u64::MAX,
    ensures
        ({
            let recs = records.entries();
            let ends = batch_ends(costs_of(recs), slot_byte_limit as int);
            &&& chain@.len() == ends.len()
            &&& forall|j: int| 0 <= j < ends.len() ==> {
                let b = (#[trigger] chain@[j])@;
                &&& b.slot == base@.slot + j
                &&& b.collector == base@.collector
                &&& b.capitalization == base@.capitalization
                &&& b.parent_slot == (if j == 0 {
                    base@.parent_slot
                } else {
                    Some((base@.slot + j - 1) as u64)
                })
                &&& b.accounts() == store_after(base@.accounts(), recs, ends[j])
                &&& b.flushed
                &&& (j < ends.len() - 1 ==> b.phase is Squashed)
                &&& (j == ends.len() - 1 ==> b.phase is Working)
            }
        }),
{
    let ghost base_view = base@;
    let ghost recs = records.entries();
    let ghost costs = costs_of(recs);
    let ghost lim = slot_byte_limit as int;
    let ghost full = batch_ends(costs, lim);
    let n = records.len();
    let mut chain: Vec<Bank> = Vec::new();
    let mut current = base;
    let mut cum: u128 = 0;
    let mut since_flush: usize = 0;
    let mut k: usize = 0;
    let ghost mut done: Seq<int> = Seq::empty();
    proof {
        assert(full =~= done + batch_ends_from(costs, lim, 0, 0));
    }
    while k < n
        invariant
            k <= n,
            n == records.entries().len(),
            recs == records.entries(),
            costs == costs_of(recs),
            lim == slot_byte_limit as int,
            full == batch_ends(costs, lim),
            full == done + batch_ends_from(costs, lim, k as int, cum as int),
            done.len() == chain@.len(),
            chain@.len() <= k,
            since_flush <= k,
            cum == 0 || (cum as int) < lim,
            base_view.slot + chain@.len() + (n - k) <= u64::MAX,
            forall|j: int| 0 <= j < done.len() ==> 0 <= #[trigger] done[j] <= k,
            forall|j: int| 0 <= j < done.len() ==> {
                let b = (#[trigger] chain@[j])@;
                &&& b.slot == base_view.slot + j
                &&& b.collector == base_view.collector
                &&& b.capitalization == base_view.capitalization
                &&& b.parent_slot == (if j == 0 {
                    base_view.parent_slot
                } else {
                    Some((base_view.slot + j - 1) as u64)
                })
                &&& b.accounts() == store_after(base_view.accounts(), recs, done[j])
                &&& b.flushed
                &&& b.phase is Squashed
            },
            current@.slot == base_view.slot + chain@.len(),
            current@.collector == base_view.collector,
            current@.capitalization == base_view.capitalization,
            current@.parent_slot == (if chain@.len() == 0 {
                base_view.parent_slot
            } else {
                Some((base_view.slot + chain@.len() - 1) as u64)
            }),
            current@.phase is Working,
            current@.accounts() == store_after(base_view.accounts(), recs, k as int),
        decreases n - k,
    {
        let key = records.key_at(k);
        let rec = records.record_at(k).clone();
        let cost: u128 = rec.data.len() as u128 + ACCOUNT_STORAGE_OVERHEAD as u128;
        proof {
            assert(recs[k as int].0 == key && recs[k as int].1 == rec@);
            assert(costs[k as int] == record_cost(recs[k as int].1));
            assert(cost as int == costs[k as int]);
        }
        let ghost old_cum = cum as int;
        current.store_account(key, rec);
        proof {
            assert(store_after(base_view.accounts(), recs, k as int + 1)
                == store_after(base_view.accounts(), recs, k as int)
                    .insert(recs[k as int].0, recs[k as int].1));
        }
        since_flush = since_flush + 1;
        cum = cum + cost;
        if since_flush % FLUSH_INTERVAL_ACCOUNTS == 0 {
            current.force_flush();
        }
        if cum >= slot_byte_limit as u128 {
            proof {
                assert(old_cum + costs[k as int] >= lim);
                assert(batch_ends_from(costs, lim, k as int, old_cum)
                    =~= seq![k as int + 1] + batch_ends_from(costs, lim, k as int + 1, 0));
            }
            current.force_flush();
            current.squash();
            let collector = current.collector_id();
            let next_slot = current.slot() + 1;
            let child = Bank::new_from_parent(&current, collector, next_slot);
            chain.push(current);
            current = child;
            proof {
                assert(current@.accounts()
                    == store_after(base_view.accounts(), recs, k as int + 1));
                done = done.push(k as int + 1);
                assert(full =~= done + batch_ends_from(costs, lim, k as int + 1, 0));
            }
            cum = 0;
            since_flush = 0;
        } else {
            proof {
                assert(old_cum + costs[k as int] < lim);
                assert(batch_ends_from(costs, lim, k as int, old_cum)
                    =~= batch_ends_from(costs, lim, k as int + 1, old_cum + costs[k as int]));
            }
        }
        k += 1;
    }
    current.force_flush();
    proof {
        assert(batch_ends_from(costs, lim, n as int, cum as int) =~= seq![n as int]);
        assert(full =~= done.push(n as int));
        assert(current@.accounts() == store_after(base_view.accounts(), recs, n as int));
    }
    chain.push(current);
    chain
}


/// Every batching layout has at least one slot, and the last slot ends at
/// the end of the record list.
pub proof fn lemma_batch_ends_shape(costs: Seq<int>, limit: int, i: int, cum: int)
    ensures
        batch_ends_from(costs, limit, i, cum).len() >= 1,
        batch_ends_from(costs, limit, i, cum).last() == costs.len(),
    decreases costs.len() - i,
{
    if i < 0 || i >= costs.len() {
    } else if cum + costs[i] >= limit {
        lemma_batch_ends_shape(costs, limit, i + 1, 0);
    } else {
        lemma_batch_ends_shape(costs, limit, i + 1, cum + costs[i]);
    }
}

/// Writing the first `n` records over `m` yields `m` overridden by the
/// map the written records denote.
pub proof fn lemma_store_after_union(
    m: Map<AccountKey, RecordView>,
    recs: Seq<(AccountKey, RecordView)>,
    n: int,
)
    requires
        0 <= n <= recs.len(),
    ensures
        store_after(m, recs, n) =~= m.union_prefer_right(map_of(recs.take(n))),
    decreases n,
{
    if n == 0 {
        assert(recs.take(0) =~= Seq::<(AccountKey, RecordView)>::empty());
        assert(m.union_prefer_right(map_of(recs.take(0))) =~= m);
    } else {
        lemma_store_after_union(m, recs, n - 1);
        assert(recs.take(n).drop_last() =~= recs.take(n - 1));
        assert(recs.take(n).last() == recs[n - 1]);
    }
}

/// The write-once summary of one merge run.
#[derive(Clone, Copy, PartialEq, Eq, Structural, Debug)]
pub struct MergeStats {
    /// Accounts the target snapshot held.
    pub target_total_accounts: usize,
    /// Accounts the source snapshot held.
    pub source_total_accounts: usize,
    /// Target accounts of the Vote class that the plan excluded.
    pub vote_accounts_excluded: usize,
    /// Target accounts of the Stake class that the plan excluded.
    pub stake_accounts_excluded: usize,
    /// Records the plan applied, tombstones included.
    pub accounts_applied: usize,
    /// Accounts the final state holds.
    pub final_total_accounts: usize,
    /// The target's stored aggregate before the run.
    pub capitalization_before: u64,
    /// The recomputed aggregate after reconciliation.
    pub capitalization_after: u64,
}

/// Runs one whole merge on loaded states: plans under the chosen policy,
/// applies the plan onto a fresh child of the target under the batching
/// discipline, reconciles the capitalization, and, when a warp slot is
/// given, projects the result forward to it.  Returns the whole bank
/// chain, its last state being the finished working state, and the run's
/// statistics.  Fails exactly when a warp is requested to a slot not
/// strictly beyond the chain's final slot.
pub fn merge_snapshots(
    target: Bank,
    source: &Bank,
    policy: crate::plan::MergePolicy,
    auth: &Authorities,
    slot_byte_limit: u64,
    warp_slot: Option<u64>,
) -> (r: Result<(Vec<Bank>, MergeStats), WarpError>)
    requires
        target@.phase is Working,
        target@.slot + 1 + target@.entries.len() + source@.entries.len() <= u64::MAX,
    ensures
        ({
            let outcome = crate::plan::planned_outcome(
                policy, target@.accounts(), source@.accounts(), *auth);
            let planned = crate::plan::planned_seq(
                policy, target@.entries, source@.entries, *auth);
            let ends = batch_ends(costs_of(planned), slot_byte_limit as int);
            let base_final_slot = target@.slot + ends.len();
            match r {
                Ok((chain, stats)) => {
                    &&& (warp_slot matches Some(w) ==> w > base_final_slot)
                    &&& chain@.len() >= 2
                    &&& chain@[0]@.slot == target@.slot
                    &&& (forall|j: int| 0 <= j < chain@.len() - 1 ==> {
                        let b = (#[trigger] chain@[j])@;
                        &&& b.phase is Squashed
                        &&& b.flushed
                        &&& b.slot < chain@[j + 1]@.slot
                        &&& chain@[j + 1]@.parent_slot == Some(b.slot)
                    })
                    &&& ({
                        let fin = chain@.last()@;
                        &&& fin.accounts() == outcome
                        &&& fin.phase is Working
                        &&& fin.flushed
                        &&& fin.slot as int == (match warp_slot {
                            Some(w) => w as int,
                            None => base_final_slot,
                        })
                        &&& fin.capitalization == stats.capitalization_after
                        &&& stats.capitalization_after as int
                            == (if sum_lamports(fin.entries) <= u64::MAX as int {
                                sum_lamports(fin.entries)
                            } else {
                                u64::MAX as int
                            })
                    })
                    &&& stats.target_total_accounts == target@.entries.len()
                    &&& stats.source_total_accounts == source@.entries.len()
                    &&& stats.vote_accounts_excluded
                        == target@.entries.filter(class_pred(OwnerClass::Vote, *auth)).len()
                    &&& stats.stake_accounts_excluded
                        == target@.entries.filter(class_pred(OwnerClass::Stake, *auth)).len()
                    &&& stats.accounts_applied == planned.len()
                    &&& stats.final_total_accounts == outcome.dom().len()
                    &&& stats.capitalization_before == target@.capitalization
                },
                Err(e) => {
                    &&& e == WarpError::SlotNotAhead
                    &&& (warp_slot matches Some(w) && w <= base_final_slot)
                },
            }
        }),
{
    let ghost t_view = target@;
    let ghost s_view = source@;
    target.well_formedness();
    source.well_formedness();
    let target_total = count_total_accounts(&target);
    let source_total = count_total_accounts(source);
    let cap_before = target.capitalization();
    let plan = crate::plan::plan_merge(policy, &target, source, auth);
    let applied = plan.accepted.len();
    plan.accepted.well_formedness();
    let ghost planned = plan.accepted.entries();
    let ghost outcome = crate::plan::planned_outcome(
        policy, t_view.accounts(), s_view.accounts(), *auth);

    let mut base = target;
    base.squash();
    base.force_flush();
    let collector = base.collector_id();
    let child = Bank::new_from_parent(&base, collector, base.slot() + 1);
    let ghost child_view = child@;

    let mut rest = add_accounts(child, &plan.accepted, slot_byte_limit);
    let ghost ends = batch_ends(costs_of(planned), slot_byte_limit as int);
    proof {
        lemma_batch_ends_shape(costs_of(planned), slot_byte_limit as int, 0, 0);
        assert(rest@.len() == ends.len());
        assert(rest@[ends.len() - 1]@.accounts()
            == store_after(child_view.accounts(), planned, ends.last()));
        assert(costs_of(planned).len() == planned.len());
        lemma_store_after_union(child_view.accounts(), planned, planned.len() as int);
        assert(planned.take(planned.len() as int) =~= planned);
        assert(child_view.accounts().union_prefer_right(map_of(planned)) =~= outcome) by {
            crate::store::lemma_map_of_dom(planned);
            assert(map_of(planned) =~= outcome);
            assert forall|k: AccountKey|
                t_view.accounts().contains_key(k) implies outcome.contains_key(k) by {}
        }
    }
    let mut fin = rest.pop().unwrap();
    let cap_after = fin.reconcile_capitalization();
    let final_total = count_total_accounts(&fin);
    proof {
        assert(fin@.accounts() == outcome);
        crate::store::lemma_map_of_dom(fin@.entries);
    }
    let stats = MergeStats {
        target_total_accounts: target_total,
        source_total_accounts: source_total,
        vote_accounts_excluded: plan.excluded_vote,
        stake_accounts_excluded: plan.excluded_stake,
        accounts_applied: applied,
        final_total_accounts: final_total,
        capitalization_before: cap_before,
        capitalization_after: cap_after,
    };
    let mut chain: Vec<Bank> = Vec::new();
    chain.push(base);
    chain.append(&mut rest);
    match warp_slot {
        Some(w) => {
            fin.squash();
            fin.force_flush();
            let col2 = fin.collector_id();
            let warp_result = Bank::warp_from_parent(&fin, col2, w);
            match warp_result {
                Ok(warped) => {
                    chain.push(fin);
                    chain.push(warped);
                    Ok((chain, stats))
                },
                Err(e) => Err(e),
            }
        },
        None => {
            chain.push(fin);
            Ok((chain, stats))
        },
    }
}


/// Computes where each slot ends when the given records are applied under
/// a byte limit: the indices at which [`add_accounts`] would squash and
/// open a new slot, the last entry closing the final partial slot.  An
/// unverified driver that performs the writes on an outside store can
/// follow this layout record for record.
pub fn batch_boundaries(records: &AccountStore, slot_byte_limit: u64) -> (ends: Vec<u64>)
    ensures
        ({
            let layout = batch_ends(costs_of(records.entries()), slot_byte_limit as int);
            &&& ends@.len() == layout.len()
            &&& forall|j: int| 0 <= j < layout.len() ==> (#[trigger] ends@[j]) as int == layout[j]
        }),
{
    let ghost recs = records.entries();
    let ghost costs = costs_of(recs);
    let ghost lim = slot_byte_limit as int;
    let ghost full = batch_ends(costs, lim);
    let n = records.len();
    let mut ends: Vec<u64> = Vec::new();
    let mut cum: u128 = 0;
    let mut k: usize = 0;
    proof {
        assert(full =~= ends@.map_values(|x: u64| x as int)
            + batch_ends_from(costs, lim, 0, 0));
    }
    while k < n
        invariant
            k <= n,
            n == recs.len(),
            n <= u64::MAX,
            recs == records.entries(),
            costs == costs_of(recs),
            lim == slot_byte_limit as int,
            full == batch_ends(costs, lim),
            full == ends@.map_values(|x: u64| x as int)
                + batch_ends_from(costs, lim, k as int, cum as int),
            forall|j: int| 0 <= j < ends@.len() ==> #[trigger] ends@[j] <= k,
            cum == 0 || (cum as int) < lim,
        decreases n - k,
    {
        let rec = records.record_at(k);
        let cost: u128 = rec.data.len() as u128 + ACCOUNT_STORAGE_OVERHEAD as u128;
        proof {
            assert(recs[k as int].1 == rec@);
            assert(costs[k as int] == record_cost(recs[k as int].1));
            assert(cost as int == costs[k as int]);
        }
        let ghost old_cum = cum as int;
        cum = cum + cost;
        if cum >= slot_byte_limit as u128 {
            proof {
                assert(old_cum + costs[k as int] >= lim);
                assert(batch_ends_from(costs, lim, k as int, old_cum)
                    =~= seq![k as int + 1] + batch_ends_from(costs, lim, k as int + 1, 0));
            }
            ends.push((k as u64) + 1);
            proof {
                assert(full =~= ends@.map_values(|x: u64| x as int)
                    + batch_ends_from(costs, lim, k as int + 1, 0));
            }
            cum = 0;
        } else {
            proof {
                assert(old_cum + costs[k as int] < lim);
                assert(batch_ends_from(costs, lim, k as int, old_cum)
                    =~= batch_ends_from(costs, lim, k as int + 1, old_cum + costs[k as int]));
            }
        }
        k += 1;
    }
    proof {
        assert(batch_ends_from(costs, lim, n as int, cum as int) =~= seq![n as int]);
    }
    ends.push(n as u64);
    proof {
        assert(full =~= ends@.map_values(|x: u64| x as int));
    }
    ends
}

} // verus!
