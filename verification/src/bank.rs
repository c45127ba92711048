//! A bank state: one mutable working version of the account universe at a
//! slot, with at most one parent, forming a singly-rooted chain.  A working
//! state accepts writes; squashing makes it immutable so it may become a
//! parent; archiving is terminal.

use vstd::prelude::*;
use crate::account::{AccountKey, AccountRecord, RecordView};
use crate::store::{AccountStore, map_of, keys_unique, has_key};

verus! {

/// The lifecycle phase of a bank state; transitions run one way only.
#[derive(Clone, Copy, PartialEq, Eq, Structural, Debug)]
pub enum BankPhase {
    Working,
    Squashed,
    Archived,
}

/// Why a warp was refused.
#[derive(Clone, Copy, PartialEq, Eq, Structural, Debug)]
pub enum WarpError {
    /// The parent of a warp must be squashed first.
    NotSquashed,
    /// The parent of a warp must be flushed first.
    NotFlushed,
    /// The warp target must lie strictly beyond the parent's slot.
    SlotNotAhead,
}

/// The mathematical value of a [`Bank`].
pub ghost struct BankView {
    pub slot: u64,
    pub parent_slot: Option<u64>,
    pub collector: AccountKey,
    pub entries: Seq<(AccountKey, RecordView)>,
    pub capitalization: u64,
    pub phase: BankPhase,
    pub flushed: bool,
}

impl BankView {
    /// The account universe the bank holds, as a map.
    pub open spec fn accounts(self) -> Map<AccountKey, RecordView> {
        map_of(self.entries)
    }
}

/// The sum of the balances of an entry list.
pub open spec fn sum_lamports(s: Seq<(AccountKey, RecordView)>) -> int
    decreases s.len(),
{
    if s.len() == 0 {
        0
    } else {
        sum_lamports(s.drop_last()) + s.last().1.lamports
    }
}

pub struct Bank {
    slot: u64,
    parent_slot: Option<u64>,
    collector: AccountKey,
    accounts: AccountStore,
    capitalization: u64,
    phase: BankPhase,
    flushed: bool,
}

impl View for Bank {
    type V = BankView;

    closed spec fn view(&self) -> BankView {
        BankView {
            slot: self.slot,
            parent_slot: self.parent_slot,
            collector: self.collector,
            entries: self.accounts.entries(),
            capitalization: self.capitalization,
            phase: self.phase,
            flushed: self.flushed,
        }
    }
}

impl Bank {
    /// A freshly loaded root state: writable, no parent, nothing pending.
    pub fn new_root(
        slot: u64,
        collector: AccountKey,
        accounts: AccountStore,
        capitalization: u64,
    ) -> (b: Bank)
        ensures
            b@ == (BankView {
                slot,
                parent_slot: None::<u64>,
                collector,
                entries: accounts.entries(),
                capitalization,
                phase: BankPhase::Working,
                flushed: true,
            }),
    {
        Bank {
            slot,
            parent_slot: None,
            collector,
            accounts,
            capitalization,
            phase: BankPhase::Working,
            flushed: true,
        }
    }

    pub fn slot(&self) -> (s: u64)
        ensures
            s == self@.slot,
    {
        self.slot
    }

    pub fn parent_slot(&self) -> (s: Option<u64>)
        ensures
            s == self@.parent_slot,
    {
        self.parent_slot
    }

    pub fn collector_id(&self) -> (c: AccountKey)
        ensures
            c == self@.collector,
    {
        self.collector
    }

    pub fn capitalization(&self) -> (c: u64)
        ensures
            c == self@.capitalization,
    {
        self.capitalization
    }

    pub fn phase(&self) -> (p: BankPhase)
        ensures
            p == self@.phase,
    {
        self.phase
    }

    pub fn is_flushed(&self) -> (f: bool)
        ensures
            f == self@.flushed,
    {
        self.flushed
    }

    /// The account store the bank holds.
    pub fn store(&self) -> (s: &AccountStore)
        ensures
            s.entries() == self@.entries,
            s@ == self@.accounts(),
    {
        &self.accounts
    }

    /// Hands a caller's proof the bank's well-formedness: entry keys are
    /// unique, so the account map has one key per entry.
    pub fn well_formedness(&self)
        ensures
            keys_unique(self@.entries),
            self@.accounts().dom().finite(),
            self@.accounts().dom().len() == self@.entries.len(),
            forall|k: AccountKey| #[trigger] self@.accounts().contains_key(k)
                <==> has_key(self@.entries, k),
    {
        self.accounts.well_formedness();
    }

    /// Writes one record, replacing whatever the key held.  Only a working
    /// state accepts writes; the write leaves it with unflushed state.
    pub fn store_account(&mut self, key: AccountKey, rec: AccountRecord)
        requires
            old(self)@.phase is Working,
        ensures
            final(self)@.slot == old(self)@.slot,
            final(self)@.parent_slot == old(self)@.parent_slot,
            final(self)@.collector == old(self)@.collector,
            final(self)@.capitalization == old(self)@.capitalization,
            final(self)@.phase is Working,
            !final(self)@.flushed,
            final(self)@.accounts() =~= old(self)@.accounts().insert(key, rec@),
            final(self)@.entries.len() == old(self)@.entries.len()
                + (if old(self)@.accounts().contains_key(key) { 0int } else { 1int }),
    {
        self.accounts.upsert(key, rec);
        self.flushed = false;
    }

    /// Forces pending writes durable.  Contents do not change.
    pub fn force_flush(&mut self)
        ensures
            final(self)@ == (BankView { flushed: true, ..old(self)@ }),
    {
        self.flushed = true;
    }

    /// Makes a working state immutable, so it may become a parent.
    pub fn squash(&mut self)
        requires
            old(self)@.phase is Working,
        ensures
            final(self)@ == (BankView { phase: BankPhase::Squashed, ..old(self)@ }),
    {
        self.phase = BankPhase::Squashed;
    }

    /// Marks a squashed, flushed state as serialized; terminal.
    pub fn archive(&mut self)
        requires
            old(self)@.phase is Squashed,
            old(self)@.flushed,
        ensures
            final(self)@ == (BankView { phase: BankPhase::Archived, ..old(self)@ }),
    {
        self.phase = BankPhase::Archived;
    }

    /// A new working child of a squashed parent, at a strictly later slot,
    /// holding the same accounts and stored capitalization.
    pub fn new_from_parent(parent: &Bank, collector: AccountKey, slot: u64) -> (b: Bank)
        requires
            parent@.phase is Squashed,
            parent@.slot < slot,
        ensures
            b@ == (BankView {
                slot,
                parent_slot: Some(parent@.slot),
                collector,
                entries: parent@.entries,
                capitalization: parent@.capitalization,
                phase: BankPhase::Working,
                flushed: true,
            }),
    {
        let accounts = parent.accounts.clone();
        let b = Bank {
            slot,
            parent_slot: Some(parent.slot),
            collector,
            accounts,
            capitalization: parent.capitalization,
            phase: BankPhase::Working,
            flushed: true,
        };
        proof {
            assert(b@.entries =~= parent@.entries);
        }
        b
    }

    /// Projects a squashed, flushed state forward to an arbitrary later
    /// slot without materializing the slots in between.  Refused exactly
    /// when the parent is not squashed, not flushed, or the target does
    /// not lie beyond it.
    pub fn warp_from_parent(parent: &Bank, collector: AccountKey, target_slot: u64)
        -> (r: Result<Bank, WarpError>)
        ensures
            match r {
                Ok(b) => {
                    &&& parent@.phase is Squashed
                    &&& parent@.flushed
                    &&& parent@.slot < target_slot
                    &&& b@ == (BankView {
                        slot: target_slot,
                        parent_slot: Some(parent@.slot),
                        collector,
                        entries: parent@.entries,
                        capitalization: parent@.capitalization,
                        phase: BankPhase::Working,
                        flushed: true,
                    })
                },
                Err(e) => match e {
                    WarpError::NotSquashed => !(parent@.phase is Squashed),
                    WarpError::NotFlushed => parent@.phase is Squashed && !parent@.flushed,
                    WarpError::SlotNotAhead => parent@.phase is Squashed && parent@.flushed
                        && target_slot <= parent@.slot,
                },
            },
    {
        let parent_phase = parent.phase();
        if !matches!(parent_phase, BankPhase::Squashed) {
            return Err(WarpError::NotSquashed);
        }
        if !parent.flushed {
            return Err(WarpError::NotFlushed);
        }
        if target_slot <= parent.slot {
            return Err(WarpError::SlotNotAhead);
        }
        let b = Bank::new_from_parent(parent, collector, target_slot);
        Ok(b)
    }

    /// Recomputes the capitalization as the literal sum of all balances the
    /// state holds, saturating at the 64-bit bound, and overwrites the
    /// stored aggregate with it.
    pub fn reconcile_capitalization(&mut self) -> (r: u64)
        requires
            old(self)@.phase is Working,
        ensures
            final(self)@ == (BankView { capitalization: r, ..old(self)@ }),
            r as int == if sum_lamports(old(self)@.entries) <= u64::MAX as int {
                sum_lamports(old(self)@.entries)
            } else {
                u64::MAX as int
            },
    {
        let n = self.accounts.len();
        let ghost entries = self.accounts.entries();
        let mut sum: u128 = 0;
        let mut i: usize = 0;
        proof {
            assert(entries.take(0) =~= Seq::<(AccountKey, RecordView)>::empty());
        }
        while i < n
            invariant
                i <= n,
                n == entries.len(),
                entries == self.accounts.entries(),
                sum as int == sum_lamports(entries.take(i as int)),
                sum as int <= (i as int) * (u64::MAX as int),
            decreases n - i,
        {
            let lam = self.accounts.record_at(i).lamports;
            proof {
                lemma_take_one_more(entries, i as int);
                assert((i as int) * (u64::MAX as int) + (u64::MAX as int)
                    == (i as int + 1) * (u64::MAX as int)) by (nonlinear_arith);
                assert((i as int + 1) * (u64::MAX as int) < u128::MAX as int) by (nonlinear_arith)
                    requires 0 <= i as int + 1 <= u64::MAX as int + 1;
            }
            sum = sum + lam as u128;
            i += 1;
        }
        proof {
            assert(entries.take(n as int) =~= entries);
        }
        let r = if sum > u64::MAX as u128 {
            u64::MAX
        } else {
            sum as u64
        };
        self.capitalization = r;
        r
    }
}

/// Taking one more entry adds that entry's balance to the sum.
proof fn lemma_take_one_more(s: Seq<(AccountKey, RecordView)>, i: int)
    requires
        0 <= i < s.len(),
    ensures
        sum_lamports(s.take(i + 1)) == sum_lamports(s.take(i)) + s[i].1.lamports,
{
    assert(s.take(i + 1).drop_last() =~= s.take(i));
    assert(s.take(i + 1).last() == s[i]);
}

} // verus!
