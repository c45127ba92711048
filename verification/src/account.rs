//! The account data model: keys, records, and owner classification.

use vstd::prelude::*;

verus! {

/// A fixed-length account identifier: 32 bytes held as four 64-bit words.
/// Equality is byte-exact, which here means word-for-word equality.
#[derive(Clone, Copy, PartialEq, Eq, Structural, Debug)]
pub struct AccountKey {
    pub w0: u64,
    pub w1: u64,
    pub w2: u64,
    pub w3: u64,
}

impl AccountKey {
    /// The all-zero key, the well-known owner of plain system accounts.
    pub fn zero() -> (k: AccountKey)
        ensures
            k == AccountKey::zero_spec(),
    {
        AccountKey { w0: 0, w1: 0, w2: 0, w3: 0 }
    }

    pub open spec fn zero_spec() -> AccountKey {
        AccountKey { w0: 0, w1: 0, w2: 0, w3: 0 }
    }
}

/// One account's state.  A record is replaced wholesale, never patched.
pub struct AccountRecord {
    pub lamports: u64,
    pub data: Vec<u8>,
    pub owner: AccountKey,
    pub executable: bool,
    pub rent_epoch: u64,
}

/// The mathematical value of an [`AccountRecord`].
pub ghost struct RecordView {
    pub lamports: u64,
    pub data: Seq<u8>,
    pub owner: AccountKey,
    pub executable: bool,
    pub rent_epoch: u64,
}

impl View for AccountRecord {
    type V = RecordView;

    open spec fn view(&self) -> RecordView {
        RecordView {
            lamports: self.lamports,
            data: self.data@,
            owner: self.owner,
            executable: self.executable,
            rent_epoch: self.rent_epoch,
        }
    }
}

impl Clone for AccountRecord {
    fn clone(&self) -> (r: Self)
        ensures
            r@ == self@,
    {
        AccountRecord {
            lamports: self.lamports,
            data: self.data.clone(),
            owner: self.owner,
            executable: self.executable,
            rent_epoch: self.rent_epoch,
        }
    }
}

impl AccountRecord {
    /// The same record with its balance zeroed: the tombstone that stands
    /// in for a removed account until the store prunes it.
    pub fn tombstone(&self) -> (r: AccountRecord)
        ensures
            r@ == self@.tombstone_view(),
    {
        AccountRecord {
            lamports: 0,
            data: self.data.clone(),
            owner: self.owner,
            executable: self.executable,
            rent_epoch: self.rent_epoch,
        }
    }
}

impl RecordView {
    pub open spec fn tombstone_view(self) -> RecordView {
        RecordView { lamports: 0, ..self }
    }
}

/// The ownership class of an account, derived from its owner key alone.
#[derive(Clone, Copy, PartialEq, Eq, Structural, Debug)]
pub enum OwnerClass {
    Vote,
    Stake,
    Other,
}

/// The two well-known authority keys that mark validator accounts.
#[derive(Clone, Copy, PartialEq, Eq, Structural, Debug)]
pub struct Authorities {
    pub vote: AccountKey,
    pub stake: AccountKey,
}

/// The class of an account whose owner is `owner`.  Vote takes precedence
/// over Stake, Stake over Other, so the classification is total and
/// exclusive even if the two authority keys were ever equal.
pub open spec fn class_of(owner: AccountKey, auth: Authorities) -> OwnerClass {
    if owner == auth.vote {
        OwnerClass::Vote
    } else if owner == auth.stake {
        OwnerClass::Stake
    } else {
        OwnerClass::Other
    }
}

/// Classifies one owner key.
pub fn classify_owner(owner: &AccountKey, auth: &Authorities) -> (c: OwnerClass)
    ensures
        c == class_of(*owner, *auth),
{
    if *owner == auth.vote {
        OwnerClass::Vote
    } else if *owner == auth.stake {
        OwnerClass::Stake
    } else {
        OwnerClass::Other
    }
}

} // verus!
