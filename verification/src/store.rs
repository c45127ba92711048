//! A keyed account store: an ordered list of entries with unique keys,
//! viewed in specifications as a finite map from key to record value.

use vstd::prelude::*;
use crate::account::{AccountKey, AccountRecord, RecordView};

verus! {

/// The ordered entry list of a store, at the specification level.
pub open spec fn keys_unique(s: Seq<(AccountKey, RecordView)>) -> bool {
    forall|i: int, j: int| 0 <= i < j < s.len() ==> (#[trigger] s[i]).0 != (#[trigger] s[j]).0
}

/// Whether some entry of `s` carries the key `k`.
pub open spec fn has_key(s: Seq<(AccountKey, RecordView)>, k: AccountKey) -> bool {
    exists|i: int| 0 <= i < s.len() && (#[trigger] s[i]).0 == k
}

/// The entry list that an executable entry vector denotes.
pub open spec fn sv_of(es: Seq<(AccountKey, AccountRecord)>) -> Seq<(AccountKey, RecordView)> {
    Seq::new(es.len(), |i: int| (es[i].0, es[i].1@))
}

/// The map that an entry list denotes; a later entry for a key would win,
/// though a store never holds two entries for one key.
pub open spec fn map_of(s: Seq<(AccountKey, RecordView)>) -> Map<AccountKey, RecordView>
    decreases s.len(),
{
    if s.len() == 0 {
        Map::empty()
    } else {
        map_of(s.drop_last()).insert(s.last().0, s.last().1)
    }
}

/// The denoted map is finite and holds exactly the listed keys.
pub proof fn lemma_map_of_dom(s: Seq<(AccountKey, RecordView)>)
    ensures
        map_of(s).dom().finite(),
        forall|k: AccountKey| #[trigger] map_of(s).contains_key(k) <==> has_key(s, k),
    decreases s.len(),
{
    if s.len() == 0 {
    } else {
        lemma_map_of_dom(s.drop_last());
        assert forall|k: AccountKey| #[trigger] map_of(s).contains_key(k) implies has_key(s, k) by {
            if k == s.last().0 {
                assert(s[s.len() - 1].0 == k);
            } else {
                let i = choose|i: int| 0 <= i < s.drop_last().len() && (#[trigger] s.drop_last()[i]).0 == k;
                assert(s[i].0 == k);
            }
        }
        assert forall|k: AccountKey| has_key(s, k) implies #[trigger] map_of(s).contains_key(k) by {
            let i = choose|i: int| 0 <= i < s.len() && (#[trigger] s[i]).0 == k;
            if i < s.len() - 1 {
                assert(s.drop_last()[i].0 == k);
            }
        }
    }
}

/// With unique keys, the entry at position `i` gives the map's value at its key.
pub proof fn lemma_map_of_index(s: Seq<(AccountKey, RecordView)>, i: int)
    requires
        keys_unique(s),
        0 <= i < s.len(),
    ensures
        map_of(s).contains_key(s[i].0),
        map_of(s)[s[i].0] == s[i].1,
    decreases s.len(),
{
    if i == s.len() - 1 {
    } else {
        assert(keys_unique(s.drop_last())) by {
            assert(forall|p: int, q: int| 0 <= p < q < s.len() - 1 ==>
                (#[trigger] s.drop_last()[p]).0 != (#[trigger] s.drop_last()[q]).0);
        }
        lemma_map_of_index(s.drop_last(), i);
        assert(s[i].0 != s.last().0);
    }
}

/// With unique keys, the denoted map has exactly one key per entry.
pub proof fn lemma_map_of_len(s: Seq<(AccountKey, RecordView)>)
    requires
        keys_unique(s),
    ensures
        map_of(s).dom().finite(),
        map_of(s).dom().len() == s.len(),
    decreases s.len(),
{
    lemma_map_of_dom(s);
    if s.len() == 0 {
        assert(map_of(s).dom() =~= Set::empty());
    } else {
        let d = s.drop_last();
        assert(keys_unique(d)) by {
            assert(forall|p: int, q: int| 0 <= p < q < d.len() ==>
                (#[trigger] d[p]).0 != (#[trigger] d[q]).0);
        }
        lemma_map_of_len(d);
        lemma_map_of_dom(d);
        assert(!has_key(d, s.last().0)) by {
            assert(forall|i: int| 0 <= i < d.len() ==> (#[trigger] d[i]).0 == s[i].0);
        }
        assert(map_of(s).dom() =~= map_of(d).dom().insert(s.last().0));
        vstd::set_lib::lemma_len_union::<AccountKey>(map_of(d).dom(), set![s.last().0]);
        assert(map_of(d).dom().insert(s.last().0) =~= map_of(d).dom().union(set![s.last().0]));
        assert(set![s.last().0].len() == 1) by {
            assert(set![s.last().0] =~= Set::empty().insert(s.last().0));
        }
    }
}

/// Replacing the record at position `i` updates the denoted map at that
/// entry's key and nothing else.
pub proof fn lemma_map_of_update(s: Seq<(AccountKey, RecordView)>, i: int, r: RecordView)
    requires
        keys_unique(s),
        0 <= i < s.len(),
    ensures
        map_of(s.update(i, (s[i].0, r))) =~= map_of(s).insert(s[i].0, r),
    decreases s.len(),
{
    let k = s[i].0;
    let t = s.update(i, (k, r));
    if i == s.len() - 1 {
        assert(t.drop_last() =~= s.drop_last());
        assert(t.last() == (k, r));
    } else {
        assert(keys_unique(s.drop_last())) by {
            assert(forall|p: int, q: int| 0 <= p < q < s.len() - 1 ==>
                (#[trigger] s.drop_last()[p]).0 != (#[trigger] s.drop_last()[q]).0);
        }
        lemma_map_of_update(s.drop_last(), i, r);
        assert(t.drop_last() =~= s.drop_last().update(i, (k, r)));
        assert(t.last() == s.last());
        assert(k != s.last().0);
    }
}

/// A bounded store of accounts with unique keys.  Its view is the map from
/// key to record value; `entries()` exposes the underlying order, which the
/// batching engine and the classifier iterate.
pub struct AccountStore {
    entries: Vec<(AccountKey, AccountRecord)>,
}

impl View for AccountStore {
    type V = Map<AccountKey, RecordView>;

    open spec fn view(&self) -> Map<AccountKey, RecordView> {
        map_of(self.entries())
    }
}

impl AccountStore {
    /// The ordered entries, as specification values.
    pub closed spec fn entries(&self) -> Seq<(AccountKey, RecordView)> {
        sv_of(self.entries@)
    }

    #[verifier::type_invariant]
    spec fn inv(self) -> bool {
        keys_unique(self.entries())
    }

    /// Hands a caller's proof the store's well-formedness: the entry list
    /// has unique keys, so the denoted map has one key per entry.
    pub fn well_formedness(&self)
        ensures
            keys_unique(self.entries()),
            self@.dom().finite(),
            self@.dom().len() == self.entries().len(),
            forall|k: AccountKey| #[trigger] self@.contains_key(k) <==> has_key(self.entries(), k),
    {
        proof {
            use_type_invariant(self);
            lemma_map_of_len(self.entries());
            lemma_map_of_dom(self.entries());
        }
    }

    pub fn new() -> (s: AccountStore)
        ensures
            s.entries() =~= Seq::<(AccountKey, RecordView)>::empty(),
            s@ =~= Map::<AccountKey, RecordView>::empty(),
    {
        let s = AccountStore { entries: Vec::new() };
        proof {
            assert(s.entries() =~= Seq::<(AccountKey, RecordView)>::empty());
        }
        s
    }

    pub fn len(&self) -> (n: usize)
        ensures
            n == self.entries().len(),
    {
        self.entries.len()
    }

    pub fn key_at(&self, i: usize) -> (k: AccountKey)
        requires
            i < self.entries().len(),
        ensures
            k == self.entries()[i as int].0,
    {
        self.entries[i].0
    }

    pub fn record_at(&self, i: usize) -> (r: &AccountRecord)
        requires
            i < self.entries().len(),
        ensures
            r@ == self.entries()[i as int].1,
    {
        &self.entries[i].1
    }

    /// Looks a key up in the store.
    pub fn get(&self, key: &AccountKey) -> (r: Option<&AccountRecord>)
        ensures
            match r {
                Some(rec) => self@.contains_key(*key) && rec@ == self@[*key],
                None => !self@.contains_key(*key),
            },
    {
        let n = self.entries.len();
        let mut i: usize = 0;
        while i < n
            invariant
                i <= n,
                n == self.entries().len(),
                n == self.entries@.len(),
                forall|j: int| 0 <= j < i ==> (#[trigger] self.entries()[j]).0 != *key,
            decreases n - i,
        {
            if self.entries[i].0 == *key {
                proof {
                    use_type_invariant(self);
                    lemma_map_of_index(self.entries(), i as int);
                }
                return Some(&self.entries[i].1);
            }
            i += 1;
        }
        proof {
            lemma_map_of_dom(self.entries());
        }
        None
    }

    /// Inserts a record under a key, replacing any record the key held.
    pub fn upsert(&mut self, key: AccountKey, rec: AccountRecord)
        ensures
            final(self)@ =~= old(self)@.insert(key, rec@),
            final(self).entries().len() ==
                old(self).entries().len() + (if old(self)@.contains_key(key) { 0int } else { 1int }),
    {
        proof {
            use_type_invariant(&*self);
            lemma_map_of_dom(self.entries());
        }
        let ghost old_sv = self.entries();
        let n = self.entries.len();
        let mut idx: usize = n;
        let mut i: usize = 0;
        while i < n
            invariant
                i <= n,
                n == self.entries@.len(),
                old_sv == self.entries(),
                idx == n || (idx < i && old_sv[idx as int].0 == key),
                idx == n ==> forall|j: int| 0 <= j < i ==> (#[trigger] old_sv[j]).0 != key,
            decreases n - i,
        {
            if idx == n && self.entries[i].0 == key {
                idx = i;
            }
            i += 1;
        }
        let mut es: Vec<(AccountKey, AccountRecord)> = Vec::new();
        core::mem::swap(&mut es, &mut self.entries);
        proof {
            assert(self.entries() =~= Seq::<(AccountKey, RecordView)>::empty());
            assert(sv_of(es@) =~= old_sv);
        }
        if idx < n {
            let elem = &mut es[idx];
            *elem = (key, rec);
            proof {
                let new_sv = sv_of(es@);
                assert(new_sv =~= old_sv.update(idx as int, (key, rec@)));
                lemma_map_of_update(old_sv, idx as int, rec@);
                assert(keys_unique(new_sv)) by {
                    assert(forall|p: int| 0 <= p < new_sv.len() && p != idx ==>
                        (#[trigger] new_sv[p]).0 == old_sv[p].0);
                }
                assert(has_key(old_sv, key)) by {
                    assert(old_sv[idx as int].0 == key);
                }
            }
            self.entries = es;
        } else {
            proof {
                assert(!has_key(old_sv, key));
            }
            es.push((key, rec));
            proof {
                let new_sv = sv_of(es@);
                assert(new_sv =~= old_sv.push((key, rec@)));
                assert(keys_unique(new_sv)) by {
                    assert(forall|p: int| 0 <= p < old_sv.len() ==>
                        (#[trigger] new_sv[p]).0 == old_sv[p].0);
                }
                assert(new_sv.drop_last() =~= old_sv);
            }
            self.entries = es;
        }
    }

    /// Appends an entry whose key the store does not yet hold.
    pub fn push_new(&mut self, key: AccountKey, rec: AccountRecord)
        requires
            !old(self)@.contains_key(key),
        ensures
            final(self).entries() =~= old(self).entries().push((key, rec@)),
            final(self)@ =~= old(self)@.insert(key, rec@),
    {
        proof {
            use_type_invariant(&*self);
            lemma_map_of_dom(self.entries());
        }
        let ghost old_sv = self.entries();
        let mut es: Vec<(AccountKey, AccountRecord)> = Vec::new();
        core::mem::swap(&mut es, &mut self.entries);
        proof {
            assert(self.entries() =~= Seq::<(AccountKey, RecordView)>::empty());
            assert(sv_of(es@) =~= old_sv);
        }
        es.push((key, rec));
        proof {
            let new_sv = sv_of(es@);
            assert(new_sv =~= old_sv.push((key, rec@)));
            assert(!has_key(old_sv, key));
            assert(keys_unique(new_sv)) by {
                assert(forall|p: int| 0 <= p < old_sv.len() ==>
                    (#[trigger] new_sv[p]).0 == old_sv[p].0);
            }
            assert(new_sv.drop_last() =~= old_sv);
        }
        self.entries = es;
    }
}

impl Clone for AccountStore {
    /// A clone denotes the same entry list and the same map.
    fn clone(&self) -> (r: Self)
        ensures
            r.entries() =~= self.entries(),
            r@ =~= self@,
    {
        proof {
            use_type_invariant(self);
        }
        let n = self.entries.len();
        let mut es: Vec<(AccountKey, AccountRecord)> = Vec::new();
        let mut i: usize = 0;
        while i < n
            invariant
                i <= n,
                n == self.entries@.len(),
                es@.len() == i,
                sv_of(es@) =~= self.entries().take(i as int),
                keys_unique(self.entries()),
            decreases n - i,
        {
            let key = self.entries[i].0;
            let rec = self.entries[i].1.clone();
            es.push((key, rec));
            proof {
                let new_sv = sv_of(es@);
                assert(new_sv[i as int] == (key, rec@));
                assert(self.entries()[i as int] == (key, rec@));
                assert(new_sv =~= self.entries().take(i as int + 1));
            }
            i += 1;
        }
        let r = AccountStore { entries: es };
        proof {
            assert(r.entries() =~= self.entries().take(n as int));
            assert(self.entries().take(n as int) =~= self.entries());
        }
        r
    }
}

} // verus!
