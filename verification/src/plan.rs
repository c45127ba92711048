//! The merge planner: decides, for every key, which record survives into
//! the output.  Two policies exist.  Ownership-class exclusion keeps the
//! target's general accounts and tombstones its validator classes.
//! Cross-source overwrite keeps the target's general accounts, replaces
//! its Vote and Stake classes wholesale by those of an independent source
//! snapshot, and tombstones what neither rule keeps.

use vstd::prelude::*;
use crate::account::{AccountKey, AccountRecord, RecordView, OwnerClass, Authorities,
    classify_owner, class_of};
use crate::bank::Bank;
use crate::store::{AccountStore, map_of, keys_unique, has_key};
use crate::merge::{class_pred, lemma_filter_map_facts};

verus! {

/// Which planning policy a run uses; the choice is always explicit.
#[derive(Clone, Copy, PartialEq, Eq, Structural, Debug)]
pub enum MergePolicy {
    /// Strip the target's validator classes; keep everything else.
    OwnershipClassExclusion,
    /// Replace the target's validator classes by the source's.
    CrossSourceOverwrite,
}

/// What the exclusion policy leaves under one target entry's key.
pub open spec fn exclusion_value(tv: RecordView, auth: Authorities) -> RecordView {
    if class_of(tv.owner, auth) is Other {
        tv
    } else {
        tv.tombstone_view()
    }
}

/// What the overwrite policy leaves under one target entry's key.
pub open spec fn overwrite_value(
    k: AccountKey,
    tv: RecordView,
    s: Map<AccountKey, RecordView>,
    auth: Authorities,
) -> RecordView {
    if s.contains_key(k) && !(class_of(s[k].owner, auth) is Other) {
        s[k]
    } else if class_of(tv.owner, auth) is Other {
        tv
    } else {
        tv.tombstone_view()
    }
}

/// Selects the source entries the overwrite policy adds beyond the
/// target's own keys: validator-class records under fresh keys.
pub open spec fn overwrite_extra_pred(
    t: Map<AccountKey, RecordView>,
    auth: Authorities,
) -> spec_fn((AccountKey, RecordView)) -> bool {
    |e: (AccountKey, RecordView)| !(class_of(e.1.owner, auth) is Other) && !t.contains_key(e.0)
}

/// The planned record list, in plan order: one record per target entry,
/// then, under the overwrite policy, the source's validator records whose
/// keys the target lacks.
pub open spec fn planned_seq(
    policy: MergePolicy,
    te: Seq<(AccountKey, RecordView)>,
    se: Seq<(AccountKey, RecordView)>,
    auth: Authorities,
) -> Seq<(AccountKey, RecordView)> {
    match policy {
        MergePolicy::OwnershipClassExclusion => Seq::new(
            te.len(),
            |j: int| (te[j].0, exclusion_value(te[j].1, auth)),
        ),
        MergePolicy::CrossSourceOverwrite => Seq::new(
            te.len(),
            |j: int| (te[j].0, overwrite_value(te[j].0, te[j].1, map_of(se), auth)),
        ) + se.filter(overwrite_extra_pred(map_of(te), auth)),
    }
}

/// The record every key holds after the plan has been applied over the
/// target: the planner's whole outcome as one map.
pub open spec fn planned_outcome(
    policy: MergePolicy,
    t: Map<AccountKey, RecordView>,
    s: Map<AccountKey, RecordView>,
    auth: Authorities,
) -> Map<AccountKey, RecordView> {
    match policy {
        MergePolicy::OwnershipClassExclusion => Map::new(
            |k: AccountKey| t.contains_key(k),
            |k: AccountKey| exclusion_value(t[k], auth),
        ),
        MergePolicy::CrossSourceOverwrite => Map::new(
            |k: AccountKey| t.contains_key(k)
                || (s.contains_key(k) && !(class_of(s[k].owner, auth) is Other)),
            |k: AccountKey| if t.contains_key(k) {
                overwrite_value(k, t[k], s, auth)
            } else {
                s[k]
            },
        ),
    }
}

/// The planner's product: the accepted record list (tombstones included)
/// and how many target accounts each validator class lost.
pub struct MergePlan {
    /// The records to apply, in plan order, one per surviving key.
    pub accepted: AccountStore,
    /// How many target accounts of the Vote class were excluded.
    pub excluded_vote: usize,
    /// How many target accounts of the Stake class were excluded.
    pub excluded_stake: usize,
}

/// A pointwise record transformation of an entry list denotes the map
/// with the same keys and transformed values.
proof fn lemma_map_of_pointwise(
    sv: Seq<(AccountKey, RecordView)>,
    tv: Seq<(AccountKey, RecordView)>,
    f: spec_fn(AccountKey, RecordView) -> RecordView,
)
    requires
        keys_unique(sv),
        tv.len() == sv.len(),
        forall|j: int| 0 <= j < sv.len() ==> (#[trigger] tv[j]).0 == sv[j].0,
        forall|j: int| 0 <= j < sv.len() ==> (#[trigger] tv[j]).1 == f(sv[j].0, sv[j].1),
    ensures
        keys_unique(tv),
        map_of(tv) =~= Map::new(
            |k: AccountKey| map_of(sv).contains_key(k),
            |k: AccountKey| f(k, map_of(sv)[k]),
        ),
{
    assert(keys_unique(tv)) by {
        assert(forall|a: int, b: int| 0 <= a < b < tv.len() ==>
            (#[trigger] tv[a]).0 == sv[a].0 && (#[trigger] tv[b]).0 == sv[b].0);
    }
    crate::store::lemma_map_of_dom(sv);
    crate::store::lemma_map_of_dom(tv);
    let m = Map::new(
        |k: AccountKey| map_of(sv).contains_key(k),
        |k: AccountKey| f(k, map_of(sv)[k]),
    );
    assert forall|k: AccountKey| map_of(tv).contains_key(k) <==> m.contains_key(k) by {
        if has_key(sv, k) {
            let j = choose|j: int| 0 <= j < sv.len() && (#[trigger] sv[j]).0 == k;
            assert(tv[j].0 == k);
        }
        if has_key(tv, k) {
            let j = choose|j: int| 0 <= j < tv.len() && (#[trigger] tv[j]).0 == k;
            assert(sv[j].0 == k);
        }
    }
    assert forall|k: AccountKey| m.contains_key(k) implies map_of(tv)[k] == m[k] by {
        let j = choose|j: int| 0 <= j < sv.len() && (#[trigger] sv[j]).0 == k;
        crate::store::lemma_map_of_index(sv, j);
        crate::store::lemma_map_of_index(tv, j);
    }
}

/// Concatenating two entry lists denotes the right-preferring union of
/// their maps.
pub proof fn lemma_map_of_concat(
    a: Seq<(AccountKey, RecordView)>,
    b: Seq<(AccountKey, RecordView)>,
)
    ensures
        map_of(a + b) =~= map_of(a).union_prefer_right(map_of(b)),
    decreases b.len(),
{
    if b.len() == 0 {
        assert(a + b =~= a);
        assert(map_of(a).union_prefer_right(map_of(b)) =~= map_of(a));
    } else {
        lemma_map_of_concat(a, b.drop_last());
        assert((a + b).drop_last() =~= a + b.drop_last());
        assert((a + b).last() == b.last());
    }
}

/// Builds the merge plan for one run.  The accepted list is pinned
/// entry-for-entry, its denoted map is the planned outcome, and the
/// exclusion counters count the target's validator classes.
pub fn plan_merge(policy: MergePolicy, target: &Bank, source: &Bank, auth: &Authorities)
    -> (plan: MergePlan)
    ensures
        plan.accepted.entries() == planned_seq(policy, target@.entries, source@.entries, *auth),
        map_of(plan.accepted.entries()) =~= planned_outcome(
            policy,
            target@.accounts(),
            source@.accounts(),
            *auth,
        ),
        plan.accepted.entries().len()
            <= target@.entries.len() + source@.entries.len(),
        plan.excluded_vote as int
            == target@.entries.filter(class_pred(OwnerClass::Vote, *auth)).len(),
        plan.excluded_stake as int
            == target@.entries.filter(class_pred(OwnerClass::Stake, *auth)).len(),
{
    broadcast use vstd::prelude::Seq::lemma_filter_len;

    let ghost te = target@.entries;
    let ghost se = source@.entries;
    let ghost t_map = target@.accounts();
    let ghost s_map = source@.accounts();
    target.well_formedness();
    source.well_formedness();

    let excluded_vote = crate::merge::classify_accounts(target, OwnerClass::Vote, auth).len();
    let excluded_stake = crate::merge::classify_accounts(target, OwnerClass::Stake, auth).len();

    let tstore = target.store();
    let sstore = source.store();
    let n = tstore.len();
    let mut accepted = AccountStore::new();
    let ghost planned = planned_seq(policy, te, se, *auth);

    let mut i: usize = 0;
    while i < n
        invariant
            i <= n,
            n == te.len(),
            te == target@.entries,
            se == source@.entries,
            t_map == target@.accounts(),
            s_map == source@.accounts(),
            tstore.entries() == te,
            sstore.entries() == se,
            sstore@ == s_map,
            keys_unique(te),
            keys_unique(se),
            accepted.entries().len() == i,
            forall|j: int| 0 <= j < i ==> (#[trigger] accepted.entries()[j]).0 == te[j].0,
            forall|j: int| 0 <= j < i ==> (#[trigger] accepted.entries()[j]).1
                == (match policy {
                    MergePolicy::OwnershipClassExclusion => exclusion_value(te[j].1, *auth),
                    MergePolicy::CrossSourceOverwrite =>
                        overwrite_value(te[j].0, te[j].1, s_map, *auth),
                }),
        decreases n - i,
    {
        let key = tstore.key_at(i);
        let trec = tstore.record_at(i);
        let out: AccountRecord = match policy {
            MergePolicy::OwnershipClassExclusion => {
                let c = classify_owner(&trec.owner, auth);
                if matches!(c, OwnerClass::Other) {
                    trec.clone()
                } else {
                    trec.tombstone()
                }
            },
            MergePolicy::CrossSourceOverwrite => {
                let srec = sstore.get(&key);
                match srec {
                    Some(sr) => {
                        let sc = classify_owner(&sr.owner, auth);
                        if !matches!(sc, OwnerClass::Other) {
                            sr.clone()
                        } else {
                            let tc = classify_owner(&trec.owner, auth);
                            if matches!(tc, OwnerClass::Other) {
                                trec.clone()
                            } else {
                                trec.tombstone()
                            }
                        }
                    },
                    None => {
                        let tc = classify_owner(&trec.owner, auth);
                        if matches!(tc, OwnerClass::Other) {
                            trec.clone()
                        } else {
                            trec.tombstone()
                        }
                    },
                }
            },
        };
        proof {
            assert(te[i as int].0 == key && te[i as int].1 == trec@);
            if accepted@.contains_key(key) {
                crate::store::lemma_map_of_dom(accepted.entries());
                let t = choose|t: int| 0 <= t < accepted.entries().len()
                    && (#[trigger] accepted.entries()[t]).0 == key;
                assert(te[t].0 == key);
            }
        }
        accepted.push_new(key, out);
        i += 1;
    }

    if matches!(policy, MergePolicy::CrossSourceOverwrite) {
        let ghost extra_p = overwrite_extra_pred(t_map, *auth);
        let m = sstore.len();
        let mut i2: usize = 0;
        proof {
            assert(se.take(0).filter(extra_p) =~= Seq::<(AccountKey, RecordView)>::empty());
        }
        while i2 < m
            invariant
                i2 <= m,
                m == se.len(),
                te == target@.entries,
                se == source@.entries,
                t_map == target@.accounts(),
                s_map == source@.accounts(),
                sstore.entries() == se,
                sstore@ == s_map,
                tstore.entries() == te,
                tstore@ == t_map,
                keys_unique(te),
                keys_unique(se),
                extra_p == overwrite_extra_pred(t_map, *auth),
                policy is CrossSourceOverwrite,
                accepted.entries() =~= Seq::new(
                    te.len(),
                    |j: int| (te[j].0, overwrite_value(te[j].0, te[j].1, s_map, *auth)),
                ) + se.take(i2 as int).filter(extra_p),
            decreases m - i2,
        {
            let skey = sstore.key_at(i2);
            let srec = sstore.record_at(i2);
            let sc = classify_owner(&srec.owner, auth);
            let in_target = tstore.get(&skey).is_some();
            proof {
                assert(se[i2 as int].0 == skey && se[i2 as int].1 == srec@);
                let e = se[i2 as int];
                vstd::prelude::Seq::lemma_filter_push(se.take(i2 as int), e, extra_p);
                assert(se.take(i2 as int + 1) =~= se.take(i2 as int).push(e));
                assert(extra_p(e) == (!(class_of(srec@.owner, *auth) is Other)
                    && !t_map.contains_key(skey)));
            }
            if !matches!(sc, OwnerClass::Other) && !in_target {
                let sr2 = srec.clone();
                proof {
                    if accepted@.contains_key(skey) {
                        crate::store::lemma_map_of_dom(accepted.entries());
                        let t = choose|t: int| 0 <= t < accepted.entries().len()
                            && (#[trigger] accepted.entries()[t]).0 == skey;
                        if t < te.len() {
                            assert(accepted.entries()[t].0 == te[t].0);
                            crate::store::lemma_map_of_dom(te);
                            assert(has_key(te, skey));
                            crate::store::lemma_map_of_dom(target@.entries);
                        } else {
                            let fpart = se.take(i2 as int).filter(extra_p);
                            assert(fpart[t - te.len()].0 == skey);
                            lemma_filter_map_facts(se.take(i2 as int), extra_p);
                            crate::store::lemma_map_of_dom(se.take(i2 as int));
                            assert(has_key(fpart, skey));
                            let u = choose|u: int| 0 <= u < i2
                                && (#[trigger] se.take(i2 as int)[u]).0 == skey;
                            assert(se[u].0 == skey);
                            assert(se[i2 as int].0 == skey);
                        }
                    }
                }
                accepted.push_new(skey, sr2);
                proof {
                    assert(accepted.entries() =~= Seq::new(
                        te.len(),
                        |j: int| (te[j].0, overwrite_value(te[j].0, te[j].1, s_map, *auth)),
                    ) + se.take(i2 as int + 1).filter(extra_p));
                }
            } else {
                proof {
                    assert(se.take(i2 as int + 1).filter(extra_p)
                        =~= se.take(i2 as int).filter(extra_p));
                }
            }
            i2 += 1;
        }
        proof {
            assert(se.take(m as int) =~= se);
        }
    }

    proof {
        assert(accepted.entries() =~= planned);
        lemma_planned_outcome(policy, te, se, *auth);
        assert(planned.len() <= te.len() + se.len()) by {
            if policy is CrossSourceOverwrite {
                se.lemma_filter_len(overwrite_extra_pred(map_of(te), *auth));
            }
        }
    }

    MergePlan { accepted, excluded_vote, excluded_stake }
}

/// The planned record list denotes exactly the planned outcome map.
pub proof fn lemma_planned_outcome(
    policy: MergePolicy,
    te: Seq<(AccountKey, RecordView)>,
    se: Seq<(AccountKey, RecordView)>,
    auth: Authorities,
)
    requires
        keys_unique(te),
        keys_unique(se),
    ensures
        keys_unique(planned_seq(policy, te, se, auth)),
        map_of(planned_seq(policy, te, se, auth))
            =~= planned_outcome(policy, map_of(te), map_of(se), auth),
{
    let t = map_of(te);
    let s = map_of(se);
    crate::store::lemma_map_of_dom(te);
    crate::store::lemma_map_of_dom(se);
    match policy {
        MergePolicy::OwnershipClassExclusion => {
            let tv = planned_seq(policy, te, se, auth);
            lemma_map_of_pointwise(te, tv, |k: AccountKey, rv: RecordView|
                exclusion_value(rv, auth));
        },
        MergePolicy::CrossSourceOverwrite => {
            let a = Seq::new(
                te.len(),
                |j: int| (te[j].0, overwrite_value(te[j].0, te[j].1, s, auth)),
            );
            let p = overwrite_extra_pred(t, auth);
            let b = se.filter(p);
            lemma_map_of_pointwise(te, a, |k: AccountKey, rv: RecordView|
                overwrite_value(k, rv, s, auth));
            lemma_filter_map_facts(se, p);
            crate::store::lemma_map_of_dom(b);
            lemma_map_of_concat(a, b);
            crate::store::lemma_map_of_dom(a);
            let result = map_of(a).union_prefer_right(map_of(b));
            let want = planned_outcome(policy, t, s, auth);
            assert forall|k: AccountKey| result.contains_key(k) <==> want.contains_key(k) by {}
            assert forall|k: AccountKey| want.contains_key(k) implies result[k] == want[k] by {
                if map_of(b).contains_key(k) {
                    assert(has_key(b, k));
                    let tb = choose|tb: int| 0 <= tb < b.len() && (#[trigger] b[tb]).0 == k;
                    crate::store::lemma_map_of_index(b, tb);
                    assert(map_of(se)[b[tb].0] == b[tb].1);
                    assert(p((k, s[k])));
                    assert(!t.contains_key(k));
                } else {
                    assert(t.contains_key(k));
                }
            }
            assert(keys_unique(planned_seq(policy, te, se, auth))) by {
                let ps = a + b;
                assert forall|x: int, y: int| 0 <= x < y < ps.len()
                    implies (#[trigger] ps[x]).0 != (#[trigger] ps[y]).0 by {
                    if x < a.len() && y >= a.len() {
                        assert(ps[x].0 == te[x].0);
                        assert(ps[y] == b[y - a.len()]);
                        assert(has_key(b, ps[y].0)) by {
                            assert(b[y - a.len()].0 == ps[y].0);
                        }
                        assert(!t.contains_key(ps[y].0));
                        crate::store::lemma_map_of_index(te, x);
                    } else if x >= a.len() {
                        assert(ps[x] == b[x - a.len()]);
                        assert(ps[y] == b[y - a.len()]);
                    } else {
                        assert(ps[x].0 == te[x].0 && ps[y].0 == te[y].0);
                    }
                }
            }
        },
    }
}

} // verus!
