//! The engine's general laws, stated over the mathematical values its
//! contracts use and proved once and for all.

use vstd::prelude::*;
use crate::account::{AccountKey, RecordView, OwnerClass, Authorities, class_of};
use crate::store::{map_of, keys_unique};
use crate::merge::{class_pred, lemma_filter_map_facts};
use crate::plan::{MergePolicy, planned_outcome};
use crate::merge::{batch_ends, batch_ends_from, costs_of};

verus! {

/// The keys of one ownership class within an account map.
pub open spec fn class_dom(
    m: Map<AccountKey, RecordView>,
    auth: Authorities,
    c: OwnerClass,
) -> Set<AccountKey> {
    m.dom().filter(|k: AccountKey| class_of(m[k].owner, auth) == c)
}

/// The keys of the accounts that are live: present with nonzero balance.
pub open spec fn live_dom(m: Map<AccountKey, RecordView>) -> Set<AccountKey> {
    m.dom().filter(|k: AccountKey| m[k].lamports != 0)
}

/// A class's key set within a store is exactly as large as the class's
/// entry list: the map-level and entry-level counts agree.
pub proof fn lemma_class_dom_size(
    s: Seq<(AccountKey, RecordView)>,
    auth: Authorities,
    c: OwnerClass,
)
    requires
        keys_unique(s),
    ensures
        class_dom(map_of(s), auth, c).finite(),
        class_dom(map_of(s), auth, c).len() == s.filter(class_pred(c, auth)).len(),
{
    let p = class_pred(c, auth);
    let f = s.filter(p);
    lemma_filter_map_facts(s, p);
    crate::store::lemma_map_of_dom(f);
    crate::store::lemma_map_of_len(f);
    crate::store::lemma_map_of_dom(s);
    assert forall|k: AccountKey| map_of(f).contains_key(k)
        <==> class_dom(map_of(s), auth, c).contains(k) by {
        assert(p((k, map_of(s)[k])) == (class_of(map_of(s)[k].owner, auth) == c));
    }
    assert(map_of(f).dom() =~= class_dom(map_of(s), auth, c));
}

/// Partition totality: classifying a store into Vote, Stake and Other
/// yields three key sets that are pairwise disjoint, whose union is the
/// store's whole key set, and whose sizes add up to the store's live
/// account count.
pub proof fn lemma_partition_total(s: Seq<(AccountKey, RecordView)>, auth: Authorities)
    requires
        keys_unique(s),
    ensures
        class_dom(map_of(s), auth, OwnerClass::Vote)
            .union(class_dom(map_of(s), auth, OwnerClass::Stake))
            .union(class_dom(map_of(s), auth, OwnerClass::Other)) =~= map_of(s).dom(),
        class_dom(map_of(s), auth, OwnerClass::Vote)
            .intersect(class_dom(map_of(s), auth, OwnerClass::Stake)) =~= Set::empty(),
        class_dom(map_of(s), auth, OwnerClass::Vote)
            .intersect(class_dom(map_of(s), auth, OwnerClass::Other)) =~= Set::empty(),
        class_dom(map_of(s), auth, OwnerClass::Stake)
            .intersect(class_dom(map_of(s), auth, OwnerClass::Other)) =~= Set::empty(),
        class_dom(map_of(s), auth, OwnerClass::Vote).len()
            + class_dom(map_of(s), auth, OwnerClass::Stake).len()
            + class_dom(map_of(s), auth, OwnerClass::Other).len() == map_of(s).dom().len(),
{
    lemma_class_dom_size(s, auth, OwnerClass::Vote);
    lemma_class_dom_size(s, auth, OwnerClass::Stake);
    lemma_class_dom_size(s, auth, OwnerClass::Other);
    crate::store::lemma_map_of_len(s);
    lemma_filter_lengths_partition(s, auth);
}

/// Each entry falls in exactly one class, so the three class entry lists
/// together are as long as the whole list.
proof fn lemma_filter_lengths_partition(s: Seq<(AccountKey, RecordView)>, auth: Authorities)
    ensures
        s.filter(class_pred(OwnerClass::Vote, auth)).len()
            + s.filter(class_pred(OwnerClass::Stake, auth)).len()
            + s.filter(class_pred(OwnerClass::Other, auth)).len() == s.len(),
    decreases s.len(),
{
    let pv = class_pred(OwnerClass::Vote, auth);
    let ps = class_pred(OwnerClass::Stake, auth);
    let po = class_pred(OwnerClass::Other, auth);
    if s.len() == 0 {
        assert(s.filter(pv) =~= s);
        assert(s.filter(ps) =~= s);
        assert(s.filter(po) =~= s);
    } else {
        let d = s.drop_last();
        lemma_filter_lengths_partition(d, auth);
        vstd::prelude::Seq::lemma_filter_push(d, s.last(), pv);
        vstd::prelude::Seq::lemma_filter_push(d, s.last(), ps);
        vstd::prelude::Seq::lemma_filter_push(d, s.last(), po);
        assert(s =~= d.push(s.last()));
        let c = class_of(s.last().1.owner, auth);
        assert(pv(s.last()) == (c is Vote));
        assert(ps(s.last()) == (c is Stake));
        assert(po(s.last()) == (c is Other));
    }
}

/// Exclusion correctness: the ownership-class-exclusion policy keeps a
/// live final account exactly for each live Other-class target account;
/// when every target account is live, the live final set is exactly the
/// target's Other class.
pub proof fn lemma_exclusion_correct(
    t: Map<AccountKey, RecordView>,
    s: Map<AccountKey, RecordView>,
    auth: Authorities,
)
    ensures
        planned_outcome(MergePolicy::OwnershipClassExclusion, t, s, auth).dom() =~= t.dom(),
        live_dom(planned_outcome(MergePolicy::OwnershipClassExclusion, t, s, auth))
            =~= live_dom(t).intersect(class_dom(t, auth, OwnerClass::Other)),
{
    let outcome = planned_outcome(MergePolicy::OwnershipClassExclusion, t, s, auth);
    assert forall|k: AccountKey| #[trigger] live_dom(outcome).contains(k)
        <==> live_dom(t).intersect(class_dom(t, auth, OwnerClass::Other)).contains(k) by {}
}

/// Exclusion correctness on an all-live target: the live final set is the
/// target's Other class itself, size-for-size.
pub proof fn lemma_exclusion_correct_all_live(
    t: Map<AccountKey, RecordView>,
    s: Map<AccountKey, RecordView>,
    auth: Authorities,
)
    requires
        forall|k: AccountKey| #[trigger] t.contains_key(k) ==> t[k].lamports != 0,
    ensures
        live_dom(planned_outcome(MergePolicy::OwnershipClassExclusion, t, s, auth))
            =~= class_dom(t, auth, OwnerClass::Other),
{
    lemma_exclusion_correct(t, s, auth);
    assert(live_dom(t).intersect(class_dom(t, auth, OwnerClass::Other))
        =~= class_dom(t, auth, OwnerClass::Other));
}

/// Overwrite correctness: the cross-source-overwrite policy's live final
/// set is the source's live validator accounts together with the target's
/// live Other-class accounts whose keys the source's validators do not
/// claim.
pub proof fn lemma_overwrite_correct(
    t: Map<AccountKey, RecordView>,
    s: Map<AccountKey, RecordView>,
    auth: Authorities,
)
    ensures
        live_dom(planned_outcome(MergePolicy::CrossSourceOverwrite, t, s, auth))
            =~= live_dom(s).intersect(
                class_dom(s, auth, OwnerClass::Vote).union(class_dom(s, auth, OwnerClass::Stake)),
            ).union(
                live_dom(t).intersect(class_dom(t, auth, OwnerClass::Other)).difference(
                    class_dom(s, auth, OwnerClass::Vote).union(class_dom(s, auth, OwnerClass::Stake)),
                ),
            ),
{
    let outcome = planned_outcome(MergePolicy::CrossSourceOverwrite, t, s, auth);
    let vs = class_dom(s, auth, OwnerClass::Vote).union(class_dom(s, auth, OwnerClass::Stake));
    assert forall|k: AccountKey| #[trigger] live_dom(outcome).contains(k)
        <==> live_dom(s).intersect(vs).union(
            live_dom(t).intersect(class_dom(t, auth, OwnerClass::Other)).difference(vs),
        ).contains(k) by {
        if s.contains_key(k) {
            let c = class_of(s[k].owner, auth);
            assert(vs.contains(k) <==> (c is Vote || c is Stake));
            assert((c is Vote || c is Stake) <==> !(c is Other));
        }
    }
}

/// Tombstone, not delete: a key the plan excludes stays present in the
/// outcome, carrying the target's record with its balance zeroed.
pub proof fn lemma_tombstone_not_delete(
    policy: MergePolicy,
    t: Map<AccountKey, RecordView>,
    s: Map<AccountKey, RecordView>,
    auth: Authorities,
    k: AccountKey,
)
    requires
        t.contains_key(k),
        !(class_of(t[k].owner, auth) is Other),
        policy is CrossSourceOverwrite
            ==> !(s.contains_key(k) && !(class_of(s[k].owner, auth) is Other)),
    ensures
        planned_outcome(policy, t, s, auth).contains_key(k),
        planned_outcome(policy, t, s, auth)[k] == t[k].tombstone_view(),
        planned_outcome(policy, t, s, auth)[k].lamports == 0,
        planned_outcome(policy, t, s, auth)[k].owner == t[k].owner,
        planned_outcome(policy, t, s, auth)[k].data == t[k].data,
{
}


/// The sum of the costs in the index range `[a, b)`.
pub open spec fn cost_sum(costs: Seq<int>, a: int, b: int) -> int
    decreases b - a,
{
    if b <= a {
        0
    } else {
        cost_sum(costs, a, b - 1) + costs[b - 1]
    }
}

/// Where slot `j` of a layout begins, when the layout's records start at
/// index `i`.
pub open spec fn batch_start_at(ends: Seq<int>, i: int, j: int) -> int {
    if j == 0 {
        i
    } else {
        ends[j - 1]
    }
}

/// Where slot `j` of a layout begins.
pub open spec fn batch_start(ends: Seq<int>, j: int) -> int {
    batch_start_at(ends, 0, j)
}

/// A cost range's sum splits at any point inside it.
pub proof fn lemma_cost_sum_split(costs: Seq<int>, a: int, mid: int, b: int)
    requires
        a <= mid <= b,
    ensures
        cost_sum(costs, a, b) == cost_sum(costs, a, mid) + cost_sum(costs, mid, b),
    decreases b - mid,
{
    if mid == b {
    } else {
        lemma_cost_sum_split(costs, a, mid, b - 1);
    }
}

/// A sum of nonnegative costs is nonnegative.
pub proof fn lemma_cost_sum_nonneg(costs: Seq<int>, a: int, b: int)
    requires
        forall|x: int| 0 <= x < costs.len() ==> #[trigger] costs[x] >= 0,
        0 <= a,
        b <= costs.len(),
    ensures
        cost_sum(costs, a, b) >= 0,
    decreases b - a,
{
    if b <= a {
    } else {
        lemma_cost_sum_nonneg(costs, a, b - 1);
    }
}

/// The exact shape of a layout's first slot, continued from record `i`
/// with `cum` already accumulated: the slot ends at the first index where
/// the accumulated cost reaches the limit, never earlier; a final slot
/// never reaches it; and the rest of the layout restarts cleanly there.
proof fn lemma_bef_exact(costs: Seq<int>, limit: int, i: int, cum: int)
    requires
        0 <= i <= costs.len(),
    ensures
        ({
            let e = batch_ends_from(costs, limit, i, cum);
            &&& e.len() >= 1
            &&& e.last() == costs.len()
            &&& forall|j: int| 0 <= j < e.len() ==> i <= #[trigger] e[j] <= costs.len()
            &&& forall|j: int| 0 <= j < e.len() - 1 ==> i < #[trigger] e[j]
            &&& (e.len() > 1 ==> cum + cost_sum(costs, i, e[0]) >= limit)
            &&& (e.len() > 1 ==> forall|m: int| i < m < e[0]
                ==> cum + cost_sum(costs, i, m) < limit)
            &&& (e.len() == 1 ==> forall|m: int| i < m <= costs.len()
                ==> cum + cost_sum(costs, i, m) < limit)
            &&& (e.len() > 1 ==> e.drop_first() == batch_ends_from(costs, limit, e[0], 0))
        }),
    decreases costs.len() - i,
{
    let e = batch_ends_from(costs, limit, i, cum);
    if i >= costs.len() {
        assert(e =~= seq![costs.len() as int]);
    } else if cum + costs[i] >= limit {
        lemma_bef_exact(costs, limit, i + 1, 0);
        let tail = batch_ends_from(costs, limit, i + 1, 0);
        assert(e =~= seq![i + 1] + tail);
        assert(e[0] == i + 1);
        assert(e.drop_first() =~= tail);
        assert(cost_sum(costs, i, i) == 0);
        assert(cost_sum(costs, i, i + 1) == costs[i]);
        assert forall|j: int| 0 <= j < e.len() implies i <= #[trigger] e[j] <= costs.len() by {
            if j > 0 {
                assert(e[j] == tail[j - 1]);
            }
        }
        assert forall|j: int| 0 <= j < e.len() - 1 implies i < #[trigger] e[j] by {
            if j > 0 {
                assert(e[j] == tail[j - 1]);
            }
        }
    } else {
        lemma_bef_exact(costs, limit, i + 1, cum + costs[i]);
        let tail = batch_ends_from(costs, limit, i + 1, cum + costs[i]);
        assert(e == tail);
        assert forall|m: int| i < m <= costs.len()
            implies cum + cost_sum(costs, i, m) == (cum + costs[i]) + cost_sum(costs, i + 1, m) by {
            lemma_cost_sum_split(costs, i, i + 1, m);
            assert(cost_sum(costs, i, i) == 0);
        assert(cost_sum(costs, i, i + 1) == costs[i]);
        }
        if e.len() > 1 {
            assert(i + 1 < e[0]) by {
                if e[0] == i + 1 {
                    assert((cum + costs[i]) + cost_sum(costs, i + 1, i + 1) >= limit);
                }
            }
            assert forall|m: int| i < m < e[0] implies cum + cost_sum(costs, i, m) < limit by {
                if m == i + 1 {
                    assert(cost_sum(costs, i, i) == 0);
        assert(cost_sum(costs, i, i + 1) == costs[i]);
                }
            }
        } else {
            assert forall|m: int| i < m <= costs.len()
                implies cum + cost_sum(costs, i, m) < limit by {
                if m == i + 1 {
                    assert(cost_sum(costs, i, i) == 0);
        assert(cost_sum(costs, i, i + 1) == costs[i]);
                }
            }
        }
    }
}

/// Batching boundary exactness: in the layout of a cost sequence under a
/// limit, every slot's records are the contiguous range from its start to
/// its end; every slot but the last accumulates at least the limit, and
/// no proper prefix of any slot reaches the limit — a boundary falls
/// exactly where the accumulated cost first reaches or exceeds it.
pub proof fn lemma_batching_boundaries(costs: Seq<int>, limit: int)
    ensures
        ({
            let e = batch_ends(costs, limit);
            &&& e.len() >= 1
            &&& e.last() == costs.len()
            &&& forall|j: int| 0 <= j < e.len()
                ==> batch_start(e, j) <= #[trigger] e[j] <= costs.len()
            &&& forall|j: int| 0 <= j < e.len() - 1
                ==> cost_sum(costs, batch_start(e, j), #[trigger] e[j]) >= limit
            &&& forall|j: int, m: int| 0 <= j < e.len() && batch_start(e, j) < m < e[j]
                ==> #[trigger] cost_sum(costs, batch_start(e, j), m) < limit
            &&& forall|m: int| batch_start(e, e.len() - 1) < m <= costs.len()
                ==> #[trigger] cost_sum(costs, batch_start(e, e.len() - 1), m) < limit
        }),
{
    lemma_bef_all_slots(costs, limit, 0);
    let e = batch_ends(costs, limit);
    assert(forall|j: int| 0 <= j < e.len()
        ==> #[trigger] batch_start(e, j) == batch_start_at(e, 0, j));
}

/// The per-slot exactness of a layout continued from record `i` with a
/// fresh accumulator, by peeling one slot at a time.
proof fn lemma_bef_all_slots(costs: Seq<int>, limit: int, i: int)
    requires
        0 <= i <= costs.len(),
    ensures
        ({
            let e = batch_ends_from(costs, limit, i, 0);
            &&& e.len() >= 1
            &&& e.last() == costs.len()
            &&& forall|j: int| 0 <= j < e.len() ==> i <= #[trigger] e[j] <= costs.len()
            &&& forall|j: int| 0 <= j < e.len()
                ==> batch_start_at(e, i, j) <= #[trigger] e[j]
            &&& forall|j: int| 0 <= j < e.len() - 1
                ==> cost_sum(costs, batch_start_at(e, i, j), #[trigger] e[j]) >= limit
            &&& forall|j: int, m: int| 0 <= j < e.len() && batch_start_at(e, i, j) < m < e[j]
                ==> #[trigger] cost_sum(costs, batch_start_at(e, i, j), m) < limit
            &&& forall|m: int| batch_start_at(e, i, e.len() - 1) < m <= costs.len()
                ==> #[trigger] cost_sum(costs, batch_start_at(e, i, e.len() - 1), m) < limit
        }),
    decreases costs.len() - i, batch_ends_from(costs, limit, i, 0).len(),
{
    let e = batch_ends_from(costs, limit, i, 0);
    lemma_bef_exact(costs, limit, i, 0);
    if e.len() == 1 {
        assert(batch_start_at(e, i, 0) == i);
    } else {
        let tail = batch_ends_from(costs, limit, e[0], 0);
        assert(e.drop_first() == tail);
        assert(i < e[0] <= costs.len());
        lemma_bef_all_slots(costs, limit, e[0]);
        assert(forall|j: int| 1 <= j < e.len() ==> #[trigger] e[j] == tail[j - 1]);
        assert forall|j: int| 1 <= j < e.len()
            implies #[trigger] batch_start_at(e, i, j) == batch_start_at(tail, e[0], j - 1) by {
            if j == 1 {
                assert(batch_start_at(e, i, 1) == e[0]);
            } else {
                assert(batch_start_at(e, i, j) == e[j - 1]);
                assert(e[j - 1] == tail[j - 2]);
            }
        }
        assert forall|j: int| 0 <= j < e.len() implies i <= #[trigger] e[j] <= costs.len()
            && batch_start_at(e, i, j) <= e[j] by {
            if j > 0 {
                assert(e[j] == tail[j - 1]);
                assert(batch_start_at(tail, e[0], j - 1) <= tail[j - 1]);
            }
        }
        assert forall|j: int| 0 <= j < e.len() - 1
            implies cost_sum(costs, batch_start_at(e, i, j), #[trigger] e[j]) >= limit by {
            if j == 0 {
                assert(batch_start_at(e, i, 0) == i);
                assert(cost_sum(costs, i, e[0]) >= limit);
            } else {
                assert(e[j] == tail[j - 1]);
                assert(cost_sum(costs, batch_start_at(tail, e[0], j - 1), tail[j - 1]) >= limit);
            }
        }
        assert forall|j: int, m: int| 0 <= j < e.len() && batch_start_at(e, i, j) < m < e[j]
            implies #[trigger] cost_sum(costs, batch_start_at(e, i, j), m) < limit by {
            if j == 0 {
                assert(batch_start_at(e, i, 0) == i);
            } else {
                assert(e[j] == tail[j - 1]);
                assert(cost_sum(costs, batch_start_at(tail, e[0], j - 1), m) < limit);
            }
        }
        assert forall|m: int| batch_start_at(e, i, e.len() - 1) < m <= costs.len()
            implies #[trigger] cost_sum(costs, batch_start_at(e, i, e.len() - 1), m) < limit by {
            assert(batch_start_at(e, i, e.len() - 1)
                == batch_start_at(tail, e[0], tail.len() - 1));
            assert(cost_sum(costs, batch_start_at(tail, e[0], tail.len() - 1), m) < limit);
        }
    }
}

/// A slot-count bound: every slot but the last costs at least the limit,
/// so the layout has at most `total / limit` completed slots.
pub proof fn lemma_batch_count_bound(costs: Seq<int>, limit: int, i: int)
    requires
        0 <= i <= costs.len(),
        forall|x: int| 0 <= x < costs.len() ==> #[trigger] costs[x] >= 0,
    ensures
        (batch_ends_from(costs, limit, i, 0).len() - 1) * limit
            <= cost_sum(costs, i, costs.len() as int),
    decreases costs.len() - i, batch_ends_from(costs, limit, i, 0).len(),
{
    let e = batch_ends_from(costs, limit, i, 0);
    lemma_bef_exact(costs, limit, i, 0);
    if e.len() == 1 {
        lemma_cost_sum_nonneg(costs, i, costs.len() as int);
    } else {
        lemma_batch_count_bound(costs, limit, e[0]);
        let tail = batch_ends_from(costs, limit, e[0], 0);
        assert(e.drop_first() == tail);
        assert(tail.len() == e.len() - 1);
        lemma_cost_sum_split(costs, i, e[0], costs.len() as int);
        assert((e.len() - 1) * limit == limit + (tail.len() - 1) * limit) by (nonlinear_arith)
            requires tail.len() == e.len() - 1;
    }
}

/// Batching determinism: the slot layout is a function of the record
/// costs, their order and the byte limit alone; two record lists with
/// equal cost sequences batch identically.
pub proof fn lemma_batching_deterministic(
    r1: Seq<(AccountKey, RecordView)>,
    r2: Seq<(AccountKey, RecordView)>,
    limit: int,
)
    requires
        costs_of(r1) == costs_of(r2),
    ensures
        batch_ends(costs_of(r1), limit) == batch_ends(costs_of(r2), limit),
{
}

} // verus!
