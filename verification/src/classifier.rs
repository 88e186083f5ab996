//! The classifier: a bank of range-vector hash tables kept sorted by
//! descending per-table maximum priority.
//!
//! Rules are routed to the first table whose region contains their
//! prefix-length vector; lookup scans tables in priority order and
//! stops as soon as no later table can beat the best match so far.

use vstd::prelude::*;
use vstd::multiset::Multiset;

use crate::range_vector_hash_map::{
    lemma_held_le_top, rvht_wf, table_holds, RVHashMap, RvhtModel,
};
use crate::types::{in_region, rule_matches, rule_wf, Field, Mask, Packet, Priority, Range, Rule,
    RuleModel};

verus! {

/// Some table of the bank holds the rule model `rm`.
pub open spec fn bank_holds(ms: Seq<RvhtModel>, rm: RuleModel) -> bool {
    exists|i: int| 0 <= i < ms.len() && table_holds(#[trigger] ms[i], rm)
}

/// Some table of the bank has recorded the priority `p`.
pub open spec fn bank_holds_priority(ms: Seq<RvhtModel>, p: Priority) -> bool {
    exists|i: int| 0 <= i < ms.len() && (#[trigger] ms[i]).priorities.contains(p)
}

/// The multiset of all priorities recorded across the bank.
pub open spec fn bank_prios(ms: Seq<RvhtModel>) -> Multiset<Priority>
    decreases ms.len(),
{
    if ms.len() == 0 {
        Multiset::<Priority>::empty()
    } else {
        ms[0].priorities.to_multiset().add(bank_prios(ms.drop_first()))
    }
}

/// Tables appear in non-increasing order of their maximum priority.
pub open spec fn sorted_desc(ms: Seq<RvhtModel>) -> bool {
    forall|i: int, j: int| 0 <= i < j < ms.len() ==> (#[trigger] ms[i]).top >= (#[trigger] ms[j]).top
}

/// No priority is recorded more than once across the whole bank:
/// priorities are globally unique, so each identifies a single rule in
/// a single table.
pub open spec fn prios_unique(ms: Seq<RvhtModel>) -> bool {
    forall|p: Priority| #[trigger] bank_prios(ms).count(p) <= 1
}

/// The bank invariant: every table is well formed, the bank is sorted
/// by descending maximum priority, and priorities are globally unique.
pub open spec fn bank_wf(ms: Seq<RvhtModel>) -> bool {
    &&& forall|i: int| 0 <= i < ms.len() ==> rvht_wf(#[trigger] ms[i])
    &&& sorted_desc(ms)
    &&& prios_unique(ms)
}

/// The multiset of the bank's table regions. Mutations preserve it: a
/// table's region never changes and the bank never grows or shrinks.
pub open spec fn bank_regions(ms: Seq<RvhtModel>) -> Multiset<Seq<Range>> {
    ms.map_values(|t: RvhtModel| t.ranges).to_multiset()
}

/// How a table changes when it takes a rule: region and canonical
/// masks stay, the rule joins the held set, its priority is recorded,
/// and `top` rises to the priority when it beats the old maximum.
pub open spec fn table_inserted(told: RvhtModel, tnew: RvhtModel, rm: RuleModel) -> bool {
    &&& rvht_wf(tnew)
    &&& tnew.ranges == told.ranges
    &&& tnew.masks == told.masks
    &&& table_holds(tnew, rm)
    &&& forall|r2: RuleModel| #[trigger] table_holds(tnew, r2) <==> table_holds(told, r2) || r2 == rm
    &&& tnew.priorities.to_multiset() == told.priorities.to_multiset().insert(rm.priority)
    &&& tnew.top == (if rm.priority > told.top {
        rm.priority
    } else {
        told.top
    })
}

/// How a table changes when it gives a rule up: region and canonical
/// masks stay, the rule leaves the held set, and its priority is
/// erased.
pub open spec fn table_removed(told: RvhtModel, tnew: RvhtModel, rm: RuleModel) -> bool {
    &&& rvht_wf(tnew)
    &&& tnew.ranges == told.ranges
    &&& tnew.masks == told.masks
    &&& forall|r2: RuleModel| #[trigger] table_holds(tnew, r2) <==> table_holds(told, r2) && r2 != rm
    &&& tnew.priorities.to_multiset() == told.priorities.to_multiset().remove(rm.priority)
}

/// The index of the first table whose region admits the given mask
/// vector, or -1 when none does.
pub open spec fn first_admit(ms: Seq<RvhtModel>, masks: Seq<Mask>) -> int
    decreases ms.len(),
{
    if ms.len() == 0 {
        -1
    } else if in_region(ms[0].ranges, masks) {
        0
    } else {
        let rest = first_admit(ms.drop_first(), masks);
        if rest < 0 {
            -1
        } else {
            rest + 1
        }
    }
}

/// What a classification answer means: a returned rule is held by the
/// bank, masked-matches the packet, and no held matching rule outranks
/// it; an empty answer means no held rule matches at all.
pub open spec fn classify_post(ms: Seq<RvhtModel>, packet: Seq<Field>, r: Option<RuleModel>) -> bool {
    match r {
        Some(m) => {
            &&& bank_holds(ms, m)
            &&& rule_matches(packet, m)
            &&& m.priority >= 1
            &&& forall|rm: RuleModel|
                #[trigger] bank_holds(ms, rm) && rule_matches(packet, rm) ==> rm.priority
                    <= m.priority
        },
        None => forall|rm: RuleModel| #[trigger] bank_holds(ms, rm) ==> !rule_matches(packet, rm),
    }
}

/// `first_admit` names the first admitting table: if it is -1 no table
/// admits the masks; otherwise it is the least admitting index.
pub proof fn lemma_first_admit(ms: Seq<RvhtModel>, masks: Seq<Mask>)
    ensures
        first_admit(ms, masks) == -1 ==> forall|i: int|
            0 <= i < ms.len() ==> !in_region((#[trigger] ms[i]).ranges, masks),
        first_admit(ms, masks) != -1 ==> {
            let fa = first_admit(ms, masks);
            &&& 0 <= fa < ms.len()
            &&& in_region(ms[fa].ranges, masks)
            &&& forall|i: int| 0 <= i < fa ==> !in_region((#[trigger] ms[i]).ranges, masks)
        },
    decreases ms.len(),
{
    if ms.len() > 0 && !in_region(ms[0].ranges, masks) {
        lemma_first_admit(ms.drop_first(), masks);
        let rest = first_admit(ms.drop_first(), masks);
        if rest == -1 {
            assert forall|i: int|
                0 <= i < ms.len() implies !in_region((#[trigger] ms[i]).ranges, masks) by {
                if i > 0 {
                    assert(ms.drop_first()[i - 1] == ms[i]);
                }
            }
        } else {
            assert forall|i: int|
                0 <= i < rest + 1 implies !in_region((#[trigger] ms[i]).ranges, masks) by {
                if i > 0 {
                    assert(ms.drop_first()[i - 1] == ms[i]);
                }
            }
            assert(ms.drop_first()[rest] == ms[rest + 1]);
        }
    }
}

/// Peeling any one table out of the bank splits the priority multiset.
proof fn lemma_bank_prios_remove(ms: Seq<RvhtModel>, i: int)
    requires
        0 <= i < ms.len(),
    ensures
        bank_prios(ms) == ms[i].priorities.to_multiset().add(bank_prios(ms.remove(i))),
    decreases i,
{
    broadcast use vstd::multiset::group_multiset_axioms;

    if i == 0 {
        assert(ms.remove(0) =~= ms.drop_first());
    } else {
        assert(ms.remove(i).drop_first() =~= ms.drop_first().remove(i - 1));
        assert(ms.remove(i)[0] == ms[0]);
        lemma_bank_prios_remove(ms.drop_first(), i - 1);
        assert(ms.drop_first()[i - 1] == ms[i]);
        assert(bank_prios(ms) =~= ms[i].priorities.to_multiset().add(bank_prios(ms.remove(i))));
    }
}

/// Appending a table to the bank adds its priorities to the multiset.
proof fn lemma_bank_prios_push(ms: Seq<RvhtModel>, t: RvhtModel)
    ensures
        bank_prios(ms.push(t)) == bank_prios(ms).add(t.priorities.to_multiset()),
    decreases ms.len(),
{
    broadcast use vstd::multiset::group_multiset_axioms;

    if ms.len() == 0 {
        assert(ms.push(t)[0] == t);
        assert(ms.push(t).drop_first() =~= Seq::<RvhtModel>::empty());
        assert(bank_prios(Seq::<RvhtModel>::empty()) == Multiset::<Priority>::empty());
        assert(bank_prios(ms.push(t)) == t.priorities.to_multiset().add(
            Multiset::<Priority>::empty(),
        ));
        assert(bank_prios(ms) == Multiset::<Priority>::empty());
        assert(t.priorities.to_multiset().add(Multiset::<Priority>::empty())
            =~= Multiset::<Priority>::empty().add(t.priorities.to_multiset()));
    } else {
        assert(ms.push(t).drop_first() =~= ms.drop_first().push(t));
        assert(ms.push(t)[0] == ms[0]);
        lemma_bank_prios_push(ms.drop_first(), t);
        assert(bank_prios(ms.push(t)) =~= bank_prios(ms).add(t.priorities.to_multiset()));
    }
}

/// Replacing one table rewrites its contribution to the multiset.
proof fn lemma_bank_prios_update(ms: Seq<RvhtModel>, i: int, t: RvhtModel)
    requires
        0 <= i < ms.len(),
    ensures
        bank_prios(ms.update(i, t)).add(ms[i].priorities.to_multiset()) == bank_prios(ms).add(
            t.priorities.to_multiset(),
        ),
{
    broadcast use vstd::multiset::group_multiset_axioms;

    lemma_bank_prios_remove(ms, i);
    lemma_bank_prios_remove(ms.update(i, t), i);
    assert(ms.update(i, t).remove(i) =~= ms.remove(i));
    assert(ms.update(i, t)[i] == t);
    assert(bank_prios(ms.update(i, t)).add(ms[i].priorities.to_multiset()) =~= bank_prios(
        ms,
    ).add(t.priorities.to_multiset()));
}

/// A rule is held after one table is replaced exactly when the new
/// table holds it or some untouched table does.
proof fn lemma_bank_holds_update(ms: Seq<RvhtModel>, i: int, t: RvhtModel)
    requires
        0 <= i < ms.len(),
    ensures
        forall|rm: RuleModel|
            #[trigger] bank_holds(ms.update(i, t), rm) <==> (table_holds(t, rm) || exists|j: int|
                0 <= j < ms.len() && j != i && table_holds(#[trigger] ms[j], rm)),
{
    let ms2 = ms.update(i, t);
    assert forall|rm: RuleModel|
        #[trigger] bank_holds(ms2, rm) <==> (table_holds(t, rm) || exists|j: int|
            0 <= j < ms.len() && j != i && table_holds(#[trigger] ms[j], rm)) by {
        if bank_holds(ms2, rm) {
            let k = choose|k: int| 0 <= k < ms2.len() && table_holds(#[trigger] ms2[k], rm);
            if k == i {
                assert(table_holds(t, rm));
            } else {
                assert(table_holds(ms[k], rm));
            }
        }
        if table_holds(t, rm) {
            assert(table_holds(ms2[i], rm));
            assert(bank_holds(ms2, rm));
        }
        if exists|j: int| 0 <= j < ms.len() && j != i && table_holds(#[trigger] ms[j], rm) {
            let j = choose|j: int| 0 <= j < ms.len() && j != i && table_holds(#[trigger] ms[j], rm);
            assert(table_holds(ms2[j], rm));
            assert(bank_holds(ms2, rm));
        }
    }
}

/// A priority is recorded somewhere in the bank exactly when the
/// bank's priority multiset counts it.
pub proof fn lemma_bank_prios_count(ms: Seq<RvhtModel>, p: Priority)
    ensures
        bank_holds_priority(ms, p) <==> bank_prios(ms).count(p) > 0,
    decreases ms.len(),
{
    broadcast use vstd::multiset::group_multiset_axioms;

    if ms.len() > 0 {
        lemma_bank_prios_count(ms.drop_first(), p);
        ms[0].priorities.to_multiset_ensures();
        assert(bank_prios(ms).count(p) == ms[0].priorities.to_multiset().count(p) + bank_prios(
            ms.drop_first(),
        ).count(p));
        if bank_holds_priority(ms, p) {
            let i = choose|i: int| 0 <= i < ms.len() && (#[trigger] ms[i]).priorities.contains(p);
            if i == 0 {
                assert(ms[0].priorities.to_multiset().count(p) > 0);
            } else {
                assert(ms.drop_first()[i - 1] == ms[i]);
                assert(bank_holds_priority(ms.drop_first(), p));
            }
        }
        if bank_prios(ms).count(p) > 0 {
            if ms[0].priorities.to_multiset().count(p) > 0 {
                assert(ms[0].priorities.contains(p));
                assert(bank_holds_priority(ms, p));
            } else {
                assert(bank_holds_priority(ms.drop_first(), p));
                let i = choose|i: int|
                    0 <= i < ms.drop_first().len() && (
                    #[trigger] ms.drop_first()[i]).priorities.contains(p);
                assert(ms[i + 1].priorities.contains(p));
                assert(bank_holds_priority(ms, p));
            }
        }
    }
}

/// Replacing one table rewrites the bank's table multiset in place.
proof fn lemma_to_multiset_update(s: Seq<RvhtModel>, i: int, t: RvhtModel)
    requires
        0 <= i < s.len(),
    ensures
        s.update(i, t).to_multiset() == s.to_multiset().remove(s[i]).insert(t),
{
    broadcast use vstd::multiset::group_multiset_axioms;

    let s2 = s.update(i, t);
    assert(s2.remove(i) =~= s.remove(i));
    vstd::seq_lib::to_multiset_remove(s, i);
    vstd::seq_lib::to_multiset_remove(s2, i);
    s2.to_multiset_ensures();
    assert(s2.contains(t));
    assert(s2.to_multiset().count(t) > 0);
    assert forall|q: RvhtModel|
        s2.to_multiset().count(q) == s.to_multiset().remove(s[i]).insert(t).count(q) by {
        assert(s2.to_multiset().remove(t).count(q) == s.to_multiset().remove(s[i]).count(q));
    }
    assert(s2.to_multiset() =~= s.to_multiset().remove(s[i]).insert(t));
}

/// Each recorded priority has a single holding table.
pub proof fn lemma_unique_holder(ms: Seq<RvhtModel>, p: Priority, i: int, j: int)
    requires
        prios_unique(ms),
        0 <= i < ms.len(),
        0 <= j < ms.len(),
        ms[i].priorities.contains(p),
        ms[j].priorities.contains(p),
    ensures
        i == j,
{
    broadcast use vstd::multiset::group_multiset_axioms;

    if i != j {
        lemma_bank_prios_remove(ms, i);
        ms[i].priorities.to_multiset_ensures();
        ms.remove_ensures(i);
        let j2: int = if j < i {
            j
        } else {
            j - 1
        };
        assert(ms.remove(i)[j2] == ms[j]);
        assert(bank_holds_priority(ms.remove(i), p));
        lemma_bank_prios_count(ms.remove(i), p);
        assert(bank_prios(ms).count(p) == ms[i].priorities.to_multiset().count(p) + bank_prios(
            ms.remove(i),
        ).count(p));
        assert(bank_prios(ms).count(p) >= 2);
    }
}

/// A rule the bank holds is owned by exactly one table.
pub proof fn lemma_unique_owner(ms: Seq<RvhtModel>, rm: RuleModel, i: int, j: int)
    requires
        bank_wf(ms),
        0 <= i < ms.len(),
        0 <= j < ms.len(),
        table_holds(ms[i], rm),
        table_holds(ms[j], rm),
    ensures
        i == j,
{
    let (a1, b1): (int, int) = choose|a1: int, b1: int|
        crate::range_vector_hash_map::holds_at(ms[i], rm, a1, b1);
    let (a2, b2): (int, int) = choose|a2: int, b2: int|
        crate::range_vector_hash_map::holds_at(ms[j], rm, a2, b2);
    assert(ms[i].priorities.contains(rm.priority));
    assert(ms[j].priorities.contains(rm.priority));
    lemma_unique_holder(ms, rm.priority, i, j);
}

/// Two held rules with one priority are one rule: priorities identify
/// rules across the whole bank.
pub proof fn lemma_same_priority_same_rule(ms: Seq<RvhtModel>, rm1: RuleModel, rm2: RuleModel)
    requires
        bank_wf(ms),
        bank_holds(ms, rm1),
        bank_holds(ms, rm2),
        rm1.priority == rm2.priority,
    ensures
        rm1 == rm2,
{
    let i = choose|i: int| 0 <= i < ms.len() && table_holds(#[trigger] ms[i], rm1);
    let j = choose|j: int| 0 <= j < ms.len() && table_holds(#[trigger] ms[j], rm2);
    let (a1, b1): (int, int) = choose|a1: int, b1: int|
        crate::range_vector_hash_map::holds_at(ms[i], rm1, a1, b1);
    let (a2, b2): (int, int) = choose|a2: int, b2: int|
        crate::range_vector_hash_map::holds_at(ms[j], rm2, a2, b2);
    assert(ms[i].priorities.contains(rm1.priority));
    assert(ms[j].priorities.contains(rm2.priority));
    lemma_unique_holder(ms, rm1.priority, i, j);
    if a1 != a2 || b1 != b2 {
        assert(ms[i].buckets[a1].rules[b1].priority != ms[i].buckets[a2].rules[b2].priority);
    }
}

/// The classification winner strictly beats every other held rule that
/// matches the packet.
pub proof fn lemma_strict_winner(
    ms: Seq<RvhtModel>,
    packet: Seq<Field>,
    m: RuleModel,
    rm: RuleModel,
)
    requires
        bank_wf(ms),
        classify_post(ms, packet, Some(m)),
        bank_holds(ms, rm),
        rule_matches(packet, rm),
        rm != m,
    ensures
        rm.priority < m.priority,
{
    assert(rm.priority <= m.priority);
    if rm.priority == m.priority {
        lemma_same_priority_same_rule(ms, rm, m);
    }
}

/// Banks with one regions multiset have tables of one dimensionality.
pub proof fn lemma_regions_dims(ms1: Seq<RvhtModel>, ms2: Seq<RvhtModel>, d: int)
    requires
        bank_regions(ms1) == bank_regions(ms2),
        forall|i: int| 0 <= i < ms2.len() ==> (#[trigger] ms2[i]).ranges.len() == d,
    ensures
        forall|i: int| 0 <= i < ms1.len() ==> (#[trigger] ms1[i]).ranges.len() == d,
{
    let s1 = ms1.map_values(|t: RvhtModel| t.ranges);
    let s2 = ms2.map_values(|t: RvhtModel| t.ranges);
    s1.to_multiset_ensures();
    s2.to_multiset_ensures();
    assert forall|i: int| 0 <= i < ms1.len() implies (#[trigger] ms1[i]).ranges.len() == d by {
        assert(s1[i] == ms1[i].ranges);
        assert(s1.contains(s1[i]));
        assert(s1.to_multiset().count(s1[i]) > 0);
        assert(s2.contains(s1[i]));
        let j = choose|j: int| 0 <= j < s2.len() && s2[j] == s1[i];
        assert(ms2[j].ranges == ms1[i].ranges);
    }
}

/// The classifier: an ordered bank of range-vector hash tables.
pub struct RVHClassifier {
    pub hash_maps: Vec<RVHashMap>,
}

impl View for RVHClassifier {
    type V = Seq<RvhtModel>;

    open spec fn view(&self) -> Seq<RvhtModel> {
        self.hash_maps@.map_values(|t: RVHashMap| t@)
    }
}

impl RVHClassifier {
    /// Build a bank with one empty table per region vector. The caller
    /// chooses the regions; coverage of prefix-length space is not
    /// validated here.
    pub fn new(ranges: Vec<Vec<Range>>) -> (c: RVHClassifier)
        ensures
            bank_wf(c@),
            c@.len() == ranges@.len(),
            forall|i: int| 0 <= i < c@.len() ==> (#[trigger] c@[i]).ranges == ranges@[i]@,
            forall|i: int|
                0 <= i < c@.len() ==> (#[trigger] c@[i]).top == 0 && c@[i].priorities.len() == 0,
            forall|rm: RuleModel| !bank_holds(c@, rm),
            bank_prios(c@) == Multiset::<Priority>::empty(),
    {
        let ghost orig = ranges@;
        let mut remaining = ranges;
        let mut hash_maps: Vec<RVHashMap> = Vec::new();
        while remaining.len() > 0
            invariant
                hash_maps@.len() + remaining@.len() == orig.len(),
                forall|k: int|
                    0 <= k < remaining@.len() ==> #[trigger] remaining@[k] == orig[k
                        + hash_maps@.len()],
                forall|k: int|
                    0 <= k < hash_maps@.len() ==> rvht_wf(#[trigger] hash_maps@[k]@)
                        && hash_maps@[k]@.ranges == orig[k]@ && hash_maps@[k]@.top == 0
                        && hash_maps@[k]@.priorities.len() == 0 && (forall|rm: RuleModel|
                        !table_holds(hash_maps@[k]@, rm)),
            decreases remaining@.len(),
        {
            let r0 = remaining.remove(0);
            hash_maps.push(RVHashMap::new(r0));
        }
        let c = RVHClassifier { hash_maps };
        proof {
            assert forall|rm: RuleModel| !bank_holds(c@, rm) by {
                if bank_holds(c@, rm) {
                    let i = choose|i: int| 0 <= i < c@.len() && table_holds(#[trigger] c@[i], rm);
                    assert(!table_holds(c.hash_maps@[i]@, rm));
                }
            }
            lemma_bank_prios_empty(c@);
            assert(prios_unique(c@)) by {
                broadcast use vstd::multiset::group_multiset_axioms;
            }
        }
        c
    }

    /// Rebuild the bank in non-increasing order of per-table maximum
    /// priority. Which tables the bank consists of — and so everything
    /// the bank holds — is unchanged.
    fn sort_hash_maps(&mut self)
        requires
            forall|i: int| 0 <= i < old(self)@.len() ==> rvht_wf(#[trigger] old(self)@[i]),
        ensures
            final(self)@.len() == old(self)@.len(),
            forall|i: int| 0 <= i < final(self)@.len() ==> rvht_wf(#[trigger] final(self)@[i]),
            sorted_desc(final(self)@),
            final(self)@.to_multiset() == old(self)@.to_multiset(),
            bank_regions(final(self)@) == bank_regions(old(self)@),
            bank_prios(final(self)@) == bank_prios(old(self)@),
            forall|rm: RuleModel|
                #[trigger] bank_holds(final(self)@, rm) <==> bank_holds(old(self)@, rm),
    {
        let ghost orig = self@;
        let mut sorted_maps: Vec<RVHashMap> = Vec::new();
        proof {
            broadcast use vstd::multiset::group_multiset_axioms;

            let out0 = sorted_maps@.map_values(|t: RVHashMap| t@);
            out0.to_multiset_ensures();
            assert forall|q: RvhtModel| out0.to_multiset().count(q) == 0 by {
                if out0.to_multiset().count(q) > 0 {
                    assert(out0.contains(q));
                }
            }
            assert(out0.to_multiset().add(self@.to_multiset()) =~= orig.to_multiset());
            let r0 = out0.map_values(|t2: RvhtModel| t2.ranges);
            r0.to_multiset_ensures();
            assert forall|q: Seq<Range>| r0.to_multiset().count(q) == 0 by {
                if r0.to_multiset().count(q) > 0 {
                    assert(r0.contains(q));
                }
            }
            assert(bank_regions(out0).add(bank_regions(self@)) =~= bank_regions(orig));
        }
        while self.hash_maps.len() > 0
            invariant
                self@.len() + sorted_maps@.len() == orig.len(),
                forall|i: int| 0 <= i < self@.len() ==> rvht_wf(#[trigger] self@[i]),
                forall|i: int|
                    0 <= i < sorted_maps@.len() ==> rvht_wf(#[trigger] sorted_maps@[i]@),
                sorted_desc(sorted_maps@.map_values(|t: RVHashMap| t@)),
                forall|a: int, b: int|
                    0 <= a < sorted_maps@.len() && 0 <= b < self@.len() ==> (
                    #[trigger] sorted_maps@[a]@).top >= (#[trigger] self@[b]).top,
                sorted_maps@.map_values(|t: RVHashMap| t@).to_multiset().add(self@.to_multiset())
                    == orig.to_multiset(),
                bank_regions(sorted_maps@.map_values(|t: RVHashMap| t@)).add(bank_regions(self@))
                    == bank_regions(orig),
                bank_prios(sorted_maps@.map_values(|t: RVHashMap| t@)).add(bank_prios(self@))
                    == bank_prios(orig),
                forall|rm: RuleModel|
                    #[trigger] bank_holds(orig, rm) <==> bank_holds(
                        sorted_maps@.map_values(|t: RVHashMap| t@),
                        rm,
                    ) || bank_holds(self@, rm),
            decreases self@.len(),
        {
            let ghost rem0 = self@;
            let ghost out0 = sorted_maps@.map_values(|t: RVHashMap| t@);
            let mut mi: usize = 0;
            let mut k: usize = 1;
            while k < self.hash_maps.len()
                invariant
                    self@.len() > 0,
                    0 <= mi < self@.len(),
                    k <= self@.len(),
                    self@ == rem0,
                    forall|k2: int| 0 <= k2 < k ==> (#[trigger] self@[k2]).top <= self@[mi as int].top,
                decreases self@.len() - k,
            {
                if self.hash_maps[k].highest_priority > self.hash_maps[mi].highest_priority {
                    mi = k;
                }
                k = k + 1;
            }
            let t = self.hash_maps.remove(mi);
            sorted_maps.push(t);
            proof {
                broadcast use vstd::multiset::group_multiset_axioms;

                let out1 = sorted_maps@.map_values(|t2: RVHashMap| t2@);
                assert(self@ =~= rem0.remove(mi as int));
                assert(out1 =~= out0.push(t@));
                lemma_bank_prios_remove(rem0, mi as int);
                lemma_bank_prios_push(out0, t@);
                assert(bank_prios(out1).add(bank_prios(self@)) =~= bank_prios(orig));
                // the bank stays a rearrangement of the same tables
                vstd::seq_lib::to_multiset_remove(rem0, mi as int);
                vstd::seq_lib::to_multiset_build(out0, t@);
                rem0.to_multiset_ensures();
                assert(rem0.contains(rem0[mi as int]));
                assert(rem0.to_multiset().count(t@) > 0);
                assert(out1.to_multiset().add(self@.to_multiset()) =~= orig.to_multiset());
                // and so does the multiset of regions
                let rout0 = out0.map_values(|t2: RvhtModel| t2.ranges);
                let rout1 = out1.map_values(|t2: RvhtModel| t2.ranges);
                let rrem0 = rem0.map_values(|t2: RvhtModel| t2.ranges);
                let rrem1 = self@.map_values(|t2: RvhtModel| t2.ranges);
                assert(rout1 =~= rout0.push(t@.ranges));
                assert(rrem1 =~= rrem0.remove(mi as int));
                vstd::seq_lib::to_multiset_build(rout0, t@.ranges);
                vstd::seq_lib::to_multiset_remove(rrem0, mi as int);
                rrem0.to_multiset_ensures();
                assert(rrem0[mi as int] == t@.ranges);
                assert(rrem0.contains(t@.ranges));
                assert(rrem0.to_multiset().count(t@.ranges) > 0);
                assert(bank_regions(out1).add(bank_regions(self@)) =~= bank_regions(orig));
                // which rules are held is only redistributed
                assert forall|rm: RuleModel| #[trigger]
                    bank_holds(orig, rm) <==> bank_holds(out1, rm) || bank_holds(self@, rm) by {
                    if bank_holds(orig, rm) {
                        assert(bank_holds(out0, rm) || bank_holds(rem0, rm));
                        if bank_holds(out0, rm) {
                            let a = choose|a: int|
                                0 <= a < out0.len() && table_holds(#[trigger] out0[a], rm);
                            assert(table_holds(out1[a], rm));
                            assert(bank_holds(out1, rm));
                        } else {
                            let b = choose|b: int|
                                0 <= b < rem0.len() && table_holds(#[trigger] rem0[b], rm);
                            if b == mi {
                                assert(table_holds(out1[out1.len() - 1], rm));
                                assert(bank_holds(out1, rm));
                            } else if b < mi {
                                assert(table_holds(self@[b], rm));
                                assert(bank_holds(self@, rm));
                            } else {
                                assert(table_holds(self@[b - 1], rm));
                                assert(bank_holds(self@, rm));
                            }
                        }
                    }
                    if bank_holds(out1, rm) {
                        let a = choose|a: int|
                            0 <= a < out1.len() && table_holds(#[trigger] out1[a], rm);
                        if a < out0.len() {
                            assert(table_holds(out0[a], rm));
                            assert(bank_holds(out0, rm));
                        } else {
                            assert(table_holds(rem0[mi as int], rm));
                            assert(bank_holds(rem0, rm));
                        }
                        assert(bank_holds(orig, rm));
                    }
                    if bank_holds(self@, rm) {
                        let b = choose|b: int|
                            0 <= b < self@.len() && table_holds(#[trigger] self@[b], rm);
                        if b < mi {
                            assert(table_holds(rem0[b], rm));
                        } else {
                            assert(table_holds(rem0[b + 1], rm));
                        }
                        assert(bank_holds(rem0, rm));
                        assert(bank_holds(orig, rm));
                    }
                }
                // the extracted maximum keeps the output sorted
                assert forall|a: int, b: int|
                    0 <= a < sorted_maps@.len() && 0 <= b < self@.len() implies (
                #[trigger] sorted_maps@[a]@).top >= (#[trigger] self@[b]).top by {
                    let c: int = if b < mi {
                        b
                    } else {
                        b + 1
                    };
                    assert(self@[b] == rem0[c]);
                    if a < out0.len() {
                        assert(sorted_maps@[a]@ == out0[a]);
                    } else {
                        assert(sorted_maps@[a]@ == t@);
                        assert(rem0[c].top <= rem0[mi as int].top);
                    }
                }
                assert(sorted_desc(out1)) by {
                    assert forall|a: int, b: int|
                        0 <= a < b < out1.len() implies (#[trigger] out1[a]).top >= (
                    #[trigger] out1[b]).top by {
                        if b < out0.len() {
                        } else {
                            assert(out1[b] == t@);
                            assert(out0[a].top >= rem0[mi as int].top);
                        }
                    }
                }
            }
        }
        proof {
            broadcast use vstd::multiset::group_multiset_axioms;

            let out = sorted_maps@.map_values(|t: RVHashMap| t@);
            assert(bank_prios(self@) == Multiset::<Priority>::empty());
            assert(bank_prios(out) =~= bank_prios(out).add(bank_prios(self@)));
            assert(bank_prios(out) == bank_prios(orig));
            assert(forall|rm: RuleModel| !bank_holds(self@, rm));
            self@.to_multiset_ensures();
            assert forall|q: RvhtModel| self@.to_multiset().count(q) == 0 by {
                if self@.to_multiset().count(q) > 0 {
                    assert(self@.contains(q));
                }
            }
            assert(out.to_multiset() =~= out.to_multiset().add(self@.to_multiset()));
            assert(out.to_multiset() == orig.to_multiset());
            let rrem = self@.map_values(|t2: RvhtModel| t2.ranges);
            rrem.to_multiset_ensures();
            assert forall|q: Seq<Range>| rrem.to_multiset().count(q) == 0 by {
                if rrem.to_multiset().count(q) > 0 {
                    assert(rrem.contains(q));
                }
            }
            assert(bank_regions(out) =~= bank_regions(out).add(bank_regions(self@)));
            assert(bank_regions(out) == bank_regions(orig));
        }
        self.hash_maps = sorted_maps;
    }

    /// Add a rule. The bank is scanned in its current order; the first
    /// table whose region admits the rule's prefix-length vector takes
    /// it, and the bank is re-sorted. The call fails, changing nothing,
    /// when no region admits the rule or when the admitting table
    /// already records the rule's priority — in which case no other
    /// table is tried, since with disjoint regions none could accept it.
    ///
    /// Priorities are globally unique — that is the caller's contract —
    /// so a rule's priority, if recorded at all, is recorded where the
    /// routing would put the rule.
    #[verifier::rlimit(100)]
    pub fn add_rule(&mut self, rule: Rule) -> (r: bool)
        requires
            bank_wf(old(self)@),
            rule_wf(rule@),
            forall|i: int|
                0 <= i < old(self)@.len() ==> (#[trigger] old(self)@[i]).ranges.len()
                    == rule@.fields.len(),
            forall|i: int|
                0 <= i < old(self)@.len() && (#[trigger] old(self)@[i]).priorities.contains(
                    rule@.priority,
                ) ==> i == first_admit(old(self)@, rule@.masks),
        ensures
            bank_wf(final(self)@),
            final(self)@.len() == old(self)@.len(),
            bank_regions(final(self)@) == bank_regions(old(self)@),
            r == ({
                let fa = first_admit(old(self)@, rule@.masks);
                fa >= 0 && !old(self)@[fa].priorities.contains(rule@.priority)
            }),
            !r ==> final(self)@ == old(self)@,
            r ==> !bank_holds_priority(old(self)@, rule@.priority),
            r ==> bank_prios(final(self)@) == bank_prios(old(self)@).insert(rule@.priority),
            r ==> forall|rm: RuleModel|
                #[trigger] bank_holds(final(self)@, rm) <==> bank_holds(old(self)@, rm) || rm
                    == rule@,
            r ==> (exists|tnew: RvhtModel|
                #[trigger] table_inserted(
                    old(self)@[first_admit(old(self)@, rule@.masks)],
                    tnew,
                    rule@,
                ) && final(self)@.to_multiset() == old(self)@.to_multiset().remove(
                    old(self)@[first_admit(old(self)@, rule@.masks)],
                ).insert(tnew)),
    {
        let ghost ms0 = self@;
        let ghost rulem = rule@;
        let mut i: usize = 0;
        while i < self.hash_maps.len()
            invariant
                i <= self@.len(),
                ms0 == old(self)@,
                self@ == ms0,
                bank_wf(ms0),
                rule_wf(rulem),
                rulem == rule@,
                forall|k: int|
                    0 <= k < ms0.len() ==> (#[trigger] ms0[k]).ranges.len() == rulem.fields.len(),
                forall|k: int|
                    0 <= k < ms0.len() && (#[trigger] ms0[k]).priorities.contains(rulem.priority)
                        ==> k == first_admit(ms0, rulem.masks),
                forall|k: int| 0 <= k < i ==> !in_region((#[trigger] ms0[k]).ranges, rulem.masks),
            decreases self@.len() - i,
        {
            proof {
                assert(self.hash_maps@[i as int]@ == ms0[i as int]);
            }
            if self.hash_maps[i].can_insert(&rule) {
                proof {
                    lemma_first_admit(ms0, rulem.masks);
                    assert(in_region(ms0[i as int].ranges, rulem.masks));
                    assert(first_admit(ms0, rulem.masks) == i as int) by {
                        let fa = first_admit(ms0, rulem.masks);
                        if fa == -1 {
                            assert(!in_region(ms0[i as int].ranges, rulem.masks));
                        } else if fa < i as int {
                            assert(!in_region(ms0[fa].ranges, rulem.masks));
                        } else if fa > i as int {
                            assert(!in_region(ms0[i as int].ranges, rulem.masks));
                        }
                    }
                }
                let ghost vs0 = self.hash_maps@;
                let mut t = self.hash_maps.remove(i);
                proof {
                    assert(t@ == ms0[i as int]);
                }
                let ok = t.insert(rule);
                self.hash_maps.insert(i, t);
                proof {
                    vs0.remove_ensures(i as int);
                    vs0.remove(i as int).insert_ensures(i as int, t);
                    assert(self.hash_maps@ == vs0.remove(i as int).insert(i as int, t));
                    assert(self@ =~= ms0.update(i as int, t@));
                }
                if ok {
                    proof {
                        broadcast use vstd::multiset::group_multiset_axioms;
                        broadcast use vstd::multiset::group_multiset_properties;

                        let tnew = t@;
                        let msi = ms0[i as int];
                        lemma_bank_prios_update(ms0, i as int, tnew);
                        assert(tnew.priorities.to_multiset() == msi.priorities.to_multiset().insert(
                            rulem.priority,
                        ));
                        let bs = bank_prios(self@);
                        let b0 = bank_prios(ms0);
                        let mi = msi.priorities.to_multiset();
                        let p2 = rulem.priority;
                        assert forall|q: Priority| bs.count(q) == b0.insert(p2).count(q) by {
                            assert(bs.add(mi).count(q) == b0.add(mi.insert(p2)).count(q));
                            assert(bs.add(mi).count(q) == bs.count(q) + mi.count(q));
                            assert(b0.add(mi.insert(p2)).count(q) == b0.count(q) + mi.insert(
                                p2,
                            ).count(q));
                            if q == p2 {
                                assert(mi.insert(p2).count(q) == mi.count(q) + 1);
                                assert(b0.insert(p2).count(q) == b0.count(q) + 1);
                            } else {
                                assert(mi.insert(p2).count(q) == mi.count(q));
                                assert(b0.insert(p2).count(q) == b0.count(q));
                            }
                        }
                        assert(bank_prios(self@) =~= bank_prios(ms0).insert(rulem.priority));
                        lemma_bank_holds_update(ms0, i as int, tnew);
                        assert forall|rm: RuleModel| #[trigger]
                            bank_holds(self@, rm) <==> bank_holds(ms0, rm) || rm == rulem by {
                            if bank_holds(self@, rm) {
                                if table_holds(tnew, rm) {
                                    if rm != rulem {
                                        assert(table_holds(msi, rm));
                                        assert(bank_holds(ms0, rm));
                                    }
                                } else {
                                    let j = choose|j: int|
                                        0 <= j < ms0.len() && j != i as int && table_holds(
                                            #[trigger] ms0[j],
                                            rm,
                                        );
                                    assert(bank_holds(ms0, rm));
                                }
                            }
                            if bank_holds(ms0, rm) {
                                let j = choose|j: int|
                                    0 <= j < ms0.len() && table_holds(#[trigger] ms0[j], rm);
                                if j == i as int {
                                    assert(table_holds(tnew, rm));
                                }
                                assert(bank_holds(self@, rm));
                            }
                            if rm == rulem {
                                assert(table_holds(tnew, rm));
                                assert(bank_holds(self@, rm));
                            }
                        }
                        assert forall|k: int| 0 <= k < self@.len() implies rvht_wf(
                            #[trigger] self@[k],
                        ) by {
                            if k != i as int {
                                assert(self@[k] == ms0[k]);
                            }
                        }
                        // the priority was fresh across the whole bank
                        assert(!bank_holds_priority(ms0, rulem.priority)) by {
                            if bank_holds_priority(ms0, rulem.priority) {
                                let k = choose|k: int|
                                    0 <= k < ms0.len() && (
                                    #[trigger] ms0[k]).priorities.contains(rulem.priority);
                                assert(k == i as int);
                            }
                        }
                        lemma_bank_prios_count(ms0, rulem.priority);
                        assert(bank_prios(ms0).count(rulem.priority) == 0);
                        assert forall|q: Priority| #[trigger]
                            bank_prios(self@).count(q) <= 1 by {
                            if q == rulem.priority {
                                assert(bank_prios(self@).count(q) == bank_prios(ms0).count(q) + 1);
                            } else {
                                assert(bank_prios(self@).count(q) == bank_prios(ms0).count(q));
                            }
                        }
                        // only the admitting table changed
                        assert(table_inserted(ms0[i as int], tnew, rulem));
                        lemma_to_multiset_update(ms0, i as int, tnew);
                        assert(self@.to_multiset() == ms0.to_multiset().remove(
                            ms0[i as int],
                        ).insert(tnew));
                        // and its region stayed, so the bank's regions stayed
                        assert(self@.map_values(|t2: RvhtModel| t2.ranges) =~= ms0.map_values(
                            |t2: RvhtModel| t2.ranges,
                        ));
                        assert(bank_regions(self@) == bank_regions(ms0));
                    }
                    let ghost ms1 = self@;
                    let ghost prios1 = bank_prios(self@);
                    self.sort_hash_maps();
                    proof {
                        assert(bank_prios(self@) == prios1);
                        assert(self@.to_multiset() == ms1.to_multiset());
                        assert(bank_regions(self@) == bank_regions(ms1));
                        assert(prios_unique(self@));
                        assert forall|rm: RuleModel| #[trigger]
                            bank_holds(self@, rm) <==> bank_holds(ms0, rm) || rm == rulem by {
                            assert(bank_holds(self@, rm) <==> bank_holds(ms1, rm));
                        }
                    }
                    return true;
                } else {
                    proof {
                        assert(t@ == ms0[i as int]);
                        assert(self@ =~= ms0);
                    }
                    return false;
                }
            }
            i = i + 1;
        }
        proof {
            lemma_first_admit(ms0, rulem.masks);
            assert(first_admit(ms0, rulem.masks) == -1) by {
                let fa = first_admit(ms0, rulem.masks);
                if fa != -1 {
                    assert(!in_region(ms0[fa].ranges, rulem.masks));
                }
            }
        }
        false
    }

    /// Remove a rule, located by its priority. The first table that
    /// records the priority gives the rule up and the bank is
    /// re-sorted; when no table records it the call fails and nothing
    /// changes. Priorities identify rules, so a recorded priority must
    /// belong to this very rule — that is the caller's contract.
    #[verifier::rlimit(100)]
    pub fn remove_rule(&mut self, rule: &Rule) -> (r: bool)
        requires
            bank_wf(old(self)@),
            forall|i: int|
                0 <= i < old(self)@.len() && (#[trigger] old(self)@[i]).priorities.contains(
                    rule@.priority,
                ) ==> table_holds(old(self)@[i], rule@),
        ensures
            bank_wf(final(self)@),
            final(self)@.len() == old(self)@.len(),
            bank_regions(final(self)@) == bank_regions(old(self)@),
            r == bank_holds_priority(old(self)@, rule@.priority),
            !r ==> final(self)@ == old(self)@,
            r ==> bank_prios(final(self)@) == bank_prios(old(self)@).remove(rule@.priority),
            r ==> forall|rm: RuleModel|
                #[trigger] bank_holds(final(self)@, rm) <==> bank_holds(old(self)@, rm) && rm
                    != rule@,
            r ==> (exists|k: int, tnew: RvhtModel|
                0 <= k < old(self)@.len() && (#[trigger] old(self)@[k]).priorities.contains(
                    rule@.priority,
                ) && #[trigger] table_removed(old(self)@[k], tnew, rule@)
                    && final(self)@.to_multiset() == old(self)@.to_multiset().remove(
                    old(self)@[k],
                ).insert(tnew)),
    {
        let ghost ms0 = self@;
        let ghost rulem = rule@;
        let ghost p = rule@.priority;
        let mut i: usize = 0;
        while i < self.hash_maps.len()
            invariant
                i <= self@.len(),
                ms0 == old(self)@,
                self@ == ms0,
                bank_wf(ms0),
                rulem == rule@,
                p == rulem.priority,
                forall|k: int|
                    0 <= k < ms0.len() && (#[trigger] ms0[k]).priorities.contains(p)
                        ==> table_holds(ms0[k], rulem),
                forall|k: int| 0 <= k < i ==> !(#[trigger] ms0[k]).priorities.contains(p),
            decreases self@.len() - i,
        {
            let ghost vs0 = self.hash_maps@;
            let mut t = self.hash_maps.remove(i);
            proof {
                assert(t@ == ms0[i as int]);
            }
            let ok = t.remove(rule);
            self.hash_maps.insert(i, t);
            proof {
                vs0.remove_ensures(i as int);
                vs0.remove(i as int).insert_ensures(i as int, t);
                assert(self.hash_maps@ == vs0.remove(i as int).insert(i as int, t));
                assert(self@ =~= ms0.update(i as int, t@));
            }
            if ok {
                proof {
                    broadcast use vstd::multiset::group_multiset_axioms;
                    broadcast use vstd::multiset::group_multiset_properties;

                    let tnew = t@;
                    let msi = ms0[i as int];
                    assert(msi.priorities.contains(p));
                    assert(bank_holds_priority(ms0, p));
                    lemma_bank_prios_update(ms0, i as int, tnew);
                    assert(tnew.priorities.to_multiset() == msi.priorities.to_multiset().remove(p));
                    msi.priorities.to_multiset_ensures();
                    assert(msi.priorities.to_multiset().count(p) > 0);
                    let bs = bank_prios(self@);
                    let b0 = bank_prios(ms0);
                    let mi = msi.priorities.to_multiset();
                    assert(bs.add(mi).count(p) == b0.add(mi.remove(p)).count(p));
                    assert(mi.remove(p).count(p) == mi.count(p) - 1);
                    assert(b0.count(p) >= 1);
                    assert forall|q: Priority| bs.count(q) == b0.remove(p).count(q) by {
                        assert(bs.add(mi).count(q) == b0.add(mi.remove(p)).count(q));
                        assert(bs.add(mi).count(q) == bs.count(q) + mi.count(q));
                        assert(b0.add(mi.remove(p)).count(q) == b0.count(q) + mi.remove(p).count(
                            q,
                        ));
                        if q == p {
                            assert(mi.remove(p).count(q) == mi.count(q) - 1);
                            assert(b0.remove(p).count(q) == b0.count(q) - 1);
                        } else {
                            assert(mi.remove(p).count(q) == mi.count(q));
                            assert(b0.remove(p).count(q) == b0.count(q));
                        }
                    }
                    assert(bank_prios(self@) =~= bank_prios(ms0).remove(p));
                    lemma_bank_holds_update(ms0, i as int, tnew);
                    assert forall|rm: RuleModel| #[trigger]
                        bank_holds(self@, rm) <==> bank_holds(ms0, rm) && rm != rulem by {
                        if bank_holds(self@, rm) {
                            if table_holds(tnew, rm) {
                                assert(table_holds(msi, rm) && rm != rulem);
                                assert(bank_holds(ms0, rm));
                            } else {
                                let j = choose|j: int|
                                    0 <= j < ms0.len() && j != i as int && table_holds(
                                        #[trigger] ms0[j],
                                        rm,
                                    );
                                assert(bank_holds(ms0, rm));
                                if rm == rulem {
                                    // another table would then record the same priority
                                    let (a, b): (int, int) = choose|a: int, b: int|
                                        crate::range_vector_hash_map::holds_at(ms0[j], rulem, a, b);
                                    assert(ms0[j].priorities.contains(p));
                                    lemma_unique_holder(ms0, p, i as int, j);
                                }
                            }
                        }
                        if bank_holds(ms0, rm) && rm != rulem {
                            let j = choose|j: int|
                                0 <= j < ms0.len() && table_holds(#[trigger] ms0[j], rm);
                            if j == i as int {
                                assert(table_holds(tnew, rm));
                            }
                            assert(bank_holds(self@, rm));
                        }
                    }
                    assert forall|k: int| 0 <= k < self@.len() implies rvht_wf(
                        #[trigger] self@[k],
                    ) by {
                        if k != i as int {
                            assert(self@[k] == ms0[k]);
                        }
                    }
                    // priorities only leave, so they stay globally unique
                    assert forall|q: Priority| #[trigger] bank_prios(self@).count(q) <= 1 by {
                        if q == p {
                            assert(bank_prios(self@).count(q) == bank_prios(ms0).count(q) - 1);
                        } else {
                            assert(bank_prios(self@).count(q) == bank_prios(ms0).count(q));
                        }
                    }
                    // only the yielding table changed
                    assert(table_removed(ms0[i as int], tnew, rulem));
                    lemma_to_multiset_update(ms0, i as int, tnew);
                    assert(self@.to_multiset() == ms0.to_multiset().remove(ms0[i as int]).insert(
                        tnew,
                    ));
                    // and its region stayed, so the bank's regions stayed
                    assert(self@.map_values(|t2: RvhtModel| t2.ranges) =~= ms0.map_values(
                        |t2: RvhtModel| t2.ranges,
                    ));
                    assert(bank_regions(self@) == bank_regions(ms0));
                }
                let ghost ms1 = self@;
                let ghost prios1 = bank_prios(self@);
                self.sort_hash_maps();
                proof {
                    assert(bank_prios(self@) == prios1);
                    assert(self@.to_multiset() == ms1.to_multiset());
                    assert(bank_regions(self@) == bank_regions(ms1));
                    assert(prios_unique(self@));
                    assert forall|rm: RuleModel| #[trigger]
                        bank_holds(self@, rm) <==> bank_holds(ms0, rm) && rm != rulem by {
                        assert(bank_holds(self@, rm) <==> bank_holds(ms1, rm));
                    }
                }
                return true;
            }
            proof {
                assert(t@ == ms0[i as int]);
                assert(self@ =~= ms0);
            }
            i = i + 1;
        }
        proof {
            assert(!bank_holds_priority(ms0, p)) by {
                if bank_holds_priority(ms0, p) {
                    let k = choose|k: int|
                        0 <= k < ms0.len() && (#[trigger] ms0[k]).priorities.contains(p);
                }
            }
        }
        false
    }

    /// Classify a packet: scan the bank in descending order of maximum
    /// priority, probe each table, and stop as soon as the next table's
    /// maximum cannot beat the best match so far. Returns the
    /// highest-priority rule, over the whole bank, that masked-matches
    /// the packet — or nothing when no held rule matches.
    pub fn classify(&self, packet: &Packet) -> (r: Option<&Rule>)
        requires
            bank_wf(self@),
            forall|i: int| 0 <= i < self@.len() ==> (#[trigger] self@[i]).ranges.len() == packet@.len(),
        ensures
            match r {
                Some(m) => classify_post(self@, packet@, Some(m@)),
                None => classify_post(self@, packet@, None::<RuleModel>),
            },
    {
        let mut best: Option<&Rule> = None;
        let mut best_prio: u32 = 0;
        let mut i: usize = 0;
        while i < self.hash_maps.len() && best_prio <= self.hash_maps[i].highest_priority
            invariant
                i <= self@.len(),
                bank_wf(self@),
                forall|k: int|
                    0 <= k < self@.len() ==> (#[trigger] self@[k]).ranges.len() == packet@.len(),
                best is None ==> best_prio == 0,
                best matches Some(m) ==> bank_holds(self@, m@) && rule_matches(packet@, m@)
                    && m@.priority == best_prio && best_prio >= 1,
                forall|k: int, rm: RuleModel|
                    0 <= k < i && #[trigger] table_holds(self@[k], rm) && rule_matches(packet@, rm)
                        ==> rm.priority <= best_prio,
            decreases self@.len() - i,
        {
            let hm = &self.hash_maps[i];
            proof {
                assert(hm@ == self@[i as int]);
            }
            if let Some(m) = hm.check_match(packet) {
                if m.priority() > best_prio {
                    best_prio = m.priority();
                    best = Some(m);
                    proof {
                        assert(table_holds(self@[i as int], m@));
                        assert(bank_holds(self@, m@));
                    }
                }
            }
            i = i + 1;
        }
        proof {
            // tables past the stopping point cannot beat the best:
            // their maxima only fall from here on
            assert forall|k: int, rm: RuleModel|
                0 <= k < self@.len() && #[trigger] table_holds(self@[k], rm) && rule_matches(
                    packet@,
                    rm,
                ) implies rm.priority <= best_prio by {
                if k >= i {
                    assert(i < self@.len());
                    assert(self@[i as int].top < best_prio);
                    assert(self@[k].top <= self@[i as int].top);
                    lemma_held_le_top(self@[k]);
                }
            }
            if best is None {
                assert forall|rm: RuleModel| #[trigger]
                    bank_holds(self@, rm) implies !rule_matches(packet@, rm) by {
                    if rule_matches(packet@, rm) {
                        let k = choose|k: int|
                            0 <= k < self@.len() && table_holds(#[trigger] self@[k], rm);
                        crate::range_vector_hash_map::lemma_region_assignment(self@[k], rm);
                        assert(rm.priority >= 1);
                        assert(rm.priority <= best_prio);
                    }
                }
            } else {
                assert forall|rm: RuleModel|
                    #[trigger] bank_holds(self@, rm) && rule_matches(packet@, rm) implies {
                    let m = best->Some_0;
                    rm.priority <= m@.priority
                } by {
                    let k = choose|k: int|
                        0 <= k < self@.len() && table_holds(#[trigger] self@[k], rm);
                }
            }
        }
        best
    }
}

/// Adding a rule whose priority is fresh and then removing it restores
/// both the bank's priority multiset and the set of rules it holds —
/// and with them every classification answer.
pub proof fn lemma_add_remove_round_trip(
    ms0: Seq<RvhtModel>,
    ms1: Seq<RvhtModel>,
    ms2: Seq<RvhtModel>,
    rulem: RuleModel,
)
    requires
        forall|rm: RuleModel| #[trigger] bank_holds(ms0, rm) ==> rm.priority != rulem.priority,
        bank_prios(ms1) == bank_prios(ms0).insert(rulem.priority),
        forall|rm: RuleModel| #[trigger] bank_holds(ms1, rm) <==> bank_holds(ms0, rm) || rm == rulem,
        bank_prios(ms2) == bank_prios(ms1).remove(rulem.priority),
        forall|rm: RuleModel|
            #[trigger] bank_holds(ms2, rm) <==> bank_holds(ms1, rm) && rm != rulem,
    ensures
        bank_prios(ms2) == bank_prios(ms0),
        forall|rm: RuleModel| #[trigger] bank_holds(ms2, rm) <==> bank_holds(ms0, rm),
{
    broadcast use vstd::multiset::group_multiset_axioms;

    assert(bank_prios(ms2) =~= bank_prios(ms0));
    assert forall|rm: RuleModel| #[trigger]
        bank_holds(ms2, rm) <==> bank_holds(ms0, rm) by {
        if bank_holds(ms0, rm) {
            assert(rm.priority != rulem.priority);
            assert(rm != rulem);
        }
    }
}

/// Classification is a function of the held rules alone: two banks that
/// hold exactly the same rules, with no two held rules sharing a
/// priority, give every packet the same answer.
/// The same, for a well-formed bank: global priority uniqueness is
/// part of the bank invariant, so only the held-rule agreement is
/// needed.
pub proof fn lemma_classify_agrees_wf(
    msa: Seq<RvhtModel>,
    msb: Seq<RvhtModel>,
    packet: Seq<Field>,
    ra: Option<RuleModel>,
    rb: Option<RuleModel>,
)
    requires
        bank_wf(msa),
        forall|rm: RuleModel| #[trigger] bank_holds(msa, rm) <==> bank_holds(msb, rm),
        classify_post(msa, packet, ra),
        classify_post(msb, packet, rb),
    ensures
        ra == rb,
{
    assert forall|rm1: RuleModel, rm2: RuleModel|
        #[trigger] bank_holds(msa, rm1) && #[trigger] bank_holds(msa, rm2) && rm1.priority
            == rm2.priority implies rm1 == rm2 by {
        lemma_same_priority_same_rule(msa, rm1, rm2);
    }
    lemma_classify_agrees(msa, msb, packet, ra, rb);
}

pub proof fn lemma_classify_agrees(
    msa: Seq<RvhtModel>,
    msb: Seq<RvhtModel>,
    packet: Seq<Field>,
    ra: Option<RuleModel>,
    rb: Option<RuleModel>,
)
    requires
        forall|rm: RuleModel| #[trigger] bank_holds(msa, rm) <==> bank_holds(msb, rm),
        forall|rm1: RuleModel, rm2: RuleModel|
            #[trigger] bank_holds(msa, rm1) && #[trigger] bank_holds(msa, rm2) && rm1.priority
                == rm2.priority ==> rm1 == rm2,
        classify_post(msa, packet, ra),
        classify_post(msb, packet, rb),
    ensures
        ra == rb,
{
    match ra {
        Some(ma) => {
            match rb {
                Some(mb) => {
                    assert(bank_holds(msa, mb));
                    assert(ma.priority <= mb.priority);
                    assert(mb.priority <= ma.priority);
                    assert(ma == mb);
                },
                None => {
                    assert(bank_holds(msb, ma));
                    assert(!rule_matches(packet, ma));
                },
            }
        },
        None => {
            match rb {
                Some(mb) => {
                    assert(bank_holds(msa, mb));
                    assert(!rule_matches(packet, mb));
                },
                None => {},
            }
        },
    }
}

/// A bank of empty tables records no priorities.
proof fn lemma_bank_prios_empty(ms: Seq<RvhtModel>)
    requires
        forall|i: int| 0 <= i < ms.len() ==> (#[trigger] ms[i]).priorities.len() == 0,
    ensures
        bank_prios(ms) == Multiset::<Priority>::empty(),
    decreases ms.len(),
{
    broadcast use vstd::multiset::group_multiset_axioms;

    if ms.len() > 0 {
        assert forall|i: int|
            0 <= i < ms.drop_first().len() implies (#[trigger] ms.drop_first()[i]).priorities.len()
            == 0 by {
            assert(ms.drop_first()[i] == ms[i + 1]);
        }
        lemma_bank_prios_empty(ms.drop_first());
        ms[0].priorities.to_multiset_ensures();
        assert(ms[0].priorities.to_multiset().len() == 0);
        assert(bank_prios(ms) =~= Multiset::<Priority>::empty());
    }
}

} // verus!


