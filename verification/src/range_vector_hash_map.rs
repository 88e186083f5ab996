//! One range-vector hash table: a hash table specialized to a single
//! rectangular region of prefix-length space.
//!
//! The table stores rules whose per-dimension prefix lengths fall within
//! its region, hashes rules and packets by the masked low bits of each
//! field, and answers lookups with the highest-priority matching rule
//! among the colliders.

use vstd::prelude::*;

use crate::types::{
    in_region, low_mask, mask_contiguous, pop_count, pop_count_rec, rule_matches, rule_wf, Field,
    Mask, Packet, Priority, Range, Rule, RuleModel,
};

verus! {

/// The bits selected by `mask` agree between `field1` and `field2`.
pub fn is_match(field1: Field, field2: Field, mask: Mask) -> (r: bool)
    ensures
        r == crate::types::spec_is_match(field1, field2, mask),
{
    ((field1 ^ field2) & mask) == 0
}

/// Population count of `m`, one low bit at a time.
pub fn popcount(m: u32) -> (c: u32)
    ensures
        c == pop_count(m),
{
    let mut x = m;
    let mut c: u32 = 0;
    let mut k: usize = 0;
    while k < 32
        invariant
            k <= 32,
            c <= k,
            c as nat + pop_count_rec(x, (32 - k) as nat) == pop_count(m),
        decreases 32 - k,
    {
        proof {
            assert(x & 1u32 <= 1) by (bit_vector);
            assert(pop_count_rec(x, (32 - k) as nat) == (x & 1u32) as nat + pop_count_rec(
                x >> 1u32,
                (32 - k - 1) as nat,
            ));
        }
        c = c + (x & 1);
        x = x >> 1u32;
        k = k + 1;
    }
    c
}

/// The canonical mask of each region range: low bits up to the range's
/// lower bound.
pub fn get_masks(ranges: &Vec<Range>) -> (masks: Vec<Mask>)
    ensures
        masks@.len() == ranges@.len(),
        forall|i: int|
            0 <= i < ranges@.len() ==> #[trigger] masks@[i] == low_mask((ranges@[i].0) as nat),
{
    let mut masks: Vec<Mask> = Vec::new();
    let mut i: usize = 0;
    while i < ranges.len()
        invariant
            i <= ranges@.len(),
            masks@.len() == i,
            forall|k: int| 0 <= k < i ==> #[trigger] masks@[k] == low_mask((ranges@[k].0) as nat),
        decreases ranges@.len() - i,
    {
        let lo = ranges[i].0;
        let mut m: u32 = 0;
        let mut j: u32 = 0;
        while j < lo
            invariant
                j <= lo,
                m == low_mask(j as nat),
            decreases lo - j,
        {
            m = (m << 1u32) | 1;
            j = j + 1;
        }
        masks.push(m);
        i = i + 1;
    }
    masks
}

/// The dimension-parity bit mixed into the fingerprint at dimension `i`.
pub open spec fn pbit(i: int) -> u32 {
    if i % 2 == 0 {
        1u32
    } else {
        0u32
    }
}

/// The fingerprint accumulated over the first `n` dimensions.
pub open spec fn fp_prefix(masks: Seq<Mask>, fields: Seq<Field>, n: int) -> u32
    decreases n,
{
    if n <= 0 {
        0u32
    } else {
        fp_prefix(masks, fields, n - 1) ^ (pbit(n - 1) | (fields[n - 1] & masks[n - 1]))
    }
}

/// The 32-bit fingerprint of a field vector under a table's canonical
/// masks: dimension by dimension, the masked low bits of the field,
/// tagged with the parity bit, folded together with xor.
pub open spec fn fingerprint(masks: Seq<Mask>, fields: Seq<Field>) -> u32 {
    fp_prefix(masks, fields, masks.len() as int)
}

/// A narrower canonical mask selects a subset of the bits of a wider
/// one: masking with both is masking with the narrower.
proof fn lemma_low_mask_subset(lo: nat, k: nat)
    requires
        lo <= k,
    ensures
        low_mask(k) & low_mask(lo) == low_mask(lo),
    decreases lo,
{
    if lo == 0 {
        let mk = low_mask(k);
        assert(mk & 0u32 == 0u32) by (bit_vector);
    } else {
        let a = low_mask((lo - 1) as nat);
        let b = low_mask((k - 1) as nat);
        lemma_low_mask_subset((lo - 1) as nat, (k - 1) as nat);
        assert(((b << 1u32) | 1u32) & ((a << 1u32) | 1u32) == ((a << 1u32) | 1u32))
            by (bit_vector)
            requires
                b & a == a,
        ;
    }
}

/// If a packet field masked-matches a rule field, and the table mask is
/// a subset of the rule mask, then packet and rule agree on the bits
/// the table mask selects.
proof fn lemma_match_same_low_bits(pf: u32, rf: u32, rm: u32, tm: u32)
    requires
        (pf ^ rf) & rm == 0,
        rm & tm == tm,
    ensures
        pf & tm == rf & tm,
{
    assert(pf & tm == rf & tm) by (bit_vector)
        requires
            (pf ^ rf) & rm == 0,
            rm & tm == tm,
    ;
}

/// Two field vectors that agree on the bits each canonical mask selects
/// accumulate identical fingerprints.
proof fn lemma_fp_prefix_agreement(masks: Seq<Mask>, pf: Seq<Field>, rf: Seq<Field>, n: int)
    requires
        n <= masks.len(),
        n <= pf.len(),
        n <= rf.len(),
        forall|i: int| 0 <= i < n ==> pf[i] & masks[i] == #[trigger] (rf[i] & masks[i]),
    ensures
        fp_prefix(masks, pf, n) == fp_prefix(masks, rf, n),
    decreases n,
{
    if n > 0 {
        lemma_fp_prefix_agreement(masks, pf, rf, n - 1);
    }
}

/// Fingerprint agreement: a well-formed table computes the same
/// fingerprint for a rule that lies inside its region and for any
/// packet that masked-matches that rule. This is what makes the hash
/// probe sound: a matching rule is always found in the packet's bucket.
pub proof fn lemma_fingerprint_agreement(t: RvhtModel, rm: RuleModel, packet: Seq<Field>)
    requires
        rvht_wf(t),
        rule_wf(rm),
        rm.fields.len() == t.ranges.len(),
        in_region(t.ranges, rm.masks),
        packet.len() == t.ranges.len(),
        rule_matches(packet, rm),
    ensures
        fingerprint(t.masks, packet) == fingerprint(t.masks, rm.fields),
{
    assert forall|i: int| 0 <= i < t.masks.len() implies packet[i] & t.masks[i] == #[trigger] (
    rm.fields[i] & t.masks[i]) by {
        let lo = (t.ranges[i].0) as nat;
        let plen = pop_count(rm.masks[i]);
        assert(mask_contiguous(rm.masks[i]));
        assert(rm.masks[i] == low_mask(plen));
        assert(t.masks[i] == low_mask(lo));
        lemma_low_mask_subset(lo, plen);
        lemma_match_same_low_bits(packet[i], rm.fields[i], rm.masks[i], t.masks[i]);
    }
    lemma_fp_prefix_agreement(t.masks, packet, rm.fields, t.masks.len() as int);
}

/// Whether a packet masked-matches a rule: on every dimension the
/// packet field agrees with the rule field on the bits the rule's mask
/// selects.
pub fn rule_fields_match(rule: &Rule, packet: &Packet) -> (r: bool)
    requires
        rule@.fields.len() == rule@.masks.len(),
    ensures
        r == rule_matches(packet@, rule@),
{
    if rule.fields.len() != packet.fields.len() {
        return false;
    }
    let mut i: usize = 0;
    while i < packet.fields.len()
        invariant
            i <= packet@.len(),
            rule@.fields.len() == packet@.len(),
            rule@.masks.len() == packet@.len(),
            forall|k: int|
                0 <= k < i ==> crate::types::spec_is_match(
                    packet@[k],
                    #[trigger] rule@.fields[k],
                    rule@.masks[k],
                ),
        decreases packet@.len() - i,
    {
        if !is_match(packet.fields[i], rule.fields[i], rule.masks[i]) {
            return false;
        }
        i = i + 1;
    }
    true
}

/// One collision chain: every rule whose fields fingerprint to
/// `fingerprint` under the owning table's canonical masks.
pub struct Bucket {
    pub fingerprint: u32,
    pub rules: Vec<Rule>,
}

/// Mathematical abstraction of a collision chain.
#[verifier::ext_equal]
pub ghost struct BucketModel {
    pub fingerprint: u32,
    pub rules: Seq<RuleModel>,
}

impl View for Bucket {
    type V = BucketModel;

    open spec fn view(&self) -> BucketModel {
        BucketModel {
            fingerprint: self.fingerprint,
            rules: self.rules@.map_values(|r: Rule| r@),
        }
    }
}

/// Mathematical abstraction of one range-vector hash table.
#[verifier::ext_equal]
pub ghost struct RvhtModel {
    pub top: Priority,
    pub priorities: Seq<Priority>,
    pub masks: Seq<Mask>,
    pub ranges: Seq<Range>,
    pub buckets: Seq<BucketModel>,
}

/// The rule model `rm` sits at chain position `j` of bucket `i`.
pub open spec fn holds_at(t: RvhtModel, rm: RuleModel, i: int, j: int) -> bool {
    &&& 0 <= i < t.buckets.len()
    &&& 0 <= j < t.buckets[i].rules.len()
    &&& t.buckets[i].rules[j] == rm
}

/// The table holds the rule model `rm` somewhere in its buckets.
pub open spec fn table_holds(t: RvhtModel, rm: RuleModel) -> bool {
    exists|i: int, j: int| holds_at(t, rm, i, j)
}

/// A sequence of priorities is strictly increasing (sorted and free of
/// duplicates).
pub open spec fn sorted_strict(s: Seq<Priority>) -> bool {
    forall|i: int, j: int| 0 <= i < j < s.len() ==> s[i] < s[j]
}

/// Well-formedness of a range-vector hash table:
/// - the canonical masks are the low-bit floors of the region;
/// - the priority set is strictly sorted and strictly positive;
/// - `top` is the maximum priority, or 0 when the table is empty;
/// - every held rule is well formed, has the table's dimensionality,
///   lies inside the region, sits in the bucket of its own fingerprint,
///   and has its priority recorded;
/// - bucket fingerprints are unique, every recorded priority names a
///   held rule, and no two held rules share a priority.
pub open spec fn rvht_wf(t: RvhtModel) -> bool {
    &&& t.masks.len() == t.ranges.len()
    &&& forall|i: int|
        0 <= i < t.ranges.len() ==> #[trigger] t.masks[i] == low_mask((t.ranges[i].0) as nat)
    &&& sorted_strict(t.priorities)
    &&& forall|i: int| 0 <= i < t.priorities.len() ==> #[trigger] t.priorities[i] >= 1
    &&& t.top == (if t.priorities.len() == 0 {
        0u32
    } else {
        t.priorities.last()
    })
    &&& forall|i: int, j: int|
        0 <= i < j < t.buckets.len() ==> (#[trigger] t.buckets[i]).fingerprint != (
        #[trigger] t.buckets[j]).fingerprint
    &&& forall|i: int, j: int|
        #![trigger t.buckets[i].rules[j]]
        0 <= i < t.buckets.len() && 0 <= j < t.buckets[i].rules.len() ==> {
            let rm = t.buckets[i].rules[j];
            &&& rule_wf(rm)
            &&& rm.fields.len() == t.ranges.len()
            &&& in_region(t.ranges, rm.masks)
            &&& fingerprint(t.masks, rm.fields) == t.buckets[i].fingerprint
            &&& t.priorities.contains(rm.priority)
        }
    &&& forall|p: Priority|
        #[trigger] t.priorities.contains(p) ==> exists|i: int, j: int|
            {
                &&& 0 <= i < t.buckets.len()
                &&& 0 <= j < t.buckets[i].rules.len()
                &&& (#[trigger] t.buckets[i].rules[j]).priority == p
            }
    &&& forall|i1: int, j1: int, i2: int, j2: int|
        #![trigger t.buckets[i1].rules[j1], t.buckets[i2].rules[j2]]
        0 <= i1 < t.buckets.len() && 0 <= j1 < t.buckets[i1].rules.len() && 0 <= i2
            < t.buckets.len() && 0 <= j2 < t.buckets[i2].rules.len() && (i1 != i2 || j1 != j2)
            ==> t.buckets[i1].rules[j1].priority != t.buckets[i2].rules[j2].priority
}

/// Top consistency: a well-formed table's `top` is the maximum of its
/// recorded priorities, or 0 when it holds none.
pub proof fn lemma_top_is_max(t: RvhtModel)
    requires
        rvht_wf(t),
    ensures
        t.priorities.len() == 0 ==> t.top == 0,
        t.priorities.len() > 0 ==> t.priorities.contains(t.top) && forall|i: int|
            0 <= i < t.priorities.len() ==> #[trigger] t.priorities[i] <= t.top,
{
    if t.priorities.len() > 0 {
        assert(t.priorities[t.priorities.len() - 1] == t.top);
        assert(t.priorities.contains(t.top));
        assert forall|i: int| 0 <= i < t.priorities.len() implies #[trigger] t.priorities[i]
            <= t.top by {
            if i < t.priorities.len() - 1 {
                assert(t.priorities[i] < t.priorities[t.priorities.len() - 1]);
            }
        }
    }
}

/// Region assignment: every rule a well-formed table holds lies inside
/// the table's rectangle of prefix-length space.
pub proof fn lemma_region_assignment(t: RvhtModel, rm: RuleModel)
    requires
        rvht_wf(t),
        table_holds(t, rm),
    ensures
        in_region(t.ranges, rm.masks),
        rule_wf(rm),
{
    let (i, j): (int, int) = choose|i: int, j: int| holds_at(t, rm, i, j);
    assert(t.buckets[i].rules[j] == rm);
}

/// No rule a well-formed table holds outranks the table's `top`.
pub proof fn lemma_held_le_top(t: RvhtModel)
    requires
        rvht_wf(t),
    ensures
        forall|rm: RuleModel| #[trigger] table_holds(t, rm) ==> rm.priority <= t.top,
{
    assert forall|rm: RuleModel| #[trigger] table_holds(t, rm) implies rm.priority <= t.top by {
        let (i, j): (int, int) = choose|i: int, j: int| holds_at(t, rm, i, j);
        assert(t.priorities.contains(rm.priority));
        let k = choose|k: int| 0 <= k < t.priorities.len() && t.priorities[k] == rm.priority;
        if k < t.priorities.len() - 1 {
            assert(t.priorities[k] < t.priorities[t.priorities.len() - 1]);
        }
    }
}

/// After a rule is appended to the bucket of its own fingerprint (an
/// existing bucket when `existing`, a fresh one otherwise) and its
/// priority recorded, the table is well formed again and holds exactly
/// the old rules plus the new one.
proof fn lemma_insert_wf_restored(
    t0: RvhtModel,
    t2: RvhtModel,
    rulem: RuleModel,
    h: u32,
    bi: int,
    existing: bool,
)
    requires
        rvht_wf(t0),
        t2.masks == t0.masks,
        t2.ranges == t0.ranges,
        sorted_strict(t2.priorities),
        t2.top == (if t2.priorities.len() == 0 {
            0u32
        } else {
            t2.priorities.last()
        }),
        forall|q: Priority|
            #[trigger] t2.priorities.contains(q) <==> t0.priorities.contains(q) || q
                == rulem.priority,
        !t0.priorities.contains(rulem.priority),
        rule_wf(rulem),
        rulem.fields.len() == t0.ranges.len(),
        in_region(t0.ranges, rulem.masks),
        fingerprint(t0.masks, rulem.fields) == h,
        existing ==> 0 <= bi < t0.buckets.len() && t0.buckets[bi].fingerprint == h && t2.buckets
            == t0.buckets.update(
            bi,
            BucketModel { fingerprint: h, rules: t0.buckets[bi].rules.push(rulem) },
        ),
        !existing ==> bi == t0.buckets.len() && (forall|k: int|
            0 <= k < t0.buckets.len() ==> (#[trigger] t0.buckets[k]).fingerprint != h)
            && t2.buckets == t0.buckets.push(
            BucketModel { fingerprint: h, rules: seq![rulem] },
        ),
    ensures
        rvht_wf(t2),
        forall|rm: RuleModel|
            #[trigger] table_holds(t2, rm) <==> table_holds(t0, rm) || rm == rulem,
{
    let p = rulem.priority;
    // where the new rule sits in the new bucket sequence
    let nj: int = if existing {
        t0.buckets[bi].rules.len() as int
    } else {
        0
    };
    assert(holds_at(t2, rulem, bi, nj));
    // positions of the new table map back to positions of the old one,
    // except the position of the new rule
    assert forall|i: int, j: int|
        0 <= i < t2.buckets.len() && 0 <= j < t2.buckets[i].rules.len() && !(i == bi && j
            == nj) implies 0 <= i < t0.buckets.len() && 0 <= j < t0.buckets[i].rules.len()
        && t2.buckets[i].rules[j] == t0.buckets[i].rules[j] by {}
    // every old position survives unchanged
    assert forall|i: int, j: int|
        0 <= i < t0.buckets.len() && 0 <= j < t0.buckets[i].rules.len() implies 0 <= i
            < t2.buckets.len() && 0 <= j < t2.buckets[i].rules.len() && t2.buckets[i].rules[j]
        == t0.buckets[i].rules[j] by {}
    // priorities stay strictly positive
    assert forall|i: int| 0 <= i < t2.priorities.len() implies #[trigger] t2.priorities[i]
        >= 1 by {
        assert(t2.priorities.contains(t2.priorities[i]));
    }
    // the per-rule conditions of well-formedness
    assert forall|i: int, j: int|
        #![trigger t2.buckets[i].rules[j]]
        0 <= i < t2.buckets.len() && 0 <= j < t2.buckets[i].rules.len() implies {
        let rm = t2.buckets[i].rules[j];
        &&& rule_wf(rm)
        &&& rm.fields.len() == t2.ranges.len()
        &&& in_region(t2.ranges, rm.masks)
        &&& fingerprint(t2.masks, rm.fields) == t2.buckets[i].fingerprint
        &&& t2.priorities.contains(rm.priority)
    } by {
        if i == bi && j == nj {
            assert(t2.buckets[i].fingerprint == h);
        } else {
            assert(t2.buckets[i].rules[j] == t0.buckets[i].rules[j]);
            assert(t2.buckets[i].fingerprint == t0.buckets[i].fingerprint);
        }
    }
    // bucket fingerprints remain pairwise distinct
    assert forall|i: int, j: int|
        0 <= i < j < t2.buckets.len() implies (#[trigger] t2.buckets[i]).fingerprint != (
    #[trigger] t2.buckets[j]).fingerprint by {
        if existing {
            assert(t2.buckets[i].fingerprint == t0.buckets[i].fingerprint);
            assert(t2.buckets[j].fingerprint == t0.buckets[j].fingerprint);
        } else {
            if j < t0.buckets.len() {
                assert(t2.buckets[i].fingerprint == t0.buckets[i].fingerprint);
                assert(t2.buckets[j].fingerprint == t0.buckets[j].fingerprint);
            } else {
                assert(t2.buckets[i].fingerprint == t0.buckets[i].fingerprint);
                assert(t2.buckets[j].fingerprint == h);
            }
        }
    }
    // every recorded priority still names a held rule
    assert forall|q: Priority| #[trigger] t2.priorities.contains(q) implies exists|i: int, j: int|
        {
            &&& 0 <= i < t2.buckets.len()
            &&& 0 <= j < t2.buckets[i].rules.len()
            &&& (#[trigger] t2.buckets[i].rules[j]).priority == q
        } by {
        if q == p {
            assert(t2.buckets[bi].rules[nj].priority == q);
        } else {
            assert(t0.priorities.contains(q));
            let (i0, j0): (int, int) = choose|i0: int, j0: int|
                {
                    &&& 0 <= i0 < t0.buckets.len()
                    &&& 0 <= j0 < t0.buckets[i0].rules.len()
                    &&& (#[trigger] t0.buckets[i0].rules[j0]).priority == q
                };
            assert(t2.buckets[i0].rules[j0].priority == q);
        }
    }
    // no two held rules share a priority
    assert forall|i1: int, j1: int, i2: int, j2: int|
        #![trigger t2.buckets[i1].rules[j1], t2.buckets[i2].rules[j2]]
        0 <= i1 < t2.buckets.len() && 0 <= j1 < t2.buckets[i1].rules.len() && 0 <= i2
            < t2.buckets.len() && 0 <= j2 < t2.buckets[i2].rules.len() && (i1 != i2 || j1
            != j2) implies t2.buckets[i1].rules[j1].priority != t2.buckets[i2].rules[j2].priority by {
        if i1 == bi && j1 == nj {
            assert(t2.buckets[i2].rules[j2] == t0.buckets[i2].rules[j2]);
            assert(t0.priorities.contains(t0.buckets[i2].rules[j2].priority));
        } else if i2 == bi && j2 == nj {
            assert(t2.buckets[i1].rules[j1] == t0.buckets[i1].rules[j1]);
            assert(t0.priorities.contains(t0.buckets[i1].rules[j1].priority));
        } else {
            assert(t2.buckets[i1].rules[j1] == t0.buckets[i1].rules[j1]);
            assert(t2.buckets[i2].rules[j2] == t0.buckets[i2].rules[j2]);
        }
    }
    // the table now holds exactly the old rules plus the new one
    assert forall|rm: RuleModel| #[trigger]
        table_holds(t2, rm) <==> table_holds(t0, rm) || rm == rulem by {
        if table_holds(t2, rm) {
            let (i, j): (int, int) = choose|i: int, j: int| holds_at(t2, rm, i, j);
            if i == bi && j == nj {
                assert(rm == rulem);
            } else {
                assert(holds_at(t0, rm, i, j));
            }
        }
        if table_holds(t0, rm) {
            let (i, j): (int, int) = choose|i: int, j: int| holds_at(t0, rm, i, j);
            assert(holds_at(t2, rm, i, j));
        }
        if rm == rulem {
            assert(holds_at(t2, rm, bi, nj));
        }
    }
}

/// After the rule at chain position `j` of bucket `bi` is deleted by a
/// swap with the chain's last element, and its priority erased, the
/// table is well formed again and holds exactly the old rules minus the
/// removed one.
proof fn lemma_remove_wf_restored(t0: RvhtModel, t2: RvhtModel, rulem: RuleModel, bi: int, j: int)
    requires
        rvht_wf(t0),
        t2.masks == t0.masks,
        t2.ranges == t0.ranges,
        sorted_strict(t2.priorities),
        t2.top == (if t2.priorities.len() == 0 {
            0u32
        } else {
            t2.priorities.last()
        }),
        forall|q: Priority|
            #[trigger] t2.priorities.contains(q) <==> t0.priorities.contains(q) && q
                != rulem.priority,
        holds_at(t0, rulem, bi, j),
        t2.buckets == t0.buckets.update(
            bi,
            BucketModel {
                fingerprint: t0.buckets[bi].fingerprint,
                rules: t0.buckets[bi].rules.update(
                    j,
                    t0.buckets[bi].rules.last(),
                ).drop_last(),
            },
        ),
    ensures
        rvht_wf(t2),
        forall|rm: RuleModel|
            #[trigger] table_holds(t2, rm) <==> table_holds(t0, rm) && rm != rulem,
{
    let oldlen = t0.buckets[bi].rules.len() as int;
    // positions of the new table map back to positions of the old one,
    // never to the removed rule's position
    assert forall|i2: int, j2: int|
        0 <= i2 < t2.buckets.len() && 0 <= j2 < t2.buckets[i2].rules.len() implies exists|
        i3: int,
        j3: int,
    |
        holds_at(t0, #[trigger] t2.buckets[i2].rules[j2], i3, j3) && !(i3 == bi && j3 == j) && (i2
            != bi ==> i3 == i2 && j3 == j2) && (i2 == bi ==> i3 == bi) by {
        if i2 != bi {
            assert(holds_at(t0, t2.buckets[i2].rules[j2], i2, j2));
        } else if j2 == j {
            assert(t2.buckets[i2].rules[j2] == t0.buckets[bi].rules[oldlen - 1]);
            assert(j != oldlen - 1);
            assert(holds_at(t0, t2.buckets[i2].rules[j2], bi, oldlen - 1));
        } else {
            assert(t2.buckets[i2].rules[j2] == t0.buckets[bi].rules[j2]);
            assert(holds_at(t0, t2.buckets[i2].rules[j2], bi, j2));
        }
    }
    // no held rule other than the removed one disappears
    assert forall|i3: int, j3: int|
        0 <= i3 < t0.buckets.len() && 0 <= j3 < t0.buckets[i3].rules.len() && !(i3 == bi && j3
            == j) implies table_holds(t2, #[trigger] t0.buckets[i3].rules[j3]) by {
        if i3 != bi {
            assert(holds_at(t2, t0.buckets[i3].rules[j3], i3, j3));
        } else if j3 == oldlen - 1 {
            if j < oldlen - 1 {
                assert(t2.buckets[bi].rules[j] == t0.buckets[bi].rules[j3]);
                assert(holds_at(t2, t0.buckets[i3].rules[j3], bi, j));
            }
        } else {
            assert(t2.buckets[bi].rules[j3] == t0.buckets[bi].rules[j3]);
            assert(holds_at(t2, t0.buckets[i3].rules[j3], bi, j3));
        }
    }
    // priorities stay strictly positive
    assert forall|i2: int| 0 <= i2 < t2.priorities.len() implies #[trigger] t2.priorities[i2]
        >= 1 by {
        assert(t2.priorities.contains(t2.priorities[i2]));
    }
    // the per-rule conditions of well-formedness
    assert forall|i2: int, j2: int|
        #![trigger t2.buckets[i2].rules[j2]]
        0 <= i2 < t2.buckets.len() && 0 <= j2 < t2.buckets[i2].rules.len() implies {
        let rm = t2.buckets[i2].rules[j2];
        &&& rule_wf(rm)
        &&& rm.fields.len() == t2.ranges.len()
        &&& in_region(t2.ranges, rm.masks)
        &&& fingerprint(t2.masks, rm.fields) == t2.buckets[i2].fingerprint
        &&& t2.priorities.contains(rm.priority)
    } by {
        let (i3, j3): (int, int) = choose|i3: int, j3: int|
            holds_at(t0, t2.buckets[i2].rules[j2], i3, j3) && !(i3 == bi && j3 == j) && (i2 != bi
                ==> i3 == i2 && j3 == j2) && (i2 == bi ==> i3 == bi);
        assert(t0.buckets[i3].rules[j3] == t2.buckets[i2].rules[j2]);
        assert(t2.buckets[i2].fingerprint == t0.buckets[i2].fingerprint);
        // the surviving rule's priority differs from the removed one's
        assert(t0.buckets[bi].rules[j] == rulem);
        assert(t0.buckets[i3].rules[j3].priority != rulem.priority);
        assert(t0.priorities.contains(t0.buckets[i3].rules[j3].priority));
    }
    // bucket fingerprints remain pairwise distinct
    assert forall|i2: int, j2: int|
        0 <= i2 < j2 < t2.buckets.len() implies (#[trigger] t2.buckets[i2]).fingerprint != (
    #[trigger] t2.buckets[j2]).fingerprint by {
        assert(t2.buckets[i2].fingerprint == t0.buckets[i2].fingerprint);
        assert(t2.buckets[j2].fingerprint == t0.buckets[j2].fingerprint);
    }
    // every remaining priority still names a held rule
    assert forall|q: Priority| #[trigger] t2.priorities.contains(q) implies exists|
        i2: int,
        j2: int,
    |
        {
            &&& 0 <= i2 < t2.buckets.len()
            &&& 0 <= j2 < t2.buckets[i2].rules.len()
            &&& (#[trigger] t2.buckets[i2].rules[j2]).priority == q
        } by {
        assert(t0.priorities.contains(q) && q != rulem.priority);
        let (i3, j3): (int, int) = choose|i3: int, j3: int|
            {
                &&& 0 <= i3 < t0.buckets.len()
                &&& 0 <= j3 < t0.buckets[i3].rules.len()
                &&& (#[trigger] t0.buckets[i3].rules[j3]).priority == q
            };
        assert(t0.buckets[bi].rules[j] == rulem);
        assert(!(i3 == bi && j3 == j));
        assert(table_holds(t2, t0.buckets[i3].rules[j3]));
        let (i4, j4): (int, int) = choose|i4: int, j4: int|
            holds_at(t2, t0.buckets[i3].rules[j3], i4, j4);
        assert(t2.buckets[i4].rules[j4].priority == q);
    }
    // no two held rules share a priority
    assert forall|i1: int, j1: int, i2: int, j2: int|
        #![trigger t2.buckets[i1].rules[j1], t2.buckets[i2].rules[j2]]
        0 <= i1 < t2.buckets.len() && 0 <= j1 < t2.buckets[i1].rules.len() && 0 <= i2
            < t2.buckets.len() && 0 <= j2 < t2.buckets[i2].rules.len() && (i1 != i2 || j1
            != j2) implies t2.buckets[i1].rules[j1].priority != t2.buckets[i2].rules[j2].priority by {
        let (a1, b1): (int, int) = choose|a1: int, b1: int|
            holds_at(t0, t2.buckets[i1].rules[j1], a1, b1) && !(a1 == bi && b1 == j) && (i1 != bi
                ==> a1 == i1 && b1 == j1) && (i1 == bi ==> a1 == bi);
        let (a2, b2): (int, int) = choose|a2: int, b2: int|
            holds_at(t0, t2.buckets[i2].rules[j2], a2, b2) && !(a2 == bi && b2 == j) && (i2 != bi
                ==> a2 == i2 && b2 == j2) && (i2 == bi ==> a2 == bi);
        if a1 == a2 && b1 == b2 {
            // two distinct new positions cannot map to one old position
            assert(i1 == i2);
            assert(i1 == bi && i2 == bi);
            // within the modified chain the map j2 -> old position is injective
            assert(t2.buckets[bi].rules[j1] == t0.buckets[a1].rules[b1]);
            assert(t2.buckets[bi].rules[j2] == t0.buckets[a1].rules[b1]);
            let c1: int = if j1 == j {
                oldlen - 1
            } else {
                j1
            };
            let c2: int = if j2 == j {
                oldlen - 1
            } else {
                j2
            };
            assert(t2.buckets[bi].rules[j1] == t0.buckets[bi].rules[c1]);
            assert(t2.buckets[bi].rules[j2] == t0.buckets[bi].rules[c2]);
            assert(c1 != c2);
            // equal rules at two distinct old positions would carry two
            // different priorities: impossible
            assert(t0.buckets[bi].rules[c1].priority != t0.buckets[bi].rules[c2].priority);
        } else {
            assert(t0.buckets[a1].rules[b1].priority != t0.buckets[a2].rules[b2].priority);
        }
    }
    // the table now holds exactly the old rules minus the removed one
    assert forall|rm: RuleModel| #[trigger]
        table_holds(t2, rm) <==> table_holds(t0, rm) && rm != rulem by {
        if table_holds(t2, rm) {
            let (i2, j2): (int, int) = choose|i2: int, j2: int| holds_at(t2, rm, i2, j2);
            let (i3, j3): (int, int) = choose|i3: int, j3: int|
                holds_at(t0, rm, i3, j3) && !(i3 == bi && j3 == j) && (i2 != bi ==> i3 == i2 && j3
                    == j2) && (i2 == bi ==> i3 == bi);
            // the removed rule's priority occurs only at the removed position
            assert(t0.buckets[bi].rules[j] == rulem);
            if rm == rulem {
                assert(t0.buckets[i3].rules[j3].priority == rulem.priority);
                assert(i3 == bi && j3 == j);
            }
        }
        if table_holds(t0, rm) && rm != rulem {
            let (i3, j3): (int, int) = choose|i3: int, j3: int| holds_at(t0, rm, i3, j3);
            assert(t0.buckets[bi].rules[j] == rulem);
            assert(!(i3 == bi && j3 == j));
            assert(table_holds(t2, t0.buckets[i3].rules[j3]));
        }
    }
}

/// One range-vector hash table of the classifier bank.
pub struct RVHashMap {
    pub highest_priority: Priority,
    pub priorities: Vec<Priority>,
    pub masks: Vec<Mask>,
    pub ranges: Vec<Range>,
    pub buckets: Vec<Bucket>,
}

impl View for RVHashMap {
    type V = RvhtModel;

    open spec fn view(&self) -> RvhtModel {
        RvhtModel {
            top: self.highest_priority,
            priorities: self.priorities@,
            masks: self.masks@,
            ranges: self.ranges@,
            buckets: self.buckets@.map_values(|b: Bucket| b@),
        }
    }
}

impl RVHashMap {
    /// Build an empty table over the given region. The canonical mask of
    /// dimension `i` is the low-bit floor of the region: `low_mask(low_i)`.
    pub fn new(ranges: Vec<Range>) -> (t: RVHashMap)
        ensures
            rvht_wf(t@),
            t@.ranges == ranges@,
            t@.top == 0,
            t@.priorities.len() == 0,
            t@.buckets.len() == 0,
            forall|rm: RuleModel| !table_holds(t@, rm),
    {
        let masks = get_masks(&ranges);
        let t = RVHashMap {
            highest_priority: 0,
            priorities: Vec::new(),
            masks,
            ranges,
            buckets: Vec::new(),
        };
        proof {
            assert(t@.buckets.len() == 0);
            assert(forall|rm: RuleModel| !table_holds(t@, rm)) by {
                assert forall|rm: RuleModel| !table_holds(t@, rm) by {
                    assert(forall|i: int, j: int| !holds_at(t@, rm, i, j));
                }
            }
        }
        t
    }

    /// The table's current maximum priority, or 0 when it is empty.
    pub fn highest_priority(&self) -> (p: Priority)
        ensures
            p == self@.top,
    {
        self.highest_priority
    }

    /// Whether the rule's per-dimension prefix lengths all fall inside
    /// this table's region (each lower bound inclusive, each upper bound
    /// exclusive).
    pub fn can_insert(&self, rule: &Rule) -> (r: bool)
        requires
            rule@.masks.len() == self@.ranges.len(),
        ensures
            r == in_region(self@.ranges, rule@.masks),
    {
        let mut i: usize = 0;
        while i < self.ranges.len()
            invariant
                i <= self@.ranges.len(),
                rule@.masks.len() == self@.ranges.len(),
                forall|k: int|
                    0 <= k < i ==> (#[trigger] self@.ranges[k]).0 <= pop_count(rule@.masks[k])
                        < self@.ranges[k].1,
            decreases self@.ranges.len() - i,
        {
            let c = popcount(rule.masks[i]);
            let lo = self.ranges[i].0;
            let hi = self.ranges[i].1;
            if c < lo || c >= hi {
                return false;
            }
            i = i + 1;
        }
        true
    }

    /// Insert a rule whose prefix-length vector lies inside this table's
    /// region. Fails, changing nothing, exactly when the rule's priority
    /// is already present (priorities are unique within a table). On
    /// success the rule joins the bucket of its fingerprint, the
    /// priority is recorded, and `top` rises to the priority if it
    /// exceeds the previous maximum.
    pub fn insert(&mut self, rule: Rule) -> (r: bool)
        requires
            rvht_wf(old(self)@),
            rule_wf(rule@),
            rule@.fields.len() == old(self)@.ranges.len(),
            in_region(old(self)@.ranges, rule@.masks),
        ensures
            rvht_wf(final(self)@),
            final(self)@.ranges == old(self)@.ranges,
            final(self)@.masks == old(self)@.masks,
            r == !old(self)@.priorities.contains(rule@.priority),
            !r ==> final(self)@ == old(self)@,
            r ==> final(self)@.priorities.to_multiset() == old(
                self,
            )@.priorities.to_multiset().insert(rule@.priority),
            r ==> forall|q: Priority|
                #[trigger] final(self)@.priorities.contains(q) <==> old(
                    self,
                )@.priorities.contains(q) || q == rule@.priority,
            r ==> forall|rm: RuleModel|
                #[trigger] table_holds(final(self)@, rm) <==> table_holds(old(self)@, rm) || rm
                    == rule@,
            r ==> final(self)@.top == (if rule@.priority > old(self)@.top {
                rule@.priority
            } else {
                old(self)@.top
            }),
    {
        let ghost t0 = self@;
        let p = rule.priority;
        let mut pos: usize = 0;
        while pos < self.priorities.len() && self.priorities[pos] < p
            invariant
                pos <= self@.priorities.len(),
                forall|k: int| 0 <= k < pos ==> #[trigger] self@.priorities[k] < p,
            decreases self@.priorities.len() - pos,
        {
            pos = pos + 1;
        }
        if pos < self.priorities.len() && self.priorities[pos] == p {
            proof {
                assert(t0.priorities[pos as int] == p);
                assert(t0.priorities.contains(p));
            }
            return false;
        }
        proof {
            assert forall|k: int| 0 <= k < t0.priorities.len() implies #[trigger] t0.priorities[k]
                != p by {
                if k >= pos {
                    assert(pos < t0.priorities.len());
                    assert(t0.priorities[pos as int] > p);
                    if k > pos {
                        assert(t0.priorities[k] > t0.priorities[pos as int]);
                    }
                }
            }
            assert(!t0.priorities.contains(p));
        }
        self.priorities.insert(pos, p);
        if p > self.highest_priority {
            self.highest_priority = p;
        }
        proof {
            t0.priorities.insert_ensures(pos as int, p);
            vstd::seq_lib::to_multiset_insert(t0.priorities, pos as int, p);
            assert(self@.priorities =~= t0.priorities.insert(pos as int, p));
            // sortedness of the new priority sequence
            assert forall|i: int, j: int|
                0 <= i < j < self@.priorities.len() implies self@.priorities[i]
                < self@.priorities[j] by {
                if pos < t0.priorities.len() {
                    assert(t0.priorities[pos as int] > p);
                }
                if i < pos && pos < j {
                    assert(self@.priorities[i] == t0.priorities[i]);
                    assert(self@.priorities[j] == t0.priorities[j - 1]);
                    assert(t0.priorities[i] < p);
                    assert(j - 1 >= pos);
                    if j - 1 == pos {
                    } else {
                        assert(t0.priorities[pos as int] < t0.priorities[j - 1]);
                    }
                }
            }
            // membership in the new priority sequence
            assert forall|q: Priority| #[trigger]
                self@.priorities.contains(q) <==> t0.priorities.contains(q) || q == p by {
                if self@.priorities.contains(q) {
                    let k = choose|k: int|
                        0 <= k < self@.priorities.len() && self@.priorities[k] == q;
                    if k < pos {
                        assert(t0.priorities[k] == q);
                        assert(t0.priorities.contains(q));
                    } else if k > pos {
                        assert(t0.priorities[k - 1] == q);
                        assert(t0.priorities.contains(q));
                    }
                }
                if t0.priorities.contains(q) {
                    let k = choose|k: int|
                        0 <= k < t0.priorities.len() && t0.priorities[k] == q;
                    if k < pos {
                        assert(self@.priorities[k] == q);
                    } else {
                        assert(self@.priorities[k + 1] == q);
                    }
                    assert(self@.priorities.contains(q));
                }
                if q == p {
                    assert(self@.priorities[pos as int] == q);
                    assert(self@.priorities.contains(q));
                }
            }
            // the new top is the last element of the new sequence
            if pos == t0.priorities.len() {
                assert(self@.priorities.last() == p);
                if t0.priorities.len() > 0 {
                    assert(t0.priorities[pos - 1] < p);
                    assert(t0.top == t0.priorities.last());
                }
                assert(self@.top == p);
            } else {
                assert(self@.priorities.last() == t0.priorities.last());
                assert(t0.priorities[pos as int] > p);
                assert(t0.priorities.last() >= t0.priorities[pos as int] || pos as int
                    == t0.priorities.len() - 1);
                assert(t0.top >= p);
                assert(self@.top == t0.top);
            }
        }
        let h = self.calc_hash(&rule.fields);
        proof {
            assert(fingerprint(t0.masks, rule@.fields) == h);
        }
        let ghost rulem = rule@;
        let mut bi: usize = 0;
        while bi < self.buckets.len() && self.buckets[bi].fingerprint != h
            invariant
                bi <= self@.buckets.len(),
                forall|k: int| 0 <= k < bi ==> (#[trigger] self@.buckets[k]).fingerprint != h,
            decreases self@.buckets.len() - bi,
        {
            bi = bi + 1;
        }
        if bi < self.buckets.len() {
            let ghost oldchain = t0.buckets[bi as int].rules;
            self.buckets[bi].rules.push(rule);
            proof {
                assert(self@.buckets[bi as int].rules =~= oldchain.push(rulem));
                assert(self@.buckets[bi as int] =~= BucketModel {
                    fingerprint: h,
                    rules: oldchain.push(rulem),
                });
                assert(self@.buckets =~= t0.buckets.update(
                    bi as int,
                    BucketModel { fingerprint: h, rules: oldchain.push(rulem) },
                ));
                lemma_insert_wf_restored(t0, self@, rulem, h, bi as int, true);
            }
        } else {
            let mut chain: Vec<Rule> = Vec::new();
            chain.push(rule);
            self.buckets.push(Bucket { fingerprint: h, rules: chain });
            proof {
                assert(self@.buckets[bi as int].rules =~= seq![rulem]);
                assert(self@.buckets[bi as int] =~= BucketModel {
                    fingerprint: h,
                    rules: seq![rulem],
                });
                assert(self@.buckets =~= t0.buckets.push(
                    BucketModel { fingerprint: h, rules: seq![rulem] },
                ));
                lemma_insert_wf_restored(t0, self@, rulem, h, bi as int, false);
            }
        }
        true
    }

    /// Remove a rule, located by its priority. Fails, changing nothing,
    /// when the priority is not recorded here. Otherwise the priority is
    /// erased, `top` is recomputed as the maximum of the remaining
    /// priorities (or 0 when none remain), and the rule leaves its
    /// collision chain.
    ///
    /// Rule identity is priority-based, so a recorded priority must
    /// belong to this very rule — that is the caller's contract.
    pub fn remove(&mut self, rule: &Rule) -> (r: bool)
        requires
            rvht_wf(old(self)@),
            old(self)@.priorities.contains(rule@.priority) ==> table_holds(old(self)@, rule@),
        ensures
            rvht_wf(final(self)@),
            final(self)@.ranges == old(self)@.ranges,
            final(self)@.masks == old(self)@.masks,
            r == old(self)@.priorities.contains(rule@.priority),
            !r ==> final(self)@ == old(self)@,
            r ==> final(self)@.priorities.to_multiset() == old(
                self,
            )@.priorities.to_multiset().remove(rule@.priority),
            r ==> forall|q: Priority|
                #[trigger] final(self)@.priorities.contains(q) <==> old(
                    self,
                )@.priorities.contains(q) && q != rule@.priority,
            r ==> forall|rm: RuleModel|
                #[trigger] table_holds(final(self)@, rm) <==> table_holds(old(self)@, rm) && rm
                    != rule@,
    {
        let ghost t0 = self@;
        let p = rule.priority;
        let mut pos: usize = 0;
        while pos < self.priorities.len() && self.priorities[pos] != p
            invariant
                pos <= self@.priorities.len(),
                forall|k: int| 0 <= k < pos ==> #[trigger] self@.priorities[k] != p,
            decreases self@.priorities.len() - pos,
        {
            pos = pos + 1;
        }
        if pos == self.priorities.len() {
            proof {
                assert(!t0.priorities.contains(p));
            }
            return false;
        }
        proof {
            assert(t0.priorities[pos as int] == p);
            assert(t0.priorities.contains(p));
            assert(table_holds(t0, rule@));
        }
        self.priorities.remove(pos);
        if p == self.highest_priority {
            if self.priorities.len() == 0 {
                self.highest_priority = 0;
            } else {
                self.highest_priority = self.priorities[self.priorities.len() - 1];
            }
        }
        proof {
            t0.priorities.remove_ensures(pos as int);
            vstd::seq_lib::to_multiset_remove(t0.priorities, pos as int);
            assert(self@.priorities =~= t0.priorities.remove(pos as int));
            // membership in the shrunken priority sequence
            assert forall|q: Priority| #[trigger]
                self@.priorities.contains(q) <==> t0.priorities.contains(q) && q != p by {
                if self@.priorities.contains(q) {
                    let k = choose|k: int|
                        0 <= k < self@.priorities.len() && self@.priorities[k] == q;
                    if k < pos {
                        assert(t0.priorities[k] == q);
                        assert(k != pos);
                    } else {
                        assert(t0.priorities[k + 1] == q);
                        assert(k + 1 != pos);
                    }
                    assert(t0.priorities.contains(q));
                }
                if t0.priorities.contains(q) && q != p {
                    let k = choose|k: int| 0 <= k < t0.priorities.len() && t0.priorities[k] == q;
                    assert(k != pos);
                    if k < pos {
                        assert(self@.priorities[k] == q);
                    } else {
                        assert(self@.priorities[k - 1] == q);
                    }
                    assert(self@.priorities.contains(q));
                }
            }
            // the new top is the last remaining priority, or 0
            if p == t0.top {
                assert(t0.priorities.len() >= 1);
                assert(pos as int == t0.priorities.len() - 1) by {
                    if (pos as int) < t0.priorities.len() - 1 {
                        assert(t0.priorities[pos as int] < t0.priorities.last());
                    }
                }
                if self@.priorities.len() > 0 {
                    assert(self@.priorities.last() == t0.priorities[self@.priorities.len() - 1]);
                }
            } else {
                assert(pos as int != t0.priorities.len() - 1);
                assert(self@.priorities.len() > 0);
                assert(self@.priorities.last() == t0.priorities.last());
            }
        }
        let h = self.calc_hash(&rule.fields);
        let ghost rulem = rule@;
        proof {
            // the rule is held, so the bucket of its fingerprint exists
            let (i3, j3): (int, int) = choose|i3: int, j3: int| holds_at(t0, rulem, i3, j3);
            assert(t0.buckets[i3].fingerprint == h);
            assert(self@.buckets == t0.buckets);
            assert((self@.buckets[i3]).fingerprint == h);
        }
        let mut bi: usize = 0;
        while bi < self.buckets.len() && self.buckets[bi].fingerprint != h
            invariant
                bi <= self@.buckets.len(),
                forall|k: int| 0 <= k < bi ==> (#[trigger] self@.buckets[k]).fingerprint != h,
                exists|k: int|
                    0 <= k < self@.buckets.len() && (#[trigger] self@.buckets[k]).fingerprint == h,
            decreases self@.buckets.len() - bi,
        {
            bi = bi + 1;
        }
        proof {
            assert(bi < self@.buckets.len());
            // the removed rule sits in this very bucket
            let (i3, j3): (int, int) = choose|i3: int, j3: int| holds_at(t0, rulem, i3, j3);
            assert(t0.buckets[i3].fingerprint == h);
            assert(i3 == bi) by {
                if i3 < bi as int {
                } else if i3 > bi as int {
                    assert(t0.buckets[bi as int].fingerprint != t0.buckets[i3].fingerprint);
                }
            }
        }
        let chain_len = self.buckets[bi].rules.len();
        let mut j: usize = 0;
        while j < self.buckets[bi].rules.len() && self.buckets[bi].rules[j].priority != p
            invariant
                0 <= bi < self@.buckets.len(),
                j <= self@.buckets[bi as int].rules.len(),
                forall|k: int|
                    0 <= k < j ==> (#[trigger] self@.buckets[bi as int].rules[k]).priority != p,
                exists|k: int|
                    0 <= k < self@.buckets[bi as int].rules.len() && (#[trigger] self@.buckets[bi as int].rules[k]).priority
                        == p,
            decreases self@.buckets[bi as int].rules.len() - j,
        {
            j = j + 1;
        }
        proof {
            assert(j < self@.buckets[bi as int].rules.len());
            // the rule found by priority is the rule being removed
            assert(self@.buckets[bi as int].rules[j as int].priority == p);
            let (i3, j3): (int, int) = choose|i3: int, j3: int| holds_at(t0, rulem, i3, j3);
            assert(i3 == bi) by {
                if i3 != bi as int {
                    assert(t0.buckets[i3].fingerprint == h);
                    assert(t0.buckets[bi as int].fingerprint == h);
                }
            }
            assert(t0.buckets[bi as int].rules[j as int] == rulem) by {
                if j3 != j as int {
                    assert(t0.buckets[bi as int].rules[j3].priority != t0.buckets[bi as int].rules[
                        j as int
                    ].priority);
                }
            }
            assert(holds_at(t0, rulem, bi as int, j as int));
        }
        let ghost oldchain = t0.buckets[bi as int].rules;
        self.buckets[bi].rules.swap_remove(j);
        proof {
            assert(self@.buckets[bi as int].rules =~= oldchain.update(
                j as int,
                oldchain.last(),
            ).drop_last());
            assert(self@.buckets[bi as int] =~= BucketModel {
                fingerprint: t0.buckets[bi as int].fingerprint,
                rules: oldchain.update(j as int, oldchain.last()).drop_last(),
            });
            assert(self@.buckets =~= t0.buckets.update(
                bi as int,
                BucketModel {
                    fingerprint: t0.buckets[bi as int].fingerprint,
                    rules: oldchain.update(j as int, oldchain.last()).drop_last(),
                },
            ));
            lemma_remove_wf_restored(t0, self@, rulem, bi as int, j as int);
        }
        true
    }

    /// Probe the bucket of the packet's fingerprint and return the
    /// highest-priority rule there that masked-matches the packet, if
    /// any. Fingerprint agreement guarantees no matching rule hides in
    /// another bucket, so the answer is the best match among all rules
    /// this table holds.
    pub fn check_match(&self, packet: &Packet) -> (r: Option<&Rule>)
        requires
            rvht_wf(self@),
            packet@.len() == self@.ranges.len(),
        ensures
            match r {
                Some(m) => {
                    &&& table_holds(self@, m@)
                    &&& rule_matches(packet@, m@)
                    &&& forall|rm: RuleModel|
                        table_holds(self@, rm) && rule_matches(packet@, rm)
                            ==> rm.priority <= m@.priority
                },
                None => forall|rm: RuleModel|
                    table_holds(self@, rm) ==> !rule_matches(packet@, rm),
            },
    {
        let h = self.calc_hash(&packet.fields);
        proof {
            // a held rule that matches the packet fingerprints to `h`,
            // so it sits in the bucket whose fingerprint is `h`
            assert forall|rm: RuleModel|
                table_holds(self@, rm) && rule_matches(packet@, rm) implies exists|i: int, j: int|
                holds_at(self@, rm, i, j) && self@.buckets[i].fingerprint == h by {
                let (i, j): (int, int) = choose|i: int, j: int| holds_at(self@, rm, i, j);
                lemma_fingerprint_agreement(self@, rm, packet@);
                assert(self@.buckets[i].fingerprint == fingerprint(self@.masks, rm.fields));
            }
        }
        let mut bi: usize = 0;
        while bi < self.buckets.len() && self.buckets[bi].fingerprint != h
            invariant
                bi <= self@.buckets.len(),
                forall|k: int| 0 <= k < bi ==> (#[trigger] self@.buckets[k]).fingerprint != h,
            decreases self@.buckets.len() - bi,
        {
            bi = bi + 1;
        }
        if bi == self.buckets.len() {
            proof {
                assert forall|rm: RuleModel|
                    table_holds(self@, rm) implies !rule_matches(packet@, rm) by {
                    if rule_matches(packet@, rm) {
                        let (i, j): (int, int) = choose|i: int, j: int|
                            holds_at(self@, rm, i, j) && self@.buckets[i].fingerprint == h;
                    }
                }
            }
            return None;
        }
        let mut best: Option<&Rule> = None;
        let mut best_prio: u32 = 0;
        let mut j: usize = 0;
        while j < self.buckets[bi].rules.len()
            invariant
                0 <= bi < self@.buckets.len(),
                self@.buckets[bi as int].fingerprint == h,
                rvht_wf(self@),
                packet@.len() == self@.ranges.len(),
                j <= self@.buckets[bi as int].rules.len(),
                best is None ==> best_prio == 0,
                best matches Some(m) ==> table_holds(self@, m@) && rule_matches(packet@, m@)
                    && m@.priority == best_prio && best_prio >= 1,
                forall|k: int|
                    0 <= k < j && rule_matches(
                        packet@,
                        #[trigger] self@.buckets[bi as int].rules[k],
                    ) ==> self@.buckets[bi as int].rules[k].priority <= best_prio,
            decreases self@.buckets[bi as int].rules.len() - j,
        {
            let cand = &self.buckets[bi].rules[j];
            proof {
                assert(cand@ == self@.buckets[bi as int].rules[j as int]);
                assert(rule_wf(cand@));
            }
            if rule_fields_match(cand, packet) {
                if cand.priority > best_prio {
                    best_prio = cand.priority;
                    best = Some(cand);
                    proof {
                        assert(holds_at(self@, cand@, bi as int, j as int));
                    }
                }
            }
            j = j + 1;
        }
        proof {
            // every held matching rule sits in this bucket's chain, so
            // the scan saw it
            assert forall|rm: RuleModel|
                table_holds(self@, rm) && rule_matches(packet@, rm) implies rm.priority
                <= best_prio by {
                let (i2, j2): (int, int) = choose|i2: int, j2: int|
                    holds_at(self@, rm, i2, j2) && self@.buckets[i2].fingerprint == h;
                assert(i2 == bi) by {
                    if i2 < bi as int {
                        assert(self@.buckets[i2].fingerprint != h);
                    } else if i2 > bi as int {
                        assert(self@.buckets[bi as int].fingerprint
                            != self@.buckets[i2].fingerprint);
                    }
                }
            }
            if best is None {
                assert forall|rm: RuleModel|
                    table_holds(self@, rm) implies !rule_matches(packet@, rm) by {
                    if rule_matches(packet@, rm) {
                        let (i2, j2): (int, int) = choose|i2: int, j2: int|
                            holds_at(self@, rm, i2, j2);
                        assert(rm.priority >= 1);
                        assert(rm.priority <= best_prio);
                    }
                }
            }
        }
        best
    }

    /// The fingerprint of a field vector under this table's canonical
    /// masks.
    fn calc_hash(&self, fields: &Vec<Field>) -> (h: u32)
        requires
            fields@.len() == self@.masks.len(),
        ensures
            h == fingerprint(self@.masks, fields@),
    {
        let mut h: u32 = 0;
        let mut p: u32 = 1;
        let mut i: usize = 0;
        while i < self.masks.len()
            invariant
                i <= self@.masks.len(),
                fields@.len() == self@.masks.len(),
                h == fp_prefix(self@.masks, fields@, i as int),
                p == pbit(i as int),
            decreases self@.masks.len() - i,
        {
            proof {
                assert(1u32 ^ 1u32 == 0u32 && 0u32 ^ 1u32 == 1u32) by (bit_vector);
            }
            h = h ^ (p | (fields[i] & self.masks[i]));
            p = p ^ 1;
            i = i + 1;
        }
        h
    }
}

} // verus!
