//! Primitive scalars, the rule and packet types, and the bit-level
//! specification functions the classifier's contracts are stated over.

use vstd::prelude::*;

verus! {

/// One classification dimension of a packet or rule.
pub type Field = u32;

/// A contiguous-prefix mask: a run of 1-bits in the low positions.
pub type Mask = u32;

/// A strictly positive ordinal; 0 is reserved as "no priority / empty".
pub type Priority = u32;

/// A half-open interval `[low, high)` over prefix lengths on one dimension.
pub type Range = (u32, u32);

/// The mask whose low `n` bits are 1 (saturating at all 32 bits).
pub open spec fn low_mask(n: nat) -> u32
    decreases n,
{
    if n == 0 {
        0u32
    } else {
        (low_mask((n - 1) as nat) << 1u32) | 1u32
    }
}

/// Population count of the low `n` bits of `m`.
pub open spec fn pop_count_rec(m: u32, n: nat) -> nat
    decreases n,
{
    if n == 0 {
        0
    } else {
        ((m & 1) as nat + pop_count_rec(m >> 1u32, (n - 1) as nat)) as nat
    }
}

/// Population count of `m`; for a contiguous-prefix mask this is the
/// prefix length.
pub open spec fn pop_count(m: u32) -> nat {
    pop_count_rec(m, 32)
}

/// A mask is a contiguous low-order run of 1-bits exactly when it equals
/// the canonical mask of its own population count.
pub open spec fn mask_contiguous(m: u32) -> bool {
    m == low_mask(pop_count(m))
}

/// The bits of `field1` and `field2` selected by `mask` agree.
pub open spec fn spec_is_match(field1: Field, field2: Field, mask: Mask) -> bool {
    ((field1 ^ field2) & mask) == 0
}

/// Mathematical abstraction of a rule: its field vector, mask vector and
/// priority.
#[verifier::ext_equal]
pub ghost struct RuleModel {
    pub fields: Seq<Field>,
    pub masks: Seq<Mask>,
    pub priority: Priority,
}

/// A rule is well formed when its fields and masks agree in length, its
/// priority is strictly positive, and each mask is a contiguous
/// low-order run of 1-bits.
pub open spec fn rule_wf(r: RuleModel) -> bool {
    &&& r.fields.len() == r.masks.len()
    &&& r.priority >= 1
    &&& forall|i: int| 0 <= i < r.masks.len() ==> mask_contiguous(#[trigger] r.masks[i])
}

/// `packet` masked-matches `r`: on every dimension the packet field and
/// the rule field agree on the bits the rule's mask selects.
pub open spec fn rule_matches(packet: Seq<Field>, r: RuleModel) -> bool {
    &&& r.fields.len() == packet.len()
    &&& r.masks.len() == packet.len()
    &&& forall|i: int|
        0 <= i < packet.len() ==> spec_is_match(packet[i], #[trigger] r.fields[i], r.masks[i])
}

/// On every dimension the prefix length of `masks` lies in the half-open
/// interval given by `ranges`.
pub open spec fn in_region(ranges: Seq<Range>, masks: Seq<Mask>) -> bool {
    &&& masks.len() == ranges.len()
    &&& forall|i: int|
        0 <= i < ranges.len() ==> (#[trigger] ranges[i]).0 <= pop_count(masks[i]) < ranges[i].1
}

/// A classification rule: a vector of fields, a parallel vector of
/// contiguous-prefix masks, and a globally unique positive priority.
#[derive(Clone, Debug)]
pub struct Rule {
    pub fields: Vec<Field>,
    pub masks: Vec<Mask>,
    pub priority: Priority,
}

impl View for Rule {
    type V = RuleModel;

    open spec fn view(&self) -> RuleModel {
        RuleModel { fields: self.fields@, masks: self.masks@, priority: self.priority }
    }
}

impl Rule {
    /// Build a rule from its three components.
    pub fn new(fields: Vec<Field>, masks: Vec<Mask>, priority: Priority) -> (r: Rule)
        ensures
            r@ == (RuleModel { fields: fields@, masks: masks@, priority }),
    {
        Rule { fields, masks, priority }
    }

    /// The rule's priority.
    pub fn priority(&self) -> (p: Priority)
        ensures
            p == self@.priority,
    {
        self.priority
    }

    /// The rule's field vector.
    pub fn fields(&self) -> (f: &Vec<Field>)
        ensures
            f@ == self@.fields,
    {
        &self.fields
    }

    /// The rule's mask vector.
    pub fn masks(&self) -> (m: &Vec<Mask>)
        ensures
            m@ == self@.masks,
    {
        &self.masks
    }
}

/// A packet to classify: one integer value per dimension.
#[derive(Clone, Debug)]
pub struct Packet {
    pub fields: Vec<Field>,
}

impl View for Packet {
    type V = Seq<Field>;

    open spec fn view(&self) -> Seq<Field> {
        self.fields@
    }
}

impl Packet {
    /// Build a packet from its field vector.
    pub fn new(fields: Vec<Field>) -> (p: Packet)
        ensures
            p@ == fields@,
    {
        Packet { fields }
    }

    /// The packet's field vector.
    pub fn fields(&self) -> (f: &Vec<Field>)
        ensures
            f@ == self@,
    {
        &self.fields
    }
}

} // verus!
