//! Item requirements, query validation, and matching a query against the
//! searchable items of a generated world.

use vstd::prelude::*;

use crate::catalog::{
    carries_effects, effect_at, effect_family, effect_index, family_size, is_curse,
    lemma_effect_positions, max_search_upgrade, Effect, ItemId, ItemKind, WeaponCategory,
    effect_from_index,
};
use crate::model::{scenario_of, Challenges, GeneratedWorld, ItemSource, WorldItem};

verus! {

/// Highest upgrade any generated item can carry (+4 rings from the Imp).
pub const MAX_ITEM_UPGRADE: u64 = 4;

// ---------------------------------------------------------------------------
// Upgrade and tier predicates
// ---------------------------------------------------------------------------

/// Upgrade predicate attached to one item requirement.
#[derive(Clone, Copy, Debug, PartialEq, Eq, Structural)]
pub enum UpgradeRequirement {
    Any,
    Exact(u8),
    AtLeast(u8),
}

/// Whether an upgrade level satisfies an upgrade predicate.
pub open spec fn upgrade_matches(requirement: UpgradeRequirement, upgrade: u8) -> bool {
    match requirement {
        UpgradeRequirement::Any => true,
        UpgradeRequirement::Exact(wanted) => upgrade == wanted,
        UpgradeRequirement::AtLeast(minimum) => upgrade >= minimum,
    }
}

impl UpgradeRequirement {
    /// Whether an item carrying `upgrade` satisfies this predicate.
    pub fn matches(self, upgrade: u8) -> (satisfied: bool)
        ensures
            satisfied == upgrade_matches(self, upgrade),
    {
        match self {
            UpgradeRequirement::Any => true,
            UpgradeRequirement::Exact(wanted) => upgrade == wanted,
            UpgradeRequirement::AtLeast(minimum) => upgrade >= minimum,
        }
    }
}

/// Optional tier predicate for tiered equipment.
#[derive(Clone, Copy, Debug, PartialEq, Eq, Structural)]
pub enum TierRequirement {
    Any,
    Exact(u8),
    AtLeast(u8),
    AtMost(u8),
}

/// Whether an item tier satisfies a tier predicate; untiered items satisfy
/// only the wildcard.
pub open spec fn tier_matches(requirement: TierRequirement, tier: Option<u8>) -> bool {
    match requirement {
        TierRequirement::Any => true,
        TierRequirement::Exact(wanted) => tier == Some(wanted),
        TierRequirement::AtLeast(minimum) => tier is Some && tier.unwrap() >= minimum,
        TierRequirement::AtMost(maximum) => tier is Some && tier.unwrap() <= maximum,
    }
}

impl TierRequirement {
    /// Whether a tiered item satisfies this predicate. Untiered items never do.
    pub fn matches(self, tier: Option<u8>) -> (satisfied: bool)
        ensures
            satisfied == tier_matches(self, tier),
    {
        match self {
            TierRequirement::Any => true,
            TierRequirement::Exact(wanted) => match tier {
                Some(tier) => tier == wanted,
                None => false,
            },
            TierRequirement::AtLeast(minimum) => match tier {
                Some(tier) => tier >= minimum,
                None => false,
            },
            TierRequirement::AtMost(maximum) => match tier {
                Some(tier) => tier <= maximum,
                None => false,
            },
        }
    }
}

// ---------------------------------------------------------------------------
// Effect sets
// ---------------------------------------------------------------------------

/// Whether bit `index` of `mask` is set.
pub open spec fn has_bit(mask: u32, index: u8) -> bool {
    (mask >> (index as u32)) & 1u32 == 1u32
}

/// The effects of a family whose positions below `n` are set in `mask`, in
/// catalog order.
pub open spec fn members_below(kind: ItemKind, mask: u32, n: nat) -> Seq<Effect>
    decreases n,
{
    if n == 0 {
        Seq::empty()
    } else {
        let rest = members_below(kind, mask, (n - 1) as nat);
        if has_bit(mask, (n - 1) as u8) {
            rest.push(effect_at(kind, (n - 1) as u8))
        } else {
            rest
        }
    }
}

/// Mask of the positive (non-curse) effects of a family.
pub open spec fn positive_mask(kind: ItemKind) -> u32 {
    if kind == ItemKind::Weapon {
        0x1FFFFu32
    } else {
        0x1FFFu32
    }
}

/// Whether `s` lists effects in strictly increasing catalog positions.
pub open spec fn in_catalog_order(s: Seq<Effect>) -> bool {
    forall|i: int, j: int| 0 <= i < j < s.len() ==> effect_index(s[i]) < effect_index(s[j])
}

proof fn lemma_bit_or_single(mask: u32, k: u32, j: u32)
    by (bit_vector)
    requires
        k < 32,
        j < 32,
    ensures
        ((mask | (1u32 << k)) >> j) & 1u32 == 1u32 <==> (((mask >> j) & 1u32 == 1u32) || j
            == k),
        (mask | (1u32 << k)) != 0,
{
}

proof fn lemma_bit_single(k: u32, j: u32)
    by (bit_vector)
    requires
        k < 32,
        j < 32,
    ensures
        ((1u32 << k) >> j) & 1u32 == 1u32 <==> j == k,
        (1u32 << k) != 0,
{
}

proof fn lemma_bit_and(a: u32, b: u32, j: u32)
    by (bit_vector)
    requires
        j < 32,
    ensures
        ((a & b) >> j) & 1u32 == 1u32 <==> ((a >> j) & 1u32 == 1u32 && (b >> j) & 1u32 == 1u32),
{
}

/// Bits at or above `n` are clear when `mask >> n` is zero.
proof fn lemma_bit_high(mask: u32, n: u32, j: u32)
    by (bit_vector)
    requires
        n <= j < 32,
        mask >> n == 0,
    ensures
        (mask >> j) & 1u32 == 0,
{
}

/// Facts about masks confined below a family size.
proof fn lemma_mask_bounds(a: u32, b: u32, k: u32, n: u32)
    by (bit_vector)
    requires
        k < n <= 32,
        a >> n == 0,
        b >> n == 0,
    ensures
        (a | (1u32 << k)) >> n == 0,
        (a & b) >> n == 0,
        (1u32 << k) >> n == 0,
{
}

proof fn lemma_single_bound(k: u32, n: u32)
    by (bit_vector)
    requires
        k < n <= 32,
    ensures
        (1u32 << k) >> n == 0,
{
}

/// Masking with the positive effects keeps exactly the set bits below the
/// first curse position.
proof fn lemma_bit_positive(mask: u32, j: u32)
    by (bit_vector)
    requires
        j < 32,
    ensures
        ((mask & 0x1FFFFu32) >> j) & 1u32 == 1u32 <==> ((mask >> j) & 1u32 == 1u32 && j < 17),
        ((mask & 0x1FFFu32) >> j) & 1u32 == 1u32 <==> ((mask >> j) & 1u32 == 1u32 && j < 13),
        ((0x1FFFFu32) >> j) & 1u32 == 1u32 <==> j < 17,
        ((0x1FFFu32) >> j) & 1u32 == 1u32 <==> j < 13,
        0x1FFFFu32 >> 27u32 == 0,
        0x1FFFu32 >> 21u32 == 0,
{
}

/// A non-zero mask confined below `n` has a set bit below `n`.
proof fn lemma_some_bit(mask: u32, n: u32)
    requires
        mask != 0,
        n <= 32,
        n == 32 || mask >> n == 0,
    ensures
        exists|j: u32| j < n && #[trigger] ((mask >> j) & 1u32) == 1u32,
    decreases n,
{
    if n == 0 {
        assert(mask >> 0u32 == mask) by (bit_vector);
    } else {
        let top = (n - 1) as u32;
        if (mask >> top) & 1u32 == 1u32 {
            assert(top < n && ((mask >> top) & 1u32) == 1u32);
        } else {
            assert(mask >> top == 0) by (bit_vector)
                requires
                    top < 32,
                    top + 1 == n,
                    n == 32 || mask >> n == 0,
                    (mask >> top) & 1u32 != 1u32,
            ;
            lemma_some_bit(mask, top);
            let j = choose|j: u32| j < top && #[trigger] ((mask >> j) & 1u32) == 1u32;
            assert(j < n && ((mask >> j) & 1u32) == 1u32);
        }
    }
}

/// Membership, order and positions of the effects a mask selects.
proof fn lemma_members_below(kind: ItemKind, mask: u32, n: nat)
    requires
        carries_effects(kind),
        n <= family_size(kind),
    ensures
        forall|e: Effect|
            members_below(kind, mask, n).contains(e) <==> (effect_family(e) == kind
                && effect_index(e) < n && has_bit(mask, effect_index(e))),
        forall|i: int|
            0 <= i < members_below(kind, mask, n).len() ==> effect_family(
                #[trigger] members_below(kind, mask, n)[i],
            ) == kind && effect_index(members_below(kind, mask, n)[i]) < n,
        in_catalog_order(members_below(kind, mask, n)),
    decreases n,
{
    if n > 0 {
        let k = (n - 1) as u8;
        lemma_members_below(kind, mask, (n - 1) as nat);
        lemma_effect_positions(kind, k, effect_at(kind, k));
        assert forall|e: Effect|
            effect_family(e) == kind && effect_index(e) < n && has_bit(
                mask,
                effect_index(e),
            ) implies members_below(kind, mask, n).contains(e) by {
            lemma_effect_positions(kind, k, e);
            let s = members_below(kind, mask, n);
            let rest = members_below(kind, mask, (n - 1) as nat);
            if effect_index(e) == k {
                assert(s[s.len() - 1] == e);
            } else {
                assert(rest.contains(e));
                let i = choose|i: int| 0 <= i < rest.len() && rest[i] == e;
                assert(s[i] == e);
            }
        }
    }
}

/// Non-empty set of same-family effects, stored as a bitmask over the
/// family's catalog positions. Only weapons and armor carry effects.
#[derive(Clone, Copy, Debug, PartialEq, Eq, Structural, Hash)]
pub struct EffectSet {
    family: ItemKind,
    mask: u32,
}

impl View for EffectSet {
    type V = Seq<Effect>;

    /// The member effects in catalog order.
    closed spec fn view(&self) -> Seq<Effect> {
        members_below(self.family, self.mask, family_size(self.family) as nat)
    }
}

impl EffectSet {
    #[verifier::type_invariant]
    spec fn well_formed(self) -> bool {
        &&& carries_effects(self.family)
        &&& self.mask != 0
        &&& self.mask >> (family_size(self.family) as u32) == 0
    }

    /// The family whose effects this set draws from.
    pub closed spec fn effect_kind(self) -> ItemKind {
        self.family
    }

    /// Every set is a non-empty, ordered list of effects of its family.
    proof fn lemma_shape(self)
        requires
            self.well_formed(),
        ensures
            carries_effects(self.effect_kind()),
            self@.len() > 0,
            in_catalog_order(self@),
            forall|i: int|
                0 <= i < self@.len() ==> effect_family(#[trigger] self@[i]) == self.effect_kind(),
    {
        self.lemma_contains_bit();
        let n = family_size(self.family) as u32;
        lemma_some_bit(self.mask, n);
        let j = choose|j: u32| j < n && #[trigger] ((self.mask >> j) & 1u32) == 1u32;
        let e = effect_at(self.family, j as u8);
        lemma_effect_positions(self.family, j as u8, e);
        assert(self@.contains(e));
    }

    /// Membership is the set bit at the effect's position.
    proof fn lemma_contains_bit(self)
        requires
            self.well_formed(),
        ensures
            forall|e: Effect|
                self@.contains(e) <==> (effect_family(e) == self.family && has_bit(
                    self.mask,
                    effect_index(e),
                )),
            forall|i: int|
                0 <= i < self@.len() ==> effect_family(#[trigger] self@[i]) == self.family,
            in_catalog_order(self@),
    {
        lemma_members_below(self.family, self.mask, family_size(self.family) as nat);
        assert forall|e: Effect|
            effect_family(e) == self.family && has_bit(self.mask, effect_index(e)) implies self@.contains(e) by {
            lemma_effect_positions(self.family, 0, e);
        }
    }

    /// Builds a set from one effect.
    pub fn single(effect: Effect) -> (set: Self)
        ensures
            set@ == seq![effect],
            set.effect_kind() == effect_family(effect),
    {
        let family = effect.family();
        let index = effect.index();
        proof {
            lemma_effect_positions(family, index, effect);
            lemma_bit_single(index as u32, 0);
            lemma_single_bound(index as u32, family_size(family) as u32);
        }
        let set = EffectSet { family, mask: 1u32 << index };
        proof {
            set.lemma_contains_bit();
            assert forall|j: u8| j < 32 implies (has_bit(set.mask, j) <==> j == index) by {
                lemma_bit_single(index as u32, j as u32);
            }
            set.lemma_shape();
            assert(set@.contains(effect));
            assert forall|i: int| 0 <= i < set@.len() implies set@[i] == effect by {
                let e = set@[i];
                assert(set@.contains(e));
                lemma_effect_positions(family, index, e);
            }
            if set@.len() > 1 {
                assert(effect_index(set@[0]) < effect_index(set@[1]));
            }
            assert(set@ =~= seq![effect]);
        }
        set
    }

    /// Builds a set from effects that must all belong to one family.
    /// Returns `None` for an empty list or mixed families.
    pub fn from_effects(effects: &[Effect]) -> (set: Option<Self>)
        ensures
            set is None <==> (effects@.len() == 0 || exists|i: int|
                0 <= i < effects@.len() && effect_family(#[trigger] effects@[i]) != effect_family(
                    effects@[0],
                )),
            set is Some ==> set.unwrap().effect_kind() == effect_family(effects@[0]) && forall|
                e: Effect,
            | set.unwrap()@.contains(e) <==> effects@.contains(e),
    {
        if effects.len() == 0 {
            return None;
        }
        let first = EffectSet::single(effects[0]);
        let family = first.family;
        let mut mask = first.mask;
        let mut i: usize = 1;
        proof {
            use_type_invariant(&first);
            first.lemma_contains_bit();
            assert(first@[0] == effects@[0]);
            assert(first@.contains(effects@[0]));
        }
        while i < effects.len()
            invariant
                1 <= i <= effects@.len(),
                family == effect_family(effects@[0]),
                carries_effects(family),
                mask != 0,
                mask >> (family_size(family) as u32) == 0,
                forall|j: int| 0 <= j < i ==> effect_family(#[trigger] effects@[j]) == family,
                forall|e: Effect|
                    (effect_family(e) == family && has_bit(mask, effect_index(e))) <==> exists|
                        j: int,
                    | 0 <= j < i && effects@[j] == e,
            decreases effects@.len() - i,
        {
            let effect = effects[i];
            if effect.family() != family {
                return None;
            }
            let index = effect.index();
            let ghost old_mask = mask;
            proof {
                lemma_mask_bounds(mask, mask, index as u32, family_size(family) as u32);
            }
            mask = mask | (1u32 << index);
            proof {
                lemma_bit_or_single(old_mask, index as u32, 0);
                assert forall|e: Effect|
                    (effect_family(e) == family && has_bit(mask, effect_index(e))) <==> exists|
                        j: int,
                    | 0 <= j < i + 1 && effects@[j] == e by {
                    lemma_effect_positions(family, index, e);
                    lemma_effect_positions(family, index, effect);
                    lemma_bit_or_single(old_mask, index as u32, effect_index(e) as u32);
                    if e == effect {
                        assert(effects@[i as int] == e);
                    }
                    if exists|j: int| 0 <= j < i + 1 && effects@[j] == e {
                        let j = choose|j: int| 0 <= j < i + 1 && effects@[j] == e;
                        if j < i {
                            assert(exists|j: int| 0 <= j < i && effects@[j] == e);
                        }
                    }
                }
            }
            i = i + 1;
        }
        let set = EffectSet { family, mask };
        proof {
            set.lemma_contains_bit();
            assert forall|e: Effect| set@.contains(e) <==> effects@.contains(e) by {
                if effects@.contains(e) {
                    let j = choose|j: int| 0 <= j < effects@.len() && effects@[j] == e;
                    assert(exists|j: int| 0 <= j < i && effects@[j] == e);
                }
            }
        }
        Some(set)
    }

    /// Every non-curse enchantment or glyph of the family, or `None` for
    /// families that never carry effects.
    pub fn enchantments(kind: ItemKind) -> (set: Option<Self>)
        ensures
            set is Some <==> carries_effects(kind),
            set is Some ==> set.unwrap().effect_kind() == kind && forall|e: Effect|
                set.unwrap()@.contains(e) <==> (effect_family(e) == kind && !is_curse(e)),
    {
        let mask = match kind {
            ItemKind::Weapon => 0x1FFFFu32,
            ItemKind::Armor => 0x1FFFu32,
            _ => {
                return None;
            },
        };
        proof {
            lemma_bit_positive(0, 0);
            assert(mask != 0) by (bit_vector)
                requires
                    mask == 0x1FFFFu32 || mask == 0x1FFFu32,
            ;
        }
        let set = EffectSet { family: kind, mask };
        proof {
            set.lemma_contains_bit();
            assert forall|e: Effect|
                set@.contains(e) <==> (effect_family(e) == kind && !is_curse(e)) by {
                lemma_effect_positions(kind, 0, e);
                lemma_bit_positive(0, effect_index(e) as u32);
            }
        }
        Some(set)
    }

    /// The item family whose effects this set draws from.
    pub fn family(self) -> (kind: ItemKind)
        ensures
            kind == self.effect_kind(),
    {
        self.family
    }

    /// Whether `effect` is a member.
    pub fn contains(self, effect: Effect) -> (member: bool)
        ensures
            member == self@.contains(effect),
    {
        proof {
            use_type_invariant(&self);
            self.lemma_contains_bit();
            lemma_effect_positions(self.family, 0, effect);
        }
        effect.family() == self.family && (self.mask >> effect.index()) & 1u32 == 1u32
    }

    /// The member effects in catalog order.
    pub fn effects(self) -> (effects: Vec<Effect>)
        ensures
            effects@ == self@,
    {
        proof {
            use_type_invariant(&self);
        }
        let size: u8 = if self.family == ItemKind::Weapon {
            27
        } else {
            21
        };
        let mut effects: Vec<Effect> = Vec::new();
        let mut index: u8 = 0;
        while index < size
            invariant
                carries_effects(self.family),
                size == family_size(self.family),
                index <= size,
                effects@ == members_below(self.family, self.mask, index as nat),
            decreases size - index,
        {
            if (self.mask >> index) & 1u32 == 1u32 {
                effects.push(effect_from_index(self.family, index));
            }
            index = index + 1;
        }
        effects
    }

    /// The subset shared with `other`, or `None` when nothing overlaps.
    pub fn intersection(self, other: Self) -> (shared: Option<Self>)
        ensures
            shared is None <==> (self.effect_kind() != other.effect_kind() || forall|e: Effect|
                !(self@.contains(e) && other@.contains(e))),
            shared is Some ==> shared.unwrap().effect_kind() == self.effect_kind() && forall|
                e: Effect,
            | shared.unwrap()@.contains(e) <==> (self@.contains(e) && other@.contains(e)),
    {
        proof {
            use_type_invariant(&self);
            use_type_invariant(&other);
            self.lemma_contains_bit();
            other.lemma_contains_bit();
        }
        if self.family != other.family {
            return None;
        }
        let mask = self.mask & other.mask;
        let n = Ghost(family_size(self.family) as u32);
        proof {
            lemma_mask_bounds(self.mask, other.mask, 0, n@);
        }
        if mask == 0 {
            proof {
                assert forall|e: Effect| !(self@.contains(e) && other@.contains(e)) by {
                    lemma_effect_positions(self.family, 0, e);
                    lemma_bit_and(self.mask, other.mask, effect_index(e) as u32);
                    let j = effect_index(e) as u32;
                    assert((0u32 >> j) & 1u32 == 0) by (bit_vector);
                }
            }
            return None;
        }
        let set = EffectSet { family: self.family, mask };
        proof {
            set.lemma_contains_bit();
            set.lemma_shape();
            assert forall|e: Effect|
                set@.contains(e) <==> (self@.contains(e) && other@.contains(e)) by {
                lemma_effect_positions(self.family, 0, e);
                lemma_bit_and(self.mask, other.mask, effect_index(e) as u32);
            }
            assert(set@.contains(set@[0]));
        }
        Some(set)
    }

    /// The set without curse-type effects, or `None` when only curses remain.
    pub fn without_curses(self) -> (kept: Option<Self>)
        ensures
            kept is None <==> forall|e: Effect| self@.contains(e) ==> is_curse(e),
            kept is Some ==> kept.unwrap().effect_kind() == self.effect_kind() && forall|e: Effect|
                kept.unwrap()@.contains(e) <==> (self@.contains(e) && !is_curse(e)),
    {
        proof {
            use_type_invariant(&self);
            self.lemma_contains_bit();
        }
        let positives: u32 = if self.family == ItemKind::Weapon {
            0x1FFFFu32
        } else {
            0x1FFFu32
        };
        let mask = self.mask & positives;
        proof {
            lemma_bit_positive(0, 0);
            lemma_mask_bounds(self.mask, positives, 0, family_size(self.family) as u32);
            assert forall|e: Effect|
                effect_family(e) == self.family implies (has_bit(mask, effect_index(e)) <==> (
                has_bit(self.mask, effect_index(e)) && !is_curse(e))) by {
                lemma_effect_positions(self.family, 0, e);
                lemma_bit_positive(self.mask, effect_index(e) as u32);
            }
        }
        if mask == 0 {
            proof {
                assert forall|e: Effect| self@.contains(e) implies is_curse(e) by {
                    lemma_effect_positions(self.family, 0, e);
                    let j = effect_index(e) as u32;
                    assert((0u32 >> j) & 1u32 == 0) by (bit_vector);
                }
            }
            return None;
        }
        let set = EffectSet { family: self.family, mask };
        proof {
            set.lemma_contains_bit();
            set.lemma_shape();
            assert(set@.contains(set@[0]));
        }
        Some(set)
    }

    /// Whether every member is a curse.
    pub fn is_curses_only(self) -> (curses_only: bool)
        ensures
            curses_only == forall|e: Effect| self@.contains(e) ==> is_curse(e),
    {
        self.without_curses().is_none()
    }

    /// Number of members.
    pub fn len(self) -> (count: u32)
        ensures
            count == self@.len(),
    {
        proof {
            use_type_invariant(&self);
        }
        let size: u8 = if self.family == ItemKind::Weapon {
            27
        } else {
            21
        };
        let mut count: u32 = 0;
        let mut index: u8 = 0;
        while index < size
            invariant
                carries_effects(self.family),
                size == family_size(self.family),
                index <= size,
                count == members_below(self.family, self.mask, index as nat).len(),
                count <= index,
            decreases size - index,
        {
            if (self.mask >> index) & 1u32 == 1u32 {
                count = count + 1;
            }
            index = index + 1;
        }
        count
    }

    /// Whether the set has no member; sets built here never are.
    pub fn is_empty(self) -> (empty: bool)
        ensures
            empty == (self@.len() == 0),
    {
        proof {
            use_type_invariant(&self);
            self.lemma_shape();
        }
        self.mask == 0
    }
}

// ---------------------------------------------------------------------------
// Requirements
// ---------------------------------------------------------------------------

/// Effect predicate attached to one item requirement.
#[derive(Clone, Copy, Debug, PartialEq, Eq, Structural)]
pub enum EffectRequirement {
    /// Wildcard: any effect, or none at all.
    Any,
    /// The item must carry one of these effects. "Any enchantment" is the
    /// full non-curse set from [`EffectSet::enchantments`].
    OneOf(EffectSet),
}

/// Whether an item's effect satisfies an effect predicate.
pub open spec fn effect_matches(requirement: EffectRequirement, effect: Option<Effect>) -> bool {
    match requirement {
        EffectRequirement::Any => true,
        EffectRequirement::OneOf(set) => effect is Some && set@.contains(effect.unwrap()),
    }
}

impl EffectRequirement {
    /// Whether an item carrying `effect` satisfies this predicate.
    pub fn matches(self, effect: Option<Effect>) -> (satisfied: bool)
        ensures
            satisfied == effect_matches(self, effect),
    {
        match self {
            EffectRequirement::Any => true,
            EffectRequirement::OneOf(set) => match effect {
                Some(effect) => set.contains(effect),
                None => false,
            },
        }
    }
}

/// Minimum combined upgrade level shared by every requirement in one group.
///
/// All members of a group must be satisfied by distinct items whose upgrade
/// levels sum to at least `minimum_total`, on top of each member's own
/// upgrade predicate. Combine with [`Requirement::identity_group`] to demand
/// copies of the same item, such as two rings of one type totalling +2.
#[derive(Clone, Copy, Debug, PartialEq, Eq, Structural)]
pub struct UpgradeSum {
    /// Non-zero group label shared by the participating requirements.
    pub group: u8,
    /// Inclusive lower bound on the members' combined upgrade levels.
    pub minimum_total: u8,
}

/// One required item. `None` fields are wildcards.
#[derive(Clone, Copy, Debug, PartialEq, Eq, Structural)]
pub struct Requirement {
    pub kind: ItemKind,
    /// Optional melee/thrown narrowing; only meaningful for weapon
    /// requirements. `None` matches both.
    pub weapon_category: Option<WeaponCategory>,
    pub item: Option<ItemId>,
    pub tier: TierRequirement,
    pub upgrade: UpgradeRequirement,
    pub effect: EffectRequirement,
    /// Whether cursed candidate items are ineligible for this requirement.
    pub require_uncursed: bool,
    pub source: Option<ItemSource>,
    /// Requirements in the same non-zero group must resolve to the same item ID.
    pub identity_group: Option<u8>,
    /// Optional inclusive floor limit for this item, independent of the query's
    /// overall generation limit.
    pub max_depth: Option<u8>,
    /// Requirements in the same non-zero group are alternatives: one matching
    /// item satisfies the whole group.
    pub alternative_group: Option<u8>,
    /// Optional combined-upgrade constraint shared with other requirements.
    pub upgrade_sum: Option<UpgradeSum>,
}

/// Whether a world item satisfies every per-item predicate of a requirement.
pub open spec fn requirement_matches(requirement: Requirement, candidate: WorldItem) -> bool {
    &&& (requirement.item is None || requirement.item == Some(candidate.item))
    &&& candidate.item.kind == requirement.kind
    &&& (requirement.weapon_category is None || candidate.item.category
        == requirement.weapon_category)
    &&& tier_matches(requirement.tier, candidate.item.tier)
    &&& upgrade_matches(requirement.upgrade, candidate.upgrade)
    &&& effect_matches(requirement.effect, candidate.effect)
    &&& (!requirement.require_uncursed || !candidate.cursed)
    &&& (requirement.source is None || requirement.source == Some(candidate.source))
}

/// The highest upgrade an item satisfying a requirement can be asked to carry.
pub open spec fn maximum_upgrade_of(requirement: Requirement) -> u8 {
    match requirement.upgrade {
        UpgradeRequirement::Exact(wanted) => wanted,
        _ => max_search_upgrade(requirement.kind),
    }
}

/// Whether the tier predicate is one the search offers: a wildcard, or a
/// non-redundant tier on a wildcard weapon or armor requirement.
pub open spec fn tier_is_valid(requirement: Requirement) -> bool {
    let tierable = requirement.item is None && (requirement.kind == ItemKind::Weapon
        || requirement.kind == ItemKind::Armor);
    match requirement.tier {
        TierRequirement::Any => true,
        TierRequirement::Exact(tier) => tierable && 2 <= tier <= 5,
        TierRequirement::AtLeast(tier) => tierable && 3 <= tier <= 4,
        TierRequirement::AtMost(tier) => tierable && 3 <= tier <= 4,
    }
}

/// Whether the upgrade predicate lies in the family's searchable range.
pub open spec fn upgrade_is_valid(requirement: Requirement) -> bool {
    let maximum = max_search_upgrade(requirement.kind);
    match requirement.upgrade {
        UpgradeRequirement::Any => true,
        UpgradeRequirement::Exact(upgrade) => 1 <= upgrade <= maximum,
        UpgradeRequirement::AtLeast(upgrade) => upgrade <= maximum,
    }
}

/// The first problem that makes a single requirement meaningless, in the
/// order the checks are made.
pub open spec fn requirement_error(requirement: Requirement) -> Option<QueryError> {
    if requirement.item is Some && requirement.item.unwrap().kind != requirement.kind {
        Some(QueryError::ItemKindMismatch)
    } else if requirement.weapon_category is Some && (requirement.kind != ItemKind::Weapon || (
    requirement.item is Some && requirement.item.unwrap().category
        != requirement.weapon_category)) {
        Some(QueryError::InvalidWeaponCategory)
    } else if !tier_is_valid(requirement) {
        Some(QueryError::InvalidTier)
    } else if !upgrade_is_valid(requirement) {
        Some(QueryError::InvalidUpgrade)
    } else if requirement.identity_group == Some(0u8) {
        Some(QueryError::InvalidIdentityGroup)
    } else if requirement.alternative_group == Some(0u8) {
        Some(QueryError::InvalidAlternativeGroup)
    } else if requirement.upgrade_sum is Some && (requirement.upgrade_sum.unwrap().group == 0
        || requirement.upgrade_sum.unwrap().minimum_total == 0) {
        Some(QueryError::InvalidUpgradeSum)
    } else if requirement.alternative_group is Some && requirement.upgrade_sum is Some {
        Some(QueryError::UpgradeSumInsideAlternative)
    } else if requirement.max_depth is Some && !(1 <= requirement.max_depth.unwrap() <= 24) {
        Some(QueryError::InvalidDepth)
    } else if requirement.effect is OneOf && requirement.effect->OneOf_0.effect_kind()
        != requirement.kind {
        Some(QueryError::EffectKindMismatch)
    } else if requirement.require_uncursed && requirement.effect is OneOf && (forall|e: Effect|
        requirement.effect->OneOf_0@.contains(e) ==> is_curse(e)) {
        Some(QueryError::UncursedWithCurse)
    } else {
        None
    }
}

impl Requirement {
    /// Whether `candidate` satisfies every per-item predicate.
    pub fn matches(self, candidate: &WorldItem) -> (satisfied: bool)
        ensures
            satisfied == requirement_matches(self, *candidate),
    {
        self.matching_identity(candidate).is_some()
    }

    /// The item identity `candidate` provides for this requirement, when it
    /// satisfies every predicate.
    pub fn matching_identity(self, candidate: &WorldItem) -> (identity: Option<ItemId>)
        ensures
            identity == (if requirement_matches(self, *candidate) {
                Some(candidate.item)
            } else {
                None
            }),
    {
        let identity = match self.item {
            None => candidate.item,
            Some(wanted) => {
                if wanted == candidate.item {
                    candidate.item
                } else {
                    return None;
                }
            },
        };
        let category_ok = match self.weapon_category {
            None => true,
            Some(wanted) => match identity.weapon_category() {
                Some(category) => category == wanted,
                None => false,
            },
        };
        let source_ok = match self.source {
            None => true,
            Some(wanted) => wanted == candidate.source,
        };
        if identity.kind == self.kind && category_ok && self.tier.matches(identity.tier)
            && self.upgrade.matches(candidate.upgrade) && self.effect.matches(candidate.effect)
            && (!self.require_uncursed || !candidate.cursed) && source_ok {
            Some(identity)
        } else {
            None
        }
    }

    /// The highest upgrade level an item satisfying this requirement can
    /// carry, used to bound combined-upgrade groups.
    pub fn maximum_upgrade(self) -> (maximum: u8)
        ensures
            maximum == maximum_upgrade_of(self),
    {
        match self.upgrade {
            UpgradeRequirement::Exact(wanted) => wanted,
            _ => self.kind.maximum_search_upgrade(),
        }
    }

    /// Checks that an item/effect/upgrade combination is meaningful: the
    /// category matches the named item, melee/thrown filters sit on weapons,
    /// tiers and upgrades lie in the searchable range, group labels are
    /// non-zero and consistent, and an uncursed item is not limited to curses.
    pub fn validate(self) -> (outcome: Result<(), QueryError>)
        ensures
            outcome == (match requirement_error(self) {
                Some(error) => Err(error),
                None => Ok(()),
            }),
    {
        if let Some(item_id) = self.item {
            if item_id.kind != self.kind {
                return Err(QueryError::ItemKindMismatch);
            }
        }
        if let Some(category) = self.weapon_category {
            let mismatched = match self.item {
                Some(item_id) => match item_id.weapon_category() {
                    Some(own) => own != category,
                    None => true,
                },
                None => false,
            };
            if self.kind != ItemKind::Weapon || mismatched {
                return Err(QueryError::InvalidWeaponCategory);
            }
        }
        let tierable = self.item.is_none() && (self.kind == ItemKind::Weapon || self.kind
            == ItemKind::Armor);
        let valid_tier = match self.tier {
            TierRequirement::Any => true,
            TierRequirement::Exact(tier) => tierable && 2 <= tier && tier <= 5,
            TierRequirement::AtLeast(tier) => tierable && 3 <= tier && tier <= 4,
            TierRequirement::AtMost(tier) => tierable && 3 <= tier && tier <= 4,
        };
        if !valid_tier {
            return Err(QueryError::InvalidTier);
        }
        let maximum = self.kind.maximum_search_upgrade();
        let valid_upgrade = match self.upgrade {
            UpgradeRequirement::Any => true,
            UpgradeRequirement::Exact(upgrade) => 1 <= upgrade && upgrade <= maximum,
            UpgradeRequirement::AtLeast(upgrade) => upgrade <= maximum,
        };
        if !valid_upgrade {
            return Err(QueryError::InvalidUpgrade);
        }
        if self.identity_group == Some(0u8) {
            return Err(QueryError::InvalidIdentityGroup);
        }
        if self.alternative_group == Some(0u8) {
            return Err(QueryError::InvalidAlternativeGroup);
        }
        if let Some(sum) = self.upgrade_sum {
            if sum.group == 0 || sum.minimum_total == 0 {
                return Err(QueryError::InvalidUpgradeSum);
            }
        }
        if self.alternative_group.is_some() && self.upgrade_sum.is_some() {
            return Err(QueryError::UpgradeSumInsideAlternative);
        }
        if let Some(depth) = self.max_depth {
            if !(1 <= depth && depth <= 24) {
                return Err(QueryError::InvalidDepth);
            }
        }
        if let EffectRequirement::OneOf(set) = self.effect {
            if set.family() != self.kind {
                return Err(QueryError::EffectKindMismatch);
            }
            if self.require_uncursed && set.is_curses_only() {
                return Err(QueryError::UncursedWithCurse);
            }
        }
        Ok(())
    }
}

// ---------------------------------------------------------------------------
// Errors
// ---------------------------------------------------------------------------

/// Invalid user query.
#[derive(Clone, Copy, Debug, PartialEq, Eq, Structural)]
pub enum QueryError {
    Empty,
    InvalidDepth,
    InvalidUpgrade,
    InvalidTier,
    ItemKindMismatch,
    InvalidWeaponCategory,
    EffectKindMismatch,
    UncursedWithCurse,
    InvalidIdentityGroup,
    InconsistentIdentityGroup,
    InvalidAlternativeGroup,
    InvalidUpgradeSum,
    InconsistentUpgradeSum,
    UnattainableUpgradeSum,
    UpgradeSumInsideAlternative,
}

/// The explanation shown for each error.
pub open spec fn query_error_text(error: QueryError) -> Seq<char> {
    match error {
        QueryError::Empty => "at least one item requirement is needed"@,
        QueryError::InvalidDepth => "maximum depth must be between 1 and 24"@,
        QueryError::InvalidUpgrade => "upgrade must be +1, +2, or +3 (+4 for rings)"@,
        QueryError::InvalidTier => "tier filters require a wildcard weapon or armor and a non-redundant tier"@,
        QueryError::ItemKindMismatch => "selected item is in a different category"@,
        QueryError::InvalidWeaponCategory => "melee/thrown filters require a weapon requirement and a matching item"@,
        QueryError::EffectKindMismatch => "selected enchantment or glyph is inapplicable"@,
        QueryError::UncursedWithCurse => "an uncursed item cannot be limited to curses"@,
        QueryError::InvalidIdentityGroup => "identity group zero is reserved for no group"@,
        QueryError::InconsistentIdentityGroup => "linked item requirements must use the same category and item"@,
        QueryError::InvalidAlternativeGroup => "alternative group zero is reserved for no group"@,
        QueryError::InvalidUpgradeSum => "combined upgrade groups need a non-zero group and total"@,
        QueryError::InconsistentUpgradeSum => "requirements in a combined upgrade group must agree on the total"@,
        QueryError::UnattainableUpgradeSum => "the combined upgrade total exceeds what the group's items can carry"@,
        QueryError::UpgradeSumInsideAlternative => "a combined upgrade group cannot include alternative requirements"@,
    }
}

impl QueryError {
    /// The user-facing explanation of the error.
    pub fn message(self) -> (text: &'static str)
        ensures
            text@ == query_error_text(self),
    {
        match self {
            QueryError::Empty => "at least one item requirement is needed",
            QueryError::InvalidDepth => "maximum depth must be between 1 and 24",
            QueryError::InvalidUpgrade => "upgrade must be +1, +2, or +3 (+4 for rings)",
            QueryError::InvalidTier => "tier filters require a wildcard weapon or armor and a non-redundant tier",
            QueryError::ItemKindMismatch => "selected item is in a different category",
            QueryError::InvalidWeaponCategory => "melee/thrown filters require a weapon requirement and a matching item",
            QueryError::EffectKindMismatch => "selected enchantment or glyph is inapplicable",
            QueryError::UncursedWithCurse => "an uncursed item cannot be limited to curses",
            QueryError::InvalidIdentityGroup => "identity group zero is reserved for no group",
            QueryError::InconsistentIdentityGroup => "linked item requirements must use the same category and item",
            QueryError::InvalidAlternativeGroup => "alternative group zero is reserved for no group",
            QueryError::InvalidUpgradeSum => "combined upgrade groups need a non-zero group and total",
            QueryError::InconsistentUpgradeSum => "requirements in a combined upgrade group must agree on the total",
            QueryError::UnattainableUpgradeSum => "the combined upgrade total exceeds what the group's items can carry",
            QueryError::UpgradeSumInsideAlternative => "a combined upgrade group cannot include alternative requirements",
        }
    }
}

// ---------------------------------------------------------------------------
// Queries
// ---------------------------------------------------------------------------

/// All requirements must be obtainable together in the same generated world.
#[derive(Clone, Debug, PartialEq, Eq)]
pub struct SearchQuery {
    pub requirements: Vec<Requirement>,
    pub max_depth: u8,
    /// Challenge mask used while generating candidate worlds.
    pub challenges: Challenges,
    /// Whether an accessible blacksmith room must exist within `max_depth`.
    pub require_blacksmith: bool,
    /// Whether Blacksmith "Smith" rewards are ineligible to satisfy item
    /// requirements. The room may still be required separately for reforging.
    pub exclude_blacksmith_rewards: bool,
    /// Trades exhaustiveness for speed: +3 weapon/armor requirements are
    /// assumed to come from quest rewards, ignoring the far rarer Crypt and
    /// Sacrificial-fire prizes. Matches are still always genuine.
    pub fast_mode: bool,
}

/// Two members of one identity group that cannot name the same item:
/// alternatives of one slot are never assigned together, so only members
/// outside a shared alternative group must agree on category and item.
pub open spec fn members_disagree(earlier: Requirement, later: Requirement) -> bool {
    &&& !(earlier.alternative_group is Some && earlier.alternative_group
        == later.alternative_group)
    &&& (earlier.kind != later.kind || (earlier.item is Some && later.item is Some
        && earlier.item != later.item))
}

/// Requirement `k` is linked to an earlier requirement it cannot agree with.
pub open spec fn identity_conflict(requirements: Seq<Requirement>, k: int) -> bool {
    requirements[k].identity_group is Some && exists|j: int|
        0 <= j < k && #[trigger] requirements[j].identity_group == requirements[k].identity_group
            && members_disagree(requirements[j], requirements[k])
}

/// Requirement `k` joins a combined-upgrade group with another total.
pub open spec fn sum_conflict(requirements: Seq<Requirement>, k: int) -> bool {
    requirements[k].upgrade_sum is Some && exists|j: int|
        0 <= j < k && (#[trigger] requirements[j].upgrade_sum) is Some
            && requirements[j].upgrade_sum.unwrap().group == requirements[k].upgrade_sum.unwrap().group
            && requirements[j].upgrade_sum.unwrap().minimum_total
            != requirements[k].upgrade_sum.unwrap().minimum_total
}

/// The problem found at requirement `k` of a query.
pub open spec fn entry_error(requirements: Seq<Requirement>, k: int) -> Option<QueryError> {
    match requirement_error(requirements[k]) {
        Some(error) => Some(error),
        None => if identity_conflict(requirements, k) {
            Some(QueryError::InconsistentIdentityGroup)
        } else if sum_conflict(requirements, k) {
            Some(QueryError::InconsistentUpgradeSum)
        } else {
            None
        },
    }
}

/// The first problem among the first `n` requirements.
pub open spec fn prefix_error(requirements: Seq<Requirement>, n: nat) -> Option<QueryError>
    decreases n,
{
    if n == 0 {
        None
    } else {
        match prefix_error(requirements, (n - 1) as nat) {
            Some(error) => Some(error),
            None => entry_error(requirements, n - 1),
        }
    }
}

/// The highest combined upgrade the first `n` requirements of a group can reach.
pub open spec fn reachable_total(requirements: Seq<Requirement>, group: u8, n: nat) -> int
    decreases n,
{
    if n == 0 {
        0
    } else {
        reachable_total(requirements, group, (n - 1) as nat) + if requirements[n - 1].upgrade_sum
            is Some && requirements[n - 1].upgrade_sum.unwrap().group == group {
            maximum_upgrade_of(requirements[n - 1]) as int
        } else {
            0
        }
    }
}

/// Some combined-upgrade group asks more than its members can carry.
pub open spec fn unattainable_sum(requirements: Seq<Requirement>) -> bool {
    exists|k: int|
        0 <= k < requirements.len() && (#[trigger] requirements[k].upgrade_sum) is Some
            && requirements[k].upgrade_sum.unwrap().minimum_total > reachable_total(
            requirements,
            requirements[k].upgrade_sum.unwrap().group,
            requirements.len(),
        )
}

/// Why a query is rejected, if it is.
pub open spec fn query_error(query: SearchQuery) -> Option<QueryError> {
    let requirements = query.requirements@;
    if requirements.len() == 0 {
        Some(QueryError::Empty)
    } else if !(1 <= query.max_depth <= 24) {
        Some(QueryError::InvalidDepth)
    } else {
        match prefix_error(requirements, requirements.len()) {
            Some(error) => Some(error),
            None => if unattainable_sum(requirements) {
                Some(QueryError::UnattainableUpgradeSum)
            } else {
                None
            },
        }
    }
}

/// Once a prefix has an error, every longer prefix reports that error.
proof fn lemma_prefix_error_stable(requirements: Seq<Requirement>, i: nat, n: nat)
    requires
        i <= n,
        prefix_error(requirements, i) is Some,
    ensures
        prefix_error(requirements, n) == prefix_error(requirements, i),
    decreases n - i,
{
    if i < n {
        lemma_prefix_error_stable(requirements, i, (n - 1) as nat);
    }
}

/// Whether two members of an identity group cannot name the same item.
fn disagree(earlier: Requirement, later: Requirement) -> (conflict: bool)
    ensures
        conflict == members_disagree(earlier, later),
{
    let shared_alternative = earlier.alternative_group.is_some() && earlier.alternative_group
        == later.alternative_group;
    let items_differ = match (earlier.item, later.item) {
        (Some(left), Some(right)) => left != right,
        _ => false,
    };
    !shared_alternative && (earlier.kind != later.kind || items_differ)
}

/// The highest combined upgrade the members of a group can reach.
fn group_reachable(requirements: &Vec<Requirement>, group: u8) -> (total: u128)
    ensures
        total == reachable_total(requirements@, group, requirements@.len()),
{
    let mut total: u128 = 0;
    let mut j: usize = 0;
    while j < requirements.len()
        invariant
            j <= requirements@.len(),
            total == reachable_total(requirements@, group, j as nat),
            total <= 255 * j,
        decreases requirements@.len() - j,
    {
        let member = requirements[j];
        if let Some(sum) = member.upgrade_sum {
            if sum.group == group {
                total = total + member.maximum_upgrade() as u128;
            }
        }
        j = j + 1;
    }
    total
}

impl SearchQuery {
    /// Validates bounds and every requirement: a non-empty query within the
    /// main dungeon, each requirement meaningful, linked requirements agreeing
    /// on their item, and combined-upgrade groups consistent and attainable.
    pub fn validate(&self) -> (outcome: Result<(), QueryError>)
        ensures
            outcome == (match query_error(*self) {
                Some(error) => Err(error),
                None => Ok(()),
            }),
    {
        let n = self.requirements.len();
        if n == 0 {
            return Err(QueryError::Empty);
        }
        if !(1 <= self.max_depth && self.max_depth <= 24) {
            return Err(QueryError::InvalidDepth);
        }
        let ghost requirements = self.requirements@;
        let mut i: usize = 0;
        while i < n
            invariant
                i <= n,
                n == requirements.len(),
                requirements == self.requirements@,
                1 <= self.max_depth <= 24,
                prefix_error(requirements, i as nat) is None,
            decreases n - i,
        {
            let requirement = self.requirements[i];
            if let Err(error) = requirement.validate() {
                proof {
                    lemma_prefix_error_stable(requirements, (i + 1) as nat, n as nat);
                }
                return Err(error);
            }
            if let Some(group) = requirement.identity_group {
                let mut j: usize = 0;
                while j < i
                    invariant
                        j <= i < n,
                        n == requirements.len(),
                        requirements == self.requirements@,
                        1 <= self.max_depth <= 24,
                        prefix_error(requirements, i as nat) is None,
                        requirement_error(requirement) is None,
                1 <= self.max_depth <= 24,
                        requirement == requirements[i as int],
                        requirement.identity_group == Some(group),
                        forall|jj: int|
                            0 <= jj < j ==> !(#[trigger] requirements[jj].identity_group
                                == requirement.identity_group && members_disagree(
                                requirements[jj],
                                requirement,
                            )),
                    decreases i - j,
                {
                    let other = self.requirements[j];
                    if other.identity_group == Some(group) && disagree(other, requirement) {
                        proof {
                            assert(requirements[j as int].identity_group
                                == requirements[i as int].identity_group);
                            assert(identity_conflict(requirements, i as int));
                            lemma_prefix_error_stable(requirements, (i + 1) as nat, n as nat);
                        }
                        return Err(QueryError::InconsistentIdentityGroup);
                    }
                    j = j + 1;
                }
            }
            if let Some(sum) = requirement.upgrade_sum {
                let mut j: usize = 0;
                while j < i
                    invariant
                        j <= i < n,
                        n == requirements.len(),
                        requirements == self.requirements@,
                        1 <= self.max_depth <= 24,
                        prefix_error(requirements, i as nat) is None,
                        requirement_error(requirement) is None,
                1 <= self.max_depth <= 24,
                        requirement == requirements[i as int],
                        requirement.upgrade_sum == Some(sum),
                        !identity_conflict(requirements, i as int),
                        forall|jj: int|
                            0 <= jj < j ==> !((#[trigger] requirements[jj].upgrade_sum) is Some
                                && requirements[jj].upgrade_sum.unwrap().group == sum.group
                                && requirements[jj].upgrade_sum.unwrap().minimum_total
                                != sum.minimum_total),
                    decreases i - j,
                {
                    if let Some(other) = self.requirements[j].upgrade_sum {
                        if other.group == sum.group && other.minimum_total != sum.minimum_total {
                            proof {
                                assert(requirements[j as int].upgrade_sum is Some);
                                assert(sum_conflict(requirements, i as int));
                                lemma_prefix_error_stable(requirements, (i + 1) as nat, n as nat);
                            }
                            return Err(QueryError::InconsistentUpgradeSum);
                        }
                    }
                    j = j + 1;
                }
            }
            i = i + 1;
        }
        let mut k: usize = 0;
        while k < n
            invariant
                k <= n,
                n == requirements.len(),
                requirements == self.requirements@,
                1 <= self.max_depth <= 24,
                prefix_error(requirements, n as nat) is None,
                forall|kk: int|
                    0 <= kk < k ==> !((#[trigger] requirements[kk].upgrade_sum) is Some
                        && requirements[kk].upgrade_sum.unwrap().minimum_total > reachable_total(
                        requirements,
                        requirements[kk].upgrade_sum.unwrap().group,
                        requirements.len(),
                    )),
            decreases n - k,
        {
            if let Some(sum) = self.requirements[k].upgrade_sum {
                if sum.minimum_total as u128 > group_reachable(&self.requirements, sum.group) {
                    proof {
                        assert(requirements[k as int].upgrade_sum is Some);
                        assert(unattainable_sum(requirements));
                    }
                    return Err(QueryError::UnattainableUpgradeSum);
                }
            }
            k = k + 1;
        }
        Ok(())
    }
}

// ---------------------------------------------------------------------------
// What a match is
// ---------------------------------------------------------------------------

/// A world item is within reach of a requirement under the query's limits.
pub open spec fn eligible(query: SearchQuery, requirement: Requirement, candidate: WorldItem) -> bool {
    &&& candidate.depth <= query.max_depth
    &&& (requirement.max_depth is None || candidate.depth <= requirement.max_depth.unwrap())
    &&& !(query.exclude_blacksmith_rewards && candidate.source == ItemSource::BlacksmithReward)
    &&& requirement_matches(requirement, candidate)
}

/// Two requirements occupy one slot: they are the same requirement, or
/// alternatives of one group.
pub open spec fn same_slot(requirements: Seq<Requirement>, i: int, j: int) -> bool {
    i == j || (requirements[i].alternative_group is Some && requirements[i].alternative_group
        == requirements[j].alternative_group)
}

/// The scenarios of `group` shared by the items chosen for the first `n`
/// requirements (every scenario when none constrains the group).
pub open spec fn scenario_meet(
    items: Seq<WorldItem>,
    chosen: Seq<Option<usize>>,
    group: u16,
    n: nat,
) -> u64
    decreases n,
{
    if n == 0 {
        0xFFFF_FFFF_FFFF_FFFFu64
    } else {
        let rest = scenario_meet(items, chosen, group, (n - 1) as nat);
        match chosen[n - 1] {
            Some(x) => match scenario_of(items[x as int].accessibility) {
                Some((own, mask)) => if own == group {
                    rest & mask
                } else {
                    rest
                },
                None => rest,
            },
            None => rest,
        }
    }
}

/// Whether a requirement belongs to a combined-upgrade group.
pub open spec fn sum_member(requirement: Requirement, group: u8) -> bool {
    requirement.upgrade_sum is Some && requirement.upgrade_sum.unwrap().group == group
}

/// Members of a combined-upgrade group among the first `n` requirements.
pub open spec fn sum_members(requirements: Seq<Requirement>, group: u8, n: nat) -> nat
    decreases n,
{
    if n == 0 {
        0
    } else {
        sum_members(requirements, group, (n - 1) as nat) + if sum_member(
            requirements[n - 1],
            group,
        ) {
            1nat
        } else {
            0nat
        }
    }
}

/// Members of a group among the first `n` requirements that hold an item.
pub open spec fn sum_assigned(
    requirements: Seq<Requirement>,
    chosen: Seq<Option<usize>>,
    group: u8,
    n: nat,
) -> nat
    decreases n,
{
    if n == 0 {
        0
    } else {
        sum_assigned(requirements, chosen, group, (n - 1) as nat) + if sum_member(
            requirements[n - 1],
            group,
        ) && chosen[n - 1] is Some {
            1nat
        } else {
            0nat
        }
    }
}

/// Combined upgrade of the items held by a group's first `n` requirements.
pub open spec fn sum_total(
    items: Seq<WorldItem>,
    requirements: Seq<Requirement>,
    chosen: Seq<Option<usize>>,
    group: u8,
    n: nat,
) -> nat
    decreases n,
{
    if n == 0 {
        0
    } else {
        sum_total(items, requirements, chosen, group, (n - 1) as nat) + if sum_member(
            requirements[n - 1],
            group,
        ) && chosen[n - 1] is Some {
            items[chosen[n - 1].unwrap() as int].upgrade as nat
        } else {
            0nat
        }
    }
}

/// The total asked of a group: the one its first member names.
pub open spec fn first_minimum(requirements: Seq<Requirement>, group: u8, n: nat) -> nat
    decreases n,
{
    if n == 0 {
        0
    } else if sum_members(requirements, group, (n - 1) as nat) > 0 {
        first_minimum(requirements, group, (n - 1) as nat)
    } else if sum_member(requirements[n - 1], group) {
        requirements[n - 1].upgrade_sum.unwrap().minimum_total as nat
    } else {
        0
    }
}

/// Chosen items satisfy their requirements, no item serves twice, a slot
/// holds at most one item, linked requirements hold the same item, and the
/// items of each branch group share a scenario.
pub open spec fn consistent(
    query: SearchQuery,
    items: Seq<WorldItem>,
    chosen: Seq<Option<usize>>,
) -> bool {
    let requirements = query.requirements@;
    &&& chosen.len() == requirements.len()
    &&& forall|i: int|
        0 <= i < chosen.len() && (#[trigger] chosen[i]) is Some ==> chosen[i].unwrap()
            < items.len() && eligible(query, requirements[i], items[chosen[i].unwrap() as int])
    &&& forall|i: int, j: int|
        0 <= i < chosen.len() && 0 <= j < chosen.len() && i != j && (#[trigger] chosen[i]) is Some
            && (#[trigger] chosen[j]) is Some ==> chosen[i] != chosen[j] && !same_slot(
            requirements,
            i,
            j,
        )
    &&& forall|i: int, j: int|
        0 <= i < chosen.len() && 0 <= j < chosen.len() && (#[trigger] chosen[i]) is Some && (
        #[trigger] chosen[j]) is Some && requirements[i].identity_group is Some
            && requirements[i].identity_group == requirements[j].identity_group
            ==> items[chosen[i].unwrap() as int].item == items[chosen[j].unwrap() as int].item
    &&& forall|group: u16| #[trigger] scenario_meet(items, chosen, group, chosen.len()) != 0
}

/// The slot of requirement `i` holds an item.
pub open spec fn slot_filled(
    requirements: Seq<Requirement>,
    chosen: Seq<Option<usize>>,
    i: int,
) -> bool {
    exists|j: int| 0 <= j < chosen.len() && same_slot(requirements, i, j) && chosen[j] is Some
}

/// Every slot holds an item.
pub open spec fn complete(requirements: Seq<Requirement>, chosen: Seq<Option<usize>>) -> bool {
    forall|i: int| 0 <= i < chosen.len() ==> #[trigger] slot_filled(requirements, chosen, i)
}

/// Every combined-upgrade group reaches its total.
pub open spec fn sums_met(
    items: Seq<WorldItem>,
    requirements: Seq<Requirement>,
    chosen: Seq<Option<usize>>,
) -> bool {
    forall|i: int|
        0 <= i < requirements.len() && (#[trigger] requirements[i].upgrade_sum) is Some
            ==> sum_total(items, requirements, chosen, requirements[i].upgrade_sum.unwrap().group,
            requirements.len()) >= first_minimum(
            requirements,
            requirements[i].upgrade_sum.unwrap().group,
            requirements.len(),
        )
}

/// An assignment of world items to requirements that fulfils the query:
/// `chosen[i]` is the item serving requirement `i`, if any.
pub open spec fn satisfying(
    query: SearchQuery,
    items: Seq<WorldItem>,
    chosen: Seq<Option<usize>>,
) -> bool {
    &&& consistent(query, items, chosen)
    &&& complete(query.requirements@, chosen)
    &&& sums_met(items, query.requirements@, chosen)
}

/// Some assignment of the world's items fulfils every requirement together.
pub open spec fn satisfiable(query: SearchQuery, world: GeneratedWorld) -> bool {
    exists|chosen: Seq<Option<usize>>| satisfying(query, world.items@, chosen)
}

/// A blacksmith reward lies within the query's depth.
pub open spec fn blacksmith_within(query: SearchQuery, items: Seq<WorldItem>) -> bool {
    exists|x: int|
        0 <= x < items.len() && (#[trigger] items[x]).depth <= query.max_depth
            && items[x].source == ItemSource::BlacksmithReward
}

/// No combined-upgrade requirement is an alternative (validation ensures this).
pub open spec fn sums_outside_alternatives(requirements: Seq<Requirement>) -> bool {
    forall|i: int|
        0 <= i < requirements.len() && (#[trigger] requirements[i].upgrade_sum) is Some
            ==> requirements[i].alternative_group is None
}

/// Every world item carries at most the highest generated upgrade.
pub open spec fn upgrades_bounded(items: Seq<WorldItem>) -> bool {
    forall|x: int| 0 <= x < items.len() ==> (#[trigger] items[x]).upgrade <= MAX_ITEM_UPGRADE
}

/// `wider` keeps every choice of `narrower`.
pub open spec fn extends(wider: Seq<Option<usize>>, narrower: Seq<Option<usize>>) -> bool {
    &&& wider.len() == narrower.len()
    &&& forall|i: int| 0 <= i < narrower.len() && (#[trigger] narrower[i]) is Some ==> wider[i]
        == narrower[i]
}

// ---------------------------------------------------------------------------
// Facts about the folds
// ---------------------------------------------------------------------------

proof fn lemma_same_slot(requirements: Seq<Requirement>, i: int, j: int, k: int)
    ensures
        same_slot(requirements, i, i),
        same_slot(requirements, i, j) ==> same_slot(requirements, j, i),
        same_slot(requirements, i, j) && same_slot(requirements, j, k) ==> same_slot(
            requirements,
            i,
            k,
        ),
{
}

proof fn lemma_and_facts(a: u64, b: u64, m: u64)
    by (bit_vector)
    ensures
        (a & m) & b == (a & b) & m,
        a & b == a ==> (a & m) & (b & m) == a & m,
        a & b == a ==> (a & m) & b == a & m,
        a & 0xFFFF_FFFF_FFFF_FFFFu64 == a,
        a & b == a && a != 0 ==> b != 0,
        a & a == a,
{
}

/// Choosing item `x` for an unassigned requirement `r` narrows the shared
/// scenarios of `x`'s group by its mask and leaves other groups alone.
proof fn lemma_meet_update(
    items: Seq<WorldItem>,
    chosen: Seq<Option<usize>>,
    r: int,
    x: usize,
    group: u16,
    n: nat,
)
    requires
        0 <= r < chosen.len(),
        n <= chosen.len(),
        chosen[r] is None,
    ensures
        scenario_meet(items, chosen.update(r, Some(x)), group, n) == (if r < n && scenario_of(
            items[x as int].accessibility,
        ) is Some && scenario_of(items[x as int].accessibility).unwrap().0 == group {
            scenario_meet(items, chosen, group, n) & scenario_of(
                items[x as int].accessibility,
            ).unwrap().1
        } else {
            scenario_meet(items, chosen, group, n)
        }),
    decreases n,
{
    if n > 0 {
        lemma_meet_update(items, chosen, r, x, group, (n - 1) as nat);
        let rest = scenario_meet(items, chosen, group, (n - 1) as nat);
        match scenario_of(items[x as int].accessibility) {
            Some((own, mask)) => {
                if let Some(y) = chosen[n - 1] {
                    if let Some((o2, m2)) = scenario_of(items[y as int].accessibility) {
                        lemma_and_facts(rest, m2, mask);
                    }
                }
            },
            None => {},
        }
    }
}

/// Choices added on top of `narrower` only narrow the shared scenarios.
proof fn lemma_meet_extends(
    items: Seq<WorldItem>,
    wider: Seq<Option<usize>>,
    narrower: Seq<Option<usize>>,
    group: u16,
    n: nat,
)
    requires
        extends(wider, narrower),
        n <= wider.len(),
    ensures
        scenario_meet(items, wider, group, n) & scenario_meet(items, narrower, group, n)
            == scenario_meet(items, wider, group, n),
    decreases n,
{
    if n == 0 {
        lemma_and_facts(0xFFFF_FFFF_FFFF_FFFFu64, 0, 0);
    } else {
        lemma_meet_extends(items, wider, narrower, group, (n - 1) as nat);
        let a = scenario_meet(items, wider, group, (n - 1) as nat);
        let b = scenario_meet(items, narrower, group, (n - 1) as nat);
        if let Some(x) = wider[n - 1] {
            if let Some((own, mask)) = scenario_of(items[x as int].accessibility) {
                lemma_and_facts(a, b, mask);
            }
        }
    }
}

/// Choosing item `x` for an unassigned requirement `r` of a group adds one
/// assigned member and its upgrade; other groups are unchanged.
proof fn lemma_sums_update(
    items: Seq<WorldItem>,
    requirements: Seq<Requirement>,
    chosen: Seq<Option<usize>>,
    r: int,
    x: usize,
    group: u8,
    n: nat,
)
    requires
        0 <= r < chosen.len(),
        n <= chosen.len(),
        chosen.len() == requirements.len(),
        chosen[r] is None,
    ensures
        sum_assigned(requirements, chosen.update(r, Some(x)), group, n) == sum_assigned(
            requirements,
            chosen,
            group,
            n,
        ) + if r < n && sum_member(requirements[r], group) {
            1nat
        } else {
            0nat
        },
        sum_total(items, requirements, chosen.update(r, Some(x)), group, n) == sum_total(
            items,
            requirements,
            chosen,
            group,
            n,
        ) + if r < n && sum_member(requirements[r], group) {
            items[x as int].upgrade as nat
        } else {
            0nat
        },
    decreases n,
{
    if n > 0 {
        lemma_sums_update(items, requirements, chosen, r, x, group, (n - 1) as nat);
    }
}

/// Bounds on the group folds.
proof fn lemma_sums_bounded(
    items: Seq<WorldItem>,
    requirements: Seq<Requirement>,
    chosen: Seq<Option<usize>>,
    group: u8,
    n: nat,
)
    requires
        n <= chosen.len(),
        chosen.len() == requirements.len(),
    ensures
        sum_assigned(requirements, chosen, group, n) <= sum_members(requirements, group, n),
        sum_members(requirements, group, n) <= n,
        sum_total(items, requirements, chosen, group, n) <= 255 * n,
    decreases n,
{
    if n > 0 {
        lemma_sums_bounded(items, requirements, chosen, group, (n - 1) as nat);
    }
}

/// A wider assignment holds at most the highest upgrade on each extra member.
proof fn lemma_sums_extends(
    items: Seq<WorldItem>,
    requirements: Seq<Requirement>,
    wider: Seq<Option<usize>>,
    narrower: Seq<Option<usize>>,
    group: u8,
    n: nat,
)
    requires
        extends(wider, narrower),
        n <= wider.len(),
        wider.len() == requirements.len(),
        forall|i: int|
            0 <= i < wider.len() && (#[trigger] wider[i]) is Some ==> wider[i].unwrap()
                < items.len(),
        upgrades_bounded(items),
    ensures
        sum_total(items, requirements, wider, group, n) <= sum_total(
            items,
            requirements,
            narrower,
            group,
            n,
        ) + MAX_ITEM_UPGRADE * (sum_assigned(requirements, wider, group, n) - sum_assigned(
            requirements,
            narrower,
            group,
            n,
        )),
        sum_assigned(requirements, narrower, group, n) <= sum_assigned(
            requirements,
            wider,
            group,
            n,
        ),
    decreases n,
{
    if n > 0 {
        lemma_sums_extends(items, requirements, wider, narrower, group, (n - 1) as nat);
        if wider[n - 1] is Some {
            let x = wider[n - 1].unwrap();
            assert(items[x as int].upgrade <= MAX_ITEM_UPGRADE);
        }
    }
}

// ---------------------------------------------------------------------------
// Slots
// ---------------------------------------------------------------------------

/// Some slot leader shares requirement `i`'s slot.
pub open spec fn covered(requirements: Seq<Requirement>, leaders: Seq<usize>, i: int) -> bool {
    exists|s: int| 0 <= s < leaders.len() && same_slot(requirements, leaders[s] as int, i)
}

/// `leaders` names one requirement of every slot, each slot once.
pub open spec fn leaders_cover(requirements: Seq<Requirement>, leaders: Seq<usize>) -> bool {
    &&& forall|s: int| 0 <= s < leaders.len() ==> (#[trigger] leaders[s]) < requirements.len()
    &&& forall|s: int, t: int|
        0 <= s < leaders.len() && 0 <= t < leaders.len() && s != t ==> !same_slot(
            requirements,
            #[trigger] leaders[s] as int,
            #[trigger] leaders[t] as int,
        )
    &&& forall|i: int| 0 <= i < requirements.len() ==> #[trigger] covered(requirements, leaders, i)
}

/// `candidates[s]` lists exactly the eligible (item, requirement) pairs of
/// slot `s`.
pub open spec fn candidates_exact(
    query: SearchQuery,
    items: Seq<WorldItem>,
    leaders: Seq<usize>,
    candidates: Seq<Vec<(usize, usize)>>,
) -> bool {
    let requirements = query.requirements@;
    &&& candidates.len() == leaders.len()
    &&& forall|s: int, c: int|
        0 <= s < candidates.len() && 0 <= c < candidates[s]@.len() ==> {
            let (x, r) = #[trigger] candidates[s]@[c];
            &&& x < items.len()
            &&& r < requirements.len()
            &&& same_slot(requirements, leaders[s] as int, r as int)
            &&& eligible(query, requirements[r as int], items[x as int])
        }
    &&& forall|s: int, r: int, x: int|
        0 <= s < candidates.len() && 0 <= r < requirements.len() && 0 <= x < items.len()
            && same_slot(requirements, leaders[s] as int, r) && eligible(
            query,
            #[trigger] requirements[r],
            #[trigger] items[x],
        ) ==> (#[trigger] candidates[s]@).contains((x as usize, r as usize))
}

/// `order` visits every slot exactly once.
pub open spec fn visits_each(order: Seq<usize>, n: nat) -> bool {
    &&& forall|t: int| 0 <= t < order.len() ==> (#[trigger] order[t]) < n
    &&& forall|t: int, u: int|
        0 <= t < order.len() && 0 <= u < order.len() && t != u ==> #[trigger] order[t]
            != #[trigger] order[u]
    &&& forall|s: usize| s < n ==> #[trigger] order.contains(s)
}

/// A world item is within reach of a requirement under the query's limits.
fn eligible_for(query: &SearchQuery, requirement: Requirement, candidate: &WorldItem) -> (within: bool)
    ensures
        within == eligible(*query, requirement, *candidate),
{
    let depth_ok = candidate.depth <= query.max_depth && match requirement.max_depth {
        Some(limit) => candidate.depth <= limit,
        None => true,
    };
    let source_ok = !(query.exclude_blacksmith_rewards && candidate.source
        == ItemSource::BlacksmithReward);
    depth_ok && source_ok && requirement.matches(candidate)
}

/// Whether requirements `i` and `j` occupy one slot.
fn shares_slot(requirements: &Vec<Requirement>, i: usize, j: usize) -> (shared: bool)
    requires
        i < requirements@.len(),
        j < requirements@.len(),
    ensures
        shared == same_slot(requirements@, i as int, j as int),
{
    if i == j {
        return true;
    }
    match requirements[i].alternative_group {
        Some(group) => requirements[j].alternative_group == Some(group),
        None => false,
    }
}

/// The first requirement of every slot, in requirement order: alternatives
/// of one group share the slot of the group's first member.
fn slot_leaders(requirements: &Vec<Requirement>) -> (leaders: Vec<usize>)
    ensures
        leaders_cover(requirements@, leaders@),
{
    let ghost reqs = requirements@;
    let mut leaders: Vec<usize> = Vec::new();
    let mut i: usize = 0;
    while i < requirements.len()
        invariant
            i <= reqs.len(),
            reqs == requirements@,
            forall|s: int| 0 <= s < leaders@.len() ==> (#[trigger] leaders@[s]) < i,
            forall|s: int, t: int|
                0 <= s < leaders@.len() && 0 <= t < leaders@.len() && s != t ==> !same_slot(
                    reqs,
                    #[trigger] leaders@[s] as int,
                    #[trigger] leaders@[t] as int,
                ),
            forall|k: int| 0 <= k < i ==> #[trigger] covered(reqs, leaders@, k),
        decreases reqs.len() - i,
    {
        let mut earlier: Option<usize> = None;
        if let Some(group) = requirements[i].alternative_group {
            let mut j: usize = 0;
            while j < i
                invariant
                    j <= i < reqs.len(),
                    reqs == requirements@,
                    reqs[i as int].alternative_group == Some(group),
                    earlier is Some ==> earlier.unwrap() < i && same_slot(
                        reqs,
                        earlier.unwrap() as int,
                        i as int,
                    ),
                    earlier is None ==> forall|k: int|
                        0 <= k < j ==> (#[trigger] reqs[k]).alternative_group != Some(group),
                decreases i - j,
            {
                if earlier.is_none() && requirements[j].alternative_group == Some(group) {
                    earlier = Some(j);
                }
                j = j + 1;
            }
        }
        let ghost before = leaders@;
        match earlier {
            Some(j) => {
                proof {
                    assert(covered(reqs, leaders@, j as int));
                    let s = choose|s: int|
                        0 <= s < leaders@.len() && same_slot(reqs, leaders@[s] as int, j as int);
                    lemma_same_slot(reqs, leaders@[s] as int, j as int, i as int);
                    assert(covered(reqs, leaders@, i as int));
                }
            },
            None => {
                leaders.push(i);
                proof {
                    assert forall|s: int, t: int|
                        0 <= s < leaders@.len() && 0 <= t < leaders@.len() && s != t implies !same_slot(
                        reqs,
                        #[trigger] leaders@[s] as int,
                        #[trigger] leaders@[t] as int,
                    ) by {
                        if t == before.len() {
                            lemma_same_slot(reqs, leaders@[s] as int, i as int, 0);
                        }
                        if s == before.len() {
                            lemma_same_slot(reqs, i as int, leaders@[t] as int, 0);
                        }
                    }
                    assert forall|k: int| 0 <= k < i + 1 implies #[trigger] covered(
                        reqs,
                        leaders@,
                        k,
                    ) by {
                        if k == i {
                            assert(leaders@[before.len() as int] == i);
                            lemma_same_slot(reqs, i as int, i as int, 0);
                        } else {
                            assert(covered(reqs, before, k));
                            let s = choose|s: int|
                                0 <= s < before.len() && same_slot(reqs, before[s] as int, k);
                            assert(leaders@[s] == before[s]);
                        }
                    }
                }
            },
        }
        i = i + 1;
    }
    leaders
}

/// The eligible (item, requirement) pairs of every slot, by requirement then
/// by item.
fn slot_candidates(query: &SearchQuery, items: &Vec<WorldItem>, leaders: &Vec<usize>) -> (candidates: Vec<Vec<(usize, usize)>>)
    requires
        leaders_cover(query.requirements@, leaders@),
    ensures
        candidates_exact(*query, items@, leaders@, candidates@),
{
    let ghost reqs = query.requirements@;
    let mut candidates: Vec<Vec<(usize, usize)>> = Vec::new();
    let mut s: usize = 0;
    while s < leaders.len()
        invariant
            s <= leaders@.len(),
            reqs == query.requirements@,
            leaders_cover(reqs, leaders@),
            candidates@.len() == s,
            forall|t: int, c: int|
                0 <= t < candidates@.len() && 0 <= c < candidates@[t]@.len() ==> {
                    let (x, r) = #[trigger] candidates@[t]@[c];
                    &&& x < items@.len()
                    &&& r < reqs.len()
                    &&& same_slot(reqs, leaders@[t] as int, r as int)
                    &&& eligible(*query, reqs[r as int], items@[x as int])
                },
            forall|t: int, r: int, x: int|
                0 <= t < candidates@.len() && 0 <= r < reqs.len() && 0 <= x < items@.len()
                    && same_slot(reqs, leaders@[t] as int, r) && eligible(
                    *query,
                    #[trigger] reqs[r],
                    #[trigger] items@[x],
                ) ==> (#[trigger] candidates@[t]@).contains((x as usize, r as usize)),
        decreases leaders@.len() - s,
    {
        let leader = leaders[s];
        let mut slot: Vec<(usize, usize)> = Vec::new();
        let mut r: usize = 0;
        while r < query.requirements.len()
            invariant
                r <= reqs.len(),
                s < leaders@.len(),
                leader == leaders@[s as int],
                leader < reqs.len(),
                reqs == query.requirements@,
                forall|c: int|
                    0 <= c < slot@.len() ==> {
                        let (x, rr) = #[trigger] slot@[c];
                        &&& x < items@.len()
                        &&& rr < reqs.len()
                        &&& same_slot(reqs, leader as int, rr as int)
                        &&& eligible(*query, reqs[rr as int], items@[x as int])
                    },
                forall|rr: int, x: int|
                    0 <= rr < r && 0 <= x < items@.len() && same_slot(reqs, leader as int, rr)
                        && eligible(*query, #[trigger] reqs[rr], #[trigger] items@[x]) ==> slot@.contains(
                        (x as usize, rr as usize),
                    ),
            decreases reqs.len() - r,
        {
            if shares_slot(&query.requirements, leader, r) {
                let requirement = query.requirements[r];
                let mut x: usize = 0;
                while x < items.len()
                    invariant
                        x <= items@.len(),
                        r < reqs.len(),
                        leader < reqs.len(),
                        reqs == query.requirements@,
                        requirement == reqs[r as int],
                        same_slot(reqs, leader as int, r as int),
                        forall|c: int|
                            0 <= c < slot@.len() ==> {
                                let (xx, rr) = #[trigger] slot@[c];
                                &&& xx < items@.len()
                                &&& rr < reqs.len()
                                &&& same_slot(reqs, leader as int, rr as int)
                                &&& eligible(*query, reqs[rr as int], items@[xx as int])
                            },
                        forall|rr: int, xx: int|
                            0 <= rr < r && 0 <= xx < items@.len() && same_slot(
                                reqs,
                                leader as int,
                                rr,
                            ) && eligible(*query, #[trigger] reqs[rr], #[trigger] items@[xx])
                                ==> slot@.contains((xx as usize, rr as usize)),
                        forall|xx: int|
                            0 <= xx < x && eligible(*query, reqs[r as int], #[trigger] items@[xx])
                                ==> slot@.contains((xx as usize, r)),
                    decreases items@.len() - x,
                {
                    let ghost before = slot@;
                    if eligible_for(query, requirement, &items[x]) {
                        slot.push((x, r));
                        proof {
                            assert(slot@[before.len() as int] == (x, r));
                            assert forall|rr: int, xx: int|
                                0 <= rr < r && 0 <= xx < items@.len() && same_slot(
                                    reqs,
                                    leader as int,
                                    rr,
                                ) && eligible(*query, #[trigger] reqs[rr], #[trigger] items@[xx])
                                    implies slot@.contains((xx as usize, rr as usize)) by {
                                assert(before.contains((xx as usize, rr as usize)));
                                let c = choose|c: int|
                                    0 <= c < before.len() && before[c] == (xx as usize, rr as usize);
                                assert(slot@[c] == before[c]);
                            }
                            assert forall|xx: int|
                                0 <= xx < x + 1 && eligible(
                                    *query,
                                    reqs[r as int],
                                    #[trigger] items@[xx],
                                ) implies slot@.contains((xx as usize, r)) by {
                                if xx < x {
                                    assert(before.contains((xx as usize, r)));
                                    let c = choose|c: int|
                                        0 <= c < before.len() && before[c] == (xx as usize, r);
                                    assert(slot@[c] == before[c]);
                                }
                            }
                        }
                    }
                    x = x + 1;
                }
            }
            r = r + 1;
        }
        candidates.push(slot);
        s = s + 1;
    }
    candidates
}

/// The slots in increasing order of candidate count, ties in slot order, so
/// that the most constrained slot is assigned first.
fn slot_order(candidates: &Vec<Vec<(usize, usize)>>) -> (order: Vec<usize>)
    ensures
        visits_each(order@, candidates@.len()),
{
    let n = candidates.len();
    let mut longest: usize = 0;
    let mut s: usize = 0;
    while s < n
        invariant
            s <= n,
            n == candidates@.len(),
            forall|t: int| 0 <= t < s ==> (#[trigger] candidates@[t])@.len() <= longest,
        decreases n - s,
    {
        if candidates[s].len() > longest {
            longest = candidates[s].len();
        }
        s = s + 1;
    }
    let mut order: Vec<usize> = Vec::new();
    let mut length: usize = 0;
    loop
        invariant_except_break
            forall|t: int| 0 <= t < n ==> (order@.contains(t as usize) <==> (
            #[trigger] candidates@[t])@.len() < length),
        invariant
            n == candidates@.len(),
            length <= longest,
            forall|t: int| 0 <= t < n ==> (#[trigger] candidates@[t])@.len() <= longest,
            forall|u: int| 0 <= u < order@.len() ==> (#[trigger] order@[u]) < n,
            forall|u: int, v: int|
                0 <= u < order@.len() && 0 <= v < order@.len() && u != v ==> #[trigger] order@[u]
                    != #[trigger] order@[v],
        ensures
            forall|u: int| 0 <= u < order@.len() ==> (#[trigger] order@[u]) < n,
            forall|u: int, v: int|
                0 <= u < order@.len() && 0 <= v < order@.len() && u != v ==> #[trigger] order@[u]
                    != #[trigger] order@[v],
            forall|t: int| 0 <= t < n ==> (order@.contains(t as usize) <==> (
            #[trigger] candidates@[t])@.len() <= longest),
        decreases longest - length,
    {
        let mut s: usize = 0;
        while s < n
            invariant
                s <= n,
                n == candidates@.len(),
                length <= longest,
                forall|u: int| 0 <= u < order@.len() ==> (#[trigger] order@[u]) < n,
                forall|u: int, v: int|
                    0 <= u < order@.len() && 0 <= v < order@.len() && u != v ==> #[trigger] order@[u]
                        != #[trigger] order@[v],
                forall|t: int|
                    0 <= t < n ==> (order@.contains(t as usize) <==> ((
                    #[trigger] candidates@[t])@.len() < length || (candidates@[t]@.len() == length
                        && t < s))),
            decreases n - s,
        {
            if candidates[s].len() == length {
                let ghost before = order@;
                assert(!before.contains(s));
                order.push(s);
                proof {
                    assert forall|t: int|
                        0 <= t < n implies (order@.contains(t as usize) <==> ((
                        #[trigger] candidates@[t])@.len() < length || (candidates@[t]@.len()
                            == length && t < s + 1))) by {
                        if before.contains(t as usize) {
                            let u = choose|u: int| 0 <= u < before.len() && before[u] == t as usize;
                            assert(order@[u] == t as usize);
                        }
                        if t == s {
                            assert(order@[before.len() as int] == s);
                        }
                        if order@.contains(t as usize) && t != s {
                            let u = choose|u: int| 0 <= u < order@.len() && order@[u] == t as usize;
                            assert(u < before.len());
                            assert(before.contains(t as usize));
                        }
                    }
                }
            }
            s = s + 1;
        }
        if length == longest {
            break;
        }
        length = length + 1;
    }
    proof {
        assert forall|t: usize| t < n implies #[trigger] order@.contains(t) by {
            assert(candidates@[t as int]@.len() <= longest);
        }
    }
    order
}

/// Whether a blacksmith reward lies within the query's depth.
fn has_blacksmith_within(query: &SearchQuery, items: &Vec<WorldItem>) -> (found: bool)
    ensures
        found == blacksmith_within(*query, items@),
{
    let mut x: usize = 0;
    while x < items.len()
        invariant
            x <= items@.len(),
            forall|y: int|
                0 <= y < x ==> !((#[trigger] items@[y]).depth <= query.max_depth
                    && items@[y].source == ItemSource::BlacksmithReward),
        decreases items@.len() - x,
    {
        if items[x].depth <= query.max_depth && items[x].source == ItemSource::BlacksmithReward {
            assert(items@[x as int].depth <= query.max_depth);
            return true;
        }
        x = x + 1;
    }
    false
}

// ---------------------------------------------------------------------------
// Placing one item
// ---------------------------------------------------------------------------

/// Every chosen item is an item of the world.
pub open spec fn in_range(items: Seq<WorldItem>, chosen: Seq<Option<usize>>) -> bool {
    forall|j: int| 0 <= j < chosen.len() && (#[trigger] chosen[j]) is Some ==> chosen[j].unwrap()
        < items.len()
}

/// Choosing `x` for requirement `r` can still complete `r`'s combined-upgrade
/// group, even if every member left takes the highest generated upgrade.
pub open spec fn sum_within_reach(
    items: Seq<WorldItem>,
    requirements: Seq<Requirement>,
    chosen: Seq<Option<usize>>,
    r: int,
    x: usize,
) -> bool {
    match requirements[r].upgrade_sum {
        None => true,
        Some(sum) => {
            let n = requirements.len();
            let assigned = sum_assigned(requirements, chosen, sum.group, n) + 1;
            let total = sum_total(items, requirements, chosen, sum.group, n)
                + items[x as int].upgrade;
            let members = sum_members(requirements, sum.group, n);
            let remaining = if members >= assigned {
                members - assigned
            } else {
                0
            };
            total + MAX_ITEM_UPGRADE * remaining >= first_minimum(requirements, sum.group, n)
        },
    }
}

/// Item `x` may serve requirement `r` next to the items already chosen: it is
/// unused, agrees with `r`'s linked requirements, shares a scenario with its
/// branch group, and keeps `r`'s combined-upgrade group within reach.
pub open spec fn admissible(
    query: SearchQuery,
    items: Seq<WorldItem>,
    chosen: Seq<Option<usize>>,
    r: int,
    x: usize,
) -> bool {
    let requirements = query.requirements@;
    &&& forall|j: int| 0 <= j < chosen.len() ==> #[trigger] chosen[j] != Some(x)
    &&& forall|j: int|
        0 <= j < chosen.len() && (#[trigger] chosen[j]) is Some
            && requirements[r].identity_group is Some && requirements[j].identity_group
            == requirements[r].identity_group ==> items[chosen[j].unwrap() as int].item
            == items[x as int].item
    &&& match scenario_of(items[x as int].accessibility) {
        Some((group, mask)) => scenario_meet(items, chosen, group, chosen.len()) & mask != 0,
        None => true,
    }
    &&& sum_within_reach(items, requirements, chosen, r, x)
}

/// Whether no requirement holds item `x` yet.
fn item_free(chosen: &Vec<Option<usize>>, x: usize) -> (free: bool)
    ensures
        free == forall|j: int| 0 <= j < chosen@.len() ==> #[trigger] chosen@[j] != Some(x),
{
    let mut j: usize = 0;
    while j < chosen.len()
        invariant
            j <= chosen@.len(),
            forall|k: int| 0 <= k < j ==> #[trigger] chosen@[k] != Some(x),
        decreases chosen@.len() - j,
    {
        if chosen[j] == Some(x) {
            return false;
        }
        j = j + 1;
    }
    true
}

/// Whether item `x` names the same item as every chosen member of `r`'s
/// identity group.
fn identity_agrees(
    query: &SearchQuery,
    items: &Vec<WorldItem>,
    chosen: &Vec<Option<usize>>,
    r: usize,
    x: usize,
) -> (agrees: bool)
    requires
        r < query.requirements@.len(),
        x < items@.len(),
        chosen@.len() == query.requirements@.len(),
        in_range(items@, chosen@),
    ensures
        agrees == forall|j: int|
            0 <= j < chosen@.len() && (#[trigger] chosen@[j]) is Some
                && query.requirements@[r as int].identity_group is Some
                && query.requirements@[j].identity_group
                == query.requirements@[r as int].identity_group
                ==> items@[chosen@[j].unwrap() as int].item == items@[x as int].item,
{
    let group = match query.requirements[r].identity_group {
        Some(group) => group,
        None => {
            return true;
        },
    };
    let mut j: usize = 0;
    while j < chosen.len()
        invariant
            j <= chosen@.len(),
            r < query.requirements@.len(),
            x < items@.len(),
            chosen@.len() == query.requirements@.len(),
            in_range(items@, chosen@),
            query.requirements@[r as int].identity_group == Some(group),
            forall|k: int|
                0 <= k < j && (#[trigger] chosen@[k]) is Some
                    && query.requirements@[k].identity_group == Some(group)
                    ==> items@[chosen@[k].unwrap() as int].item == items@[x as int].item,
        decreases chosen@.len() - j,
    {
        if let Some(y) = chosen[j] {
            if query.requirements[j].identity_group == Some(group) && items[y].item != items[x].item {
                return false;
            }
        }
        j = j + 1;
    }
    true
}

/// The scenarios of `group` shared by every chosen item.
fn shared_scenarios(items: &Vec<WorldItem>, chosen: &Vec<Option<usize>>, group: u16) -> (meet: u64)
    requires
        in_range(items@, chosen@),
    ensures
        meet == scenario_meet(items@, chosen@, group, chosen@.len()),
{
    let mut meet: u64 = 0xFFFF_FFFF_FFFF_FFFFu64;
    let mut j: usize = 0;
    while j < chosen.len()
        invariant
            j <= chosen@.len(),
            in_range(items@, chosen@),
            meet == scenario_meet(items@, chosen@, group, j as nat),
        decreases chosen@.len() - j,
    {
        if let Some(y) = chosen[j] {
            if let Some((own, mask)) = items[y].accessibility.scenario_constraint() {
                if own == group {
                    meet = meet & mask;
                }
            }
        }
        j = j + 1;
    }
    meet
}

/// Members, assigned members, their combined upgrade, and the asked total of
/// a combined-upgrade group.
fn group_progress(
    query: &SearchQuery,
    items: &Vec<WorldItem>,
    chosen: &Vec<Option<usize>>,
    group: u8,
) -> (progress: (u64, u64, u128, u64))
    requires
        chosen@.len() == query.requirements@.len(),
        in_range(items@, chosen@),
    ensures
        progress.0 == sum_members(query.requirements@, group, chosen@.len()),
        progress.1 == sum_assigned(query.requirements@, chosen@, group, chosen@.len()),
        progress.2 == sum_total(items@, query.requirements@, chosen@, group, chosen@.len()),
        progress.3 == first_minimum(query.requirements@, group, chosen@.len()),
{
    let ghost reqs = query.requirements@;
    let mut members: u64 = 0;
    let mut assigned: u64 = 0;
    let mut total: u128 = 0;
    let mut minimum: u64 = 0;
    let mut j: usize = 0;
    while j < chosen.len()
        invariant
            j <= chosen@.len(),
            reqs == query.requirements@,
            chosen@.len() == reqs.len(),
            in_range(items@, chosen@),
            members == sum_members(reqs, group, j as nat),
            assigned == sum_assigned(reqs, chosen@, group, j as nat),
            total == sum_total(items@, reqs, chosen@, group, j as nat),
            minimum == first_minimum(reqs, group, j as nat),
            members <= j,
            total <= 255 * j,
        decreases chosen@.len() - j,
    {
        proof {
            lemma_sums_bounded(items@, reqs, chosen@, group, j as nat);
        }
        if let Some(sum) = query.requirements[j].upgrade_sum {
            if sum.group == group {
                if members == 0 {
                    minimum = sum.minimum_total as u64;
                }
                members = members + 1;
                if let Some(y) = chosen[j] {
                    assigned = assigned + 1;
                    total = total + items[y].upgrade as u128;
                }
            }
        }
        j = j + 1;
    }
    (members, assigned, total, minimum)
}

/// Whether item `x` may serve requirement `r` next to the items already chosen.
fn admits(
    query: &SearchQuery,
    items: &Vec<WorldItem>,
    chosen: &Vec<Option<usize>>,
    r: usize,
    x: usize,
) -> (admitted: bool)
    requires
        r < query.requirements@.len(),
        x < items@.len(),
        chosen@.len() == query.requirements@.len(),
        in_range(items@, chosen@),
    ensures
        admitted == admissible(*query, items@, chosen@, r as int, x),
{
    if !item_free(chosen, x) {
        return false;
    }
    if !identity_agrees(query, items, chosen, r, x) {
        return false;
    }
    if let Some((group, mask)) = items[x].accessibility.scenario_constraint() {
        if shared_scenarios(items, chosen, group) & mask == 0 {
            return false;
        }
    }
    if let Some(sum) = query.requirements[r].upgrade_sum {
        let (members, assigned, total, minimum) = group_progress(query, items, chosen, sum.group);
        let n = chosen.len();
        proof {
            lemma_sums_bounded(items@, query.requirements@, chosen@, sum.group, chosen@.len());
            assert(total <= 255 * n);
        }
        let total = total + items[x].upgrade as u128;
        let remaining: u64 = if members > assigned {
            members - assigned - 1
        } else {
            0
        };
        if total + 4 * (remaining as u128) < minimum as u128 {
            return false;
        }
    }
    true
}

// ---------------------------------------------------------------------------
// The search
// ---------------------------------------------------------------------------

/// The slots of a query against one world: leaders, exact candidate lists,
/// and an order visiting every slot once.
pub open spec fn layout(
    query: SearchQuery,
    items: Seq<WorldItem>,
    leaders: Seq<usize>,
    candidates: Seq<Vec<(usize, usize)>>,
    order: Seq<usize>,
) -> bool {
    &&& leaders_cover(query.requirements@, leaders)
    &&& candidates_exact(query, items, leaders, candidates)
    &&& visits_each(order, leaders.len())
    &&& leaders.len() <= usize::MAX
    &&& query.requirements@.len() <= usize::MAX
}

/// A fully assigned combined-upgrade group reaches its total.
pub open spec fn sum_invariant(
    items: Seq<WorldItem>,
    requirements: Seq<Requirement>,
    chosen: Seq<Option<usize>>,
) -> bool {
    forall|i: int|
        0 <= i < requirements.len() && (#[trigger] requirements[i].upgrade_sum) is Some
            && sum_assigned(requirements, chosen, requirements[i].upgrade_sum.unwrap().group,
            requirements.len()) == sum_members(
            requirements,
            requirements[i].upgrade_sum.unwrap().group,
            requirements.len(),
        ) ==> sum_total(items, requirements, chosen, requirements[i].upgrade_sum.unwrap().group,
            requirements.len()) >= first_minimum(
            requirements,
            requirements[i].upgrade_sum.unwrap().group,
            requirements.len(),
        )
}

/// The first `k` slots of `order` hold one item each, the others none.
pub open spec fn partial(
    query: SearchQuery,
    items: Seq<WorldItem>,
    leaders: Seq<usize>,
    order: Seq<usize>,
    chosen: Seq<Option<usize>>,
    k: int,
) -> bool {
    let requirements = query.requirements@;
    &&& consistent(query, items, chosen)
    &&& sum_invariant(items, requirements, chosen)
    &&& forall|t: int|
        0 <= t < k ==> slot_filled(requirements, chosen, leaders[#[trigger] order[t] as int] as int)
    &&& unvisited_empty(query, leaders, order, chosen, k)
}

/// The slots of `order` from position `k` on hold no item.
pub open spec fn unvisited_empty(
    query: SearchQuery,
    leaders: Seq<usize>,
    order: Seq<usize>,
    chosen: Seq<Option<usize>>,
    k: int,
) -> bool {
    forall|t: int, j: int|
        k <= t < order.len() && 0 <= j < chosen.len() && same_slot(
            query.requirements@,
            leaders[#[trigger] order[t] as int] as int,
            j,
        ) ==> #[trigger] chosen[j] is None
}

/// Some satisfying assignment keeps every choice of `chosen`.
pub open spec fn completable(
    query: SearchQuery,
    items: Seq<WorldItem>,
    chosen: Seq<Option<usize>>,
) -> bool {
    exists|all: Seq<Option<usize>>| satisfying(query, items, all) && extends(all, chosen)
}

/// Some satisfying assignment keeps every choice of `chosen` and gives item
/// `x` to requirement `r`.
pub open spec fn extensible(
    query: SearchQuery,
    items: Seq<WorldItem>,
    chosen: Seq<Option<usize>>,
    r: int,
    x: usize,
) -> bool {
    exists|all: Seq<Option<usize>>|
        satisfying(query, items, all) && extends(all, chosen) && all[r] == Some(x)
}

/// With every slot visited, every slot holds an item.
proof fn lemma_all_filled(
    query: SearchQuery,
    items: Seq<WorldItem>,
    leaders: Seq<usize>,
    candidates: Seq<Vec<(usize, usize)>>,
    order: Seq<usize>,
    chosen: Seq<Option<usize>>,
)
    requires
        layout(query, items, leaders, candidates, order),
        partial(query, items, leaders, order, chosen, order.len() as int),
    ensures
        complete(query.requirements@, chosen),
{
    let requirements = query.requirements@;
    assert forall|i: int| 0 <= i < chosen.len() implies #[trigger] slot_filled(
        requirements,
        chosen,
        i,
    ) by {
        assert(covered(requirements, leaders, i));
        let s = choose|s: int| 0 <= s < leaders.len() && same_slot(requirements, leaders[s] as int, i);
        assert(order.contains(s as usize));
        let t = choose|t: int| 0 <= t < order.len() && order[t] == s as usize;
        assert(slot_filled(requirements, chosen, leaders[order[t] as int] as int));
        let j = choose|j: int|
            0 <= j < chosen.len() && same_slot(requirements, leaders[s] as int, j) && chosen[j] is Some;
        lemma_same_slot(requirements, i, leaders[s] as int, j);
        lemma_same_slot(requirements, leaders[s] as int, i, j);
    }
}

/// Placing an admissible candidate of slot `order[k]` keeps the choices
/// consistent and the later slots empty.
proof fn lemma_place(
    query: SearchQuery,
    items: Seq<WorldItem>,
    leaders: Seq<usize>,
    candidates: Seq<Vec<(usize, usize)>>,
    order: Seq<usize>,
    chosen: Seq<Option<usize>>,
    k: int,
    c: int,
)
    requires
        layout(query, items, leaders, candidates, order),
        0 <= k < order.len(),
        consistent(query, items, chosen),
        unvisited_empty(query, leaders, order, chosen, k),
        0 <= c < candidates[order[k] as int]@.len(),
        admissible(
            query,
            items,
            chosen,
            candidates[order[k] as int]@[c].1 as int,
            candidates[order[k] as int]@[c].0,
        ),
    ensures
        chosen[candidates[order[k] as int]@[c].1 as int] is None,
        consistent(
            query,
            items,
            chosen.update(
                candidates[order[k] as int]@[c].1 as int,
                Some(candidates[order[k] as int]@[c].0),
            ),
        ),
        unvisited_empty(
            query,
            leaders,
            order,
            chosen.update(
                candidates[order[k] as int]@[c].1 as int,
                Some(candidates[order[k] as int]@[c].0),
            ),
            k + 1,
        ),
{
    let requirements = query.requirements@;
    let n = requirements.len();
    let s = order[k] as int;
    let (x, r) = candidates[s]@[c];
    let r = r as int;
    let leader = leaders[s] as int;
    assert(same_slot(requirements, leader, r));
    assert(chosen[r] is None);
    let next = chosen.update(r, Some(x));
    // consistency
    assert forall|i: int, j: int|
        0 <= i < next.len() && 0 <= j < next.len() && i != j && (#[trigger] next[i]) is Some && (
        #[trigger] next[j]) is Some implies next[i] != next[j] && !same_slot(requirements, i, j) by {
        if i == r {
            assert(chosen[j] != Some(x));
            if same_slot(requirements, i, j) {
                lemma_same_slot(requirements, leader, r, j);
                assert(chosen[j] is None);
            }
        } else if j == r {
            assert(chosen[i] != Some(x));
            if same_slot(requirements, i, j) {
                lemma_same_slot(requirements, i, r, leader);
                lemma_same_slot(requirements, leader, r, i);
                assert(chosen[i] is None);
            }
        }
    }
    assert forall|i: int, j: int|
        0 <= i < next.len() && 0 <= j < next.len() && (#[trigger] next[i]) is Some && (
        #[trigger] next[j]) is Some && requirements[i].identity_group is Some
            && requirements[i].identity_group == requirements[j].identity_group implies items[next[i].unwrap() as int].item
        == items[next[j].unwrap() as int].item by {
        if i == r && j != r {
            assert(chosen[j] is Some);
        } else if j == r && i != r {
            assert(chosen[i] is Some);
        }
    }
    assert forall|group: u16| #[trigger] scenario_meet(items, next, group, next.len()) != 0 by {
        lemma_meet_update(items, chosen, r, x, group, n);
        assert(scenario_meet(items, chosen, group, chosen.len()) != 0);
    }
    assert forall|i: int|
        0 <= i < next.len() && (#[trigger] next[i]) is Some implies next[i].unwrap() < items.len()
        && eligible(query, requirements[i], items[next[i].unwrap() as int]) by {
        if i != r {
            assert(chosen[i] is Some);
        }
    }
    assert(consistent(query, items, next));
    assert forall|t: int, j: int|
        k + 1 <= t < order.len() && 0 <= j < next.len() && same_slot(
            requirements,
            leaders[#[trigger] order[t] as int] as int,
            j,
        ) implies #[trigger] next[j] is None by {
        assert(chosen[j] is None);
        if j == r {
            lemma_same_slot(requirements, leaders[order[t] as int] as int, r, leader);
            lemma_same_slot(requirements, leader, r, leaders[order[t] as int] as int);
            assert(order[t] != order[k]);
        }
    }
}

/// Placing an admissible candidate of slot `order[k]` visits one more slot.
proof fn lemma_step(
    query: SearchQuery,
    items: Seq<WorldItem>,
    leaders: Seq<usize>,
    candidates: Seq<Vec<(usize, usize)>>,
    order: Seq<usize>,
    chosen: Seq<Option<usize>>,
    k: int,
    c: int,
)
    requires
        layout(query, items, leaders, candidates, order),
        0 <= k < order.len(),
        partial(query, items, leaders, order, chosen, k),
        0 <= c < candidates[order[k] as int]@.len(),
        admissible(
            query,
            items,
            chosen,
            candidates[order[k] as int]@[c].1 as int,
            candidates[order[k] as int]@[c].0,
        ),
    ensures
        chosen[candidates[order[k] as int]@[c].1 as int] is None,
        partial(
            query,
            items,
            leaders,
            order,
            chosen.update(
                candidates[order[k] as int]@[c].1 as int,
                Some(candidates[order[k] as int]@[c].0),
            ),
            k + 1,
        ),
{
    lemma_place(query, items, leaders, candidates, order, chosen, k, c);
    let requirements = query.requirements@;
    let n = requirements.len();
    let s = order[k] as int;
    let (x, r) = candidates[s]@[c];
    let r = r as int;
    let next = chosen.update(r, Some(x));
    // combined-upgrade groups
    assert forall|i: int|
        0 <= i < requirements.len() && (#[trigger] requirements[i].upgrade_sum) is Some
            && sum_assigned(requirements, next, requirements[i].upgrade_sum.unwrap().group, n)
            == sum_members(requirements, requirements[i].upgrade_sum.unwrap().group, n) implies sum_total(
        items,
        requirements,
        next,
        requirements[i].upgrade_sum.unwrap().group,
        n,
    ) >= first_minimum(requirements, requirements[i].upgrade_sum.unwrap().group, n) by {
        let group = requirements[i].upgrade_sum.unwrap().group;
        lemma_sums_update(items, requirements, chosen, r, x, group, n);
        lemma_sums_bounded(items, requirements, chosen, group, n);
        if !sum_member(requirements[r], group) {
            assert(sum_assigned(requirements, chosen, group, n) == sum_members(
                requirements,
                group,
                n,
            ));
        }
    }
    // visited slots
    assert forall|t: int| 0 <= t < k + 1 implies slot_filled(
        requirements,
        next,
        leaders[#[trigger] order[t] as int] as int,
    ) by {
        if t < k {
            assert(slot_filled(requirements, chosen, leaders[order[t] as int] as int));
            let j = choose|j: int|
                0 <= j < chosen.len() && same_slot(requirements, leaders[order[t] as int] as int, j)
                    && chosen[j] is Some;
            assert(next[j] is Some);
        } else {
            assert(next[r] is Some);
        }
    }
    assert(unvisited_empty(query, leaders, order, next, k + 1));
}

/// A choice that some satisfying assignment makes is admissible, provided
/// items never carry more than the highest generated upgrade.
proof fn lemma_admission_needed(
    query: SearchQuery,
    items: Seq<WorldItem>,
    leaders: Seq<usize>,
    candidates: Seq<Vec<(usize, usize)>>,
    order: Seq<usize>,
    chosen: Seq<Option<usize>>,
    k: int,
    all: Seq<Option<usize>>,
    r: int,
    x: usize,
)
    requires
        layout(query, items, leaders, candidates, order),
        0 <= k < order.len(),
        partial(query, items, leaders, order, chosen, k),
        satisfying(query, items, all),
        extends(all, chosen),
        0 <= r < chosen.len(),
        all[r] == Some(x),
        same_slot(query.requirements@, leaders[order[k] as int] as int, r),
        upgrades_bounded(items),
    ensures
        admissible(query, items, chosen, r, x),
{
    let requirements = query.requirements@;
    let n = requirements.len();
    assert(chosen[r] is None);
    let next = chosen.update(r, Some(x));
    assert(extends(all, next));
    assert forall|j: int| 0 <= j < chosen.len() implies #[trigger] chosen[j] != Some(x) by {
        if chosen[j] == Some(x) {
            assert(all[j] == Some(x));
            assert(j != r);
        }
    }
    assert forall|j: int|
        0 <= j < chosen.len() && (#[trigger] chosen[j]) is Some
            && requirements[r].identity_group is Some && requirements[j].identity_group
            == requirements[r].identity_group implies items[chosen[j].unwrap() as int].item
        == items[x as int].item by {
        assert(all[j] == chosen[j]);
    }
    if let Some((group, mask)) = scenario_of(items[x as int].accessibility) {
        lemma_meet_update(items, chosen, r, x, group, n);
        lemma_meet_extends(items, all, next, group, n);
        assert(scenario_meet(items, all, group, all.len()) != 0);
        lemma_and_facts(
            scenario_meet(items, all, group, n),
            scenario_meet(items, next, group, n),
            0,
        );
    }
    if let Some(sum) = requirements[r].upgrade_sum {
        let group = sum.group;
        lemma_sums_update(items, requirements, chosen, r, x, group, n);
        lemma_sums_extends(items, requirements, all, next, group, n);
        lemma_sums_bounded(items, requirements, all, group, n);
        assert(sum_total(items, requirements, all, group, n) >= first_minimum(requirements, group, n));
    }
}

/// When no candidate of slot `order[k]` extends to a satisfying assignment,
/// none of the current choices does.
proof fn lemma_exhausted(
    query: SearchQuery,
    items: Seq<WorldItem>,
    leaders: Seq<usize>,
    candidates: Seq<Vec<(usize, usize)>>,
    order: Seq<usize>,
    chosen: Seq<Option<usize>>,
    k: int,
)
    requires
        layout(query, items, leaders, candidates, order),
        0 <= k < order.len(),
        partial(query, items, leaders, order, chosen, k),
        forall|t: int|
            0 <= t < candidates[order[k] as int]@.len() ==> !extensible(
                query,
                items,
                chosen,
                (#[trigger] candidates[order[k] as int]@[t]).1 as int,
                candidates[order[k] as int]@[t].0,
            ),
    ensures
        !completable(query, items, chosen),
{
    let requirements = query.requirements@;
    let s = order[k] as int;
    if completable(query, items, chosen) {
        let all = choose|all: Seq<Option<usize>>|
            satisfying(query, items, all) && extends(all, chosen);
        let leader = leaders[s] as int;
        assert(slot_filled(requirements, all, leader));
        let j = choose|j: int| 0 <= j < all.len() && same_slot(requirements, leader, j) && all[j] is Some;
        let y = all[j].unwrap();
        assert(eligible(query, requirements[j], items[y as int]));
        assert(candidates[s]@.contains((y, j as usize)));
        let t = choose|t: int| 0 <= t < candidates[s]@.len() && candidates[s]@[t] == (y, j as usize);
        assert(extensible(query, items, chosen, j, y));
        assert(!extensible(query, items, chosen, candidates[s]@[t].1 as int, candidates[s]@[t].0));
    }
}

/// Depth-first assignment of the slots from `order[k]` on, each to a
/// distinct item; on success the assignment is left in `chosen`.
fn search(
    query: &SearchQuery,
    items: &Vec<WorldItem>,
    leaders: &Vec<usize>,
    candidates: &Vec<Vec<(usize, usize)>>,
    order: &Vec<usize>,
    k: usize,
    chosen: &mut Vec<Option<usize>>,
) -> (found: bool)
    requires
        layout(*query, items@, leaders@, candidates@, order@),
        k <= order@.len(),
        partial(*query, items@, leaders@, order@, old(chosen)@, k as int),
    ensures
        found ==> consistent(*query, items@, final(chosen)@) && complete(
            query.requirements@,
            final(chosen)@,
        ) && sum_invariant(items@, query.requirements@, final(chosen)@),
        !found ==> final(chosen)@ == old(chosen)@,
        !found && upgrades_bounded(items@) ==> !completable(*query, items@, old(chosen)@),
    decreases order@.len() - k,
{
    let slots = order.len();
    if k == slots {
        proof {
            lemma_all_filled(*query, items@, leaders@, candidates@, order@, chosen@);
        }
        return true;
    }
    let s = order[k];
    let slot = &candidates[s];
    let ghost start = chosen@;
    let mut c: usize = 0;
    while c < slot.len()
        invariant
            layout(*query, items@, leaders@, candidates@, order@),
            k < slots,
            slots == order@.len(),
            s == order@[k as int],
            *slot == candidates@[s as int],
            chosen@ == start,
            partial(*query, items@, leaders@, order@, start, k as int),
            c <= slot@.len(),
            forall|t: int|
                0 <= t < c && upgrades_bounded(items@) ==> !extensible(
                    *query,
                    items@,
                    start,
                    (#[trigger] slot@[t]).1 as int,
                    slot@[t].0,
                ),
        decreases slot@.len() - c,
    {
        let (x, r) = slot[c];
        proof {
            assert(slot@[c as int] == candidates@[order@[k as int] as int]@[c as int]);
        }
        if admits(query, items, chosen, r, x) {
            proof {
                lemma_step(*query, items@, leaders@, candidates@, order@, start, k as int, c as int);
            }
            chosen.set(r, Some(x));
            if search(query, items, leaders, candidates, order, k + 1, chosen) {
                return true;
            }
            chosen.set(r, None);
            proof {
                assert(chosen@ =~= start);
                if upgrades_bounded(items@) && extensible(*query, items@, start, r as int, x) {
                    let all = choose|all: Seq<Option<usize>>|
                        satisfying(*query, items@, all) && extends(all, start) && all[r as int]
                            == Some(x);
                    assert(extends(all, start.update(r as int, Some(x))));
                    assert(completable(*query, items@, start.update(r as int, Some(x))));
                }
            }
        } else {
            proof {
                if upgrades_bounded(items@) && extensible(*query, items@, start, r as int, x) {
                    let all = choose|all: Seq<Option<usize>>|
                        satisfying(*query, items@, all) && extends(all, start) && all[r as int]
                            == Some(x);
                    lemma_admission_needed(
                        *query,
                        items@,
                        leaders@,
                        candidates@,
                        order@,
                        start,
                        k as int,
                        all,
                        r as int,
                        x,
                    );
                }
            }
        }
        c = c + 1;
    }
    proof {
        if upgrades_bounded(items@) {
            lemma_exhausted(*query, items@, leaders@, candidates@, order@, start, k as int);
        }
    }
    false
}

/// When every member of a group holds an item, the whole group is assigned.
proof fn lemma_members_all_assigned(
    requirements: Seq<Requirement>,
    chosen: Seq<Option<usize>>,
    group: u8,
    n: nat,
)
    requires
        n <= chosen.len(),
        chosen.len() == requirements.len(),
        forall|j: int| 0 <= j < n && sum_member(requirements[j], group) ==> (
        #[trigger] chosen[j]) is Some,
    ensures
        sum_assigned(requirements, chosen, group, n) == sum_members(requirements, group, n),
    decreases n,
{
    if n > 0 {
        lemma_members_all_assigned(requirements, chosen, group, (n - 1) as nat);
    }
}

/// With nothing chosen, no member is assigned, every scenario is shared, and
/// a group with a member among the first `n` requirements has members.
proof fn lemma_nothing_chosen(
    items: Seq<WorldItem>,
    requirements: Seq<Requirement>,
    chosen: Seq<Option<usize>>,
    group: u8,
    scenario: u16,
    n: nat,
)
    requires
        n <= chosen.len(),
        chosen.len() == requirements.len(),
        forall|j: int| 0 <= j < chosen.len() ==> (#[trigger] chosen[j]) is None,
    ensures
        sum_assigned(requirements, chosen, group, n) == 0,
        scenario_meet(items, chosen, scenario, n) == 0xFFFF_FFFF_FFFF_FFFFu64,
        (exists|i: int| 0 <= i < n && sum_member(#[trigger] requirements[i], group)) ==> sum_members(
            requirements,
            group,
            n,
        ) > 0,
    decreases n,
{
    if n > 0 {
        lemma_nothing_chosen(items, requirements, chosen, group, scenario, (n - 1) as nat);
        if exists|i: int| 0 <= i < n && sum_member(#[trigger] requirements[i], group) {
            let i = choose|i: int| 0 <= i < n && sum_member(#[trigger] requirements[i], group);
            if i < n - 1 {
                assert(exists|i: int| 0 <= i < n - 1 && sum_member(#[trigger] requirements[i], group));
            }
        }
    }
}

impl SearchQuery {
    /// Matches requirements as an AND query while respecting distinct item
    /// instances, alternative groups, combined-upgrade totals, and mutually
    /// exclusive quest/chest reward branches.
    pub fn matches(&self, world: &GeneratedWorld) -> (matched: bool)
        ensures
            matched ==> !self.require_blacksmith || blacksmith_within(*self, world.items@),
            matched && sums_outside_alternatives(self.requirements@) ==> satisfiable(
                *self,
                *world,
            ),
            (!self.require_blacksmith || blacksmith_within(*self, world.items@)) && satisfiable(
                *self,
                *world,
            ) && upgrades_bounded(world.items@) ==> matched,
    {
        if self.require_blacksmith && !has_blacksmith_within(self, &world.items) {
            return false;
        }
        let ghost requirements = self.requirements@;
        let ghost items = world.items@;
        let leaders = slot_leaders(&self.requirements);
        let candidates = slot_candidates(self, &world.items, &leaders);
        let order = slot_order(&candidates);
        let slot_count = leaders.len();
        let n = self.requirements.len();
        let mut chosen: Vec<Option<usize>> = Vec::new();
        let mut i: usize = 0;
        while i < n
            invariant
                i <= n,
                n == requirements.len(),
                chosen@.len() == i,
                forall|j: int| 0 <= j < i ==> (#[trigger] chosen@[j]) is None,
            decreases n - i,
        {
            chosen.push(None);
            i = i + 1;
        }
        proof {
            assert(leaders@.len() == slot_count);
            assert(layout(*self, items, leaders@, candidates@, order@));
            assert forall|group: u16| #[trigger] scenario_meet(items, chosen@, group, chosen@.len())
                != 0 by {
                lemma_nothing_chosen(items, requirements, chosen@, 0, group, n as nat);
            }
            assert forall|j: int|
                0 <= j < requirements.len() && (#[trigger] requirements[j].upgrade_sum) is Some
                    && sum_assigned(requirements, chosen@, requirements[j].upgrade_sum.unwrap().group,
                    requirements.len()) == sum_members(
                    requirements,
                    requirements[j].upgrade_sum.unwrap().group,
                    requirements.len(),
                ) implies sum_total(items, requirements, chosen@,
                requirements[j].upgrade_sum.unwrap().group, requirements.len()) >= first_minimum(
                requirements,
                requirements[j].upgrade_sum.unwrap().group,
                requirements.len(),
            ) by {
                let group = requirements[j].upgrade_sum.unwrap().group;
                lemma_nothing_chosen(items, requirements, chosen@, group, 0, n as nat);
                assert(sum_member(requirements[j], group));
            }
            assert(partial(*self, items, leaders@, order@, chosen@, 0));
            if satisfiable(*self, *world) {
                let all = choose|all: Seq<Option<usize>>| satisfying(*self, items, all);
                assert(extends(all, chosen@));
                assert(completable(*self, items, chosen@));
            }
        }
        if order.len() > 0 && candidates[order[0]].len() == 0 {
            proof {
                lemma_exhausted(*self, items, leaders@, candidates@, order@, chosen@, 0);
            }
            return false;
        }
        let found = search(self, &world.items, &leaders, &candidates, &order, 0, &mut chosen);
        proof {
            if found && sums_outside_alternatives(requirements) {
                let picked = chosen@;
                assert forall|j: int|
                    0 <= j < requirements.len() && (#[trigger] requirements[j].upgrade_sum) is Some
                        implies sum_total(items, requirements, picked,
                    requirements[j].upgrade_sum.unwrap().group, requirements.len()) >= first_minimum(
                    requirements,
                    requirements[j].upgrade_sum.unwrap().group,
                    requirements.len(),
                ) by {
                    let group = requirements[j].upgrade_sum.unwrap().group;
                    assert forall|m: int|
                        0 <= m < n && sum_member(requirements[m], group) implies (
                        #[trigger] picked[m]) is Some by {
                        assert(slot_filled(requirements, picked, m));
                        let w = choose|w: int|
                            0 <= w < picked.len() && same_slot(requirements, m, w)
                                && picked[w] is Some;
                        assert(requirements[m].upgrade_sum is Some);
                    }
                    lemma_members_all_assigned(requirements, picked, group, n as nat);
                }
                assert(satisfying(*self, items, picked));
            }
        }
        found
    }
}

// ---------------------------------------------------------------------------
// Highlighting the best partial match
// ---------------------------------------------------------------------------

/// Requirement `i`'s combined-upgrade group, if it has one, is fully assigned
/// and reaches its total.
pub open spec fn group_met(
    items: Seq<WorldItem>,
    requirements: Seq<Requirement>,
    chosen: Seq<Option<usize>>,
    i: int,
) -> bool {
    match requirements[i].upgrade_sum {
        None => true,
        Some(sum) => {
            let n = requirements.len();
            &&& sum_assigned(requirements, chosen, sum.group, n) == sum_members(
                requirements,
                sum.group,
                n,
            )
            &&& sum_total(items, requirements, chosen, sum.group, n) >= first_minimum(
                requirements,
                sum.group,
                n,
            )
        },
    }
}

/// Item `x` serves a requirement whose combined-upgrade group, if any, is met.
pub open spec fn highlights(
    query: SearchQuery,
    items: Seq<WorldItem>,
    chosen: Seq<Option<usize>>,
    x: usize,
) -> bool {
    exists|i: int|
        0 <= i < chosen.len() && chosen[i] == Some(x) && group_met(
            items,
            query.requirements@,
            chosen,
            i,
        )
}

/// `found` lists, once each, exactly the items an assignment highlights.
pub open spec fn highlighted_by(
    query: SearchQuery,
    items: Seq<WorldItem>,
    chosen: Seq<Option<usize>>,
    found: Seq<usize>,
) -> bool {
    &&& found.no_duplicates()
    &&& forall|x: usize| found.contains(x) <==> highlights(query, items, chosen, x)
}

/// `found` is what some consistent partial assignment highlights.
pub open spec fn highlight_of_some_assignment(
    query: SearchQuery,
    items: Seq<WorldItem>,
    found: Seq<usize>,
) -> bool {
    exists|chosen: Seq<Option<usize>>|
        consistent(query, items, chosen) && highlighted_by(query, items, chosen, found)
}

/// `selected` lists each (item, requirement) choice of `chosen` once.
pub open spec fn lists_choices(chosen: Seq<Option<usize>>, selected: Seq<(usize, usize)>) -> bool {
    &&& forall|u: int|
        0 <= u < selected.len() ==> (#[trigger] selected[u]).1 < chosen.len() && chosen[selected[u].1 as int]
            == Some(selected[u].0)
    &&& forall|u: int, v: int|
        0 <= u < selected.len() && 0 <= v < selected.len() && u != v ==> (
        #[trigger] selected[u]).1 != (#[trigger] selected[v]).1
    &&& forall|r: int|
        0 <= r < chosen.len() && (#[trigger] chosen[r]) is Some ==> exists|u: int|
            0 <= u < selected.len() && selected[u] == (chosen[r].unwrap(), r as usize)
}

/// Every chosen requirement's combined-upgrade group, if any, is met.
pub open spec fn groups_met(
    items: Seq<WorldItem>,
    requirements: Seq<Requirement>,
    chosen: Seq<Option<usize>>,
) -> bool {
    forall|i: int| 0 <= i < chosen.len() && (#[trigger] chosen[i]) is Some ==> group_met(items, requirements, chosen, i)
}

/// The items an assignment highlights.
pub open spec fn highlighted_set(
    query: SearchQuery,
    items: Seq<WorldItem>,
    chosen: Seq<Option<usize>>,
) -> Set<usize> {
    Set::new(|x: usize| highlights(query, items, chosen, x))
}

/// How many distinct items an assignment highlights.
pub open spec fn highlight_count(
    query: SearchQuery,
    items: Seq<WorldItem>,
    chosen: Seq<Option<usize>>,
) -> nat {
    highlighted_set(query, items, chosen).len()
}

/// `all` is a consistent assignment, with every chosen group met, that keeps
/// the choices of `chosen` and agrees with it on the first `k` slots of
/// `order`: a leaf that the search below slot position `k` can reach.
pub open spec fn clean_completion(
    query: SearchQuery,
    items: Seq<WorldItem>,
    leaders: Seq<usize>,
    order: Seq<usize>,
    chosen: Seq<Option<usize>>,
    k: int,
    all: Seq<Option<usize>>,
) -> bool {
    &&& consistent(query, items, all)
    &&& groups_met(items, query.requirements@, all)
    &&& extends(all, chosen)
    &&& forall|t: int, j: int|
        0 <= t < k && 0 <= j < all.len() && same_slot(
            query.requirements@,
            leaders[#[trigger] order[t] as int] as int,
            j,
        ) ==> #[trigger] all[j] == chosen[j]
}

/// The folds of a group only read the group's members.
proof fn lemma_sums_agree(
    items: Seq<WorldItem>,
    requirements: Seq<Requirement>,
    a: Seq<Option<usize>>,
    b: Seq<Option<usize>>,
    group: u8,
    n: nat,
)
    requires
        n <= a.len(),
        n <= b.len(),
        forall|i: int| 0 <= i < n && sum_member(#[trigger] requirements[i], group) ==> a[i] == b[i],
    ensures
        sum_assigned(requirements, a, group, n) == sum_assigned(requirements, b, group, n),
        sum_total(items, requirements, a, group, n) == sum_total(items, requirements, b, group, n),
    decreases n,
{
    if n > 0 {
        lemma_sums_agree(items, requirements, a, b, group, (n - 1) as nat);
        if sum_member(requirements[n - 1], group) {
            assert(a[n - 1] == b[n - 1]);
        }
    }
}

/// Every member of a fully assigned group holds an item.
proof fn lemma_full_group(
    requirements: Seq<Requirement>,
    chosen: Seq<Option<usize>>,
    group: u8,
    n: nat,
    i: int,
)
    requires
        n <= chosen.len(),
        sum_assigned(requirements, chosen, group, n) == sum_members(requirements, group, n),
        0 <= i < n,
        sum_member(requirements[i], group),
    ensures
        chosen[i] is Some,
    decreases n,
{
    lemma_assigned_at_most(requirements, chosen, group, (n - 1) as nat);
    if i < n - 1 {
        lemma_full_group(requirements, chosen, group, (n - 1) as nat, i);
    }
}

/// Assigned members never outnumber members.
proof fn lemma_assigned_at_most(requirements: Seq<Requirement>, chosen: Seq<Option<usize>>, group: u8, n: nat)
    ensures
        sum_assigned(requirements, chosen, group, n) <= sum_members(requirements, group, n),
    decreases n,
{
    if n > 0 {
        lemma_assigned_at_most(requirements, chosen, group, (n - 1) as nat);
    }
}

/// Dropping the requirements whose groups fail keeps an assignment
/// consistent, leaves every group met, and highlights the same items.
proof fn lemma_cleanup(query: SearchQuery, items: Seq<WorldItem>, chosen: Seq<Option<usize>>) -> (clean: Seq<Option<usize>>)
    requires
        consistent(query, items, chosen),
    ensures
        consistent(query, items, clean),
        groups_met(items, query.requirements@, clean),
        extends(chosen, clean),
        highlighted_set(query, items, clean) == highlighted_set(query, items, chosen),
{
    let requirements = query.requirements@;
    let n = requirements.len();
    let clean = Seq::new(
        chosen.len(),
        |i: int|
            if chosen[i] is Some && group_met(items, requirements, chosen, i) {
                chosen[i]
            } else {
                None
            },
    );
    assert(extends(chosen, clean));
    // Met groups keep all their members, so their folds are unchanged.
    assert forall|i: int| 0 <= i < clean.len() && #[trigger] clean[i] is Some implies group_met(
        items,
        requirements,
        clean,
        i,
    ) && group_met(items, requirements, chosen, i) by {
        if let Some(sum) = requirements[i].upgrade_sum {
            let group = sum.group;
            assert forall|m: int| 0 <= m < n && sum_member(#[trigger] requirements[m], group) implies chosen[m]
                == clean[m] by {
                lemma_full_group(requirements, chosen, group, n, m);
            }
            lemma_sums_agree(items, requirements, chosen, clean, group, n);
        }
    }
    assert forall|group: u16| #[trigger] scenario_meet(items, clean, group, clean.len()) != 0 by {
        lemma_meet_extends(items, chosen, clean, group, n);
        assert(scenario_meet(items, chosen, group, chosen.len()) != 0);
        lemma_and_facts(scenario_meet(items, chosen, group, n), scenario_meet(items, clean, group, n), 0);
    }
    assert forall|i: int, j: int|
        0 <= i < clean.len() && 0 <= j < clean.len() && i != j && (#[trigger] clean[i]) is Some
            && (#[trigger] clean[j]) is Some implies clean[i] != clean[j] && !same_slot(requirements, i, j) by {
        assert(chosen[i] is Some && chosen[j] is Some);
    }
    assert forall|i: int, j: int|
        0 <= i < clean.len() && 0 <= j < clean.len() && (#[trigger] clean[i]) is Some && (
        #[trigger] clean[j]) is Some && requirements[i].identity_group is Some
            && requirements[i].identity_group == requirements[j].identity_group implies items[clean[i].unwrap() as int].item
        == items[clean[j].unwrap() as int].item by {
        assert(chosen[i] is Some && chosen[j] is Some);
    }
    assert forall|i: int|
        0 <= i < clean.len() && (#[trigger] clean[i]) is Some implies clean[i].unwrap() < items.len()
        && eligible(query, requirements[i], items[clean[i].unwrap() as int]) by {
        assert(chosen[i] is Some);
    }
    assert(consistent(query, items, clean));
    assert(highlighted_set(query, items, clean) =~= highlighted_set(query, items, chosen)) by {
        assert forall|x: usize| highlights(query, items, clean, x) <==> highlights(query, items, chosen, x) by {
            if highlights(query, items, chosen, x) {
                let i = choose|i: int|
                    0 <= i < chosen.len() && chosen[i] == Some(x) && group_met(items, requirements, chosen, i);
                assert(clean[i] == Some(x));
            }
            if highlights(query, items, clean, x) {
                let i = choose|i: int|
                    0 <= i < clean.len() && clean[i] == Some(x) && group_met(items, requirements, clean, i);
                assert(chosen[i] == Some(x));
            }
        }
    }
    clean
}

/// The item held in slot `order[t]` by `all`, if the slot holds one.
pub open spec fn slot_item(
    requirements: Seq<Requirement>,
    leaders: Seq<usize>,
    order: Seq<usize>,
    all: Seq<Option<usize>>,
    t: int,
) -> usize {
    all[choose|j: int|
        0 <= j < all.len() && same_slot(requirements, leaders[order[t] as int] as int, j)
            && #[trigger] all[j] is Some].unwrap()
}

/// The values `f` takes on `lo..hi`.
pub open spec fn image(f: spec_fn(int) -> usize, lo: int, hi: int) -> Set<usize> {
    Set::new(|x: usize| exists|t: int| lo <= t < hi && #[trigger] f(t) == x)
}

/// A function takes at most as many values as it has arguments.
proof fn lemma_image_size(f: spec_fn(int) -> usize, lo: int, hi: int)
    requires
        lo <= hi,
    ensures
        image(f, lo, hi).finite(),
        image(f, lo, hi).len() <= hi - lo,
    decreases hi - lo,
{
    if lo == hi {
        assert(image(f, lo, hi) =~= Set::<usize>::empty());
    } else {
        lemma_image_size(f, lo, hi - 1);
        assert(image(f, lo, hi) =~= image(f, lo, hi - 1).insert(f(hi - 1)));
    }
}

/// A choice that a clean completion makes in the next slot is admissible,
/// provided items never carry more than the highest generated upgrade.
proof fn lemma_clean_admissible(
    query: SearchQuery,
    items: Seq<WorldItem>,
    leaders: Seq<usize>,
    candidates: Seq<Vec<(usize, usize)>>,
    order: Seq<usize>,
    chosen: Seq<Option<usize>>,
    k: int,
    all: Seq<Option<usize>>,
    r: int,
    x: usize,
)
    requires
        layout(query, items, leaders, candidates, order),
        0 <= k < order.len(),
        consistent(query, items, chosen),
        unvisited_empty(query, leaders, order, chosen, k),
        clean_completion(query, items, leaders, order, chosen, k, all),
        0 <= r < chosen.len(),
        all[r] == Some(x),
        same_slot(query.requirements@, leaders[order[k] as int] as int, r),
        upgrades_bounded(items),
    ensures
        admissible(query, items, chosen, r, x),
{
    let requirements = query.requirements@;
    let n = requirements.len();
    assert(chosen[r] is None);
    let next = chosen.update(r, Some(x));
    assert(extends(all, next));
    assert forall|j: int| 0 <= j < chosen.len() implies #[trigger] chosen[j] != Some(x) by {
        if chosen[j] == Some(x) {
            assert(all[j] == Some(x));
            assert(j != r);
        }
    }
    assert forall|j: int|
        0 <= j < chosen.len() && (#[trigger] chosen[j]) is Some
            && requirements[r].identity_group is Some && requirements[j].identity_group
            == requirements[r].identity_group implies items[chosen[j].unwrap() as int].item
        == items[x as int].item by {
        assert(all[j] == chosen[j]);
    }
    if let Some((group, mask)) = scenario_of(items[x as int].accessibility) {
        lemma_meet_update(items, chosen, r, x, group, n);
        lemma_meet_extends(items, all, next, group, n);
        assert(scenario_meet(items, all, group, all.len()) != 0);
        lemma_and_facts(
            scenario_meet(items, all, group, n),
            scenario_meet(items, next, group, n),
            0,
        );
    }
    if let Some(sum) = requirements[r].upgrade_sum {
        let group = sum.group;
        assert(group_met(items, requirements, all, r));
        lemma_sums_update(items, requirements, chosen, r, x, group, n);
        lemma_sums_extends(items, requirements, all, next, group, n);
        lemma_sums_bounded(items, requirements, all, group, n);
        lemma_sums_bounded(items, requirements, next, group, n);
    }
}

/// A clean completion that takes candidate `c` of the next slot is a clean
/// completion of the assignment with that candidate placed.
proof fn lemma_clean_step(
    query: SearchQuery,
    items: Seq<WorldItem>,
    leaders: Seq<usize>,
    candidates: Seq<Vec<(usize, usize)>>,
    order: Seq<usize>,
    chosen: Seq<Option<usize>>,
    k: int,
    all: Seq<Option<usize>>,
    c: int,
)
    requires
        layout(query, items, leaders, candidates, order),
        0 <= k < order.len(),
        consistent(query, items, chosen),
        unvisited_empty(query, leaders, order, chosen, k),
        clean_completion(query, items, leaders, order, chosen, k, all),
        0 <= c < candidates[order[k] as int]@.len(),
        all[candidates[order[k] as int]@[c].1 as int] == Some(candidates[order[k] as int]@[c].0),
    ensures
        clean_completion(
            query,
            items,
            leaders,
            order,
            chosen.update(
                candidates[order[k] as int]@[c].1 as int,
                Some(candidates[order[k] as int]@[c].0),
            ),
            k + 1,
            all,
        ),
{
    let requirements = query.requirements@;
    let s = order[k] as int;
    let (x, r) = candidates[s]@[c];
    let r = r as int;
    let leader = leaders[s] as int;
    assert(same_slot(requirements, leader, r));
    let next = chosen.update(r, Some(x));
    assert(extends(all, next));
    assert forall|t: int, j: int|
        0 <= t < k + 1 && 0 <= j < all.len() && same_slot(
            requirements,
            leaders[#[trigger] order[t] as int] as int,
            j,
        ) implies #[trigger] all[j] == next[j] by {
        let other = leaders[order[t] as int] as int;
        if t < k {
            assert(all[j] == chosen[j]);
            if j == r {
                lemma_same_slot(requirements, other, r, leader);
                lemma_same_slot(requirements, leader, r, other);
                assert(order[t] != order[k]);
            }
        } else if j != r {
            lemma_same_slot(requirements, leader, j, r);
            lemma_same_slot(requirements, j, leader, r);
            assert(same_slot(requirements, j, r));
            assert(chosen[j] is None);
            if all[j] is Some {
                assert(!same_slot(requirements, j, r));
            }
        }
    }
}

/// A clean completion with nothing in the next slot is a clean completion
/// one slot further.
proof fn lemma_clean_skip(
    query: SearchQuery,
    items: Seq<WorldItem>,
    leaders: Seq<usize>,
    order: Seq<usize>,
    chosen: Seq<Option<usize>>,
    k: int,
    all: Seq<Option<usize>>,
)
    requires
        0 <= k < order.len(),
        unvisited_empty(query, leaders, order, chosen, k),
        clean_completion(query, items, leaders, order, chosen, k, all),
        forall|j: int|
            0 <= j < all.len() && same_slot(query.requirements@, leaders[order[k] as int] as int, j)
                ==> #[trigger] all[j] is None,
    ensures
        clean_completion(query, items, leaders, order, chosen, k + 1, all),
{
    assert forall|t: int, j: int|
        0 <= t < k + 1 && 0 <= j < all.len() && same_slot(
            query.requirements@,
            leaders[#[trigger] order[t] as int] as int,
            j,
        ) implies #[trigger] all[j] == chosen[j] by {
        if t == k {
            assert(all[j] is None);
            assert(chosen[j] is None);
        }
    }
}

/// Once every slot is visited, the only clean completion is the assignment
/// itself.
proof fn lemma_clean_leaf(
    query: SearchQuery,
    items: Seq<WorldItem>,
    leaders: Seq<usize>,
    candidates: Seq<Vec<(usize, usize)>>,
    order: Seq<usize>,
    chosen: Seq<Option<usize>>,
    all: Seq<Option<usize>>,
)
    requires
        layout(query, items, leaders, candidates, order),
        consistent(query, items, chosen),
        clean_completion(query, items, leaders, order, chosen, order.len() as int, all),
    ensures
        all == chosen,
{
    let requirements = query.requirements@;
    assert forall|j: int| 0 <= j < all.len() implies all[j] == chosen[j] by {
        assert(covered(requirements, leaders, j));
        let s = choose|s: int| 0 <= s < leaders.len() && same_slot(requirements, leaders[s] as int, j);
        assert(order.contains(s as usize));
        let t = choose|t: int| 0 <= t < order.len() && order[t] == s as usize;
        assert(same_slot(requirements, leaders[order[t] as int] as int, j));
    }
    assert(all =~= chosen);
}

/// A clean completion highlights at most one item per chosen requirement and
/// one per slot still to visit.
proof fn lemma_highlights_bounded(
    query: SearchQuery,
    items: Seq<WorldItem>,
    leaders: Seq<usize>,
    candidates: Seq<Vec<(usize, usize)>>,
    order: Seq<usize>,
    chosen: Seq<Option<usize>>,
    selected: Seq<(usize, usize)>,
    k: int,
    all: Seq<Option<usize>>,
)
    requires
        layout(query, items, leaders, candidates, order),
        0 <= k <= order.len(),
        lists_choices(chosen, selected),
        clean_completion(query, items, leaders, order, chosen, k, all),
    ensures
        highlight_count(query, items, all) <= selected.len() + (order.len() - k),
{
    let requirements = query.requirements@;
    let first = |u: int| selected[u].0;
    let later = |t: int| slot_item(requirements, leaders, order, all, t);
    let kept = image(first, 0, selected.len() as int);
    let fresh = image(later, k, order.len() as int);
    lemma_image_size(first, 0, selected.len() as int);
    lemma_image_size(later, k, order.len() as int);
    let lit = highlighted_set(query, items, all);
    assert forall|x: usize| lit.contains(x) implies (kept + fresh).contains(x) by {
        let i = choose|i: int|
            0 <= i < all.len() && all[i] == Some(x) && group_met(items, requirements, all, i);
        if chosen[i] is Some {
            assert(chosen[i] == Some(x));
            let u = choose|u: int| 0 <= u < selected.len() && selected[u] == (chosen[i].unwrap(), i as usize);
            assert(first(u) == x);
            assert(kept.contains(x));
        } else {
            assert(covered(requirements, leaders, i));
            let s = choose|s: int| 0 <= s < leaders.len() && same_slot(requirements, leaders[s] as int, i);
            assert(order.contains(s as usize));
            let t = choose|t: int| 0 <= t < order.len() && order[t] == s as usize;
            assert(same_slot(requirements, leaders[order[t] as int] as int, i));
            if t < k {
                assert(all[i] == chosen[i]);
            }
            let j = choose|j: int|
                0 <= j < all.len() && same_slot(requirements, leaders[order[t] as int] as int, j)
                    && #[trigger] all[j] is Some;
            assert(all[j] is Some);
            if j != i {
                lemma_same_slot(requirements, leaders[s] as int, i, j);
                lemma_same_slot(requirements, i, leaders[s] as int, j);
                assert(same_slot(requirements, i, j));
            }
            assert(later(t) == x);
            assert(fresh.contains(x));
        }
    }
    vstd::set_lib::lemma_len_union(kept, fresh);
    vstd::set_lib::lemma_len_subset(lit, kept + fresh);
}

/// A highlight list is as long as the set of items it highlights.
proof fn lemma_highlight_list(
    query: SearchQuery,
    items: Seq<WorldItem>,
    chosen: Seq<Option<usize>>,
    found: Seq<usize>,
)
    requires
        highlighted_by(query, items, chosen, found),
    ensures
        found.len() == highlight_count(query, items, chosen),
{
    assert(found.to_set() =~= highlighted_set(query, items, chosen));
    found.unique_seq_to_set();
}

/// Whether requirement `r`'s combined-upgrade group, if any, is met.
fn group_is_met(
    query: &SearchQuery,
    items: &Vec<WorldItem>,
    chosen: &Vec<Option<usize>>,
    r: usize,
) -> (met: bool)
    requires
        r < query.requirements@.len(),
        chosen@.len() == query.requirements@.len(),
        in_range(items@, chosen@),
    ensures
        met == group_met(items@, query.requirements@, chosen@, r as int),
{
    match query.requirements[r].upgrade_sum {
        None => true,
        Some(sum) => {
            let (members, assigned, total, minimum) = group_progress(
                query,
                items,
                chosen,
                sum.group,
            );
            assigned == members && total >= minimum as u128
        },
    }
}

/// The items of `selected` whose groups are met, in selection order.
fn counted_items(
    query: &SearchQuery,
    items: &Vec<WorldItem>,
    chosen: &Vec<Option<usize>>,
    selected: &Vec<(usize, usize)>,
) -> (counted: Vec<usize>)
    requires
        consistent(*query, items@, chosen@),
        lists_choices(chosen@, selected@),
    ensures
        highlighted_by(*query, items@, chosen@, counted@),
{
    let ghost reqs = query.requirements@;
    let mut counted: Vec<usize> = Vec::new();
    let mut u: usize = 0;
    while u < selected.len()
        invariant
            u <= selected@.len(),
            reqs == query.requirements@,
            consistent(*query, items@, chosen@),
            lists_choices(chosen@, selected@),
            counted@.no_duplicates(),
            forall|x: usize|
                counted@.contains(x) <==> exists|v: int|
                    0 <= v < u && (#[trigger] selected@[v]).0 == x && group_met(
                        items@,
                        reqs,
                        chosen@,
                        selected@[v].1 as int,
                    ),
        decreases selected@.len() - u,
    {
        let (x, r) = selected[u];
        let ghost before = counted@;
        if group_is_met(query, items, chosen, r) {
            proof {
                assert forall|v: int| 0 <= v < u implies (#[trigger] selected@[v]).0 != x by {
                    assert(selected@[v].1 != r);
                    assert(chosen@[selected@[v].1 as int] == Some(selected@[v].0));
                }
                assert(!before.contains(x));
            }
            counted.push(x);
            proof {
                assert forall|y: usize|
                    counted@.contains(y) <==> exists|v: int|
                        0 <= v < u + 1 && (#[trigger] selected@[v]).0 == y && group_met(
                            items@,
                            reqs,
                            chosen@,
                            selected@[v].1 as int,
                        ) by {
                    if counted@.contains(y) && y != x {
                        let w = choose|w: int| 0 <= w < counted@.len() && counted@[w] == y;
                        assert(before[w] == y);
                    }
                    if before.contains(y) {
                        let w = choose|w: int| 0 <= w < before.len() && before[w] == y;
                        assert(counted@[w] == y);
                    }
                    if y == x {
                        assert(counted@[before.len() as int] == x);
                        assert(selected@[u as int].0 == y);
                    }
                }
            }
        }
        u = u + 1;
    }
    proof {
        assert forall|x: usize| counted@.contains(x) <==> highlights(*query, items@, chosen@, x) by {
            if highlights(*query, items@, chosen@, x) {
                let i = choose|i: int|
                    0 <= i < chosen@.len() && chosen@[i] == Some(x) && group_met(
                        items@,
                        reqs,
                        chosen@,
                        i,
                    );
                let v = choose|v: int|
                    0 <= v < selected@.len() && selected@[v] == (chosen@[i].unwrap(), i as usize);
                assert(selected@[v].0 == x);
            }
        }
    }
    counted
}

/// Branch and bound over the slots from `order[k]` on: each slot either takes
/// an admissible candidate or stays empty; the best highlight found so far is
/// kept in `best` and replaced only by a strictly larger one.
fn visit(
    query: &SearchQuery,
    items: &Vec<WorldItem>,
    leaders: &Vec<usize>,
    candidates: &Vec<Vec<(usize, usize)>>,
    order: &Vec<usize>,
    k: usize,
    chosen: &mut Vec<Option<usize>>,
    selected: &mut Vec<(usize, usize)>,
    best: &mut Vec<usize>,
)
    requires
        layout(*query, items@, leaders@, candidates@, order@),
        k <= order@.len(),
        consistent(*query, items@, old(chosen)@),
        unvisited_empty(*query, leaders@, order@, old(chosen)@, k as int),
        lists_choices(old(chosen)@, old(selected)@),
        highlight_of_some_assignment(*query, items@, old(best)@),
    ensures
        final(chosen)@ == old(chosen)@,
        final(selected)@ == old(selected)@,
        highlight_of_some_assignment(*query, items@, final(best)@),
        final(best)@.len() >= old(best)@.len(),
        upgrades_bounded(items@) ==> forall|all: Seq<Option<usize>>|
            #[trigger] clean_completion(*query, items@, leaders@, order@, old(chosen)@, k as int, all)
                ==> highlight_count(*query, items@, all) <= final(best)@.len(),
    decreases order@.len() - k,
{
    let slots = order.len();
    if k == slots {
        let counted = counted_items(query, items, chosen, selected);
        proof {
            lemma_highlight_list(*query, items@, chosen@, counted@);
            assert forall|all: Seq<Option<usize>>|
                #[trigger] clean_completion(*query, items@, leaders@, order@, chosen@, k as int, all)
                    implies highlight_count(*query, items@, all) <= counted@.len() by {
                lemma_clean_leaf(*query, items@, leaders@, candidates@, order@, chosen@, all);
            }
        }
        if counted.len() > best.len() {
            *best = counted;
        }
        return;
    }
    if selected.len() as u128 + (slots - k) as u128 <= best.len() as u128 {
        proof {
            assert forall|all: Seq<Option<usize>>|
                #[trigger] clean_completion(*query, items@, leaders@, order@, chosen@, k as int, all)
                    implies highlight_count(*query, items@, all) <= best@.len() by {
                lemma_highlights_bounded(
                    *query,
                    items@,
                    leaders@,
                    candidates@,
                    order@,
                    chosen@,
                    selected@,
                    k as int,
                    all,
                );
            }
        }
        return;
    }
    let s = order[k];
    let slot = &candidates[s];
    let ghost start = chosen@;
    let ghost start_selected = selected@;
    let ghost entry_best = best@.len();
    let mut c: usize = 0;
    while c < slot.len()
        invariant
            layout(*query, items@, leaders@, candidates@, order@),
            k < slots,
            slots == order@.len(),
            s == order@[k as int],
            *slot == candidates@[s as int],
            chosen@ == start,
            selected@ == start_selected,
            start == old(chosen)@,
            entry_best == old(best)@.len(),
            consistent(*query, items@, start),
            unvisited_empty(*query, leaders@, order@, start, k as int),
            lists_choices(start, start_selected),
            highlight_of_some_assignment(*query, items@, best@),
            best@.len() >= entry_best,
            c <= slot@.len(),
            upgrades_bounded(items@) ==> forall|all: Seq<Option<usize>>|
                #[trigger] clean_completion(*query, items@, leaders@, order@, start, k as int, all)
                    && handled(slot@, c as int, all) ==> highlight_count(*query, items@, all)
                    <= best@.len(),
        decreases slot@.len() - c,
    {
        let (x, r) = slot[c];
        proof {
            assert(slot@[c as int] == candidates@[order@[k as int] as int]@[c as int]);
        }
        let ghost best_before = best@.len();
        if admits(query, items, chosen, r, x) {
            proof {
                lemma_place(*query, items@, leaders@, candidates@, order@, start, k as int, c as int);
            }
            chosen.set(r, Some(x));
            selected.push((x, r));
            proof {
                let next = chosen@;
                assert forall|u: int, v: int|
                    0 <= u < selected@.len() && 0 <= v < selected@.len() && u != v implies (
                    #[trigger] selected@[u]).1 != (#[trigger] selected@[v]).1 by {
                    if u == start_selected.len() {
                        assert(start[selected@[v].1 as int] is Some);
                    }
                    if v == start_selected.len() {
                        assert(start[selected@[u].1 as int] is Some);
                    }
                }
                assert forall|q: int| 0 <= q < next.len() && (#[trigger] next[q]) is Some implies exists|u: int|
                    0 <= u < selected@.len() && selected@[u] == (next[q].unwrap(), q as usize) by {
                    if q == r {
                        assert(selected@[start_selected.len() as int] == (x, r));
                    } else {
                        let u = choose|u: int|
                            0 <= u < start_selected.len() && start_selected[u] == (start[q].unwrap(), q as usize);
                        assert(selected@[u] == start_selected[u]);
                    }
                }
                assert(lists_choices(next, selected@));
            }
            let ghost next = chosen@;
            visit(query, items, leaders, candidates, order, k + 1, chosen, selected, best);
            selected.pop();
            chosen.set(r, None);
            proof {
                assert(chosen@ =~= start);
                assert(selected@ =~= start_selected);
                if upgrades_bounded(items@) {
                    assert forall|all: Seq<Option<usize>>|
                        #[trigger] clean_completion(*query, items@, leaders@, order@, start, k as int, all)
                            && handled(slot@, (c + 1) as int, all) implies highlight_count(
                        *query,
                        items@,
                        all,
                    ) <= best@.len() by {
                        if !handled(slot@, c as int, all) {
                            let c2 = choose|c2: int|
                                0 <= c2 < c + 1 && all[slot@[c2].1 as int] == Some(slot@[c2].0);
                            assert(c2 == c);
                            lemma_clean_step(
                                *query,
                                items@,
                                leaders@,
                                candidates@,
                                order@,
                                start,
                                k as int,
                                all,
                                c as int,
                            );
                            assert(next == start.update(r as int, Some(x)));
                        }
                    }
                }
            }
        } else {
            proof {
                if upgrades_bounded(items@) {
                    assert forall|all: Seq<Option<usize>>|
                        #[trigger] clean_completion(*query, items@, leaders@, order@, start, k as int, all)
                            && handled(slot@, (c + 1) as int, all) implies highlight_count(
                        *query,
                        items@,
                        all,
                    ) <= best@.len() by {
                        if !handled(slot@, c as int, all) {
                            let c2 = choose|c2: int|
                                0 <= c2 < c + 1 && all[slot@[c2].1 as int] == Some(slot@[c2].0);
                            assert(c2 == c);
                            lemma_clean_admissible(
                                *query,
                                items@,
                                leaders@,
                                candidates@,
                                order@,
                                start,
                                k as int,
                                all,
                                r as int,
                                x,
                            );
                        }
                    }
                }
            }
        }
        c = c + 1;
    }
    proof {
        assert(unvisited_empty(*query, leaders@, order@, chosen@, (k + 1) as int));
    }
    let ghost before_skip = best@.len();
    visit(query, items, leaders, candidates, order, k + 1, chosen, selected, best);
    proof {
        if upgrades_bounded(items@) {
            assert forall|all: Seq<Option<usize>>|
                #[trigger] clean_completion(*query, items@, leaders@, order@, start, k as int, all)
                    implies highlight_count(*query, items@, all) <= best@.len() by {
                let requirements = query.requirements@;
                let leader = leaders@[s as int] as int;
                if exists|j: int| 0 <= j < all.len() && same_slot(requirements, leader, j) && #[trigger] all[j] is Some {
                    let j = choose|j: int| 0 <= j < all.len() && same_slot(requirements, leader, j) && #[trigger] all[j] is Some;
                    let y = all[j].unwrap();
                    assert(eligible(*query, requirements[j], items@[y as int]));
                    assert(candidates@[s as int]@.contains((y, j as usize)));
                    let c2 = choose|c2: int| 0 <= c2 < slot@.len() && slot@[c2] == (y, j as usize);
                    assert(all[slot@[c2].1 as int] == Some(slot@[c2].0));
                    assert(handled(slot@, slot@.len() as int, all));
                } else {
                    lemma_clean_skip(*query, items@, leaders@, order@, start, k as int, all);
                }
            }
        }
    }
}

/// Some candidate among the first `c` of a slot is what `all` chooses.
pub open spec fn handled(slot: Seq<(usize, usize)>, c: int, all: Seq<Option<usize>>) -> bool {
    exists|c2: int| 0 <= c2 < c && all[slot[c2].1 as int] == Some(slot[c2].0)
}

/// Indices of the world items used by an assignment that satisfies as many
/// query slots as possible, for match highlighting.
///
/// Alternatives count once per group, and combined-upgrade groups count only
/// when every member is assigned and the total is met: a lone ring of a
/// wanted pair is not highlighted. Ties keep the first maximal assignment
/// found. The query does not have to be satisfiable in full.
pub fn best_match_indices(query: &SearchQuery, world: &GeneratedWorld) -> (found: Vec<usize>)
    ensures
        query.requirements@.len() == 0 ==> found@.len() == 0,
        highlight_of_some_assignment(*query, world.items@, found@),
        upgrades_bounded(world.items@) ==> forall|chosen: Seq<Option<usize>>|
            #[trigger] consistent(*query, world.items@, chosen) ==> highlight_count(
                *query,
                world.items@,
                chosen,
            ) <= found@.len(),
{
    let ghost items = world.items@;
    let mut best: Vec<usize> = Vec::new();
    let n = query.requirements.len();
    let mut chosen: Vec<Option<usize>> = Vec::new();
    let mut i: usize = 0;
    while i < n
        invariant
            i <= n,
            n == query.requirements@.len(),
            chosen@.len() == i,
            forall|j: int| 0 <= j < i ==> (#[trigger] chosen@[j]) is None,
        decreases n - i,
    {
        chosen.push(None);
        i = i + 1;
    }
    proof {
        assert forall|group: u16| #[trigger] scenario_meet(items, chosen@, group, chosen@.len())
            != 0 by {
            lemma_nothing_chosen(items, query.requirements@, chosen@, 0, group, n as nat);
        }
        assert(consistent(*query, items, chosen@));
        assert(highlighted_by(*query, items, chosen@, best@));
    }
    if n == 0 {
        proof {
            assert forall|other: Seq<Option<usize>>| #[trigger] consistent(*query, items, other) implies highlight_count(
                *query,
                items,
                other,
            ) <= best@.len() by {
                assert(highlighted_set(*query, items, other) =~= Set::<usize>::empty());
            }
        }
        return best;
    }
    let ghost empty = chosen@;
    let leaders = slot_leaders(&query.requirements);
    let candidates = slot_candidates(query, &world.items, &leaders);
    let order = slot_order(&candidates);
    let slot_count = leaders.len();
    let mut selected: Vec<(usize, usize)> = Vec::new();
    proof {
        assert(leaders@.len() == slot_count);
        assert(layout(*query, items, leaders@, candidates@, order@));
    }
    visit(query, &world.items, &leaders, &candidates, &order, 0, &mut chosen, &mut selected, &mut best);
    proof {
        if upgrades_bounded(items) {
            assert forall|other: Seq<Option<usize>>| #[trigger] consistent(*query, items, other) implies highlight_count(
                *query,
                items,
                other,
            ) <= best@.len() by {
                let clean = lemma_cleanup(*query, items, other);
                assert(extends(clean, empty));
                assert(clean_completion(*query, items, leaders@, order@, empty, 0, clean));
            }
        }
    }
    best
}

// ---------------------------------------------------------------------------
// Laws
// ---------------------------------------------------------------------------

/// A prefix without an error has no erroneous requirement.
proof fn lemma_clean_prefix(requirements: Seq<Requirement>, n: nat, i: int)
    requires
        prefix_error(requirements, n) is None,
        0 <= i < n,
    ensures
        entry_error(requirements, i) is None,
    decreases n,
{
    if i < n - 1 {
        lemma_clean_prefix(requirements, (n - 1) as nat, i);
    }
}

/// A query that validates puts no combined-upgrade requirement inside an
/// alternative group, so `matches` decides exactly whether some assignment
/// of distinct world items fulfils it (for worlds whose items carry at most
/// the highest generated upgrade).
pub proof fn lemma_valid_queries_match_exactly(query: SearchQuery)
    requires
        query_error(query) is None,
    ensures
        sums_outside_alternatives(query.requirements@),
{
    let requirements = query.requirements@;
    assert forall|i: int|
        0 <= i < requirements.len() && (#[trigger] requirements[i].upgrade_sum) is Some implies requirements[i].alternative_group is None by {
        lemma_clean_prefix(requirements, requirements.len(), i);
    }
}

} // verus!
