//! The one-time inventory bags shops offer across a run, and the stock
//! entries that shops construct directly.
//!
//! The game chooses the bag with the greatest inventory-saving score; ties
//! are broken by the iteration order of an identity-keyed hash map, which
//! depends on the runtime rather than the seed. Every outcome of such a tie
//! is therefore kept as a possible remaining set.

use vstd::prelude::*;

use crate::text::{chars_of, decimal_text, signed_digits, string_of};

verus! {

/// A shop bag class.
#[derive(Clone, Copy, Debug, PartialEq, Eq, Structural, Hash)]
pub enum ShopBagKind {
    VelvetPouch,
    ScrollHolder,
    PotionBandolier,
    MagicalHolster,
}

/// Declaration position of a bag.
pub open spec fn bag_index(bag: ShopBagKind) -> u8 {
    match bag {
        ShopBagKind::VelvetPouch => 0,
        ShopBagKind::ScrollHolder => 1,
        ShopBagKind::PotionBandolier => 2,
        ShopBagKind::MagicalHolster => 3,
    }
}

/// The bag at a declaration position.
pub open spec fn bag_at(index: u8) -> ShopBagKind {
    if index == 0 {
        ShopBagKind::VelvetPouch
    } else if index == 1 {
        ShopBagKind::ScrollHolder
    } else if index == 2 {
        ShopBagKind::PotionBandolier
    } else {
        ShopBagKind::MagicalHolster
    }
}

/// Whether bit `index` of a bag mask is set.
pub open spec fn bag_bit(mask: u8, index: u8) -> bool {
    (mask >> index) & 1u8 == 1u8
}

/// The bags of a mask among the first `n` positions, in declaration order.
pub open spec fn bags_below(mask: u8, n: nat) -> Seq<ShopBagKind>
    decreases n,
{
    if n == 0 {
        Seq::empty()
    } else {
        let rest = bags_below(mask, (n - 1) as nat);
        if bag_bit(mask, (n - 1) as u8) {
            rest.push(bag_at((n - 1) as u8))
        } else {
            rest
        }
    }
}

/// Compact set of shop bags.
#[derive(Clone, Copy, Debug, PartialEq, Eq, Structural, Hash)]
pub struct ShopBagSet(u8);

impl View for ShopBagSet {
    type V = Seq<ShopBagKind>;

    /// The member bags in declaration order.
    closed spec fn view(&self) -> Seq<ShopBagKind> {
        bags_below(self.0, 4)
    }
}

proof fn lemma_bag_bits(mask: u8, k: u8, j: u8)
    by (bit_vector)
    requires
        k < 4,
        j < 8,
    ensures
        ((mask | (1u8 << k)) >> j) & 1u8 == 1u8 <==> (((mask >> j) & 1u8 == 1u8) || j == k),
        ((mask & !(1u8 << k)) >> j) & 1u8 == 1u8 <==> (((mask >> j) & 1u8 == 1u8) && j != k),
        ((1u8 << k) >> j) & 1u8 == 1u8 <==> j == k,
        mask < 16 ==> (mask | (1u8 << k)) < 16 && (mask & !(1u8 << k)) < 16 && (1u8 << k) < 16,
{
}

/// Membership of `bags_below` and its ordering.
proof fn lemma_bags_below(mask: u8, n: nat)
    requires
        n <= 4,
    ensures
        forall|b: ShopBagKind|
            bags_below(mask, n).contains(b) <==> (bag_index(b) < n && bag_bit(mask, bag_index(b))),
        forall|i: int, j: int|
            0 <= i < j < bags_below(mask, n).len() ==> bag_index(bags_below(mask, n)[i])
                < bag_index(bags_below(mask, n)[j]),
        forall|i: int|
            0 <= i < bags_below(mask, n).len() ==> bag_index(#[trigger] bags_below(mask, n)[i]) < n,
    decreases n,
{
    if n > 0 {
        lemma_bags_below(mask, (n - 1) as nat);
        let s = bags_below(mask, n);
        let rest = bags_below(mask, (n - 1) as nat);
        assert forall|b: ShopBagKind| s.contains(b) implies bag_index(b) < n && bag_bit(
            mask,
            bag_index(b),
        ) by {
            let i = choose|i: int| 0 <= i < s.len() && s[i] == b;
            if i < rest.len() {
                assert(rest[i] == b);
                assert(rest.contains(b));
            }
        }
        assert forall|b: ShopBagKind|
            bag_index(b) < n && bag_bit(mask, bag_index(b)) implies s.contains(b) by {
            if bag_index(b) == n - 1 {
                assert(s[s.len() - 1] == b);
            } else {
                assert(rest.contains(b));
                let i = choose|i: int| 0 <= i < rest.len() && rest[i] == b;
                assert(s[i] == b);
            }
        }
    }
}

/// Two masks below 16 with the same bits are equal.
proof fn lemma_same_bits(a: u8, b: u8)
    requires
        a < 16,
        b < 16,
        forall|j: u8| j < 4 ==> (bag_bit(a, j) <==> bag_bit(b, j)),
    ensures
        a == b,
{
    assert(bag_bit(a, 0) <==> bag_bit(b, 0));
    assert(bag_bit(a, 1) <==> bag_bit(b, 1));
    assert(bag_bit(a, 2) <==> bag_bit(b, 2));
    assert(bag_bit(a, 3) <==> bag_bit(b, 3));
    assert(a == b) by (bit_vector)
        requires
            a < 16,
            b < 16,
            ((a >> 0u8) & 1u8 == 1u8) <==> ((b >> 0u8) & 1u8 == 1u8),
            ((a >> 1u8) & 1u8 == 1u8) <==> ((b >> 1u8) & 1u8 == 1u8),
            ((a >> 2u8) & 1u8 == 1u8) <==> ((b >> 2u8) & 1u8 == 1u8),
            ((a >> 3u8) & 1u8 == 1u8) <==> ((b >> 3u8) & 1u8 == 1u8),
    ;
}

/// The declaration position of a bag.
pub fn bag_position(bag: ShopBagKind) -> (index: u8)
    ensures
        index == bag_index(bag),
        bag_at(index) == bag,
        index < 4,
{
    match bag {
        ShopBagKind::VelvetPouch => 0,
        ShopBagKind::ScrollHolder => 1,
        ShopBagKind::PotionBandolier => 2,
        ShopBagKind::MagicalHolster => 3,
    }
}

/// The bag at a declaration position.
fn bag_from(index: u8) -> (bag: ShopBagKind)
    requires
        index < 4,
    ensures
        bag == bag_at(index),
        bag_index(bag) == index,
{
    if index == 0 {
        ShopBagKind::VelvetPouch
    } else if index == 1 {
        ShopBagKind::ScrollHolder
    } else if index == 2 {
        ShopBagKind::PotionBandolier
    } else {
        ShopBagKind::MagicalHolster
    }
}

impl ShopBagSet {
    /// Masks only use the four bag bits.
    #[verifier::type_invariant]
    spec fn well_formed(self) -> bool {
        self.0 < 16
    }

    /// The membership mask.
    pub closed spec fn mask(self) -> u8 {
        self.0
    }

    /// The empty set.
    pub fn empty() -> (set: Self)
        ensures
            set@.len() == 0,
            set.mask() == 0,
    {
        proof {
            assert forall|j: u8| j < 4 implies !bag_bit(0, j) by {
                assert((0u8 >> j) & 1u8 == 0) by (bit_vector);
            }
            lemma_bags_below(0, 4);
            if bags_below(0, 4).len() > 0 {
                assert(bags_below(0, 4).contains(bags_below(0, 4)[0]));
            }
        }
        ShopBagSet(0)
    }

    /// All four bags.
    pub fn all() -> (set: Self)
        ensures
            forall|b: ShopBagKind| set@.contains(b),
            set.mask() == 15,
    {
        proof {
            lemma_bags_below(15, 4);
            assert forall|j: u8| j < 4 implies bag_bit(15, j) by {
                assert(j < 4 ==> (15u8 >> j) & 1u8 == 1u8) by (bit_vector);
            }
        }
        ShopBagSet(15)
    }

    /// The set holding one bag.
    pub fn one(bag: ShopBagKind) -> (set: Self)
        ensures
            set@ == seq![bag],
            set.mask() == 1u8 << bag_index(bag),
    {
        let index = bag_position(bag);
        proof {
            lemma_bag_bits(0, index, 0);
        }
        let set = ShopBagSet(1u8 << index);
        proof {
            lemma_bags_below(set.0, 4);
            assert forall|j: u8| j < 4 implies (bag_bit(set.0, j) <==> j == index) by {
                lemma_bag_bits(0, index, j);
            }
            assert(set@.contains(bag));
            assert forall|i: int| 0 <= i < set@.len() implies set@[i] == bag by {
                assert(set@.contains(set@[i]));
                assert(bag_at(bag_index(set@[i])) == set@[i]);
            }
            if set@.len() > 1 {
                assert(bag_index(set@[0]) < bag_index(set@[1]));
            }
            assert(set@ =~= seq![bag]);
        }
        set
    }

    /// Whether `bag` is a member.
    pub fn contains(self, bag: ShopBagKind) -> (member: bool)
        ensures
            member == self@.contains(bag),
    {
        proof {
            lemma_bags_below(self.0, 4);
        }
        let index = bag_position(bag);
        (self.0 >> index) & 1u8 == 1u8
    }

    /// The members in declaration order.
    pub fn iter(self) -> (bags: Vec<ShopBagKind>)
        ensures
            bags@ == self@,
    {
        let mut bags: Vec<ShopBagKind> = Vec::new();
        let mut index: u8 = 0;
        while index < 4
            invariant
                index <= 4,
                bags@ == bags_below(self.0, index as nat),
            decreases 4 - index,
        {
            if (self.0 >> index) & 1u8 == 1u8 {
                bags.push(bag_from(index));
            }
            index = index + 1;
        }
        bags
    }

    /// Number of bags in the set.
    pub fn len(self) -> (count: u32)
        ensures
            count == self@.len(),
    {
        let mut count: u32 = 0;
        let mut index: u8 = 0;
        while index < 4
            invariant
                index <= 4,
                count == bags_below(self.0, index as nat).len(),
                count <= index,
            decreases 4 - index,
        {
            if (self.0 >> index) & 1u8 == 1u8 {
                count = count + 1;
            }
            index = index + 1;
        }
        count
    }

    /// Whether no bag is present.
    pub fn is_empty(self) -> (empty: bool)
        ensures
            empty == (self@.len() == 0),
            empty == (self.mask() == 0),
    {
        proof {
            use_type_invariant(&self);
            lemma_bags_below(self.0, 4);
            if self.0 != 0 {
                let m = self.0;
                assert(exists|j: u8| j < 4 && bag_bit(m, j)) by {
                    assert(m != 0 && m < 16 ==> (m & 1u8 == 1u8 || (m >> 1u8) & 1u8 == 1u8 || (m
                        >> 2u8) & 1u8 == 1u8 || (m >> 3u8) & 1u8 == 1u8)) by (bit_vector);
                    assert((m >> 0u8) == m) by (bit_vector);
                    if bag_bit(m, 0) {
                    } else if bag_bit(m, 1) {
                    } else if bag_bit(m, 2) {
                    } else {
                        assert(bag_bit(m, 3));
                    }
                }
                let j = choose|j: u8| j < 4 && bag_bit(m, j);
                assert(bag_index(bag_at(j)) == j);
                assert(self@.contains(bag_at(j)));
            } else {
                if self@.len() > 0 {
                    let b = self@[0];
                    assert(self@.contains(b));
                    let i = bag_index(b);
                    assert((0u8 >> i) & 1u8 == 0) by (bit_vector);
                }
            }
        }
        self.0 == 0
    }

    /// The set without `bag`.
    pub fn without(self, bag: ShopBagKind) -> (set: Self)
        ensures
            forall|b: ShopBagKind| set@.contains(b) <==> (self@.contains(b) && b != bag),
            set.mask() == self.mask() & !(1u8 << bag_index(bag)),
    {
        proof {
            use_type_invariant(&self);
        }
        let index = bag_position(bag);
        proof {
            lemma_bag_bits(self.0, index, 0);
        }
        let set = ShopBagSet(self.0 & !(1u8 << index));
        proof {
            lemma_bags_below(self.0, 4);
            lemma_bags_below(set.0, 4);
            assert forall|b: ShopBagKind| set@.contains(b) <==> (self@.contains(b) && b != bag) by {
                lemma_bag_bits(self.0, index, bag_index(b));
                if bag_index(b) == index {
                    assert(b == bag);
                }
            }
        }
        set
    }

    /// Every bag of either set.
    pub fn union(self, other: Self) -> (set: Self)
        ensures
            forall|b: ShopBagKind| set@.contains(b) <==> (self@.contains(b) || other@.contains(b)),
            set.mask() == self.mask() | other.mask(),
    {
        proof {
            use_type_invariant(&self);
            use_type_invariant(&other);
            let a = self.0;
            let c = other.0;
            assert(a < 16 && c < 16 ==> (a | c) < 16) by (bit_vector);
        }
        let set = ShopBagSet(self.0 | other.0);
        proof {
            lemma_bags_below(self.0, 4);
            lemma_bags_below(other.0, 4);
            lemma_bags_below(set.0, 4);
            assert forall|b: ShopBagKind|
                set@.contains(b) <==> (self@.contains(b) || other@.contains(b)) by {
                let j = bag_index(b);
                let a = self.0;
                let c = other.0;
                assert(((a | c) >> j) & 1u8 == 1u8 <==> ((a >> j) & 1u8 == 1u8 || (c >> j) & 1u8
                    == 1u8)) by (bit_vector);
            }
        }
        set
    }
}

/// What a shop's bag slot offers.
#[derive(Clone, Copy, Debug, PartialEq, Eq, Structural)]
pub enum ShopBagOffer {
    /// Exactly one eligible bag had the greatest inventory-saving score.
    Deterministic(ShopBagKind),
    /// Several bags tied; the concrete winner depends on the runtime, not the
    /// seed.
    RuntimeHashMapTie { candidates: ShopBagSet },
}

impl ShopBagOffer {
    /// Every concrete bag this offer can stand for.
    pub fn candidates(self) -> (candidates: ShopBagSet)
        ensures
            candidates@ == (match self {
                ShopBagOffer::Deterministic(bag) => seq![bag],
                ShopBagOffer::RuntimeHashMapTie { candidates } => candidates@,
            }),
    {
        match self {
            ShopBagOffer::Deterministic(bag) => ShopBagSet::one(bag),
            ShopBagOffer::RuntimeHashMapTie { candidates } => candidates,
        }
    }
}

/// Whether bit `index` of a set of possible masks is set.
pub open spec fn mask_possible(masks: u16, index: u8) -> bool {
    (masks >> index) & 1u16 == 1u16
}

/// Bag `j` has the greatest saving among the bags of `mask`.
pub open spec fn is_top(mask: u8, savings: Seq<i32>, j: u8) -> bool {
    &&& j < 4
    &&& bag_bit(mask, j)
    &&& forall|k: u8| k < 4 && bag_bit(mask, k) ==> savings[k as int] <= savings[j as int]
}

/// Bag `j` is offered: it is a best bag of some possible non-empty set.
pub open spec fn offered_bag(masks: u16, savings: Seq<i32>, j: u8) -> bool {
    exists|m: u8| m < 16 && m != 0 && mask_possible(masks, m) && #[trigger] is_top(m, savings, j)
}

/// Set `n` may remain after the offer: the empty set stays empty, and any
/// other possible set loses one of its best bags.
pub open spec fn remains_after(masks: u16, savings: Seq<i32>, n: u8) -> bool {
    ||| (mask_possible(masks, 0) && n == 0)
    ||| exists|m: u8, j: u8|
        m < 16 && m != 0 && mask_possible(masks, m) && #[trigger] is_top(m, savings, j) && n == (m
            & !(1u8 << j))
}

proof fn lemma_mask_bits(x: u16, k: u8, n: u8)
    by (bit_vector)
    requires
        k < 16,
        n < 16,
    ensures
        ((x | (1u16 << k)) >> n) & 1u16 == 1u16 <==> (((x >> n) & 1u16 == 1u16) || n == k),
        ((1u16 << k) >> n) & 1u16 == 1u16 <==> n == k,
{
}

/// The bags offered by the possible sets below `m`.
spec fn offered_below(offered: u8, masks: u16, scores: Seq<i32>, m: int) -> bool {
    forall|k: u8|
        k < 4 ==> (bag_bit(offered, k) <==> exists|mm: u8|
            mm < m && mm != 0 && mask_possible(masks, mm) && #[trigger] is_top(mm, scores, k))
}

/// The sets that may remain after offering to the possible sets below `m`.
spec fn remaining_below(next: u16, masks: u16, scores: Seq<i32>, m: int) -> bool {
    forall|n: u8|
        n < 16 ==> (mask_possible(next, n) <==> ((m > 0 && mask_possible(masks, 0) && n == 0)
            || exists|mm: u8, j: u8|
            mm < m && mm != 0 && mask_possible(masks, mm) && #[trigger] is_top(mm, scores, j) && n
                == (mm & !(1u8 << j))))
}

/// A set that is not possible, or the empty set, adds no offer.
proof fn lemma_offer_step_plain(
    offered: u8,
    next_before: u16,
    next: u16,
    masks: u16,
    scores: Seq<i32>,
    m: u8,
)
    requires
        m < 16,
        offered_below(offered, masks, scores, m as int),
        remaining_below(next_before, masks, scores, m as int),
        !mask_possible(masks, m) || m == 0,
        forall|n: u8|
            n < 16 ==> (mask_possible(next, n) <==> (mask_possible(next_before, n) || (m == 0
                && mask_possible(masks, 0) && n == 0))),
    ensures
        offered_below(offered, masks, scores, m + 1),
        remaining_below(next, masks, scores, m + 1),
{
    assert forall|k: u8| k < 4 implies (bag_bit(offered, k) <==> exists|mm: u8|
        mm < m + 1 && mm != 0 && mask_possible(masks, mm) && #[trigger] is_top(mm, scores, k)) by {
        if exists|mm: u8| mm < m + 1 && mm != 0 && mask_possible(masks, mm) && #[trigger] is_top(mm, scores, k) {
            let mm = choose|mm: u8| mm < m + 1 && mm != 0 && mask_possible(masks, mm) && #[trigger] is_top(mm, scores, k);
            assert(mm < m && mm != 0 && mask_possible(masks, mm) && is_top(mm, scores, k));
        }
        if bag_bit(offered, k) {
            let mm = choose|mm: u8| mm < m && mm != 0 && mask_possible(masks, mm) && #[trigger] is_top(mm, scores, k);
            assert(mm < m + 1 && mm != 0 && mask_possible(masks, mm) && is_top(mm, scores, k));
        }
    }
    assert forall|n: u8| n < 16 implies (mask_possible(next, n) <==> ((m + 1 > 0 && mask_possible(masks, 0) && n == 0)
        || exists|mm: u8, j: u8|
        mm < m + 1 && mm != 0 && mask_possible(masks, mm) && #[trigger] is_top(mm, scores, j) && n
            == (mm & !(1u8 << j)))) by {
        if exists|mm: u8, j: u8| mm < m + 1 && mm != 0 && mask_possible(masks, mm) && #[trigger] is_top(mm, scores, j) && n == (mm & !(1u8 << j)) {
            let (mm, j) = choose|mm: u8, j: u8| mm < m + 1 && mm != 0 && mask_possible(masks, mm) && #[trigger] is_top(mm, scores, j) && n == (mm & !(1u8 << j));
            assert(mm < m && mm != 0 && mask_possible(masks, mm) && is_top(mm, scores, j) && n == (mm & !(1u8 << j)));
        }
        if mask_possible(next_before, n) && !(m > 0 && mask_possible(masks, 0) && n == 0) {
            let (mm, j) = choose|mm: u8, j: u8| mm < m && mm != 0 && mask_possible(masks, mm) && #[trigger] is_top(mm, scores, j) && n == (mm & !(1u8 << j));
            assert(mm < m + 1 && mm != 0 && mask_possible(masks, mm) && is_top(mm, scores, j) && n == (mm & !(1u8 << j)));
        }
    }
}

/// A possible non-empty set offers its best bags and may lose any one of them.
proof fn lemma_offer_step_top(
    offered_before: u8,
    offered: u8,
    next_before: u16,
    next: u16,
    masks: u16,
    scores: Seq<i32>,
    m: u8,
)
    requires
        m < 16,
        m != 0,
        mask_possible(masks, m),
        offered_below(offered_before, masks, scores, m as int),
        remaining_below(next_before, masks, scores, m as int),
        forall|k: u8|
            k < 4 ==> (bag_bit(offered, k) <==> (bag_bit(offered_before, k) || is_top(m, scores, k))),
        forall|n: u8|
            n < 16 ==> (mask_possible(next, n) <==> (mask_possible(next_before, n) || exists|k: u8|
                k < 4 && #[trigger] is_top(m, scores, k) && n == (m & !(1u8 << k)))),
    ensures
        offered_below(offered, masks, scores, m + 1),
        remaining_below(next, masks, scores, m + 1),
{
    assert forall|k: u8| k < 4 implies (bag_bit(offered, k) <==> exists|mm: u8|
        mm < m + 1 && mm != 0 && mask_possible(masks, mm) && #[trigger] is_top(mm, scores, k)) by {
        if exists|mm: u8| mm < m + 1 && mm != 0 && mask_possible(masks, mm) && #[trigger] is_top(mm, scores, k) {
            let mm = choose|mm: u8| mm < m + 1 && mm != 0 && mask_possible(masks, mm) && #[trigger] is_top(mm, scores, k);
            if mm < m {
                assert(exists|q: u8| q < m && q != 0 && mask_possible(masks, q) && #[trigger] is_top(q, scores, k));
            }
        }
        if bag_bit(offered, k) {
            if bag_bit(offered_before, k) {
                let mm = choose|mm: u8| mm < m && mm != 0 && mask_possible(masks, mm) && #[trigger] is_top(mm, scores, k);
                assert(mm < m + 1 && mm != 0 && mask_possible(masks, mm) && is_top(mm, scores, k));
            } else {
                assert(m < m + 1 && m != 0 && mask_possible(masks, m) && is_top(m, scores, k));
            }
        }
    }
    assert forall|n: u8| n < 16 implies (mask_possible(next, n) <==> ((m + 1 > 0 && mask_possible(masks, 0) && n == 0)
        || exists|mm: u8, j: u8|
        mm < m + 1 && mm != 0 && mask_possible(masks, mm) && #[trigger] is_top(mm, scores, j) && n
            == (mm & !(1u8 << j)))) by {
        if exists|mm: u8, j: u8| mm < m + 1 && mm != 0 && mask_possible(masks, mm) && #[trigger] is_top(mm, scores, j) && n == (mm & !(1u8 << j)) {
            let (mm, j) = choose|mm: u8, j: u8| mm < m + 1 && mm != 0 && mask_possible(masks, mm) && #[trigger] is_top(mm, scores, j) && n == (mm & !(1u8 << j));
            if mm < m {
                assert(exists|q: u8, k: u8| q < m && q != 0 && mask_possible(masks, q) && #[trigger] is_top(q, scores, k) && n == (q & !(1u8 << k)));
            } else {
                assert(j < 4 && is_top(m, scores, j) && n == (m & !(1u8 << j)));
            }
        }
        if mask_possible(next, n) {
            if mask_possible(next_before, n) {
                if !(m > 0 && mask_possible(masks, 0) && n == 0) {
                    let (mm, j) = choose|mm: u8, j: u8| mm < m && mm != 0 && mask_possible(masks, mm) && #[trigger] is_top(mm, scores, j) && n == (mm & !(1u8 << j));
                    assert(mm < m + 1 && mm != 0 && mask_possible(masks, mm) && is_top(mm, scores, j) && n == (mm & !(1u8 << j)));
                }
            } else {
                let k = choose|k: u8| k < 4 && #[trigger] is_top(m, scores, k) && n == (m & !(1u8 << k));
                assert(m < m + 1 && m != 0 && mask_possible(masks, m) && is_top(m, scores, k) && n == (m & !(1u8 << k)));
            }
        }
    }
}

/// Adding a best bag to the offered mask extends the offered bags by one position.
proof fn lemma_offered_grows(
    now: u8,
    new: u8,
    before: u8,
    m: u8,
    scores: Seq<i32>,
    j: u8,
    added: bool,
)
    requires
        j < 4,
        added ==> new == now | (1u8 << j) && is_top(m, scores, j),
        !added ==> new == now && !is_top(m, scores, j),
        forall|k: u8|
            k < 4 ==> (#[trigger] bag_bit(now, k) <==> (bag_bit(before, k) || (k < j && is_top(
                m,
                scores,
                k,
            )))),
    ensures
        forall|k: u8|
            k < 4 ==> (#[trigger] bag_bit(new, k) <==> (bag_bit(before, k) || (k < j + 1 && is_top(
                m,
                scores,
                k,
            )))),
{
    assert forall|k: u8| k < 4 implies (#[trigger] bag_bit(new, k) <==> (bag_bit(before, k) || (k
        < j + 1 && is_top(m, scores, k)))) by {
        assert(bag_bit(now, k) <==> (bag_bit(before, k) || (k < j && is_top(m, scores, k))));
        if added {
            lemma_bag_bits(now, j, k);
        }
    }
}

/// Cross-floor state of the four one-time bag drops: every set of bags that
/// may still remain after the runtime-dependent ties so far, and the
/// inventory-saving score of each bag.
#[derive(Clone, Copy, Debug, PartialEq, Eq)]
pub struct ShopBagState {
    possible_remaining_masks: u16,
    savings: [i32; 4],
}

impl ShopBagState {
    /// The possible remaining sets, one bit per mask.
    pub closed spec fn masks(self) -> u16 {
        self.possible_remaining_masks
    }

    /// Whether the bags of `mask` may remain.
    pub closed spec fn possible(self, mask: u8) -> bool {
        mask_possible(self.possible_remaining_masks, mask)
    }

    /// The inventory-saving scores, by bag position.
    pub closed spec fn scores(self) -> Seq<i32> {
        self.savings@
    }

    /// State for a known set of available bags and their scores.
    pub fn with_scores(available: ShopBagSet, savings: [i32; 4]) -> (state: Self)
        ensures
            forall|m: u8| m < 16 ==> (state.possible(m) <==> m == available.mask()),
            state.scores() == savings@,
    {
        proof {
            use_type_invariant(&available);
        }
        let state = ShopBagState { possible_remaining_masks: 1u16 << available.0, savings };
        proof {
            assert forall|m: u8| m < 16 implies (state.possible(m) <==> m == available.mask()) by {
                lemma_mask_bits(0, available.0, m);
            }
        }
        state
    }

    /// A fresh Warrior: the Velvet Pouch is already carried; the waterskin and
    /// throwing stones make the bandolier and holster save one slot each.
    pub fn canonical_warrior() -> (state: Self)
        ensures
            forall|m: u8| m < 16 ==> (state.possible(m) <==> m == 14),
            state.scores() == seq![1i32, 0, 1, 1],
    {
        let available = ShopBagSet::all().without(ShopBagKind::VelvetPouch);
        proof {
            assert(15u8 & !(1u8 << 0u8) == 14) by (bit_vector);
        }
        let state = ShopBagState::with_scores(available, [1, 0, 1, 1]);
        proof {
            assert(state.scores() =~= seq![1i32, 0, 1, 1]);
        }
        state
    }

    /// Every bag that may still remain after the unresolved ties.
    pub fn possibly_remaining(self) -> (bags: ShopBagSet)
        ensures
            forall|b: ShopBagKind|
                bags@.contains(b) <==> exists|m: u8|
                    m < 16 && self.possible(m) && #[trigger] bag_bit(m, bag_index(b)),
    {
        let mut union = ShopBagSet::empty();
        let mut mask: u8 = 0;
        while mask < 16
            invariant
                mask <= 16,
                forall|b: ShopBagKind|
                    union@.contains(b) <==> exists|m: u8|
                        m < mask && self.possible(m) && #[trigger] bag_bit(m, bag_index(b)),
            decreases 16 - mask,
        {
            let ghost before = union;
            if (self.possible_remaining_masks >> mask) & 1u16 == 1u16 {
                let set = ShopBagSet(mask);
                proof {
                    lemma_bags_below(mask, 4);
                }
                union = union.union(set);
                proof {
                    assert forall|b: ShopBagKind|
                        union@.contains(b) <==> exists|m: u8|
                            m < mask + 1 && self.possible(m) && #[trigger] bag_bit(m, bag_index(b)) by {
                        if set@.contains(b) {
                            assert(bag_bit(mask, bag_index(b)));
                        }
                        if exists|m: u8| m < mask + 1 && self.possible(m) && #[trigger] bag_bit(m, bag_index(b)) {
                            let m = choose|m: u8| m < mask + 1 && self.possible(m) && #[trigger] bag_bit(m, bag_index(b));
                            if m == mask {
                                assert(set@.contains(b));
                            }
                        }
                    }
                }
            } else {
                proof {
                    assert forall|b: ShopBagKind|
                        union@.contains(b) <==> exists|m: u8|
                            m < mask + 1 && self.possible(m) && #[trigger] bag_bit(m, bag_index(b)) by {
                        if exists|m: u8| m < mask + 1 && self.possible(m) && #[trigger] bag_bit(m, bag_index(b)) {
                            let m = choose|m: u8| m < mask + 1 && self.possible(m) && #[trigger] bag_bit(m, bag_index(b));
                            assert(m != mask);
                        }
                    }
                }
            }
            mask = mask + 1;
        }
        union
    }

    /// The bag the next shop offers: the best-scoring bags of every possible
    /// remaining set. One such bag is a deterministic offer; several are a
    /// runtime-dependent tie. Each possible set then loses one of its best
    /// bags, every choice kept as a possibility.
    pub fn offer_next(&mut self) -> (offer: Option<ShopBagOffer>)
        ensures
            final(self).scores() == old(self).scores(),
            forall|n: u8|
                n < 16 ==> (final(self).possible(n) <==> remains_after(
                    old(self).masks(),
                    old(self).scores(),
                    n,
                )),
            match offer {
                None => forall|j: u8| j < 4 ==> !offered_bag(old(self).masks(), old(self).scores(), j),
                Some(ShopBagOffer::Deterministic(bag)) => forall|j: u8|
                    j < 4 ==> (offered_bag(old(self).masks(), old(self).scores(), j) <==> j
                        == bag_index(bag)),
                Some(ShopBagOffer::RuntimeHashMapTie { candidates }) => candidates@.len() > 1
                    && forall|b: ShopBagKind|
                    candidates@.contains(b) <==> offered_bag(
                        old(self).masks(),
                        old(self).scores(),
                        bag_index(b),
                    ),
            },
    {
        let masks = self.possible_remaining_masks;
        let savings = self.savings;
        let ghost scores = savings@;
        let mut offered = ShopBagSet::empty();
        let mut next: u16 = 0;
        proof {
            assert forall|n: u8| n < 16 implies !mask_possible(0, n) by {
                assert((0u16 >> n) & 1u16 == 0) by (bit_vector);
            }
            assert forall|j: u8| j < 4 implies !bag_bit(offered.mask(), j) by {
                assert((0u8 >> j) & 1u8 == 0) by (bit_vector);
            }
            assert(offered_below(offered.mask(), masks, scores, 0));
            assert(remaining_below(next, masks, scores, 0));
        }
        let mut m: u8 = 0;
        while m < 16
            invariant
                m <= 16,
                savings@ == scores,
                offered_below(offered.mask(), masks, scores, m as int),
                remaining_below(next, masks, scores, m as int),
            decreases 16 - m,
        {
            let ghost offered_before = offered.mask();
            let ghost next_before = next;
            if (masks >> m) & 1u16 == 1u16 {
                if m == 0 {
                    next = next | 1u16;
                    proof {
                        assert(1u16 << 0u8 == 1u16) by (bit_vector);
                        assert forall|n: u8| n < 16 implies (mask_possible(next, n) <==> (
                        mask_possible(next_before, n) || (m == 0 && mask_possible(masks, 0) && n == 0))) by {
                            lemma_mask_bits(next_before, 0, n);
                        }
                        lemma_offer_step_plain(offered.mask(), next_before, next, masks, scores, m);
                    }
                } else {
                    let mut best: i32 = i32::MIN;
                    let mut found = false;
                    let mut j: u8 = 0;
                    while j < 4
                        invariant
                            j <= 4,
                            savings@ == scores,
                            found <==> exists|k: u8| k < j && bag_bit(m, k),
                            found ==> (exists|k: u8| k < j && bag_bit(m, k) && scores[k as int] == best),
                            forall|k: u8| k < j && bag_bit(m, k) ==> scores[k as int] <= best,
                        decreases 4 - j,
                    {
                        let ghost found_before = found;
                        let ghost best_before = best;
                        if (m >> j) & 1u8 == 1u8 {
                            if !found || savings[j as usize] > best {
                                best = savings[j as usize];
                            }
                            found = true;
                        }
                        proof {
                            if bag_bit(m, j) {
                                assert(j < j + 1 && bag_bit(m, j));
                                if best == scores[j as int] {
                                    assert(j < j + 1 && bag_bit(m, j) && scores[j as int] == best);
                                } else {
                                    let w = choose|k: u8| k < j && bag_bit(m, k) && scores[k as int] == best_before;
                                    assert(w < j + 1 && bag_bit(m, w) && scores[w as int] == best);
                                }
                            } else {
                                if exists|k: u8| k < j + 1 && bag_bit(m, k) {
                                    let k = choose|k: u8| k < j + 1 && bag_bit(m, k);
                                    assert(k < j && bag_bit(m, k));
                                }
                                if found {
                                    let w = choose|k: u8| k < j && bag_bit(m, k) && scores[k as int] == best;
                                    assert(w < j + 1 && bag_bit(m, w) && scores[w as int] == best);
                                }
                            }
                        }
                        j = j + 1;
                    }
                    proof {
                        assert(m < 16 && m != 0 ==> ((m >> 0u8) & 1u8 == 1u8 || (m >> 1u8) & 1u8
                            == 1u8 || (m >> 2u8) & 1u8 == 1u8 || (m >> 3u8) & 1u8 == 1u8))
                            by (bit_vector);
                        if bag_bit(m, 0) {
                            assert(0u8 < 4 && bag_bit(m, 0));
                        } else if bag_bit(m, 1) {
                            assert(1u8 < 4 && bag_bit(m, 1));
                        } else if bag_bit(m, 2) {
                            assert(2u8 < 4 && bag_bit(m, 2));
                        } else {
                            assert(3u8 < 4 && bag_bit(m, 3));
                        }
                        assert(found);
                        assert forall|k: u8| #[trigger] is_top(m, scores, k) <==> (k < 4 && bag_bit(m, k)
                            && scores[k as int] == best) by {
                            if k < 4 && bag_bit(m, k) && scores[k as int] == best {
                                assert forall|q: u8| q < 4 && bag_bit(m, q) implies scores[q as int]
                                    <= scores[k as int] by {}
                            }
                            if is_top(m, scores, k) {
                                let w = choose|w: u8| w < 4 && bag_bit(m, w) && scores[w as int] == best;
                                assert(scores[w as int] <= scores[k as int]);
                            }
                        }
                    }
                    let mut j: u8 = 0;
                    while j < 4
                        invariant
                            j <= 4,
                            m < 16,
                            m != 0,
                            mask_possible(masks, m),
                            savings@ == scores,
                            forall|k: u8| #[trigger] is_top(m, scores, k) <==> (k < 4 && bag_bit(m, k)
                                && scores[k as int] == best),
                            forall|k: u8|
                                k < 4 ==> (#[trigger] bag_bit(offered.mask(), k) <==> (bag_bit(
                                    offered_before,
                                    k,
                                ) || (k < j && is_top(m, scores, k)))),
                            forall|n: u8|
                                n < 16 ==> (mask_possible(next, n) <==> (mask_possible(next_before, n)
                                    || exists|k: u8| k < j && #[trigger] is_top(m, scores, k) && n == (m
                                    & !(1u8 << k)))),
                        decreases 4 - j,
                    {
                        if (m >> j) & 1u8 == 1u8 && savings[j as usize] == best {
                            let ghost offered_now = offered.mask();
                            let ghost next_now = next;
                            let bag = bag_from(j);
                            let single = ShopBagSet::one(bag);
                            assert(single.mask() == 1u8 << j);
                            offered = offered.union(single);
                            assert(offered.mask() == offered_now | (1u8 << j));
                            assert(is_top(m, scores, j));
                            proof {
                                lemma_bag_bits(m, j, 0);
                            }
                            let remaining = m & !(1u8 << j);
                            next = next | (1u16 << remaining);
                            proof {
                                lemma_offered_grows(offered_now, offered.mask(), offered_before, m, scores, j, true);
                                assert forall|n: u8| n < 16 implies (mask_possible(next, n) <==> (
                                mask_possible(next_before, n) || exists|k: u8|
                                    k < j + 1 && #[trigger] is_top(m, scores, k) && n == (m & !(1u8
                                        << k)))) by {
                                    lemma_mask_bits(next_now, remaining, n);
                                    assert(mask_possible(next_now, n) <==> (mask_possible(next_before, n)
                                        || exists|k: u8| k < j && #[trigger] is_top(m, scores, k) && n == (m
                                        & !(1u8 << k))));
                                    if n == remaining {
                                        assert(is_top(m, scores, j));
                                    }
                                    if exists|k: u8| k < j + 1 && #[trigger] is_top(m, scores, k) && n == (m & !(1u8 << k)) {
                                        let k = choose|k: u8| k < j + 1 && #[trigger] is_top(m, scores, k) && n == (m & !(1u8 << k));
                                        if k < j {
                                            assert(exists|k: u8| k < j && #[trigger] is_top(m, scores, k) && n == (m & !(1u8 << k)));
                                        }
                                    }
                                }
                            }
                        } else {
                            proof {
                                assert(!is_top(m, scores, j));
                                lemma_offered_grows(offered.mask(), offered.mask(), offered_before, m, scores, j, false);
                                assert forall|n: u8| n < 16 implies (mask_possible(next, n) <==> (
                                mask_possible(next_before, n) || exists|k: u8|
                                    k < j + 1 && #[trigger] is_top(m, scores, k) && n == (m & !(1u8
                                        << k)))) by {
                                    if exists|k: u8| k < j + 1 && #[trigger] is_top(m, scores, k) && n == (m & !(1u8 << k)) {
                                        let k = choose|k: u8| k < j + 1 && #[trigger] is_top(m, scores, k) && n == (m & !(1u8 << k));
                                        if k < j {
                                            assert(exists|k: u8| k < j && #[trigger] is_top(m, scores, k) && n == (m & !(1u8 << k)));
                                        }
                                    }
                                }
                            }
                        }
                        j = j + 1;
                    }
                    proof {
                        lemma_offer_step_top(offered_before, offered.mask(), next_before, next, masks, scores, m);
                    }
                }
            } else {
                proof {
                    lemma_offer_step_plain(offered.mask(), next_before, next, masks, scores, m);
                }
            }
            m = m + 1;
        }
        self.possible_remaining_masks = next;
        proof {
            lemma_bags_below(offered.mask(), 4);
            assert(offered@ == bags_below(offered.mask(), 4));
        }
        let count = offered.len();
        if count == 0 {
            proof {
                assert forall|j: u8| j < 4 implies !offered_bag(masks, scores, j) by {
                    if bag_bit(offered.mask(), j) {
                        assert(offered@.contains(bag_at(j)));
                    }
                }
            }
            None
        } else if count == 1 {
            let bags = offered.iter();
            let bag = bags[0];
            proof {
                assert forall|j: u8| j < 4 implies (offered_bag(masks, scores, j) <==> j == bag_index(bag)) by {
                    if bag_bit(offered.mask(), j) {
                        assert(offered@.contains(bag_at(j)));
                        let i = choose|i: int| 0 <= i < offered@.len() && offered@[i] == bag_at(j);
                        assert(i == 0);
                    }
                    if j == bag_index(bag) {
                        assert(offered@.contains(bag));
                    }
                }
            }
            Some(ShopBagOffer::Deterministic(bag))
        } else {
            Some(ShopBagOffer::RuntimeHashMapTie { candidates: offered })
        }
    }
}

impl Default for ShopBagState {
    fn default() -> (state: Self)
        ensures
            forall|m: u8| m < 16 ==> (state.possible(m) <==> m == 14),
            state.scores() == seq![1i32, 0, 1, 1],
    {
        ShopBagState::canonical_warrior()
    }
}

/// The Timekeeper's Hourglass as shops see it.
#[derive(Clone, Copy, Debug, PartialEq, Eq, Structural)]
pub enum ShopHourglassState {
    /// No identified, uncursed hourglass is carried.
    Ineligible,
    /// An identified, uncursed hourglass with the given current bag count.
    Eligible { sand_bags: i32 },
}

/// Non-random state mutated as shops are generated across a run.
#[derive(Clone, Copy, Debug, PartialEq, Eq)]
pub struct ShopRunState {
    pub bags: ShopBagState,
    pub hourglass: ShopHourglassState,
}

impl Default for ShopRunState {
    fn default() -> (state: Self)
        ensures
            forall|m: u8| m < 16 ==> (state.bags.possible(m) <==> m == 14),
            state.bags.scores() == seq![1i32, 0, 1, 1],
            state.hourglass == ShopHourglassState::Ineligible,
    {
        ShopRunState { bags: ShopBagState::canonical_warrior(), hourglass: ShopHourglassState::Ineligible }
    }
}

/// Stock that shops construct directly, without randomizing the item.
#[derive(Clone, Copy, Debug, PartialEq, Eq, Structural)]
pub enum DirectShopItem {
    Alchemize { quantity: i32 },
    Bag(ShopBagOffer),
    PotionOfHealing,
    ScrollOfIdentify,
    ScrollOfRemoveCurse,
    ScrollOfMagicMapping,
    SmallRation,
    Honeypot,
    Ankh,
    StoneOfAugmentation,
    Stylus,
    Torch,
    HourglassSandBag,
}

/// Shop-generation failures that do not come from the item generator.
#[derive(Clone, Copy, Debug, PartialEq, Eq, Structural)]
pub enum ShopError {
    UnsupportedDepth(i32),
    CacheInvariant,
}

impl ShopError {
    /// The user-facing explanation of the error.
    pub fn message(self) -> (text: String)
        ensures
            text@ == match self {
                ShopError::UnsupportedDepth(depth) => "no canonical shop at depth "@ + decimal_text(
                    depth as int,
                ),
                ShopError::CacheInvariant => "shop cache failed to retain stock"@,
            },
    {
        match self {
            ShopError::UnsupportedDepth(depth) => describe_depth(depth),
            ShopError::CacheInvariant => String::from_str("shop cache failed to retain stock"),
        }
    }
}

/// The message for a depth without a canonical shop.
fn describe_depth(depth: i32) -> (text: String)
    ensures
        text@ == "no canonical shop at depth "@ + decimal_text(depth as int),
{
    let mut chars = chars_of("no canonical shop at depth ");
    let mut digits = signed_digits(depth as i64);
    chars.append(&mut digits);
    string_of(&chars)
}

/// An offer only draws on bags that may remain, and afterwards every set that
/// may remain is a set that could remain before, less one bag unless it was
/// already empty: offers never bring a bag back, so every bag is offered at
/// most once per possibility.
pub proof fn lemma_offers_shrink(masks: u16, scores: Seq<i32>)
    ensures
        forall|j: u8|
            j < 4 && #[trigger] offered_bag(masks, scores, j) ==> exists|m: u8|
                m < 16 && mask_possible(masks, m) && #[trigger] bag_bit(m, j),
        forall|n: u8|
            n < 16 && #[trigger] remains_after(masks, scores, n) ==> exists|m: u8|
                m < 16 && mask_possible(masks, m) && (m == 0 || n != m) && forall|k: u8|
                    k < 4 && #[trigger] bag_bit(n, k) ==> bag_bit(m, k),
{
    assert forall|j: u8| j < 4 && #[trigger] offered_bag(masks, scores, j) implies exists|m: u8|
        m < 16 && mask_possible(masks, m) && #[trigger] bag_bit(m, j) by {
        let m = choose|m: u8| m < 16 && m != 0 && mask_possible(masks, m) && #[trigger] is_top(m, scores, j);
        assert(bag_bit(m, j));
    }
    assert forall|n: u8| n < 16 && #[trigger] remains_after(masks, scores, n) implies exists|m: u8|
        m < 16 && mask_possible(masks, m) && (m == 0 || n != m) && forall|k: u8|
            k < 4 && #[trigger] bag_bit(n, k) ==> bag_bit(m, k) by {
        if mask_possible(masks, 0) && n == 0 {
            assert forall|k: u8| k < 4 && #[trigger] bag_bit(n, k) implies bag_bit(0u8, k) by {}
            assert(0u8 < 16 && mask_possible(masks, 0u8) && (0u8 == 0 || n != 0u8));
        } else {
            let (m, j) = choose|m: u8, j: u8|
                m < 16 && m != 0 && mask_possible(masks, m) && #[trigger] is_top(m, scores, j) && n
                    == (m & !(1u8 << j));
            lemma_bag_bits(m, j, j);
            assert forall|k: u8| k < 4 && #[trigger] bag_bit(n, k) implies bag_bit(m, k) by {
                lemma_bag_bits(m, j, k);
            }
            assert(n != m);
        }
    }
}

} // verus!
