//! Bit-for-bit replicas of `java.util.Random` and Shattered's RNG wrapper.

use vstd::prelude::*;

verus! {

/// Multiplier of the 48-bit linear congruence.
pub const MULTIPLIER: u64 = 0x0005_DEEC_E66D;

/// Increment of the 48-bit linear congruence.
pub const ADDEND: u64 = 0xB;

/// Low 48 bits.
pub const MASK: u64 = 0xFFFF_FFFF_FFFF;

/// Multiplier of Shattered's MX3 seed scramble.
pub const MX3_MULTIPLIER: u64 = 0xBEA2_25F9_EB34_556D;

/// Number of distinct generator states, 2^48.
pub open spec fn state_space() -> int {
    0x1_0000_0000_0000
}

/// One step of the congruence `state * 0x5DEECE66D + 0xB (mod 2^48)`.
pub open spec fn lcg_next(state: u64) -> u64 {
    ((state * MULTIPLIER + ADDEND) % state_space()) as u64
}

/// The state reached after `steps` congruence steps.
pub open spec fn lcg_iter(state: u64, steps: nat) -> u64
    decreases steps,
{
    if steps == 0 {
        state
    } else {
        lcg_iter(lcg_next(state), (steps - 1) as nat)
    }
}

/// The initial state of `new java.util.Random(seed)`.
pub open spec fn seeded_state(seed: i64) -> u64 {
    ((seed as u64) ^ MULTIPLIER) & MASK
}

/// The top `bits` of a (post-step) 48-bit state.
pub open spec fn top_bits(state: u64, bits: u32) -> u32 {
    (state >> ((48 - bits) as u64)) as u32
}

/// Java's `nextInt()` value drawn from a (post-step) state.
pub open spec fn int_of(state: u64) -> i32 {
    top_bits(state, 32) as i32
}

/// Java's `nextLong()`: the high word shifted up, plus the sign-extended low word.
pub open spec fn long_of(high: i32, low: i32) -> i64 {
    vstd::wrapping::i64_specs::wrapping_add((high * 0x1_0000_0000) as i64, low as i64)
}

/// `nextLong()` drawn from a pre-step state: two consecutive `nextInt()` values.
pub open spec fn long_from(state: u64) -> i64 {
    long_of(int_of(lcg_next(state)), int_of(lcg_next(lcg_next(state))))
}

/// Shattered's MX3 pre-scramble of a seed.
pub open spec fn scrambled(seed: i64) -> i64 {
    let v0 = seed as u64;
    let v1 = v0 ^ (v0 >> 32u64);
    let v2 = v1.wrapping_mul(MX3_MULTIPLIER);
    let v3 = v2 ^ (v2 >> 29u64);
    let v4 = v3.wrapping_mul(MX3_MULTIPLIER);
    let v5 = v4 ^ (v4 >> 32u64);
    let v6 = v5.wrapping_mul(MX3_MULTIPLIER);
    let v7 = v6 ^ (v6 >> 29u64);
    v7 as i64
}

proof fn lemma_lcg_step(state: u64)
    ensures
        state.wrapping_mul(MULTIPLIER).wrapping_add(ADDEND) & MASK == lcg_next(state),
        lcg_next(state) < state_space(),
{
    let product: int = state * MULTIPLIER;
    let w = state.wrapping_mul(MULTIPLIER);
    assert(w == (product % 0x1_0000_0000_0000_0000) as u64);
    let t = w.wrapping_add(ADDEND);
    assert(t as int == (w + ADDEND) % 0x1_0000_0000_0000_0000);
    assert(t & MASK == t % 0x1_0000_0000_0000) by (bit_vector);
    assert((product % 0x1_0000_0000_0000_0000 + 0xB) % 0x1_0000_0000_0000_0000 % 0x1_0000_0000_0000
        == (product + 0xB) % 0x1_0000_0000_0000) by (nonlinear_arith)
        requires product >= 0;
}

/// The 48-bit linear-congruential generator implemented by `java.util.Random`.
#[derive(Clone, Copy, Debug, PartialEq, Eq)]
pub struct JavaRandom {
    state: u64,
}

impl View for JavaRandom {
    type V = u64;

    closed spec fn view(&self) -> u64 {
        self.state
    }
}

impl JavaRandom {
    /// A generator state always fits in 48 bits.
    pub closed spec fn wf(&self) -> bool {
        self.state < state_space()
    }

    /// Mirrors `new java.util.Random(seed)` exactly.
    pub fn new(seed: i64) -> (random: Self)
        ensures
            random@ == seeded_state(seed),
            random.wf(),
    {
        let state = (seed as u64 ^ MULTIPLIER) & MASK;
        assert(((seed as u64) ^ MULTIPLIER) & MASK < 0x1_0000_0000_0000u64) by (bit_vector);
        JavaRandom { state }
    }

    /// Mirrors Java's unbounded `nextInt()`.
    pub fn next_i32(&mut self) -> (value: i32)
        requires
            old(self).wf(),
        ensures
            final(self).wf(),
            final(self)@ == lcg_next(old(self)@),
            value == int_of(final(self)@),
    {
        self.next_bits(32) as i32
    }


    /// Mirrors Java's `next(bits)`: one congruence step, then the top `bits`.
    pub fn next_bits(&mut self, bits: u32) -> (value: u32)
        requires
            1 <= bits <= 32,
            old(self).wf(),
        ensures
            final(self).wf(),
            final(self)@ == lcg_next(old(self)@),
            value == top_bits(final(self)@, bits),
            bits == 31 ==> value < 0x8000_0000,
            bits == 24 ==> value < 0x100_0000,
            bits == 1 ==> value <= 1,
    {
        self.step(bits)
    }

    /// Mirrors Java's `nextInt(bound)` for a strictly positive bound.
    ///
    /// The rejection loop of the non-power-of-two case is bounded by the
    /// 2^48 states of the congruence, which it visits in full before
    /// repeating; an accepted draw therefore always comes first.
    pub fn next_i32_bound(&mut self, bound: i32) -> (value: i32)
        requires
            old(self).wf(),
            bound > 0,
        ensures
            final(self).wf(),
            (value, final(self)@) == int_bounded(old(self)@, bound),
            0 <= value < bound,
    {
        if (bound & -bound) == bound {
            let bits = self.step(31);
            proof {
                assert(0 <= bound * bits < bound * 0x8000_0000) by (nonlinear_arith)
                    requires
                        0 <= bits < 0x8000_0000,
                        bound > 0,
                ;
                assert((bound * bits) / 0x8000_0000 < bound) by (nonlinear_arith)
                    requires
                        0 <= bound * bits < bound * 0x8000_0000,
                ;
            }
            let product = bound as i64 * bits as i64;
            return (product / 0x8000_0000) as i32;
        }
        let ghost start = self@;
        let mut draws: u64 = 1;
        loop
            invariant
                self.wf(),
                bound > 0,
                !is_power_of_two(bound),
                start == old(self)@,
                1 <= draws <= state_space(),
                bounded_draw(self@, bound, (state_space() - draws + 1) as nat) == int_bounded(
                    start,
                    bound,
                ),
            decreases state_space() - draws,
        {
            let ghost before = self@;
            let ghost fuel = (state_space() - draws + 1) as nat;
            let bits = self.step(31);
            let value = bits % (bound as u32);
            let signed_bits = bits as i32;
            let signed_value = value as i32;
            proof {
                assert(value <= bits) by (nonlinear_arith)
                    requires
                        value == bits % (bound as u32),
                        bound > 0,
                ;
                lemma_accept(signed_bits, signed_value, bound);
            }
            let accepted = signed_bits.wrapping_sub(signed_value).wrapping_add(bound - 1) >= 0;
            proof {
                lemma_draw_step(before, bound, fuel, signed_value, accepted);
            }
            if accepted || draws >= 0x1_0000_0000_0000 {
                assert(accepted || fuel <= 1);
                assert(bounded_draw(before, bound, fuel) == (signed_value, self@));
                return signed_value;
            }
            draws = draws + 1;
        }
    }

    fn step(&mut self, bits: u32) -> (value: u32)
        requires
            1 <= bits <= 32,
            old(self).wf(),
        ensures
            final(self).wf(),
            final(self)@ == lcg_next(old(self)@),
            value == top_bits(final(self)@, bits),
            bits == 31 ==> value < 0x8000_0000,
            bits == 24 ==> value < 0x100_0000,
            bits == 1 ==> value <= 1,
    {
        proof {
            lemma_lcg_step(self.state);
        }
        self.state = self.state.wrapping_mul(MULTIPLIER).wrapping_add(ADDEND) & MASK;
        let shift = 48 - bits;
        let s = self.state;
        assert(s >> (shift as u64) <= 0xFFFF_FFFFu64) by (bit_vector)
            requires
                s < 0x1_0000_0000_0000u64,
                16 <= shift <= 47,
        ;
        assert(shift == 17 ==> s >> (shift as u64) < 0x8000_0000u64) by (bit_vector)
            requires
                s < 0x1_0000_0000_0000u64,
        ;
        assert(shift == 24 ==> s >> (shift as u64) < 0x100_0000u64) by (bit_vector)
            requires
                s < 0x1_0000_0000_0000u64,
        ;
        assert(shift == 47 ==> s >> (shift as u64) <= 1u64) by (bit_vector)
            requires
                s < 0x1_0000_0000_0000u64,
        ;
        (self.state >> shift) as u32
    }

    /// Mirrors Java's `nextLong()` including sign-extension of its low word.
    pub fn next_i64(&mut self) -> (value: i64)
        requires
            old(self).wf(),
        ensures
            final(self).wf(),
            final(self)@ == lcg_next(lcg_next(old(self)@)),
            value == long_from(old(self)@),
    {
        let high = self.next_i32() as i64;
        let low = self.next_i32() as i64;
        (high * 0x1_0000_0000).wrapping_add(low)
    }

    /// Mirrors Java's `nextBoolean()`.
    pub fn next_bool(&mut self) -> (value: bool)
        requires
            old(self).wf(),
        ensures
            final(self).wf(),
            final(self)@ == lcg_next(old(self)@),
            value == (top_bits(final(self)@, 1) != 0),
    {
        self.next_bits(1) != 0
    }
}

proof fn lemma_accept(bits: i32, value: i32, bound: i32)
    requires
        0 <= value <= bits,
        bound > 0,
    ensures
        (bits.wrapping_sub(value).wrapping_add((bound - 1) as i32) >= 0) == (bits - value + (bound - 1)
            <= i32::MAX),
{
}

proof fn lemma_draw_step(before: u64, bound: i32, fuel: nat, value: i32, accepted: bool)
    requires
        fuel >= 1,
        bound > 0,
        value as int == (top_bits(lcg_next(before), 31) as int) % (bound as int),
        accepted == (top_bits(lcg_next(before), 31) - value + (bound - 1) <= i32::MAX),
    ensures
        bounded_draw(before, bound, fuel) == if accepted || fuel <= 1 {
            (value, lcg_next(before))
        } else {
            bounded_draw(lcg_next(before), bound, (fuel - 1) as nat)
        },
{
    reveal(bounded_draw);
}

/// Whether `bound` is a power of two, as Java tests it.
pub open spec fn is_power_of_two(bound: i32) -> bool {
    (bound & ((0 - bound) as i32)) == bound
}

/// Java's rejection loop for `nextInt(bound)`, run for at most `fuel` draws:
/// returns the accepted value and the generator state after the last draw.
#[verifier::opaque]
pub open spec fn bounded_draw(state: u64, bound: i32, fuel: nat) -> (i32, u64)
    decreases fuel,
{
    let next = lcg_next(state);
    let bits = top_bits(next, 31) as int;
    let value = bits % (bound as int);
    if bits - value + (bound - 1) <= i32::MAX || fuel <= 1 {
        (value as i32, next)
    } else {
        bounded_draw(next, bound, (fuel - 1) as nat)
    }
}

/// Java's `nextInt(bound)` from a pre-draw state: the value and the state after it.
pub open spec fn int_bounded(state: u64, bound: i32) -> (i32, u64) {
    if is_power_of_two(bound) {
        let next = lcg_next(state);
        (((bound * top_bits(next, 31)) / 0x8000_0000) as i32, next)
    } else {
        bounded_draw(state, bound, state_space() as nat)
    }
}


/// Shattered Pixel Dungeon's MX3 pre-scramble for deliberately seeded RNGs.
pub fn scramble_seed(seed: i64) -> (scrambled_seed: i64)
    ensures
        scrambled_seed == scrambled(seed),
{
    let mut value = seed as u64;
    value = value ^ (value >> 32u64);
    value = value.wrapping_mul(MX3_MULTIPLIER);
    value = value ^ (value >> 29u64);
    value = value.wrapping_mul(MX3_MULTIPLIER);
    value = value ^ (value >> 32u64);
    value = value.wrapping_mul(MX3_MULTIPLIER);
    value = value ^ (value >> 29u64);
    value as i64
}

/// Exchanges two elements of a slice.
#[verifier::external_body]
pub(crate) fn slice_swap<T>(values: &mut [T], a: usize, b: usize)
    requires
        a < old(values)@.len(),
        b < old(values)@.len(),
    ensures
        final(values)@ == swapped(old(values)@, a as int, b as int),
{
    values.swap(a, b);
}

/// `values` with the elements at `a` and `b` exchanged.
pub open spec fn swapped<T>(values: Seq<T>, a: int, b: int) -> Seq<T> {
    Seq::new(
        values.len(),
        |i: int|
            if i == a {
                values[b]
            } else if i == b {
                values[a]
            } else {
                values[i]
            },
    )
}

/// Shattered's forgiving `Random.Int(max)`: zero for a non-positive bound.
pub open spec fn int_bound_from(state: u64, max: i32) -> (i32, u64) {
    if max <= 0 {
        (0, state)
    } else {
        int_bounded(state, max)
    }
}

/// Java's truncating remainder `a % b`.
pub open spec fn java_rem(a: int, b: int) -> int {
    let magnitude = if b < 0 { -b } else { b };
    if a >= 0 {
        a % magnitude
    } else {
        -((-a) % magnitude)
    }
}

/// Shattered's modulo-biased `Random.Long(max)` from a drawn `Long()`.
pub open spec fn long_bounded(drawn: i64, max: i64) -> i64 {
    let adjusted = if drawn < 0 {
        vstd::wrapping::i64_specs::wrapping_add(drawn, i64::MAX)
    } else {
        drawn
    };
    java_rem(adjusted as int, max as int) as i64
}

/// The forward Fisher-Yates array shuffle from position `index` on, with the
/// generator state it leaves behind.
pub open spec fn array_shuffle<T>(values: Seq<T>, state: u64, index: nat) -> (Seq<T>, u64)
    decreases values.len() - index,
{
    if index + 1 >= values.len() || values.len() - index > i32::MAX {
        (values, state)
    } else {
        let drawn = int_bound_from(state, (values.len() - index) as i32);
        array_shuffle(swapped(values, index as int, index + drawn.0), drawn.1, index + 1)
    }
}

/// `Collections.shuffle`: the reverse Fisher-Yates form over the first
/// `length` elements, with the generator state it leaves behind.
pub open spec fn list_shuffle<T>(values: Seq<T>, state: u64, length: nat) -> (Seq<T>, u64)
    decreases length,
{
    if length < 2 || length > i32::MAX {
        (values, state)
    } else {
        let drawn = int_bound_from(state, length as i32);
        list_shuffle(swapped(values, length - 1, drawn.0 as int), drawn.1, (length - 1) as nat)
    }
}

/// The `nextLong()` drawn after skipping `skipped` earlier ones.
pub open spec fn long_after(state: u64, skipped: nat) -> i64 {
    long_from(lcg_iter(state, 2 * skipped))
}

/// A deterministic equivalent of `com.watabou.utils.Random`'s generator stack.
///
/// The real game keeps an unseeded base generator. Seed-finding code must never
/// depend on it, so this type starts with one explicit deterministic base seed.
#[derive(Clone, Debug)]
pub struct RandomStack {
    generators: Vec<JavaRandom>,
}

impl View for RandomStack {
    type V = Seq<u64>;

    /// The states of the stacked generators, base first.
    closed spec fn view(&self) -> Seq<u64> {
        self.generators@.map_values(|random: JavaRandom| random@)
    }
}

/// The state of the generator in use.
pub open spec fn top(states: Seq<u64>) -> u64 {
    states.last()
}

/// The stack with its current generator moved to `state`.
pub open spec fn with_top(states: Seq<u64>, state: u64) -> Seq<u64> {
    states.update(states.len() - 1, state)
}

impl RandomStack {
    /// A stack always holds its base generator, and every state fits in 48 bits.
    pub closed spec fn wf(&self) -> bool {
        &&& self.generators.len() >= 1
        &&& forall|i: int| 0 <= i < self.generators.len() ==> #[trigger] self.generators[i].wf()
    }

    /// A well-formed stack is a non-empty sequence of 48-bit states.
    pub proof fn lemma_wf_view(&self)
        requires
            self.wf(),
        ensures
            self@.len() >= 1,
            forall|i: int| 0 <= i < self@.len() ==> #[trigger] self@[i] < state_space(),
    {
        assert forall|i: int| 0 <= i < self@.len() implies #[trigger] self@[i] < state_space() by {
            assert(self.generators[i].wf());
        }
    }

    /// Creates a stack with a deterministic base generator.
    pub fn with_base_seed(base_seed: i64) -> (stack: Self)
        ensures
            stack.wf(),
            stack@ == seq![seeded_state(base_seed)],
    {
        let mut generators = Vec::new();
        generators.push(JavaRandom::new(base_seed));
        let stack = RandomStack { generators };
        assert(stack@ =~= seq![seeded_state(base_seed)]);
        stack
    }

    /// Pushes the same generator as Shattered's `Random.pushGenerator(seed)`.
    pub fn push(&mut self, seed: i64)
        requires
            old(self).wf(),
        ensures
            final(self).wf(),
            final(self)@ == old(self)@.push(seeded_state(scrambled(seed))),
    {
        let random = JavaRandom::new(scramble_seed(seed));
        self.generators.push(random);
        assert(self@ =~= old(self)@.push(seeded_state(scrambled(seed))));
    }

    /// Removes the current seeded generator. The base generator stays.
    pub fn pop(&mut self)
        requires
            old(self).wf(),
            old(self)@.len() > 1,
        ensures
            final(self).wf(),
            final(self)@ == old(self)@.drop_last(),
    {
        self.generators.pop();
        assert(self@ =~= old(self)@.drop_last());
    }

    fn take_current(&mut self) -> (random: JavaRandom)
        requires
            old(self).wf(),
        ensures
            random.wf(),
            random@ == top(old(self)@),
            final(self).generators@ == old(self).generators@.drop_last(),
    {
        let random = self.generators.pop();
        random.unwrap()
    }

    fn put_current(&mut self, random: JavaRandom)
        requires
            random.wf(),
            forall|i: int|
                0 <= i < old(self).generators.len() ==> #[trigger] old(self).generators[i].wf(),
        ensures
            final(self).wf(),
            final(self)@ == old(self)@.push(random@),
    {
        self.generators.push(random);
        assert(self@ =~= old(self)@.push(random@));
    }

    /// Mirrors Shattered's `Random.Int()`.
    pub fn next_int(&mut self) -> (value: i32)
        requires
            old(self).wf(),
        ensures
            final(self).wf(),
            final(self)@ == with_top(old(self)@, lcg_next(top(old(self)@))),
            value == int_of(lcg_next(top(old(self)@))),
    {
        let mut random = self.take_current();
        let value = random.next_i32();
        self.put_current(random);
        assert(self@ =~= with_top(old(self)@, lcg_next(top(old(self)@))));
        value
    }

    /// Draws the 24 bits behind Shattered's `Random.Float()`, which divides
    /// them by 2^24.
    pub fn float_bits(&mut self) -> (value: u32)
        requires
            old(self).wf(),
        ensures
            final(self).wf(),
            final(self)@ == with_top(old(self)@, lcg_next(top(old(self)@))),
            value == top_bits(lcg_next(top(old(self)@)), 24),
            value < 0x100_0000,
    {
        let mut random = self.take_current();
        let value = random.next_bits(24);
        self.put_current(random);
        assert(self@ =~= with_top(old(self)@, lcg_next(top(old(self)@))));
        value
    }

    /// Mirrors Shattered's forgiving `Random.Int(max)` behavior.
    pub fn int_bound(&mut self, max: i32) -> (value: i32)
        requires
            old(self).wf(),
        ensures
            final(self).wf(),
            final(self)@ == with_top(old(self)@, int_bound_from(top(old(self)@), max).1),
            value == int_bound_from(top(old(self)@), max).0,
            max <= 0 ==> value == 0,
            max > 0 ==> 0 <= value < max,
    {
        if max <= 0 {
            assert(self@ =~= with_top(old(self)@, top(old(self)@)));
            0
        } else {
            let mut random = self.take_current();
            let value = random.next_i32_bound(max);
            self.put_current(random);
            assert(self@ =~= with_top(old(self)@, int_bound_from(top(old(self)@), max).1));
            value
        }
    }

    /// Mirrors Shattered's `Random.Int(min, max)` behavior.
    pub fn int_between(&mut self, min: i32, max: i32) -> (value: i32)
        requires
            old(self).wf(),
        ensures
            final(self).wf(),
            final(self)@ == with_top(
                old(self)@,
                int_bound_from(top(old(self)@), max.wrapping_sub(min)).1,
            ),
            value == min.wrapping_add(int_bound_from(top(old(self)@), max.wrapping_sub(min)).0),
            min < max && max - min <= i32::MAX ==> min <= value < max,
            max <= min && min - max <= i32::MAX ==> value == min,
    {
        let span = max.wrapping_sub(min);
        proof {
            if -0x8000_0000 <= max - min <= i32::MAX {
                assert(span == max - min);
            }
        }
        let drawn = self.int_bound(span);
        min.wrapping_add(drawn)
    }

    /// Mirrors Shattered's inclusive `Random.IntRange(min, max)` behavior.
    pub fn int_range(&mut self, min: i32, max: i32) -> (value: i32)
        requires
            old(self).wf(),
        ensures
            final(self).wf(),
            final(self)@ == with_top(
                old(self)@,
                int_bound_from(top(old(self)@), max.wrapping_sub(min).wrapping_add(1)).1,
            ),
            value == min.wrapping_add(
                int_bound_from(top(old(self)@), max.wrapping_sub(min).wrapping_add(1)).0,
            ),
            min <= max && max - min < i32::MAX ==> min <= value <= max,
    {
        let span = max.wrapping_sub(min).wrapping_add(1);
        proof {
            if min <= max && max - min < i32::MAX {
                assert(max.wrapping_sub(min) == max - min);
                assert(span == max - min + 1);
            }
        }
        let drawn = self.int_bound(span);
        min.wrapping_add(drawn)
    }

    /// Mirrors Shattered's `Random.Long()`.
    pub fn long(&mut self) -> (value: i64)
        requires
            old(self).wf(),
        ensures
            final(self).wf(),
            final(self)@ == with_top(old(self)@, lcg_next(lcg_next(top(old(self)@)))),
            value == long_from(top(old(self)@)),
    {
        let mut random = self.take_current();
        let value = random.next_i64();
        self.put_current(random);
        assert(self@ =~= with_top(old(self)@, lcg_next(lcg_next(top(old(self)@)))));
        value
    }

    /// Mirrors Shattered's intentionally modulo-biased `Random.Long(max)`.
    pub fn long_bound(&mut self, max: i64) -> (value: i64)
        requires
            old(self).wf(),
            max != 0,
        ensures
            final(self).wf(),
            final(self)@ == with_top(old(self)@, lcg_next(lcg_next(top(old(self)@)))),
            value == long_bounded(long_from(top(old(self)@)), max),
    {
        let mut result = self.long();
        if result < 0 {
            result = result.wrapping_add(i64::MAX);
        }
        rem_i64(result, max)
    }

    /// Mirrors Shattered's forward Fisher-Yates array shuffle overloads.
    pub fn shuffle_array<T>(&mut self, values: &mut [T])
        requires
            old(self).wf(),
        ensures
            final(self).wf(),
            (final(values)@, top(final(self)@)) == array_shuffle(old(values)@, top(old(self)@), 0),
            final(self)@ == with_top(old(self)@, top(final(self)@)),
            final(values)@.to_multiset() == old(values)@.to_multiset(),
    {
        let length = values.len();
        let mut index: usize = 0;
        proof {
            self.lemma_wf_view();
        }
        while length - index > 1
            invariant
                self.wf(),
                length == values@.len(),
                index <= length,
                self@.len() == old(self)@.len(),
                self@ == with_top(old(self)@, top(self@)),
                array_shuffle(values@, top(self@), index as nat) == array_shuffle(
                    old(values)@,
                    top(old(self)@),
                    0,
                ),
                values@.to_multiset() == old(values)@.to_multiset(),
            decreases length - index,
        {
            let remaining = length - index;
            if remaining > i32::MAX as usize {
                return;
            }
            let ghost before = values@;
            let offset = self.int_bound(remaining as i32);
            let other = index + offset as usize;
            slice_swap(values, index, other);
            proof {
                lemma_swap_multiset(before, index as int, other as int);
            }
            index = index + 1;
        }
    }

    /// Mirrors `Collections.shuffle(list, currentGenerator)`, which uses the
    /// reverse Fisher-Yates form and therefore produces a different ordering.
    pub fn shuffle_list<T>(&mut self, values: &mut [T])
        requires
            old(self).wf(),
        ensures
            final(self).wf(),
            (final(values)@, top(final(self)@)) == list_shuffle(
                old(values)@,
                top(old(self)@),
                old(values)@.len(),
            ),
            final(self)@ == with_top(old(self)@, top(final(self)@)),
            final(values)@.to_multiset() == old(values)@.to_multiset(),
    {
        let mut length = values.len();
        while length >= 2
            invariant
                self.wf(),
                length <= values@.len(),
                values@.len() == old(values)@.len(),
                self@.len() == old(self)@.len(),
                self@ == with_top(old(self)@, top(self@)),
                list_shuffle(values@, top(self@), length as nat) == list_shuffle(
                    old(values)@,
                    top(old(self)@),
                    old(values)@.len(),
                ),
                values@.to_multiset() == old(values)@.to_multiset(),
            decreases length,
        {
            if length > i32::MAX as usize {
                return;
            }
            let ghost before = values@;
            let other = self.int_bound(length as i32) as usize;
            slice_swap(values, length - 1, other);
            proof {
                lemma_swap_multiset(before, length - 1, other as int);
            }
            length = length - 1;
        }
    }
}

/// Java's truncating `long` remainder.
fn rem_i64(a: i64, b: i64) -> (r: i64)
    requires
        b != 0,
        a != i64::MIN,
    ensures
        r == java_rem(a as int, b as int),
{
    let magnitude: u64 = if b < 0 {
        (0 - (b as i128)) as u64
    } else {
        b as u64
    };
    if a >= 0 {
        ((a as u64) % magnitude) as i64
    } else {
        let positive: u64 = (0 - (a as i128)) as u64;
        let r = positive % magnitude;
        0 - (r as i64)
    }
}

/// Swapping two positions keeps the same elements.
pub proof fn lemma_swap_multiset<T>(values: Seq<T>, a: int, b: int)
    requires
        0 <= a < values.len(),
        0 <= b < values.len(),
    ensures
        swapped(values, a, b).to_multiset() == values.to_multiset(),
{
    broadcast use vstd::seq_lib::group_to_multiset_ensures;

    let first = values.update(a, values[b]);
    vstd::seq_lib::to_multiset_update(values, a, values[b]);
    vstd::seq_lib::to_multiset_update(first, b, values[a]);
    if a == b {
        assert(swapped(values, a, b) =~= values);
    } else {
        assert(swapped(values, a, b) =~= first.update(b, values[a]));
    }
}

/// Returns the deterministic per-depth RNG seed used by the game.
pub fn seed_for_depth(dungeon_seed: i64, depth: u32, branch: u32) -> (seed: i64)
    requires
        depth + 30 * branch <= u32::MAX,
    ensures
        seed == long_after(seeded_state(scrambled(dungeon_seed)), (depth + 30 * branch) as nat),
{
    let look_ahead = depth + 30 * branch;
    let mut random = JavaRandom::new(scramble_seed(dungeon_seed));
    let ghost start = random@;
    let mut drawn: u32 = 0;
    while drawn < look_ahead
        invariant
            random.wf(),
            drawn <= look_ahead,
            random@ == lcg_iter(start, 2 * drawn as nat),
        decreases look_ahead - drawn,
    {
        let ghost before = random@;
        random.next_i64();
        proof {
            lemma_lcg_iter_add(start, 2 * drawn as nat, 2);
            assert(lcg_iter(before, 2) == lcg_next(lcg_next(before))) by {
                assert(lcg_iter(lcg_next(lcg_next(before)), 0) == lcg_next(lcg_next(before)));
                assert(lcg_iter(lcg_next(before), 1) == lcg_iter(lcg_next(lcg_next(before)), 0));
            }
        }
        drawn = drawn + 1;
    }
    random.next_i64()
}

/// Stepping `a` then `b` times is stepping `a + b` times.
pub proof fn lemma_lcg_iter_add(state: u64, a: nat, b: nat)
    ensures
        lcg_iter(lcg_iter(state, a), b) == lcg_iter(state, a + b),
    decreases a,
{
    if a > 0 {
        lemma_lcg_iter_add(lcg_next(state), (a - 1) as nat, b);
    }
}


/// Java's `long` remainder by a positive divisor.
pub fn rem_i64_positive(a: i64, b: i64) -> (r: i64)
    requires
        b > 0,
    ensures
        r == java_rem(a as int, b as int),
{
    if a >= 0 {
        ((a as u64) % (b as u64)) as i64
    } else {
        let positive: u64 = (0 - (a as i128)) as u64;
        let r = positive % (b as u64);
        0 - (r as i64)
    }
}

/// A child generator pushed on the stack and popped again leaves the parent
/// stack exactly as it was, whatever the child drew in between.
pub proof fn lemma_child_generators_leave_parents_alone(states: Seq<u64>, child: u64, drawn: u64)
    ensures
        with_top(states.push(child), drawn).drop_last() == states,
{
    assert(with_top(states.push(child), drawn).drop_last() =~= states);
}

/// The stack after draws on its current generator that leave it in the
/// states `tops`, one after another: each draw replaces only the top state.
pub open spec fn drawn_through(states: Seq<u64>, tops: Seq<u64>) -> Seq<u64>
    decreases tops.len(),
{
    if tops.len() == 0 {
        states
    } else {
        with_top(drawn_through(states, tops.drop_last()), tops.last())
    }
}

/// Any number of draws on a pushed child generator touch only the child:
/// after it is popped the parent stack is exactly as it was before the push,
/// so the parent then draws exactly as if the child had never existed.
pub proof fn lemma_child_draws_then_pop(states: Seq<u64>, child: u64, tops: Seq<u64>)
    ensures
        drawn_through(states.push(child), tops).drop_last() == states,
        drawn_through(states.push(child), tops).len() == states.len() + 1,
    decreases tops.len(),
{
    if tops.len() > 0 {
        lemma_child_draws_then_pop(states, child, tops.drop_last());
        let before = drawn_through(states.push(child), tops.drop_last());
        assert(with_top(before, tops.last()).drop_last() =~= before.drop_last());
    } else {
        assert(states.push(child).drop_last() =~= states);
    }
}

} // verus!
