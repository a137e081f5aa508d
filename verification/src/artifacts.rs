//! Counting the ways named artifacts can be placed on a world's anonymous
//! artifact positions: each requirement takes a distinct position, and
//! positions of one acquisition group must share a scenario.

use vstd::prelude::*;

use crate::model::ItemSource;

verus! {

/// One anonymous artifact position of a sampled world.
#[derive(Clone, Copy, Debug, PartialEq, Eq, Structural)]
pub struct Placement {
    pub depth: u8,
    pub source: ItemSource,
    pub cursed: bool,
    /// Acquisition group; 0 for positions that are always obtainable.
    pub group: u8,
    /// Scenarios of the group in which the position is obtainable.
    pub scenarios: u64,
}

/// The scenarios `mask` leaves open once every chosen position of `group`
/// is taken too.
pub open spec fn shared_scenarios(world: Seq<Placement>, chosen: Seq<usize>, group: u8, mask: u64) -> u64
    decreases chosen.len(),
{
    if chosen.len() == 0 {
        mask
    } else {
        let rest = shared_scenarios(world, chosen.drop_last(), group, mask);
        let taken = world[chosen.last() as int];
        if taken.group == group {
            rest & taken.scenarios
        } else {
            rest
        }
    }
}

/// Position `index` can be added to the chosen ones: it is not taken yet,
/// and if it belongs to a group, some scenario of the group still admits it
/// together with every chosen position of that group.
pub open spec fn admissible(world: Seq<Placement>, chosen: Seq<usize>, index: usize) -> bool {
    &&& !chosen.contains(index)
    &&& world[index as int].group == 0 || shared_scenarios(
        world,
        chosen,
        world[index as int].group,
        world[index as int].scenarios,
    ) != 0
}

/// The number of ways to complete `chosen`: one admissible position for each
/// remaining requirement, in order, from that requirement's eligible list.
pub open spec fn ways(world: Seq<Placement>, eligible: Seq<Seq<usize>>, chosen: Seq<usize>) -> nat
    decreases eligible.len(), 1nat, 0nat,
{
    if eligible.len() == 0 {
        1
    } else {
        ways_through(world, eligible, chosen, eligible[0].len())
    }
}

/// The completions whose first position is among the first `k` entries of
/// the first requirement's eligible list.
pub open spec fn ways_through(
    world: Seq<Placement>,
    eligible: Seq<Seq<usize>>,
    chosen: Seq<usize>,
    k: nat,
) -> nat
    decreases eligible.len(), 0nat, k,
{
    if eligible.len() == 0 || k == 0 {
        0
    } else {
        let index = eligible[0][k - 1];
        ways_through(world, eligible, chosen, (k - 1) as nat) + if admissible(world, chosen, index) {
            ways(world, eligible.drop_first(), chosen.push(index))
        } else {
            0
        }
    }
}

/// Every eligible position names a position of the world.
pub open spec fn positions_in(world: Seq<Placement>, eligible: Seq<Seq<usize>>) -> bool {
    forall|i: int, j: int|
        0 <= i < eligible.len() && 0 <= j < eligible[i].len() ==> #[trigger] eligible[i][j]
            < world.len()
}

/// Every chosen position names a position of the world.
pub open spec fn chosen_in(world: Seq<Placement>, chosen: Seq<usize>) -> bool {
    forall|i: int| 0 <= i < chosen.len() ==> #[trigger] chosen[i] < world.len()
}

/// The eligible lists of `eligible`, from the requirement `start` on.
pub open spec fn remaining(eligible: Seq<Vec<usize>>, start: int) -> Seq<Seq<usize>> {
    eligible.subrange(start, eligible.len() as int).map_values(|choices: Vec<usize>| choices@)
}

/// Counts the ways to assign distinct admissible positions to the remaining
/// requirements, one from each requirement's eligible list in order. The
/// chosen positions are restored before returning.
pub fn assignments(world: &[Placement], eligible: &[Vec<usize>], chosen: &mut Vec<usize>) -> (count: u32)
    requires
        positions_in(world@, remaining(eligible@, 0)),
        chosen_in(world@, old(chosen)@),
        ways(world@, remaining(eligible@, 0), old(chosen)@) <= u32::MAX,
    ensures
        count == ways(world@, remaining(eligible@, 0), old(chosen)@),
        final(chosen)@ == old(chosen)@,
{
    count_from(world, eligible, 0, chosen)
}

/// The completions counted from requirement `start` on.
fn count_from(world: &[Placement], eligible: &[Vec<usize>], start: usize, chosen: &mut Vec<usize>) -> (count: u32)
    requires
        start <= eligible@.len(),
        positions_in(world@, remaining(eligible@, start as int)),
        chosen_in(world@, old(chosen)@),
        ways(world@, remaining(eligible@, start as int), old(chosen)@) <= u32::MAX,
    ensures
        count == ways(world@, remaining(eligible@, start as int), old(chosen)@),
        final(chosen)@ == old(chosen)@,
    decreases eligible@.len() - start,
{
    let ghost rest = remaining(eligible@, start as int);
    if start == eligible.len() {
        assert(rest.len() == 0);
        return 1;
    }
    let ghost tail = remaining(eligible@, start + 1);
    proof {
        assert(tail =~= rest.drop_first());
        assert(rest[0] == eligible@[start as int]@);
        assert(positions_in(world@, tail)) by {
            assert forall|i: int, j: int|
                0 <= i < tail.len() && 0 <= j < tail[i].len() implies #[trigger] tail[i][j]
                < world@.len() by {
                assert(tail[i] == rest[i + 1]);
            }
        }
    }
    let count_of_requirements = eligible.len();
    let choices = &eligible[start];
    let ghost total = ways(world@, rest, chosen@);
    let mut ways_so_far: u32 = 0;
    let mut k: usize = 0;
    while k < choices.len()
        invariant
            k <= choices@.len(),
            rest == remaining(eligible@, start as int),
            tail == rest.drop_first(),
            rest.len() > 0,
            rest[0] == choices@,
            positions_in(world@, rest),
            positions_in(world@, tail),
            chosen_in(world@, chosen@),
            chosen@ == old(chosen)@,
            total == ways(world@, rest, chosen@),
            total == ways_through(world@, rest, chosen@, choices@.len() as nat),
            total <= u32::MAX,
            ways_so_far == ways_through(world@, rest, chosen@, k as nat),
            start < eligible@.len(),
            count_of_requirements == eligible@.len(),
            tail == remaining(eligible@, start + 1),
        decreases choices.len() - k,
    {
        let index = choices[k];
        proof {
            lemma_ways_through_grows(world@, rest, chosen@, (k + 1) as nat, choices@.len() as nat);
            assert(index == rest[0][k as int]);
            assert(index < world@.len());
        }
        let fits = admissible_exec(world, chosen, index);
        if fits {
            chosen.push(index);
            proof {
                assert forall|i: int| 0 <= i < chosen@.len() implies #[trigger] chosen@[i]
                    < world@.len() by {
                    if i < chosen@.len() - 1 {
                        assert(chosen@[i] == old(chosen)@[i]);
                    }
                }
            }
            let sub = count_from(world, eligible, start + 1, chosen);
            let popped = chosen.pop();
            proof {
                assert(chosen@ =~= old(chosen)@);
            }
            ways_so_far = ways_so_far + sub;
        }
        k = k + 1;
    }
    ways_so_far
}

/// Partial counts never exceed fuller ones.
proof fn lemma_ways_through_grows(
    world: Seq<Placement>,
    eligible: Seq<Seq<usize>>,
    chosen: Seq<usize>,
    k: nat,
    n: nat,
)
    requires
        k <= n,
    ensures
        ways_through(world, eligible, chosen, k) <= ways_through(world, eligible, chosen, n),
    decreases n - k,
{
    if k < n {
        lemma_ways_through_grows(world, eligible, chosen, k, (n - 1) as nat);
    }
}

/// Whether position `index` can join the chosen ones.
fn admissible_exec(world: &[Placement], chosen: &Vec<usize>, index: usize) -> (fits: bool)
    requires
        index < world@.len(),
        chosen_in(world@, chosen@),
    ensures
        fits == admissible(world@, chosen@, index),
{
    let mut i: usize = 0;
    while i < chosen.len()
        invariant
            i <= chosen@.len(),
            forall|j: int| 0 <= j < i ==> chosen@[j] != index,
        decreases chosen.len() - i,
    {
        if chosen[i] == index {
            assert(chosen@.contains(index));
            return false;
        }
        i = i + 1;
    }
    assert(!chosen@.contains(index));
    let candidate = world[index];
    if candidate.group == 0 {
        return true;
    }
    let mut mask: u64 = candidate.scenarios;
    let mut j: usize = 0;
    while j < chosen.len()
        invariant
            j <= chosen@.len(),
            chosen_in(world@, chosen@),
            candidate == world@[index as int],
            mask == shared_scenarios(world@, chosen@.take(j as int), candidate.group, candidate.scenarios),
        decreases chosen.len() - j,
    {
        let taken = world[chosen[j]];
        proof {
            assert(chosen@.take(j + 1).drop_last() =~= chosen@.take(j as int));
        }
        if taken.group == candidate.group {
            mask = mask & taken.scenarios;
        }
        j = j + 1;
    }
    assert(chosen@.take(chosen@.len() as int) =~= chosen@);
    mask != 0
}

} // verus!
