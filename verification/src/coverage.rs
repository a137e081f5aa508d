//! Sparse coverage sets and capacitated matching: each requirement needs one
//! item, each coverage supplies a number of interchangeable items, and a
//! requirement accepts the items of the coverages listed for it.

use vstd::prelude::*;

verus! {

/// Requirements and the coverages each of them accepts.
pub struct Coverages {
    coverage_count: usize,
    choices: Vec<Vec<usize>>,
}

/// The requirements mapped to coverage `c` by `a`.
pub open spec fn fiber(a: Seq<usize>, c: usize) -> Set<usize> {
    Set::new(|r: usize| r < a.len() && a[r as int] == c)
}

/// `a` gives every requirement a coverage it accepts, and no coverage more
/// requirements than it has items.
pub open spec fn is_matching(choices: Seq<Seq<usize>>, counts: Seq<usize>, a: Seq<usize>) -> bool {
    &&& a.len() == choices.len()
    &&& forall|r: int| 0 <= r < a.len() ==> #[trigger] choices[r].contains(a[r])
    &&& forall|c: usize| c < counts.len() ==> #[trigger] fiber(a, c).len() <= counts[c as int]
}

/// Some assignment of items to all requirements respects the counts.
pub open spec fn matchable(choices: Seq<Seq<usize>>, counts: Seq<usize>) -> bool {
    exists|a: Seq<usize>| is_matching(choices, counts, a)
}

/// The items of the first `k` coverages.
pub open spec fn total_count(counts: Seq<usize>, k: nat) -> int
    decreases k,
{
    if k == 0 {
        0
    } else {
        total_count(counts, (k - 1) as nat) + counts[k - 1]
    }
}

impl Coverages {
    /// Every listed coverage exists.
    #[verifier::type_invariant]
    closed spec fn inv(self) -> bool {
        forall|r: int, i: int|
            0 <= r < self.choices@.len() && 0 <= i < self.choices@[r]@.len() ==> #[trigger] self.choices@[r]@[i]
                < self.coverage_count
    }

    /// Number of coverages.
    pub closed spec fn count(self) -> nat {
        self.coverage_count as nat
    }

    /// The coverages each requirement accepts.
    pub closed spec fn accepted(self) -> Seq<Seq<usize>> {
        self.choices@.map_values(|list: Vec<usize>| list@)
    }

    /// Coverages from the lists of accepted coverages, one list per
    /// requirement.
    pub fn new(coverage_count: usize, choices: Vec<Vec<usize>>) -> (coverages: Self)
        requires
            forall|r: int, i: int|
                0 <= r < choices@.len() && 0 <= i < choices@[r]@.len() ==> #[trigger] choices@[r]@[i]
                    < coverage_count,
        ensures
            coverages.count() == coverage_count,
            coverages.accepted() == choices@.map_values(|list: Vec<usize>| list@),
    {
        Coverages { coverage_count, choices }
    }

    /// Number of coverages.
    pub fn len(&self) -> (count: usize)
        ensures
            count == self.count(),
    {
        self.coverage_count
    }

    /// The requirements that accept `coverage`, in increasing order.
    pub fn members(&self, coverage: usize) -> (members: Vec<usize>)
        ensures
            forall|r: usize| #[trigger]
                members@.contains(r) <==> r < self.accepted().len() && self.accepted()[r as int].contains(
                    coverage,
                ),
            forall|i: int, j: int| 0 <= i < j < members@.len() ==> members@[i] < members@[j],
    {
        let ghost accepted = self.accepted();
        let mut members: Vec<usize> = Vec::new();
        let mut r: usize = 0;
        while r < self.choices.len()
            invariant
                r <= self.choices@.len(),
                accepted == self.accepted(),
                accepted.len() == self.choices@.len(),
                forall|s: usize| #[trigger]
                    members@.contains(s) <==> s < r && accepted[s as int].contains(coverage),
                forall|i: int, j: int| 0 <= i < j < members@.len() ==> members@[i] < members@[j],
                forall|i: int| 0 <= i < members@.len() ==> members@[i] < r,
            decreases self.choices.len() - r,
        {
            let list = &self.choices[r];
            assert(accepted[r as int] == list@);
            let mut i: usize = 0;
            let mut found = false;
            while i < list.len()
                invariant
                    i <= list@.len(),
                    found <==> exists|j: int| 0 <= j < i && list@[j] == coverage,
                decreases list.len() - i,
            {
                if list[i] == coverage {
                    found = true;
                }
                i = i + 1;
            }
            assert(found <==> list@.contains(coverage));
            if found {
                let ghost before = members@;
                members.push(r);
                assert forall|s: usize| #[trigger]
                    members@.contains(s) <==> s < r + 1 && accepted[s as int].contains(coverage) by {
                    if s == r {
                        assert(members@[before.len() as int] == r);
                    }
                    if members@.contains(s) && s != r {
                        let k = choose|k: int| 0 <= k < members@.len() && members@[k] == s;
                        assert(before[k] == s);
                    }
                    if before.contains(s) {
                        let k = choose|k: int| 0 <= k < before.len() && before[k] == s;
                        assert(members@[k] == s);
                    }
                }
            }
            r = r + 1;
        }
        assert(accepted.len() == self.choices@.len());
        members
    }

    /// Capacitated bipartite matching: whether every requirement can get its
    /// own item, where `counts[c]` is how many interchangeable items coverage
    /// `c` supplies.
    pub fn matches(&self, counts: &[usize]) -> (matched: bool)
        requires
            counts@.len() == self.count(),
            total_count(counts@, counts@.len()) <= usize::MAX,
        ensures
            matched == matchable(self.accepted(), counts@),
    {
        proof {
            use_type_invariant(self);
        }
        let ghost choices = self.accepted();
        let n = self.choices.len();
        proof {
            assert forall|r: int, i: int|
                0 <= r < choices.len() && 0 <= i < choices[r].len() implies #[trigger] choices[r][i]
                < counts@.len() by {
                assert(choices[r] == self.choices@[r]@);
            }
        }
        let total = total_items(counts);
        if total < n {
            proof {
                lemma_too_few_items(choices, counts@);
            }
            return false;
        }
        let mut held: Vec<Vec<usize>> = Vec::new();
        let mut c: usize = 0;
        while c < self.coverage_count
            invariant
                c <= self.coverage_count,
                held@.len() == c,
                forall|d: int| 0 <= d < c ==> (#[trigger] held@[d])@.len() == 0,
            decreases self.coverage_count - c,
        {
            held.push(Vec::new());
            c = c + 1;
        }
        proof {
            assert(valid_held(choices, counts@, lists(held@)));
            assert forall|r: usize| !(#[trigger] assigned(lists(held@), r)) by {}
        }
        let mut requirement: usize = 0;
        while requirement < n
            invariant
                requirement <= n,
                n == choices.len(),
                choices == self.accepted(),
                counts@.len() == self.count(),
                held@.len() == self.count(),
                valid_held(choices, counts@, lists(held@)),
                forall|r: usize| #[trigger] assigned(lists(held@), r) <==> r < requirement,
                forall|r: int, i: int|
                    0 <= r < choices.len() && 0 <= i < choices[r].len() ==> #[trigger] choices[r][i]
                        < counts@.len(),
            decreases n - requirement,
        {
            let mut visited: Vec<bool> = Vec::new();
            let mut d: usize = 0;
            while d < self.coverage_count
                invariant
                    d <= self.coverage_count,
                    visited@.len() == d,
                    forall|e: int| 0 <= e < d ==> !(#[trigger] visited@[e]),
                decreases self.coverage_count - d,
            {
                visited.push(false);
                d = d + 1;
            }
            proof {
                assert(!assigned(lists(held@), requirement));
            }
            let ghost before = lists(held@);
            if !self.assign(requirement, counts, &mut held, &mut visited) {
                proof {
                    lemma_stuck(choices, counts@, before, visited@, requirement);
                }
                return false;
            }
            proof {
                assert forall|r: usize| #[trigger] assigned(lists(held@), r) <==> r < requirement + 1 by {
                    assert(assigned(before, r) <==> r < requirement);
                }
            }
            requirement = requirement + 1;
        }
        proof {
            lemma_complete(choices, counts@, lists(held@));
        }
        true
    }

    /// Finds a coverage for requirement `x`, moving earlier requirements to
    /// other coverages along an augmenting path if needed. Coverages marked
    /// in `visited` are not tried again. On failure nothing is moved, and
    /// every coverage visited here is full, its holders having no unvisited
    /// coverage left.
    fn assign(
        &self,
        x: usize,
        counts: &[usize],
        held: &mut Vec<Vec<usize>>,
        visited: &mut Vec<bool>,
    ) -> (found: bool)
        requires
            x < self.accepted().len(),
            counts@.len() == self.count(),
            old(held)@.len() == self.count(),
            old(visited)@.len() == self.count(),
            valid_held(self.accepted(), counts@, lists(old(held)@)),
            !assigned(lists(old(held)@), x),
        ensures
            final(held)@.len() == self.count(),
            final(visited)@.len() == self.count(),
            forall|c: int| 0 <= c < old(visited)@.len() && #[trigger] old(visited)@[c] ==> final(visited)@[c],
            unvisited(final(visited)@) <= unvisited(old(visited)@),
            found ==> valid_held(self.accepted(), counts@, lists(final(held)@)),
            found ==> forall|r: usize| #[trigger]
                assigned(lists(final(held)@), r) <==> assigned(lists(old(held)@), r) || r == x,
            !found ==> lists(final(held)@) == lists(old(held)@),
            !found ==> reaches_visited(self.accepted(), counts@, final(visited)@, x),
            !found ==> forall|c: usize|
                c < self.count() && #[trigger] final(visited)@[c as int] && !old(visited)@[c as int]
                    ==> closed(self.accepted(), counts@, lists(final(held)@), final(visited)@, c),
        decreases unvisited(old(visited)@),
    {
        proof {
            use_type_invariant(self);
        }
        let ghost choices = self.accepted();
        let ghost start_held = lists(held@);
        let ghost start_visited = visited@;
        assert(start_visited == old(visited)@);
        let options = &self.choices[x];
        assert(choices[x as int] == options@);
        let mut k: usize = 0;
        while k < options.len()
            invariant
                k <= options@.len(),
                choices == self.accepted(),
                options@ == choices[x as int],
                x < choices.len(),
                counts@.len() == self.count(),
                held@.len() == self.count(),
                visited@.len() == self.count(),
                lists(held@) == start_held,
                start_visited.len() == self.count(),
                start_visited == old(visited)@,
                start_held == lists(old(held)@),
                valid_held(choices, counts@, start_held),
                !assigned(start_held, x),
                forall|c: int| 0 <= c < start_visited.len() && #[trigger] start_visited[c] ==> visited@[c],
                unvisited(visited@) <= unvisited(start_visited),
                forall|i: int|
                    0 <= i < k && counts@[(#[trigger] options@[i]) as int] > 0 ==> visited@[options@[i] as int],
                forall|c: usize|
                    c < self.count() && #[trigger] visited@[c as int] && !start_visited[c as int]
                        ==> closed(choices, counts@, start_held, visited@, c),
                forall|r: int, i: int|
                    0 <= r < choices.len() && 0 <= i < choices[r].len() ==> #[trigger] choices[r][i]
                        < self.count(),
            decreases options.len() - k,
        {
            let c = options[k];
            assert(choices[x as int][k as int] == c);
            if !visited[c] && counts[c] > 0 {
                let ghost before_visit = visited@;
                visited.set(c, true);
                proof {
                    lemma_unvisited_drops(before_visit, c as int);
                }
                let size = held[c].len();
                if size < counts[c] {
                    let grown = pushed(&held[c], x);
                    held.set(c, grown);
                    proof {
                        assert forall|d: int| 0 <= d < start_visited.len() && #[trigger] start_visited[d] implies visited@[d] by {
                            assert(before_visit[d]);
                        }
                        assert(lists(held@) =~= start_held.update(c as int, start_held[c as int].push(x)));
                        lemma_place_fresh(choices, counts@, start_held, lists(held@), c, x);
                    }
                    return true;
                }
                assert(held@[c as int]@ == start_held[c as int]);
                assert(start_held[c as int].len() <= counts@[c as int]);
                assert(size == counts@[c as int]);
                let mut slot: usize = 0;
                while slot < size
                    invariant
                        slot <= size,
                        size == start_held[c as int].len(),
                        c < self.count(),
                        visited@[c as int],
                        !start_visited[c as int],
                        choices == self.accepted(),
                        choices[x as int].contains(c),
                        options@ == choices[x as int],
                        k < options@.len(),
                        x < choices.len(),
                        counts@.len() == self.count(),
                        counts@[c as int] == size,
                        held@.len() == self.count(),
                        visited@.len() == self.count(),
                        lists(held@) == start_held,
                        start_visited.len() == self.count(),
                        start_visited == old(visited)@,
                        start_held == lists(old(held)@),
                        valid_held(choices, counts@, start_held),
                        !assigned(start_held, x),
                        forall|d: int| 0 <= d < start_visited.len() && #[trigger] start_visited[d] ==> visited@[d],
                        unvisited(visited@) < unvisited(start_visited),
                        forall|i: int|
                            0 <= i < k && counts@[(#[trigger] options@[i]) as int] > 0 ==> visited@[options@[i] as int],
                        forall|d: usize|
                            d < self.count() && #[trigger] visited@[d as int] && !start_visited[d as int] && d
                                != c ==> closed(choices, counts@, start_held, visited@, d),
                        forall|j: int|
                            0 <= j < slot ==> reaches_visited(
                                choices,
                                counts@,
                                visited@,
                                #[trigger] start_held[c as int][j],
                            ),
                        forall|r: int, i: int|
                            0 <= r < choices.len() && 0 <= i < choices[r].len() ==> #[trigger] choices[r][i]
                                < self.count(),
                    decreases size - slot,
                {
                    let holder = held[c][slot];
                    assert(holder == start_held[c as int][slot as int]);
                    assert(start_held[c as int].contains(holder));
                    assert(unvisited(visited@) < unvisited(start_visited));
                    let ghost visited_before = visited@;
                    // `x` takes the holder's slot first; the holder's own
                    // search never comes back to this visited coverage, so
                    // it cannot tell the difference.
                    let moved = replaced(&held[c], slot, x);
                    held.set(c, moved);
                    proof {
                        assert(lists(held@) =~= start_held.update(
                            c as int,
                            start_held[c as int].update(slot as int, x),
                        ));
                        lemma_swap_in(choices, counts@, start_held, lists(held@), c, slot as int, x);
                    }
                    let ghost swapped = lists(held@);
                    if self.assign(holder, counts, held, visited) {
                        proof {
                            assert forall|r: usize| #[trigger]
                                assigned(lists(held@), r) <==> assigned(start_held, r) || r == x by {
                                assert(assigned(swapped, r) <==> (assigned(start_held, r) && r != holder) || r == x);
                                assert(assigned(start_held, holder));
                            }
                        }
                        return true;
                    }
                    assert(lists(held@) == swapped);
                    assert(held@[c as int]@ == swapped[c as int]);
                    assert(swapped[c as int].len() == size);
                    let restored = replaced(&held[c], slot, holder);
                    held.set(c, restored);
                    proof {
                        assert(lists(held@)[c as int] =~= start_held[c as int]);
                        assert forall|d: int| 0 <= d < start_held.len() implies lists(held@)[d] == start_held[d] by {
                            if d != c {
                                assert(swapped[d] == start_held[d]);
                            }
                        }
                        assert(lists(held@) =~= start_held);
                        assert forall|i: int|
                            0 <= i < k && counts@[(#[trigger] options@[i]) as int] > 0 implies visited@[options@[i] as int] by {
                            assert(choices[x as int][i] == options@[i]);
                            assert(options@[i] < self.count());
                            assert(visited_before[options@[i] as int]);
                        }
                        lemma_closed_elsewhere(choices, counts@, swapped, start_held, visited_before, visited@, start_visited, c);
                        assert forall|j: int|
                            0 <= j < slot + 1 implies reaches_visited(
                                choices,
                                counts@,
                                visited@,
                                #[trigger] start_held[c as int][j],
                            ) by {
                            if j < slot {
                                lemma_reaches_grows(choices, counts@, visited_before, visited@, start_held[c as int][j]);
                            }
                        }
                    }
                    slot = slot + 1;
                }
                proof {
                    assert(closed(choices, counts@, start_held, visited@, c)) by {
                        assert forall|j: int| 0 <= j < start_held[c as int].len() implies reaches_visited(
                            choices,
                            counts@,
                            visited@,
                            #[trigger] start_held[c as int][j],
                        ) by {}
                    }
                }
            }
            k = k + 1;
        }
        proof {
            assert forall|i: int|
                0 <= i < choices[x as int].len() && counts@[(#[trigger] choices[x as int][i]) as int] > 0 implies visited@[choices[x as int][i] as int] by {
                assert(options@[i] == choices[x as int][i]);
            }
        }
        false
    }
}

// ---------------------------------------------------------------------------
// Held lists
// ---------------------------------------------------------------------------

/// The lists of requirements held by each coverage.
pub open spec fn lists(held: Seq<Vec<usize>>) -> Seq<Seq<usize>> {
    held.map_values(|list: Vec<usize>| list@)
}

/// Requirement `r` is held by some coverage.
pub open spec fn assigned(held: Seq<Seq<usize>>, r: usize) -> bool {
    exists|c: int| 0 <= c < held.len() && #[trigger] held[c].contains(r)
}

/// A partial matching: each held requirement accepts its coverage, no
/// coverage holds more than its items or a requirement twice, and no
/// requirement is held twice.
pub open spec fn valid_held(choices: Seq<Seq<usize>>, counts: Seq<usize>, held: Seq<Seq<usize>>) -> bool {
    &&& held.len() == counts.len()
    &&& forall|c: int| 0 <= c < held.len() ==> (#[trigger] held[c]).no_duplicates()
    &&& forall|c: int| 0 <= c < held.len() ==> (#[trigger] held[c]).len() <= counts[c]
    &&& forall|c: int, i: int|
        0 <= c < held.len() && 0 <= i < held[c].len() ==> #[trigger] held[c][i] < choices.len()
            && choices[held[c][i] as int].contains(c as usize)
    &&& forall|c: int, d: int, r: usize|
        0 <= c < held.len() && 0 <= d < held.len() && #[trigger] held[c].contains(r)
            && #[trigger] held[d].contains(r) ==> c == d
}

/// Every coverage with items that `x` accepts has been visited.
pub open spec fn reaches_visited(choices: Seq<Seq<usize>>, counts: Seq<usize>, visited: Seq<bool>, x: usize) -> bool {
    forall|i: int|
        0 <= i < choices[x as int].len() && counts[(#[trigger] choices[x as int][i]) as int] > 0
            ==> visited[choices[x as int][i] as int]
}

/// Coverage `c` is full and every requirement it holds has nowhere
/// unvisited to go.
pub open spec fn closed(
    choices: Seq<Seq<usize>>,
    counts: Seq<usize>,
    held: Seq<Seq<usize>>,
    visited: Seq<bool>,
    c: usize,
) -> bool {
    &&& held[c as int].len() == counts[c as int]
    &&& forall|j: int|
        0 <= j < held[c as int].len() ==> reaches_visited(choices, counts, visited, #[trigger] held[c as int][j])
}

/// Number of coverages not yet visited.
pub open spec fn unvisited(visited: Seq<bool>) -> nat
    decreases visited.len(),
{
    if visited.len() == 0 {
        0
    } else {
        unvisited(visited.drop_last()) + if visited.last() {
            0nat
        } else {
            1nat
        }
    }
}

/// Marking an unvisited coverage lowers the count by one.
proof fn lemma_unvisited_drops(visited: Seq<bool>, c: int)
    requires
        0 <= c < visited.len(),
        !visited[c],
    ensures
        unvisited(visited.update(c, true)) + 1 == unvisited(visited),
    decreases visited.len(),
{
    let updated = visited.update(c, true);
    if c < visited.len() - 1 {
        assert(updated.drop_last() =~= visited.drop_last().update(c, true));
        lemma_unvisited_drops(visited.drop_last(), c);
    } else {
        assert(updated.drop_last() =~= visited.drop_last());
    }
}

/// A requirement whose coverages were all visited stays so as more are.
proof fn lemma_reaches_grows(
    choices: Seq<Seq<usize>>,
    counts: Seq<usize>,
    before: Seq<bool>,
    after: Seq<bool>,
    x: usize,
)
    requires
        reaches_visited(choices, counts, before, x),
        before.len() == after.len(),
        forall|c: int| 0 <= c < before.len() && #[trigger] before[c] ==> after[c],
        forall|i: int| 0 <= i < choices[x as int].len() ==> #[trigger] choices[x as int][i] < before.len(),
    ensures
        reaches_visited(choices, counts, after, x),
{
    assert forall|i: int|
        0 <= i < choices[x as int].len() && counts[(#[trigger] choices[x as int][i]) as int] > 0 implies after[choices[x as int][i] as int] by {
        assert(before[choices[x as int][i] as int]);
    }
}

/// Adding a fresh requirement to a coverage with room keeps the matching
/// valid.
proof fn lemma_place_fresh(
    choices: Seq<Seq<usize>>,
    counts: Seq<usize>,
    before: Seq<Seq<usize>>,
    after: Seq<Seq<usize>>,
    c: usize,
    x: usize,
)
    requires
        valid_held(choices, counts, before),
        !assigned(before, x),
        x < choices.len(),
        c < before.len(),
        choices[x as int].contains(c),
        before[c as int].len() < counts[c as int],
        after == before.update(c as int, before[c as int].push(x)),
    ensures
        valid_held(choices, counts, after),
        forall|r: usize| #[trigger] assigned(after, r) <==> assigned(before, r) || r == x,
{
    assert(!before[c as int].contains(x));
    assert forall|d: int| 0 <= d < after.len() implies (#[trigger] after[d]).no_duplicates() by {
        if d == c {
            assert forall|i: int, j: int| 0 <= i < j < after[d].len() implies after[d][i] != after[d][j] by {
                if j == after[d].len() - 1 {
                    assert(before[c as int].contains(after[d][i]));
                }
            }
        }
    }
    assert forall|d: int, i: int|
        0 <= d < after.len() && 0 <= i < after[d].len() implies #[trigger] after[d][i] < choices.len()
        && choices[after[d][i] as int].contains(d as usize) by {
        if d == c && i == before[c as int].len() {
        } else if d == c {
            assert(after[d][i] == before[d][i]);
        }
    }
    assert forall|d: int, e: int, r: usize|
        0 <= d < after.len() && 0 <= e < after.len() && #[trigger] after[d].contains(r)
            && #[trigger] after[e].contains(r) implies d == e by {
        if r == x {
            if d != c {
                assert(before[d].contains(x));
            }
            if e != c {
                assert(before[e].contains(x));
            }
        } else {
            lemma_contains_pushed(before[c as int], x, r);
            assert(before[d].contains(r));
            assert(before[e].contains(r));
        }
    }
    assert forall|r: usize| #[trigger] assigned(after, r) <==> assigned(before, r) || r == x by {
        if r == x {
            assert(after[c as int].contains(x)) by {
                assert(after[c as int][before[c as int].len() as int] == x);
            }
        } else {
            if assigned(after, r) {
                let d = choose|d: int| 0 <= d < after.len() && #[trigger] after[d].contains(r);
                lemma_contains_pushed(before[c as int], x, r);
                assert(before[d].contains(r));
            }
            if assigned(before, r) {
                let d = choose|d: int| 0 <= d < before.len() && #[trigger] before[d].contains(r);
                lemma_contains_pushed(before[c as int], x, r);
                assert(after[d].contains(r));
            }
        }
    }
}

/// Membership in a list with one more element.
proof fn lemma_contains_pushed(list: Seq<usize>, x: usize, r: usize)
    ensures
        list.push(x).contains(r) <==> list.contains(r) || r == x,
{
    if list.contains(r) {
        let i = choose|i: int| 0 <= i < list.len() && list[i] == r;
        assert(list.push(x)[i] == r);
    }
    if r == x {
        assert(list.push(x)[list.len() as int] == x);
    }
    if list.push(x).contains(r) && r != x {
        let i = choose|i: int| 0 <= i < list.push(x).len() && list.push(x)[i] == r;
        assert(list[i] == r);
    }
}

/// Membership in a list with one element replaced.
proof fn lemma_contains_replaced(list: Seq<usize>, slot: int, x: usize, r: usize)
    requires
        0 <= slot < list.len(),
        list.no_duplicates(),
    ensures
        list.update(slot, x).contains(r) <==> (list.contains(r) && r != list[slot]) || r == x,
{
    let updated = list.update(slot, x);
    if r == x {
        assert(updated[slot] == x);
    } else if list.contains(r) && r != list[slot] {
        let i = choose|i: int| 0 <= i < list.len() && list[i] == r;
        assert(updated[i] == r);
    }
    if updated.contains(r) && r != x {
        let i = choose|i: int| 0 <= i < updated.len() && updated[i] == r;
        assert(i != slot);
        assert(list[i] == r);
        assert(r != list[slot]);
    }
}

/// Putting a fresh requirement in place of a holder keeps the matching
/// valid, with the holder now unassigned.
proof fn lemma_swap_in(
    choices: Seq<Seq<usize>>,
    counts: Seq<usize>,
    before: Seq<Seq<usize>>,
    after: Seq<Seq<usize>>,
    c: usize,
    slot: int,
    x: usize,
)
    requires
        valid_held(choices, counts, before),
        !assigned(before, x),
        x < choices.len(),
        c < before.len(),
        choices[x as int].contains(c),
        0 <= slot < before[c as int].len(),
        after == before.update(c as int, before[c as int].update(slot, x)),
    ensures
        valid_held(choices, counts, after),
        !assigned(after, before[c as int][slot]),
        forall|r: usize| #[trigger]
            assigned(after, r) <==> (assigned(before, r) && r != before[c as int][slot]) || r == x,
{
    let holder = before[c as int][slot];
    assert(before[c as int].contains(holder));
    assert(!before[c as int].contains(x));
    assert forall|d: int| 0 <= d < after.len() implies (#[trigger] after[d]).no_duplicates() by {
        if d == c {
            assert forall|i: int, j: int| 0 <= i < j < after[d].len() implies after[d][i] != after[d][j] by {
                if i == slot {
                    assert(before[c as int].contains(after[d][j]));
                }
                if j == slot {
                    assert(before[c as int].contains(after[d][i]));
                }
            }
        }
    }
    assert forall|d: int, i: int|
        0 <= d < after.len() && 0 <= i < after[d].len() implies #[trigger] after[d][i] < choices.len()
        && choices[after[d][i] as int].contains(d as usize) by {
        if d == c && i != slot {
            assert(after[d][i] == before[d][i]);
        }
    }
    assert forall|d: int, e: int, r: usize|
        0 <= d < after.len() && 0 <= e < after.len() && #[trigger] after[d].contains(r)
            && #[trigger] after[e].contains(r) implies d == e by {
        lemma_contains_replaced(before[c as int], slot, x, r);
        if r == x {
            if d != c {
                assert(before[d].contains(x));
            }
            if e != c {
                assert(before[e].contains(x));
            }
        } else {
            assert(before[d].contains(r));
            assert(before[e].contains(r));
        }
    }
    assert forall|r: usize| #[trigger]
        assigned(after, r) <==> (assigned(before, r) && r != holder) || r == x by {
        lemma_contains_replaced(before[c as int], slot, x, r);
        if assigned(after, r) {
            let d = choose|d: int| 0 <= d < after.len() && #[trigger] after[d].contains(r);
            if r != x {
                assert(before[d].contains(r));
                if d != c {
                    assert(r != holder) by {
                        if r == holder {
                            assert(before[c as int].contains(holder));
                        }
                    }
                }
            }
        }
        if (assigned(before, r) && r != holder) || r == x {
            if r == x {
                assert(after[c as int].contains(x));
            } else {
                let d = choose|d: int| 0 <= d < before.len() && #[trigger] before[d].contains(r);
                assert(after[d].contains(r));
            }
        }
    }
}

/// Coverages visited by a failed search from the holder stay closed once
/// the holder is put back: they are not the coverage the swap touched.
proof fn lemma_closed_elsewhere(
    choices: Seq<Seq<usize>>,
    counts: Seq<usize>,
    swapped: Seq<Seq<usize>>,
    restored: Seq<Seq<usize>>,
    visited_before: Seq<bool>,
    visited: Seq<bool>,
    start_visited: Seq<bool>,
    c: usize,
)
    requires
        c < restored.len(),
        swapped.len() == restored.len(),
        forall|d: int| 0 <= d < restored.len() && d != c ==> swapped[d] == restored[d],
        visited_before.len() == restored.len(),
        visited.len() == restored.len(),
        start_visited.len() == restored.len(),
        visited_before[c as int],
        forall|d: usize|
            d < restored.len() && #[trigger] visited[d as int] && !visited_before[d as int] ==> closed(
                choices,
                counts,
                swapped,
                visited,
                d,
            ),
        forall|d: usize|
            d < restored.len() && #[trigger] visited_before[d as int] && !start_visited[d as int] && d != c
                ==> closed(choices, counts, restored, visited_before, d),
        forall|d: int| 0 <= d < restored.len() && #[trigger] visited_before[d] ==> visited[d],
        forall|r: int, i: int|
            0 <= r < choices.len() && 0 <= i < choices[r].len() ==> #[trigger] choices[r][i] < restored.len(),
        forall|d: int, i: int|
            0 <= d < restored.len() && 0 <= i < restored[d].len() ==> #[trigger] restored[d][i] < choices.len(),
    ensures
        forall|d: usize|
            d < restored.len() && #[trigger] visited[d as int] && !start_visited[d as int] && d != c
                ==> closed(choices, counts, restored, visited, d),
{
    assert forall|d: usize|
        d < restored.len() && #[trigger] visited[d as int] && !start_visited[d as int] && d != c implies closed(
        choices,
        counts,
        restored,
        visited,
        d,
    ) by {
        if visited_before[d as int] {
            assert forall|j: int| 0 <= j < restored[d as int].len() implies reaches_visited(
                choices,
                counts,
                visited,
                #[trigger] restored[d as int][j],
            ) by {
                lemma_reaches_grows(choices, counts, visited_before, visited, restored[d as int][j]);
            }
        } else {
            assert(swapped[d as int] == restored[d as int]);
        }
    }
}

// ---------------------------------------------------------------------------
// Counting
// ---------------------------------------------------------------------------

/// The requirements `0..n`.
pub open spec fn first_requirements(n: nat) -> Set<usize> {
    Set::new(|r: usize| r < n)
}

/// The members of `rs` that `target` sends to `c`.
pub open spec fn fiber_of(rs: Set<usize>, target: spec_fn(usize) -> usize, c: usize) -> Set<usize> {
    rs.filter(|r: usize| target(r) == c)
}

/// Sizes of the fibers of `target` over coverages `0..k`.
pub open spec fn fiber_total(rs: Set<usize>, target: spec_fn(usize) -> usize, k: nat) -> int
    decreases k,
{
    if k == 0 {
        0
    } else {
        fiber_total(rs, target, (k - 1) as nat) + fiber_of(rs, target, (k - 1) as usize).len()
    }
}

/// The items of the visited coverages among `0..k`.
pub open spec fn visited_count(counts: Seq<usize>, visited: Seq<bool>, k: nat) -> int
    decreases k,
{
    if k == 0 {
        0
    } else {
        visited_count(counts, visited, (k - 1) as nat) + if visited[k - 1] {
            counts[k - 1] as int
        } else {
            0
        }
    }
}

/// The first `n` requirements form a finite set of `n` elements.
proof fn lemma_first_requirements(n: nat)
    requires
        n <= usize::MAX + 1,
    ensures
        first_requirements(n).finite(),
        first_requirements(n).len() == n,
    decreases n,
{
    if n == 0 {
        assert(first_requirements(0) =~= Set::<usize>::empty());
    } else {
        lemma_first_requirements((n - 1) as nat);
        assert(first_requirements(n) =~= first_requirements((n - 1) as nat).insert((n - 1) as usize));
    }
}

/// Fibers that agree below `k` have equal totals.
proof fn lemma_fiber_total_agrees(
    rs: Set<usize>,
    ts: Set<usize>,
    target: spec_fn(usize) -> usize,
    k: nat,
)
    requires
        forall|c: usize| c < k ==> #[trigger] fiber_of(rs, target, c) == fiber_of(ts, target, c),
    ensures
        fiber_total(rs, target, k) == fiber_total(ts, target, k),
    decreases k,
{
    if k > 0 {
        lemma_fiber_total_agrees(rs, ts, target, (k - 1) as nat);
        let c = (k - 1) as usize;
        assert(fiber_of(rs, target, c) == fiber_of(ts, target, c));
    }
}

/// A finite set mapped below `k` is as large as its fibers together.
proof fn lemma_fibers(rs: Set<usize>, target: spec_fn(usize) -> usize, k: nat)
    requires
        rs.finite(),
        k <= usize::MAX + 1,
        forall|r: usize| rs.contains(r) ==> (target(r) as int) < k,
    ensures
        rs.len() == fiber_total(rs, target, k),
    decreases k,
{
    if k == 0 {
        assert(rs =~= Set::<usize>::empty());
    } else {
        let last = (k - 1) as usize;
        let here = fiber_of(rs, target, last);
        let rest = rs.filter(|r: usize| target(r) != last);
        rs.lemma_len_filter(|r: usize| target(r) == last);
        rs.lemma_len_filter(|r: usize| target(r) != last);
        lemma_fibers(rest, target, (k - 1) as nat);
        assert forall|c: usize| c < (k - 1) as nat implies fiber_of(rest, target, c) == fiber_of(rs, target, c) by {
            assert(fiber_of(rest, target, c) =~= fiber_of(rs, target, c));
        }
        lemma_fiber_total_agrees(rest, rs, target, (k - 1) as nat);
        assert(here + rest =~= rs);
        assert(here.disjoint(rest));
        vstd::set_lib::lemma_set_disjoint_lens(here, rest);
    }
}

/// Fibers bounded by the visited items bound their total.
proof fn lemma_fibers_bounded(
    rs: Set<usize>,
    target: spec_fn(usize) -> usize,
    counts: Seq<usize>,
    visited: Seq<bool>,
    k: nat,
)
    requires
        k <= usize::MAX + 1,
        forall|c: usize|
            c < k ==> fiber_of(rs, target, c).len() <= if visited[c as int] {
                counts[c as int] as int
            } else {
                0
            },
    ensures
        fiber_total(rs, target, k) <= visited_count(counts, visited, k),
    decreases k,
{
    if k > 0 {
        lemma_fibers_bounded(rs, target, counts, visited, (k - 1) as nat);
        let c = (k - 1) as usize;
        assert(fiber_of(rs, target, c).len() <= if visited[c as int] {
            counts[c as int] as int
        } else {
            0
        });
    }
}

/// Fibers equal to the visited items sum to them.
proof fn lemma_fibers_exact(
    rs: Set<usize>,
    target: spec_fn(usize) -> usize,
    counts: Seq<usize>,
    visited: Seq<bool>,
    k: nat,
)
    requires
        k <= usize::MAX + 1,
        forall|c: usize|
            c < k ==> fiber_of(rs, target, c).len() == if visited[c as int] {
                counts[c as int] as int
            } else {
                0
            },
    ensures
        fiber_total(rs, target, k) == visited_count(counts, visited, k),
    decreases k,
{
    if k > 0 {
        lemma_fibers_exact(rs, target, counts, visited, (k - 1) as nat);
        let c = (k - 1) as usize;
        assert(fiber_of(rs, target, c).len() == if visited[c as int] {
            counts[c as int] as int
        } else {
            0
        });
    }
}

/// With every coverage visited, the visited items are all the items.
proof fn lemma_all_visited(counts: Seq<usize>, visited: Seq<bool>, k: nat)
    requires
        forall|c: int| 0 <= c < k ==> visited[c],
    ensures
        visited_count(counts, visited, k) == total_count(counts, k),
    decreases k,
{
    if k > 0 {
        lemma_all_visited(counts, visited, (k - 1) as nat);
    }
}

/// The coverage an assignment gives requirement `r`, or 0 past its end.
pub open spec fn coverage_of(a: Seq<usize>) -> spec_fn(usize) -> usize {
    |r: usize| if r < a.len() { a[r as int] } else { 0 }
}

/// A matching places the requirements of any set among them at most as
/// densely as the counts allow.
proof fn lemma_matching_fibers(choices: Seq<Seq<usize>>, counts: Seq<usize>, a: Seq<usize>, rs: Set<usize>, c: usize)
    requires
        is_matching(choices, counts, a),
        a.len() <= usize::MAX + 1,
        c < counts.len(),
        forall|r: usize| rs.contains(r) ==> r < a.len(),
    ensures
        fiber_of(rs, coverage_of(a), c).len() <= counts[c as int],
        fiber_of(rs, coverage_of(a), c).finite(),
{
    lemma_first_requirements(a.len());
    let all = fiber(a, c);
    assert(all.subset_of(first_requirements(a.len())));
    vstd::set_lib::lemma_len_subset(all, first_requirements(a.len()));
    let mine = fiber_of(rs, coverage_of(a), c);
    assert(mine.subset_of(all));
    vstd::set_lib::lemma_len_subset(mine, all);
    assert(fiber(a, c).len() <= counts[c as int]);
}

/// With fewer items than requirements, no matching exists.
proof fn lemma_too_few_items(choices: Seq<Seq<usize>>, counts: Seq<usize>)
    requires
        total_count(counts, counts.len()) < choices.len(),
        choices.len() <= usize::MAX + 1,
        counts.len() <= usize::MAX + 1,
        forall|r: int, i: int|
            0 <= r < choices.len() && 0 <= i < choices[r].len() ==> #[trigger] choices[r][i] < counts.len(),
    ensures
        !matchable(choices, counts),
{
    if matchable(choices, counts) {
        let a = choose|a: Seq<usize>| is_matching(choices, counts, a);
        let rs = first_requirements(choices.len());
        lemma_first_requirements(choices.len());
        let target = coverage_of(a);
        assert forall|r: usize| rs.contains(r) implies (target(r) as int) < counts.len() by {
            assert(choices[r as int].contains(a[r as int]));
        }
        lemma_fibers(rs, target, counts.len());
        let everything = Seq::new(counts.len(), |c: int| true);
        assert forall|c: usize| c < counts.len() implies fiber_of(rs, target, c).len() <= if everything[c as int] {
            counts[c as int] as int
        } else {
            0
        } by {
            lemma_matching_fibers(choices, counts, a, rs, c);
        }
        lemma_fibers_bounded(rs, target, counts, everything, counts.len());
        lemma_all_visited(counts, everything, counts.len());
    }
}

/// The coverage holding requirement `r`.
pub open spec fn holder_of(held: Seq<Seq<usize>>) -> spec_fn(usize) -> usize {
    |r: usize| (choose|c: int| 0 <= c < held.len() && #[trigger] held[c].contains(r)) as usize
}

/// The holder of an assigned requirement is the one coverage holding it.
proof fn lemma_holder(choices: Seq<Seq<usize>>, counts: Seq<usize>, held: Seq<Seq<usize>>, r: usize)
    requires
        held.len() <= usize::MAX + 1,
        valid_held(choices, counts, held),
        assigned(held, r),
    ensures
        (holder_of(held)(r) as int) < held.len(),
        held[holder_of(held)(r) as int].contains(r),
        forall|c: int| 0 <= c < held.len() && #[trigger] held[c].contains(r) ==> c == holder_of(held)(r) as int,
        r < choices.len(),
{
    let d = choose|c: int| 0 <= c < held.len() && #[trigger] held[c].contains(r);
    assert(0 <= d < held.len() && held[d].contains(r));
    assert(holder_of(held)(r) == d as usize);
    let i = choose|i: int| 0 <= i < held[d].len() && held[d][i] == r;
    assert(held[d][i] < choices.len());
}

/// When a search from an unassigned requirement `q` fails, every matching
/// would have to fit `q` and all holders of the visited coverages into those
/// coverages, which are already full with the holders alone.
proof fn lemma_stuck(
    choices: Seq<Seq<usize>>,
    counts: Seq<usize>,
    held: Seq<Seq<usize>>,
    visited: Seq<bool>,
    q: usize,
)
    requires
        valid_held(choices, counts, held),
        !assigned(held, q),
        q < choices.len(),
        choices.len() <= usize::MAX + 1,
        counts.len() <= usize::MAX + 1,
        visited.len() == counts.len(),
        reaches_visited(choices, counts, visited, q),
        forall|c: usize| c < counts.len() && #[trigger] visited[c as int] ==> closed(choices, counts, held, visited, c),
        forall|r: int, i: int|
            0 <= r < choices.len() && 0 <= i < choices[r].len() ==> #[trigger] choices[r][i] < counts.len(),
    ensures
        !matchable(choices, counts),
{
    if matchable(choices, counts) {
        let a = choose|a: Seq<usize>| is_matching(choices, counts, a);
        let k = counts.len();
        lemma_first_requirements(choices.len());
        // The holders of the visited coverages.
        let owner = holder_of(held);
        let holders = first_requirements(choices.len()).filter(
            |r: usize| assigned(held, r) && visited[owner(r) as int],
        );
        vstd::set_lib::lemma_len_subset(holders, first_requirements(choices.len()));
        assert forall|r: usize| holders.contains(r) implies (owner(r) as int) < k by {}
        lemma_fibers(holders, owner, k);
        assert forall|c: usize| c < k implies fiber_of(holders, owner, c).len() == if visited[c as int] {
            counts[c as int] as int
        } else {
            0
        } by {
            let fiber_here = fiber_of(holders, owner, c);
            if visited[c as int] {
                assert(fiber_here =~= held[c as int].to_set()) by {
                    assert forall|r: usize| fiber_here.contains(r) <==> held[c as int].to_set().contains(r) by {
                        if held[c as int].contains(r) {
                            assert(assigned(held, r));
                            let d = choose|d: int| 0 <= d < held.len() && #[trigger] held[d].contains(r);
                            assert(d == c);
                            let i = choose|i: int| 0 <= i < held[c as int].len() && held[c as int][i] == r;
                            assert(held[c as int][i] < choices.len());
                        }
                        if fiber_here.contains(r) {
                            let d = choose|d: int| 0 <= d < held.len() && #[trigger] held[d].contains(r);
                            assert(d == c);
                        }
                    }
                }
                held[c as int].unique_seq_to_set();
                assert(closed(choices, counts, held, visited, c));
            } else {
                assert(fiber_here =~= Set::<usize>::empty());
            }
        }
        lemma_fibers_exact(holders, owner, counts, visited, k);
        // Everyone who must fit: the holders and q.
        let crowd = holders.insert(q);
        assert(!holders.contains(q));
        let target = coverage_of(a);
        assert forall|r: usize| crowd.contains(r) implies (target(r) as int) < k && visited[target(r) as int] by {
            assert(choices[r as int].contains(a[r as int]));
            let i = choose|i: int| 0 <= i < choices[r as int].len() && choices[r as int][i] == a[r as int];
            assert(fiber(a, a[r as int]).contains(r));
            assert(fiber(a, a[r as int]).len() > 0) by {
                lemma_first_requirements(choices.len());
                assert(fiber(a, a[r as int]).subset_of(first_requirements(choices.len())));
                vstd::set_lib::lemma_len_subset(fiber(a, a[r as int]), first_requirements(choices.len()));
            }
            assert(counts[a[r as int] as int] > 0);
            if r != q {
                let c = owner(r);
                assert(closed(choices, counts, held, visited, c));
                let j = choose|j: int| 0 <= j < held[c as int].len() && held[c as int][j] == r;
                assert(reaches_visited(choices, counts, visited, held[c as int][j]));
            }
        }
        lemma_fibers(crowd, target, k);
        assert forall|c: usize| c < k implies fiber_of(crowd, target, c).len() <= if visited[c as int] {
            counts[c as int] as int
        } else {
            0
        } by {
            lemma_matching_fibers(choices, counts, a, crowd, c);
            if !visited[c as int] {
                assert(fiber_of(crowd, target, c) =~= Set::<usize>::empty());
            }
        }
        lemma_fibers_bounded(crowd, target, counts, visited, k);
    }
}

/// A partial matching that holds every requirement is a matching.
proof fn lemma_complete(choices: Seq<Seq<usize>>, counts: Seq<usize>, held: Seq<Seq<usize>>)
    requires
        counts.len() <= usize::MAX + 1,
        valid_held(choices, counts, held),
        forall|r: usize| #[trigger] assigned(held, r) <==> r < choices.len(),
        choices.len() <= usize::MAX + 1,
    ensures
        matchable(choices, counts),
{
    let owner = holder_of(held);
    let a = Seq::new(choices.len(), |r: int| owner(r as usize));
    assert forall|r: int| 0 <= r < a.len() implies #[trigger] choices[r].contains(a[r]) by {
        assert(assigned(held, r as usize));
        lemma_holder(choices, counts, held, r as usize);
        let c = owner(r as usize) as int;
        let i = choose|i: int| 0 <= i < held[c].len() && held[c][i] == r as usize;
        assert(choices[held[c][i] as int].contains(c as usize));
    }
    assert forall|c: usize| c < counts.len() implies #[trigger] fiber(a, c).len() <= counts[c as int] by {
        assert(fiber(a, c) =~= held[c as int].to_set()) by {
            assert forall|r: usize| fiber(a, c).contains(r) <==> held[c as int].to_set().contains(r) by {
                if held[c as int].contains(r) {
                    assert(assigned(held, r));
                    lemma_holder(choices, counts, held, r);
                    assert(a[r as int] == owner(r));
                }
                if fiber(a, c).contains(r) {
                    assert(assigned(held, r));
                    lemma_holder(choices, counts, held, r);
                    assert(a[r as int] == owner(r));
                }
            }
        }
        held[c as int].unique_seq_to_set();
    }
    assert(is_matching(choices, counts, a));
}

// ---------------------------------------------------------------------------
// Exec helpers
// ---------------------------------------------------------------------------

/// The total number of items, coverage by coverage.
fn total_items(counts: &[usize]) -> (total: usize)
    requires
        total_count(counts@, counts@.len()) <= usize::MAX,
    ensures
        total == total_count(counts@, counts@.len()),
{
    let mut total: usize = 0;
    let mut c: usize = 0;
    while c < counts.len()
        invariant
            c <= counts@.len(),
            total == total_count(counts@, c as nat),
            total_count(counts@, counts@.len()) <= usize::MAX,
        decreases counts.len() - c,
    {
        proof {
            lemma_total_grows(counts@, (c + 1) as nat, counts@.len());
        }
        total = total + counts[c];
        c = c + 1;
    }
    total
}

/// Totals grow with the number of coverages counted.
proof fn lemma_total_grows(counts: Seq<usize>, k: nat, n: nat)
    requires
        k <= n <= counts.len(),
    ensures
        total_count(counts, k) <= total_count(counts, n),
    decreases n - k,
{
    if k < n {
        lemma_total_grows(counts, k, (n - 1) as nat);
    }
}

/// A copy of `list` with `x` appended.
fn pushed(list: &Vec<usize>, x: usize) -> (out: Vec<usize>)
    ensures
        out@ == list@.push(x),
{
    let mut out = copied(list);
    out.push(x);
    out
}

/// A copy of `list` with the entry at `slot` replaced by `x`.
fn replaced(list: &Vec<usize>, slot: usize, x: usize) -> (out: Vec<usize>)
    requires
        slot < list@.len(),
    ensures
        out@ == list@.update(slot as int, x),
{
    let mut out = copied(list);
    out.set(slot, x);
    out
}

/// A copy of `list`.
fn copied(list: &Vec<usize>) -> (out: Vec<usize>)
    ensures
        out@ == list@,
{
    let mut out: Vec<usize> = Vec::new();
    let mut i: usize = 0;
    while i < list.len()
        invariant
            i <= list@.len(),
            out@ == list@.take(i as int),
        decreases list.len() - i,
    {
        out.push(list[i]);
        assert(out@ =~= list@.take(i + 1));
        i = i + 1;
    }
    assert(list@.take(list@.len() as int) =~= list@);
    out
}

} // verus!
