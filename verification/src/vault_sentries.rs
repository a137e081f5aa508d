//! Scouting-only snapshots of the pinned laser and sentry setups of a vault
//! room: where each one stands, how often it fires, and which cells it aims
//! at, shot by shot.

use vstd::prelude::*;

verus! {

/// One laser or sentry of a vault room.
#[derive(Clone, Debug, PartialEq, Eq)]
pub struct VaultSentryPattern {
    pub cell: usize,
    pub initial_cooldown: u32,
    pub cooldown: u32,
    pub triggers: u16,
    pub warning: bool,
    /// Target cells, grouped by consecutive shots or scans. Lasers have one
    /// target.
    pub directions: Vec<Vec<usize>>,
    /// Absent for purple lasers. Blue scan width and length, in thousandths.
    pub scan: Option<[u32; 2]>,
}

/// The cell that lies `x` columns and `y` rows away from `cell` on a map of
/// the given width.
pub open spec fn shifted(cell: int, width: int, point: (int, int)) -> int {
    cell + point.0 + point.1 * width
}

/// Reaching that cell stays within `i32` at every step and lands on a
/// non-negative index.
pub open spec fn shift_fits(cell: int, width: int, point: (int, int)) -> bool {
    &&& cell <= i32::MAX
    &&& i32::MIN <= cell + point.0 <= i32::MAX
    &&& i32::MIN <= point.1 * width <= i32::MAX
    &&& 0 <= shifted(cell, width, point) <= i32::MAX
}

/// Every point of the list can be reached from `cell`.
pub open spec fn all_fit(cell: int, width: int, points: Seq<(int, int)>) -> bool {
    forall|i: int| 0 <= i < points.len() ==> shift_fits(cell, width, #[trigger] points[i])
}

/// One single-target shot per point, in the order of the points.
pub open spec fn shots(cell: int, width: int, points: Seq<(int, int)>) -> Seq<Seq<usize>> {
    Seq::new(points.len(), |i: int| seq![shifted(cell, width, points[i]) as usize])
}

/// Integer pairs as mathematical pairs.
pub open spec fn int_points(points: Seq<(i32, i32)>) -> Seq<(int, int)> {
    points.map_values(|p: (i32, i32)| (p.0 as int, p.1 as int))
}

/// The four neighbours that a cross sentry sweeps.
pub open spec fn cross_points() -> Seq<(int, int)> {
    seq![(-1, 0), (0, -1), (1, 0), (0, 1)]
}

/// The eight neighbours of a full ring, starting to the west.
pub open spec fn ring_points() -> Seq<(int, int)> {
    seq![(-1, 0), (-1, -1), (0, -1), (1, -1), (1, 0), (1, 1), (0, 1), (-1, 1)]
}

/// Half of the ring at distance two, from west to east through the north.
pub open spec fn half_circle_points() -> Seq<(int, int)> {
    seq![(-2, 0), (-2, -1), (-2, -2), (-1, -2), (0, -2), (1, -2), (2, -2), (2, -1)]
}

/// The other half of that ring: each point mirrored through the centre.
pub open spec fn mirrored_half_circle_points() -> Seq<(int, int)> {
    half_circle_points().map_values(|p: (int, int)| (-p.0, -p.1))
}

/// The start points of the spiral pattern at distance three.
pub open spec fn spiral_points() -> Seq<(int, int)> {
    seq![(-3, 0), (-3, -1), (-3, -2), (-3, -3), (-2, -3), (-1, -3)]
}

/// A point and its three quarter turns around the centre.
pub open spec fn quarter_turns(point: (int, int)) -> Seq<(int, int)> {
    seq![point, (-point.1, point.0), (-point.0, -point.1), (point.1, -point.0)]
}

/// Every quarter turn of every spiral point can be reached.
pub open spec fn spiral_fits(cell: int, width: int) -> bool {
    forall|i: int|
        0 <= i < spiral_points().len() ==> all_fit(cell, width, quarter_turns(
            #[trigger] spiral_points()[i],
        ))
}

/// The spiral scan: one shot per spiral point, hitting the point and its
/// three quarter turns at once.
pub open spec fn spiral_shots(cell: int, width: int) -> Seq<Seq<usize>> {
    Seq::new(
        spiral_points().len(),
        |i: int|
            quarter_turns(spiral_points()[i]).map_values(
                |p: (int, int)| shifted(cell, width, p) as usize,
            ),
    )
}

/// The cell mirrored through `cell` fits in a `usize` for every half-circle
/// target.
pub open spec fn mirror_fits(cell: int, width: int) -> bool {
    &&& 2 * cell <= usize::MAX
    &&& forall|i: int|
        0 <= i < half_circle_points().len() ==> shifted(cell, width, #[trigger] half_circle_points()[i])
            <= 2 * cell
}

/// The two-sided half-circle sweep: each shot hits a half-circle cell and
/// the cell opposite it.
pub open spec fn double_half_circle_shots(cell: int, width: int) -> Seq<Seq<usize>> {
    shots(cell, width, half_circle_points()).map_values(
        |s: Seq<usize>| s.push((2 * cell - s[0]) as usize),
    )
}

/// Whether a circle sentry with this pattern number can stand at `cell`.
pub open spec fn circle_fits(cell: int, width: int, pattern: int) -> bool {
    if pattern == 0 {
        all_fit(cell, width, ring_points())
    } else if pattern == 1 || pattern == 2 {
        all_fit(cell, width, half_circle_points()) && mirror_fits(cell, width)
    } else {
        spiral_fits(cell, width)
    }
}

/// The shots of a circle sentry with this pattern number.
pub open spec fn circle_shots(cell: int, width: int, pattern: int) -> Seq<Seq<usize>> {
    if pattern == 0 {
        shots(cell, width, ring_points())
    } else if pattern == 1 || pattern == 2 {
        double_half_circle_shots(cell, width)
    } else {
        spiral_shots(cell, width)
    }
}

/// The scan width of a circle sentry with this pattern number.
pub open spec fn circle_degrees(pattern: int) -> u32 {
    if pattern == 0 {
        90000
    } else if pattern == 1 || pattern == 2 {
        45000
    } else {
        22500
    }
}

/// The shots of a treasure-guarding circle sentry: the whole ring at
/// distance two, clockwise or reversed.
pub open spec fn treasure_shots(cell: int, width: int, clockwise: bool) -> Seq<Seq<usize>> {
    let all = shots(cell, width, half_circle_points()) + shots(
        cell,
        width,
        mirrored_half_circle_points(),
    );
    if clockwise {
        all
    } else {
        all.reverse()
    }
}

/// The scan settings of a blue sentry.
pub open spec fn scan_is(scan: Option<[u32; 2]>, width: u32, length: u32) -> bool {
    &&& scan is Some
    &&& scan.unwrap()@ == seq![width, length]
}

impl VaultSentryPattern {
    /// The common shape of a blue sentry: fires every turn from the start.
    pub open spec fn is_scan(&self, cell: usize, width: u32, length: u32) -> bool {
        &&& self.cell == cell
        &&& self.initial_cooldown == 1
        &&& self.triggers == 1
        &&& !self.warning
        &&& scan_is(self.scan, width, length)
    }

    /// A purple laser at `cell` that shoots at `target`.
    pub fn laser(
        cell: usize,
        target: usize,
        initial: u32,
        cooldown: u32,
        triggers: u16,
        warning: bool,
    ) -> (pattern: Self)
        ensures
            pattern.cell == cell,
            pattern.initial_cooldown == initial,
            pattern.cooldown == cooldown,
            pattern.triggers == triggers,
            pattern.warning == warning,
            pattern.directions.deep_view() == seq![seq![target]],
            pattern.scan is None,
    {
        let mut shot: Vec<usize> = Vec::new();
        shot.push(target);
        let mut directions: Vec<Vec<usize>> = Vec::new();
        directions.push(shot);
        assert(directions.deep_view() =~= seq![seq![target]]) by {
            assert(directions.deep_view()[0] =~= seq![target]);
        }
        VaultSentryPattern {
            cell,
            initial_cooldown: initial,
            cooldown,
            triggers,
            warning,
            directions,
            scan: None,
        }
    }

    fn scan(cell: usize, directions: Vec<Vec<usize>>, width: u32, length: u32) -> (pattern: Self)
        ensures
            pattern.is_scan(cell, width, length),
            pattern.cooldown == 1,
            pattern.directions.deep_view() == directions.deep_view(),
    {
        let settings: [u32; 2] = [width, length];
        assert(settings@ =~= seq![width, length]);
        VaultSentryPattern {
            cell,
            initial_cooldown: 1,
            cooldown: 1,
            triggers: 1,
            warning: false,
            directions,
            scan: Some(settings),
        }
    }

    /// A cross sentry: sweeps its four neighbours, one each third turn.
    pub fn cross(cell: usize, width: i32) -> (pattern: Self)
        requires
            all_fit(cell as int, width as int, cross_points()),
        ensures
            pattern.is_scan(cell, 90000, 4000),
            pattern.cooldown == 3,
            pattern.directions.deep_view() == shots(cell as int, width as int, cross_points()),
    {
        let points: Vec<(i32, i32)> = vec![(-1, 0), (0, -1), (1, 0), (0, 1)];
        assert(int_points(points@) =~= cross_points());
        let directions = offsets(cell, width, &points);
        let mut out = Self::scan(cell, directions, 90000, 4000);
        out.cooldown = 3;
        out
    }

    /// A circle sentry; the pattern number picks the full ring, the
    /// two-sided half circle, or the spiral.
    pub fn circle(cell: usize, width: i32, pattern: i32) -> (out: Self)
        requires
            circle_fits(cell as int, width as int, pattern as int),
        ensures
            out.is_scan(cell, circle_degrees(pattern as int), 4490),
            out.cooldown == 1,
            out.directions.deep_view() == circle_shots(cell as int, width as int, pattern as int),
    {
        if pattern == 0 {
            let points: Vec<(i32, i32)> = vec![
                (-1, 0),
                (-1, -1),
                (0, -1),
                (1, -1),
                (1, 0),
                (1, 1),
                (0, 1),
                (-1, 1),
            ];
            assert(int_points(points@) =~= ring_points());
            let directions = offsets(cell, width, &points);
            Self::scan(cell, directions, 90000, 4490)
        } else if pattern == 1 || pattern == 2 {
            let directions = double_half_circle(cell, width);
            Self::scan(cell, directions, 45000, 4490)
        } else {
            let directions = spiral(cell, width);
            Self::scan(cell, directions, 22500, 4490)
        }
    }

    /// A circle sentry that guards treasure: sweeps the whole ring at
    /// distance two, clockwise or the other way round.
    pub fn circle_treasure(cell: usize, width: i32, clockwise: bool) -> (pattern: Self)
        requires
            all_fit(cell as int, width as int, half_circle_points()),
            all_fit(cell as int, width as int, mirrored_half_circle_points()),
        ensures
            pattern.is_scan(cell, 45000, 4490),
            pattern.cooldown == 1,
            pattern.directions.deep_view() == treasure_shots(
                cell as int,
                width as int,
                clockwise,
            ),
    {
        let half = half_circle();
        let mut directions = offsets(cell, width, &half);
        let mut opposite_points: Vec<(i32, i32)> = Vec::new();
        let mut i: usize = 0;
        while i < half.len()
            invariant
                i <= half.len(),
                int_points(half@) == half_circle_points(),
                int_points(opposite_points@) == mirrored_half_circle_points().take(i as int),
            decreases half.len() - i,
        {
            let (x, y) = half[i];
            proof {
                assert(int_points(half@)[i as int] == (x as int, y as int));
                assert(half_circle_points()[i as int] == (x as int, y as int));
            }
            let neg_x: i32 = -x;
            let neg_y: i32 = -y;
            assert(mirrored_half_circle_points()[i as int] == (-(x as int), -(y as int)));
            proof {
                assert(int_points(opposite_points@).len() == i);
            }
            opposite_points.push((neg_x, neg_y));
            assert(opposite_points@[i as int] == (neg_x, neg_y));
            assert(opposite_points@.len() == i + 1);
            assert(int_points(opposite_points@)[i as int] == (-(x as int), -(y as int)));
            assert(int_points(opposite_points@) =~= mirrored_half_circle_points().take(i + 1));
            i = i + 1;
        }
        assert(mirrored_half_circle_points().take(8) =~= mirrored_half_circle_points());
        let ghost first = directions.deep_view();
        let mut second = offsets(cell, width, &opposite_points);
        let ghost other = second.deep_view();
        directions.append(&mut second);
        assert(directions.deep_view() =~= first + other) by {
            assert forall|k: int| 0 <= k < directions.len() implies directions.deep_view()[k]
                == (first + other)[k] by {}
        }
        if !clockwise {
            directions = reversed(directions);
        }
        Self::scan(cell, directions, 45000, 4490)
    }

    /// A sentry that scans one target cell again and again.
    pub fn many_scans(cell: usize, target: usize) -> (pattern: Self)
        ensures
            pattern.is_scan(cell, 70000, 7000),
            pattern.cooldown == 1,
            pattern.directions.deep_view() == seq![seq![target]],
    {
        let mut shot: Vec<usize> = Vec::new();
        shot.push(target);
        let mut directions: Vec<Vec<usize>> = Vec::new();
        directions.push(shot);
        assert(directions.deep_view() =~= seq![seq![target]]) by {
            assert(directions.deep_view()[0] =~= seq![target]);
        }
        Self::scan(cell, directions, 70000, 7000)
    }
}

/// The nested view of a list of shots, shot by shot.
proof fn lemma_shots_view(shots: &Vec<Vec<usize>>)
    ensures
        shots.deep_view().len() == shots.len(),
        forall|k: int| 0 <= k < shots.len() ==> #[trigger] shots.deep_view()[k] == shots@[k]@,
{
    assert forall|k: int| 0 <= k < shots.len() implies #[trigger] shots.deep_view()[k]
        == shots@[k]@ by {
        assert(shots.deep_view()[k] =~= shots@[k]@);
    }
}

/// The half circle at distance two, as exec points.
fn half_circle() -> (points: Vec<(i32, i32)>)
    ensures
        int_points(points@) == half_circle_points(),
{
    let points: Vec<(i32, i32)> = vec![
        (-2, 0),
        (-2, -1),
        (-2, -2),
        (-1, -2),
        (0, -2),
        (1, -2),
        (2, -2),
        (2, -1),
    ];
    assert(int_points(points@) =~= half_circle_points());
    points
}

/// The cell reached from `cell` by one point.
fn shift(cell: usize, width: i32, x: i32, y: i32) -> (target: usize)
    requires
        shift_fits(cell as int, width as int, (x as int, y as int)),
    ensures
        target as int == shifted(cell as int, width as int, (x as int, y as int)),
{
    let start = cell as i32;
    let rows = y * width;
    let target = start + x + rows;
    target as usize
}

/// One single-target shot per point.
fn offsets(cell: usize, width: i32, points: &Vec<(i32, i32)>) -> (out: Vec<Vec<usize>>)
    requires
        all_fit(cell as int, width as int, int_points(points@)),
    ensures
        out.deep_view() == shots(cell as int, width as int, int_points(points@)),
{
    let ghost expected = shots(cell as int, width as int, int_points(points@));
    let mut out: Vec<Vec<usize>> = Vec::new();
    let mut i: usize = 0;
    while i < points.len()
        invariant
            i <= points.len(),
            all_fit(cell as int, width as int, int_points(points@)),
            expected == shots(cell as int, width as int, int_points(points@)),
            out.deep_view() == expected.take(i as int),
        decreases points.len() - i,
    {
        let (x, y) = points[i];
        proof {
            assert(int_points(points@)[i as int] == (x as int, y as int));
        }
        let target = shift(cell, width, x, y);
        let mut shot: Vec<usize> = Vec::new();
        shot.push(target);
        proof {
            lemma_shots_view(&out);
        }
        out.push(shot);
        proof {
            lemma_shots_view(&out);
            assert(out@[i as int]@ =~= seq![target]);
        }
        assert(out.deep_view() =~= expected.take(i + 1));
        i = i + 1;
    }
    assert(expected.take(points.len() as int) =~= expected);
    out
}

/// The two-sided half circle: each shot hits a half-circle cell and the
/// cell mirrored through the centre.
fn double_half_circle(cell: usize, width: i32) -> (out: Vec<Vec<usize>>)
    requires
        all_fit(cell as int, width as int, half_circle_points()),
        mirror_fits(cell as int, width as int),
    ensures
        out.deep_view() == double_half_circle_shots(cell as int, width as int),
{
    let half = half_circle();
    let single = offsets(cell, width, &half);
    let ghost base = shots(cell as int, width as int, half_circle_points());
    let ghost expected = double_half_circle_shots(cell as int, width as int);
    let mut out: Vec<Vec<usize>> = Vec::new();
    let mut i: usize = 0;
    while i < single.len()
        invariant
            i <= single.len(),
            single.deep_view() == base,
            base == shots(cell as int, width as int, half_circle_points()),
            expected == double_half_circle_shots(cell as int, width as int),
            mirror_fits(cell as int, width as int),
            all_fit(cell as int, width as int, half_circle_points()),
            out.deep_view() == expected.take(i as int),
        decreases single.len() - i,
    {
        proof {
            lemma_shots_view(&single);
            assert(single@[i as int]@ == base[i as int]);
            assert(base[i as int] == seq![
                shifted(cell as int, width as int, half_circle_points()[i as int]) as usize,
            ]);
            assert(0 <= i < half_circle_points().len());
        }
        let first = single[i][0];
        assert(first as int == shifted(cell as int, width as int, half_circle_points()[i as int]));
        let mirrored = 2 * cell - first;
        let mut shot: Vec<usize> = Vec::new();
        shot.push(first);
        shot.push(mirrored);
        proof {
            lemma_shots_view(&out);
        }
        out.push(shot);
        proof {
            lemma_shots_view(&out);
            assert(out@[i as int]@ =~= seq![first, mirrored]);
            assert(base[i as int] =~= seq![first]);
        }
        assert(out.deep_view() =~= expected.take(i + 1));
        i = i + 1;
    }
    assert(expected.take(single.len() as int) =~= expected);
    out
}

/// The spiral scan: one shot per spiral point with its three quarter turns.
fn spiral(cell: usize, width: i32) -> (out: Vec<Vec<usize>>)
    requires
        spiral_fits(cell as int, width as int),
    ensures
        out.deep_view() == spiral_shots(cell as int, width as int),
{
    let starts: Vec<(i32, i32)> = vec![(-3, 0), (-3, -1), (-3, -2), (-3, -3), (-2, -3), (-1, -3)];
    assert(int_points(starts@) =~= spiral_points());
    let ghost expected = spiral_shots(cell as int, width as int);
    let mut out: Vec<Vec<usize>> = Vec::new();
    let mut i: usize = 0;
    while i < starts.len()
        invariant
            i <= starts.len(),
            int_points(starts@) == spiral_points(),
            forall|k: int| 0 <= k < starts.len() ==> -3 <= #[trigger] starts@[k].0 <= 3 && -3
                <= starts@[k].1 <= 3,
            spiral_fits(cell as int, width as int),
            expected == spiral_shots(cell as int, width as int),
            out.deep_view() == expected.take(i as int),
        decreases starts.len() - i,
    {
        let (x, y) = starts[i];
        let ghost p = spiral_points()[i as int];
        proof {
            assert(int_points(starts@)[i as int] == (x as int, y as int));
            assert(all_fit(cell as int, width as int, quarter_turns(p)));
        }
        let neg_x: i32 = -x;
        let neg_y: i32 = -y;
        let turns: Vec<(i32, i32)> = vec![(x, y), (neg_y, x), (neg_x, neg_y), (y, neg_x)];
        assert(int_points(turns@) =~= quarter_turns(p));
        let single = offsets(cell, width, &turns);
        let mut shot: Vec<usize> = Vec::new();
        let mut j: usize = 0;
        while j < single.len()
            invariant
                j <= single.len(),
                single.deep_view() == shots(cell as int, width as int, quarter_turns(p)),
                shot@ == quarter_turns(p).map_values(
                    |q: (int, int)| shifted(cell as int, width as int, q) as usize,
                ).take(j as int),
            decreases single.len() - j,
        {
            proof {
                lemma_shots_view(&single);
                assert(single.deep_view()[j as int] == single@[j as int]@);
                assert(single@[j as int]@ == seq![
                    shifted(cell as int, width as int, quarter_turns(p)[j as int]) as usize,
                ]);
            }
            let target = single[j][0];
            shot.push(target);
            assert(shot@ =~= quarter_turns(p).map_values(
                |q: (int, int)| shifted(cell as int, width as int, q) as usize,
            ).take(j + 1));
            j = j + 1;
        }
        proof {
            lemma_shots_view(&single);
            assert(quarter_turns(p).map_values(
                |q: (int, int)| shifted(cell as int, width as int, q) as usize,
            ).take(4) =~= quarter_turns(p).map_values(
                |q: (int, int)| shifted(cell as int, width as int, q) as usize,
            ));
        }
        assert(shot@ =~= expected[i as int]);
        proof {
            lemma_shots_view(&out);
        }
        out.push(shot);
        proof {
            lemma_shots_view(&out);
        }
        assert(out.deep_view() =~= expected.take(i + 1));
        i = i + 1;
    }
    assert(expected.take(starts.len() as int) =~= expected);
    out
}

/// The shots in reverse order.
fn reversed(shots: Vec<Vec<usize>>) -> (out: Vec<Vec<usize>>)
    ensures
        out.deep_view() == shots.deep_view().reverse(),
{
    let ghost expected = shots.deep_view().reverse();
    let mut rest = shots;
    let mut out: Vec<Vec<usize>> = Vec::new();
    let ghost whole = rest.deep_view();
    while rest.len() > 0
        invariant
            expected == whole.reverse(),
            whole.len() == out.len() + rest.len(),
            rest.deep_view() == whole.take(rest.len() as int),
            out.deep_view() == expected.take(out.len() as int),
        decreases rest.len(),
    {
        let ghost n = rest.len();
        proof {
            lemma_shots_view(&rest);
            lemma_shots_view(&out);
        }
        let ghost old_rest = rest@;
        assert(rest.deep_view()[n - 1] == old_rest[n - 1]@);
        let last = rest.pop().unwrap();
        assert(last@ == whole[n - 1]);
        out.push(last);
        proof {
            lemma_shots_view(&rest);
            lemma_shots_view(&out);
        }
        assert(rest.deep_view() =~= whole.take(rest.len() as int));
        assert(out.deep_view() =~= expected.take(out.len() as int));
    }
    assert(expected.take(out.len() as int) =~= expected);
    out
}

} // verus!
