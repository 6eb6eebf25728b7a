//! Co-linear vertices and bends of a line, from the turning direction at each vertex.
use vstd::prelude::*;

use crate::coord::Coord;
use crate::geometry::{closed_line, RbGeom};

verus! {

/// The line turns anti-clockwise at the vertex.
pub const ANTI_CLOCK_WISE: i8 = -1i8;

/// The line turns clockwise at the vertex.
pub const CLOCK_WISE: i8 = 1i8;

/// The line goes straight on at the vertex.
pub const FLAT_ANGLE: i8 = 0i8;

/// Every angle is one of the three turning directions.
pub open spec fn valid_angles(a: Seq<i8>) -> bool {
    forall|k: int| 0 <= k < a.len() ==> -1 <= #[trigger] a[k] <= 1
}

/// Positions of the flat angles from `j` on, the highest first.
pub open spec fn flats_from(a: Seq<i8>, j: int) -> Seq<int>
    decreases a.len() - j,
{
    if j < 0 || j >= a.len() {
        Seq::empty()
    } else if a[j] == FLAT_ANGLE {
        flats_from(a, j + 1).push(j)
    } else {
        flats_from(a, j + 1)
    }
}

/// The angles from `j` on that are not flat, in order.
pub open spec fn nonflat_from(a: Seq<i8>, j: int) -> Seq<i8>
    decreases a.len() - j,
{
    if j < 0 || j >= a.len() {
        Seq::empty()
    } else if a[j] == FLAT_ANGLE {
        nonflat_from(a, j + 1)
    } else {
        seq![a[j]] + nonflat_from(a, j + 1)
    }
}

/// How many co-linear vertices a line of `n` points may lose: a closed line keeps at least
/// four points, an open line has no such bound.
pub open spec fn co_linear_limit(closed: bool, n: int) -> int {
    if closed {
        if n >= 4 {
            n - 4
        } else {
            0
        }
    } else {
        n
    }
}

/// The line has more flat angles than it may lose vertices: the scan stops and the line is
/// left as simple as it gets.
pub open spec fn co_linear_stops(a: Seq<i8>, closed: bool, n: int) -> bool {
    flats_from(a, 0).len() > co_linear_limit(closed, n)
}

/// The scan from the last angle down stops at the flat angle that would exceed the limit;
/// everything from the position after it on is cleaned. Without a stop, everything is.
pub open spec fn co_linear_boundary(a: Seq<i8>, closed: bool, n: int) -> int {
    if co_linear_stops(a, closed, n) {
        (choose|k: int|
            0 <= k < a.len() && a[k] == FLAT_ANGLE && #[trigger] flats_from(a, k).len()
                == co_linear_limit(closed, n) + 1) + 1
    } else {
        0
    }
}

/// The angles of an open line get its first and last angle repeated at the ends.
pub open spec fn pad_open(s: Seq<i8>, closed: bool) -> Seq<i8> {
    if !closed && s.len() > 0 {
        seq![s[0]] + s + seq![s.last()]
    } else {
        s
    }
}

/// The vertex range that deleting the vertex of the flat angle at `k` takes: on a closed line
/// angle `k` sits at vertex `k`, on an open line at vertex `k + 1`.
pub open spec fn co_linear_range(k: int, closed: bool) -> (usize, usize) {
    if closed {
        (k as usize, k as usize)
    } else {
        ((k + 1) as usize, (k + 1) as usize)
    }
}

/// What to do with the co-linear vertices of a line.
pub struct CoLinearPlan {
    /// Vertex ranges to delete, in order.
    pub deletions: Vec<(usize, usize)>,
    /// The angles of the line once its co-linear vertices are gone.
    pub angles: Vec<i8>,
    /// The line is left as simple as it gets.
    pub becomes_simplest: bool,
}

proof fn lemma_flats_from_len(a: Seq<i8>, j: int)
    requires
        0 <= j <= a.len(),
    ensures
        flats_from(a, j).len() <= a.len() - j,
        forall|t: int| 0 <= t < flats_from(a, j).len() ==> j <= #[trigger] flats_from(a, j)[t] < a.len(),
    decreases a.len() - j,
{
    if j < a.len() {
        lemma_flats_from_len(a, j + 1);
    }
}

proof fn lemma_flats_from_monotone(a: Seq<i8>, j1: int, j2: int)
    requires
        0 <= j1 <= j2 <= a.len(),
    ensures
        flats_from(a, j1).len() >= flats_from(a, j2).len(),
        j1 < j2 && a[j1] == FLAT_ANGLE ==> flats_from(a, j1).len() > flats_from(a, j2).len(),
    decreases j2 - j1,
{
    if j1 < j2 {
        lemma_flats_from_monotone(a, j1 + 1, j2);
    }
}

proof fn lemma_flat_at_count(a: Seq<i8>, j: int, c: int)
    requires
        0 <= j <= a.len(),
        1 <= c <= flats_from(a, j).len(),
    ensures
        exists|k: int|
            j <= k < a.len() && a[k] == FLAT_ANGLE && #[trigger] flats_from(a, k).len() == c,
    decreases a.len() - j,
{
    lemma_flats_from_len(a, j);
    if a[j] == FLAT_ANGLE && flats_from(a, j).len() == c {
        assert(flats_from(a, j).len() == c);
    } else {
        lemma_flat_at_count(a, j + 1, c);
    }
}

/// The flat angles from `j` on, exactly: each listed position holds a flat angle and lies at or
/// after `j`, the positions come from the highest down with none twice, and every flat angle
/// at or after `j` is listed.
pub proof fn lemma_flats_from_exact(a: Seq<i8>, j: int)
    requires
        0 <= j <= a.len(),
    ensures
        forall|t: int|
            0 <= t < flats_from(a, j).len() ==> j <= #[trigger] flats_from(a, j)[t] < a.len()
                && a[flats_from(a, j)[t]] == FLAT_ANGLE,
        forall|t1: int, t2: int|
            0 <= t1 < t2 < flats_from(a, j).len() ==> #[trigger] flats_from(a, j)[t1]
                > #[trigger] flats_from(a, j)[t2],
        forall|k: int| j <= k < a.len() && a[k] == FLAT_ANGLE ==> flats_from(a, j).contains(k),
    decreases a.len() - j,
{
    if j < a.len() {
        lemma_flats_from_exact(a, j + 1);
        let f1 = flats_from(a, j + 1);
        if a[j] == FLAT_ANGLE {
            let f = f1.push(j);
            assert(flats_from(a, j) == f);
            assert forall|k: int| j <= k < a.len() && a[k] == FLAT_ANGLE implies f.contains(k) by {
                if k == j {
                    assert(f[f1.len() as int] == k);
                } else {
                    let t = choose|t: int| 0 <= t < f1.len() && f1[t] == k;
                    assert(f[t] == k);
                }
            }
        }
    }
}

/// What the scan for co-linear vertices keeps to: when the line has no more flat angles than
/// it may lose vertices, every flat angle is cleaned (the boundary is the first angle);
/// otherwise the scan stops just after a flat angle and cleans exactly as many as the line may
/// lose.
pub proof fn lemma_co_linear_boundary_meaning(a: Seq<i8>, closed: bool, n: int)
    requires
        a.len() <= n,
    ensures
        0 <= co_linear_boundary(a, closed, n) <= a.len(),
        !co_linear_stops(a, closed, n) ==> co_linear_boundary(a, closed, n) == 0 && flats_from(
            a,
            0,
        ).len() <= co_linear_limit(closed, n),
        co_linear_stops(a, closed, n) ==> {
            let j = co_linear_boundary(a, closed, n);
            &&& j >= 1
            &&& a[j - 1] == FLAT_ANGLE
            &&& flats_from(a, j).len() == co_linear_limit(closed, n)
        },
{
    if co_linear_stops(a, closed, n) {
        let lim = co_linear_limit(closed, n);
        assert(lim >= 0);
        lemma_flat_at_count(a, 0, lim + 1);
        let k = choose|k: int|
            0 <= k < a.len() && a[k] == FLAT_ANGLE && #[trigger] flats_from(a, k).len() == lim + 1;
        assert(flats_from(a, k) == flats_from(a, k + 1).push(k));
    }
}

/// Plans the removal of the co-linear vertices of a line of `num_points` points whose
/// turning directions are `angles`. The angles are scanned from the last one down; each flat
/// one costs a vertex, until a closed line would fall under four points, where the scan
/// stops and the line is left as simple as it gets.
pub fn plan_co_linear(angles: &[i8], is_closed: bool, num_points: usize) -> (r: CoLinearPlan)
    requires
        angles@.len() <= num_points,
    ensures
        ({
            let a = angles@;
            let n = num_points as int;
            let j = co_linear_boundary(a, is_closed, n);
            &&& r.becomes_simplest == co_linear_stops(a, is_closed, n)
            &&& r.deletions@ == flats_from(a, j).map_values(|k: int| co_linear_range(k, is_closed))
            &&& r.deletions@.len() <= co_linear_limit(is_closed, n)
            &&& r.angles@ == pad_open(a.take(j) + nonflat_from(a, j), is_closed)
        }),
        ({
            let j = co_linear_boundary(angles@, is_closed, num_points as int);
            let m = angles@.take(j) + nonflat_from(angles@, j);
            &&& !is_closed && m.len() > 0 ==> {
                &&& r.angles@.len() == m.len() + 2
                &&& r.angles@[0] == m[0]
                &&& r.angles@[r.angles@.len() - 1] == m[m.len() - 1]
                &&& r.angles@.subrange(1, m.len() + 1int) == m
            }
            &&& is_closed || m.len() == 0 ==> r.angles@ == m
        }),
        ({
            let a = angles@;
            let j = co_linear_boundary(a, is_closed, num_points as int);
            let off: int = if is_closed { 0 } else { 1 };
            let d = r.deletions@;
            &&& forall|t: int|
                0 <= t < d.len() ==> (#[trigger] d[t]).0 == d[t].1 && j + off <= d[t].0 < a.len() + off
                    && a[d[t].0 - off] == FLAT_ANGLE
            &&& forall|t1: int, t2: int| 0 <= t1 < t2 < d.len() ==> (#[trigger] d[t1]).0 > (#[trigger] d[t2]).0
            &&& forall|k: int|
                j <= k < a.len() && a[k] == FLAT_ANGLE ==> exists|t: int|
                    0 <= t < d.len() && (#[trigger] d[t]).0 == k + off
            &&& r.becomes_simplest ==> d.len() == co_linear_limit(is_closed, num_points as int) && j >= 1
                && a[j - 1] == FLAT_ANGLE
            &&& !r.becomes_simplest ==> j == 0
        }),
{
    let ghost a = angles@;
    let ghost n = num_points as int;
    let ghost limit = co_linear_limit(is_closed, n);
    let mut work: Vec<i8> = Vec::new();
    work.extend_from_slice(angles);
    proof {
        assert(work@ =~= a);
        assert(a.take(a.len() as int) =~= a);
        assert(nonflat_from(a, a.len() as int) =~= Seq::<i8>::empty());
    }
    let mut deletions: Vec<(usize, usize)> = Vec::new();
    let mut np = num_points;
    let mut stopped = false;
    let mut i: usize = angles.len();
    let ghost mut boundary: int = 0;
    while i > 0
        invariant_except_break
            i <= a.len(),
            a == angles@,
            a.len() <= n,
            n == num_points,
            limit == co_linear_limit(is_closed, n),
            !stopped,
            work@ == a.take(i as int) + nonflat_from(a, i as int),
            deletions@ == flats_from(a, i as int).map_values(|k: int| co_linear_range(k, is_closed)),
            flats_from(a, i as int).len() <= limit,
            np == n - flats_from(a, i as int).len(),
        ensures
            stopped ==> {
                &&& 0 <= boundary - 1 < a.len()
                &&& a[boundary - 1] == FLAT_ANGLE
                &&& flats_from(a, boundary - 1).len() == limit + 1
                &&& work@ == a.take(boundary) + nonflat_from(a, boundary)
                &&& deletions@ == flats_from(a, boundary).map_values(|k: int| co_linear_range(k, is_closed))
            },
            !stopped ==> {
                &&& i == 0
                &&& work@ == nonflat_from(a, 0)
                &&& deletions@ == flats_from(a, 0).map_values(|k: int| co_linear_range(k, is_closed))
                &&& flats_from(a, 0).len() <= limit
            },
        decreases i,
    {
        let idx = i - 1;
        if angles[idx] != FLAT_ANGLE {
            proof {
                assert(a.take(i as int) =~= a.take(idx as int).push(a[idx as int]));
                assert(work@ =~= a.take(idx as int) + nonflat_from(a, idx as int));
            }
            i = idx;
            continue;
        }
        proof {
            lemma_flats_from_len(a, idx as int);
        }
        np = np - 1;
        if is_closed && np <= 3 {
            stopped = true;
            proof {
                boundary = i as int;
            }
            break;
        }
        let ghost before = work@;
        work.remove(idx);
        proof {
            assert(before =~= a.take(idx as int).push(a[idx as int]) + nonflat_from(a, i as int));
            assert(work@ =~= a.take(idx as int) + nonflat_from(a, idx as int));
        }
        if is_closed {
            deletions.push((idx, idx));
        } else {
            deletions.push((idx + 1, idx + 1));
        }
        proof {
            assert(deletions@ =~= flats_from(a, idx as int).map_values(|k: int| co_linear_range(k, is_closed)));
        }
        i = idx;
    }
    proof {
        if stopped {
            let k0 = boundary - 1;
            lemma_flats_from_monotone(a, 0, k0);
            assert(co_linear_stops(a, is_closed, n));
            let k = choose|k: int|
                0 <= k < a.len() && a[k] == FLAT_ANGLE && #[trigger] flats_from(a, k).len()
                    == limit + 1;
            if k < k0 {
                lemma_flats_from_monotone(a, k, k0);
            } else if k0 < k {
                lemma_flats_from_monotone(a, k0, k);
                lemma_flats_from_monotone(a, k0 + 1, k);
            }
            assert(co_linear_boundary(a, is_closed, n) == boundary);
            assert(flats_from(a, k0) == flats_from(a, k0 + 1).push(k0));
        } else {
            assert(a.take(0) =~= Seq::<i8>::empty());
            assert(work@ =~= a.take(0) + nonflat_from(a, 0));
        }
    }
    let len = work.len();
    if !is_closed && len > 0 {
        let first = work[0];
        let last = work[len - 1];
        let ghost mid = work@;
        work.insert(0, first);
        work.push(last);
        proof {
            assert(work@ =~= seq![mid[0]] + mid + seq![mid.last()]);
        }
    }
    proof {
        let j = co_linear_boundary(a, is_closed, num_points as int);
        lemma_co_linear_boundary_meaning(a, is_closed, num_points as int);
        lemma_flats_from_exact(a, j);
        let f = flats_from(a, j);
        let d = deletions@;
        let off: int = if is_closed { 0 } else { 1 };
        assert forall|t: int| 0 <= t < d.len() implies (#[trigger] d[t]).0 == d[t].1 && j + off
            <= d[t].0 < a.len() + off && a[d[t].0 - off] == FLAT_ANGLE by {
            assert(d[t] == co_linear_range(f[t], is_closed));
        }
        assert forall|t1: int, t2: int| 0 <= t1 < t2 < d.len() implies (#[trigger] d[t1]).0 > (
        #[trigger] d[t2]).0 by {
            assert(d[t1] == co_linear_range(f[t1], is_closed));
            assert(d[t2] == co_linear_range(f[t2], is_closed));
        }
        assert forall|k: int| j <= k < a.len() && a[k] == FLAT_ANGLE implies exists|t: int|
            0 <= t < d.len() && (#[trigger] d[t]).0 == k + off by {
            assert(f.contains(k));
            let t = choose|t: int| 0 <= t < f.len() && f[t] == k;
            assert(d[t] == co_linear_range(f[t], is_closed));
        }
    }
    CoLinearPlan { deletions, angles: work, becomes_simplest: stopped }
}


/// The part of a line from vertex `start` to vertex `end`. On an open line it is empty unless
/// `start <= end < len`. On a closed line a part with `start > end` runs over the closing
/// point, and `start == end` stands for the whole ring without its closing point.
pub open spec fn subline(points: Seq<Coord>, start: int, end: int, closed: bool) -> Seq<Coord> {
    if points.len() == 0 {
        Seq::empty()
    } else if !closed {
        if start <= end && end < points.len() {
            points.subrange(start, end + 1)
        } else {
            Seq::empty()
        }
    } else if start < end {
        points.subrange(start, end + 1)
    } else if start > end {
        points.subrange(start, points.len() as int) + points.subrange(0, end + 1)
    } else {
        points.subrange(0, points.len() - 1)
    }
}

/// The indices of a part of a closed line lie on it.
pub open spec fn subline_ok(len: int, start: int, end: int, closed: bool) -> bool {
    closed && start != end ==> end < len && start <= len
}

fn push_range(out: &mut Vec<Coord>, points: &[Coord], from: usize, to: usize)
    requires
        from <= to <= points@.len(),
    ensures
        final(out)@ == old(out)@ + points@.subrange(from as int, to as int),
{
    let ghost start = out@;
    let mut t = from;
    while t < to
        invariant
            from <= t <= to,
            to <= points@.len(),
            out@ == start + points@.subrange(from as int, t as int),
        decreases to - t,
    {
        out.push(points[t]);
        proof {
            assert(out@ =~= start + points@.subrange(from as int, t + 1));
        }
        t = t + 1;
    }
}

/// The part of a line from vertex `start` to vertex `end`.
pub fn extract_subline(points: &[Coord], start: usize, end: usize, is_closed: bool) -> (r: Vec<Coord>)
    requires
        subline_ok(points@.len() as int, start as int, end as int, is_closed),
    ensures
        r@ == subline(points@, start as int, end as int, is_closed),
{
    let mut out: Vec<Coord> = Vec::new();
    let n = points.len();
    if n == 0 {
        return out;
    }
    if !is_closed {
        if start <= end && end < n {
            push_range(&mut out, points, start, end + 1);
        }
        return out;
    }
    if start < end {
        push_range(&mut out, points, start, end + 1);
    } else if start > end {
        push_range(&mut out, points, start, n);
        push_range(&mut out, points, 0, end + 1);
    } else {
        push_range(&mut out, points, 0, n - 1);
    }
    proof {
        assert(out@ =~= subline(points@, start as int, end as int, is_closed));
    }
    out
}

/// The angles at `k` and `k + 1` turn opposite ways: the line inflects between them.
pub open spec fn is_turn(a: Seq<i8>, k: int) -> bool {
    a[k] * a[k + 1] == -1
}

/// Positions `k < m` at which the line inflects, in increasing order.
pub open spec fn turns_before(a: Seq<i8>, m: int) -> Seq<int>
    decreases m,
{
    if m <= 0 {
        Seq::empty()
    } else if is_turn(a, m - 1) {
        turns_before(a, m - 1).push(m - 1)
    } else {
        turns_before(a, m - 1)
    }
}

/// Spans between inflexions, before the ends of the line are fixed: the first runs from `0`
/// to the first inflexion, each next one from an inflexion to the one after it.
pub open spec fn raw_inflexions(a: Seq<i8>) -> Seq<(int, int)> {
    let t = turns_before(a, a.len() - 1);
    let m = t.len() as int;
    Seq::new(
        (m + 1) as nat,
        |q: int|
            (
                if q == 0 {
                    0
                } else {
                    t[q - 1]
                },
                if q < m {
                    t[q] + 1
                } else if q == 0 {
                    0
                } else {
                    t[q - 1] + 1
                },
            ),
    )
}

/// The spans of the bends of a line with angles `a` and `n` points. On a closed line the span
/// over the closing point joins the last and the first; on an open line the first span starts
/// at the first point and the last one ends at the last point.
pub open spec fn inflexions(a: Seq<i8>, closed: bool, n: int) -> Seq<(int, int)> {
    let raw = raw_inflexions(a);
    let m = raw.len() - 1;
    if closed {
        if a[a.len() - 1] * a[0] == -1 {
            let r1 = raw.update(m, (raw[m].0, 0));
            r1.update(0, (a.len() - 1, r1[0].1))
        } else {
            raw.update(0, (raw[m].0, raw[0].1)).take(m)
        }
    } else {
        let r1 = raw.update(0, (0, raw[0].1));
        r1.update(
            m,
            (
                r1[m].0,
                if n >= 1 {
                    n - 1
                } else {
                    0
                },
            ),
        )
    }
}

/// A bend found on a line: its first and last vertex and the points between them.
#[derive(Debug, Clone, PartialEq)]
pub struct BendSpan {
    pub i: usize,
    pub j: usize,
    pub points: Vec<Coord>,
}

/// The bends of a line, each with its part of the line; spans whose part has fewer than two
/// points are dropped.
pub open spec fn bend_spans(a: Seq<i8>, points: Seq<Coord>, closed: bool) -> Seq<(int, int, Seq<Coord>)> {
    let infl = inflexions(a, closed, points.len() as int);
    Seq::new(
        infl.len(),
        |q: int| (infl[q].0, infl[q].1, subline(points, infl[q].0, infl[q].1, closed)),
    ).filter(|b: (int, int, Seq<Coord>)| b.2.len() >= 2)
}

/// The view of a list of found bends.
pub open spec fn spans_view(spans: Seq<BendSpan>) -> Seq<(int, int, Seq<Coord>)> {
    spans.map_values(|b: BendSpan| (b.i as int, b.j as int, b.points@))
}

proof fn lemma_turns_before_bounds(a: Seq<i8>, m: int)
    ensures
        turns_before(a, m).len() <= if m > 0 { m } else { 0 },
        forall|q: int|
            0 <= q < turns_before(a, m).len() ==> 0 <= #[trigger] turns_before(a, m)[q] < m,
        forall|q1: int, q2: int|
            0 <= q1 < q2 < turns_before(a, m).len() ==> #[trigger] turns_before(a, m)[q1]
                < #[trigger] turns_before(a, m)[q2],
    decreases m,
{
    if m > 0 {
        lemma_turns_before_bounds(a, m - 1);
    }
}

proof fn lemma_turns_before_exact(a: Seq<i8>, m: int)
    ensures
        forall|k: int| 0 <= k < m ==> (is_turn(a, k) <==> turns_before(a, m).contains(k)),
    decreases m,
{
    if m > 0 {
        lemma_turns_before_exact(a, m - 1);
        lemma_turns_before_bounds(a, m - 1);
        let t0 = turns_before(a, m - 1);
        assert forall|k: int| 0 <= k < m implies (is_turn(a, k) <==> turns_before(a, m).contains(k)) by {
            if is_turn(a, m - 1) {
                assert(turns_before(a, m) == t0.push(m - 1));
                if k < m - 1 {
                    if t0.contains(k) {
                        let w = choose|w: int| 0 <= w < t0.len() && t0[w] == k;
                        assert(t0.push(m - 1)[w] == k);
                    }
                    let t1 = t0.push(m - 1);
                    if t1.contains(k) {
                        let w = choose|w: int| 0 <= w < t1.len() && #[trigger] t1[w] == k;
                        assert(w < t0.len());
                        assert(t0[w] == k);
                    }
                } else {
                    assert(t0.push(m - 1)[t0.len() as int] == k);
                }
            } else if k == m - 1 {
                if t0.contains(k) {
                    let w = choose|w: int| 0 <= w < t0.len() && t0[w] == k;
                    assert(t0[w] < m - 1);
                }
            }
        }
    }
}

/// The bends of an open line cut it at its inflexions: one span more than there are
/// inflexions, each inflexion being where the line turns the other way; the first span starts
/// at the first point and the last one ends at the last point; each span ends on the vertex
/// after an inflexion and the next one starts on the vertex before it, so that neighbouring
/// spans share the two vertices around the inflexion; and every span runs forward.
pub proof fn lemma_open_bend_partition(a: Seq<i8>, n: int)
    requires
        1 <= a.len(),
        a.len() + 2 <= n,
    ensures
        ({
            let t = turns_before(a, a.len() - 1);
            let sp = inflexions(a, false, n);
            &&& forall|k: int| 0 <= k < a.len() - 1 ==> (is_turn(a, k) <==> t.contains(k))
            &&& forall|q1: int, q2: int| 0 <= q1 < q2 < t.len() ==> #[trigger] t[q1] < #[trigger] t[q2]
            &&& sp.len() == t.len() + 1
            &&& sp[0].0 == 0
            &&& sp[sp.len() - 1].1 == n - 1
            &&& forall|q: int| 0 <= q < t.len() ==> #[trigger] sp[q].1 == t[q] + 1 && sp[q + 1].0 == t[q]
            &&& forall|q: int| 0 <= q < sp.len() ==> #[trigger] sp[q].0 < sp[q].1
        }),
{
    let t = turns_before(a, a.len() - 1);
    lemma_turns_before_exact(a, a.len() - 1);
    lemma_turns_before_bounds(a, a.len() - 1);
    let sp = inflexions(a, false, n);
    let m = t.len() as int;
    let raw = raw_inflexions(a);
    assert(raw.len() == m + 1);
    assert forall|q: int| 0 <= q < sp.len() implies #[trigger] sp[q].0 < sp[q].1 by {
        if q > 0 {
            assert(sp[q].0 == raw[q].0);
            assert(sp[q].0 == t[q - 1]);
            assert(t[q - 1] < a.len() - 1);
        } else {
            assert(sp[q].0 == 0);
        }
        if q == m {
            assert(sp[q].1 == n - 1);
        }
        if q < m {
            assert(sp[q].1 == t[q] + 1);
            if q > 0 {
                assert(t[q - 1] < t[q]);
            }
        }
    }
}

/// Padding the angles of an open line repeats its first angle in front and its last angle at
/// the back, keeping the angles in between as they are; the angles of a closed line, and an
/// empty list, are left as they are.
pub proof fn lemma_pad_open_ends(s: Seq<i8>, closed: bool)
    ensures
        !closed && s.len() > 0 ==> {
            let p = pad_open(s, closed);
            &&& p.len() == s.len() + 2
            &&& p[0] == s[0]
            &&& p[p.len() - 1] == s[s.len() - 1]
            &&& p.subrange(1, s.len() + 1int) == s
        },
        closed || s.len() == 0 ==> pad_open(s, closed) == s,
{
    if !closed && s.len() > 0 {
        let p = pad_open(s, closed);
        assert(p.subrange(1, s.len() + 1int) =~= s);
    }
}

/// The angles that remain once the flat ones from `j` on are gone: no flat angle from `j` on,
/// and as many as there are angles from `j` on that are not flat.
pub proof fn lemma_nonflat_from_has_no_flat(a: Seq<i8>, j: int)
    requires
        0 <= j <= a.len(),
    ensures
        forall|k: int| 0 <= k < nonflat_from(a, j).len() ==> #[trigger] nonflat_from(a, j)[k] != FLAT_ANGLE,
        nonflat_from(a, j).len() + flats_from(a, j).len() == a.len() - j,
    decreases a.len() - j,
{
    if j < a.len() {
        lemma_nonflat_from_has_no_flat(a, j + 1);
        let t = nonflat_from(a, j + 1);
        if a[j] != FLAT_ANGLE {
            assert forall|k: int| 0 <= k < nonflat_from(a, j).len() implies #[trigger] nonflat_from(a, j)[k] != FLAT_ANGLE by {
                if k > 0 {
                    assert(nonflat_from(a, j)[k] == t[k - 1]);
                }
            }
        }
    }
}

/// The part of a line between two vertices, said point by point: on an open line, or on a
/// closed line going forward, the points from the start to the end; on a closed line going
/// over the closing point, the points from the start to the closing point followed by those
/// from the first point to the end; from a vertex of a closed line to itself, every point but
/// the closing one.
pub proof fn lemma_subline_points(points: Seq<Coord>, start: int, end: int, closed: bool)
    requires
        0 <= start,
        0 <= end,
    ensures
        (!closed || start < end) && start <= end < points.len() ==> {
            let r = subline(points, start, end, closed);
            &&& r.len() == end - start + 1
            &&& forall|k: int| 0 <= k < r.len() ==> #[trigger] r[k] == points[start + k]
        },
        !closed && !(start <= end < points.len()) ==> subline(points, start, end, closed).len() == 0,
        closed && end < start <= points.len() ==> {
            let r = subline(points, start, end, closed);
            &&& r.len() == points.len() - start + end + 1
            &&& forall|k: int| 0 <= k < points.len() - start ==> #[trigger] r[k] == points[start + k]
            &&& forall|k: int| 0 <= k <= end ==> r[points.len() - start + k] == points[k]
        },
        closed && start == end && points.len() > 0 ==> subline(points, start, end, closed)
            == points.take(points.len() - 1),
{
    if closed && end < start <= points.len() {
        let r = subline(points, start, end, closed);
        assert forall|k: int| 0 <= k <= end implies r[points.len() - start + k] == points[k] by {
        }
    }
    if closed && start == end && points.len() > 0 {
        assert(subline(points, start, end, closed) =~= points.take(points.len() - 1));
    }
}

/// The bends of a closed line cut it at its inflexions, going round: each span ends on the
/// vertex after an inflexion and the next one starts on the vertex before it. When the line
/// also turns the other way between its last and its first angle, there is one span more than
/// there are inner inflexions, the first starting at the last angle and the last ending at the
/// first vertex; otherwise there are as many spans as inflexions and the first span starts at
/// the last inflexion, over the closing point.
pub proof fn lemma_closed_bend_partition(a: Seq<i8>, n: int)
    requires
        1 <= a.len(),
    ensures
        ({
            let t = turns_before(a, a.len() - 1);
            let m = t.len() as int;
            let sp = inflexions(a, true, n);
            &&& forall|k: int| 0 <= k < a.len() - 1 ==> (is_turn(a, k) <==> t.contains(k))
            &&& forall|q: int| 0 <= q < m && q < sp.len() ==> #[trigger] sp[q].1 == t[q] + 1
            &&& forall|q: int| 1 <= q < sp.len() ==> #[trigger] sp[q].0 == t[q - 1]
            &&& a[a.len() - 1] * a[0] == -1 ==> {
                &&& sp.len() == m + 1
                &&& sp[0].0 == a.len() - 1
                &&& sp[m].1 == 0
            }
            &&& a[a.len() - 1] * a[0] != -1 ==> {
                &&& sp.len() == m
                &&& m >= 1 ==> sp[0].0 == t[m - 1]
            }
        }),
{
    lemma_turns_before_exact(a, a.len() - 1);
    lemma_turns_before_bounds(a, a.len() - 1);
}

/// Finds the bends of a line from its angles. A line without angles has no bend and is left
/// as simple as it gets.
pub fn detect_bend_spans(angles: &[i8], rb_geom: &mut RbGeom) -> (r: Vec<BendSpan>)
    requires
        valid_angles(angles@),
        closed_line(old(rb_geom).coords@) ==> angles@.len() <= old(rb_geom).coords@.len(),
    ensures
        final(rb_geom).id == old(rb_geom).id,
        final(rb_geom).original_type == old(rb_geom).original_type,
        final(rb_geom).need_pivot == old(rb_geom).need_pivot,
        final(rb_geom).coords@ == old(rb_geom).coords@,
        final(rb_geom).is_simplest == (old(rb_geom).is_simplest || angles@.len() == 0),
        angles@.len() == 0 ==> r@.len() == 0,
        angles@.len() > 0 ==> spans_view(r@) == bend_spans(
            angles@,
            old(rb_geom).coords@,
            closed_line(old(rb_geom).coords@),
        ),
{
    if angles.len() == 0 {
        rb_geom.is_simplest = true;
        return Vec::new();
    }
    let ghost a = angles@;
    let len = angles.len();
    let n = rb_geom.coords.len();
    let closed = rb_geom.is_closed();
    // Spans between inflexions, as (start, end) pairs.
    let mut starts: Vec<usize> = Vec::new();
    let mut ends: Vec<usize> = Vec::new();
    starts.push(0);
    ends.push(0);
    let ghost mut tk: Seq<int> = Seq::empty();
    let mut k: usize = 0;
    while k + 1 < len
        invariant
            a == angles@,
            len == a.len(),
            len >= 1,
            valid_angles(a),
            k + 1 <= len,
            tk == turns_before(a, k as int),
            starts@.len() == tk.len() + 1,
            ends@.len() == tk.len() + 1,
            forall|q: int|
                0 <= q < starts@.len() ==> #[trigger] starts@[q] == (if q == 0 {
                    0
                } else {
                    tk[q - 1]
                }),
            forall|q: int|
                0 <= q < ends@.len() ==> #[trigger] ends@[q] == (if q < tk.len() {
                    tk[q] + 1
                } else if q == 0 {
                    0
                } else {
                    tk[q - 1] + 1
                }),
        decreases len - k,
    {
        let x = angles[k];
        let y = angles[k + 1];
        proof {
            assert(-1 <= a[k as int] <= 1);
            assert(-1 <= a[k + 1] <= 1);
            assert(-1 <= x * y <= 1) by (nonlinear_arith)
                requires
                    -1 <= x <= 1,
                    -1 <= y <= 1,
            ;
        }
        if x * y == -1 {
            let last = ends.len() - 1;
            ends.set(last, k + 1);
            starts.push(k);
            ends.push(k + 1);
            proof {
                tk = tk.push(k as int);
            }
        }
        k = k + 1;
    }
    proof {
        assert(tk == turns_before(a, a.len() - 1));
        let raw = raw_inflexions(a);
        assert(raw.len() == starts@.len());
    }
    let m = starts.len() - 1;
    let ghost raw = raw_inflexions(a);
    proof {
        assert forall|q: int| 0 <= q <= m implies starts@[q] == raw[q].0 && ends@[q] == raw[q].1 by {}
    }
    let mut count = m + 1;
    if closed {
        let wrap = {
            let x = angles[len - 1];
            let y = angles[0];
            proof {
                assert(-1 <= a[len - 1] <= 1);
                assert(-1 <= a[0] <= 1);
                assert(-1 <= x * y <= 1) by (nonlinear_arith)
                    requires
                        -1 <= x <= 1,
                        -1 <= y <= 1,
                ;
            }
            x * y == -1
        };
        if wrap {
            ends.set(m, 0);
            starts.set(0, len - 1);
        } else {
            let s_last = starts[m];
            starts.set(0, s_last);
            count = m;
        }
    } else {
        starts.set(0, 0);
        let end = if n >= 1 {
            n - 1
        } else {
            0
        };
        ends.set(m, end);
    }
    let ghost infl = inflexions(a, closed, n as int);
    proof {
        lemma_turns_before_bounds(a, a.len() - 1);
        assert(infl.len() == count);
        assert forall|q: int| 0 <= q < count implies starts@[q] == infl[q].0 && ends@[q] == infl[q].1
            by {}
    }
    let ghost all = Seq::new(
        infl.len(),
        |q: int| (infl[q].0, infl[q].1, subline(rb_geom.coords@, infl[q].0, infl[q].1, closed)),
    );
    let ghost pred = |b: (int, int, Seq<Coord>)| b.2.len() >= 2;
    let mut out: Vec<BendSpan> = Vec::new();
    let mut q: usize = 0;
    while q < count
        invariant
            count == infl.len(),
            q <= count,
            starts@.len() >= count,
            ends@.len() >= count,
            forall|u: int| 0 <= u < count ==> starts@[u] == infl[u].0 && ends@[u] == infl[u].1,
            forall|u: int| 0 <= u < count ==> closed ==> #[trigger] infl[u].0 < len && infl[u].1 < len,
            closed ==> len <= n,
            n == rb_geom.coords@.len(),
            closed == closed_line(rb_geom.coords@),
            all == Seq::new(
                infl.len(),
                |u: int| (infl[u].0, infl[u].1, subline(rb_geom.coords@, infl[u].0, infl[u].1, closed)),
            ),
            pred == (|b: (int, int, Seq<Coord>)| b.2.len() >= 2),
            spans_view(out@) == all.take(q as int).filter(pred),
        decreases count - q,
    {
        let s = starts[q];
        let e = ends[q];
        let sub = extract_subline(rb_geom.coords.as_slice(), s, e, closed);
        let ghost before = out@;
        let ghost item = (s as int, e as int, sub@);
        proof {
            assert(all[q as int] == item);
        }
        if sub.len() >= 2 {
            out.push(BendSpan { i: s, j: e, points: sub });
            proof {
                assert(spans_view(out@) =~= spans_view(before).push(item));
            }
        }
        proof {
            assert(all.take(q + 1) =~= all.take(q as int).push(all[q as int]));
            all.take(q as int).lemma_filter_push(all[q as int], pred);
            assert(spans_view(out@) =~= all.take(q + 1).filter(pred));
        }
        q = q + 1;
    }
    proof {
        assert(all.take(count as int) =~= all);
    }
    out
}

} // verus!
