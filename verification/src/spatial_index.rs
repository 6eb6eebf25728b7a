//! The segments of the lines, and how deleting or inserting vertices changes them.
//!
//! Every line is indexed by its segments. Deleting a run of vertices, or inserting vertices
//! between two neighbours, removes some segments and inserts others; the functions here
//! update the line and say exactly which segments leave and which arrive, so that an index
//! kept beside the line stays in step with it.
use vstd::multiset::Multiset;
use vstd::prelude::*;

use crate::coord::{f64_is_nan, Coord};
use crate::geometry::{closed_line, GeomError, GeomType, GeometryModel, RbGeom, SimpleGeometry};

verus! {

/// A piece of a line in the index: a segment between two points, or a lone point.
#[derive(Debug, Clone, Copy, PartialEq)]
pub enum SegmentGeometry {
    Segment(Coord, Coord),
    Point(Coord),
}

impl SegmentGeometry {
    pub fn to_simple_geometry(&self) -> (r: SimpleGeometry)
        ensures
            r@ == (match *self {
                SegmentGeometry::Segment(a, b) => GeometryModel::LineString(seq![a, b]),
                SegmentGeometry::Point(p) => GeometryModel::Point(p),
            }),
    {
        match self {
            SegmentGeometry::Segment(a, b) => {
                let mut v: Vec<Coord> = Vec::new();
                v.push(*a);
                v.push(*b);
                proof {
                    assert(v@ =~= seq![*a, *b]);
                }
                SimpleGeometry::LineString(v)
            },
            SegmentGeometry::Point(p) => SimpleGeometry::Point(*p),
        }
    }
}

/// A change to the segment index of a line.
#[derive(Debug, Clone, Copy, PartialEq)]
pub enum SegmentEdit {
    /// The segment between the two points leaves the index.
    Remove(Coord, Coord),
    /// A segment between the two points enters the index.
    Insert(Coord, Coord),
}

/// The segments of a line: each point with the next one.
pub open spec fn segments_of(c: Seq<Coord>) -> Seq<(Coord, Coord)> {
    Seq::new(
        if c.len() > 0 {
            (c.len() - 1) as nat
        } else {
            0
        },
        |k: int| (c[k], c[k + 1]),
    )
}

/// Deleting the vertices `s..=e` of the line `c` in one step is possible: the run has a
/// vertex before it, or the line is closed and the run starts at its first vertex, and a
/// vertex after it.
pub open spec fn step_ok(c: Seq<Coord>, s: int, e: int) -> bool {
    &&& 0 <= s <= e
    &&& e + 1 < c.len()
    &&& s == 0 ==> closed_line(c)
}

/// The run starts at the first vertex of a closed line, so that it wraps around the closing point.
pub open spec fn wraps(c: Seq<Coord>, s: int) -> bool {
    s == 0 && closed_line(c)
}

/// The vertex that the run is joined from: the one before it, or, when the run starts a
/// closed line, the one before its closing point.
pub open spec fn step_anchor(c: Seq<Coord>, s: int) -> int {
    if wraps(c, s) {
        c.len() - 2
    } else {
        s - 1
    }
}

/// The line after deleting the vertices `s..=e` in one step. A closed line whose first
/// vertices go starts at the vertex after the run and is closed on it again.
pub open spec fn step_coords(c: Seq<Coord>, s: int, e: int) -> Seq<Coord> {
    if wraps(c, s) {
        c.subrange(e + 1, c.len() - 1).push(c[e + 1])
    } else {
        c.subrange(0, s) + c.subrange(e + 1, c.len() as int)
    }
}

/// The vertices whose segments leave the index in one step: the anchor, the run, and the
/// vertex after the run.
pub open spec fn step_ids(c: Seq<Coord>, s: int, e: int) -> Seq<int> {
    seq![step_anchor(c, s)] + Seq::new((e - s + 1) as nat, |k: int| s + k) + seq![e + 1]
}

/// The index edits of one step: each segment between consecutive ids leaves, then the
/// segment from the anchor to the vertex after the run arrives.
pub open spec fn step_edits(c: Seq<Coord>, s: int, e: int) -> Seq<SegmentEdit> {
    let ids = step_ids(c, s, e);
    Seq::new(
        (ids.len() - 1) as nat,
        |k: int| SegmentEdit::Remove(c[ids[k]], c[ids[k + 1]]),
    ).push(SegmentEdit::Insert(c[step_anchor(c, s)], c[e + 1]))
}

/// Deletes the vertices `s..=e` of a line in one step and returns the index edits.
fn delete_vertex_step(coords: &mut Vec<Coord>, s: usize, e: usize) -> (edits: Vec<SegmentEdit>)
    requires
        step_ok(old(coords)@, s as int, e as int),
    ensures
        final(coords)@ == step_coords(old(coords)@, s as int, e as int),
        edits@ == step_edits(old(coords)@, s as int, e as int),
{
    let ghost c = coords@;
    let n = coords.len();
    let is_closed = n >= 2 && coords[0] == coords[n - 1];
    assert(is_closed == closed_line(c));
    let anchor: usize = if s == 0 && is_closed {
        n - 2
    } else {
        s - 1
    };
    let ghost ids = step_ids(c, s as int, e as int);
    let mut edits: Vec<SegmentEdit> = Vec::new();
    edits.push(SegmentEdit::Remove(coords[anchor], coords[s]));
    let mut k: usize = s;
    while k <= e
        invariant
            c == coords@,
            n == c.len(),
            s <= k <= e + 1,
            e + 1 < n,
            anchor == step_anchor(c, s as int),
            ids == step_ids(c, s as int, e as int),
            edits@.len() == k - s + 1,
            forall|q: int|
                0 <= q < edits@.len() ==> #[trigger] edits@[q] == SegmentEdit::Remove(
                    c[ids[q]],
                    c[ids[q + 1]],
                ),
        decreases e + 1 - k,
    {
        edits.push(SegmentEdit::Remove(coords[k], coords[k + 1]));
        k = k + 1;
    }
    edits.push(SegmentEdit::Insert(coords[anchor], coords[e + 1]));
    proof {
        assert(edits@ =~= step_edits(c, s as int, e as int));
    }
    let mut out: Vec<Coord> = Vec::new();
    if s == 0 && is_closed {
        let mut t: usize = e + 1;
        while t < n - 1
            invariant
                c == coords@,
                n == c.len(),
                e + 1 <= t <= n - 1,
                out@ == c.subrange(e + 1, t as int),
            decreases n - 1 - t,
        {
            out.push(coords[t]);
            proof {
                assert(out@ =~= c.subrange(e + 1, t + 1));
            }
            t = t + 1;
        }
        out.push(coords[e + 1]);
    } else {
        let mut t: usize = 0;
        while t < n
            invariant
                c == coords@,
                n == c.len(),
                s <= e,
                e + 1 < n,
                t <= n,
                t <= s ==> out@ == c.subrange(0, t as int),
                t > s && t <= e + 1 ==> out@ == c.subrange(0, s as int),
                t > e + 1 ==> out@ == c.subrange(0, s as int) + c.subrange(e + 1, t as int),
            decreases n - t,
        {
            if t < s || t > e {
                out.push(coords[t]);
            }
            proof {
                if t < s {
                    assert(out@ =~= c.subrange(0, t + 1));
                } else if t > e {
                    if t == e + 1 {
                        assert(c.subrange(e + 1, t as int) =~= Seq::<Coord>::empty());
                    }
                    assert(out@ =~= c.subrange(0, s as int) + c.subrange(e + 1, t + 1));
                }
            }
            t = t + 1;
        }
    }
    *coords = out;
    proof {
        assert(coords@ =~= step_coords(c, s as int, e as int));
    }
    edits
}


/// The first vertex of a deletion once normalised: the closing point of a line stands for
/// its first point.
pub open spec fn norm_start(n: int, s: int) -> int {
    if s == n - 1 {
        0
    } else {
        s
    }
}

/// The last vertex of a deletion once normalised: `usize::MAX`, which is what `0 - 1` wraps
/// to, stands for the vertex before the closing point.
pub open spec fn norm_end(n: int, e: int) -> int {
    if n > 1 && e == usize::MAX {
        n - 2
    } else {
        e
    }
}

/// The line after the first step of a deletion that wraps around the closing point: the
/// vertices from the start to the one before the closing point are gone.
pub open spec fn wrap_first(c: Seq<Coord>, s: int) -> Seq<Coord> {
    step_coords(c, norm_start(c.len() as int, s), c.len() - 2)
}

/// Deleting the vertices from `s` to `e` is possible. When the normalised start comes after
/// the normalised end, the run wraps around the closing point of a closed line: it is made of
/// the vertices from the start to the one before the closing point, the first vertex, and the
/// vertices up to the end, and at least one vertex between the end and the start is kept.
pub open spec fn deletion_ok(c: Seq<Coord>, s: int, e: int) -> bool {
    let n = c.len() as int;
    let s2 = norm_start(n, s);
    let e2 = norm_end(n, e);
    &&& n >= 1
    &&& if s2 <= e2 {
        step_ok(c, s2, e2)
    } else {
        &&& closed_line(c)
        &&& 0 <= e2
        &&& e2 + 1 < s2 <= n - 2
    }
}

/// The line after deleting the vertices from `s` to `e`. A run that wraps around the closing
/// point leaves the vertices strictly between its end and its start, and the line is closed
/// again on the first of them.
pub open spec fn deletion_coords(c: Seq<Coord>, s: int, e: int) -> Seq<Coord> {
    let n = c.len() as int;
    let s2 = norm_start(n, s);
    let e2 = norm_end(n, e);
    if s2 <= e2 {
        step_coords(c, s2, e2)
    } else {
        c.subrange(e2 + 1, s2).push(c[e2 + 1])
    }
}

/// The index edits of deleting the vertices from `s` to `e`: in one step, or, when the run
/// wraps around the closing point, in two: from the start to the vertex before the closing
/// point, then from the first vertex to the end.
pub open spec fn deletion_edits(c: Seq<Coord>, s: int, e: int) -> Seq<SegmentEdit> {
    let n = c.len() as int;
    let s2 = norm_start(n, s);
    let e2 = norm_end(n, e);
    if s2 <= e2 {
        step_edits(c, s2, e2)
    } else {
        step_edits(c, s2, n - 2) + step_edits(wrap_first(c, s), 0, e2)
    }
}

/// Which points a deletion leaves, point by point, with `s` and `e` normalised. A run inside
/// the line leaves the points before it and then those after it. A run that starts at the
/// first point of a closed line leaves the points after it up to the closing point and closes
/// the line again on the first of them. A run over the closing point leaves the points
/// strictly between its end and its start and closes the line again on the first of them.
pub proof fn lemma_deletion_points(c: Seq<Coord>, s: int, e: int)
    requires
        deletion_ok(c, s, e),
    ensures
        ({
            let n = c.len() as int;
            let s2 = norm_start(n, s);
            let e2 = norm_end(n, e);
            let r = deletion_coords(c, s, e);
            &&& s2 <= e2 && !(s2 == 0 && closed_line(c)) ==> {
                &&& r.len() == n - (e2 - s2 + 1)
                &&& forall|k: int| 0 <= k < s2 ==> #[trigger] r[k] == c[k]
                &&& forall|k: int| s2 <= k < r.len() ==> #[trigger] r[k] == c[k + e2 - s2 + 1]
            }
            &&& s2 <= e2 && s2 == 0 && closed_line(c) ==> {
                &&& r.len() == n - e2 - 1
                &&& forall|k: int| 0 <= k < r.len() - 1 ==> #[trigger] r[k] == c[e2 + 1 + k]
                &&& r[r.len() - 1] == c[e2 + 1]
            }
            &&& e2 < s2 ==> {
                &&& r.len() == s2 - e2
                &&& forall|k: int| 0 <= k < r.len() - 1 ==> #[trigger] r[k] == c[e2 + 1 + k]
                &&& r[r.len() - 1] == c[e2 + 1]
            }
        }),
{
}

/// Deletes the vertices from `v_id_start` to `v_id_end` of a line and returns the edits that
/// keep its segment index in step, in the order they are to be applied.
pub fn delete_vertex(rb_geom: &mut RbGeom, v_id_start: usize, v_id_end: usize) -> (edits: Vec<SegmentEdit>)
    requires
        deletion_ok(old(rb_geom).coords@, v_id_start as int, v_id_end as int),
    ensures
        final(rb_geom).coords@ == deletion_coords(
            old(rb_geom).coords@,
            v_id_start as int,
            v_id_end as int,
        ),
        edits@ == deletion_edits(old(rb_geom).coords@, v_id_start as int, v_id_end as int),
        final(rb_geom).id == old(rb_geom).id,
        final(rb_geom).original_type == old(rb_geom).original_type,
        final(rb_geom).is_simplest == old(rb_geom).is_simplest,
        final(rb_geom).need_pivot == old(rb_geom).need_pivot,
{
    let ghost c = rb_geom.coords@;
    let num_points = rb_geom.coords.len();
    let mut s = v_id_start;
    let mut e = v_id_end;
    if s == num_points - 1 {
        s = 0;
    }
    if num_points > 1 && e == usize::MAX {
        e = num_points - 2;
    }
    if s <= e {
        delete_vertex_step(&mut rb_geom.coords, s, e)
    } else {
        let mut edits = delete_vertex_step(&mut rb_geom.coords, s, num_points - 2);
        let ghost c1 = rb_geom.coords@;
        proof {
            assert(c1 =~= c.subrange(0, s as int).push(c[num_points - 1]));
            assert(c1[0] == c[0]);
            assert(c1.last() == c.last());
        }
        let mut second = delete_vertex_step(&mut rb_geom.coords, 0, e);
        proof {
            assert(rb_geom.coords@ =~= c.subrange(e + 1, s as int).push(c[e + 1]));
        }
        edits.append(&mut second);
        edits
    }
}

/// Whether [`delete_vertex`] can delete the vertices from `v_id_start` to `v_id_end`.
pub fn can_delete_vertex(rb_geom: &RbGeom, v_id_start: usize, v_id_end: usize) -> (r: bool)
    ensures
        r == deletion_ok(rb_geom.coords@, v_id_start as int, v_id_end as int),
{
    let ghost c = rb_geom.coords@;
    let n = rb_geom.coords.len();
    if n == 0 {
        return false;
    }
    let closed = n >= 2 && rb_geom.coords[0] == rb_geom.coords[n - 1];
    assert(closed == closed_line(c));
    let s = if v_id_start == n - 1 {
        0
    } else {
        v_id_start
    };
    let e = if n > 1 && v_id_end == usize::MAX {
        n - 2
    } else {
        v_id_end
    };
    if s <= e {
        e < n - 1 && (s > 0 || closed)
    } else {
        closed && s <= n - 2 && e + 1 < s
    }
}


/// The points of a new subline that go between its two ends: all but its first and last.
pub open spec fn inner_points(sub: Seq<Coord>) -> Seq<Coord> {
    if sub.len() >= 2 {
        sub.subrange(1, sub.len() - 1)
    } else {
        Seq::empty()
    }
}

/// Edits that put each segment of `segs` into the index.
pub open spec fn insertions(segs: Seq<(Coord, Coord)>) -> Seq<SegmentEdit> {
    segs.map_values(|p: (Coord, Coord)| SegmentEdit::Insert(p.0, p.1))
}

/// Edits that take each segment of `segs` out of the index.
pub open spec fn removals(segs: Seq<(Coord, Coord)>) -> Seq<SegmentEdit> {
    segs.map_values(|p: (Coord, Coord)| SegmentEdit::Remove(p.0, p.1))
}

/// Inserts the inner points of `new_subline` between the neighbouring vertices `bend_i` and
/// `bend_j` of a line, and returns the edits that keep its segment index in step: the
/// segment between the two vertices leaves, the segments of the new path between them arrive.
pub fn add_vertex(rb_geom: &mut RbGeom, bend_i: usize, bend_j: usize, new_subline: &[Coord]) -> (r:
    Result<Vec<SegmentEdit>, GeomError>)
    ensures
        final(rb_geom).id == old(rb_geom).id,
        final(rb_geom).original_type == old(rb_geom).original_type,
        final(rb_geom).is_simplest == old(rb_geom).is_simplest,
        final(rb_geom).need_pivot == old(rb_geom).need_pivot,
        bend_j != bend_i + 1 ==> r == Err::<Vec<SegmentEdit>, GeomError>(
            GeomError::VerticesNotAdjacent,
        ) && final(rb_geom).coords@ == old(rb_geom).coords@,
        bend_j == bend_i + 1 && bend_j >= old(rb_geom).coords@.len() ==> r == Err::<
            Vec<SegmentEdit>,
            GeomError,
        >(GeomError::VertexOutOfBounds) && final(rb_geom).coords@ == old(rb_geom).coords@,
        bend_j == bend_i + 1 && bend_j < old(rb_geom).coords@.len() ==> {
            let c = old(rb_geom).coords@;
            let path = seq![c[bend_i as int]] + inner_points(new_subline@) + seq![c[bend_j as int]];
            &&& r matches Ok(edits)
            &&& edits@ == seq![SegmentEdit::Remove(c[bend_i as int], c[bend_j as int])]
                + insertions(segments_of(path))
            &&& final(rb_geom).coords@ == c.subrange(0, bend_j as int) + inner_points(new_subline@)
                + c.subrange(bend_j as int, c.len() as int)
            &&& closed_line(c) ==> closed_line(final(rb_geom).coords@)
        },
{
    if bend_j == 0 || bend_j - 1 != bend_i {
        return Err(GeomError::VerticesNotAdjacent);
    }
    let n = rb_geom.coords.len();
    if bend_j >= n {
        return Err(GeomError::VertexOutOfBounds);
    }
    let ghost c = rb_geom.coords@;
    let mut mid: Vec<Coord> = Vec::new();
    let m = new_subline.len();
    if m >= 2 {
        let mut t: usize = 1;
        while t < m - 1
            invariant
                m == new_subline@.len(),
                m >= 2,
                1 <= t <= m - 1,
                mid@ == new_subline@.subrange(1, t as int),
            decreases m - 1 - t,
        {
            mid.push(new_subline[t]);
            proof {
                assert(mid@ =~= new_subline@.subrange(1, t + 1));
            }
            t = t + 1;
        }
    }
    proof {
        assert(mid@ =~= inner_points(new_subline@));
    }
    let a = rb_geom.coords[bend_i];
    let b = rb_geom.coords[bend_j];
    let ghost path = seq![a] + mid@ + seq![b];
    let mut edits: Vec<SegmentEdit> = Vec::new();
    edits.push(SegmentEdit::Remove(a, b));
    let mut prev = a;
    let mut t: usize = 0;
    while t < mid.len()
        invariant
            path == seq![a] + mid@ + seq![b],
            t <= mid.len(),
            prev == path[t as int],
            edits@ == seq![SegmentEdit::Remove(a, b)] + insertions(segments_of(path).take(t as int)),
        decreases mid.len() - t,
    {
        let p = mid[t];
        edits.push(SegmentEdit::Insert(prev, p));
        proof {
            assert(segments_of(path).take(t + 1) =~= segments_of(path).take(t as int).push(
                (prev, p),
            ));
            assert(insertions(segments_of(path).take(t + 1)) =~= insertions(
                segments_of(path).take(t as int),
            ).push(SegmentEdit::Insert(prev, p)));
        }
        prev = p;
        t = t + 1;
    }
    edits.push(SegmentEdit::Insert(prev, b));
    proof {
        assert(segments_of(path).len() == mid@.len() + 1);
        assert(segments_of(path) =~= segments_of(path).take(t as int).push((prev, b)));
        assert(edits@ =~= seq![SegmentEdit::Remove(a, b)] + insertions(segments_of(path)));
    }
    let mut out: Vec<Coord> = Vec::new();
    let mut k: usize = 0;
    while k < bend_j
        invariant
            c == rb_geom.coords@,
            bend_j < c.len(),
            k <= bend_j,
            out@ == c.subrange(0, k as int),
        decreases bend_j - k,
    {
        out.push(rb_geom.coords[k]);
        proof {
            assert(out@ =~= c.subrange(0, k + 1));
        }
        k = k + 1;
    }
    let mut t2: usize = 0;
    while t2 < mid.len()
        invariant
            t2 <= mid.len(),
            out@ == c.subrange(0, bend_j as int) + mid@.take(t2 as int),
        decreases mid.len() - t2,
    {
        out.push(mid[t2]);
        proof {
            assert(out@ =~= c.subrange(0, bend_j as int) + mid@.take(t2 + 1));
        }
        t2 = t2 + 1;
    }
    let mut k2: usize = bend_j;
    while k2 < n
        invariant
            c == rb_geom.coords@,
            n == c.len(),
            bend_j <= k2 <= n,
            out@ == c.subrange(0, bend_j as int) + mid@ + c.subrange(bend_j as int, k2 as int),
        decreases n - k2,
    {
        out.push(rb_geom.coords[k2]);
        proof {
            assert(out@ =~= c.subrange(0, bend_j as int) + mid@ + c.subrange(bend_j as int, k2 + 1));
        }
        k2 = k2 + 1;
    }
    proof {
        assert(mid@.take(mid@.len() as int) =~= mid@);
    }
    rb_geom.coords = out;
    proof {
        let c2 = rb_geom.coords@;
        assert(c2 =~= c.subrange(0, bend_j as int) + inner_points(new_subline@) + c.subrange(
            bend_j as int,
            c.len() as int,
        ));
        assert(c2[0] == c[0]);
        assert(c2[c2.len() - 1] == c[c.len() - 1]);
    }
    Ok(edits)
}

/// The run of segments that one deletion step takes out of the index: from the anchor to the
/// vertex after the run, the closing segment first when the run wraps.
pub open spec fn removed_run(c: Seq<Coord>, s: int, e: int) -> Seq<(Coord, Coord)> {
    let seg = segments_of(c);
    if wraps(c, s) {
        seq![seg[c.len() - 2]] + seg.subrange(0, e + 1)
    } else {
        seg.subrange(s - 1, e + 1)
    }
}

/// The segments that one deletion step keeps, with the new segment where the run was: at the
/// end of the line when the run wraps.
pub open spec fn kept_with_new(c: Seq<Coord>, s: int, e: int) -> Seq<(Coord, Coord)> {
    let seg = segments_of(c);
    let added = (c[step_anchor(c, s)], c[e + 1]);
    if wraps(c, s) {
        seg.subrange(e + 1, c.len() - 2).push(added)
    } else {
        seg.subrange(0, s - 1).push(added) + seg.subrange(e + 1, c.len() - 1)
    }
}

/// A deletion step keeps the segment index in step with the line: its edits take out exactly
/// the run of segments around the deleted vertices and put in the one segment that bridges
/// them, and the segments of the new line are the old ones with that run replaced by that
/// segment. A closed line's closing point must repeat its first point exactly.
pub proof fn lemma_step_keeps_segments(c: Seq<Coord>, s: int, e: int)
    requires
        step_ok(c, s, e),
        wraps(c, s) ==> c[0] == c[c.len() - 1] && e + 2 < c.len(),
    ensures
        step_edits(c, s, e) == removals(removed_run(c, s, e)).push(
            SegmentEdit::Insert(c[step_anchor(c, s)], c[e + 1]),
        ),
        segments_of(step_coords(c, s, e)) == kept_with_new(c, s, e),
{
    let ids = step_ids(c, s, e);
    let run = removed_run(c, s, e);
    assert(ids.len() == e - s + 3);
    assert forall|k: int| 0 <= k < ids.len() - 1 implies (c[ids[k]], c[ids[k + 1]]) == run[k] by {
        if k > 0 {
            assert(ids[k] == s + k - 1);
            assert(ids[k + 1] == s + k);
        }
    }
    assert(step_edits(c, s, e) =~= removals(run).push(
        SegmentEdit::Insert(c[step_anchor(c, s)], c[e + 1]),
    ));
    let c2 = step_coords(c, s, e);
    let seg = segments_of(c);
    let kept = kept_with_new(c, s, e);
    let n = c.len() as int;
    if wraps(c, s) {
        assert(c2.len() == n - e - 1);
        assert(kept.len() == c2.len() - 1);
        assert forall|k: int| 0 <= k < c2.len() - 1 implies segments_of(c2)[k] == kept[k] by {
            if k < c2.len() - 2 {
                assert(c2[k] == c[e + 1 + k]);
                assert(c2[k + 1] == c[e + 2 + k]);
            }
        }
    } else {
        assert(c2.len() == n - e - 1 + s);
        assert(kept.len() == c2.len() - 1);
        assert forall|k: int| 0 <= k < c2.len() - 1 implies segments_of(c2)[k] == kept[k] by {
            if k < s - 1 {
                assert(c2[k] == c[k] && c2[k + 1] == c[k + 1]);
            } else if k == s - 1 {
                assert(c2[k] == c[s - 1] && c2[k + 1] == c[e + 1]);
            } else {
                assert(c2[k] == c[k - s + e + 1] && c2[k + 1] == c[k - s + e + 2]);
            }
        }
    }
    assert(segments_of(c2) =~= kept);
}

/// The index after one edit: a removed segment leaves it once, an inserted one enters it once.
pub open spec fn apply_edit(m: Multiset<(Coord, Coord)>, ed: SegmentEdit) -> Multiset<(Coord, Coord)> {
    match ed {
        SegmentEdit::Remove(a, b) => m.remove((a, b)),
        SegmentEdit::Insert(a, b) => m.insert((a, b)),
    }
}

/// The index after the edits, applied in order.
pub open spec fn apply_edits(m: Multiset<(Coord, Coord)>, eds: Seq<SegmentEdit>) -> Multiset<(Coord, Coord)>
    decreases eds.len(),
{
    if eds.len() == 0 {
        m
    } else {
        apply_edits(apply_edit(m, eds[0]), eds.drop_first())
    }
}

proof fn lemma_apply_concat(m: Multiset<(Coord, Coord)>, x: Seq<SegmentEdit>, y: Seq<SegmentEdit>)
    ensures
        apply_edits(m, x + y) == apply_edits(apply_edits(m, x), y),
    decreases x.len(),
{
    if x.len() == 0 {
        assert(x + y =~= y);
    } else {
        assert((x + y)[0] == x[0]);
        assert((x + y).drop_first() =~= x.drop_first() + y);
        lemma_apply_concat(apply_edit(m, x[0]), x.drop_first(), y);
    }
}

proof fn lemma_apply_removals(r: Seq<(Coord, Coord)>, rest: Multiset<(Coord, Coord)>)
    ensures
        apply_edits(r.to_multiset().add(rest), removals(r)) == rest,
    decreases r.len(),
{
    broadcast use vstd::multiset::group_multiset_axioms;
    broadcast use vstd::seq_lib::group_to_multiset_ensures;

    if r.len() == 0 {
        assert(r.to_multiset() =~= Multiset::<(Coord, Coord)>::empty());
        assert(r.to_multiset().add(rest) =~= rest);
    } else {
        let x = r[0];
        let tail = r.drop_first();
        assert(r =~= seq![x] + tail);
        vstd::seq_lib::lemma_multiset_commutative(seq![x], tail);
        assert(seq![x] =~= Seq::<(Coord, Coord)>::empty().push(x));
        assert(Seq::<(Coord, Coord)>::empty().to_multiset() =~= Multiset::<(Coord, Coord)>::empty());
        assert(r.to_multiset().add(rest).remove((x.0, x.1)) =~= tail.to_multiset().add(rest));
        assert(removals(r)[0] == SegmentEdit::Remove(x.0, x.1));
        assert(removals(r).drop_first() =~= removals(tail));
        lemma_apply_removals(tail, rest);
    }
}

/// One deletion step, applied to the index of a line, gives the index of the new line.
proof fn lemma_step_keeps_index(c: Seq<Coord>, s: int, e: int)
    requires
        step_ok(c, s, e),
        wraps(c, s) ==> c[0] == c[c.len() - 1] && e + 2 < c.len(),
    ensures
        apply_edits(segments_of(c).to_multiset(), step_edits(c, s, e)) == segments_of(
            step_coords(c, s, e),
        ).to_multiset(),
{
    broadcast use vstd::multiset::group_multiset_axioms;
    broadcast use vstd::seq_lib::group_to_multiset_ensures;

    lemma_step_keeps_segments(c, s, e);
    let seg = segments_of(c);
    let n = c.len() as int;
    let run = removed_run(c, s, e);
    let added = (c[step_anchor(c, s)], c[e + 1]);
    let ins = seq![SegmentEdit::Insert(added.0, added.1)];
    let rest = if wraps(c, s) {
        seg.subrange(e + 1, n - 2)
    } else {
        seg.subrange(0, s - 1) + seg.subrange(e + 1, n - 1)
    };
    if wraps(c, s) {
        let p = seg.subrange(0, e + 1);
        assert(seg =~= p + rest + seq![seg[n - 2]]);
        assert(run =~= seq![seg[n - 2]] + p);
        vstd::seq_lib::lemma_multiset_commutative(p + rest, seq![seg[n - 2]]);
        vstd::seq_lib::lemma_multiset_commutative(p, rest);
        vstd::seq_lib::lemma_multiset_commutative(seq![seg[n - 2]], p);
        assert(seg.to_multiset() =~= run.to_multiset().add(rest.to_multiset()));
        assert(kept_with_new(c, s, e) =~= rest.push(added));
    } else {
        let p = seg.subrange(0, s - 1);
        let q = seg.subrange(e + 1, n - 1);
        assert(seg =~= p + run + q);
        vstd::seq_lib::lemma_multiset_commutative(p + run, q);
        vstd::seq_lib::lemma_multiset_commutative(p, run);
        vstd::seq_lib::lemma_multiset_commutative(p, q);
        assert(seg.to_multiset() =~= run.to_multiset().add(rest.to_multiset()));
        vstd::seq_lib::lemma_multiset_commutative(p.push(added), q);
        assert(kept_with_new(c, s, e) =~= p.push(added) + q);
        assert(rest.push(added).to_multiset() =~= kept_with_new(c, s, e).to_multiset());
    }
    assert(step_edits(c, s, e) =~= removals(run) + ins);
    lemma_apply_concat(seg.to_multiset(), removals(run), ins);
    lemma_apply_removals(run, rest.to_multiset());
    assert(apply_edits(rest.to_multiset(), ins) == rest.to_multiset().insert(added)) by {
        let m1 = apply_edit(rest.to_multiset(), ins[0]);
        assert(ins.drop_first() =~= Seq::<SegmentEdit>::empty());
        assert(apply_edits(m1, ins.drop_first()) == m1);
        assert(m1 == rest.to_multiset().insert((added.0, added.1)));
    }
    assert(rest.push(added).to_multiset() =~= rest.to_multiset().insert(added));
}

/// Deleting vertices keeps the segment index in step with the line: the edits that
/// [`delete_vertex`] returns, applied one after the other to the segments of the old line,
/// give exactly the segments of the new line, also when the run wraps around the closing
/// point. The closing point of a closed line must repeat its first point bit for bit, and a
/// run that starts at the first vertex of a closed line must leave two vertices besides the
/// closing point.
pub proof fn lemma_deletion_keeps_index(c: Seq<Coord>, s: int, e: int)
    requires
        deletion_ok(c, s, e),
        closed_line(c) ==> c[0] == c[c.len() - 1],
        norm_start(c.len() as int, s) == 0 && closed_line(c) ==> norm_end(c.len() as int, e) + 2
            < c.len(),
    ensures
        apply_edits(segments_of(c).to_multiset(), deletion_edits(c, s, e)) == segments_of(
            deletion_coords(c, s, e),
        ).to_multiset(),
{
    let n = c.len() as int;
    let s2 = norm_start(n, s);
    let e2 = norm_end(n, e);
    if s2 <= e2 {
        lemma_step_keeps_index(c, s2, e2);
    } else {
        let c1 = wrap_first(c, s);
        lemma_step_keeps_index(c, s2, n - 2);
        assert(c1 =~= c.subrange(0, s2).push(c[n - 1]));
        assert(c1[0] == c[0] && c1[c1.len() - 1] == c[n - 1]);
        lemma_step_keeps_index(c1, 0, e2);
        lemma_apply_concat(segments_of(c).to_multiset(), step_edits(c, s2, n - 2), step_edits(c1, 0, e2));
        assert(step_coords(c1, 0, e2) =~= deletion_coords(c, s, e));
    }
}

/// Inserting vertices keeps the segment index in step with the line: the segments of the new
/// line are the old ones with the segment between the two neighbours replaced by the
/// segments of the new path between them.
pub proof fn lemma_add_keeps_segments(c: Seq<Coord>, i: int, mid: Seq<Coord>)
    requires
        0 <= i,
        i + 1 < c.len(),
    ensures
        segments_of(c.subrange(0, i + 1) + mid + c.subrange(i + 1, c.len() as int)) == segments_of(
            c,
        ).subrange(0, i) + segments_of(seq![c[i]] + mid + seq![c[i + 1]]) + segments_of(c).subrange(
            i + 1,
            c.len() - 1,
        ),
{
    let path = seq![c[i]] + mid + seq![c[i + 1]];
    let c2 = c.subrange(0, i + 1) + mid + c.subrange(i + 1, c.len() as int);
    assert(segments_of(c2) =~= segments_of(c).subrange(0, i) + segments_of(path) + segments_of(
        c,
    ).subrange(i + 1, c.len() - 1));
}


proof fn lemma_apply_insertions(m: Multiset<(Coord, Coord)>, r: Seq<(Coord, Coord)>)
    ensures
        apply_edits(m, insertions(r)) == m.add(r.to_multiset()),
    decreases r.len(),
{
    broadcast use vstd::multiset::group_multiset_axioms;
    broadcast use vstd::seq_lib::group_to_multiset_ensures;

    if r.len() == 0 {
        assert(r.to_multiset() =~= Multiset::<(Coord, Coord)>::empty());
        assert(m.add(r.to_multiset()) =~= m);
    } else {
        let x = r[0];
        let tail = r.drop_first();
        assert(r =~= seq![x] + tail);
        vstd::seq_lib::lemma_multiset_commutative(seq![x], tail);
        assert(seq![x] =~= Seq::<(Coord, Coord)>::empty().push(x));
        assert(Seq::<(Coord, Coord)>::empty().to_multiset() =~= Multiset::<(Coord, Coord)>::empty());
        assert(insertions(r)[0] == SegmentEdit::Insert(x.0, x.1));
        assert(insertions(r).drop_first() =~= insertions(tail));
        lemma_apply_insertions(m.insert((x.0, x.1)), tail);
        assert(m.insert((x.0, x.1)).add(tail.to_multiset()) =~= m.add(r.to_multiset()));
    }
}

/// Inserting vertices keeps the segment index in step with the line: the edits that
/// [`add_vertex`] returns, applied one after the other to the segments of the old line, give
/// exactly the segments of the new line.
pub proof fn lemma_add_keeps_index(c: Seq<Coord>, i: int, mid: Seq<Coord>)
    requires
        0 <= i,
        i + 1 < c.len(),
    ensures
        apply_edits(
            segments_of(c).to_multiset(),
            seq![SegmentEdit::Remove(c[i], c[i + 1])] + insertions(
                segments_of(seq![c[i]] + mid + seq![c[i + 1]]),
            ),
        ) == segments_of(c.subrange(0, i + 1) + mid + c.subrange(i + 1, c.len() as int)).to_multiset(),
{
    broadcast use vstd::multiset::group_multiset_axioms;
    broadcast use vstd::seq_lib::group_to_multiset_ensures;

    lemma_add_keeps_segments(c, i, mid);
    let seg = segments_of(c);
    let p = seg.subrange(0, i);
    let q = seg.subrange(i + 1, c.len() - 1);
    let x = (c[i], c[i + 1]);
    let ps = segments_of(seq![c[i]] + mid + seq![c[i + 1]]);
    let rm = seq![SegmentEdit::Remove(c[i], c[i + 1])];
    assert(seg =~= p + seq![x] + q);
    vstd::seq_lib::lemma_multiset_commutative(p + seq![x], q);
    vstd::seq_lib::lemma_multiset_commutative(p, seq![x]);
    vstd::seq_lib::lemma_multiset_commutative(p, q);
    assert(seq![x] =~= Seq::<(Coord, Coord)>::empty().push(x));
    assert(Seq::<(Coord, Coord)>::empty().to_multiset() =~= Multiset::<(Coord, Coord)>::empty());
    let m1 = seg.to_multiset().remove(x);
    assert(m1 =~= (p + q).to_multiset());
    assert(apply_edits(seg.to_multiset(), rm) == m1) by {
        assert(rm.drop_first() =~= Seq::<SegmentEdit>::empty());
        assert(apply_edits(m1, rm.drop_first()) == m1);
    }
    lemma_apply_concat(seg.to_multiset(), rm, insertions(ps));
    lemma_apply_insertions(m1, ps);
    vstd::seq_lib::lemma_multiset_commutative(p + ps, q);
    vstd::seq_lib::lemma_multiset_commutative(p, ps);
    assert(m1.add(ps.to_multiset()) =~= (p + ps + q).to_multiset());
}

/// A piece of the index with the id of the line it belongs to.
#[derive(Debug, Clone, Copy, PartialEq)]
pub struct SegmentRecord {
    pub owner_geom_id: usize,
    pub geom: SegmentGeometry,
}

/// The pieces of the index by id. Ids are handed out from one on and never reused; the
/// spatial tree that finds pieces by position is kept beside it and names them by id.
pub struct SegmentStore {
    records: Vec<Option<SegmentRecord>>,
    next_segment_id: usize,
}

impl SegmentStore {
    /// The store is well formed: ids start at one, and every slot lies below the next id.
    pub closed spec fn wf(&self) -> bool {
        self.next_segment_id >= 1 && self.records.len() <= self.next_segment_id
    }

    /// The id the next inserted piece gets.
    pub closed spec fn next_id(&self) -> nat {
        self.next_segment_id as nat
    }

    /// The pieces present, by id.
    pub closed spec fn live(&self) -> Map<usize, SegmentRecord> {
        Map::new(
            |id: usize| id < self.records.len() && self.records@[id as int] is Some,
            |id: usize| self.records@[id as int]->Some_0,
        )
    }
}

impl View for SegmentStore {
    type V = Map<usize, SegmentRecord>;

    open spec fn view(&self) -> Map<usize, SegmentRecord> {
        self.live()
    }
}

impl SegmentStore {
    /// An empty store.
    pub fn new() -> (r: SegmentStore)
        ensures
            r.wf(),
            r@ == Map::<usize, SegmentRecord>::empty(),
            r.next_id() == 1,
    {
        let r = SegmentStore { records: Vec::new(), next_segment_id: 1 };
        proof {
            assert(r.live() =~= Map::<usize, SegmentRecord>::empty());
        }
        r
    }

    /// Stores a piece under a fresh id and returns the id.
    pub fn insert_record(&mut self, owner_geom_id: usize, geom: SegmentGeometry) -> (id: usize)
        requires
            old(self).wf(),
            old(self).next_id() < usize::MAX,
        ensures
            final(self).wf(),
            id == old(self).next_id(),
            final(self).next_id() == id + 1,
            !old(self)@.contains_key(id),
            final(self)@ == old(self)@.insert(id, SegmentRecord { owner_geom_id, geom }),
    {
        let segment_id = self.next_segment_id;
        self.next_segment_id = self.next_segment_id + 1;
        let ghost before = self.live();
        while self.records.len() <= segment_id
            invariant
                self.records.len() <= segment_id + 1,
                self.next_segment_id == segment_id + 1,
                forall|k: int| 0 <= k < old(self).records.len() ==> self.records@[k] == old(self).records@[k],
                forall|k: int| old(self).records.len() <= k < self.records.len() ==> self.records@[k] is None,
                self.records.len() >= old(self).records.len(),
            decreases segment_id + 1 - self.records.len(),
        {
            self.records.push(None);
        }
        self.records.set(segment_id, Some(SegmentRecord { owner_geom_id, geom }));
        proof {
            assert(self.live() =~= before.insert(segment_id, SegmentRecord { owner_geom_id, geom }));
        }
        segment_id
    }

    /// The id the next inserted piece gets.
    pub fn next_segment_id(&self) -> (r: usize)
        ensures
            r == self.next_id(),
    {
        self.next_segment_id
    }

    /// The piece stored under `id`, if any.
    pub fn get(&self, id: usize) -> (r: Option<SegmentRecord>)
        ensures
            r == (if self@.contains_key(id) {
                Some(self@[id])
            } else {
                None
            }),
    {
        if id < self.records.len() {
            self.records[id]
        } else {
            None
        }
    }

    /// Takes the piece stored under `id` out of the store.
    pub fn remove(&mut self, id: usize)
        requires
            old(self).wf(),
            old(self)@.contains_key(id),
        ensures
            final(self).wf(),
            final(self).next_id() == old(self).next_id(),
            final(self)@ == old(self)@.remove(id),
    {
        let ghost before = self.live();
        self.records.set(id, None);
        proof {
            assert(self.live() =~= before.remove(id));
        }
    }
}


/// A deletion step takes exactly the run of vertices off the line, and a closed line stays
/// closed. When the run wraps, the line is closed again on the vertex after the run, which
/// must then not be a NaN point.
pub proof fn lemma_step_keeps_ring_closed(c: Seq<Coord>, s: int, e: int)
    requires
        step_ok(c, s, e),
        closed_line(c),
        wraps(c, s) ==> !f64_is_nan(c[e + 1].x_bits) && !f64_is_nan(c[e + 1].y_bits),
        !wraps(c, s) ==> s >= 1,
    ensures
        step_coords(c, s, e).len() == c.len() - (e - s + 1),
        step_coords(c, s, e).len() >= 2 ==> closed_line(step_coords(c, s, e)),
{
    let c2 = step_coords(c, s, e);
    if wraps(c, s) {
        assert(c2[0] == c[e + 1]);
        assert(c2[c2.len() - 1] == c[e + 1]);
    } else {
        assert(c2[0] == c[0]);
        assert(c2[c2.len() - 1] == c[c.len() - 1]);
    }
}


/// The pieces by which a line is indexed: its first point, for a line that stands for a point;
/// else each of its segments.
pub open spec fn pieces_of(t: GeomType, c: Seq<Coord>) -> Seq<SegmentGeometry> {
    if t == GeomType::Point {
        if c.len() > 0 {
            seq![SegmentGeometry::Point(c[0])]
        } else {
            Seq::empty()
        }
    } else {
        segments_of(c).map_values(|p: (Coord, Coord)| SegmentGeometry::Segment(p.0, p.1))
    }
}

/// A line that does not stand for a point, a polygon ring included, is indexed by every one of
/// its segments: one piece from each vertex to the next, in order, the closing segment of a
/// ring among them. A line that stands for a point is indexed by its first point alone.
pub proof fn lemma_pieces_are_all_segments(t: GeomType, c: Seq<Coord>)
    ensures
        t != GeomType::Point ==> {
            &&& pieces_of(t, c).len() == if c.len() > 0 {
                c.len() - 1
            } else {
                0
            }
            &&& forall|k: int|
                0 <= k < pieces_of(t, c).len() ==> #[trigger] pieces_of(t, c)[k]
                    == SegmentGeometry::Segment(c[k], c[k + 1])
        },
        t == GeomType::Point ==> pieces_of(t, c) == if c.len() > 0 {
            seq![SegmentGeometry::Point(c[0])]
        } else {
            Seq::<SegmentGeometry>::empty()
        },
{
}

/// Lists the pieces by which a line is indexed.
pub fn line_pieces(rb_geom: &RbGeom) -> (r: Vec<SegmentGeometry>)
    ensures
        r@ == pieces_of(rb_geom.original_type, rb_geom.coords@),
        rb_geom.original_type != GeomType::Point ==> {
            &&& r@.len() == if rb_geom.coords@.len() > 0 {
                rb_geom.coords@.len() - 1
            } else {
                0
            }
            &&& forall|k: int|
                0 <= k < r@.len() ==> #[trigger] r@[k] == SegmentGeometry::Segment(
                    rb_geom.coords@[k],
                    rb_geom.coords@[k + 1],
                )
        },
        rb_geom.original_type == GeomType::Point ==> r@ == if rb_geom.coords@.len() > 0 {
            seq![SegmentGeometry::Point(rb_geom.coords@[0])]
        } else {
            Seq::<SegmentGeometry>::empty()
        },
{
    let mut out: Vec<SegmentGeometry> = Vec::new();
    let n = rb_geom.coords.len();
    if rb_geom.original_type == GeomType::Point {
        if n > 0 {
            out.push(SegmentGeometry::Point(rb_geom.coords[0]));
        }
        proof {
            assert(out@ =~= pieces_of(rb_geom.original_type, rb_geom.coords@));
        }
        return out;
    }
    let ghost want = pieces_of(rb_geom.original_type, rb_geom.coords@);
    let mut k: usize = 0;
    while k + 1 < n
        invariant
            n == rb_geom.coords@.len(),
            rb_geom.original_type != GeomType::Point,
            want == pieces_of(rb_geom.original_type, rb_geom.coords@),
            k + 1 <= n || (n == 0 && k == 0),
            out@ == want.take(k as int),
        decreases n - k,
    {
        out.push(SegmentGeometry::Segment(rb_geom.coords[k], rb_geom.coords[k + 1]));
        proof {
            assert(out@ =~= want.take(k + 1));
        }
        k = k + 1;
    }
    proof {
        assert(out@ =~= want);
    }
    out
}

} // verus!
