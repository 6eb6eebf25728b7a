//! Preparation of the features before bends are reduced.
use vstd::prelude::*;

use crate::coord::{coord_eq, f64_is_nan, Coord};
use crate::geometry::{
    clone_attrs, clone_coords, clone_geometry, closed_line, lemma_total_rings_prefix,
    records_view, rings_of, rings_view, total_rings, FeatureRecord, GeometryModel, RbGeom,
    RecordModel, SimpleGeometry,
};

verus! {

/// The holes of a polygon that stay: a hole goes when holes are to be deleted and it is
/// small. `small[h + 1]` says whether hole `h` is small.
pub open spec fn kept_holes(inners: Seq<Seq<Coord>>, small: Seq<bool>, del_inner: bool) -> Seq<Seq<Coord>>
    decreases inners.len(),
{
    if inners.len() == 0 {
        Seq::empty()
    } else {
        let prev = kept_holes(inners.drop_last(), small, del_inner);
        if del_inner && small[inners.len() as int] {
            prev
        } else {
            prev.push(inners.last())
        }
    }
}

/// Number of holes that go.
pub open spec fn dropped_holes(inners: Seq<Seq<Coord>>, small: Seq<bool>, del_inner: bool) -> nat
    decreases inners.len(),
{
    if inners.len() == 0 {
        0
    } else {
        dropped_holes(inners.drop_last(), small, del_inner) + if del_inner && small[inners.len() as int] {
            1nat
        } else {
            0nat
        }
    }
}

/// The records that stay, with the holes that stay, and the numbers of polygons and of
/// holes that go. A polygon goes when outer rings are to be deleted and its outer ring is
/// small (`small[r][0]`); the holes of a polygon that goes are not counted.
pub open spec fn pre_filter(
    recs: Seq<RecordModel>,
    small: Seq<Seq<bool>>,
    del_outer: bool,
    del_inner: bool,
) -> (Seq<RecordModel>, nat, nat)
    decreases recs.len(),
{
    if recs.len() == 0 {
        (Seq::empty(), 0, 0)
    } else {
        let (out, pol, hol) = pre_filter(recs.drop_last(), small.drop_last(), del_outer, del_inner);
        let rec = recs.last();
        let sm = small.last();
        match rec.geometry {
            GeometryModel::Polygon { outer, inners } => {
                if del_outer && sm[0] {
                    (out, pol + 1, hol)
                } else {
                    (
                        out.push(
                            RecordModel {
                                geometry: GeometryModel::Polygon {
                                    outer,
                                    inners: kept_holes(inners, sm, del_inner),
                                },
                                ..rec
                            },
                        ),
                        pol,
                        hol + dropped_holes(inners, sm, del_inner),
                    )
                }
            },
            _ => (out.push(rec), pol, hol),
        }
    }
}

/// The smallness flags of every record cover its rings: one per ring of a polygon.
pub open spec fn small_flags_fit(recs: Seq<RecordModel>, small: Seq<Seq<bool>>) -> bool {
    &&& small.len() == recs.len()
    &&& forall|r: int|
        0 <= r < recs.len() ==> (#[trigger] recs[r].geometry matches GeometryModel::Polygon {
            inners,
            ..
        } ==> small[r].len() == inners.len() + 1)
}

/// Drops small polygons and small holes before bends are reduced. `small_rings[r]` says, for
/// each ring of record `r` (outer ring first), whether its adjusted area is under the
/// smallest adjusted area a bend may keep. Returns the records that stay, the number of
/// polygons dropped and the number of holes dropped.
pub fn pre_filter_records(
    records: &[FeatureRecord],
    small_rings: &[Vec<bool>],
    flag_del_outer: bool,
    flag_del_inner: bool,
) -> (r: (Vec<FeatureRecord>, usize, usize))
    requires
        small_flags_fit(records_view(records@), small_rings@.map_values(|v: Vec<bool>| v@)),
        total_rings(records_view(records@)) < usize::MAX,
    ensures
        ({
            let (out, pol, hol) = pre_filter(
                records_view(records@),
                small_rings@.map_values(|v: Vec<bool>| v@),
                flag_del_outer,
                flag_del_inner,
            );
            &&& records_view(r.0@) == out
            &&& r.1 == pol
            &&& r.2 == hol
        }),
{
    let ghost recs = records_view(records@);
    let ghost small = small_rings@.map_values(|v: Vec<bool>| v@);
    let mut out: Vec<FeatureRecord> = Vec::new();
    let mut nbr_pol_del: usize = 0;
    let mut nbr_hole_del: usize = 0;
    let mut r: usize = 0;
    while r < records.len()
        invariant
            r <= records.len(),
            recs == records_view(records@),
            small == small_rings@.map_values(|v: Vec<bool>| v@),
            small_flags_fit(recs, small),
            ({
                let (o, p, h) = pre_filter(
                    recs.take(r as int),
                    small.take(r as int),
                    flag_del_outer,
                    flag_del_inner,
                );
                &&& records_view(out@) == o
                &&& nbr_pol_del == p
                &&& nbr_hole_del == h
            }),
            total_rings(recs) < usize::MAX,
            nbr_pol_del + nbr_hole_del <= total_rings(recs.take(r as int)),
        decreases records.len() - r,
    {
        let rec = &records[r];
        let sm = &small_rings[r];
        proof {
            assert(recs.take(r + 1).drop_last() =~= recs.take(r as int));
            assert(small.take(r + 1).drop_last() =~= small.take(r as int));
            assert(recs.take(r + 1).last() == rec@);
            assert(small.take(r + 1).last() == sm@);
            assert(recs[r as int] == rec@);
            assert(small[r as int] == sm@);
            lemma_total_rings_prefix(recs, r as int);
            lemma_total_rings_prefix(recs, r as int + 1);
        }
        let ghost prev_out = records_view(out@);
        match &rec.geometry {
            SimpleGeometry::Polygon { outer, inners } => {
                proof {
                    assert(sm@.len() == inners@.len() + 1);
                }
                if flag_del_outer && sm[0] {
                    nbr_pol_del = nbr_pol_del + 1;
                } else {
                    let ghost iv = rings_view(inners@);
                    let mut kept: Vec<Vec<Coord>> = Vec::new();
                    let mut dropped: usize = 0;
                    let mut h: usize = 0;
                    while h < inners.len()
                        invariant
                            h <= inners.len(),
                            sm@.len() == inners@.len() + 1,
                            iv == rings_view(inners@),
                            rings_view(kept@) == kept_holes(iv.take(h as int), sm@, flag_del_inner),
                            dropped == dropped_holes(iv.take(h as int), sm@, flag_del_inner),
                            dropped <= h,
                        decreases inners.len() - h,
                    {
                        proof {
                            assert(iv.take(h + 1).drop_last() =~= iv.take(h as int));
                            assert(iv.take(h + 1).last() == inners@[h as int]@);
                        }
                        if flag_del_inner && sm[h + 1] {
                            dropped = dropped + 1;
                        } else {
                            let ghost before = rings_view(kept@);
                            kept.push(clone_coords(&inners[h]));
                            proof {
                                assert(rings_view(kept@) =~= before.push(inners@[h as int]@));
                            }
                        }
                        h = h + 1;
                    }
                    proof {
                        assert(iv.take(h as int) =~= iv);
                        assert(rings_of(rec@.geometry) == inners@.len() + 1);
                    }
                    let new_rec = FeatureRecord {
                        stable_id: rec.stable_id,
                        fid: rec.fid,
                        attrs: clone_attrs(&rec.attrs),
                        geometry: SimpleGeometry::Polygon { outer: clone_coords(outer), inners: kept },
                    };
                    out.push(new_rec);
                    nbr_hole_del = nbr_hole_del + dropped;
                    proof {
                        assert(records_view(out@) =~= prev_out.push(new_rec@));
                    }
                }
            },
            _ => {
                let new_rec = FeatureRecord {
                    stable_id: rec.stable_id,
                    fid: rec.fid,
                    attrs: clone_attrs(&rec.attrs),
                    geometry: clone_geometry(&rec.geometry),
                };
                out.push(new_rec);
                proof {
                    assert(new_rec@ == rec@);
                    assert(records_view(out@) =~= prev_out.push(new_rec@));
                }
            },
        }
        r = r + 1;
    }
    proof {
        assert(recs.take(records.len() as int) =~= recs);
        assert(small.take(records.len() as int) =~= small);
    }
    (out, nbr_pol_del, nbr_hole_del)
}


/// The points of a line once its duplicate points are gone: `dedup`, closed again on its
/// first point when the line was closed and `dedup` no longer is.
pub open spec fn deduplicated(dedup: Seq<Coord>, was_closed: bool) -> Seq<Coord> {
    if was_closed && dedup.len() >= 2 && !coord_eq(dedup[0], dedup.last()) {
        dedup.push(dedup[0])
    } else {
        dedup
    }
}

/// Gives a line the points left after its duplicate points were removed, closes it again
/// when it was closed, and leaves it as simple as it gets when too few points remain: fewer
/// than four on a closed line, fewer than two on an open one.
pub fn set_deduplicated_coords(rb_geom: &mut RbGeom, dedup: Vec<Coord>, was_closed: bool)
    ensures
        final(rb_geom).id == old(rb_geom).id,
        final(rb_geom).original_type == old(rb_geom).original_type,
        final(rb_geom).need_pivot == old(rb_geom).need_pivot,
        final(rb_geom).coords@ == deduplicated(dedup@, was_closed),
        final(rb_geom).is_simplest == (old(rb_geom).is_simplest || if closed_line(
            final(rb_geom).coords@,
        ) {
            final(rb_geom).coords@.len() < 4
        } else {
            final(rb_geom).coords@.len() < 2
        }),
        was_closed && dedup@.len() >= 2 && !f64_is_nan(dedup@[0].x_bits) && !f64_is_nan(
            dedup@[0].y_bits,
        ) ==> closed_line(final(rb_geom).coords@),
{
    let mut dedup = dedup;
    let n = dedup.len();
    if was_closed && n >= 2 && !(dedup[0] == dedup[n - 1]) {
        let first = dedup[0];
        dedup.push(first);
    }
    rb_geom.coords = dedup;
    if rb_geom.is_closed() {
        if rb_geom.coords.len() < 4 {
            rb_geom.is_simplest = true;
        }
    } else if rb_geom.coords.len() < 2 {
        rb_geom.is_simplest = true;
    }
}


/// Without deleting outer rings no record goes: record `r` stays at position `r` with its
/// identity and attributes, its geometry unchanged but for the holes that go; and without
/// deleting holes either, the records come back as they are.
pub proof fn lemma_pre_filter_without_outer_deletion(
    recs: Seq<RecordModel>,
    small: Seq<Seq<bool>>,
    del_inner: bool,
)
    requires
        small.len() == recs.len(),
    ensures
        ({
            let (out, pol, hol) = pre_filter(recs, small, false, del_inner);
            &&& pol == 0
            &&& out.len() == recs.len()
            &&& forall|r: int|
                0 <= r < recs.len() ==> {
                    &&& (#[trigger] out[r]).stable_id == recs[r].stable_id
                    &&& out[r].fid == recs[r].fid
                    &&& out[r].attrs == recs[r].attrs
                    &&& match recs[r].geometry {
                        GeometryModel::Polygon { outer, inners } => out[r].geometry
                            == GeometryModel::Polygon {
                            outer,
                            inners: kept_holes(inners, small[r], del_inner),
                        },
                        _ => out[r].geometry == recs[r].geometry,
                    }
                }
            &&& !del_inner ==> hol == 0
        }),
    decreases recs.len(),
{
    if recs.len() > 0 {
        lemma_pre_filter_without_outer_deletion(recs.drop_last(), small.drop_last(), del_inner);
        let (out0, pol0, hol0) = pre_filter(recs.drop_last(), small.drop_last(), false, del_inner);
        let (out, pol, hol) = pre_filter(recs, small, false, del_inner);
        let last = recs.len() - 1;
        assert forall|r: int| 0 <= r < recs.len() implies {
            &&& (#[trigger] out[r]).stable_id == recs[r].stable_id
            &&& out[r].fid == recs[r].fid
            &&& out[r].attrs == recs[r].attrs
            &&& match recs[r].geometry {
                GeometryModel::Polygon { outer, inners } => out[r].geometry == GeometryModel::Polygon {
                    outer,
                    inners: kept_holes(inners, small[r], del_inner),
                },
                _ => out[r].geometry == recs[r].geometry,
            }
        } by {
            if r < last {
                assert(out[r] == out0[r]);
                assert(recs[r] == recs.drop_last()[r]);
                assert(small[r] == small.drop_last()[r]);
            }
        }
        if !del_inner {
            match recs.last().geometry {
                GeometryModel::Polygon { inners, .. } => {
                    lemma_dropped_holes_zero(inners, small.last());
                },
                _ => {},
            }
        }
    }
}

proof fn lemma_dropped_holes_zero(inners: Seq<Seq<Coord>>, small: Seq<bool>)
    ensures
        dropped_holes(inners, small, false) == 0,
    decreases inners.len(),
{
    if inners.len() > 0 {
        lemma_dropped_holes_zero(inners.drop_last(), small);
    }
}

/// Every hole of a polygon that stays is either kept or counted as dropped, in order; without
/// deleting holes every hole stays, and when no hole is small every hole stays too.
pub proof fn lemma_holes_accounted(inners: Seq<Seq<Coord>>, small: Seq<bool>, del_inner: bool)
    requires
        small.len() >= inners.len() + 1,
    ensures
        kept_holes(inners, small, del_inner).len() + dropped_holes(inners, small, del_inner)
            == inners.len(),
        !del_inner ==> kept_holes(inners, small, del_inner) == inners && dropped_holes(
            inners,
            small,
            del_inner,
        ) == 0,
        (forall|h: int| 0 <= h < inners.len() ==> !#[trigger] small[h + 1]) ==> kept_holes(
            inners,
            small,
            del_inner,
        ) == inners,
    decreases inners.len(),
{
    if inners.len() > 0 {
        lemma_holes_accounted(inners.drop_last(), small, del_inner);
        if !del_inner {
            assert(kept_holes(inners, small, del_inner) =~= inners.drop_last().push(inners.last()));
        }
        if forall|h: int| 0 <= h < inners.len() ==> !#[trigger] small[h + 1] {
            assert(!small[inners.len() - 1 + 1]);
            assert(kept_holes(inners, small, del_inner) =~= inners.drop_last().push(inners.last()));
        }
    }
}

/// Closing a line again after its duplicate points were removed keeps every point in place
/// and adds at most one: the first point, at the end, when the line was closed and its ends
/// no longer match.
pub proof fn lemma_deduplicated_keeps_points(dedup: Seq<Coord>, was_closed: bool)
    ensures
        deduplicated(dedup, was_closed).take(dedup.len() as int) == dedup,
        was_closed && dedup.len() >= 2 && !coord_eq(dedup[0], dedup[dedup.len() - 1]) ==> {
            &&& deduplicated(dedup, was_closed).len() == dedup.len() + 1
            &&& deduplicated(dedup, was_closed)[dedup.len() as int] == dedup[0]
        },
        !(was_closed && dedup.len() >= 2 && !coord_eq(dedup[0], dedup[dedup.len() - 1]))
            ==> deduplicated(dedup, was_closed) == dedup,
{
    assert(deduplicated(dedup, was_closed).take(dedup.len() as int) =~= dedup);
}

/// Pre-filtering accounts for every record: each one either stays or is counted as a dropped
/// polygon.
pub proof fn lemma_pre_filter_accounts_for_every_record(
    recs: Seq<RecordModel>,
    small: Seq<Seq<bool>>,
    del_outer: bool,
    del_inner: bool,
)
    requires
        small.len() == recs.len(),
    ensures
        pre_filter(recs, small, del_outer, del_inner).0.len() + pre_filter(
            recs,
            small,
            del_outer,
            del_inner,
        ).1 == recs.len(),
    decreases recs.len(),
{
    if recs.len() > 0 {
        lemma_pre_filter_accounts_for_every_record(recs.drop_last(), small.drop_last(), del_outer, del_inner);
    }
}

} // verus!
