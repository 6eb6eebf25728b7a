//! Ordering of the output features, and what a run gives back.
use vstd::prelude::*;

use crate::geometry::{
    lemma_rebuild_after_edits, model_type, rebuilt_record, split_features, split_rings,
    total_rings, FeatureRecord, GsFeature, RbGeom, RecordModel,
};
use crate::reduce_bend::pre_process::{lemma_pre_filter_accounts_for_every_record, pre_filter};

verus! {

/// The fid part of the output order: a missing fid sorts after every present one.
pub open spec fn fid_key(fid: Option<u64>) -> u64 {
    match fid {
        Some(f) => f,
        None => u64::MAX,
    }
}

/// `a` comes strictly before `b` in the output order: by stable id, then by fid key.
pub open spec fn record_key_lt(a: FeatureRecord, b: FeatureRecord) -> bool {
    a.stable_id < b.stable_id || (a.stable_id == b.stable_id && fid_key(a.fid) < fid_key(b.fid))
}

/// `a` and `b` have the same place in the output order.
pub open spec fn record_key_eq(a: FeatureRecord, b: FeatureRecord) -> bool {
    a.stable_id == b.stable_id && fid_key(a.fid) == fid_key(b.fid)
}

/// `out` is `input` reordered by `perm`: position `t` of `out` holds position `perm[t]` of
/// `input`, and no position of `input` is used twice.
pub open spec fn is_reordering(
    input: Seq<FeatureRecord>,
    out: Seq<FeatureRecord>,
    perm: Seq<int>,
) -> bool {
    &&& perm.len() == out.len()
    &&& forall|t: int| 0 <= t < perm.len() ==> 0 <= #[trigger] perm[t] < input.len()
    &&& forall|t: int| 0 <= t < perm.len() ==> out[t] == input[#[trigger] perm[t]]
    &&& forall|t1: int, t2: int|
        0 <= t1 < perm.len() && 0 <= t2 < perm.len() && t1 != t2 ==> #[trigger] perm[t1]
            != #[trigger] perm[t2]
}

/// The order of `out` is the stable order by key: keys never decrease, and among equal keys
/// the input positions increase.
pub open spec fn is_stably_ordered(out: Seq<FeatureRecord>, perm: Seq<int>) -> bool {
    forall|t1: int, t2: int|
        0 <= t1 < t2 < out.len() ==> record_key_lt(#[trigger] out[t1], #[trigger] out[t2]) || (
        record_key_eq(out[t1], out[t2]) && perm[t1] < perm[t2])
}

fn fid_key_of(fid: Option<u64>) -> (r: u64)
    ensures
        r == fid_key(fid),
{
    match fid {
        Some(f) => f,
        None => u64::MAX,
    }
}

fn key_after(a: &FeatureRecord, b: &FeatureRecord) -> (r: bool)
    ensures
        r == record_key_lt(*b, *a),
{
    let fa = fid_key_of(a.fid);
    let fb = fid_key_of(b.fid);
    b.stable_id < a.stable_id || (b.stable_id == a.stable_id && fb < fa)
}

/// Sorts the output features by stable id, then by fid with a missing fid last. The sort
/// is stable: features with the same key keep their relative order.
pub fn sort_records_by_id(records: Vec<FeatureRecord>) -> (out: Vec<FeatureRecord>)
    ensures
        out@.len() == records@.len(),
        exists|perm: Seq<int>|
            is_reordering(records@, out@, perm) && is_stably_ordered(out@, perm),
{
    let ghost input = records@;
    let n = records.len();
    let mut rest = records;
    let mut out: Vec<FeatureRecord> = Vec::new();
    let ghost mut perm: Seq<int> = Seq::empty();
    let mut i: usize = 0;
    while i < n
        invariant
            n == input.len(),
            i <= n,
            rest@ == input.subrange(i as int, n as int),
            out.len() == i,
            is_reordering(input, out@, perm),
            forall|t: int| 0 <= t < perm.len() ==> #[trigger] perm[t] < i,
            is_stably_ordered(out@, perm),
        decreases n - i,
    {
        let x = rest.remove(0);
        assert(x == input[i as int]);
        let mut pos: usize = out.len();
        while pos > 0 && key_after(&out[pos - 1], &x)
            invariant
                pos <= out.len(),
                forall|t: int| pos <= t < out.len() ==> record_key_lt(x, #[trigger] out@[t]),
            decreases pos,
        {
            pos = pos - 1;
        }
        proof {
            assert forall|t: int| 0 <= t < pos implies !record_key_lt(x, #[trigger] out@[t]) by {
                if pos > 0 {
                    assert(!record_key_lt(x, out@[pos - 1]));
                    assert(is_stably_ordered(out@, perm));
                    if t < pos - 1 {
                        assert(record_key_lt(out@[t], out@[pos - 1]) || record_key_eq(out@[t], out@[pos - 1]));
                    }
                }
            }
        }
        let ghost old_out = out@;
        let ghost old_perm = perm;
        out.insert(pos, x);
        proof {
            perm = old_perm.insert(pos as int, i as int);
            assert(out@ =~= old_out.insert(pos as int, x));
            assert forall|t: int| 0 <= t < perm.len() implies 0 <= #[trigger] perm[t] < input.len()
                && perm[t] < i + 1 by {
                if t < pos {
                    assert(perm[t] == old_perm[t]);
                } else if t > pos {
                    assert(perm[t] == old_perm[t - 1]);
                }
            }
            assert forall|t: int| 0 <= t < perm.len() implies out@[t] == input[#[trigger] perm[t]] by {
                if t < pos {
                    assert(perm[t] == old_perm[t]);
                } else if t > pos {
                    assert(perm[t] == old_perm[t - 1]);
                }
            }
            assert forall|t1: int, t2: int|
                0 <= t1 < perm.len() && 0 <= t2 < perm.len() && t1 != t2 implies #[trigger] perm[t1]
                    != #[trigger] perm[t2] by {
                if t1 != pos && t2 != pos {
                    let u1 = if t1 < pos { t1 } else { t1 - 1 };
                    let u2 = if t2 < pos { t2 } else { t2 - 1 };
                    assert(perm[t1] == old_perm[u1]);
                    assert(perm[t2] == old_perm[u2]);
                } else if t1 == pos {
                    let u2 = if t2 < pos { t2 } else { t2 - 1 };
                    assert(perm[t2] == old_perm[u2]);
                    assert(old_perm[u2] < i);
                } else {
                    let u1 = if t1 < pos { t1 } else { t1 - 1 };
                    assert(perm[t1] == old_perm[u1]);
                    assert(old_perm[u1] < i);
                }
            }
            assert forall|t1: int, t2: int| 0 <= t1 < t2 < out@.len() implies record_key_lt(
                #[trigger] out@[t1],
                #[trigger] out@[t2],
            ) || (record_key_eq(out@[t1], out@[t2]) && perm[t1] < perm[t2]) by {
                if t2 < pos {
                    assert(out@[t1] == old_out[t1] && out@[t2] == old_out[t2]);
                    assert(perm[t1] == old_perm[t1] && perm[t2] == old_perm[t2]);
                } else if t1 > pos {
                    assert(out@[t1] == old_out[t1 - 1] && out@[t2] == old_out[t2 - 1]);
                    assert(perm[t1] == old_perm[t1 - 1] && perm[t2] == old_perm[t2 - 1]);
                } else if t1 < pos && t2 > pos {
                    assert(out@[t1] == old_out[t1] && out@[t2] == old_out[t2 - 1]);
                    assert(perm[t1] == old_perm[t1] && perm[t2] == old_perm[t2 - 1]);
                } else if t1 == pos {
                    assert(out@[t2] == old_out[t2 - 1]);
                    assert(record_key_lt(x, old_out[t2 - 1]));
                } else {
                    assert(t2 == pos);
                    assert(out@[t1] == old_out[t1]);
                    assert(perm[t1] == old_perm[t1]);
                    assert(!record_key_lt(x, old_out[t1]));
                    assert(old_perm[t1] < i);
                }
            }
            assert(rest@ =~= input.subrange(i + 1, n as int));
        }
        i = i + 1;
    }
    out
}

/// A run gives back, in order, one record for each record that the pre-filter keeps. The
/// records that go are the dropped polygons. The ones that stay are split into lines and the
/// lines are edited, each keeping its id and none that had a point losing all of them; then
/// every kept record is rebuilt with its stable id, fid, attributes and kind of geometry, and
/// the sorted output holds each rebuilt record exactly once, ordered by stable id, then fid.
pub proof fn lemma_run_output(
    records: Seq<RecordModel>,
    small: Seq<Seq<bool>>,
    del_outer: bool,
    del_inner: bool,
    features: Seq<GsFeature>,
    split: Seq<RbGeom>,
    now: Seq<RbGeom>,
    rebuilt: Seq<FeatureRecord>,
    out: Seq<FeatureRecord>,
    perm: Seq<int>,
)
    requires
        small.len() == records.len(),
        features.map_values(|f: GsFeature| f@) == split_features(
            pre_filter(records, small, del_outer, del_inner).0,
        ),
        split.map_values(|g: RbGeom| g@) == split_rings(pre_filter(records, small, del_outer, del_inner).0),
        total_rings(pre_filter(records, small, del_outer, del_inner).0) < usize::MAX,
        now.len() == split.len(),
        forall|k: int| 0 <= k < now.len() ==> #[trigger] now[k].id == split[k].id,
        forall|k: int|
            0 <= k < now.len() && split[k].coords@.len() > 0 ==> #[trigger] now[k].coords@.len() > 0,
        rebuilt.len() == features.len(),
        forall|k: int|
            0 <= k < features.len() ==> (#[trigger] rebuilt_record(features[k]@, now) matches Ok(m)
                ==> m == rebuilt[k]@),
        out.len() == rebuilt.len(),
        is_reordering(rebuilt, out, perm),
        is_stably_ordered(out, perm),
    ensures
        out.len() + pre_filter(records, small, del_outer, del_inner).1 == records.len(),
        forall|t: int|
            0 <= t < out.len() ==> {
                let kept = pre_filter(records, small, del_outer, del_inner).0;
                &&& 0 <= #[trigger] perm[t] < kept.len()
                &&& out[t].stable_id == kept[perm[t]].stable_id
                &&& out[t].fid == kept[perm[t]].fid
                &&& out[t].attrs@ == kept[perm[t]].attrs
                &&& model_type(out[t].geometry@) == model_type(kept[perm[t]].geometry)
            },
        forall|t1: int, t2: int|
            0 <= t1 < out.len() && 0 <= t2 < out.len() && t1 != t2 ==> #[trigger] perm[t1]
                != #[trigger] perm[t2],
        forall|t1: int, t2: int|
            0 <= t1 < t2 < out.len() ==> record_key_lt(#[trigger] out[t1], #[trigger] out[t2])
                || record_key_eq(out[t1], out[t2]),
{
    let kept = pre_filter(records, small, del_outer, del_inner).0;
    lemma_pre_filter_accounts_for_every_record(records, small, del_outer, del_inner);
    lemma_rebuild_after_edits(kept, features, split, now);
    assert forall|t: int| 0 <= t < out.len() implies {
        &&& 0 <= #[trigger] perm[t] < kept.len()
        &&& out[t].stable_id == kept[perm[t]].stable_id
        &&& out[t].fid == kept[perm[t]].fid
        &&& out[t].attrs@ == kept[perm[t]].attrs
        &&& model_type(out[t].geometry@) == model_type(kept[perm[t]].geometry)
    } by {
        let k = perm[t];
        assert(out[t] == rebuilt[k]);
        assert(rebuilt_record(features[k]@, now) is Ok);
    }
}

} // verus!
