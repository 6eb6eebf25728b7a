//! Smaller bends to try when a bend cannot be reduced whole.
use vstd::prelude::*;

verus! {

/// A span strictly inside the bend from `i` to `j` that still has a vertex between its ends:
/// it starts after `i`, ends before `j`, and its end comes at least two vertices after its start.
pub open spec fn is_alternate(i: int, j: int, p: (usize, usize)) -> bool {
    &&& i < p.0
    &&& p.1 < j
    &&& p.0 + 2 <= p.1
}

/// The order in which spans are listed: by end, from the last down, and for one end by start,
/// from the first up.
pub open spec fn listed_before(p: (usize, usize), q: (usize, usize)) -> bool {
    p.1 > q.1 || (p.1 == q.1 && p.0 < q.0)
}

/// Lists the spans strictly inside the bend from `i` to `j` that are tried in its place, before
/// they are ranked by area: each such span once, ends from the last down, and for one end,
/// starts from the first up.
pub fn alternate_spans(i: usize, j: usize) -> (r: Vec<(usize, usize)>)
    ensures
        forall|k: int| 0 <= k < r@.len() ==> is_alternate(i as int, j as int, #[trigger] r@[k]),
        forall|p: (usize, usize)| is_alternate(i as int, j as int, p) ==> r@.contains(p),
        forall|k1: int, k2: int|
            0 <= k1 < k2 < r@.len() ==> listed_before(#[trigger] r@[k1], #[trigger] r@[k2]),
{
    let mut out: Vec<(usize, usize)> = Vec::new();
    if j == 0 {
        return out;
    }
    let mut jp: usize = j - 1;
    while jp >= 2 && jp - 2 > i
        invariant
            jp < j,
            forall|k: int| 0 <= k < out@.len() ==> is_alternate(i as int, j as int, #[trigger] out@[k]),
            forall|k: int| 0 <= k < out@.len() ==> (#[trigger] out@[k]).1 > jp,
            forall|p: (usize, usize)|
                is_alternate(i as int, j as int, p) && p.1 > jp ==> out@.contains(p),
            forall|k1: int, k2: int|
                0 <= k1 < k2 < out@.len() ==> listed_before(#[trigger] out@[k1], #[trigger] out@[k2]),
        decreases jp,
    {
        let mut ip: usize = i + 1;
        while ip <= jp - 2
            invariant
                jp < j,
                jp >= 2,
                i < ip,
                ip <= jp - 1,
                forall|k: int| 0 <= k < out@.len() ==> is_alternate(i as int, j as int, #[trigger] out@[k]),
                forall|k: int|
                    0 <= k < out@.len() ==> (#[trigger] out@[k]).1 > jp || (out@[k].1 == jp
                        && out@[k].0 < ip),
                forall|p: (usize, usize)|
                    is_alternate(i as int, j as int, p) && (p.1 > jp || (p.1 == jp && p.0 < ip))
                        ==> out@.contains(p),
                forall|k1: int, k2: int|
                    0 <= k1 < k2 < out@.len() ==> listed_before(#[trigger] out@[k1], #[trigger] out@[k2]),
            decreases jp - ip,
        {
            let ghost before = out@;
            out.push((ip, jp));
            proof {
                assert(out@ == before.push((ip, jp)));
                assert forall|p: (usize, usize)|
                    is_alternate(i as int, j as int, p) && (p.1 > jp || (p.1 == jp && p.0 < ip + 1))
                        implies out@.contains(p) by {
                    if p == (ip, jp) {
                        assert(out@[before.len() as int] == p);
                    } else {
                        assert(before.contains(p));
                        let k = choose|k: int| 0 <= k < before.len() && before[k] == p;
                        assert(out@[k] == p);
                    }
                }
            }
            ip = ip + 1;
        }
        proof {
            assert forall|p: (usize, usize)| is_alternate(i as int, j as int, p) && p.1 > jp - 1
                implies out@.contains(p) by {
                if p.1 == jp {
                    assert(p.0 < ip);
                }
            }
        }
        jp = jp - 1;
    }
    out
}

} // verus!
