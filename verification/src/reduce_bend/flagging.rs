//! Choice of the bends to reduce: never two neighbours.
use vstd::prelude::*;

use crate::geometry::GeomError;
use vstd::arithmetic::div_mod::{lemma_mod_add_multiples_vanish, lemma_mod_self_0, lemma_small_mod};

verus! {

/// The bend after bend `i` is flagged. On a closed line the last bend's next is the first.
pub open spec fn next_flagged(f: Seq<bool>, closed: bool, i: int) -> bool {
    if f.len() == 0 {
        false
    } else if closed {
        f[(i + 1) % (f.len() as int)]
    } else if i + 1 >= f.len() {
        false
    } else {
        f[i + 1]
    }
}

/// The bend before bend `i` is flagged. On a closed line the first bend's previous is the last.
pub open spec fn prev_flagged(f: Seq<bool>, closed: bool, i: int) -> bool {
    if f.len() == 0 {
        false
    } else if closed {
        f[(i + f.len() - 1) % (f.len() as int)]
    } else if i == 0 {
        false
    } else {
        f[i - 1]
    }
}

/// Whether the bend after bend `i` is to be reduced.
pub fn is_next_bend_to_reduce(flags: &[bool], is_closed: bool, i: usize) -> (r: bool)
    requires
        i < usize::MAX,
    ensures
        r == next_flagged(flags@, is_closed, i as int),
{
    let n = flags.len();
    if n == 0 {
        return false;
    }
    if is_closed {
        flags[(i + 1) % n]
    } else if i + 1 >= n {
        false
    } else {
        flags[i + 1]
    }
}

/// Whether the bend before bend `i` is to be reduced.
pub fn is_previous_bend_to_reduce(flags: &[bool], is_closed: bool, i: usize) -> (r: bool)
    requires
        is_closed ==> i + flags@.len() <= usize::MAX,
        !is_closed ==> i <= flags@.len(),
    ensures
        r == prev_flagged(flags@, is_closed, i as int),
{
    let n = flags.len();
    if n == 0 {
        return false;
    }
    if is_closed {
        flags[(i + n - 1) % n]
    } else if i == 0 {
        false
    } else {
        flags[i - 1]
    }
}

/// The flags after considering bend `i`: it is flagged unless a neighbour already is.
pub open spec fn flag_step(f: Seq<bool>, closed: bool, i: int) -> Seq<bool> {
    if !prev_flagged(f, closed, i) && !next_flagged(f, closed, i) {
        f.update(i, true)
    } else {
        f
    }
}

/// The flags after considering the bends of `order` in turn.
pub open spec fn flag_all(f: Seq<bool>, order: Seq<usize>, closed: bool) -> Seq<bool>
    decreases order.len(),
{
    if order.len() == 0 {
        f
    } else {
        flag_step(flag_all(f, order.drop_last(), closed), closed, order.last() as int)
    }
}

/// Flags the bends of `order` in turn, each unless a neighbouring bend is already flagged.
/// `order` lists the candidates: the bends smaller than the reduction threshold, smallest
/// adjusted area first. A closed line with a single bend is an error.
pub fn flag_bends_in_order(flags: &mut Vec<bool>, order: &[usize], is_closed: bool) -> (r: Result<
    (),
    GeomError,
>)
    requires
        old(flags)@.len() <= usize::MAX / 2,
        forall|k: int| 0 <= k < order@.len() ==> #[trigger] order@[k] < old(flags)@.len(),
    ensures
        is_closed && old(flags)@.len() == 1 ==> r == Err::<(), GeomError>(
            GeomError::ClosedLineWithOneBend,
        ) && final(flags)@ == old(flags)@,
        !(is_closed && old(flags)@.len() == 1) ==> r is Ok && final(flags)@ == flag_all(
            old(flags)@,
            order@,
            is_closed,
        ),
{
    if is_closed && flags.len() == 1 {
        return Err(GeomError::ClosedLineWithOneBend);
    }
    let ghost f0 = flags@;
    let mut k: usize = 0;
    while k < order.len()
        invariant
            k <= order@.len(),
            flags@.len() == f0.len(),
            f0.len() <= usize::MAX / 2,
            forall|u: int| 0 <= u < order@.len() ==> #[trigger] order@[u] < f0.len(),
            flags@ == flag_all(f0, order@.take(k as int), is_closed),
        decreases order.len() - k,
    {
        let i = order[k];
        let prev = is_previous_bend_to_reduce(flags.as_slice(), is_closed, i);
        let next = is_next_bend_to_reduce(flags.as_slice(), is_closed, i);
        if !prev && !next {
            flags.set(i, true);
        }
        proof {
            assert(order@.take(k + 1).drop_last() =~= order@.take(k as int));
            assert(order@.take(k + 1).last() == i);
        }
        k = k + 1;
    }
    proof {
        assert(order@.take(order@.len() as int) =~= order@);
    }
    Ok(())
}

/// No two neighbouring bends are flagged; on a closed line the last and the first are
/// neighbours too.
pub open spec fn no_adjacent_flags(f: Seq<bool>, closed: bool) -> bool {
    &&& forall|k: int| 0 <= k < f.len() - 1 ==> !(#[trigger] f[k] && f[k + 1])
    &&& closed && f.len() >= 2 ==> !(f[f.len() - 1] && f[0])
}

proof fn lemma_flag_step_keeps(f: Seq<bool>, closed: bool, i: int)
    requires
        0 <= i < f.len(),
        no_adjacent_flags(f, closed),
        !(closed && f.len() == 1),
    ensures
        no_adjacent_flags(flag_step(f, closed, i), closed),
        flag_step(f, closed, i).len() == f.len(),
        forall|k: int| 0 <= k < f.len() && #[trigger] f[k] ==> flag_step(f, closed, i)[k],
        flag_step(f, closed, i)[i] || prev_flagged(f, closed, i) || next_flagged(f, closed, i),
        forall|k: int|
            0 <= k < f.len() && k != i ==> flag_step(f, closed, i)[k] == #[trigger] f[k],
{
    let g = flag_step(f, closed, i);
    let n = f.len() as int;
    if !prev_flagged(f, closed, i) && !next_flagged(f, closed, i) {
        assert forall|k: int| 0 <= k < n - 1 implies !(#[trigger] g[k] && g[k + 1]) by {
            if k == i {
                if closed {
                    lemma_small_mod((i + 1) as nat, n as nat);
                }
            } else if k + 1 == i {
                if closed {
                    lemma_mod_add_multiples_vanish(i - 1, n);
                    lemma_small_mod((i - 1) as nat, n as nat);
                }
            }
        }
        if closed && n >= 2 {
            if i == n - 1 {
                lemma_mod_self_0(n);
            }
            if i == 0 {
                lemma_small_mod((n - 1) as nat, n as nat);
            }
        }
    }
}

/// The flags that only ever go on, each considered candidate ends up flagged or beside a
/// flagged neighbour, and no two neighbours are flagged when none were before.
pub open spec fn flagging_laws(f: Seq<bool>, order: Seq<usize>, closed: bool, g: Seq<bool>) -> bool {
    &&& g.len() == f.len()
    &&& no_adjacent_flags(g, closed)
    &&& forall|k: int| 0 <= k < f.len() && #[trigger] f[k] ==> g[k]
    &&& forall|k: int|
        0 <= k < f.len() && #[trigger] g[k] && !f[k] ==> exists|q: int|
            0 <= q < order.len() && order[q] == k
    &&& forall|q: int|
        0 <= q < order.len() ==> #[trigger] g[order[q] as int] || prev_flagged(
            g,
            closed,
            order[q] as int,
        ) || next_flagged(g, closed, order[q] as int)
}

/// Flagging keeps neighbours apart: starting from flags where no two neighbouring bends are
/// flagged, considering the candidates in turn never flags two neighbours, never unflags a
/// bend, flags only candidates, and leaves every candidate flagged or next to a flagged bend.
pub proof fn lemma_flagging_keeps_neighbours_apart(f: Seq<bool>, order: Seq<usize>, closed: bool)
    requires
        no_adjacent_flags(f, closed),
        !(closed && f.len() == 1),
        forall|k: int| 0 <= k < order.len() ==> #[trigger] order[k] < f.len(),
    ensures
        flagging_laws(f, order, closed, flag_all(f, order, closed)),
    decreases order.len(),
{
    if order.len() == 0 {
        return ;
    }
    let rest = order.drop_last();
    let i = order.last() as int;
    lemma_flagging_keeps_neighbours_apart(f, rest, closed);
    let h = flag_all(f, rest, closed);
    let g = flag_all(f, order, closed);
    lemma_flag_step_keeps(h, closed, i);
    assert(g == flag_step(h, closed, i));
    let n = f.len() as int;
    assert forall|k: int| 0 <= k < f.len() && #[trigger] g[k] && !f[k] implies exists|q: int|
        0 <= q < order.len() && order[q] == k by {
        if k == i {
            assert(order[order.len() - 1] == k);
        } else {
            assert(h[k]);
            let q = choose|q: int| 0 <= q < rest.len() && rest[q] == k;
            assert(order[q] == k);
        }
    }
    assert forall|q: int| 0 <= q < order.len() implies #[trigger] g[order[q] as int] || prev_flagged(
        g,
        closed,
        order[q] as int,
    ) || next_flagged(g, closed, order[q] as int) by {
        let j = order[q] as int;
        if q == order.len() - 1 {
            assert(j == i);
        } else {
            assert(rest[q] == order[q]);
            assert(h[j] || prev_flagged(h, closed, j) || next_flagged(h, closed, j));
            if n > 0 && closed {
                let a = (j + 1) % n;
                let b = (j + n - 1) % n;
                assert(0 <= a < n && 0 <= b < n);
                if h[a] {
                    assert(g[a]);
                }
                if h[b] {
                    assert(g[b]);
                }
            }
            if !closed && j + 1 < n && h[j + 1] {
                assert(g[j + 1]);
            }
            if !closed && j > 0 && h[j - 1] {
                assert(g[j - 1]);
            }
        }
    }
}

} // verus!
