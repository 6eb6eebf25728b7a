//! Douglas-Peucker simplification: the ranges of a line that are still to be simplified,
//! what a run reports, and how its passes are counted.
use vstd::prelude::*;

verus! {

/// Counts reported by a simplification run.
#[derive(Debug, Clone, Copy, PartialEq, Eq)]
pub struct SimplifyStats {
    pub in_nbr_features: usize,
    pub out_nbr_features: usize,
    pub nbr_vertice_deleted: usize,
    pub nbr_pass: usize,
    pub is_structure_valid: Option<bool>,
}

/// Progress of a simplification run: the line being processed and the pass.
#[derive(Debug, Clone, Copy, PartialEq, Eq)]
pub struct SimplifyProgress {
    pub current_feature: usize,
    pub total_features: usize,
    pub current_pass: usize,
}

impl SimplifyStats {
    /// The counts of a run over `in_nbr_features` features, before its first pass.
    pub fn new(in_nbr_features: usize) -> (s: SimplifyStats)
        ensures
            s == (SimplifyStats {
                in_nbr_features,
                out_nbr_features: 0,
                nbr_vertice_deleted: 0,
                nbr_pass: 0,
                is_structure_valid: None,
            }),
    {
        SimplifyStats {
            in_nbr_features,
            out_nbr_features: 0,
            nbr_vertice_deleted: 0,
            nbr_pass: 0,
            is_structure_valid: None,
        }
    }

    /// Starts a pass over the lines.
    pub fn begin_pass(&mut self)
        requires
            old(self).nbr_pass < usize::MAX,
        ensures
            *final(self) == (SimplifyStats { nbr_pass: (old(self).nbr_pass + 1) as usize, ..*old(self) }),
    {
        self.nbr_pass = self.nbr_pass + 1;
    }

    /// Ends a pass that deleted `deleted` vertices, and tells whether another pass is due:
    /// the run goes on until a pass deletes nothing.
    pub fn end_pass(&mut self, deleted: usize) -> (again: bool)
        requires
            old(self).nbr_vertice_deleted + deleted <= usize::MAX,
        ensures
            again == (deleted > 0),
            *final(self) == (SimplifyStats {
                nbr_vertice_deleted: (old(self).nbr_vertice_deleted + deleted) as usize,
                ..*old(self)
            }),
    {
        self.nbr_vertice_deleted = self.nbr_vertice_deleted + deleted;
        deleted > 0
    }
}

/// What was learnt about the range being simplified.
#[derive(Debug, Clone, Copy, PartialEq, Eq, Structural)]
pub enum DpEvent {
    /// The vertex of the range farthest from its chord, and whether it lies within the tolerance.
    Measured { farthest: usize, within: bool },
    /// Whether replacing the range by its chord keeps the line simple and its neighbours apart.
    Validated(bool),
    /// After a refused replacement, the farthest vertex measured again on the current line.
    Remeasured { farthest: usize, within: bool },
}

/// What to do next with the range being simplified.
#[derive(Debug, Clone, Copy, PartialEq, Eq, Structural)]
pub enum DpAction {
    /// Check whether the range can be replaced by its chord.
    Validate,
    /// Delete the vertices from the first to the last given, then go on with the next range.
    Delete(usize, usize),
    /// Measure the farthest vertex of the range again.
    Remeasure,
    /// Go on with the next range.
    Next,
}

/// The action that follows an event on the range `first..last`.
pub open spec fn dp_action(first: usize, last: usize, ev: DpEvent) -> DpAction {
    match ev {
        DpEvent::Measured { within, .. } => if within {
            DpAction::Validate
        } else {
            DpAction::Next
        },
        DpEvent::Validated(ok) => if ok {
            DpAction::Delete((first + 1) as usize, (last - 1) as usize)
        } else {
            DpAction::Remeasure
        },
        DpEvent::Remeasured { .. } => DpAction::Next,
    }
}

/// The event splits the range at its farthest vertex: the vertex lies beyond the tolerance, or
/// it was measured again after a refused replacement and lies within it.
pub open spec fn dp_splits(ev: DpEvent) -> bool {
    match ev {
        DpEvent::Measured { within, .. } => !within,
        DpEvent::Remeasured { within, .. } => within,
        DpEvent::Validated(_) => false,
    }
}

/// The vertex the event splits at.
pub open spec fn dp_split_at(ev: DpEvent) -> usize {
    match ev {
        DpEvent::Measured { farthest, .. } => farthest,
        DpEvent::Remeasured { farthest, .. } => farthest,
        DpEvent::Validated(_) => 0,
    }
}

/// The decisions of a step, said of the range itself: an accepted replacement of `first..last`
/// deletes exactly its inner vertices, from `first + 1` to `last - 1`, which are
/// `last - first - 1` vertices; a refused one asks for the farthest vertex again; a vertex
/// within the tolerance asks for the replacement to be checked, one beyond it moves on after
/// splitting; a second measure always moves on.
pub proof fn lemma_dp_action_meaning(first: usize, last: usize, ev: DpEvent)
    requires
        first + 1 < last,
    ensures
        ev == DpEvent::Validated(true) ==> (dp_action(first, last, ev) matches DpAction::Delete(
            s,
            e,
        ) && s == first + 1 && e == last - 1 && e - s + 1 == last - first - 1),
        ev == DpEvent::Validated(false) ==> dp_action(first, last, ev) == DpAction::Remeasure,
        ev matches DpEvent::Measured { within, .. } ==> dp_action(first, last, ev) == if within {
            DpAction::Validate
        } else {
            DpAction::Next
        },
        ev matches DpEvent::Measured { within, farthest } ==> (dp_splits(ev) == !within
            && dp_split_at(ev) == farthest),
        ev matches DpEvent::Remeasured { within, farthest } ==> (dp_action(first, last, ev)
            == DpAction::Next && dp_splits(ev) == within && dp_split_at(ev) == farthest),
        ev is Validated ==> !dp_splits(ev),
{
}

/// A range of vertices, from `r.0` to `r.1`, that has a vertex strictly inside it and lies
/// within a line of `n` vertices.
pub open spec fn is_live(r: (usize, usize), n: int) -> bool {
    r.0 + 1 < r.1 && r.1 < n
}

/// The next range worth looking at, taken from the top of the stack `s`, and the stack that
/// is left: ranges on top that are not live on a line of `n` vertices are dropped.
pub open spec fn take_live(s: Seq<(usize, usize)>, n: int) -> (Option<(usize, usize)>, Seq<(usize, usize)>)
    decreases s.len(),
{
    if s.len() == 0 {
        (None, s)
    } else if is_live(s.last(), n) {
        (Some(s.last()), s.drop_last())
    } else {
        take_live(s.drop_last(), n)
    }
}

/// Taking the next range only drops ranges from the top of the stack: what is left is the
/// bottom of the stack; the range taken is the one just above it and is live; and every range
/// dropped above it is not.
pub proof fn lemma_take_live_from_top(s: Seq<(usize, usize)>, n: int)
    ensures
        take_live(s, n).1.len() <= s.len(),
        take_live(s, n).1 == s.take(take_live(s, n).1.len() as int),
        take_live(s, n).0 matches Some(p) ==> take_live(s, n).1.len() < s.len() && s[take_live(
            s,
            n,
        ).1.len() as int] == p && is_live(p, n),
        take_live(s, n).0 is Some ==> forall|k: int|
            take_live(s, n).1.len() < k < s.len() ==> !is_live(#[trigger] s[k], n),
        take_live(s, n).0 is None ==> take_live(s, n).1.len() == 0 && forall|k: int|
            0 <= k < s.len() ==> !is_live(#[trigger] s[k], n),
    decreases s.len(),
{
    if s.len() > 0 {
        if is_live(s.last(), n) {
            assert(s.drop_last() =~= s.take(s.len() - 1));
        } else {
            let d = s.drop_last();
            lemma_take_live_from_top(d, n);
            assert(take_live(s, n) == take_live(d, n));
            let rest = take_live(d, n).1;
            assert(d.take(rest.len() as int) =~= s.take(rest.len() as int));
            assert forall|k: int| rest.len() < k < s.len() implies !is_live(#[trigger] s[k], n) by {
                if k < s.len() - 1 {
                    assert(s[k] == d[k]);
                }
            }
            if take_live(d, n).0 is None {
                assert forall|k: int| 0 <= k < s.len() implies !is_live(#[trigger] s[k], n) by {
                    if k < s.len() - 1 {
                        assert(s[k] == d[k]);
                    }
                }
            } else {
                assert(s[rest.len() as int] == d[rest.len() as int]);
            }
        }
    } else {
        assert(s.take(0) =~= s);
    }
}

/// The work list of one line: the ranges still to be simplified, last pushed on top, how many
/// vertices were deleted, and whether every range so far could be replaced by its chord.
#[derive(Debug, Clone, PartialEq, Eq)]
pub struct DpStack {
    pub ranges: Vec<(usize, usize)>,
    pub deleted: usize,
    pub is_simplest: bool,
}

impl DpStack {
    /// Starts with the ranges a line is first cut into.
    pub fn new(ranges: Vec<(usize, usize)>) -> (d: DpStack)
        ensures
            d.ranges@ == ranges@,
            d.deleted == 0,
            d.is_simplest,
    {
        DpStack { ranges, deleted: 0, is_simplest: true }
    }

    /// Takes the next range to simplify on a line of `n_coords` vertices; ranges without an
    /// inner vertex, or that reach past the line, are dropped on the way. `None` once the
    /// stack holds no such range, and then it is empty.
    pub fn next_range(&mut self, n_coords: usize) -> (r: Option<(usize, usize)>)
        ensures
            r == take_live(old(self).ranges@, n_coords as int).0,
            final(self).ranges@ == take_live(old(self).ranges@, n_coords as int).1,
            r matches Some(p) ==> is_live(p, n_coords as int),
            r is None ==> final(self).ranges@.len() == 0,
            final(self).deleted == old(self).deleted,
            final(self).is_simplest == old(self).is_simplest,
    {
        loop
            invariant
                take_live(self.ranges@, n_coords as int) == take_live(old(self).ranges@, n_coords as int),
                self.deleted == old(self).deleted,
                self.is_simplest == old(self).is_simplest,
            decreases self.ranges@.len(),
        {
            let ghost s = self.ranges@;
            match self.ranges.pop() {
                None => {
                    assert(take_live(s, n_coords as int) == (None::<(usize, usize)>, s));
                    return None;
                },
                Some(p) => {
                    assert(p == s.last() && self.ranges@ == s.drop_last());
                    if p.0 < p.1 && p.1 - p.0 >= 2 && p.1 < n_coords {
                        assert(take_live(s, n_coords as int) == (Some(p), self.ranges@));
                        return Some(p);
                    }
                },
            }
        }
    }

    /// Splits the range `first..last` at `mid`: both halves go on the stack, the one ending at
    /// `last` on top.
    pub fn split(&mut self, first: usize, mid: usize, last: usize)
        ensures
            final(self).ranges@ == old(self).ranges@.push((first, mid)).push((mid, last)),
            final(self).deleted == old(self).deleted,
            final(self).is_simplest == old(self).is_simplest,
    {
        self.ranges.push((first, mid));
        self.ranges.push((mid, last));
    }

    /// Replaces the range `first..last` by its chord: counts its inner vertices as deleted and
    /// gives the first and last of them.
    pub fn reduce(&mut self, first: usize, last: usize) -> (r: (usize, usize))
        requires
            first + 1 < last,
            old(self).deleted + (last - first - 1) <= usize::MAX,
        ensures
            r.0 == first + 1,
            r.1 == last - 1,
            final(self).deleted == old(self).deleted + (last - first - 1),
            final(self).ranges@ == old(self).ranges@,
            final(self).is_simplest == old(self).is_simplest,
    {
        self.deleted = self.deleted + (last - first - 1);
        (first + 1, last - 1)
    }

    /// Takes one decision on the range `first..last` from what was learnt about it. A vertex
    /// beyond the tolerance splits the range there; one within it asks for the replacement to
    /// be checked. An accepted replacement deletes the inner vertices; a refused one marks the
    /// line as not simplest and asks for the farthest vertex again, and the range is then split
    /// there when that vertex lies within the tolerance.
    pub fn step(&mut self, first: usize, last: usize, ev: DpEvent) -> (a: DpAction)
        requires
            ev == DpEvent::Validated(true) ==> first + 1 < last && old(self).deleted + (last
                - first - 1) <= usize::MAX,
        ensures
            a == dp_action(first, last, ev),
            ev == DpEvent::Validated(true) ==> a == DpAction::Delete(
                (first + 1) as usize,
                (last - 1) as usize,
            ) && final(self).deleted == old(self).deleted + (last - first - 1),
            ev == DpEvent::Validated(false) ==> a == DpAction::Remeasure,
            ev matches DpEvent::Measured { within, .. } ==> a == if within {
                DpAction::Validate
            } else {
                DpAction::Next
            },
            ev is Remeasured ==> a == DpAction::Next,
            final(self).ranges@ == if dp_splits(ev) {
                old(self).ranges@.push((first, dp_split_at(ev))).push((dp_split_at(ev), last))
            } else {
                old(self).ranges@
            },
            final(self).deleted == if ev == DpEvent::Validated(true) {
                old(self).deleted + (last - first - 1)
            } else {
                old(self).deleted as int
            },
            final(self).is_simplest == (old(self).is_simplest && ev != DpEvent::Validated(false)),
    {
        match ev {
            DpEvent::Measured { farthest, within } => {
                if within {
                    DpAction::Validate
                } else {
                    self.split(first, farthest, last);
                    DpAction::Next
                }
            },
            DpEvent::Validated(ok) => {
                if ok {
                    let (start, end) = self.reduce(first, last);
                    DpAction::Delete(start, end)
                } else {
                    self.keep();
                    DpAction::Remeasure
                }
            },
            DpEvent::Remeasured { farthest, within } => {
                if within {
                    self.split(first, farthest, last);
                }
                DpAction::Next
            },
        }
    }

    /// Records that a range could not be replaced by its chord.
    pub fn keep(&mut self)
        ensures
            final(self).ranges@ == old(self).ranges@,
            final(self).deleted == old(self).deleted,
            !final(self).is_simplest,
    {
        self.is_simplest = false;
    }
}

} // verus!
