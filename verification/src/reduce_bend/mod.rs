//! Bend reduction: bends of a line are found between its inflexions, the small ones are
//! flagged, and each flagged bend is replaced by the segment between its ends.
pub mod alternate;
pub mod detection;
pub mod flagging;
pub mod pre_process;

use vstd::prelude::*;

verus! {

/// Counts reported by a bend reduction run.
#[derive(Debug, Clone, Copy, PartialEq, Eq)]
pub struct ReduceBendStats {
    pub in_nbr_features: usize,
    pub out_nbr_features: usize,
    pub nbr_bend_reduced: usize,
    pub nbr_bend_detected: usize,
    pub nbr_hole_del: usize,
    pub nbr_pol_del: usize,
    pub nbr_line_smooth: usize,
    pub nbr_pass: usize,
    pub is_structure_valid: Option<bool>,
}

/// Progress of a bend reduction run: the line being processed and the pass.
#[derive(Debug, Clone, Copy, PartialEq, Eq)]
pub struct ReduceBendProgress {
    pub current_feature: usize,
    pub total_features: usize,
    pub current_pass: usize,
}

impl ReduceBendStats {
    /// The counts of a run over `in_nbr_features` features, after the pre-filter deleted
    /// `nbr_pol_del` polygons and `nbr_hole_del` holes, before its first pass.
    pub fn new(in_nbr_features: usize, nbr_hole_del: usize, nbr_pol_del: usize) -> (s: ReduceBendStats)
        ensures
            s == (ReduceBendStats {
                in_nbr_features,
                out_nbr_features: 0,
                nbr_bend_reduced: 0,
                nbr_bend_detected: 0,
                nbr_hole_del,
                nbr_pol_del,
                nbr_line_smooth: 0,
                nbr_pass: 0,
                is_structure_valid: None,
            }),
    {
        ReduceBendStats {
            in_nbr_features,
            out_nbr_features: 0,
            nbr_bend_reduced: 0,
            nbr_bend_detected: 0,
            nbr_hole_del,
            nbr_pol_del,
            nbr_line_smooth: 0,
            nbr_pass: 0,
            is_structure_valid: None,
        }
    }

    /// Starts a pass over the lines.
    pub fn begin_pass(&mut self)
        requires
            old(self).nbr_pass < usize::MAX,
        ensures
            *final(self) == (ReduceBendStats { nbr_pass: (old(self).nbr_pass + 1) as usize, ..*old(self) }),
    {
        self.nbr_pass = self.nbr_pass + 1;
    }

    /// Ends a pass that reduced `reduced` bends after detecting `detected` new ones, and tells
    /// whether another pass is due: the run goes on until a pass reduces no bend. Only the
    /// bends detected in the first pass are counted.
    pub fn end_pass(&mut self, reduced: usize, detected: usize) -> (again: bool)
        requires
            old(self).nbr_bend_reduced + reduced <= usize::MAX,
        ensures
            again == (reduced > 0),
            *final(self) == (ReduceBendStats {
                nbr_bend_reduced: (old(self).nbr_bend_reduced + reduced) as usize,
                nbr_bend_detected: if old(self).nbr_pass == 1 {
                    detected
                } else {
                    old(self).nbr_bend_detected
                },
                ..*old(self)
            }),
    {
        self.nbr_bend_reduced = self.nbr_bend_reduced + reduced;
        if self.nbr_pass == 1 {
            self.nbr_bend_detected = detected;
        }
        reduced > 0
    }
}

/// What a pass does with one line.
#[derive(Debug, Clone, Copy, PartialEq, Eq, Structural)]
pub enum LineStep {
    /// The line is as simple as it gets: nothing to do.
    Skip,
    /// The line has no bends yet: find and flag them, then reduce.
    DetectThenReduce,
    /// The bends found in an earlier pass still hold: reduce.
    Reduce,
}

/// Decides what a pass does with a line: a line that is as simple as it gets is skipped;
/// the bends of the others are found again once a reduction made them stale.
pub fn line_step(is_simplest: bool, has_bends: bool) -> (r: LineStep)
    ensures
        r == if is_simplest {
            LineStep::Skip
        } else if has_bends {
            LineStep::Reduce
        } else {
            LineStep::DetectThenReduce
        },
{
    if is_simplest {
        LineStep::Skip
    } else if has_bends {
        LineStep::Reduce
    } else {
        LineStep::DetectThenReduce
    }
}

/// What to do with the bend a pass tries.
#[derive(Debug, Clone, Copy, PartialEq, Eq, Structural)]
pub enum BendStep {
    /// Check whether the bend can be replaced by the segment between its ends.
    Validate,
    /// Reduce the bend: delete its vertices from `start` to `end`, counted over the closing
    /// point when `start` comes after `end`.
    Reduce { start: usize, end: usize },
    /// Leave the bend as it is.
    Leave,
}

/// The first decision on a tried bend: one that is not flagged is left as it is, a flagged one
/// is checked.
pub fn bend_first_step(to_reduce: bool) -> (r: BendStep)
    ensures
        r == if to_reduce {
            BendStep::Validate
        } else {
            BendStep::Leave
        },
{
    if to_reduce {
        BendStep::Validate
    } else {
        BendStep::Leave
    }
}

/// The decision once the bend from `i` to `j` was checked: a valid bend is reduced by deleting
/// the vertices strictly between its ends (when the bend ends at the first vertex, the last
/// one deleted is the vertex before the closing point, written `usize::MAX` as `0 - 1`
/// wraps to), an invalid one is left.
pub fn bend_after_validation(valid: bool, i: usize, j: usize) -> (r: BendStep)
    requires
        i < usize::MAX,
    ensures
        r == if valid {
            BendStep::Reduce {
                start: (i + 1) as usize,
                end: if j == 0 {
                    usize::MAX
                } else {
                    (j - 1) as usize
                },
            }
        } else {
            BendStep::Leave
        },
{
    if valid {
        let end = if j == 0 {
            usize::MAX
        } else {
            j - 1
        };
        BendStep::Reduce { start: i + 1, end }
    } else {
        BendStep::Leave
    }
}

/// The bends of a line in the order they are tried: from the last to the first; on a closed
/// line with at least two bends, the first and the last are left out (they meet over the
/// closing point and are tried only when no other bend was reduced).
pub open spec fn visit_order(n: int, closed: bool) -> Seq<usize> {
    if closed && n >= 2 {
        Seq::new((n - 2) as nat, |k: int| (n - 2 - k) as usize)
    } else {
        Seq::new(
            if n > 0 {
                n as nat
            } else {
                0
            },
            |k: int| (n - 1 - k) as usize,
        )
    }
}

/// The bends are tried each once, from the last down (as many as there are in the range, each
/// in it, none twice): on an open line, or on a closed line
/// with a single bend, every bend; on a closed line with at least two bends, every bend but
/// the first and the last.
pub proof fn lemma_visit_order_meaning(n: int, closed: bool)
    requires
        0 <= n <= usize::MAX,
    ensures
        ({
            let o = visit_order(n, closed);
            let lo: int = if closed && n >= 2 { 1 } else { 0 };
            let hi: int = if closed && n >= 2 { n - 1 } else { n };
            &&& o.len() == hi - lo
            &&& forall|k: int| 0 <= k < o.len() ==> lo <= #[trigger] o[k] < hi
            &&& forall|k1: int, k2: int| 0 <= k1 < k2 < o.len() ==> #[trigger] o[k1] > #[trigger] o[k2]
        }),
{
    let o = visit_order(n, closed);
    let hi: int = if closed && n >= 2 { n - 1 } else { n };
    assert forall|k: int| 0 <= k < o.len() implies #[trigger] o[k] == hi - 1 - k by {}
}

/// What a pass over the bends of one line does next.
#[derive(Debug, Clone, Copy, PartialEq, Eq, Structural)]
pub enum BendAction {
    /// Try to reduce the bend with this index (skip it unless it is flagged and its
    /// replacement is valid) and report with [`BendPass::record`] whether it was reduced.
    Try(usize),
    /// The pass is over: `reduced` bends were reduced; when `forget_bends` holds the bends
    /// of the line are stale and are dropped; when `simplest` holds the line had no bend.
    Finish { reduced: usize, forget_bends: bool, simplest: bool },
}

/// A pass over the bends of one line: the bends of [`visit_order`] are tried in turn; on a
/// closed line where none of them was reduced, the first and then the last bend are tried,
/// and the pass stops at the first of the two that is reduced.
#[derive(Debug, Clone, Copy, PartialEq, Eq, Structural)]
pub struct BendPass {
    pub n_bends: usize,
    pub closed: bool,
    /// How many bends were tried so far.
    pub step: usize,
    /// How many of them were reduced.
    pub reduced: usize,
}

/// How many bends the second phase of a pass may try.
pub open spec fn fallback_len(n: int, closed: bool) -> int {
    if closed && n >= 1 {
        2
    } else {
        0
    }
}

/// The most steps a pass takes.
pub open spec fn pass_len(n: int, closed: bool) -> int {
    visit_order(n, closed).len() + fallback_len(n, closed)
}

impl BendPass {
    /// A pass that can be reached from its start.
    pub open spec fn wf(self) -> bool {
        &&& self.reduced <= self.step <= pass_len(self.n_bends as int, self.closed)
        &&& self.step > visit_order(self.n_bends as int, self.closed).len() ==> self.reduced <= 1
    }

    /// The action of the pass in this state.
    pub open spec fn action(self) -> BendAction {
        let order = visit_order(self.n_bends as int, self.closed);
        if self.step < order.len() {
            BendAction::Try(order[self.step as int])
        } else if self.step < pass_len(self.n_bends as int, self.closed) && self.reduced == 0 {
            BendAction::Try(
                if self.step == order.len() {
                    0usize
                } else {
                    (self.n_bends - 1) as usize
                },
            )
        } else {
            BendAction::Finish {
                reduced: self.reduced,
                forget_bends: self.reduced > 0,
                simplest: self.n_bends == 0,
            }
        }
    }

    /// Starts a pass over `n_bends` bends of a line.
    pub fn new(n_bends: usize, is_closed: bool) -> (p: BendPass)
        ensures
            p == (BendPass { n_bends, closed: is_closed, step: 0, reduced: 0 }),
            p.wf(),
    {
        BendPass { n_bends, closed: is_closed, step: 0, reduced: 0 }
    }

    /// What the pass does next.
    pub fn next_action(&self) -> (a: BendAction)
        requires
            self.wf(),
        ensures
            a == self.action(),
            a matches BendAction::Try(k) ==> k < self.n_bends,
    {
        let two_ends = self.closed && self.n_bends >= 2;
        let main_len: usize = if two_ends {
            self.n_bends - 2
        } else {
            self.n_bends
        };
        let extra: usize = if self.closed && self.n_bends >= 1 {
            2
        } else {
            0
        };
        if self.step < main_len {
            if two_ends {
                BendAction::Try(self.n_bends - 2 - self.step)
            } else {
                BendAction::Try(self.n_bends - 1 - self.step)
            }
        } else if self.step - main_len < extra && self.reduced == 0 {
            if self.step == main_len {
                BendAction::Try(0)
            } else {
                BendAction::Try(self.n_bends - 1)
            }
        } else {
            BendAction::Finish {
                reduced: self.reduced,
                forget_bends: self.reduced > 0,
                simplest: self.n_bends == 0,
            }
        }
    }

    /// Records whether the bend just tried was reduced.
    pub fn record(&mut self, was_reduced: bool)
        requires
            old(self).wf(),
            old(self).action() is Try,
        ensures
            *final(self) == (BendPass {
                step: (old(self).step + 1) as usize,
                reduced: (old(self).reduced + if was_reduced { 1int } else { 0int }) as usize,
                ..*old(self)
            }),
            final(self).wf(),
    {
        self.step = self.step + 1;
        if was_reduced {
            self.reduced = self.reduced + 1;
        }
    }
}

/// A pass never runs past its last step: once `pass_len` bends were tried it finishes, having
/// reduced no more bends than it tried; and once it has gone on to the end bends of a closed
/// line, it reduces at most one of them.
pub proof fn lemma_pass_finishes(p: BendPass)
    requires
        p.wf(),
        p.step == pass_len(p.n_bends as int, p.closed),
    ensures
        p.action() matches BendAction::Finish { reduced, .. } && reduced <= p.step,
        p.step > visit_order(p.n_bends as int, p.closed).len() ==> p.reduced <= 1,
{
}

} // verus!
