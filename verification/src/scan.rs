use vstd::prelude::*;

use crate::geometry::{MatchResult, SearchState};

verus! {

/// What the driver of a scan must do after a sampled frame.
#[derive(Clone, Copy, Debug, PartialEq, Eq, Structural)]
pub enum ScanAction {
    /// Read the next sampled frame.
    Continue,
    /// The start template matched: search `frame_count` frames from
    /// `left_frame` for the exact first matching frame, then look for the end.
    RefineStart { left_frame: usize, frame_count: usize },
    /// The end template matched: search likewise for the exact end frame; a
    /// clip is complete.
    RefineEnd { left_frame: usize, frame_count: usize },
}

/// The coarse scan over every `step`-th frame: it looks for the start
/// template, then for the end template, and so on.
#[derive(Clone, Copy, Debug, PartialEq, Eq, Structural)]
pub struct Scanner {
    pub state: SearchState,
    /// Index in the video of the frame about to be read.
    pub frame_index: usize,
    pub step: usize,
    pub frames_read: usize,
}

/// `a - b`, or zero when `b > a`.
pub open spec fn sat_sub_usize(a: usize, b: usize) -> usize {
    if a >= b {
        (a - b) as usize
    } else {
        0
    }
}

impl Scanner {
    pub open spec fn initial(step: usize) -> Scanner {
        Scanner { state: SearchState::SearchStart, frame_index: 0, step, frames_read: 0 }
    }

    /// A sampled frame can be taken without overflowing the counters.
    pub open spec fn can_advance(self) -> bool {
        &&& self.frame_index + self.step <= usize::MAX
        &&& self.step < usize::MAX
        &&& self.frames_read < usize::MAX
    }

    /// The scanner after a sampled frame on which the template of the current
    /// phase did (`matched`) or did not match, and the action to take.
    pub open spec fn spec_next(self, matched: bool) -> (Scanner, ScanAction) {
        let left = sat_sub_usize(self.frame_index, self.step);
        let count = (self.step + 1) as usize;
        let next = Scanner {
            state: if matched {
                match self.state {
                    SearchState::SearchStart => SearchState::SearchEnd,
                    SearchState::SearchEnd => SearchState::SearchStart,
                }
            } else {
                self.state
            },
            frame_index: (self.frame_index + self.step) as usize,
            step: self.step,
            frames_read: (self.frames_read + 1) as usize,
        };
        let action = if !matched {
            ScanAction::Continue
        } else {
            match self.state {
                SearchState::SearchStart => ScanAction::RefineStart {
                    left_frame: left,
                    frame_count: count,
                },
                SearchState::SearchEnd => ScanAction::RefineEnd { left_frame: left, frame_count: count },
            }
        };
        (next, action)
    }

    /// A scanner looking for the first start, sampling every `step` frames.
    pub fn new(step: usize) -> (s: Scanner)
        ensures
            s == Scanner::initial(step),
    {
        Scanner { state: SearchState::SearchStart, frame_index: 0, step, frames_read: 0 }
    }

    /// Takes the verdict on the current sampled frame and moves to the next one.
    pub fn on_frame(&mut self, matched: bool) -> (a: ScanAction)
        requires
            old(self).can_advance(),
        ensures
            (*final(self), a) == old(self).spec_next(matched),
    {
        let left = self.frame_index.saturating_sub(self.step);
        let count = self.step + 1;
        let action = if !matched {
            ScanAction::Continue
        } else {
            match self.state {
                SearchState::SearchStart => ScanAction::RefineStart {
                    left_frame: left,
                    frame_count: count,
                },
                SearchState::SearchEnd => ScanAction::RefineEnd { left_frame: left, frame_count: count },
            }
        };
        if matched {
            self.state =
            match self.state {
                SearchState::SearchStart => SearchState::SearchEnd,
                SearchState::SearchEnd => SearchState::SearchStart,
            };
        }
        self.frame_index = self.frame_index + self.step;
        self.frames_read = self.frames_read + 1;
        action
    }

    /// Whether a start was found without a matching end.
    pub fn has_open_clip(&self) -> (b: bool)
        ensures
            b == (self.state == SearchState::SearchEnd),
    {
        match self.state {
            SearchState::SearchStart => false,
            SearchState::SearchEnd => true,
        }
    }
}

/// The scanner and the actions after a sequence of sampled-frame verdicts.
pub open spec fn run(s: Scanner, verdicts: Seq<bool>) -> (Scanner, Seq<ScanAction>)
    decreases verdicts.len(),
{
    if verdicts.len() == 0 {
        (s, Seq::empty())
    } else {
        let (mid, acts) = run(s, verdicts.drop_last());
        let (next, a) = mid.spec_next(verdicts.last());
        (next, acts.push(a))
    }
}

/// Whether each refinement among `acts` was a start (`true`) or an end.
pub open spec fn refinement_kinds(acts: Seq<ScanAction>) -> Seq<bool>
    decreases acts.len(),
{
    if acts.len() == 0 {
        Seq::empty()
    } else {
        let k = refinement_kinds(acts.drop_last());
        match acts.last() {
            ScanAction::Continue => k,
            ScanAction::RefineStart { .. } => k.push(true),
            ScanAction::RefineEnd { .. } => k.push(false),
        }
    }
}

/// Over any run from the initial scanner, starts and ends alternate,
/// beginning with a start; a clip is open exactly when the refinements are
/// odd in number; the sampled frame index advances by `step` per frame; and
/// each refinement searches `step + 1` frames from one step before the
/// frame that matched.
pub proof fn law_scan_alternates(step: usize, verdicts: Seq<bool>)
    requires
        (verdicts.len() + 1) * step <= usize::MAX,
        step < usize::MAX,
        verdicts.len() < usize::MAX,
    ensures
        ({
            let (s, acts) = run(Scanner::initial(step), verdicts);
            let kinds = refinement_kinds(acts);
            &&& acts.len() == verdicts.len()
            &&& forall|k: int| 0 <= k < kinds.len() ==> #[trigger] kinds[k] == (k % 2 == 0)
            &&& (s.state == SearchState::SearchEnd <==> kinds.len() % 2 == 1)
            &&& s.frame_index == verdicts.len() * step
            &&& s.frames_read == verdicts.len()
            &&& s.step == step
            &&& forall|i: int|
                #![trigger acts[i]]
                0 <= i < acts.len() ==> match acts[i] {
                    ScanAction::Continue => !verdicts[i],
                    ScanAction::RefineStart { left_frame, frame_count } => verdicts[i]
                        && left_frame == sat_sub_usize((i * step) as usize, step) && frame_count
                        == step + 1,
                    ScanAction::RefineEnd { left_frame, frame_count } => verdicts[i]
                        && left_frame == sat_sub_usize((i * step) as usize, step) && frame_count
                        == step + 1,
                }
        }),
    decreases verdicts.len(),
{
    if verdicts.len() > 0 {
        let n = verdicts.len() - 1;
        assert((n + 1) * step == n * step + step) by (nonlinear_arith);
        assert((n + 1) * step <= (verdicts.len() + 1) * step) by (nonlinear_arith)
            requires
                n + 1 <= verdicts.len() + 1,
        ;
        law_scan_alternates(step, verdicts.drop_last());
        let (mid, acts0) = run(Scanner::initial(step), verdicts.drop_last());
        let (s, acts) = run(Scanner::initial(step), verdicts);
        assert(acts == acts0.push(mid.spec_next(verdicts.last()).1));
        let k0 = refinement_kinds(acts0);
        assert(acts.drop_last() =~= acts0);
        assert forall|i: int| #![trigger acts[i]] 0 <= i < acts.len() implies match acts[i] {
            ScanAction::Continue => !verdicts[i],
            ScanAction::RefineStart { left_frame, frame_count } => verdicts[i] && left_frame
                == sat_sub_usize((i * step) as usize, step) && frame_count == step + 1,
            ScanAction::RefineEnd { left_frame, frame_count } => verdicts[i] && left_frame
                == sat_sub_usize((i * step) as usize, step) && frame_count == step + 1,
        } by {
            if i < n {
                assert(acts[i] == acts0[i]);
                assert(verdicts[i] == verdicts.drop_last()[i]);
            }
        }
    }
}

/// Which result a frame of the result screen shows: a win template match
/// takes precedence over a lose template match.
pub open spec fn spec_frame_verdict(win_hit: bool, lose_hit: bool) -> Option<MatchResult> {
    if win_hit {
        Some(MatchResult::Win)
    } else if lose_hit {
        Some(MatchResult::Lose)
    } else {
        None
    }
}

pub fn frame_verdict(win_hit: bool, lose_hit: bool) -> (r: Option<MatchResult>)
    ensures
        r == spec_frame_verdict(win_hit, lose_hit),
{
    if win_hit {
        Some(MatchResult::Win)
    } else if lose_hit {
        Some(MatchResult::Lose)
    } else {
        None
    }
}

/// A result probe runs only when some frames are to be read and some
/// template region is given; otherwise the result is `Skipped`.
pub open spec fn spec_result_probe_runs(win_offset: usize, has_win: bool, has_lose: bool) -> bool {
    win_offset != 0 && (has_win || has_lose)
}

pub fn result_probe_runs(win_offset: usize, has_win: bool, has_lose: bool) -> (b: bool)
    ensures
        b == spec_result_probe_runs(win_offset, has_win, has_lose),
{
    win_offset != 0 && (has_win || has_lose)
}

/// A result-screen frame on which the win template matches is a win; one on
/// which only the lose template matches is a loss; one on which neither
/// matches decides nothing.
pub proof fn law_frame_verdict(win_hit: bool, lose_hit: bool)
    ensures
        win_hit ==> spec_frame_verdict(win_hit, lose_hit) == Some(MatchResult::Win),
        !win_hit && lose_hit ==> spec_frame_verdict(win_hit, lose_hit) == Some(MatchResult::Lose),
        !win_hit && !lose_hit ==> spec_frame_verdict(win_hit, lose_hit) is None,
{
}

/// The result probe is skipped exactly when no frames are to be read or no
/// result template is given.
pub proof fn law_result_probe_runs(win_offset: usize, has_win: bool, has_lose: bool)
    ensures
        win_offset == 0 ==> !spec_result_probe_runs(win_offset, has_win, has_lose),
        !has_win && !has_lose ==> !spec_result_probe_runs(win_offset, has_win, has_lose),
        win_offset > 0 && has_win ==> spec_result_probe_runs(win_offset, has_win, has_lose),
        win_offset > 0 && has_lose ==> spec_result_probe_runs(win_offset, has_win, has_lose),
{
}

} // verus!
