//! Shared state for one pipeline run: per-target states, the touched-file
//! set, and the primary (explicitly requested) targets.
use vstd::prelude::*;
use crate::registry::{string_views, target_views, Target, TargetView};

verus! {

/// Scheduling state of one target within a run.
#[derive(Clone, Copy, Debug, PartialEq, Eq, Structural)]
pub enum TargetState {
    Pending,
    Running,
    Passed,
    Failed,
    Passthrough,
    Skipped,
}

/// States that end a target's participation in scheduling. `Passthrough` is
/// terminal for scheduling purposes even though the underlying persistent
/// process keeps running.
pub open spec fn is_terminal(s: TargetState) -> bool {
    s == TargetState::Passed || s == TargetState::Failed || s == TargetState::Passthrough
        || s == TargetState::Skipped
}

/// Outcome of a state write: performed, refused because the target is
/// already `Passthrough`, or refused as a conflicting terminal overwrite.
#[derive(Clone, Copy, Debug, PartialEq, Eq, Structural)]
pub enum StateWrite {
    Written,
    PassthroughKept,
    TerminalConflict,
}

/// Shared, per-run context: target states keyed by graph node index, the
/// touched-file set, and the primary targets.
pub struct RunContext {
    pub states: Vec<TargetState>,
    pub touched: Vec<String>,
    pub primary: Vec<Target>,
}

impl RunContext {
    /// State recorded for node `i`; `Pending` if never set.
    pub open spec fn spec_state(self, i: int) -> TargetState {
        if 0 <= i < self.states@.len() {
            self.states@[i]
        } else {
            TargetState::Pending
        }
    }

    pub open spec fn touched_views(self) -> Seq<Seq<char>> {
        string_views(self.touched@)
    }

    pub open spec fn primary_views(self) -> Seq<TargetView> {
        target_views(self.primary@)
    }

    /// A fresh context for `n` targets: every state `Pending`, no primary
    /// targets marked.
    pub fn new(n: usize, touched: Vec<String>) -> (r: RunContext)
        ensures
            r.states@ == Seq::new(n as nat, |i: int| TargetState::Pending),
            r.touched@ == touched@,
            r.primary@.len() == 0,
            forall|i: int| r.spec_state(i) == TargetState::Pending,
    {
        let mut states: Vec<TargetState> = Vec::new();
        for k in 0..n
            invariant
                states@ =~= Seq::new(k as nat, |i: int| TargetState::Pending),
        {
            states.push(TargetState::Pending);
        }
        assert(states@ =~= Seq::new(n as nat, |i: int| TargetState::Pending));
        RunContext { states, touched, primary: Vec::new() }
    }

    /// State of node `i`; `Pending` if never set (or out of range).
    pub fn get_target_state(&self, i: usize) -> (s: TargetState)
        ensures
            s == self.spec_state(i as int),
    {
        if i < self.states.len() {
            self.states[i]
        } else {
            TargetState::Pending
        }
    }

    /// Writes node `i`'s state, enforcing the write discipline of
    /// [`set_state_post`]: a `Passthrough` state is never overwritten, and a
    /// terminal state may only be rewritten with the same value.
    pub fn set_target_state(&mut self, i: usize, s: TargetState) -> (r: StateWrite)
        requires
            i < old(self).states@.len(),
        ensures
            set_state_post(*old(self), *final(self), i as int, s, r),
    {
        let cur = self.states[i];
        if cur == TargetState::Passthrough {
            StateWrite::PassthroughKept
        } else if (cur == TargetState::Passed || cur == TargetState::Failed
            || cur == TargetState::Skipped) && cur != s {
            StateWrite::TerminalConflict
        } else {
            self.states.set(i, s);
            StateWrite::Written
        }
    }

    /// Records the explicitly requested targets.
    pub fn mark_primary(&mut self, targets: &Vec<Target>) -> (r: ())
        ensures
            final(self).primary_views() == target_views(targets@),
            final(self).states@ == old(self).states@,
            final(self).touched@ == old(self).touched@,
    {
        let mut primary: Vec<Target> = Vec::new();
        let n = targets.len();
        for k in 0..n
            invariant
                n == targets.len(),
                primary@.len() == k,
                forall|j: int| 0 <= j < k ==> primary@[j]@ == targets@[j]@,
        {
            primary.push(targets[k].duplicate());
        }
        assert(target_views(primary@) =~= target_views(targets@));
        self.primary = primary;
    }

    /// True exactly when `t` was recorded as a primary target.
    pub fn is_primary(&self, t: &Target) -> (r: bool)
        ensures
            r == self.primary_views().contains(t@),
    {
        let n = self.primary.len();
        for k in 0..n
            invariant
                n == self.primary.len(),
                forall|j: int| 0 <= j < k ==> self.primary_views()[j] != t@,
        {
            if self.primary[k].same_as(t) {
                assert(self.primary_views()[k as int] == t@);
                return true;
            }
        }
        assert(forall|j: int| 0 <= j < self.primary_views().len()
            ==> self.primary_views()[j] != t@);
        false
    }
}

/// Full relation between a context before and after one state write for node
/// `i`: an existing `Passthrough` is kept whatever is written; a different
/// value over a terminal state is a reported conflict that changes nothing;
/// every other write lands, and no other node's entry is disturbed.
pub open spec fn set_state_post(
    pre: RunContext,
    post: RunContext,
    i: int,
    s: TargetState,
    r: StateWrite,
) -> bool {
    let cur = pre.spec_state(i);
    &&& post.touched@ == pre.touched@
    &&& post.primary@ == pre.primary@
    &&& if cur == TargetState::Passthrough {
        &&& r == StateWrite::PassthroughKept
        &&& post.states@ == pre.states@
    } else if is_terminal(cur) && cur != s {
        &&& r == StateWrite::TerminalConflict
        &&& post.states@ == pre.states@
    } else {
        &&& r == StateWrite::Written
        &&& post.states@ == pre.states@.update(i, s)
    }
}

/// Law: once a target's state is `Passthrough`, no later write — whatever
/// value it carries — ever changes or overwrites that state.
pub proof fn lemma_passthrough_never_overwritten(
    pre: RunContext,
    post: RunContext,
    i: int,
    s: TargetState,
    r: StateWrite,
)
    requires
        pre.spec_state(i) == TargetState::Passthrough,
        set_state_post(pre, post, i, s, r),
    ensures
        post.spec_state(i) == TargetState::Passthrough,
        r == StateWrite::PassthroughKept,
{
}

} // verus!
