//! Per-target execution record and the per-target runner: turns a task's
//! ordered operation outcomes into one final status, a flakiness flag, and
//! exactly one committed target-state transition.
use vstd::prelude::*;
use crate::context::{RunContext, TargetState};
use crate::graph::GraphError;
use crate::registry::{find_task, ProjectConfig, Target, TaskView};

verus! {

/// Final status of one target's execution record.
#[derive(Clone, Copy, Debug, PartialEq, Eq, Structural)]
pub enum TaskResultStatus {
    Passed,
    Failed,
    Invalid,
    Skipped,
}

/// Outcome of one attempt of a task's underlying work.
#[derive(Clone, Copy, Debug, PartialEq, Eq, Structural)]
pub enum OperationStatus {
    Passed,
    Failed,
    Skipped,
}

/// One attempt (or retry) of the task's underlying work.
#[derive(Clone, Copy, Debug, PartialEq, Eq, Structural)]
pub struct Operation {
    pub status: OperationStatus,
}

/// The per-target execution record: final status, the ordered operation
/// attempts it aggregates, the flakiness flag, and the failure policy copied
/// from the task when execution began.
pub struct Action {
    pub status: TaskResultStatus,
    pub flaky: bool,
    pub allow_failure: bool,
    pub operations: Vec<Operation>,
}

impl Action {
    /// A fresh record: no operations yet, not flaky, failures not allowed
    /// until the task's policy is copied on.
    pub fn new() -> (r: Action)
        ensures
            r.status == TaskResultStatus::Skipped,
            r.flaky == false,
            r.allow_failure == false,
            r.operations@.len() == 0,
    {
        Action {
            status: TaskResultStatus::Skipped,
            flaky: false,
            allow_failure: false,
            operations: Vec::new(),
        }
    }

    pub fn has_failed(&self) -> (r: bool)
        ensures
            r == (self.status == TaskResultStatus::Failed),
    {
        self.status == TaskResultStatus::Failed
    }
}

/// An operation sequence is flaky when some failed attempt is followed by a
/// later passing attempt of the same work.
pub open spec fn spec_is_flaky(ops: Seq<Operation>) -> bool {
    exists|i: int, j: int|
        0 <= i < j < ops.len() && ops[i].status == OperationStatus::Failed
            && ops[j].status == OperationStatus::Passed
}

/// Final status of an operation sequence: the status of the last operation;
/// a sequence with no operations at all counts as entirely skipped.
pub open spec fn spec_final_status(ops: Seq<Operation>) -> TaskResultStatus {
    if ops.len() == 0 {
        TaskResultStatus::Skipped
    } else {
        match ops.last().status {
            OperationStatus::Passed => TaskResultStatus::Passed,
            OperationStatus::Failed => TaskResultStatus::Failed,
            OperationStatus::Skipped => TaskResultStatus::Skipped,
        }
    }
}

/// The target state that a final status commits.
pub open spec fn state_of_status(s: TaskResultStatus) -> TargetState {
    match s {
        TaskResultStatus::Passed => TargetState::Passed,
        TaskResultStatus::Failed => TargetState::Failed,
        TaskResultStatus::Invalid => TargetState::Failed,
        TaskResultStatus::Skipped => TargetState::Skipped,
    }
}

/// True iff a failed attempt is followed by a later passing attempt.
pub fn compute_flaky(ops: &Vec<Operation>) -> (r: bool)
    ensures
        r == spec_is_flaky(ops@),
{
    let mut seen_failed = false;
    let mut flaky = false;
    let n = ops.len();
    for k in 0..n
        invariant
            n == ops.len(),
            seen_failed == (exists|i: int|
                0 <= i < k && ops@[i].status == OperationStatus::Failed),
            flaky == (exists|i: int, j: int|
                0 <= i < j < k && ops@[i].status == OperationStatus::Failed
                    && ops@[j].status == OperationStatus::Passed),
    {
        if seen_failed && ops[k].status == OperationStatus::Passed {
            flaky = true;
        }
        if ops[k].status == OperationStatus::Failed {
            seen_failed = true;
        }
    }
    flaky
}

/// Final status of the sequence, per [`spec_final_status`].
pub fn compute_final_status(ops: &Vec<Operation>) -> (r: TaskResultStatus)
    ensures
        r == spec_final_status(ops@),
{
    if ops.len() == 0 {
        TaskResultStatus::Skipped
    } else {
        match ops[ops.len() - 1].status {
            OperationStatus::Passed => TaskResultStatus::Passed,
            OperationStatus::Failed => TaskResultStatus::Failed,
            OperationStatus::Skipped => TaskResultStatus::Skipped,
        }
    }
}

/// Everything `run_task` guarantees of the finished record and the context,
/// given the task the target named and the completed operation outcomes.
pub open spec fn run_task_post(
    task: TaskView,
    ops: Seq<Operation>,
    action: Action,
    ctx_pre: RunContext,
    ctx_post: RunContext,
    node_id: int,
    status: TaskResultStatus,
) -> bool {
    &&& action.allow_failure == task.allow_failure
    &&& action.flaky == spec_is_flaky(ops)
    &&& action.status == spec_final_status(ops)
    &&& action.operations@ == ops
    &&& status == spec_final_status(ops)
    &&& ctx_post.touched@ == ctx_pre.touched@
    &&& ctx_post.primary@ == ctx_pre.primary@
    &&& ctx_post.states@.len() == ctx_pre.states@.len()
    &&& forall|j: int| 0 <= j < ctx_pre.states@.len() && j != node_id
        ==> ctx_post.states@[j] == ctx_pre.states@[j]
    &&& if task.is_persistent {
        // The state is committed as `Passthrough` before any operation
        // outcome is consulted, and is never overwritten afterwards.
        ctx_post.spec_state(node_id) == TargetState::Passthrough
    } else if ctx_pre.spec_state(node_id) == TargetState::Passthrough {
        ctx_post.spec_state(node_id) == TargetState::Passthrough
    } else {
        ctx_post.spec_state(node_id) == state_of_status(spec_final_status(ops))
    }
}

/// Executes one target's task record-keeping: copies the task's
/// allow-failure policy onto the action before anything else, commits
/// `Passthrough` early for persistent tasks, aggregates the completed
/// operation outcomes into a final status and flakiness flag, and commits
/// exactly one terminal state for the target.
///
/// Fails only when the target names a task its project does not declare;
/// nothing is changed in that case.
pub fn run_task(
    action: &mut Action,
    ctx: &mut RunContext,
    node_id: usize,
    project: &ProjectConfig,
    target: &Target,
    operations: Vec<Operation>,
) -> (r: Result<TaskResultStatus, GraphError>)
    requires
        node_id < old(ctx).states@.len(),
        old(ctx).spec_state(node_id as int) == TargetState::Running
            || old(ctx).spec_state(node_id as int) == TargetState::Pending,
    ensures
        match r {
            Ok(status) => {
                &&& find_task(project@.tasks, target@.task_id) is Some
                &&& run_task_post(
                    find_task(project@.tasks, target@.task_id)->Some_0,
                    operations@,
                    *final(action),
                    *old(ctx),
                    *final(ctx),
                    node_id as int,
                    status,
                )
            },
            Err(e) => {
                &&& find_task(project@.tasks, target@.task_id) is None
                &&& match e {
                    GraphError::UnknownTask(t) => t@ == target@,
                    _ => false,
                }
                &&& *final(action) == *old(action)
                &&& *final(ctx) == *old(ctx)
            },
        },
{
    let task = match project.get_task(&target.task_id) {
        Some(task) => task,
        None => {
            return Err(GraphError::UnknownTask(target.duplicate()));
        },
    };

    // Copied first, so that a later failure cannot change the policy that
    // was in force when execution began.
    action.allow_failure = task.allow_failure;

    // A persistent task never finishes by design: mark it satisfied for
    // dependents before its operations are even consulted.
    if task.is_persistent {
        ctx.set_target_state(node_id, TargetState::Passthrough);
    }

    action.flaky = compute_flaky(&operations);
    let status = compute_final_status(&operations);
    action.status = status;
    action.operations = operations;

    // Exactly one terminal transition; an earlier `Passthrough` is kept.
    let state = match status {
        TaskResultStatus::Passed => TargetState::Passed,
        TaskResultStatus::Failed => TargetState::Failed,
        TaskResultStatus::Invalid => TargetState::Failed,
        TaskResultStatus::Skipped => TargetState::Skipped,
    };
    ctx.set_target_state(node_id, state);

    Ok(status)
}

} // verus!
