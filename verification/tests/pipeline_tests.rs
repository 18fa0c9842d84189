use moon_pipeline::action::{run_task, Action, Operation, OperationStatus, TaskResultStatus};
use moon_pipeline::context::{RunContext, StateWrite, TargetState};
use moon_pipeline::pipeline::{Pipeline, PipelinePhase};
use moon_pipeline::registry::{ProjectConfig, Registry, TaskConfig, Target};

fn target(p: &str, t: &str) -> Target {
    Target::new(p.to_string(), t.to_string())
}

fn op(status: OperationStatus) -> Operation {
    Operation { status }
}

fn simple_task(id: &str, deps: Vec<Target>, allow_failure: bool, is_persistent: bool) -> TaskConfig {
    TaskConfig {
        task_id: id.to_string(),
        allow_failure,
        is_persistent,
        deps,
        inputs: Vec::new(),
    }
}

fn project(id: &str, tasks: Vec<TaskConfig>) -> ProjectConfig {
    ProjectConfig { project_id: id.to_string(), tasks }
}

/// Drives a resolved pipeline to completion, answering every dispatched
/// target with the outcomes that `outcomes_for` supplies.
fn drive<F: Fn(&Target) -> Vec<Operation>>(
    pipeline: &mut Pipeline,
    registry: &Registry,
    outcomes_for: F,
) {
    while pipeline.phase == PipelinePhase::Executing {
        pipeline.begin_batch(registry);
        let dispatched = pipeline.pending.clone();
        for id in dispatched {
            let ops = outcomes_for(&pipeline.graph.nodes[id]);
            pipeline.complete_node(registry, id, ops);
        }
        pipeline.end_batch(registry);
    }
}

#[test]
fn flaky_sequence_passes_and_is_marked_flaky() {
    let registry = Registry {
        projects: vec![project("a", vec![simple_task("build", vec![], false, false)])],
    };
    let proj = &registry.projects[0];
    let mut ctx = RunContext::new(1, Vec::new());
    let mut action = Action::new();
    let ops = vec![
        op(OperationStatus::Failed),
        op(OperationStatus::Failed),
        op(OperationStatus::Passed),
    ];
    let status = run_task(&mut action, &mut ctx, 0, proj, &target("a", "build"), ops).unwrap();
    assert_eq!(status, TaskResultStatus::Passed);
    assert!(action.flaky);
    assert_eq!(ctx.get_target_state(0), TargetState::Passed);
}

#[test]
fn failing_sequence_is_failed_and_not_flaky() {
    let registry = Registry {
        projects: vec![project("a", vec![simple_task("build", vec![], false, false)])],
    };
    let proj = &registry.projects[0];
    let mut ctx = RunContext::new(1, Vec::new());
    let mut action = Action::new();
    let ops = vec![op(OperationStatus::Failed), op(OperationStatus::Failed)];
    let status = run_task(&mut action, &mut ctx, 0, proj, &target("a", "build"), ops).unwrap();
    assert_eq!(status, TaskResultStatus::Failed);
    assert!(!action.flaky);
    assert_eq!(ctx.get_target_state(0), TargetState::Failed);
}

#[test]
fn persistent_task_passes_through_and_is_never_overwritten() {
    let registry = Registry {
        projects: vec![project("serve", vec![simple_task("dev", vec![], false, true)])],
    };
    let proj = &registry.projects[0];
    let mut ctx = RunContext::new(1, Vec::new());
    let mut action = Action::new();
    // Even a failing operation sequence leaves the early Passthrough alone.
    let ops = vec![op(OperationStatus::Failed)];
    run_task(&mut action, &mut ctx, 0, proj, &target("serve", "dev"), ops).unwrap();
    assert_eq!(ctx.get_target_state(0), TargetState::Passthrough);
    // No later write, whatever it carries, overwrites the state.
    assert_eq!(ctx.set_target_state(0, TargetState::Passed), StateWrite::PassthroughKept);
    assert_eq!(ctx.set_target_state(0, TargetState::Failed), StateWrite::PassthroughKept);
    assert_eq!(ctx.get_target_state(0), TargetState::Passthrough);
}

#[test]
fn terminal_states_cannot_change() {
    let mut ctx = RunContext::new(2, Vec::new());
    assert_eq!(ctx.set_target_state(0, TargetState::Passed), StateWrite::Written);
    // A different terminal value is a reported conflict, not a silent write.
    assert_eq!(ctx.set_target_state(0, TargetState::Failed), StateWrite::TerminalConflict);
    assert_eq!(ctx.get_target_state(0), TargetState::Passed);
    // The same value is an accepted idempotent write.
    assert_eq!(ctx.set_target_state(0, TargetState::Passed), StateWrite::Written);
    // An untouched target reads as Pending.
    assert_eq!(ctx.get_target_state(1), TargetState::Pending);
}

fn chain_registry(dep_allows_failure: bool) -> Registry {
    // c:build -> b:build -> a:build, where a:build is the one that fails.
    Registry {
        projects: vec![
            project("a", vec![simple_task("build", vec![], dep_allows_failure, false)]),
            project("b", vec![simple_task("build", vec![target("a", "build")], false, false)]),
            project("c", vec![simple_task("build", vec![target("b", "build")], false, false)]),
        ],
    }
}

#[test]
fn allowed_failure_does_not_gate_dependents() {
    let registry = chain_registry(true);
    let requested = vec![target("c", "build")];
    let mut pipeline = Pipeline::resolve(&requested, Vec::new(), false, &registry).unwrap();
    drive(&mut pipeline, &registry, |t| {
        if t.project_id == "a" {
            vec![op(OperationStatus::Failed)]
        } else {
            vec![op(OperationStatus::Passed)]
        }
    });
    assert_eq!(pipeline.phase, PipelinePhase::Completed);
    // Every target ran: the failure was tolerated, so nothing was skipped.
    assert_eq!(pipeline.results.len(), 3);
    let statuses: Vec<TaskResultStatus> = pipeline.results.iter().map(|a| a.status).collect();
    assert_eq!(statuses.iter().filter(|s| **s == TaskResultStatus::Failed).count(), 1);
    assert_eq!(statuses.iter().filter(|s| **s == TaskResultStatus::Passed).count(), 2);
    // The failed action still records that its failure was allowed.
    let failed = pipeline.results.iter().find(|a| a.status == TaskResultStatus::Failed).unwrap();
    assert!(failed.allow_failure);
}

#[test]
fn disallowed_failure_skips_dependents_transitively() {
    let registry = chain_registry(false);
    let requested = vec![target("c", "build")];
    let mut pipeline = Pipeline::resolve(&requested, Vec::new(), false, &registry).unwrap();
    let mut ran: Vec<String> = Vec::new();
    while pipeline.phase == PipelinePhase::Executing {
        pipeline.begin_batch(&registry);
        let dispatched = pipeline.pending.clone();
        for id in dispatched {
            ran.push(pipeline.graph.nodes[id].project_id.clone());
            let ops = vec![if pipeline.graph.nodes[id].project_id == "a" {
                op(OperationStatus::Failed)
            } else {
                op(OperationStatus::Passed)
            }];
            pipeline.complete_node(&registry, id, ops);
        }
        pipeline.end_batch(&registry);
    }
    // Only the failing leaf ever ran; both dependents were skipped without
    // their runners being invoked.
    assert_eq!(ran, vec!["a".to_string()]);
    assert_eq!(pipeline.results.len(), 3);
    let skipped = pipeline
        .results
        .iter()
        .filter(|a| a.status == TaskResultStatus::Skipped)
        .count();
    assert_eq!(skipped, 2);
    // The states agree: a failed, b and c are skipped.
    for i in 0..pipeline.graph.len() {
        let state = pipeline.ctx.get_target_state(i);
        if pipeline.graph.nodes[i].project_id == "a" {
            assert_eq!(state, TargetState::Failed);
        } else {
            assert_eq!(state, TargetState::Skipped);
        }
    }
}

#[test]
fn all_unaffected_requests_complete_with_no_results() {
    let registry = Registry {
        projects: vec![
            project("a", vec![TaskConfig {
                task_id: "build".to_string(),
                allow_failure: false,
                is_persistent: false,
                deps: Vec::new(),
                inputs: vec!["/repo/a/src/x.ts".to_string()],
            }]),
            project("b", vec![TaskConfig {
                task_id: "build".to_string(),
                allow_failure: false,
                is_persistent: false,
                deps: Vec::new(),
                inputs: vec!["/repo/b/src/y.ts".to_string()],
            }]),
        ],
    };
    let requested = vec![target("a", "build"), target("b", "build")];
    let touched = vec!["/repo/elsewhere/z.ts".to_string()];
    let pipeline = Pipeline::resolve(&requested, touched, true, &registry).unwrap();
    assert_eq!(pipeline.phase, PipelinePhase::Completed);
    assert!(pipeline.results.is_empty());
    // The skipped-as-unaffected report names the full request set.
    assert_eq!(pipeline.unaffected.len(), requested.len());
    for (u, t) in pipeline.unaffected.iter().zip(requested.iter()) {
        assert!(u.same_as(t));
    }
}

#[test]
fn dependency_states_are_committed_before_dependents_run() {
    let registry = chain_registry(false);
    let requested = vec![target("c", "build")];
    let mut pipeline = Pipeline::resolve(&requested, Vec::new(), false, &registry).unwrap();
    while pipeline.phase == PipelinePhase::Executing {
        pipeline.begin_batch(&registry);
        let dispatched = pipeline.pending.clone();
        for id in dispatched {
            // Every prerequisite of a dispatched node already has a
            // committed, satisfying state.
            for &d in &pipeline.graph.edges[id] {
                assert_eq!(pipeline.ctx.get_target_state(d), TargetState::Passed);
            }
            assert_eq!(pipeline.ctx.get_target_state(id), TargetState::Running);
            pipeline.complete_node(&registry, id, vec![op(OperationStatus::Passed)]);
        }
        pipeline.end_batch(&registry);
    }
    assert_eq!(pipeline.results.len(), 3);
    assert!(pipeline
        .results
        .iter()
        .all(|a| a.status == TaskResultStatus::Passed));
}

#[test]
fn primary_targets_are_recorded() {
    let registry = chain_registry(false);
    let requested = vec![target("c", "build")];
    let pipeline = Pipeline::resolve(&requested, Vec::new(), false, &registry).unwrap();
    assert!(pipeline.ctx.is_primary(&target("c", "build")));
    assert!(!pipeline.ctx.is_primary(&target("a", "build")));
}
