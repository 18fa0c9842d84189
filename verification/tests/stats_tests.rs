use moon_pipeline::action::{Action, TaskResultStatus};
use moon_pipeline::registry::Target;
use moon_pipeline::stats::{count_results, render_result_stats, unaffected_message};
use moon_pipeline::{select_touched_files, RunStatus, TouchedFiles};

fn action_with(status: TaskResultStatus) -> Action {
    let mut a = Action::new();
    a.status = status;
    a
}

#[test]
fn aggregation_counts_and_summary_line() {
    let results = vec![
        action_with(TaskResultStatus::Passed),
        action_with(TaskResultStatus::Failed),
        action_with(TaskResultStatus::Passed),
        action_with(TaskResultStatus::Invalid),
    ];
    let (passed, failed, invalid) = count_results(&results);
    assert_eq!((passed, failed, invalid), (2, 1, 1));

    let summary = render_result_stats(&results, 125, 0);
    assert_eq!(summary, "Tasks: 2 completed, 1 failed, 1 invalid\n Time: 2m 5s\n");
    assert!(!summary.is_empty());
    assert!(summary.contains("2 completed"));
    assert!(summary.contains("1 failed"));
    assert!(summary.contains("1 invalid"));
}

#[test]
fn summary_omits_zero_counts_and_skipped_results() {
    let results = vec![
        action_with(TaskResultStatus::Passed),
        action_with(TaskResultStatus::Skipped),
    ];
    let summary = render_result_stats(&results, 0, 0);
    assert_eq!(summary, "Tasks: 1 completed\n Time: 0s\n");
}

#[test]
fn summary_renders_multi_digit_counts() {
    let mut results = Vec::new();
    for _ in 0..12 {
        results.push(action_with(TaskResultStatus::Passed));
    }
    let summary = render_result_stats(&results, 1, 0);
    assert_eq!(summary, "Tasks: 12 completed\n Time: 1s\n");
}

#[test]
fn unaffected_message_names_targets_and_status() {
    let targets = vec![
        Target::new("a".to_string(), "build".to_string()),
        Target::new("b".to_string(), "test".to_string()),
    ];
    assert_eq!(
        unaffected_message(&targets, &RunStatus::All),
        "Targets a:build, b:test not affected by touched files"
    );
    assert_eq!(
        unaffected_message(&targets, &RunStatus::Modified),
        "Targets a:build, b:test not affected by touched files (using status modified)"
    );
}

#[test]
fn touched_files_are_selected_by_classification_and_rooted() {
    let files = TouchedFiles {
        added: vec!["new.ts".to_string()],
        all: vec!["new.ts".to_string(), "old.ts".to_string()],
        deleted: vec![],
        modified: vec!["old.ts".to_string()],
        staged: vec![],
        unstaged: vec![],
        untracked: vec![],
    };
    let root = "/repo".to_string();
    assert_eq!(
        select_touched_files(&files, &RunStatus::Added, &root),
        vec!["/repo/new.ts".to_string()]
    );
    assert_eq!(
        select_touched_files(&files, &RunStatus::Modified, &root),
        vec!["/repo/old.ts".to_string()]
    );
    assert_eq!(
        select_touched_files(&files, &RunStatus::All, &root),
        vec!["/repo/new.ts".to_string(), "/repo/old.ts".to_string()]
    );
    assert!(select_touched_files(&files, &RunStatus::Deleted, &root).is_empty());
}

#[test]
fn default_run_status_selects_all() {
    assert_eq!(RunStatus::default(), RunStatus::All);
    assert_eq!(RunStatus::Untracked.label(), "untracked");
}
