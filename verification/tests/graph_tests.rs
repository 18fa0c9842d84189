use moon_pipeline::graph::{DepGraph, GraphError};
use moon_pipeline::registry::{ProjectConfig, Registry, TaskConfig, Target};

fn target(p: &str, t: &str) -> Target {
    Target::new(p.to_string(), t.to_string())
}

fn task(id: &str, deps: Vec<Target>, inputs: Vec<&str>) -> TaskConfig {
    TaskConfig {
        task_id: id.to_string(),
        allow_failure: false,
        is_persistent: false,
        deps,
        inputs: inputs.into_iter().map(|s| s.to_string()).collect(),
    }
}

fn project(id: &str, tasks: Vec<TaskConfig>) -> ProjectConfig {
    ProjectConfig { project_id: id.to_string(), tasks }
}

fn diamond_registry() -> Registry {
    // a:build -> b:build, c:build; b:build -> d:build; c:build -> d:build
    Registry {
        projects: vec![
            project("a", vec![task("build", vec![target("b", "build"), target("c", "build")], vec![])]),
            project("b", vec![task("build", vec![target("d", "build")], vec![])]),
            project("c", vec![task("build", vec![target("d", "build")], vec![])]),
            project("d", vec![task("build", vec![], vec![])]),
        ],
    }
}

fn batch_of(batches: &Vec<Vec<usize>>, node: usize) -> usize {
    for (b, batch) in batches.iter().enumerate() {
        if batch.contains(&node) {
            return b;
        }
    }
    panic!("node {} not in any batch", node);
}

#[test]
fn topological_batches_order_dependencies_first() {
    let registry = diamond_registry();
    let mut graph = DepGraph::new();
    let id = graph.resolve_target(&target("a", "build"), &registry).unwrap();
    assert_eq!(graph.len(), 4);
    let batches = graph.topological_batches();
    // Every edge's dependency sits in a strictly earlier batch.
    for i in 0..graph.len() {
        let bi = batch_of(&batches, i);
        for &d in &graph.edges[i] {
            assert!(batch_of(&batches, d) < bi);
        }
    }
    // The requested root depends on everything, so it comes last.
    assert_eq!(batch_of(&batches, id), batches.len() - 1);
    // d:build has no prerequisites and is alone in batch zero.
    assert_eq!(batches[0].len(), 1);
    assert_eq!(graph.nodes[batches[0][0]].project_id, "d");
}

fn cyclic_registry() -> Registry {
    // a:build -> b:build -> c:build -> a:build
    Registry {
        projects: vec![
            project("a", vec![task("build", vec![target("b", "build")], vec![])]),
            project("b", vec![task("build", vec![target("c", "build")], vec![])]),
            project("c", vec![task("build", vec![target("a", "build")], vec![])]),
        ],
    }
}

#[test]
fn cycle_fails_from_any_entry_point() {
    let registry = cyclic_registry();
    for entry in ["a", "b", "c"] {
        let mut graph = DepGraph::new();
        match graph.resolve_target(&target(entry, "build"), &registry) {
            Err(GraphError::CyclicDependency(path)) => {
                assert!(!path.is_empty());
                // The carried path is a genuine declared cycle: each member
                // names the next as a dependency, wrapping around.
                for (k, t) in path.iter().enumerate() {
                    let next = &path[(k + 1) % path.len()];
                    let t_task = registry.get_task(t).unwrap();
                    assert!(t_task.deps.iter().any(|d| d.same_as(next)));
                }
            },
            other => panic!("expected a cyclic-dependency error, got {:?}", other.is_ok()),
        }
    }
}

#[test]
fn unknown_project_and_unknown_task_are_reported() {
    let registry = diamond_registry();
    let mut graph = DepGraph::new();
    match graph.resolve_target(&target("zed", "build"), &registry) {
        Err(GraphError::UnknownTarget(t)) => {
            assert_eq!(t.project_id, "zed");
        },
        _ => panic!("expected an unknown-target error"),
    }
    match graph.resolve_target(&target("a", "lint"), &registry) {
        Err(GraphError::UnknownTask(t)) => {
            assert_eq!(t.task_id, "lint");
        },
        _ => panic!("expected an unknown-task error"),
    }
}

#[test]
fn unknown_dependency_is_reported_from_the_root() {
    // a:build depends on ghost:build, which does not exist.
    let registry = Registry {
        projects: vec![project(
            "a",
            vec![task("build", vec![target("ghost", "build")], vec![])],
        )],
    };
    let mut graph = DepGraph::new();
    match graph.resolve_target(&target("a", "build"), &registry) {
        Err(GraphError::UnknownTarget(t)) => assert_eq!(t.project_id, "ghost"),
        _ => panic!("expected an unknown-target error for the dependency"),
    }
}

fn touched_registry() -> Registry {
    // a:build reads a touched file; b:build depends on a:build with disjoint
    // inputs; c:build is unrelated.
    Registry {
        projects: vec![
            project("a", vec![task("build", vec![], vec!["/repo/a/src/x.ts"])]),
            project("b", vec![task("build", vec![target("a", "build")], vec!["/repo/b/src/y.ts"])]),
            project("c", vec![task("build", vec![], vec!["/repo/c/src/z.ts"])]),
        ],
    }
}

#[test]
fn affected_propagates_through_dependencies() {
    let registry = touched_registry();
    let touched = vec!["/repo/a/src/x.ts".to_string()];

    let mut graph = DepGraph::new();
    let direct = graph
        .resolve_target_if_touched(&target("a", "build"), &touched, &registry)
        .unwrap();
    assert!(direct.is_some());

    let transitive = graph
        .resolve_target_if_touched(&target("b", "build"), &touched, &registry)
        .unwrap();
    assert!(transitive.is_some());

    let unrelated = graph
        .resolve_target_if_touched(&target("c", "build"), &touched, &registry)
        .unwrap();
    assert!(unrelated.is_none());
    // The unaffected target was not added to the graph.
    assert_eq!(graph.len(), 2);
}
