//! The run orchestrator: resolves the requested targets into the dependency
//! graph (optionally filtered to affected targets), then walks the graph in
//! topological batches. Within a batch every dispatchable node may run
//! concurrently; a batch is a barrier — the next begins only when every node
//! of the previous one has a committed state. A node whose prerequisites
//! finished neither passing, passthrough, nor failed-with-allowance is
//! skipped without ever running, unless the node itself allows failure.
use vstd::prelude::*;
use crate::action::{
    run_task, run_task_post, Action, Operation, TaskResultStatus,
};
use crate::context::{is_terminal, RunContext, TargetState};
use crate::graph::{
    affected, batch_views, batches_of, graph_err_post, has_node, in_batch, DepGraph, GraphError,
};
use crate::registry::{
    find_task, lookup_task, string_views, target_views, ProjectView, Registry, Target,
    TargetView,
};

verus! {

/// Phase of one run.
#[derive(Clone, Copy, Debug, PartialEq, Eq, Structural)]
pub enum PipelinePhase {
    Executing,
    Completed,
}

/// The task the target names allows failure.
pub open spec fn node_allow(reg: Seq<ProjectView>, t: TargetView) -> bool {
    &&& lookup_task(reg, t) is Some
    &&& lookup_task(reg, t)->Some_0.allow_failure
}

/// A committed dependency state satisfies its dependents: it passed, it is
/// a passthrough (persistent) task, or it failed but its own policy allows
/// failure.
pub open spec fn dep_satisfying(s: TargetState, dep_allows: bool) -> bool {
    s == TargetState::Passed || s == TargetState::Passthrough || (s == TargetState::Failed
        && dep_allows)
}

/// Every prerequisite of node `i` is in a satisfying state.
pub open spec fn deps_satisfied(
    g: DepGraph,
    reg: Seq<ProjectView>,
    ctx: RunContext,
    i: int,
) -> bool {
    forall|e: int|
        0 <= e < g.spec_edges()[i].len() ==> dep_satisfying(
            ctx.spec_state((#[trigger] g.spec_edges()[i][e]) as int),
            node_allow(reg, g.node_views()[g.spec_edges()[i][e] as int]),
        )
}

/// Node `i` may be dispatched: its prerequisites are satisfying, or the
/// node's own task allows failure, which makes its dependency edges
/// non-blocking for scheduling.
pub open spec fn dispatchable(
    g: DepGraph,
    reg: Seq<ProjectView>,
    ctx: RunContext,
    i: int,
) -> bool {
    node_allow(reg, g.node_views()[i]) || deps_satisfied(g, reg, ctx, i)
}

/// Law: a `Failed` prerequisite still permits its dependents to be
/// dispatched when its own policy allows failure; when it does not, every
/// dependent that is not itself allow-failure is gated (not dispatchable),
/// and the orchestrator skips it without ever running it.
pub proof fn lemma_allow_failure_policy(
    g: DepGraph,
    reg: Seq<ProjectView>,
    ctx: RunContext,
    i: int,
    e: int,
)
    requires
        0 <= i < g.node_count(),
        0 <= e < g.spec_edges()[i].len(),
        ctx.spec_state(g.spec_edges()[i][e] as int) == TargetState::Failed,
    ensures
        node_allow(reg, g.node_views()[g.spec_edges()[i][e] as int]) ==> dep_satisfying(
            ctx.spec_state(g.spec_edges()[i][e] as int),
            node_allow(reg, g.node_views()[g.spec_edges()[i][e] as int]),
        ),
        !node_allow(reg, g.node_views()[g.spec_edges()[i][e] as int]) && !node_allow(
            reg,
            g.node_views()[i],
        ) ==> !dispatchable(g, reg, ctx, i),
{
}

/// The requested targets that affected-filtering eliminated, in request
/// order.
pub open spec fn unaffected_of(
    reg: Seq<ProjectView>,
    tv: Seq<Seq<char>>,
    ts: Seq<TargetView>,
) -> Seq<TargetView>
    decreases ts.len(),
{
    if ts.len() == 0 {
        Seq::empty()
    } else {
        unaffected_of(reg, tv, ts.drop_last()) + if !affected(reg, tv, ts.last()) {
            seq![ts.last()]
        } else {
            Seq::empty()
        }
    }
}

/// How many targets hold a committed (terminal) state.
pub open spec fn count_terminal(states: Seq<TargetState>) -> nat
    decreases states.len(),
{
    if states.len() == 0 {
        0
    } else {
        count_terminal(states.drop_last()) + if is_terminal(states.last()) {
            1nat
        } else {
            0nat
        }
    }
}

proof fn lemma_count_terminal_update(s: Seq<TargetState>, i: int, v: TargetState)
    requires
        0 <= i < s.len(),
    ensures
        count_terminal(s.update(i, v)) == count_terminal(s) - (if is_terminal(s[i]) {
            1int
        } else {
            0int
        }) + (if is_terminal(v) {
            1int
        } else {
            0int
        }),
    decreases s.len(),
{
    if i == s.len() - 1 {
        assert(s.update(i, v).drop_last() =~= s.drop_last());
        assert(s.update(i, v).last() == v);
    } else {
        lemma_count_terminal_update(s.drop_last(), i, v);
        assert(s.update(i, v).drop_last() =~= s.drop_last().update(i, v));
        assert(s.update(i, v).last() == s.last());
    }
}

proof fn lemma_count_terminal_bounds(s: Seq<TargetState>)
    ensures
        (forall|i: int| 0 <= i < s.len() ==> !is_terminal(#[trigger] s[i])) ==> count_terminal(s)
            == 0,
        (forall|i: int| 0 <= i < s.len() ==> is_terminal(#[trigger] s[i])) ==> count_terminal(s)
            == s.len(),
    decreases s.len(),
{
    if s.len() > 0 {
        lemma_count_terminal_bounds(s.drop_last());
    }
}

/// One pipeline run.
pub struct Pipeline {
    pub graph: DepGraph,
    pub batches: Vec<Vec<usize>>,
    pub ctx: RunContext,
    pub results: Vec<Action>,
    pub unaffected: Vec<Target>,
    pub current_batch: usize,
    pub in_batch: bool,
    pub pending: Vec<usize>,
    pub phase: PipelinePhase,
}

impl Pipeline {
    pub open spec fn unaffected_views(self) -> Seq<TargetView> {
        target_views(self.unaffected@)
    }

    /// Run invariant: the graph, batches and context agree; every node of a
    /// finished batch holds a committed (terminal) state; within the open
    /// batch, a node is either finished or `Running` and then owed to
    /// `pending`; nodes of future batches are untouched (`Pending`).
    pub open spec fn inv(self, reg: Seq<ProjectView>) -> bool {
        let bv = batch_views(self.batches@);
        &&& self.graph.wf()
        &&& self.graph.resolved_from(reg)
        &&& batches_of(self.graph, bv)
        &&& self.ctx.states@.len() == self.graph.node_count()
        // One result has been recorded for each target whose state is
        // committed, and for no other.
        &&& self.results@.len() == count_terminal(self.ctx.states@)
        &&& self.current_batch <= bv.len()
        &&& (self.phase == PipelinePhase::Executing <==> self.current_batch < bv.len())
        &&& (!(self.phase == PipelinePhase::Executing) ==> !self.in_batch)
        &&& (forall|b: int, k: int|
            0 <= b < self.current_batch && 0 <= k < bv[b].len() ==> is_terminal(
                self.ctx.spec_state((#[trigger] bv[b][k]) as int),
            ))
        &&& (forall|b: int, k: int|
            self.current_batch + if self.in_batch {
                1int
            } else {
                0int
            } <= b < bv.len() && 0 <= k < bv[b].len() ==> self.ctx.spec_state(
                (#[trigger] bv[b][k]) as int,
            ) == TargetState::Pending)
        &&& (self.in_batch ==> {
            let cb = self.current_batch as int;
            &&& (forall|k: int|
                0 <= k < bv[cb].len() ==> is_terminal(
                    self.ctx.spec_state((#[trigger] bv[cb][k]) as int),
                ) || self.ctx.spec_state(bv[cb][k] as int) == TargetState::Running)
            &&& (forall|k: int|
                0 <= k < bv[cb].len() && self.ctx.spec_state((#[trigger] bv[cb][k]) as int)
                    == TargetState::Running ==> self.pending@.contains(bv[cb][k]))
            &&& (forall|k: int|
                0 <= k < self.pending@.len() ==> in_batch(
                    bv,
                    cb,
                    (#[trigger] self.pending@[k]) as int,
                ) && self.ctx.spec_state(self.pending@[k] as int) == TargetState::Running)
            &&& (forall|k1: int, k2: int|
                0 <= k1 < k2 < self.pending@.len() ==> (#[trigger] self.pending@[k1])
                    != (#[trigger] self.pending@[k2]))
        })
        &&& (!self.in_batch ==> self.pending@.len() == 0)
    }

    /// Resolves a run: builds the dependency graph from the requested
    /// targets — with affected-filtering against the touched files when
    /// asked — computes the topological batches, marks the primary targets,
    /// and reports which requested targets were eliminated as unaffected. A
    /// run whose every requested target is unaffected (or that requests
    /// nothing) completes at once with no results. A graph error aborts the
    /// whole run: nothing executes and the error is the sole output.
    #[verifier::loop_isolation(false)]
    pub fn resolve(
        targets: &Vec<Target>,
        touched: Vec<String>,
        affected_only: bool,
        registry: &Registry,
    ) -> (r: Result<Pipeline, GraphError>)
        ensures
            match r {
                Ok(p) => {
                    &&& p.inv(registry@)
                    &&& p.ctx.primary_views() == target_views(targets@)
                    &&& p.ctx.touched@ == touched@
                    &&& p.results@.len() == 0
                    &&& p.current_batch == 0
                    &&& !p.in_batch
                    &&& if affected_only {
                        &&& p.unaffected_views() == unaffected_of(
                            registry@,
                            string_views(touched@),
                            target_views(targets@),
                        )
                        // A request whose every target is filtered out
                        // completes at once: nothing is resolved, no batch
                        // runs, and the unaffected report carries the whole
                        // request set.
                        &&& (forall|j: int|
                            0 <= j < targets@.len() ==> !affected(
                                registry@,
                                string_views(touched@),
                                #[trigger] target_views(targets@)[j],
                            )) ==> p.phase == PipelinePhase::Completed
                            && p.graph.node_count() == 0
                        &&& forall|j: int|
                            0 <= j < targets@.len() && affected(
                                registry@,
                                string_views(touched@),
                                #[trigger] target_views(targets@)[j],
                            ) ==> has_node(p.graph, target_views(targets@)[j])
                    } else {
                        &&& p.unaffected@.len() == 0
                        &&& forall|j: int|
                            0 <= j < targets@.len() ==> has_node(
                                p.graph,
                                #[trigger] target_views(targets@)[j],
                            )
                    }
                },
                Err(e) => exists|j: int|
                    0 <= j < targets@.len() && graph_err_post(
                        registry@,
                        #[trigger] target_views(targets@)[j],
                        e,
                    ),
            },
    {
        let ghost reg = registry@;
        let ghost tv = string_views(touched@);
        let mut graph = DepGraph::new();
        let mut unaffected: Vec<Target> = Vec::new();
        let n = targets.len();
        for j in 0..n
            invariant
                n == targets@.len(),
                graph.wf(),
                graph.resolved_from(reg),
                tv == string_views(touched@),
                if affected_only {
                    &&& target_views(unaffected@) == unaffected_of(
                        reg,
                        tv,
                        target_views(targets@).take(j as int),
                    )
                    &&& forall|m: int|
                        0 <= m < j && affected(reg, tv, #[trigger] target_views(targets@)[m])
                            ==> has_node(graph, target_views(targets@)[m])
                    &&& (forall|m: int|
                        0 <= m < j ==> !affected(reg, tv, #[trigger] target_views(targets@)[m]))
                        ==> graph.node_count() == 0
                } else {
                    &&& unaffected@.len() == 0
                    &&& forall|m: int|
                        0 <= m < j ==> has_node(graph, #[trigger] target_views(targets@)[m])
                },
        {
            let ghost g0 = graph;
            let ghost ts = target_views(targets@);
            let ghost u0 = target_views(unaffected@);
            proof {
                assert(ts[j as int] == targets@[j as int]@);
                assert(ts.take(j + 1).drop_last() =~= ts.take(j as int));
                assert(ts.take(j + 1).last() == ts[j as int]);
            }
            if affected_only {
                match graph.resolve_target_if_touched(&targets[j], &touched, registry) {
                    Ok(Some(id)) => {
                        proof {
                            assert(graph.node_views()[id as int] == ts[j as int]);
                            assert(has_node(graph, ts[j as int]));
                            assert(target_views(unaffected@) =~= unaffected_of(
                                reg,
                                tv,
                                ts.take(j + 1),
                            ));
                        }
                    },
                    Ok(None) => {
                        unaffected.push(targets[j].duplicate());
                        proof {
                            assert(target_views(unaffected@) =~= u0.push(ts[j as int]));
                            assert(target_views(unaffected@) =~= unaffected_of(
                                reg,
                                tv,
                                ts.take(j + 1),
                            ));
                        }
                    },
                    Err(e) => {
                        return Err(e);
                    },
                }
            } else {
                match graph.resolve_target(&targets[j], registry) {
                    Ok(id) => {
                        proof {
                            assert(graph.node_views()[id as int] == ts[j as int]);
                            assert(has_node(graph, ts[j as int]));
                        }
                    },
                    Err(e) => {
                        return Err(e);
                    },
                }
            }
            proof {
                assert forall|m: int|
                    0 <= m < j && has_node(g0, #[trigger] ts[m]) implies has_node(
                    graph,
                    ts[m],
                ) by {
                    let i = choose|i: int|
                        0 <= i < g0.node_count() && #[trigger] g0.node_views()[i] == ts[m];
                    assert(graph.node_views()[i] == g0.node_views()[i]);
                    assert(has_node(graph, ts[m]));
                };
            }
        }
        proof {
            assert(target_views(targets@).take(n as int) =~= target_views(targets@));
        }

        let batches = graph.topological_batches();
        let node_count = graph.len();
        let mut ctx = RunContext::new(node_count, touched);
        ctx.mark_primary(targets);
        let phase = if batches.len() == 0 {
            PipelinePhase::Completed
        } else {
            PipelinePhase::Executing
        };
        proof {
            lemma_count_terminal_bounds(ctx.states@);
            if batch_views(batches@).len() == 0 && node_count > 0 {
                assert(crate::graph::node_covered(batch_views(batches@), 0));
                let b = choose|b: int|
                    0 <= b < batch_views(batches@).len() && in_batch(batch_views(batches@), b, 0);
                assert(false);
            }
        }
        Ok(Pipeline {
            graph,
            batches,
            ctx,
            results: Vec::new(),
            unaffected,
            current_batch: 0,
            in_batch: false,
            pending: Vec::new(),
            phase,
        })
    }
}

/// Everything `begin_batch` decides, judged on the states as they stood at
/// the batch barrier: every dispatchable member of the open batch is set
/// `Running` and handed out through `pending`; every gated member is set
/// `Skipped` with a `Skipped` action recorded and its runner never invoked;
/// nothing outside the batch is touched.
pub open spec fn begin_batch_post(pre: Pipeline, post: Pipeline, reg: Seq<ProjectView>) -> bool {
    let bv = batch_views(pre.batches@);
    let cb = pre.current_batch as int;
    &&& post.graph == pre.graph
    &&& post.batches@ == pre.batches@
    &&& post.unaffected@ == pre.unaffected@
    &&& post.current_batch == pre.current_batch
    &&& post.phase == pre.phase
    &&& post.in_batch
    &&& post.ctx.touched@ == pre.ctx.touched@
    &&& post.ctx.primary@ == pre.ctx.primary@
    &&& post.results@.len() >= pre.results@.len()
    &&& (forall|m: int|
        0 <= m < pre.results@.len() ==> #[trigger] post.results@[m] == pre.results@[m])
    &&& (forall|m: int|
        pre.results@.len() <= m < post.results@.len() ==> (#[trigger] post.results@[m]).status
            == TaskResultStatus::Skipped)
    &&& (forall|k: int|
        #![trigger bv[cb][k]]
        0 <= k < bv[cb].len() ==> {
            let i = bv[cb][k] as int;
            if dispatchable(pre.graph, reg, pre.ctx, i) {
                &&& post.ctx.spec_state(i) == TargetState::Running
                &&& post.pending@.contains(bv[cb][k])
            } else {
                post.ctx.spec_state(i) == TargetState::Skipped
            }
        })
    &&& (forall|m: int|
        0 <= m < post.pending@.len() ==> in_batch(bv, cb, (#[trigger] post.pending@[m]) as int)
            && dispatchable(pre.graph, reg, pre.ctx, post.pending@[m] as int))
    &&& (forall|i: int|
        0 <= i < pre.ctx.states@.len() && !in_batch(bv, cb, i) ==> post.ctx.spec_state(i)
            == pre.ctx.spec_state(i))
}

/// Everything `complete_node` guarantees: the node's finished action is
/// appended to the results with the runner's guarantees
/// ([`run_task_post`]), the node leaves `pending`, and nothing else moves.
pub open spec fn complete_node_post(
    pre: Pipeline,
    post: Pipeline,
    reg: Seq<ProjectView>,
    node_id: usize,
    ops: Seq<Operation>,
    r: TaskResultStatus,
) -> bool {
    let i = node_id as int;
    let task = lookup_task(reg, pre.graph.node_views()[i])->Some_0;
    &&& post.graph == pre.graph
    &&& post.batches@ == pre.batches@
    &&& post.unaffected@ == pre.unaffected@
    &&& post.current_batch == pre.current_batch
    &&& post.phase == pre.phase
    &&& post.in_batch
    &&& post.results@.len() == pre.results@.len() + 1
    &&& (forall|m: int|
        0 <= m < pre.results@.len() ==> #[trigger] post.results@[m] == pre.results@[m])
    &&& run_task_post(task, ops, post.results@.last(), pre.ctx, post.ctx, i, r)
    &&& post.pending@.len() == pre.pending@.len() - 1
    &&& !post.pending@.contains(node_id)
    &&& (forall|m: int|
        0 <= m < post.pending@.len() ==> pre.pending@.contains(#[trigger] post.pending@[m]))
    &&& (forall|m: int|
        0 <= m < pre.pending@.len() && pre.pending@[m] != node_id ==> post.pending@.contains(
            #[trigger] pre.pending@[m],
        ))
}

impl Pipeline {
    /// Opens the next batch: decides, member by member, whether the node's
    /// prerequisites permit dispatch — they all finished satisfying, or the
    /// node itself allows failure — and returns control with `pending`
    /// holding the nodes to execute. A gated member transitions directly to
    /// `Skipped`, a `Skipped` action is recorded for it, and its runner is
    /// never invoked.
    #[verifier::loop_isolation(false)]
    #[verifier::rlimit(100)]
    pub fn begin_batch(&mut self, registry: &Registry)
        requires
            old(self).inv(registry@),
            old(self).phase == PipelinePhase::Executing,
            !old(self).in_batch,
        ensures
            final(self).inv(registry@),
            begin_batch_post(*old(self), *final(self), registry@),
    {
        let ghost reg = registry@;
        let ghost pre = *self;
        let ghost bv = batch_views(self.batches@);
        let ghost cb = self.current_batch as int;
        let cbx = self.current_batch;
        let bn = self.batches[cbx].len();
        proof {
            assert(bv[cb].len() == bn);
        }
        for k in 0..bn
            invariant
                self.graph == pre.graph,
                self.batches@ == pre.batches@,
                self.unaffected@ == pre.unaffected@,
                self.current_batch == pre.current_batch,
                cbx == pre.current_batch,
                self.phase == pre.phase,
                self.in_batch == pre.in_batch,
                self.ctx.touched@ == pre.ctx.touched@,
                self.ctx.primary@ == pre.ctx.primary@,
                self.ctx.states@.len() == pre.ctx.states@.len(),
                self.results@.len() == count_terminal(self.ctx.states@),
                self.results@.len() >= pre.results@.len(),
                forall|m: int|
                    0 <= m < pre.results@.len() ==> #[trigger] self.results@[m]
                        == pre.results@[m],
                forall|m: int|
                    pre.results@.len() <= m < self.results@.len()
                        ==> (#[trigger] self.results@[m]).status == TaskResultStatus::Skipped,
                forall|i: int|
                    0 <= i < pre.ctx.states@.len() && !in_batch(bv, cb, i)
                        ==> self.ctx.spec_state(i) == pre.ctx.spec_state(i),
                forall|kk: int|
                    #![trigger bv[cb][kk]]
                    0 <= kk < k ==> {
                        let i = bv[cb][kk] as int;
                        if dispatchable(pre.graph, reg, pre.ctx, i) {
                            &&& self.ctx.spec_state(i) == TargetState::Running
                            &&& self.pending@.contains(bv[cb][kk])
                        } else {
                            self.ctx.spec_state(i) == TargetState::Skipped
                        }
                    },
                forall|kk: int|
                    k <= kk < bn ==> self.ctx.spec_state((#[trigger] bv[cb][kk]) as int)
                        == TargetState::Pending,
                forall|m: int|
                    0 <= m < self.pending@.len() ==> exists|kk: int|
                        0 <= kk < k && bv[cb][kk] == #[trigger] self.pending@[m],
                forall|m: int|
                    0 <= m < self.pending@.len() ==> in_batch(
                        bv,
                        cb,
                        (#[trigger] self.pending@[m]) as int,
                    ) && dispatchable(pre.graph, reg, pre.ctx, self.pending@[m] as int)
                        && self.ctx.spec_state(self.pending@[m] as int) == TargetState::Running,
                forall|m1: int, m2: int|
                    0 <= m1 < m2 < self.pending@.len() ==> (#[trigger] self.pending@[m1])
                        != (#[trigger] self.pending@[m2]),
        {
            let i = self.batches[cbx][k];
            proof {
                assert(bv[cb][k as int] == i);
                assert(i < self.graph.node_count());
                assert(in_batch(bv, cb, i as int));
            }
            let tgt = self.graph.node_target(i);
            let task = match registry.get_task(tgt) {
                Some(t) => t,
                None => {
                    proof {
                        assert(false);
                    }
                    return ;
                },
            };
            let allow = task.allow_failure;
            proof {
                assert(node_allow(reg, pre.graph.node_views()[i as int]) == allow);
            }
            let mut ok = allow;
            if !ok {
                ok = true;
                let ne = self.graph.edges[i].len();
                for e in 0..ne
                    invariant
                        ne == self.graph.spec_edges()[i as int].len(),
                        ok == (forall|e2: int|
                            0 <= e2 < e ==> dep_satisfying(
                                pre.ctx.spec_state(
                                    (#[trigger] pre.graph.spec_edges()[i as int][e2]) as int,
                                ),
                                node_allow(
                                    reg,
                                    pre.graph.node_views()[pre.graph.spec_edges()[i as int][e2] as int],
                                ),
                            )),
                {
                    let d = self.graph.edges[i][e];
                    proof {
                        assert(pre.graph.spec_edges()[i as int][e as int] == d);
                        assert(d < i);
                        assert(crate::graph::in_earlier_batch(bv, cb, d as int)) by {
                            assert(pre.graph.spec_edges()[bv[cb][k as int] as int][e as int]
                                == d);
                        };
                        assert(!in_batch(bv, cb, d as int)) by {
                            let b2 = choose|b2: int|
                                0 <= b2 < cb && in_batch(bv, b2, d as int);
                            if in_batch(bv, cb, d as int) {
                                let kk1 = choose|kk: int|
                                    0 <= kk < bv[b2].len() && bv[b2][kk] == d;
                                let kk2 = choose|kk: int|
                                    0 <= kk < bv[cb].len() && bv[cb][kk] == d;
                                assert(bv[b2][kk1] != bv[cb][kk2]);
                            }
                        };
                        assert(self.ctx.spec_state(d as int) == pre.ctx.spec_state(d as int));
                    }
                    let st = self.ctx.get_target_state(d);
                    let dtgt = self.graph.node_target(d);
                    let dep_task = match registry.get_task(dtgt) {
                        Some(t) => t,
                        None => {
                            proof {
                                assert(false);
                            }
                            return ;
                        },
                    };
                    let dep_allow = dep_task.allow_failure;
                    proof {
                        assert(node_allow(reg, pre.graph.node_views()[d as int]) == dep_allow);
                    }
                    let sat = st == TargetState::Passed || st == TargetState::Passthrough || (st
                        == TargetState::Failed && dep_allow);
                    if !sat {
                        ok = false;
                    }
                }
            }
            proof {
                assert(ok == dispatchable(pre.graph, reg, pre.ctx, i as int));
            }
            let ghost p0 = self.pending@;
            let ghost s0 = self.ctx.states@;
            if ok {
                self.ctx.set_target_state(i, TargetState::Running);
                proof {
                    lemma_count_terminal_update(s0, i as int, TargetState::Running);
                }
                self.pending.push(i);
                proof {
                    assert forall|m1: int, m2: int|
                        0 <= m1 < m2 < self.pending@.len()
                        implies (#[trigger] self.pending@[m1])
                            != (#[trigger] self.pending@[m2]) by {
                        if m2 == p0.len() as int {
                            let kk = choose|kk: int| 0 <= kk < k && bv[cb][kk] == p0[m1];
                            assert(bv[cb][kk] != bv[cb][k as int]);
                        }
                    };
                }
            } else {
                self.ctx.set_target_state(i, TargetState::Skipped);
                proof {
                    lemma_count_terminal_update(s0, i as int, TargetState::Skipped);
                }
                let mut a = Action::new();
                a.allow_failure = allow;
                self.results.push(a);
            }
            proof {
                broadcast use vstd::seq_lib::lemma_seq_contains_after_push;

                if ok {
                    assert(self.pending@[self.pending@.len() - 1] == i);
                    assert(self.pending@.contains(i));
                }
                assert forall|kk: int| #![trigger bv[cb][kk]] 0 <= kk < k + 1 implies ({
                    let ii = bv[cb][kk] as int;
                    if dispatchable(pre.graph, reg, pre.ctx, ii) {
                        &&& self.ctx.spec_state(ii) == TargetState::Running
                        &&& self.pending@.contains(bv[cb][kk])
                    } else {
                        self.ctx.spec_state(ii) == TargetState::Skipped
                    }
                }) by {
                    if kk < k {
                        assert(bv[cb][kk] != bv[cb][k as int]);
                        if dispatchable(pre.graph, reg, pre.ctx, bv[cb][kk] as int) {
                            assert(p0.contains(bv[cb][kk]));
                        }
                    }
                };
            }
        }
        self.in_batch = true;
    }
}

impl Pipeline {
    /// Records one dispatched node's completed operation outcomes: runs the
    /// per-target runner, which snapshots the allow-failure policy, keeps an
    /// early `Passthrough` for persistent tasks, derives the final status
    /// and flakiness, and commits exactly one state for the node; the
    /// finished action joins the results and the node leaves `pending`.
    #[verifier::rlimit(60)]
    pub fn complete_node(
        &mut self,
        registry: &Registry,
        node_id: usize,
        operations: Vec<Operation>,
    ) -> (r: TaskResultStatus)
        requires
            old(self).inv(registry@),
            old(self).in_batch,
            old(self).pending@.contains(node_id),
        ensures
            final(self).inv(registry@),
            complete_node_post(*old(self), *final(self), registry@, node_id, operations@, r),
    {
        let ghost reg = registry@;
        let ghost pre = *self;
        let ghost bv = batch_views(self.batches@);
        let ghost cb = self.current_batch as int;

        // Take the node out of `pending`.
        let mut idx: usize = 0;
        let pn = self.pending.len();
        let mut found = false;
        for m in 0..pn
            invariant
                pn == self.pending@.len(),
                !found ==> forall|j: int| 0 <= j < m ==> self.pending@[j] != node_id,
                found ==> idx < pn && self.pending@[idx as int] == node_id,
        {
            if !found && self.pending[m] == node_id {
                idx = m;
                found = true;
            }
        }
        proof {
            if !found {
                let j = choose|j: int|
                    0 <= j < self.pending@.len() && self.pending@[j] == node_id;
                assert(false);
            }
        }
        self.pending.remove(idx);
        proof {
            assert(self.pending@ == pre.pending@.remove(idx as int));
            assert forall|m: int| 0 <= m < self.pending@.len()
                implies pre.pending@.contains(#[trigger] self.pending@[m]) by {
                if m < idx {
                    assert(self.pending@[m] == pre.pending@[m]);
                } else {
                    assert(self.pending@[m] == pre.pending@[m + 1]);
                }
            };
            assert(!self.pending@.contains(node_id)) by {
                if self.pending@.contains(node_id) {
                    let m = choose|m: int|
                        0 <= m < self.pending@.len() && self.pending@[m] == node_id;
                    if m < idx {
                        assert(pre.pending@[m] != pre.pending@[idx as int]);
                    } else {
                        assert(pre.pending@[m + 1] != pre.pending@[idx as int]);
                    }
                }
            };
            assert forall|m: int|
                0 <= m < pre.pending@.len() && pre.pending@[m] != node_id
                implies self.pending@.contains(#[trigger] pre.pending@[m]) by {
                if m < idx {
                    assert(self.pending@[m] == pre.pending@[m]);
                } else {
                    assert(m > idx);
                    assert(self.pending@[m - 1] == pre.pending@[m]);
                }
            };
            assert(in_batch(bv, cb, node_id as int));
            assert(node_id < self.graph.node_count());
            assert(pre.ctx.spec_state(node_id as int) == TargetState::Running);
        }

        let tgt = self.graph.node_target(node_id);
        let project = match registry.get_project(&tgt.project_id) {
            Some(p) => p,
            None => {
                proof {
                    assert(lookup_task(reg, pre.graph.node_views()[node_id as int]) is Some);
                    assert(false);
                }
                return TaskResultStatus::Invalid;
            },
        };
        let mut action = Action::new();
        let r = match run_task(&mut action, &mut self.ctx, node_id, project, tgt, operations) {
            Ok(status) => status,
            Err(_) => {
                proof {
                    assert(lookup_task(reg, pre.graph.node_views()[node_id as int]) is Some);
                    assert(false);
                }
                return TaskResultStatus::Invalid;
            },
        };
        proof {
            assert(find_task(project@.tasks, tgt@.task_id)->Some_0 == lookup_task(
                reg,
                pre.graph.node_views()[node_id as int],
            )->Some_0);
        }
        self.results.push(action);
        proof {
            assert(self.ctx.states@ =~= pre.ctx.states@.update(
                node_id as int,
                self.ctx.states@[node_id as int],
            ));
            lemma_count_terminal_update(
                pre.ctx.states@,
                node_id as int,
                self.ctx.states@[node_id as int],
            );
            assert(is_terminal(self.ctx.spec_state(node_id as int)));
            assert forall|b: int, k: int|
                0 <= b < cb && 0 <= k < bv[b].len() implies is_terminal(
                self.ctx.spec_state((#[trigger] bv[b][k]) as int),
            ) by {
                if bv[b][k] != node_id {
                    assert(self.ctx.spec_state(bv[b][k] as int) == pre.ctx.spec_state(
                        bv[b][k] as int,
                    ));
                }
            };
            assert forall|b: int, k: int|
                cb + 1 <= b < bv.len() && 0 <= k < bv[b].len()
                implies self.ctx.spec_state((#[trigger] bv[b][k]) as int)
                    == TargetState::Pending by {
                if in_batch(bv, cb, bv[b][k] as int) {
                    let kk = choose|kk: int| 0 <= kk < bv[cb].len() && bv[cb][kk] == bv[b][k];
                    assert(bv[cb][kk] != bv[b][k]);
                }
                assert(bv[b][k] != node_id);
            };
            assert forall|k: int| 0 <= k < bv[cb].len() implies is_terminal(
                self.ctx.spec_state((#[trigger] bv[cb][k]) as int),
            ) || self.ctx.spec_state(bv[cb][k] as int) == TargetState::Running by {
                if bv[cb][k] != node_id {
                    assert(self.ctx.spec_state(bv[cb][k] as int) == pre.ctx.spec_state(
                        bv[cb][k] as int,
                    ));
                }
            };
        }
        r
    }

    /// Closes the open batch once every dispatched node has completed: the
    /// barrier releases, every member's state is committed, and the next
    /// batch — or completion — follows.
    pub fn end_batch(&mut self, registry: &Registry)
        requires
            old(self).inv(registry@),
            old(self).in_batch,
            old(self).pending@.len() == 0,
        ensures
            final(self).inv(registry@),
            final(self).graph == old(self).graph,
            final(self).batches@ == old(self).batches@,
            final(self).ctx == old(self).ctx,
            final(self).results@ == old(self).results@,
            final(self).unaffected@ == old(self).unaffected@,
            final(self).current_batch == old(self).current_batch + 1,
            !final(self).in_batch,
            (final(self).phase == PipelinePhase::Executing <==> old(self).current_batch + 1
                < old(self).batches@.len()),
    {
        let ghost bv = batch_views(self.batches@);
        let ghost cb = self.current_batch as int;
        proof {
            assert forall|k: int| 0 <= k < bv[cb].len() implies is_terminal(
                self.ctx.spec_state((#[trigger] bv[cb][k]) as int),
            ) by {
                if self.ctx.spec_state(bv[cb][k] as int) == TargetState::Running {
                    assert(self.pending@.contains(bv[cb][k]));
                    let m = choose|m: int|
                        0 <= m < self.pending@.len() && self.pending@[m] == bv[cb][k];
                }
            };
        }
        let nb = self.batches.len();
        proof {
            assert(self.phase == PipelinePhase::Executing);
            assert(self.current_batch < nb);
        }
        self.current_batch = self.current_batch + 1;
        self.in_batch = false;
        if self.current_batch == nb {
            self.phase = PipelinePhase::Completed;
        }
    }
}

/// Law: a completed run holds exactly one result for every resolved target
/// — one per attempted or skipped node, none twice, and none for targets
/// that affected-filtering eliminated, since those never became nodes.
pub proof fn lemma_completed_run_reports_every_target(p: Pipeline, reg: Seq<ProjectView>)
    requires
        p.inv(reg),
        p.phase == PipelinePhase::Completed,
    ensures
        p.results@.len() == p.graph.node_count(),
{
    let bv = batch_views(p.batches@);
    assert(p.current_batch == bv.len());
    assert forall|i: int| 0 <= i < p.ctx.states@.len()
        implies is_terminal(#[trigger] p.ctx.states@[i]) by {
        assert(crate::graph::node_covered(bv, i));
        let b = choose|b: int| 0 <= b < bv.len() && in_batch(bv, b, i);
        let k = choose|k: int| 0 <= k < bv[b].len() && bv[b][k] == i;
        assert(is_terminal(p.ctx.spec_state(bv[b][k] as int)));
    };
    lemma_count_terminal_bounds(p.ctx.states@);
}

} // verus!
