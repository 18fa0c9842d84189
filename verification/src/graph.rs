//! Dependency graph over targets. Nodes are appended in dependency-first
//! (post-)order, so every edge points to a strictly smaller node index: the
//! graph a run resolves is acyclic by construction, and the node order is
//! already topological.
use vstd::prelude::*;
use crate::registry::{
    find_project, find_task, lookup_task, string_views, target_views, ProjectView, Registry,
    Target, TargetView, TaskConfig, TaskView,
};

verus! {

/// Some declared input path of the task is a member of the touched set.
pub open spec fn inputs_hit(task: TaskView, touched: Seq<Seq<char>>) -> bool {
    exists|k: int| 0 <= k < task.inputs.len() && touched.contains(#[trigger] task.inputs[k])
}

/// The target's own task exists and one of its declared inputs is touched.
pub open spec fn task_touched(
    reg: Seq<ProjectView>,
    touched: Seq<Seq<char>>,
    t: TargetView,
) -> bool {
    &&& lookup_task(reg, t) is Some
    &&& inputs_hit(lookup_task(reg, t)->Some_0, touched)
}

/// A target is affected when one of its own declared inputs is touched, or
/// — transitively — when any target reachable along its declared
/// dependencies is: some declared path leads from it to a directly touched
/// target.
pub open spec fn affected(
    reg: Seq<ProjectView>,
    touched: Seq<Seq<char>>,
    t: TargetView,
) -> bool {
    exists|p: Seq<TargetView>|
        is_decl_path(reg, p) && p.first() == t && task_touched(reg, touched, p.last())
}

/// `b` is a declared dependency of `a`.
pub open spec fn is_decl_dep(reg: Seq<ProjectView>, a: TargetView, b: TargetView) -> bool {
    &&& lookup_task(reg, a) is Some
    &&& lookup_task(reg, a)->Some_0.deps.contains(b)
}

/// `p` is a nonempty chain of targets in which each next element is a
/// declared dependency of the previous one.
pub open spec fn is_decl_path(reg: Seq<ProjectView>, p: Seq<TargetView>) -> bool {
    &&& p.len() >= 1
    &&& forall|i: int| 0 <= i < p.len() - 1 ==> is_decl_dep(reg, #[trigger] p[i], p[i + 1])
}

/// `p` is a declared dependency cycle: a chain whose last element declares
/// the first as a dependency again.
pub open spec fn is_decl_cycle(reg: Seq<ProjectView>, p: Seq<TargetView>) -> bool {
    &&& is_decl_path(reg, p)
    &&& is_decl_dep(reg, p.last(), p.first())
}

/// `to` can be reached from `from` along declared dependencies (in zero or
/// more steps).
pub open spec fn reachable_from(
    reg: Seq<ProjectView>,
    from: TargetView,
    to: TargetView,
) -> bool {
    exists|p: Seq<TargetView>|
        is_decl_path(reg, p) && p.first() == from && p.last() == to
}

/// All targets the registry knows (project and task both declared).
pub open spec fn target_pool(reg: Seq<ProjectView>) -> Set<TargetView> {
    Set::new(|tv: TargetView| lookup_task(reg, tv) is Some)
}

/// The targets of one project, as `(project, task)` pairs.
pub open spec fn project_pairs(p: ProjectView) -> Seq<TargetView> {
    p.tasks.map_values(
        |t: TaskView| TargetView { project_id: p.project_id, task_id: t.task_id },
    )
}

/// Every `(project, task)` pair the registry declares, in order.
pub open spec fn enum_pairs(reg: Seq<ProjectView>) -> Seq<TargetView>
    decreases reg.len(),
{
    if reg.len() == 0 {
        Seq::empty()
    } else {
        project_pairs(reg[0]) + enum_pairs(reg.drop_first())
    }
}

proof fn lemma_find_task_some_index(tasks: Seq<TaskView>, id: Seq<char>)
    requires
        find_task(tasks, id) is Some,
    ensures
        exists|k: int| 0 <= k < tasks.len() && #[trigger] tasks[k].task_id == id,
    decreases tasks.len(),
{
    if tasks.len() > 0 && tasks[0].task_id == id {
    } else {
        lemma_find_task_some_index(tasks.drop_first(), id);
        let k = choose|k: int|
            0 <= k < tasks.drop_first().len() && #[trigger] tasks.drop_first()[k].task_id == id;
        assert(tasks[k + 1].task_id == id);
    }
}

proof fn lemma_known_target_enumerated(reg: Seq<ProjectView>, tv: TargetView)
    requires
        lookup_task(reg, tv) is Some,
    ensures
        enum_pairs(reg).contains(tv),
    decreases reg.len(),
{
    if reg.len() > 0 && reg[0].project_id == tv.project_id {
        lemma_find_task_some_index(reg[0].tasks, tv.task_id);
        let k = choose|k: int|
            0 <= k < reg[0].tasks.len() && #[trigger] reg[0].tasks[k].task_id == tv.task_id;
        assert(project_pairs(reg[0])[k] == tv);
        assert(enum_pairs(reg)[k] == tv);
    } else {
        lemma_known_target_enumerated(reg.drop_first(), tv);
        let k = choose|k: int|
            0 <= k < enum_pairs(reg.drop_first()).len()
                && #[trigger] enum_pairs(reg.drop_first())[k] == tv;
        assert(enum_pairs(reg)[project_pairs(reg[0]).len() + k] == tv);
    }
}

/// Some resolved node holds target `t`.
pub open spec fn has_node(g: DepGraph, t: TargetView) -> bool {
    exists|i: int| 0 <= i < g.node_count() && #[trigger] g.node_views()[i] == t
}

/// The set of known targets is finite.
proof fn lemma_target_pool_finite(reg: Seq<ProjectView>)
    ensures
        target_pool(reg).finite(),
        target_pool(reg).len() <= enum_pairs(reg).len(),
{
    broadcast use vstd::seq_lib::seq_to_set_is_finite;

    assert forall|tv: TargetView| target_pool(reg).contains(tv)
        implies enum_pairs(reg).to_set().contains(tv) by {
        lemma_known_target_enumerated(reg, tv);
    };
    vstd::set_lib::lemma_len_subset(target_pool(reg), enum_pairs(reg).to_set());
    enum_pairs(reg).lemma_cardinality_of_set();
}

/// A fatal graph-construction error: the run aborts before anything
/// executes.
#[derive(Debug)]
pub enum GraphError {
    /// The named target's project does not exist.
    UnknownTarget(Target),
    /// The named target's project exists but does not declare the task.
    UnknownTask(Target),
    /// The declared dependencies revisit a target still being resolved; the
    /// carried path is the offending cycle.
    CyclicDependency(Vec<Target>),
}

/// The execution graph for one run: `nodes[i]` is a resolved target and
/// `edges[i]` the node indices of its declared dependencies.
pub struct DepGraph {
    pub nodes: Vec<Target>,
    pub edges: Vec<Vec<usize>>,
}

impl DepGraph {
    pub open spec fn node_views(self) -> Seq<TargetView> {
        crate::registry::target_views(self.nodes@)
    }

    pub open spec fn spec_edges(self) -> Seq<Seq<usize>> {
        self.edges@.map_values(|e: Vec<usize>| e@)
    }

    pub open spec fn node_count(self) -> nat {
        self.nodes@.len()
    }

    /// Well-formed graph: one edge list per node, every edge points to a
    /// strictly smaller node index, and no target appears twice.
    pub open spec fn wf(self) -> bool {
        &&& self.edges@.len() == self.nodes@.len()
        &&& forall|i: int, k: int|
            0 <= i < self.spec_edges().len() && 0 <= k < self.spec_edges()[i].len()
                ==> (#[trigger] self.spec_edges()[i][k]) < i
        &&& forall|i: int, j: int|
            0 <= i < j < self.node_views().len()
                ==> self.node_views()[i] != self.node_views()[j]
    }

    /// The graph agrees with the registry: every node's target names an
    /// existing task, and its edge list maps index-for-index onto that
    /// task's declared dependency targets.
    pub open spec fn resolved_from(self, reg: Seq<crate::registry::ProjectView>) -> bool {
        forall|i: int| 0 <= i < self.node_views().len() ==> {
            let t = lookup_task(reg, #[trigger] self.node_views()[i]);
            &&& t is Some
            &&& self.spec_edges()[i].len() == t->Some_0.deps.len()
            &&& forall|k: int| 0 <= k < self.spec_edges()[i].len()
                ==> self.node_views()[#[trigger] self.spec_edges()[i][k] as int]
                    == t->Some_0.deps[k]
        }
    }

    /// An empty graph, created fresh for each run.
    pub fn new() -> (r: DepGraph)
        ensures
            r.node_count() == 0,
            r.wf(),
            forall|reg: Seq<crate::registry::ProjectView>| r.resolved_from(reg),
    {
        DepGraph { nodes: Vec::new(), edges: Vec::new() }
    }

    /// The target at a node index.
    pub fn node_target(&self, i: usize) -> (r: &Target)
        requires
            i < self.node_count(),
        ensures
            r@ == self.node_views()[i as int],
    {
        &self.nodes[i]
    }

    /// How many nodes the graph holds.
    pub fn len(&self) -> (r: usize)
        ensures
            r == self.node_count(),
    {
        self.nodes.len()
    }

    /// `self` grew out of `pre`: every node of `pre` is still there, at the
    /// same index and with the same edges.
    pub open spec fn extends(self, pre: DepGraph) -> bool {
        &&& pre.node_count() <= self.node_count()
        &&& forall|i: int| 0 <= i < pre.node_count()
            ==> #[trigger] self.node_views()[i] == pre.node_views()[i]
                && self.spec_edges()[i] == pre.spec_edges()[i]
    }

    /// The node holding target `t`, if `t` is already resolved.
    fn find_node(&self, t: &Target) -> (r: Option<usize>)
        ensures
            match r {
                Some(i) => i < self.node_count() && self.node_views()[i as int] == t@,
                None => forall|i: int|
                    0 <= i < self.node_views().len() ==> self.node_views()[i] != t@,
            },
    {
        let n = self.nodes.len();
        for i in 0..n
            invariant
                n == self.nodes@.len(),
                forall|j: int| 0 <= j < i ==> self.node_views()[j] != t@,
        {
            if self.nodes[i].same_as(t) {
                assert(self.node_views()[i as int] == t@);
                return Some(i);
            }
        }
        None
    }
}

/// The resolution stack is sound: no target repeats, every entry is a known
/// target, and no entry is already a resolved node of `g`.
pub open spec fn stack_ok(
    reg: Seq<ProjectView>,
    g: DepGraph,
    sv: Seq<TargetView>,
) -> bool {
    &&& forall|i: int, j: int| 0 <= i < j < sv.len() ==> #[trigger] sv[i] != #[trigger] sv[j]
    &&& forall|i: int| 0 <= i < sv.len() ==> lookup_task(reg, #[trigger] sv[i]) is Some
    &&& forall|i: int, j: int|
        0 <= i < g.node_views().len() && 0 <= j < sv.len()
            ==> #[trigger] g.node_views()[i] != #[trigger] sv[j]
}

/// The target a run was asked to resolve when the stack began: the bottom
/// of the stack, or the requested target itself for an empty stack.
pub open spec fn root_of(sv: Seq<TargetView>, t: TargetView) -> TargetView {
    if sv.len() > 0 {
        sv[0]
    } else {
        t
    }
}

/// What each graph-construction error guarantees: an unknown-target error
/// names a target that truly has no project, reached from the requested
/// root along declared dependencies; an unknown-task error likewise names a
/// reachable target whose task is not declared; a cyclic-dependency error
/// carries a genuine declared cycle.
pub open spec fn graph_err_post(
    reg: Seq<ProjectView>,
    root: TargetView,
    e: GraphError,
) -> bool {
    match e {
        GraphError::UnknownTarget(u) => {
            &&& find_project(reg, u@.project_id) is None
            &&& reachable_from(reg, root, u@)
        },
        GraphError::UnknownTask(u) => {
            &&& lookup_task(reg, u@) is None
            &&& reachable_from(reg, root, u@)
        },
        GraphError::CyclicDependency(p) => {
            &&& is_decl_cycle(reg, target_views(p@))
            &&& reachable_from(reg, root, target_views(p@).first())
        },
    }
}

/// Everything `resolve_target` guarantees: the graph stays well-formed,
/// consistent with the registry, and only grows; on success the returned
/// node holds the requested target; on failure the error is genuine, per
/// [`graph_err_post`].
pub open spec fn resolve_post(
    pre: DepGraph,
    post: DepGraph,
    reg: Seq<ProjectView>,
    t: TargetView,
    r: Result<usize, GraphError>,
) -> bool {
    &&& post.wf()
    &&& post.resolved_from(reg)
    &&& post.extends(pre)
    &&& match r {
        Ok(id) => id < post.node_count() && post.node_views()[id as int] == t,
        Err(e) => graph_err_post(reg, t, e),
    }
}

/// Position of `t` in the stack, if present.
fn find_in_stack(stack: &Vec<Target>, t: &Target) -> (r: Option<usize>)
    ensures
        match r {
            Some(k) => k < stack@.len() && target_views(stack@)[k as int] == t@,
            None => forall|j: int|
                0 <= j < stack@.len() ==> target_views(stack@)[j] != t@,
        },
{
    let n = stack.len();
    for k in 0..n
        invariant
            n == stack@.len(),
            forall|j: int| 0 <= j < k ==> target_views(stack@)[j] != t@,
    {
        if stack[k].same_as(t) {
            assert(target_views(stack@)[k as int] == t@);
            return Some(k);
        }
    }
    None
}

impl DepGraph {
    /// Resolves one target and, recursively, its declared dependencies,
    /// appending nodes in dependency-first order. The stack holds the
    /// targets whose resolution is still in progress, chained along
    /// declared dependency edges; meeting one of them again is a cycle.
    #[verifier::rlimit(100)]
    #[verifier::loop_isolation(false)]
    fn resolve_node(
        &mut self,
        target: &Target,
        registry: &Registry,
        stack: &mut Vec<Target>,
    ) -> (r: Result<usize, GraphError>)
        requires
            old(self).wf(),
            old(self).resolved_from(registry@),
            stack_ok(registry@, *old(self), target_views(old(stack)@)),
            is_decl_path(registry@, target_views(old(stack)@).push(target@)),
        ensures
            final(self).wf(),
            final(self).resolved_from(registry@),
            final(self).extends(*old(self)),
            match r {
                Ok(id) => {
                    &&& target_views(final(stack)@) == target_views(old(stack)@)
                    &&& stack_ok(registry@, *final(self), target_views(final(stack)@))
                    &&& id < final(self).node_count()
                    &&& final(self).node_views()[id as int] == target@
                },
                Err(e) => graph_err_post(
                    registry@,
                    root_of(target_views(old(stack)@), target@),
                    e,
                ),
            },
        decreases target_pool(registry@)
            .difference(target_views(old(stack)@).to_set())
            .len(),
    {
        let ghost svs = target_views(stack@);
        let ghost g0 = *self;
        let ghost reg = registry@;

        // Already resolved: reuse the node.
        if let Some(id) = self.find_node(target) {
            return Ok(id);
        }

        // Still being resolved further down the stack: a declared cycle.
        if let Some(k) = find_in_stack(stack, target) {
            let cyc = clone_suffix(stack, k);
            proof {
                let cv = target_views(cyc@);
                let p = svs.push(target@);
                let n = svs.len() as int;
                assert(cv =~= svs.subrange(k as int, n));
                assert forall|i: int| 0 <= i < cv.len() - 1
                    implies is_decl_dep(reg, #[trigger] cv[i], cv[i + 1]) by {
                    assert(cv[i] == p[k + i]);
                    assert(cv[i + 1] == p[k + i + 1]);
                    assert(is_decl_dep(reg, p[k + i], p[k + i + 1]));
                };
                assert(cv.last() == p[n - 1]);
                assert(is_decl_dep(reg, p[n - 1], p[n]));
                assert(cv.first() == target@);
                assert(is_decl_cycle(reg, cv));
                // The cycle's entry target is reachable from the root: the
                // stack up to it is itself a declared path.
                let q = svs.take(k + 1);
                assert forall|i: int| 0 <= i < q.len() - 1
                    implies is_decl_dep(reg, #[trigger] q[i], q[i + 1]) by {
                    assert(q[i] == p[i]);
                    assert(q[i + 1] == p[i + 1]);
                };
                assert(is_decl_path(reg, q));
                assert(q.first() == root_of(svs, target@));
                assert(q.last() == target@);
                assert(reachable_from(reg, root_of(svs, target@), cv.first()));
            }
            return Err(GraphError::CyclicDependency(cyc));
        }
        proof {
            assert forall|j: int| 0 <= j < svs.len() implies svs[j] != target@ by {
                assert(target_views(stack@)[j] != target@);
            };
            assert(!svs.contains(target@));
        }

        // Look the target's project and task up.
        let project = match registry.get_project(&target.project_id) {
            None => {
                proof {
                    let p = svs.push(target@);
                    assert(is_decl_path(reg, p));
                    assert(p.first() == root_of(svs, target@));
                    assert(p.last() == target@);
                    assert(reachable_from(reg, root_of(svs, target@), target@));
                }
                return Err(GraphError::UnknownTarget(target.duplicate()));
            },
            Some(p) => p,
        };
        let task = match project.get_task(&target.task_id) {
            None => {
                proof {
                    let p = svs.push(target@);
                    assert(is_decl_path(reg, p));
                    assert(p.first() == root_of(svs, target@));
                    assert(p.last() == target@);
                    assert(reachable_from(reg, root_of(svs, target@), target@));
                    assert(lookup_task(reg, target@) is None);
                }
                return Err(GraphError::UnknownTask(target.duplicate()));
            },
            Some(t) => t,
        };
        let ghost taskv = task@;
        proof {
            assert(lookup_task(reg, target@) == Some(taskv));
        }

        stack.push(target.duplicate());
        proof {
            assert(target_views(stack@) =~= svs.push(target@));
        }

        let mut dep_ids: Vec<usize> = Vec::new();
        let nd = task.deps.len();
        for k in 0..nd
            invariant
                nd == task.deps@.len(),
                self.wf(),
                self.resolved_from(reg),
                self.extends(g0),
                reg == registry@,
                lookup_task(reg, target@) == Some(taskv),
                taskv == task@,
                target_views(stack@) == svs.push(target@),
                stack_ok(reg, *self, target_views(stack@)),
                is_decl_path(reg, svs.push(target@)),
                dep_ids@.len() == k,
                forall|j: int| 0 <= j < k ==> (#[trigger] dep_ids@[j]) < self.node_count()
                    && self.node_views()[dep_ids@[j] as int] == taskv.deps[j],
        {
            let dep = &task.deps[k];
            let ghost pre = *self;
            proof {
                assert(taskv.deps[k as int] == dep@);
                assert(taskv.deps.contains(dep@));
                assert(is_decl_dep(reg, target@, dep@));
                // The extended chain stays a declared path.
                let p = svs.push(target@);
                let p2 = target_views(stack@).push(dep@);
                assert forall|i: int| 0 <= i < p2.len() - 1
                    implies is_decl_dep(reg, #[trigger] p2[i], p2[i + 1]) by {
                    if i < p.len() - 1 {
                        assert(p2[i] == p[i]);
                        assert(p2[i + 1] == p[i + 1]);
                    } else {
                        assert(p2[i] == target@);
                        assert(p2[i + 1] == dep@);
                    }
                };
                // Termination: the stack swallowed one more known target.
                broadcast use vstd::seq_lib::lemma_seq_contains_after_push;

                lemma_target_pool_finite(reg);
                assert(target_pool(reg).contains(target@));
                assert(!svs.to_set().contains(target@));
                target_pool(reg).lemma_set_insert_diff_decreases(svs.to_set(), target@);
                assert(target_views(stack@).to_set() =~= svs.to_set().insert(target@));
            }
            match self.resolve_node(dep, registry, stack) {
                Ok(id) => {
                    proof {
                        assert(self.extends(g0)) by {
                            assert(self.extends(pre));
                            assert(pre.extends(g0));
                        };
                    }
                    dep_ids.push(id);
                },
                Err(e) => {
                    proof {
                        assert(root_of(svs.push(target@), dep@) == root_of(svs, target@));
                    }
                    return Err(e);
                },
            }
        }

        let ghost spre = stack@;
        stack.pop();
        proof {
            assert forall|j: int| 0 <= j < svs.len() implies target_views(stack@)[j]
                == svs[j] by {
                assert(target_views(spre)[j] == spre[j]@);
                assert(stack@[j] == spre[j]);
            };
            assert(target_views(stack@) =~= svs);
        }

        let ghost g1 = *self;
        let id = self.nodes.len();
        self.nodes.push(target.duplicate());
        self.edges.push(dep_ids);
        proof {
            assert(self.node_views() =~= g1.node_views().push(target@));
            assert(self.spec_edges() =~= g1.spec_edges().push(
                self.spec_edges().last(),
            ));
            let nv = self.node_views();
            let ev = self.spec_edges();
            // The new node's target was on the stack throughout, so no
            // resolved node already holds it.
            assert forall|j: int| 0 <= j < id implies nv[j] != target@ by {
                assert(g1.node_views()[j] != (svs.push(target@))[svs.len() as int]);
            };
            assert(self.wf());
            assert forall|i: int| 0 <= i < nv.len() implies {
                let t = lookup_task(reg, #[trigger] nv[i]);
                &&& t is Some
                &&& ev[i].len() == t->Some_0.deps.len()
                &&& forall|kk: int| 0 <= kk < ev[i].len()
                    ==> nv[#[trigger] ev[i][kk] as int] == t->Some_0.deps[kk]
            } by {
                if i < id {
                    assert(g1.resolved_from(reg));
                    assert(nv[i] == g1.node_views()[i]);
                    assert(ev[i] == g1.spec_edges()[i]);
                    let t = lookup_task(reg, g1.node_views()[i]);
                    assert forall|kk: int| 0 <= kk < ev[i].len()
                        implies nv[#[trigger] ev[i][kk] as int] == t->Some_0.deps[kk] by {
                        assert(g1.spec_edges()[i][kk] < i);
                        assert(nv[g1.spec_edges()[i][kk] as int]
                            == g1.node_views()[g1.spec_edges()[i][kk] as int]);
                    };
                } else {
                    assert(nv[i] == target@);
                    assert(ev[i] =~= dep_ids@);
                    assert forall|kk: int| 0 <= kk < ev[i].len()
                        implies nv[#[trigger] ev[i][kk] as int] == taskv.deps[kk] by {
                        assert(dep_ids@[kk] < g1.node_count());
                        assert(nv[dep_ids@[kk] as int]
                            == g1.node_views()[dep_ids@[kk] as int]);
                    };
                }
            };
            assert(self.resolved_from(reg));
            assert(self.extends(g0));
            assert(stack_ok(reg, *self, svs)) by {
                assert forall|i: int, j: int|
                    0 <= i < nv.len() && 0 <= j < svs.len()
                        implies nv[i] != svs[j] by {
                    if i < id {
                        assert(g1.node_views()[i] != (svs.push(target@))[j]);
                    } else {
                        assert(svs[j] != target@);
                    }
                };
            };
        }
        Ok(id)
    }

    /// Resolves a requested target into the graph: looks its project and
    /// task up, recursively resolves the task's declared dependency
    /// targets, and inserts edges to them. Fails with `UnknownTarget` or
    /// `UnknownTask` when a target reached along declared dependencies does
    /// not exist, and with `CyclicDependency` when a dependency chain
    /// revisits a target still being resolved; the guarantees are stated in
    /// [`resolve_post`].
    pub fn resolve_target(
        &mut self,
        target: &Target,
        registry: &Registry,
    ) -> (r: Result<usize, GraphError>)
        requires
            old(self).wf(),
            old(self).resolved_from(registry@),
        ensures
            resolve_post(*old(self), *final(self), registry@, target@, r),
    {
        let mut stack: Vec<Target> = Vec::new();
        proof {
            assert(target_views(stack@) =~= Seq::<TargetView>::empty());
        }
        self.resolve_node(target, registry, &mut stack)
    }
}

/// Views of a sequence of batches.
pub open spec fn batch_views(bs: Seq<Vec<usize>>) -> Seq<Seq<usize>> {
    bs.map_values(|v: Vec<usize>| v@)
}

/// Node `i` appears in batch `b`.
pub open spec fn in_batch(bs: Seq<Seq<usize>>, b: int, node: int) -> bool {
    exists|k: int| 0 <= k < bs[b].len() && bs[b][k] == node
}

/// Node `i` appears in some batch.
pub open spec fn node_covered(bs: Seq<Seq<usize>>, i: int) -> bool {
    exists|b: int| 0 <= b < bs.len() && in_batch(bs, b, i)
}

/// Node `d` appears in a batch strictly before batch `b`.
pub open spec fn in_earlier_batch(bs: Seq<Seq<usize>>, b: int, d: int) -> bool {
    exists|b2: int| 0 <= b2 < b && in_batch(bs, b2, d)
}

/// The batch partition is valid for graph `g`: every entry is a node of
/// `g`; every node of `g` stands in some batch, and in exactly one place;
/// and every node's dependencies stand in strictly earlier batches, so the
/// members of one batch have no dependency relationship to each other.
pub open spec fn batches_of(g: DepGraph, bs: Seq<Seq<usize>>) -> bool {
    &&& forall|b: int, k: int|
        0 <= b < bs.len() && 0 <= k < bs[b].len() ==> (#[trigger] bs[b][k]) < g.node_count()
    &&& forall|i: int| 0 <= i < g.node_count() ==> #[trigger] node_covered(bs, i)
    &&& forall|b1: int, k1: int, b2: int, k2: int|
        0 <= b1 < bs.len() && 0 <= k1 < bs[b1].len() && 0 <= b2 < bs.len()
            && 0 <= k2 < bs[b2].len() && (b1 != b2 || k1 != k2)
            ==> (#[trigger] bs[b1][k1]) != (#[trigger] bs[b2][k2])
    &&& forall|b: int, k: int, e: int|
        #![trigger g.spec_edges()[bs[b][k] as int][e]]
        0 <= b < bs.len() && 0 <= k < bs[b].len()
            && 0 <= e < g.spec_edges()[bs[b][k] as int].len()
            ==> in_earlier_batch(bs, b, g.spec_edges()[bs[b][k] as int][e] as int)
}

impl DepGraph {
    /// Partitions the resolved nodes into ordered batches: batch `i` holds
    /// exactly the nodes whose prerequisites all stand in batches before
    /// `i`, so the nodes of one batch are eligible for parallel execution.
    /// Every dependency edge leads from a node to a strictly earlier batch;
    /// because resolution already rejected cycles — well-formedness makes
    /// every edge point to a smaller node index — a valid partition always
    /// exists and no defensive cycle check can fire.
    #[verifier::loop_isolation(false)]
    #[verifier::rlimit(50)]
    pub fn topological_batches(&self) -> (r: Vec<Vec<usize>>)
        requires
            self.wf(),
        ensures
            batches_of(*self, batch_views(r@)),
            self.node_count() == 0 ==> r@.len() == 0,
    {
        let n = self.nodes.len();
        let mut batches: Vec<Vec<usize>> = Vec::new();
        if n == 0 {
            return batches;
        }

        // Each node's batch level: one past the highest level among its
        // dependencies. Levels are computable in index order because every
        // edge points to a smaller index.
        let mut level: Vec<usize> = Vec::new();
        let mut maxl: usize = 0;
        for i in 0..n
            invariant
                level@.len() == i,
                forall|j: int| 0 <= j < i ==> (#[trigger] level@[j]) <= j,
                forall|j: int, e: int|
                    #![trigger self.spec_edges()[j][e]]
                    0 <= j < i && 0 <= e < self.spec_edges()[j].len()
                        ==> level@[self.spec_edges()[j][e] as int] < level@[j],
                forall|j: int| 0 <= j < i ==> (#[trigger] level@[j]) <= maxl,
                maxl < n,
        {
            let mut lev: usize = 0;
            let ne = self.edges[i].len();
            for e in 0..ne
                invariant
                    ne == self.spec_edges()[i as int].len(),
                    lev <= i,
                    forall|e2: int|
                        0 <= e2 < e
                            ==> level@[self.spec_edges()[i as int][e2] as int]
                                < lev,
            {
                let d = self.edges[i][e];
                assert(d < i);
                if level[d] + 1 > lev {
                    lev = level[d] + 1;
                }
            }
            level.push(lev);
            if lev > maxl {
                maxl = lev;
            }
        }

        for b in 0..maxl + 1
            invariant
                batch_views(batches@).len() == b,
                forall|bb: int, k: int|
                    0 <= bb < b && 0 <= k < batch_views(batches@)[bb].len()
                        ==> (#[trigger] batch_views(batches@)[bb][k]) < n
                            && level@[batch_views(batches@)[bb][k] as int] == bb,
                forall|bb: int, k1: int, k2: int|
                    0 <= bb < b && 0 <= k1 < k2 < batch_views(batches@)[bb].len()
                        ==> (#[trigger] batch_views(batches@)[bb][k1])
                            < (#[trigger] batch_views(batches@)[bb][k2]),
                forall|i: int|
                    0 <= i < n && level@[i] < b
                        ==> in_batch(batch_views(batches@), level@[i] as int, i),
        {
            let mut batch: Vec<usize> = Vec::new();
            for i in 0..n
                invariant
                    forall|k: int|
                        0 <= k < batch@.len()
                            ==> (#[trigger] batch@[k]) < i && level@[batch@[k] as int] == b,
                    forall|k1: int, k2: int|
                        0 <= k1 < k2 < batch@.len()
                            ==> (#[trigger] batch@[k1]) < (#[trigger] batch@[k2]),
                    forall|j: int|
                        0 <= j < i && level@[j] == b
                            ==> exists|k: int|
                                0 <= k < batch@.len() && batch@[k] == j,
            {
                let ghost bpre = batch@;
                if level[i] == b {
                    batch.push(i);
                }
                proof {
                    assert forall|j: int| 0 <= j < i + 1 && level@[j] == b
                        implies exists|k: int|
                            0 <= k < batch@.len() && batch@[k] == j by {
                        if j < i {
                            let k = choose|k: int| 0 <= k < bpre.len() && bpre[k] == j;
                            assert(batch@[k] == bpre[k]);
                        } else {
                            assert(batch@[batch@.len() - 1] == j);
                        }
                    };
                }
            }
            let ghost bsv0 = batches@;
            batches.push(batch);
            proof {
                assert(batch_views(batches@) =~= batch_views(bsv0).push(batch@));
                assert forall|bb: int, k: int|
                    0 <= bb < b + 1 && 0 <= k < batch_views(batches@)[bb].len()
                    implies (#[trigger] batch_views(batches@)[bb][k]) < n
                        && level@[batch_views(batches@)[bb][k] as int] == bb by {
                    if bb < b {
                        assert(batch_views(batches@)[bb] == batch_views(bsv0)[bb]);
                    } else {
                        assert(batch_views(batches@)[bb] == batch@);
                    }
                };
                assert forall|bb: int, k1: int, k2: int|
                    0 <= bb < b + 1 && 0 <= k1 < k2 < batch_views(batches@)[bb].len()
                    implies (#[trigger] batch_views(batches@)[bb][k1])
                        < (#[trigger] batch_views(batches@)[bb][k2]) by {
                    if bb < b {
                        assert(batch_views(batches@)[bb] == batch_views(bsv0)[bb]);
                    } else {
                        assert(batch_views(batches@)[bb] == batch@);
                    }
                };
                assert forall|i: int| 0 <= i < n && level@[i] < b + 1
                    implies in_batch(batch_views(batches@), level@[i] as int, i) by {
                    if level@[i] < b {
                        assert(in_batch(batch_views(bsv0), level@[i] as int, i));
                        let k = choose|k: int|
                            0 <= k < batch_views(bsv0)[level@[i] as int].len()
                                && batch_views(bsv0)[level@[i] as int][k] == i;
                        assert(batch_views(batches@)[level@[i] as int] == batch_views(
                            bsv0,
                        )[level@[i] as int]);
                        assert(batch_views(batches@)[level@[i] as int][k] == i);
                    } else {
                        let k = choose|k: int| 0 <= k < batch@.len() && batch@[k] == i;
                        assert(batch_views(batches@)[b as int][k] == i);
                    }
                };
            }
        }

        proof {
            let bv = batch_views(batches@);
            assert forall|b1: int, k1: int, b2: int, k2: int|
                0 <= b1 < bv.len() && 0 <= k1 < bv[b1].len() && 0 <= b2 < bv.len()
                    && 0 <= k2 < bv[b2].len() && (b1 != b2 || k1 != k2)
                implies (#[trigger] bv[b1][k1]) != (#[trigger] bv[b2][k2]) by {
                if b1 == b2 {
                    if k1 < k2 {
                        assert(bv[b1][k1] < bv[b1][k2]);
                    } else {
                        assert(bv[b1][k2] < bv[b1][k1]);
                    }
                } else {
                    assert(level@[bv[b1][k1] as int] == b1);
                    assert(level@[bv[b2][k2] as int] == b2);
                }
            };
            assert forall|i: int| 0 <= i < n implies #[trigger] node_covered(bv, i) by {
                assert(level@[i] <= maxl);
                assert(in_batch(bv, level@[i] as int, i));
            };
            assert forall|b: int, k: int, e: int|
                #![trigger self.spec_edges()[bv[b][k] as int][e]]
                0 <= b < bv.len() && 0 <= k < bv[b].len()
                    && 0 <= e < self.spec_edges()[(bv[b][k]) as int].len()
                implies in_earlier_batch(
                    bv,
                    b,
                    self.spec_edges()[bv[b][k] as int][e] as int,
                ) by {
                let node = bv[b][k] as int;
                let d = self.spec_edges()[node][e] as int;
                assert(0 <= d < n);
                assert(level@[d] < level@[node]);
                assert(level@[node] == b);
                assert(in_batch(bv, level@[d] as int, d));
            };
        }
        batches
    }
}

/// True exactly when `needle` is a member of `haystack`.
fn contains_string(haystack: &Vec<String>, needle: &String) -> (r: bool)
    ensures
        r == string_views(haystack@).contains(needle@),
{
    let n = haystack.len();
    for k in 0..n
        invariant
            n == haystack@.len(),
            forall|j: int| 0 <= j < k ==> string_views(haystack@)[j] != needle@,
    {
        if haystack[k] == *needle {
            assert(string_views(haystack@)[k as int] == needle@);
            return true;
        }
    }
    false
}

/// True exactly when one of the task's declared inputs is touched.
fn inputs_touched(task: &TaskConfig, touched: &Vec<String>) -> (r: bool)
    ensures
        r == inputs_hit(task@, string_views(touched@)),
{
    let n = task.inputs.len();
    for k in 0..n
        invariant
            n == task.inputs@.len(),
            forall|j: int|
                0 <= j < k ==> !string_views(touched@).contains(#[trigger] task@.inputs[j]),
    {
        if contains_string(touched, &task.inputs[k]) {
            assert(task@.inputs[k as int] == task.inputs@[k as int]@);
            return true;
        }
        assert(task@.inputs[k as int] == task.inputs@[k as int]@);
    }
    false
}

/// Some already-marked node among the first `e` dependency edges.
pub open spec fn dep_marked_upto(aff: Seq<bool>, edges_i: Seq<usize>, e: int) -> bool {
    exists|e2: int| 0 <= e2 < e && aff[(#[trigger] edges_i[e2]) as int]
}

/// Some dependency of the edge list is marked affected.
pub open spec fn dep_marked(aff: Seq<bool>, edges_i: Seq<usize>) -> bool {
    dep_marked_upto(aff, edges_i, edges_i.len() as int)
}

impl DepGraph {
    /// Marks each node affected when its own inputs are touched or when one
    /// of its dependencies is marked; computable in one pass because every
    /// edge points to a smaller node index.
    #[verifier::loop_isolation(false)]
    fn compute_affected(&self, registry: &Registry, touched: &Vec<String>) -> (r: Vec<bool>)
        requires
            self.wf(),
            self.resolved_from(registry@),
        ensures
            r@.len() == self.node_count(),
            forall|i: int|
                0 <= i < r@.len()
                    ==> (#[trigger] r@[i]) == (task_touched(
                        registry@,
                        string_views(touched@),
                        self.node_views()[i],
                    ) || dep_marked(r@, self.spec_edges()[i])),
    {
        let ghost reg = registry@;
        let ghost tv = string_views(touched@);
        let n = self.nodes.len();
        let mut aff: Vec<bool> = Vec::new();
        for i in 0..n
            invariant
                aff@.len() == i,
                forall|j: int|
                    0 <= j < i
                        ==> (#[trigger] aff@[j]) == (task_touched(
                            reg,
                            tv,
                            self.node_views()[j],
                        ) || dep_marked(aff@, self.spec_edges()[j])),
        {
            assert(lookup_task(reg, self.node_views()[i as int]) is Some);
            let task = match registry.get_task(&self.nodes[i]) {
                Some(t) => t,
                None => {
                    proof {
                        assert(self.node_views()[i as int] == self.nodes@[i as int]@);
                        assert(false);
                    }
                    return aff;
                },
            };
            proof {
                assert(self.node_views()[i as int] == self.nodes@[i as int]@);
                assert(lookup_task(reg, self.node_views()[i as int]) == Some(task@));
            }
            let ghost own = task_touched(reg, tv, self.node_views()[i as int]);
            let mut marked = inputs_touched(task, touched);
            assert(marked == own);
            let ne = self.edges[i].len();
            for e in 0..ne
                invariant
                    ne == self.spec_edges()[i as int].len(),
                    marked == (own || dep_marked_upto(aff@, self.spec_edges()[i as int], e as int)),
            {
                let d = self.edges[i][e];
                assert(d < i);
                if aff[d] {
                    marked = true;
                    assert(aff@[(self.spec_edges()[i as int][e as int]) as int]);
                }
                proof {
                    if marked && !own && !dep_marked_upto(aff@, self.spec_edges()[i as int], e as int) {
                        assert(aff@[(self.spec_edges()[i as int][e as int]) as int]);
                    }
                }
            }
            let ghost a0 = aff@;
            aff.push(marked);
            proof {
                assert forall|j: int| 0 <= j < i + 1 implies (#[trigger] aff@[j])
                    == (task_touched(reg, tv, self.node_views()[j])
                        || dep_marked(aff@, self.spec_edges()[j])) by {
                    let ej = self.spec_edges()[j];
                    assert forall|e2: int| 0 <= e2 < ej.len()
                        implies aff@[(#[trigger] ej[e2]) as int] == a0[ej[e2] as int] by {
                        assert(ej[e2] < j);
                    };
                    if j < i {
                        assert(aff@[j] == a0[j]);
                        if dep_marked(a0, ej) {
                            let e2 = choose|e2: int|
                                0 <= e2 < ej.len() && a0[(#[trigger] ej[e2]) as int];
                            assert(aff@[ej[e2] as int]);
                        }
                        if dep_marked(aff@, ej) {
                            let e2 = choose|e2: int|
                                0 <= e2 < ej.len() && aff@[(#[trigger] ej[e2]) as int];
                            assert(a0[ej[e2] as int]);
                        }
                    } else {
                        assert(aff@[j] == marked);
                        if dep_marked(a0, ej) {
                            let e2 = choose|e2: int|
                                0 <= e2 < ej.len() && a0[(#[trigger] ej[e2]) as int];
                            assert(aff@[ej[e2] as int]);
                        }
                        if dep_marked(aff@, ej) {
                            let e2 = choose|e2: int|
                                0 <= e2 < ej.len() && aff@[(#[trigger] ej[e2]) as int];
                            assert(a0[ej[e2] as int]);
                        }
                    }
                };
            }
        }
        aff
    }
}

/// The marking `aff` is the affectedness fixpoint over graph `g`: a node is
/// marked exactly when its own inputs are touched or some dependency is
/// marked.
pub open spec fn aff_fix(
    g: DepGraph,
    reg: Seq<ProjectView>,
    tv: Seq<Seq<char>>,
    aff: Seq<bool>,
) -> bool {
    &&& aff.len() == g.node_count()
    &&& forall|i: int|
        0 <= i < aff.len()
            ==> (#[trigger] aff[i]) == (task_touched(reg, tv, g.node_views()[i])
                || dep_marked(aff, g.spec_edges()[i]))
}

proof fn lemma_aff_sound(
    g: DepGraph,
    reg: Seq<ProjectView>,
    tv: Seq<Seq<char>>,
    aff: Seq<bool>,
    i: int,
)
    requires
        g.wf(),
        g.resolved_from(reg),
        aff_fix(g, reg, tv, aff),
        0 <= i < g.node_count(),
        aff[i],
    ensures
        affected(reg, tv, g.node_views()[i]),
    decreases i,
{
    if task_touched(reg, tv, g.node_views()[i]) {
        let p = seq![g.node_views()[i]];
        assert(is_decl_path(reg, p));
        assert(p.first() == g.node_views()[i] && p.last() == g.node_views()[i]);
    } else {
        assert(dep_marked(aff, g.spec_edges()[i]));
        let e = choose|e: int|
            0 <= e < g.spec_edges()[i].len() && aff[(#[trigger] g.spec_edges()[i][e]) as int];
        let d = g.spec_edges()[i][e] as int;
        assert(d < i);
        lemma_aff_sound(g, reg, tv, aff, d);
        let p = choose|p: Seq<TargetView>|
            is_decl_path(reg, p) && p.first() == g.node_views()[d]
                && task_touched(reg, tv, p.last());
        let p2 = seq![g.node_views()[i]] + p;
        let task = lookup_task(reg, g.node_views()[i])->Some_0;
        assert(g.node_views()[d] == task.deps[e]);
        assert(task.deps.contains(g.node_views()[d]));
        assert(is_decl_dep(reg, g.node_views()[i], g.node_views()[d]));
        assert forall|j: int| 0 <= j < p2.len() - 1
            implies is_decl_dep(reg, #[trigger] p2[j], p2[j + 1]) by {
            if j == 0 {
                assert(p2[0] == g.node_views()[i]);
                assert(p2[1] == p[0]);
            } else {
                assert(p2[j] == p[j - 1]);
                assert(p2[j + 1] == p[j]);
            }
        };
        assert(p2.first() == g.node_views()[i]);
        assert(p2.last() == p.last());
        assert(is_decl_path(reg, p2));
    }
}

proof fn lemma_aff_complete(
    g: DepGraph,
    reg: Seq<ProjectView>,
    tv: Seq<Seq<char>>,
    aff: Seq<bool>,
    i: int,
    p: Seq<TargetView>,
)
    requires
        g.wf(),
        g.resolved_from(reg),
        aff_fix(g, reg, tv, aff),
        0 <= i < g.node_count(),
        is_decl_path(reg, p),
        p.first() == g.node_views()[i],
        task_touched(reg, tv, p.last()),
    ensures
        aff[i],
    decreases p.len(),
{
    if p.len() == 1 {
        assert(p.last() == p.first());
    } else {
        assert(is_decl_dep(reg, p[0], p[1]));
        let task = lookup_task(reg, g.node_views()[i])->Some_0;
        assert(task.deps.contains(p[1]));
        let k = choose|k: int| 0 <= k < task.deps.len() && task.deps[k] == p[1];
        assert(g.spec_edges()[i].len() == task.deps.len());
        let d = g.spec_edges()[i][k] as int;
        assert(g.node_views()[d] == task.deps[k]);
        assert(0 <= d < i);
        let p3 = p.drop_first();
        assert forall|j: int| 0 <= j < p3.len() - 1
            implies is_decl_dep(reg, #[trigger] p3[j], p3[j + 1]) by {
            assert(p3[j] == p[j + 1]);
            assert(p3[j + 1] == p[j + 2]);
        };
        assert(p3.first() == p[1]);
        assert(p3.last() == p.last());
        lemma_aff_complete(g, reg, tv, aff, d, p3);
        assert(aff[(g.spec_edges()[i][k]) as int]);
        assert(dep_marked(aff, g.spec_edges()[i]));
    }
}

impl DepGraph {
    /// Behaves as [`DepGraph::resolve_target`], but first decides whether
    /// the target is affected by the touched files — directly through its
    /// own declared inputs, or transitively through any target reachable
    /// along its declared dependencies. An unaffected target is not
    /// resolved: `Ok(None)` is returned and the graph is left exactly as it
    /// was, so a downstream target is scheduled whenever something it
    /// depends on changed even if its own files did not.
    pub fn resolve_target_if_touched(
        &mut self,
        target: &Target,
        touched: &Vec<String>,
        registry: &Registry,
    ) -> (r: Result<Option<usize>, GraphError>)
        requires
            old(self).wf(),
            old(self).resolved_from(registry@),
        ensures
            final(self).wf(),
            final(self).resolved_from(registry@),
            final(self).extends(*old(self)),
            match r {
                Ok(Some(id)) => {
                    &&& id < final(self).node_count()
                    &&& final(self).node_views()[id as int] == target@
                    &&& affected(registry@, string_views(touched@), target@)
                },
                Ok(None) => {
                    &&& *final(self) == *old(self)
                    &&& !affected(registry@, string_views(touched@), target@)
                },
                Err(e) => graph_err_post(registry@, target@, e),
            },
    {
        let ghost reg = registry@;
        let ghost tv = string_views(touched@);
        let mut probe = DepGraph::new();
        let pid = match probe.resolve_target(target, registry) {
            Ok(id) => id,
            Err(e) => {
                return Err(e);
            },
        };
        let aff = probe.compute_affected(registry, touched);
        if aff[pid] {
            proof {
                lemma_aff_sound(probe, reg, tv, aff@, pid as int);
            }
            match self.resolve_target(target, registry) {
                Ok(id) => Ok(Some(id)),
                Err(e) => Err(e),
            }
        } else {
            proof {
                if affected(reg, tv, target@) {
                    let p = choose|p: Seq<TargetView>|
                        is_decl_path(reg, p) && p.first() == target@
                            && task_touched(reg, tv, p.last());
                    lemma_aff_complete(probe, reg, tv, aff@, pid as int, p);
                }
            }
            Ok(None)
        }
    }
}

proof fn lemma_path_descends(g: DepGraph, reg: Seq<ProjectView>, q: Seq<TargetView>, i0: int)
    requires
        g.wf(),
        g.resolved_from(reg),
        is_decl_path(reg, q),
        0 <= i0 < g.node_count(),
        g.node_views()[i0] == q.first(),
    ensures
        exists|i: int| 0 <= i <= i0 && #[trigger] g.node_views()[i] == q.last(),
    decreases q.len(),
{
    if q.len() == 1 {
        assert(g.node_views()[i0] == q.last());
    } else {
        assert(is_decl_dep(reg, q[0], q[1]));
        let task = lookup_task(reg, g.node_views()[i0])->Some_0;
        assert(task.deps.contains(q[1]));
        let k = choose|k: int| 0 <= k < task.deps.len() && task.deps[k] == q[1];
        let d = g.spec_edges()[i0][k] as int;
        assert(g.node_views()[d] == task.deps[k]);
        assert(0 <= d < i0);
        let q3 = q.drop_first();
        assert forall|j: int| 0 <= j < q3.len() - 1
            implies is_decl_dep(reg, #[trigger] q3[j], q3[j + 1]) by {
            assert(q3[j] == q[j + 1]);
            assert(q3[j + 1] == q[j + 2]);
        };
        assert(q3.first() == q[1]);
        assert(q3.last() == q.last());
        lemma_path_descends(g, reg, q3, d);
        let i = choose|i: int| 0 <= i <= d && #[trigger] g.node_views()[i] == q3.last();
        assert(g.node_views()[i] == q.last());
    }
}

/// A well-formed resolved graph holds no target of any declared cycle:
/// edges point to strictly smaller indices, which a cycle cannot do forever.
proof fn lemma_no_cycle_in_graph(
    g: DepGraph,
    reg: Seq<ProjectView>,
    c: Seq<TargetView>,
    i0: int,
)
    requires
        g.wf(),
        g.resolved_from(reg),
        is_decl_path(reg, c),
        0 <= i0 < g.node_count(),
        g.node_views()[i0] == c.first(),
    ensures
        !is_decl_dep(reg, c.last(), c.first()),
{
    if is_decl_dep(reg, c.last(), c.first()) {
        lemma_path_descends(g, reg, c, i0);
        let il = choose|i: int| 0 <= i <= i0 && #[trigger] g.node_views()[i] == c.last();
        let task = lookup_task(reg, g.node_views()[il])->Some_0;
        assert(task.deps.contains(c.first()));
        let k = choose|k: int| 0 <= k < task.deps.len() && task.deps[k] == c.first();
        let d = g.spec_edges()[il][k] as int;
        assert(g.node_views()[d] == task.deps[k]);
        assert(0 <= d < il);
        assert(g.node_views()[d] == g.node_views()[i0]);
        if d < i0 {
            assert(g.node_views()[d] != g.node_views()[i0]);
        }
        assert(false);
    }
}

/// Law: resolving a target whose declared dependency graph contains a cycle
/// always fails with `CyclicDependency` — whichever target the request
/// names, as long as the cycle is reachable from it — provided every target
/// reachable from the request exists, so that no unknown-target error is
/// reported first. The carried path is itself a genuine declared cycle.
pub proof fn lemma_cycle_forces_cyclic_dependency(
    pre: DepGraph,
    post: DepGraph,
    reg: Seq<ProjectView>,
    t: TargetView,
    r: Result<usize, GraphError>,
    q: Seq<TargetView>,
    c: Seq<TargetView>,
)
    requires
        resolve_post(pre, post, reg, t, r),
        is_decl_path(reg, q),
        q.first() == t,
        is_decl_cycle(reg, c),
        c.first() == q.last(),
        forall|u: TargetView| reachable_from(reg, t, u) ==> (#[trigger] lookup_task(reg, u)) is Some,
    ensures
        match r {
            Err(GraphError::CyclicDependency(cyc)) => is_decl_cycle(reg, target_views(cyc@)),
            _ => false,
        },
{
    match r {
        Ok(id) => {
            lemma_path_descends(post, reg, q, id as int);
            let i = choose|i: int| 0 <= i <= id as int && #[trigger] post.node_views()[i] == q.last();
            lemma_no_cycle_in_graph(post, reg, c, i);
        },
        Err(e) => {
            match e {
                GraphError::UnknownTarget(u) => {
                    assert(reachable_from(reg, t, u@));
                    assert(lookup_task(reg, u@) is None);
                },
                GraphError::UnknownTask(u) => {
                    assert(reachable_from(reg, t, u@));
                    assert(lookup_task(reg, u@) is None);
                },
                GraphError::CyclicDependency(_) => {},
            }
        },
    }
}

/// Law: resolving a target succeeds whenever every target reachable from it
/// along declared dependencies exists and no declared cycle is reachable
/// from it — success is owed on exactly the inputs the unknown-target,
/// unknown-task and cyclic-dependency errors do not claim.
pub proof fn lemma_resolution_succeeds_without_cycles(
    pre: DepGraph,
    post: DepGraph,
    reg: Seq<ProjectView>,
    t: TargetView,
    r: Result<usize, GraphError>,
)
    requires
        resolve_post(pre, post, reg, t, r),
        forall|u: TargetView| reachable_from(reg, t, u) ==> (#[trigger] lookup_task(reg, u)) is Some,
        forall|c: Seq<TargetView>| #[trigger] is_decl_cycle(reg, c) ==> !reachable_from(reg, t, c.first()),
    ensures
        r is Ok,
{
    match r {
        Ok(_) => {},
        Err(e) => {
            match e {
                GraphError::UnknownTarget(u) => {
                    assert(lookup_task(reg, u@) is None);
                },
                GraphError::UnknownTask(u) => {
                    assert(lookup_task(reg, u@) is None);
                },
                GraphError::CyclicDependency(p) => {
                    assert(is_decl_cycle(reg, target_views(p@)));
                },
            }
        },
    }
}

/// Copies `stack[k..]` out as an owned path.
fn clone_suffix(stack: &Vec<Target>, k: usize) -> (r: Vec<Target>)
    requires
        k < stack@.len(),
    ensures
        target_views(r@) == target_views(stack@).subrange(k as int, stack@.len() as int),
{
    let mut out: Vec<Target> = Vec::new();
    let n = stack.len();
    for j in k..n
        invariant
            k <= j <= n,
            n == stack@.len(),
            out@.len() == j - k,
            forall|m: int| 0 <= m < out@.len() ==> out@[m]@ == stack@[k + m]@,
    {
        out.push(stack[j].duplicate());
    }
    assert(target_views(out@)
        =~= target_views(stack@).subrange(k as int, stack@.len() as int));
    out
}

} // verus!
