//! Read-only registry of projects and their tasks, and the target identifier
//! type. The registry is the lookup source for dependency-graph resolution.
use vstd::prelude::*;
use vstd::string::StringExecFns;

verus! {

/// A `(project, task)` pair identifying one runnable unit of work.
#[derive(Debug)]
pub struct Target {
    pub project_id: String,
    pub task_id: String,
}

/// Mathematical value of a [`Target`]: both identifiers as character
/// sequences.
pub ghost struct TargetView {
    pub project_id: Seq<char>,
    pub task_id: Seq<char>,
}

impl View for Target {
    type V = TargetView;

    open spec fn view(&self) -> TargetView {
        TargetView { project_id: self.project_id@, task_id: self.task_id@ }
    }
}

impl Target {
    pub fn new(project_id: String, task_id: String) -> (r: Target)
        ensures
            r@ == (TargetView { project_id: project_id@, task_id: task_id@ }),
    {
        Target { project_id, task_id }
    }

    /// A copy with the same project and task identifiers.
    pub fn duplicate(&self) -> (r: Target)
        ensures
            r@ == self@,
    {
        Target {
            project_id: self.project_id.clone(),
            task_id: self.task_id.clone(),
        }
    }

    /// The string form of the target: `project:task`.
    pub fn label(&self) -> (r: String)
        ensures
            r@ == spec_target_label(self@),
    {
        let mut s = self.project_id.as_str().to_owned();
        s.append(":");
        s.append(self.task_id.as_str());
        proof {
            assert(s@ =~= spec_target_label(self@));
        }
        s
    }

    /// True exactly when the two targets name the same project/task pair.
    pub fn same_as(&self, other: &Target) -> (r: bool)
        ensures
            r == (self@ == other@),
    {
        let r = self.project_id == other.project_id && self.task_id == other.task_id;
        if r {
            assert(self@ == other@);
        }
        r
    }
}

/// One task as the registry declares it: its failure policy, whether it is a
/// persistent (never-finishing) task, its declared dependency targets, and
/// its declared input paths.
pub struct TaskConfig {
    pub task_id: String,
    pub allow_failure: bool,
    pub is_persistent: bool,
    pub deps: Vec<Target>,
    pub inputs: Vec<String>,
}

pub ghost struct TaskView {
    pub task_id: Seq<char>,
    pub allow_failure: bool,
    pub is_persistent: bool,
    pub deps: Seq<TargetView>,
    pub inputs: Seq<Seq<char>>,
}

impl View for TaskConfig {
    type V = TaskView;

    open spec fn view(&self) -> TaskView {
        TaskView {
            task_id: self.task_id@,
            allow_failure: self.allow_failure,
            is_persistent: self.is_persistent,
            deps: self.deps@.map_values(|t: Target| t@),
            inputs: self.inputs@.map_values(|s: String| s@),
        }
    }
}

/// A project: a named owner of zero or more tasks.
pub struct ProjectConfig {
    pub project_id: String,
    pub tasks: Vec<TaskConfig>,
}

pub ghost struct ProjectView {
    pub project_id: Seq<char>,
    pub tasks: Seq<TaskView>,
}

impl View for ProjectConfig {
    type V = ProjectView;

    open spec fn view(&self) -> ProjectView {
        ProjectView {
            project_id: self.project_id@,
            tasks: self.tasks@.map_values(|t: TaskConfig| t@),
        }
    }
}

/// Read-only lookup of projects and their tasks for one run.
pub struct Registry {
    pub projects: Vec<ProjectConfig>,
}

impl View for Registry {
    type V = Seq<ProjectView>;

    open spec fn view(&self) -> Seq<ProjectView> {
        self.projects@.map_values(|p: ProjectConfig| p@)
    }
}

/// The string form of a target: `project:task`.
pub open spec fn spec_target_label(t: TargetView) -> Seq<char> {
    t.project_id + ":"@ + t.task_id
}

/// Views of a sequence of targets.
pub open spec fn target_views(s: Seq<Target>) -> Seq<TargetView> {
    s.map_values(|t: Target| t@)
}

/// Views of a sequence of strings.
pub open spec fn string_views(s: Seq<String>) -> Seq<Seq<char>> {
    s.map_values(|x: String| x@)
}

/// First project with the given identifier, if any.
pub open spec fn find_project(projects: Seq<ProjectView>, id: Seq<char>) -> Option<ProjectView>
    decreases projects.len(),
{
    if projects.len() == 0 {
        None
    } else if projects[0].project_id == id {
        Some(projects[0])
    } else {
        find_project(projects.drop_first(), id)
    }
}

/// First task with the given identifier, if any.
pub open spec fn find_task(tasks: Seq<TaskView>, id: Seq<char>) -> Option<TaskView>
    decreases tasks.len(),
{
    if tasks.len() == 0 {
        None
    } else if tasks[0].task_id == id {
        Some(tasks[0])
    } else {
        find_task(tasks.drop_first(), id)
    }
}

/// The task a target names, if its project and task both exist.
pub open spec fn lookup_task(reg: Seq<ProjectView>, t: TargetView) -> Option<TaskView> {
    match find_project(reg, t.project_id) {
        None => None,
        Some(p) => find_task(p.tasks, t.task_id),
    }
}

impl Registry {
    /// Looks a project up by identifier; `None` when it does not exist.
    pub fn get_project(&self, id: &String) -> (r: Option<&ProjectConfig>)
        ensures
            match r {
                Some(p) => find_project(self@, id@) == Some(p@),
                None => find_project(self@, id@) is None,
            },
    {
        let n = self.projects.len();
        assert(self@.skip(0) =~= self@);
        for i in 0..n
            invariant
                n == self.projects.len(),
                find_project(self@, id@) == find_project(self@.skip(i as int), id@),
        {
            assert(self@.skip(i as int)[0] == self@[i as int]);
            if self.projects[i].project_id == *id {
                return Some(&self.projects[i]);
            }
            assert(self@.skip(i as int).drop_first() =~= self@.skip(i + 1));
        }
        assert(self@.skip(n as int).len() == 0);
        None
    }

    /// The task a target names, if its project and task both exist.
    pub fn get_task(&self, target: &Target) -> (r: Option<&TaskConfig>)
        ensures
            match r {
                Some(t) => lookup_task(self@, target@) == Some(t@),
                None => lookup_task(self@, target@) is None,
            },
    {
        match self.get_project(&target.project_id) {
            None => None,
            Some(p) => p.get_task(&target.task_id),
        }
    }
}

impl ProjectConfig {
    /// Looks a task up by identifier within this project; `None` when absent.
    pub fn get_task(&self, id: &String) -> (r: Option<&TaskConfig>)
        ensures
            match r {
                Some(t) => find_task(self@.tasks, id@) == Some(t@),
                None => find_task(self@.tasks, id@) is None,
            },
    {
        let n = self.tasks.len();
        assert(self@.tasks.skip(0) =~= self@.tasks);
        for i in 0..n
            invariant
                n == self.tasks.len(),
                find_task(self@.tasks, id@) == find_task(self@.tasks.skip(i as int), id@),
        {
            assert(self@.tasks.skip(i as int)[0] == self@.tasks[i as int]);
            if self.tasks[i].task_id == *id {
                return Some(&self.tasks[i]);
            }
            assert(self@.tasks.skip(i as int).drop_first() =~= self@.tasks.skip(i + 1));
        }
        assert(self@.tasks.skip(n as int).len() == 0);
        None
    }
}

} // verus!
