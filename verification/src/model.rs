//! Data model: tasks, projects, and the collection of all projects,
//! together with their mathematical views and well-formedness conditions.

use vstd::prelude::*;

verus! {

/// A single task inside a project. Text is carried as UTF-8 bytes.
#[derive(Debug, Clone, PartialEq, Eq)]
pub struct Task {
    /// Positive identifier, unique within the owning project.
    pub id: u32,
    /// Free-form text, immutable after creation.
    pub description: Vec<u8>,
    /// Starts `false`; may move to `true` exactly once.
    pub completed: bool,
}

/// A named project holding an ordered list of tasks.
#[derive(Debug, Clone, PartialEq, Eq)]
pub struct Project {
    /// Free-form text, unique across the whole collection.
    pub name: Vec<u8>,
    /// Tasks in insertion order.
    pub tasks: Vec<Task>,
}

/// The full in-memory state: every project, in insertion order.
#[derive(Debug, Clone, PartialEq, Eq)]
pub struct Collection {
    pub projects: Vec<Project>,
}

/// Mathematical image of a `Task`.
pub ghost struct TaskV {
    pub id: u32,
    pub description: Seq<u8>,
    pub completed: bool,
}

/// Mathematical image of a `Project`.
pub ghost struct ProjectV {
    pub name: Seq<u8>,
    pub tasks: Seq<TaskV>,
}

impl View for Task {
    type V = TaskV;

    open spec fn view(&self) -> TaskV {
        TaskV { id: self.id, description: self.description@, completed: self.completed }
    }
}

impl View for Project {
    type V = ProjectV;

    open spec fn view(&self) -> ProjectV {
        ProjectV { name: self.name@, tasks: self.tasks@.map_values(|t: Task| t@) }
    }
}

impl View for Collection {
    type V = Seq<ProjectV>;

    open spec fn view(&self) -> Seq<ProjectV> {
        self.projects@.map_values(|p: Project| p@)
    }
}

/// No two tasks of one project share an id.
pub open spec fn wf_project(p: ProjectV) -> bool {
    forall|i: int, j: int|
        0 <= i < j < p.tasks.len() ==> p.tasks[i].id != p.tasks[j].id
}

/// No two projects share a name, and every project is well formed.
pub open spec fn wf_collection(c: Seq<ProjectV>) -> bool {
    &&& forall|i: int, j: int| 0 <= i < j < c.len() ==> c[i].name != c[j].name
    &&& forall|i: int| 0 <= i < c.len() ==> wf_project(#[trigger] c[i])
}

/// Some project of `c` carries exactly this name.
pub open spec fn has_project(c: Seq<ProjectV>, name: Seq<u8>) -> bool {
    exists|i: int| 0 <= i < c.len() && (#[trigger] c[i]).name == name
}

/// The id the next task of a project receives: one past the last task's id,
/// or 1 for a project without tasks.
pub open spec fn next_task_id(tasks: Seq<TaskV>) -> int {
    if tasks.len() == 0 {
        1
    } else {
        tasks.last().id + 1
    }
}

/// `i` is the position of the first project of `c` named `name`.
pub open spec fn is_first_project_index(c: Seq<ProjectV>, name: Seq<u8>, i: int) -> bool {
    &&& 0 <= i < c.len()
    &&& c[i].name == name
    &&& forall|j: int| 0 <= j < i ==> (#[trigger] c[j]).name != name
}

/// Some task of `tasks` carries exactly this id.
pub open spec fn has_task(tasks: Seq<TaskV>, id: u32) -> bool {
    exists|k: int| 0 <= k < tasks.len() && (#[trigger] tasks[k]).id == id
}

/// `k` is the position of the first task of `tasks` with id `id`.
pub open spec fn is_first_task_index(tasks: Seq<TaskV>, id: u32, k: int) -> bool {
    &&& 0 <= k < tasks.len()
    &&& tasks[k].id == id
    &&& forall|j: int| 0 <= j < k ==> (#[trigger] tasks[j]).id != id
}

/// In every reachable state the tasks of a project are numbered 1, 2, ...
/// in order: ids are assigned as one past the last task's id, and tasks are
/// never removed or reordered.
pub open spec fn ids_in_order(p: ProjectV) -> bool {
    forall|k: int| 0 <= k < p.tasks.len() ==> (#[trigger] p.tasks[k]).id == k + 1
}

/// The state invariant every operation preserves: project names are unique
/// and every project's task ids run 1, 2, ... in order.
pub open spec fn invariant_holds(c: Seq<ProjectV>) -> bool {
    &&& forall|i: int, j: int| 0 <= i < j < c.len() ==> c[i].name != c[j].name
    &&& forall|i: int| 0 <= i < c.len() ==> ids_in_order(#[trigger] c[i])
}

/// The uniqueness invariant follows from the state invariant: no two
/// projects share a name, and no two tasks of one project share an id.
pub proof fn lemma_invariant_implies_wf(c: Seq<ProjectV>)
    requires
        invariant_holds(c),
    ensures
        wf_collection(c),
{
}

} // verus!
