//! In-memory operations on the collection: adding projects and tasks,
//! completing tasks, and listing. Each operation says exactly how the new
//! state relates to the old one, and each preserves the state invariant.

use vstd::prelude::*;

use crate::model::{
    has_project, has_task, ids_in_order, invariant_holds, is_first_project_index,
    is_first_task_index, next_task_id, Collection, Project, ProjectV, Task, TaskV,
};

verus! {

/// Outcome of adding a project.
#[derive(Debug, PartialEq, Eq, Clone, Copy)]
pub enum AddProjectOutcome {
    Added,
    AlreadyExists,
}

/// Outcome of adding a task, with the id the new task received.
#[derive(Debug, PartialEq, Eq, Clone, Copy)]
pub enum AddTaskOutcome {
    Added { id: u32 },
    ProjectNotFound,
}

/// Outcome of completing a task.
#[derive(Debug, PartialEq, Eq, Clone, Copy)]
pub enum CompleteTaskOutcome {
    Completed,
    AlreadyCompleted,
    TaskNotFound,
    ProjectNotFound,
}

/// Byte-for-byte equality of two byte strings.
pub fn bytes_eq(a: &Vec<u8>, b: &Vec<u8>) -> (r: bool)
    ensures
        r == (a@ == b@),
{
    if a.len() != b.len() {
        return false;
    }
    let mut k: usize = 0;
    while k < a.len()
        invariant
            k <= a.len(),
            a.len() == b.len(),
            forall|m: int| 0 <= m < k ==> a@[m] == b@[m],
        decreases a.len() - k,
    {
        if a[k] != b[k] {
            return false;
        }
        k += 1;
    }
    proof {
        assert(a@ =~= b@);
    }
    true
}

/// A fresh copy of a byte string.
pub fn copy_bytes(src: &Vec<u8>) -> (r: Vec<u8>)
    ensures
        r@ == src@,
{
    let mut out: Vec<u8> = Vec::new();
    let mut k: usize = 0;
    while k < src.len()
        invariant
            k <= src.len(),
            out@ == src@.subrange(0, k as int),
        decreases src.len() - k,
    {
        out.push(src[k]);
        k += 1;
        proof {
            assert(out@ =~= src@.subrange(0, k as int));
        }
    }
    proof {
        assert(src@.subrange(0, src@.len() as int) =~= src@);
    }
    out
}

/// Position of the first task with this id, if any.
pub fn find_task_index(tasks: &Vec<Task>, task_id: u32) -> (r: Option<usize>)
    ensures
        match r {
            Some(k) => is_first_task_index(tasks@.map_values(|t: Task| t@), task_id, k as int),
            None => !has_task(tasks@.map_values(|t: Task| t@), task_id),
        },
{
    let ghost ts = tasks@.map_values(|t: Task| t@);
    let mut k: usize = 0;
    while k < tasks.len()
        invariant
            k <= tasks.len(),
            ts == tasks@.map_values(|t: Task| t@),
            forall|m: int| 0 <= m < k ==> (#[trigger] ts[m]).id != task_id,
        decreases tasks.len() - k,
    {
        if tasks[k].id == task_id {
            return Some(k);
        }
        k += 1;
    }
    None
}

impl Collection {
    /// An empty collection: the state of first use.
    pub fn new() -> (c: Collection)
        ensures
            c@ == Seq::<ProjectV>::empty(),
            invariant_holds(c@),
    {
        let c = Collection { projects: Vec::new() };
        proof {
            assert(c@ =~= Seq::<ProjectV>::empty());
        }
        c
    }

    /// Position of the first project with this exact name, if any.
    pub fn find_project_index(&self, name: &Vec<u8>) -> (r: Option<usize>)
        ensures
            match r {
                Some(i) => is_first_project_index(self@, name@, i as int),
                None => !has_project(self@, name@),
            },
    {
        let mut i: usize = 0;
        while i < self.projects.len()
            invariant
                i <= self.projects.len(),
                forall|j: int| 0 <= j < i ==> (#[trigger] self@[j]).name != name@,
            decreases self.projects.len() - i,
        {
            if bytes_eq(&self.projects[i].name, name) {
                return Some(i);
            }
            i += 1;
        }
        None
    }

    /// Append a new, empty project unless the name is already taken.
    pub fn add_project(&mut self, name: Vec<u8>) -> (r: AddProjectOutcome)
        ensures
            has_project(old(self)@, name@) ==> r == AddProjectOutcome::AlreadyExists
                && final(self)@ == old(self)@,
            !has_project(old(self)@, name@) ==> r == AddProjectOutcome::Added
                && final(self)@ == old(self)@.push(
                (ProjectV { name: name@, tasks: Seq::empty() }),
            ),
            invariant_holds(old(self)@) ==> invariant_holds(final(self)@),
    {
        match self.find_project_index(&name) {
            Some(_) => AddProjectOutcome::AlreadyExists,
            None => {
                let ghost namev = name@;
                self.projects.push(Project { name, tasks: Vec::new() });
                proof {
                    let newp = ProjectV { name: namev, tasks: Seq::empty() };
                    assert(self.projects@.last()@.tasks =~= Seq::<TaskV>::empty());
                    assert(self@ =~= old(self)@.push(newp));
                }
                AddProjectOutcome::Added
            },
        }
    }

    /// Ordered list of all project names.
    pub fn project_names(&self) -> (r: Vec<Vec<u8>>)
        ensures
            r@.len() == self@.len(),
            forall|i: int| 0 <= i < r@.len() ==> (#[trigger] r@[i])@ == self@[i].name,
    {
        let mut out: Vec<Vec<u8>> = Vec::new();
        let mut i: usize = 0;
        while i < self.projects.len()
            invariant
                i <= self.projects.len(),
                out@.len() == i,
                forall|j: int| 0 <= j < i ==> (#[trigger] out@[j])@ == self@[j].name,
            decreases self.projects.len() - i,
        {
            out.push(copy_bytes(&self.projects[i].name));
            i += 1;
        }
        out
    }

    /// The task list of the first project with this name, if any.
    pub fn tasks_of(&self, name: &Vec<u8>) -> (r: Option<&Vec<Task>>)
        ensures
            match r {
                Some(ts) => exists|i: int|
                    #[trigger] is_first_project_index(self@, name@, i)
                        && ts@.map_values(|t: Task| t@) == self@[i].tasks,
                None => !has_project(self@, name@),
            },
    {
        match self.find_project_index(name) {
            Some(i) => Some(&self.projects[i].tasks),
            None => None,
        }
    }

    /// Append a task to the named project: it receives one past the last
    /// task's id (1 for a project without tasks) and starts not completed.
    pub fn add_task(&mut self, name: &Vec<u8>, description: Vec<u8>) -> (r: AddTaskOutcome)
        requires
            forall|i: int| #[trigger]
                is_first_project_index(old(self)@, name@, i) ==> next_task_id(
                    old(self)@[i].tasks,
                ) <= u32::MAX,
        ensures
            !has_project(old(self)@, name@) ==> r == AddTaskOutcome::ProjectNotFound
                && final(self)@ == old(self)@,
            has_project(old(self)@, name@) ==> exists|i: int|
                #[trigger] is_first_project_index(old(self)@, name@, i) && {
                    let new_task = TaskV {
                        id: next_task_id(old(self)@[i].tasks) as u32,
                        description: description@,
                        completed: false,
                    };
                    &&& r == (AddTaskOutcome::Added {
                        id: next_task_id(old(self)@[i].tasks) as u32,
                    })
                    &&& final(self)@ == old(self)@.update(
                        i,
                        (ProjectV {
                            name: old(self)@[i].name,
                            tasks: old(self)@[i].tasks.push(new_task),
                        }),
                    )
                },
            invariant_holds(old(self)@) ==> invariant_holds(final(self)@),
    {
        match self.find_project_index(name) {
            None => AddTaskOutcome::ProjectNotFound,
            Some(i) => {
                let mut proj = self.projects.remove(i);
                let new_id: u32 = if proj.tasks.len() == 0 {
                    1
                } else {
                    proj.tasks[proj.tasks.len() - 1].id + 1
                };
                let ghost old_proj = old(self)@[i as int];
                let ghost descv = description@;
                proj.tasks.push(Task { id: new_id, description, completed: false });
                let ghost projv = proj@;
                self.projects.insert(i, proj);
                proof {
                    let new_task = TaskV { id: new_id, description: descv, completed: false };
                    assert(projv.tasks =~= old_proj.tasks.push(new_task));
                    assert(self@ =~= old(self)@.update(
                        i as int,
                        ProjectV { name: old_proj.name, tasks: old_proj.tasks.push(new_task) },
                    ));
                    if invariant_holds(old(self)@) {
                        assert(ids_in_order(self@[i as int]));
                        assert(invariant_holds(self@));
                    }
                }
                AddTaskOutcome::Added { id: new_id }
            },
        }
    }

    /// Mark the task with this id in the named project as completed.
    /// Completing an already-completed task changes nothing.
    pub fn complete_task(&mut self, name: &Vec<u8>, task_id: u32) -> (r: CompleteTaskOutcome)
        ensures
            !has_project(old(self)@, name@) ==> r == CompleteTaskOutcome::ProjectNotFound
                && final(self)@ == old(self)@,
            has_project(old(self)@, name@) ==> exists|i: int|
                #[trigger] is_first_project_index(old(self)@, name@, i) && {
                    let ts = old(self)@[i].tasks;
                    if !has_task(ts, task_id) {
                        r == CompleteTaskOutcome::TaskNotFound && final(self)@ == old(self)@
                    } else {
                        exists|k: int|
                            #[trigger] is_first_task_index(ts, task_id, k) && if ts[k].completed {
                                r == CompleteTaskOutcome::AlreadyCompleted && final(self)@ == old(
                                    self,
                                )@
                            } else {
                                r == CompleteTaskOutcome::Completed && final(self)@ == old(
                                    self,
                                )@.update(
                                    i,
                                    (ProjectV {
                                        name: old(self)@[i].name,
                                        tasks: ts.update(
                                            k,
                                            (TaskV {
                                                id: ts[k].id,
                                                description: ts[k].description,
                                                completed: true,
                                            }),
                                        ),
                                    }),
                                )
                            }
                    }
                },
            invariant_holds(old(self)@) ==> invariant_holds(final(self)@),
    {
        let idx = self.find_project_index(name);
        match idx {
            None => CompleteTaskOutcome::ProjectNotFound,
            Some(i) => {
                let ghost old_proj = old(self)@[i as int];
                let mut proj = self.projects.remove(i);
                let found = find_task_index(&proj.tasks, task_id);
                match found {
                    None => {
                        self.projects.insert(i, proj);
                        proof {
                            assert(!has_task(old_proj.tasks, task_id));
                            assert(self@ =~= old(self)@);
                        }
                        CompleteTaskOutcome::TaskNotFound
                    },
                    Some(k) => {
                        if proj.tasks[k].completed {
                            self.projects.insert(i, proj);
                            proof {
                                assert(self@ =~= old(self)@);
                            }
                            CompleteTaskOutcome::AlreadyCompleted
                        } else {
                            let mut task = proj.tasks.remove(k);
                            task.completed = true;
                            proj.tasks.insert(k, task);
                            let ghost projv = proj@;
                            self.projects.insert(i, proj);
                            proof {
                                let ts = old_proj.tasks;
                                let new_task = TaskV {
                                    id: ts[k as int].id,
                                    description: ts[k as int].description,
                                    completed: true,
                                };
                                assert(projv.tasks =~= ts.update(k as int, new_task));
                                assert(self@ =~= old(self)@.update(
                                    i as int,
                                    ProjectV {
                                        name: old_proj.name,
                                        tasks: ts.update(k as int, new_task),
                                    },
                                ));
                                if invariant_holds(old(self)@) {
                                    assert(ids_in_order(self@[i as int]));
                                    assert(invariant_holds(self@));
                                }
                            }
                            CompleteTaskOutcome::Completed
                        }
                    },
                }
            },
        }
    }
}

} // verus!
