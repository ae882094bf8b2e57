use project_tracker::model::Collection;
use project_tracker::repo::{AddProjectOutcome, AddTaskOutcome, CompleteTaskOutcome};

#[test]
fn empty_store_add_project_lists_exactly_that_project() {
    let mut c = Collection::new();
    let r = c.add_project(b"Alpha".to_vec());
    assert_eq!(r, AddProjectOutcome::Added);
    let names = c.project_names();
    assert_eq!(names, vec![b"Alpha".to_vec()]);
}

#[test]
fn duplicate_project_name_reports_already_exists_and_changes_nothing() {
    let mut c = Collection::new();
    assert_eq!(c.add_project(b"Alpha".to_vec()), AddProjectOutcome::Added);
    let before = c.clone();
    assert_eq!(c.add_project(b"Alpha".to_vec()), AddProjectOutcome::AlreadyExists);
    assert_eq!(c, before);
    assert_eq!(c.project_names().len(), 1);
}

#[test]
fn first_task_gets_id_one() {
    let mut c = Collection::new();
    c.add_project(b"Alpha".to_vec());
    let r = c.add_task(&b"Alpha".to_vec(), b"write spec".to_vec());
    assert_eq!(r, AddTaskOutcome::Added { id: 1 });
    let tasks = c.tasks_of(&b"Alpha".to_vec()).unwrap();
    assert_eq!(tasks.len(), 1);
    assert_eq!(tasks[0].id, 1);
    assert_eq!(tasks[0].description, b"write spec".to_vec());
    assert!(!tasks[0].completed);
}

#[test]
fn task_ids_count_up_from_the_last_task() {
    let mut c = Collection::new();
    c.add_project(b"Alpha".to_vec());
    assert_eq!(c.add_task(&b"Alpha".to_vec(), b"one".to_vec()), AddTaskOutcome::Added { id: 1 });
    assert_eq!(c.add_task(&b"Alpha".to_vec(), b"two".to_vec()), AddTaskOutcome::Added { id: 2 });
    assert_eq!(c.add_task(&b"Alpha".to_vec(), b"three".to_vec()), AddTaskOutcome::Added {
        id: 3,
    });
    let tasks = c.tasks_of(&b"Alpha".to_vec()).unwrap();
    let ids: Vec<u32> = tasks.iter().map(|t| t.id).collect();
    assert_eq!(ids, vec![1, 2, 3]);
}

#[test]
fn add_task_to_missing_project_reports_not_found_and_changes_nothing() {
    let mut c = Collection::new();
    c.add_project(b"Alpha".to_vec());
    let before = c.clone();
    let r = c.add_task(&b"Ghost".to_vec(), b"x".to_vec());
    assert_eq!(r, AddTaskOutcome::ProjectNotFound);
    assert_eq!(c, before);
}

#[test]
fn complete_task_marks_it_and_repeating_reports_already_completed() {
    let mut c = Collection::new();
    c.add_project(b"Alpha".to_vec());
    c.add_task(&b"Alpha".to_vec(), b"write spec".to_vec());
    let r = c.complete_task(&b"Alpha".to_vec(), 1);
    assert_eq!(r, CompleteTaskOutcome::Completed);
    assert!(c.tasks_of(&b"Alpha".to_vec()).unwrap()[0].completed);
    let before = c.clone();
    let again = c.complete_task(&b"Alpha".to_vec(), 1);
    assert_eq!(again, CompleteTaskOutcome::AlreadyCompleted);
    assert_eq!(c, before);
}

#[test]
fn complete_task_with_unknown_id_reports_task_not_found() {
    let mut c = Collection::new();
    c.add_project(b"Alpha".to_vec());
    c.add_task(&b"Alpha".to_vec(), b"one".to_vec());
    let before = c.clone();
    assert_eq!(c.complete_task(&b"Alpha".to_vec(), 7), CompleteTaskOutcome::TaskNotFound);
    assert_eq!(c, before);
}

#[test]
fn complete_task_in_unknown_project_reports_project_not_found() {
    let mut c = Collection::new();
    c.add_project(b"Alpha".to_vec());
    assert_eq!(c.complete_task(&b"Ghost".to_vec(), 1), CompleteTaskOutcome::ProjectNotFound);
}

#[test]
fn completing_one_task_leaves_the_others_untouched() {
    let mut c = Collection::new();
    c.add_project(b"Alpha".to_vec());
    c.add_task(&b"Alpha".to_vec(), b"one".to_vec());
    c.add_task(&b"Alpha".to_vec(), b"two".to_vec());
    c.complete_task(&b"Alpha".to_vec(), 2);
    let tasks = c.tasks_of(&b"Alpha".to_vec()).unwrap();
    assert!(!tasks[0].completed);
    assert!(tasks[1].completed);
}

#[test]
fn names_stay_unique_and_ids_stay_unique_over_many_operations() {
    let mut c = Collection::new();
    c.add_project(b"Alpha".to_vec());
    c.add_project(b"Beta".to_vec());
    c.add_project(b"Alpha".to_vec());
    c.add_task(&b"Alpha".to_vec(), b"a".to_vec());
    c.add_task(&b"Beta".to_vec(), b"b".to_vec());
    c.add_task(&b"Alpha".to_vec(), b"c".to_vec());
    c.complete_task(&b"Alpha".to_vec(), 1);
    let names = c.project_names();
    assert_eq!(names, vec![b"Alpha".to_vec(), b"Beta".to_vec()]);
    let alpha = c.tasks_of(&b"Alpha".to_vec()).unwrap();
    let ids: Vec<u32> = alpha.iter().map(|t| t.id).collect();
    assert_eq!(ids, vec![1, 2]);
}

#[test]
fn tasks_of_missing_project_is_none() {
    let c = Collection::new();
    assert!(c.tasks_of(&b"Ghost".to_vec()).is_none());
}

#[test]
fn find_project_index_finds_the_first_exact_match() {
    let mut c = Collection::new();
    c.add_project(b"Alpha".to_vec());
    c.add_project(b"Beta".to_vec());
    assert_eq!(c.find_project_index(&b"Beta".to_vec()), Some(1));
    assert_eq!(c.find_project_index(&b"alpha".to_vec()), None);
}
