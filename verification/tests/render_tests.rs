use project_tracker::model::Task;
use project_tracker::render::{bar_filled_cells, completed_count, progress_percent};

fn task(id: u32, completed: bool) -> Task {
    Task { id, description: b"t".to_vec(), completed }
}

#[test]
fn half_completed_project_renders_fifty_percent_and_a_half_filled_bar() {
    let tasks = vec![task(1, true), task(2, false)];
    let done = completed_count(&tasks);
    assert_eq!(done, 1);
    assert_eq!(progress_percent(done, tasks.len()), 50);
    assert_eq!(bar_filled_cells(done, tasks.len(), 20), 10);
}

#[test]
fn percentage_truncates_toward_zero() {
    assert_eq!(progress_percent(1, 3), 33);
    assert_eq!(progress_percent(2, 3), 66);
}

#[test]
fn bar_rounds_to_the_nearest_cell_half_up() {
    assert_eq!(bar_filled_cells(1, 8, 20), 3);
    assert_eq!(bar_filled_cells(1, 3, 20), 7);
    assert_eq!(bar_filled_cells(0, 4, 20), 0);
}

#[test]
fn project_without_tasks_has_zero_progress() {
    assert_eq!(progress_percent(0, 0), 0);
    assert_eq!(bar_filled_cells(0, 0, 20), 0);
}

#[test]
fn all_tasks_completed_fills_the_whole_bar() {
    let tasks = vec![task(1, true), task(2, true), task(3, true)];
    let done = completed_count(&tasks);
    assert_eq!(done, 3);
    assert_eq!(progress_percent(done, tasks.len()), 100);
    assert_eq!(bar_filled_cells(done, tasks.len(), 20), 20);
}

#[test]
fn completed_count_of_no_tasks_is_zero() {
    let tasks: Vec<Task> = Vec::new();
    assert_eq!(completed_count(&tasks), 0);
}
