use todo::task::Task;
use todo::todo::{Todo, TodoResult};

const FILE_PATH: &str = "test.json";
const TEST_DESCRIPTION: &str = "test task";

fn setup() -> TodoResult<Todo> {
    let mut t = Todo::new(FILE_PATH, None)?;
    t.clear()?;
    Ok(t)
}

#[test]
fn test_create_and_add_task() -> TodoResult<()> {
    let mut todo = setup()?;

    // Test adding a task
    todo.add(Task {
        description: TEST_DESCRIPTION.to_string(),
        completed: false,
    })?;

    // Verify task was added
    let tasks = todo.list()?;
    assert_eq!(tasks.len(), 1);
    assert_eq!(tasks[0].description, TEST_DESCRIPTION);
    assert!(!tasks[0].completed);

    // Cleanup
    todo.clear()?;
    Ok(())
}

#[test]
fn test_complete_task() -> TodoResult<()> {
    let mut todo = setup()?;

    // Add and complete a task
    todo.add(Task {
        description: TEST_DESCRIPTION.to_string(),
        completed: false,
    })?;

    todo.complete(0)?;

    // Verify task was completed
    let tasks = todo.list()?;
    assert!(tasks[0].completed);

    // Cleanup
    todo.clear()?;
    Ok(())
}

#[test]
fn test_delete_task() -> TodoResult<()> {
    let mut todo = setup()?;

    // Add and then delete a task
    todo.add(Task {
        description: TEST_DESCRIPTION.to_string(),
        completed: false,
    })?;

    todo.delete(0)?;

    // Verify task was deleted
    let tasks = todo.list()?;
    assert!(tasks.is_empty());

    // Cleanup
    todo.clear()?;
    Ok(())
}
