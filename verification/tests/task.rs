use todo::task::Task;

#[test]
fn test_create_task() {
    let task = Task {
        description: String::from("Test task"),
        completed: false,
    };
    assert_eq!(task.description, "Test task");
    assert_eq!(task.completed, false);
}

#[test]
fn test_task_serialization() {
    let task = Task {
        description: String::from("Test serialization"),
        completed: true,
    };

    let serialized = task.to_json();
    let expected = "{\"description\":\"Test serialization\",\"completed\":true}";
    assert_eq!(serialized, expected);
}

#[test]
fn test_task_deserialization() {
    let json = "{\"description\":\"Test deserialization\",\"completed\":false}";
    let task: Task = Task::from_json(json).unwrap();

    assert_eq!(task.description, "Test deserialization");
    assert_eq!(task.completed, false);
}

#[test]
fn test_task_clone() {
    let task = Task {
        description: String::from("Original task"),
        completed: false,
    };

    let cloned_task = task.clone();
    assert_eq!(task.description, cloned_task.description);
    assert_eq!(task.completed, cloned_task.completed);
}

#[test]
fn test_empty_description() {
    let task = Task {
        description: String::new(),
        completed: false,
    };
    assert_eq!(task.description, "");
}
