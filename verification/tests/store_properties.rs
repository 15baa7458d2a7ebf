use todo::task::Task;
use todo::todo::{Todo, TodoError, TodoResult};

fn task(d: &str) -> Task {
    Task {
        description: d.to_string(),
        completed: false,
    }
}

fn fresh() -> Todo {
    Todo::new("store.json", None).unwrap()
}

#[test]
fn add_then_list_appends_pending_task() -> TodoResult<()> {
    let mut t = fresh();
    t.add(task("first"))?;
    t.add(task("  second with spaces inside  "))?;
    let tasks = t.list()?;
    assert_eq!(tasks.len(), 2);
    assert_eq!(tasks[1].description, "  second with spaces inside  ");
    assert!(!tasks[1].completed);
    Ok(())
}

#[test]
fn add_blank_description_is_rejected() -> TodoResult<()> {
    let mut t = fresh();
    t.add(task("kept"))?;
    let empty = t.add(task(""));
    assert!(matches!(empty, Err(TodoError::ValidationFailure)));
    let spaces = t.add(task(" \t\r\n \u{00A0}\u{3000}"));
    assert!(matches!(spaces, Err(TodoError::ValidationFailure)));
    let tasks = t.list()?;
    assert_eq!(tasks.len(), 1);
    assert_eq!(tasks[0].description, "kept");
    Ok(())
}

#[test]
fn complete_toggles_rather_than_sets() -> TodoResult<()> {
    let mut t = fresh();
    t.add(task("flip me"))?;
    t.complete(0)?;
    assert!(t.list()?[0].completed);
    t.complete(0)?;
    assert!(!t.list()?[0].completed);
    Ok(())
}

#[test]
fn delete_shifts_later_tasks_down() -> TodoResult<()> {
    let mut t = fresh();
    t.add(task("a"))?;
    t.add(task("b"))?;
    t.add(task("c"))?;
    t.delete(1)?;
    let tasks = t.list()?;
    assert_eq!(tasks.len(), 2);
    assert_eq!(tasks[0].description, "a");
    assert_eq!(tasks[1].description, "c");
    Ok(())
}

#[test]
fn out_of_range_index_fails_and_changes_nothing() -> TodoResult<()> {
    let mut t = fresh();
    t.add(task("only"))?;
    let del = t.delete(1);
    assert!(matches!(del, Err(TodoError::IndexOutOfRange(1))));
    let comp = t.complete(7);
    assert!(matches!(comp, Err(TodoError::IndexOutOfRange(7))));
    let tasks = t.list()?;
    assert_eq!(tasks.len(), 1);
    assert_eq!(tasks[0].description, "only");
    assert!(!tasks[0].completed);
    Ok(())
}

#[test]
fn save_then_construct_round_trips() -> TodoResult<()> {
    let mut t = fresh();
    t.add(task("plain"))?;
    t.add(task("with \"quotes\" and \\backslash\\"))?;
    t.add(task("tabs\tnewlines\nreturns\rand bells\u{0007}"))?;
    t.add(task("unicode: naïve 😀 \u{2028}"))?;
    t.complete(1)?;
    let rendered = t.to_json();
    let reloaded = Todo::new(t.path(), Some(&rendered))?;
    let before = t.list()?;
    let after = reloaded.list()?;
    assert_eq!(before.len(), after.len());
    for k in 0..before.len() {
        assert_eq!(before[k].description, after[k].description);
        assert_eq!(before[k].completed, after[k].completed);
    }
    Ok(())
}

#[test]
fn missing_file_means_empty_list() -> TodoResult<()> {
    let t = Todo::new("nowhere/at/all.json", None)?;
    assert!(t.list()?.is_empty());
    Ok(())
}

#[test]
fn invalid_json_fails_to_parse() {
    let garbage = Todo::new("bad.json", Some("not json at all"));
    assert!(matches!(garbage, Err(TodoError::ParseFailure)));
    // An empty-but-present file is invalid, unlike a missing one.
    let empty = Todo::new("bad.json", Some(""));
    assert!(matches!(empty, Err(TodoError::ParseFailure)));
}

#[test]
fn clear_empties_whatever_was_there() -> TodoResult<()> {
    let mut t = fresh();
    t.add(task("one"))?;
    t.add(task("two"))?;
    t.clear()?;
    assert!(t.list()?.is_empty());
    t.clear()?;
    assert!(t.list()?.is_empty());
    Ok(())
}

#[test]
fn scenario_add_complete_delete() -> TodoResult<()> {
    let mut t = fresh();
    t.add(task("buy milk"))?;
    t.add(task("write spec"))?;
    t.complete(0)?;
    t.delete(1)?;
    let tasks = t.list()?;
    assert_eq!(tasks.len(), 1);
    assert_eq!(tasks[0].description, "buy milk");
    assert!(tasks[0].completed);
    Ok(())
}

#[test]
fn load_replaces_and_counts() -> TodoResult<()> {
    let mut t = fresh();
    t.add(task("stale"))?;
    let n = t.load(Some("[\n  {\n    \"description\": \"fresh\",\n    \"completed\": true\n  }\n]"))?;
    assert_eq!(n, 1);
    let tasks = t.list()?;
    assert_eq!(tasks[0].description, "fresh");
    assert!(tasks[0].completed);
    let bad = t.load(Some("[1, 2]"));
    assert!(matches!(bad, Err(TodoError::ParseFailure)));
    assert_eq!(t.list()?.len(), 1);
    let m = t.load(None)?;
    assert_eq!(m, 0);
    assert!(t.list()?.is_empty());
    Ok(())
}
