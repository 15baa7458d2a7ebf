use todo::task::Task;
use todo::todo::{Todo, TodoError, TodoResult};

#[test]
fn rendered_document_is_pretty_printed() -> TodoResult<()> {
    let mut t = Todo::new("fmt.json", None)?;
    assert_eq!(t.to_json(), "[]");
    t.add(Task {
        description: String::from("a"),
        completed: false,
    })?;
    t.add(Task {
        description: String::from("b"),
        completed: true,
    })?;
    let expected = "[\n  {\n    \"description\": \"a\",\n    \"completed\": false\n  },\n  {\n    \"description\": \"b\",\n    \"completed\": true\n  }\n]";
    assert_eq!(t.to_json(), expected);
    Ok(())
}

#[test]
fn escapes_are_written_and_read_back() {
    let t = Task {
        description: String::from("q\" b\\ n\n r\r t\t bell\u{0007}"),
        completed: false,
    };
    let json = t.to_json();
    assert_eq!(
        json,
        "{\"description\":\"q\\\" b\\\\ n\\n r\\r t\\t bell\\u0007\",\"completed\":false}"
    );
    let back = Task::from_json(&json).unwrap();
    assert_eq!(back.description, t.description);
}

#[test]
fn keys_may_come_in_either_order() {
    let json = "{ \"completed\" : true , \"description\" : \"swapped\" }";
    let t = Task::from_json(json).unwrap();
    assert_eq!(t.description, "swapped");
    assert!(t.completed);
}

#[test]
fn unicode_escapes_are_decoded() {
    let t = Task::from_json("{\"description\":\"\\u0041\\u00e9\\u2028\",\"completed\":false}")
        .unwrap();
    assert_eq!(t.description, "A\u{00e9}\u{2028}");
    // A surrogate pair names one character in two halves.
    let p = Task::from_json("{\"description\":\"\\uD83D\\uDE00\",\"completed\":false}").unwrap();
    assert_eq!(p.description, "\u{1F600}");
    // The short escapes, including the solidus.
    let s = Task::from_json("{\"description\":\"\\b\\f\\/\",\"completed\":false}").unwrap();
    assert_eq!(s.description, "\u{0008}\u{000C}/");
}

#[test]
fn malformed_documents_are_rejected() {
    let cases = [
        "",
        "   ",
        "{",
        "[",
        "[{]",
        "[] trailing",
        "[{\"description\":\"x\",\"completed\":false}",
        "[{\"description\":\"x\"}]",
        "[{\"completed\":false}]",
        "[{\"description\":\"x\",\"completed\":false,\"extra\":1}]",
        "[{\"description\":\"x\",\"description\":\"y\"}]",
        "[{\"description\":\"x\",\"completed\":maybe}]",
        "[{\"description\":\"unterminated,\"completed\":false}]",
        "[{\"description\":\"bad\\q\",\"completed\":false}]",
        "[{\"description\":\"lone\\uDC00\",\"completed\":false}]",
        "[{\"description\":\"raw\u{0001}control\",\"completed\":false}]",
        "[{\"description\":\"x\",\"completed\":false},]",
        "[,{\"description\":\"x\",\"completed\":false}]",
    ];
    for c in cases {
        let r = Todo::new("bad.json", Some(c));
        assert!(matches!(r, Err(TodoError::ParseFailure)), "accepted: {}", c);
    }
}

#[test]
fn whitespace_around_tokens_is_tolerated() -> TodoResult<()> {
    let t = Todo::new(
        "ws.json",
        Some("  [ \r\n {\t\"description\" : \"x\" ,\n \"completed\" :\tfalse } ,\n {\"completed\":true,\"description\":\"y\"} ]  \n"),
    )?;
    let tasks = t.list()?;
    assert_eq!(tasks.len(), 2);
    assert_eq!(tasks[0].description, "x");
    assert!(!tasks[0].completed);
    assert_eq!(tasks[1].description, "y");
    assert!(tasks[1].completed);
    Ok(())
}

#[test]
fn empty_array_documents_parse() -> TodoResult<()> {
    assert!(Todo::new("e.json", Some("[]"))?.list()?.is_empty());
    assert!(Todo::new("e.json", Some(" [ ] "))?.list()?.is_empty());
    Ok(())
}
