use vstd::prelude::*;

verus! {

/// A single to-do item: a description and a completion flag.
pub struct Task {
    pub description: String,
    pub completed: bool,
}

/// The mathematical value of a [`Task`]: the description as a sequence of
/// characters, together with the completion flag.
#[verifier::ext_equal]
pub struct TaskView {
    pub description: Seq<char>,
    pub completed: bool,
}

impl View for Task {
    type V = TaskView;

    open spec fn view(&self) -> TaskView {
        TaskView { description: self.description@, completed: self.completed }
    }
}

impl Clone for Task {
    fn clone(&self) -> (r: Self)
        ensures
            r@ == self@,
    {
        Task { description: self.description.clone(), completed: self.completed }
    }
}

/// The values of a sequence of tasks, element by element.
pub open spec fn task_views(ts: Seq<Task>) -> Seq<TaskView> {
    ts.map_values(|t: Task| t@)
}

impl Task {
    /// The task written as one JSON object on a single line.
    pub fn to_json(&self) -> (r: String)
        ensures
            r@ == crate::json::render_task_compact(self@),
    {
        crate::json::render_task_alone(self)
    }

    /// A task read back from one JSON object standing alone: `Some` exactly
    /// on well-formed text.
    pub fn from_json(s: &str) -> (r: Option<Task>)
        ensures
            match (r, crate::json::parse_task_text(s@)) {
                (None, None) => true,
                (Some(t), Some(v)) => t@ == v,
                _ => false,
            },
    {
        crate::json::parse_task_alone(s)
    }
}

} // verus!
