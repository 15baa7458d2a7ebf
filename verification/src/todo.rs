//! The task store: an ordered list of tasks, loaded from and rendered back
//! to the persisted document.  The store itself touches no file; whoever
//! owns the file hands its text in and writes the rendered text out.

use crate::json;
use crate::task::Task;
use crate::task::TaskView;
use crate::task::task_views;
use vstd::prelude::*;

verus! {

/// Why a store operation failed.
#[derive(Debug)]
pub enum TodoError {
    /// The file could not be read or written; the message says how.
    IoFailure(String),
    /// The persisted text is not a well-formed document.
    ParseFailure,
    /// The description is empty or all whitespace.
    ValidationFailure,
    /// No task stands at this index.
    IndexOutOfRange(usize),
}

pub type TodoResult<T> = Result<T, TodoError>;

/// Unicode whitespace, the characters that trimming removes.
pub open spec fn is_space(c: char) -> bool {
    let v = c as u32;
    (0x09 <= v && v <= 0x0D) || v == 0x20 || v == 0x85 || v == 0xA0 || v == 0x1680 || (0x2000 <= v
        && v <= 0x200A) || v == 0x2028 || v == 0x2029 || v == 0x202F || v == 0x205F || v == 0x3000
}

/// A description that trims to nothing.
pub open spec fn is_blank(s: Seq<char>) -> bool {
    forall|i: int| 0 <= i < s.len() ==> is_space(s[i])
}

fn space_char(c: char) -> (r: bool)
    ensures
        r == is_space(c),
{
    let v = c as u32;
    (0x09 <= v && v <= 0x0D) || v == 0x20 || v == 0x85 || v == 0xA0 || v == 0x1680 || (0x2000 <= v
        && v <= 0x200A) || v == 0x2028 || v == 0x2029 || v == 0x202F || v == 0x205F || v == 0x3000
}

fn is_blank_str(s: &str) -> (r: bool)
    ensures
        r == is_blank(s@),
{
    let cs = json::chars_of(s);
    let mut k: usize = 0;
    while k < cs.len()
        invariant
            k <= cs.len(),
            cs@ == s@,
            forall|j: int| 0 <= j < k ==> is_space(s@[j]),
        decreases cs.len() - k,
    {
        if !space_char(cs[k]) {
            return false;
        }
        k += 1;
    }
    true
}

/// The value of a task with its completion flag turned over.
pub open spec fn toggled(t: TaskView) -> TaskView {
    TaskView { completed: !t.completed, ..t }
}

/// The sequence with the task at `i` toggled.
pub open spec fn toggle_at(ts: Seq<TaskView>, i: int) -> Seq<TaskView> {
    ts.update(i, toggled(ts[i]))
}

/// The task store.  Its value is the sequence of its tasks' values, in
/// insertion order; the in-memory sequence is the sole source of truth
/// between a load and a save.
pub struct Todo {
    tasks: Vec<Task>,
    path: String,
}

impl View for Todo {
    type V = Seq<TaskView>;

    closed spec fn view(&self) -> Seq<TaskView> {
        task_views(self.tasks@)
    }
}

impl Todo {
    /// The path this store persists to.
    pub closed spec fn path_view(&self) -> Seq<char> {
        self.path@
    }

    /// Creates a store for `path` from what the file there held: `None`
    /// where no file exists yet (a fresh list is no error), or the file's
    /// text.  Fails exactly where the text is not a well-formed document.
    pub fn new(path: &str, contents: Option<&str>) -> (r: TodoResult<Todo>)
        ensures
            match contents {
                None => r matches Ok(t) && t@ == Seq::<TaskView>::empty() && t.path_view()
                    == path@,
                Some(text) => match json::parse_tasks(text@) {
                    Some(ts) => r matches Ok(t) && t@ == ts && t.path_view() == path@,
                    None => r matches Err(e) && e is ParseFailure,
                },
            },
    {
        match contents {
            None => {
                let t = Todo { tasks: Vec::new(), path: path.to_owned() };
                proof {
                    assert(t@ =~= Seq::<TaskView>::empty());
                }
                Ok(t)
            },
            Some(text) => match json::parse_document(text) {
                Some(ts) => Ok(Todo { tasks: ts, path: path.to_owned() }),
                None => Err(TodoError::ParseFailure),
            },
        }
    }

    /// A copy of the current sequence, in insertion order; never fails.
    pub fn list(&self) -> (r: TodoResult<Vec<Task>>)
        ensures
            r matches Ok(v) && task_views(v@) == self@,
    {
        let mut v: Vec<Task> = Vec::new();
        let mut k: usize = 0;
        proof {
            assert(task_views(v@) =~= self@.take(0));
        }
        while k < self.tasks.len()
            invariant
                k <= self.tasks.len(),
                task_views(v@) == self@.take(k as int),
            decreases self.tasks.len() - k,
        {
            let ghost pre = v@;
            v.push(self.tasks[k].clone());
            proof {
                assert(task_views(v@) =~= task_views(pre).push(self.tasks@[k as int]@));
                assert(self@.take(k as int + 1) =~= self@.take(k as int).push(self@[k as int]));
            }
            k += 1;
        }
        proof {
            assert(self@.take(self.tasks@.len() as int) =~= self@);
        }
        Ok(v)
    }

    /// Appends the task at the end of the sequence, provided its
    /// description does not trim to nothing; the sequence is otherwise left
    /// as it was.
    pub fn add(&mut self, task: Task) -> (r: TodoResult<()>)
        ensures
            is_blank(task.description@) ==> (r matches Err(e) && e is ValidationFailure && final(
                self)@ == old(self)@),
            !is_blank(task.description@) ==> r is Ok && final(self)@ == old(self)@.push(task@),
            final(self).path_view() == old(self).path_view(),
    {
        if is_blank_str(task.description.as_str()) {
            return Err(TodoError::ValidationFailure);
        }
        let ghost pre = self.tasks@;
        self.tasks.push(task);
        proof {
            assert(task_views(self.tasks@) =~= task_views(pre).push(self.tasks@.last()@));
        }
        Ok(())
    }

    /// Removes the task at `index`; every later task moves down one place.
    /// Fails, naming the index, exactly where no task stands there, and
    /// then changes nothing.
    pub fn delete(&mut self, index: usize) -> (r: TodoResult<()>)
        ensures
            index < old(self)@.len() ==> r is Ok && final(self)@ == old(self)@.remove(index as int),
            index < old(self)@.len() ==> final(self)@.len() == old(self)@.len() - 1 && (forall|
                j: int,
            |
                0 <= j < index ==> final(self)@[j] == old(self)@[j]) && (forall|j: int|
                index <= j < final(self)@.len() ==> final(self)@[j] == old(self)@[j + 1]),
            index >= old(self)@.len() ==> r == Err::<(), TodoError>(TodoError::IndexOutOfRange(index)) && final(
                self)@ == old(self)@,
            final(self).path_view() == old(self).path_view(),
    {
        if index >= self.tasks.len() {
            return Err(TodoError::IndexOutOfRange(index));
        }
        let ghost pre = self.tasks@;
        self.tasks.remove(index);
        proof {
            assert(task_views(self.tasks@) =~= task_views(pre).remove(index as int));
        }
        Ok(())
    }

    /// Turns the completion flag of the task at `index` over: a completed
    /// task becomes pending again.  Fails, naming the index, exactly where
    /// no task stands there, and then changes nothing.
    pub fn complete(&mut self, index: usize) -> (r: TodoResult<()>)
        ensures
            index < old(self)@.len() ==> r is Ok && final(self)@ == toggle_at(
                old(self)@,
                index as int,
            ),
            index >= old(self)@.len() ==> r == Err::<(), TodoError>(TodoError::IndexOutOfRange(index)) && final(
                self)@ == old(self)@,
            final(self).path_view() == old(self).path_view(),
    {
        if index >= self.tasks.len() {
            return Err(TodoError::IndexOutOfRange(index));
        }
        let ghost pre = self.tasks@;
        let mut t = self.tasks[index].clone();
        t.completed = !t.completed;
        proof {
            assert(t@ =~= toggled(pre[index as int]@));
        }
        self.tasks.set(index, t);
        proof {
            assert(task_views(self.tasks@) =~= task_views(pre).update(
                index as int,
                toggled(task_views(pre)[index as int]),
            ));
        }
        Ok(())
    }

    /// Empties the sequence, whatever it held; never fails.
    pub fn clear(&mut self) -> (r: TodoResult<()>)
        ensures
            r is Ok,
            final(self)@ == Seq::<TaskView>::empty(),
            final(self).path_view() == old(self).path_view(),
    {
        self.tasks = Vec::new();
        proof {
            assert(task_views(self.tasks@) =~= Seq::<TaskView>::empty());
        }
        Ok(())
    }

    /// Replaces the sequence with what the file held, as `new` reads it;
    /// `Ok` carries the number of tasks loaded.  Where the text does not
    /// parse, the sequence is left as it was.
    pub fn load(&mut self, contents: Option<&str>) -> (r: TodoResult<usize>)
        ensures
            match contents {
                None => r matches Ok(n) && n == 0 && final(self)@ == Seq::<TaskView>::empty(),
                Some(text) => match json::parse_tasks(text@) {
                    Some(ts) => r matches Ok(n) && n as int == ts.len() && final(self)@ == ts,
                    None => r matches Err(e) && e is ParseFailure && final(self)@ == old(self)@,
                },
            },
            final(self).path_view() == old(self).path_view(),
    {
        match contents {
            None => {
                self.tasks = Vec::new();
                proof {
                    assert(task_views(self.tasks@) =~= Seq::<TaskView>::empty());
                }
                Ok(0)
            },
            Some(text) => match json::parse_document(text) {
                Some(ts) => {
                    let n = ts.len();
                    self.tasks = ts;
                    Ok(n)
                },
                None => Err(TodoError::ParseFailure),
            },
        }
    }

    /// The document to persist: the whole sequence rendered as JSON text.
    /// Writing it to the file at `path`, whole, is the save.
    pub fn to_json(&self) -> (r: String)
        ensures
            r@ == json::render_tasks(self@),
    {
        json::render_document(&self.tasks)
    }

    /// The path handed to `new`, for whoever writes the file.
    pub fn path(&self) -> (r: &str)
        ensures
            r@ == self.path_view(),
    {
        self.path.as_str()
    }
}

/// After an accepted add, the sequence has grown by one, and its last
/// element carries the description added and is not yet completed.
pub proof fn lemma_add_then_list(before: Seq<TaskView>, d: Seq<char>)
    requires
        !is_blank(d),
    ensures
        before.push((TaskView { description: d, completed: false })).len() == before.len() + 1,
        before.push((TaskView { description: d, completed: false })).last() == (TaskView {
            description: d,
            completed: false,
        }),
{
}

/// Completing the same untouched task twice returns the sequence to its
/// original state: the flag is turned over, not set.
pub proof fn lemma_complete_twice(ts: Seq<TaskView>, i: int)
    requires
        0 <= i < ts.len(),
    ensures
        toggle_at(toggle_at(ts, i), i) == ts,
{
    assert(toggled(toggled(ts[i])) =~= ts[i]);
    assert(toggle_at(toggle_at(ts, i), i) =~= ts);
}

} // verus!
