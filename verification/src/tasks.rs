//! The task list: the tasks as the store holds them, in the order they were
//! added, and the draft that the input bar holds.
//!
//! The store itself (a database) is outside: the board says what to ask of
//! it, and takes its answer back. A task joins the list only once the store
//! has given it an id, and leaves it only once the store has deleted it; a
//! refused request changes nothing.

use vstd::prelude::*;
use crate::text::{
    is_white_space, label_at, numbered_label, trim, trim_removes_only_outer_white_space, trimmed,
};

verus! {

/// A task as the store returns it: its id and its text.
#[derive(Clone, Debug, PartialEq, Eq)]
pub struct Task {
    pub id: i64,
    pub text: String,
}

/// A task as a value.
pub struct TaskView {
    pub id: i64,
    pub text: Seq<char>,
}

impl View for Task {
    type V = TaskView;

    open spec fn view(&self) -> TaskView {
        TaskView { id: self.id, text: self.text@ }
    }
}

/// Why the store refused a request.
#[derive(Debug)]
pub struct StoreError {
    pub message: String,
}

/// The board as a value: its tasks, in order, and the draft.
pub struct BoardView {
    pub tasks: Seq<TaskView>,
    pub draft: Seq<char>,
}

/// The task list and the input bar's draft.
pub struct TaskBoard {
    tasks: Vec<Task>,
    draft: String,
}

/// The values of a sequence of tasks.
pub open spec fn task_views(tasks: Seq<Task>) -> Seq<TaskView> {
    tasks.map_values(|t: Task| t@)
}

impl View for TaskBoard {
    type V = BoardView;

    closed spec fn view(&self) -> BoardView {
        BoardView { tasks: task_views(self.tasks@), draft: self.draft@ }
    }
}

/// The text to store for `draft`, if any: the draft trimmed, unless nothing
/// is left of it.
pub open spec fn submission_of(draft: Seq<char>) -> Option<Seq<char>> {
    if trim(draft).len() > 0 {
        Some(trim(draft))
    } else {
        None
    }
}

/// The id that the store gave, if it accepted the task.
pub open spec fn stored_id(outcome: Result<i64, StoreError>) -> Option<i64> {
    match outcome {
        Ok(id) => Some(id),
        Err(_) => None,
    }
}

/// The board after the store answered a request to add `text`: with an id,
/// the task joins the end of the list and the draft is emptied; without
/// one, nothing changes.
pub open spec fn after_insert(b: BoardView, text: Seq<char>, id: Option<i64>) -> BoardView {
    match id {
        Some(id) => BoardView { tasks: b.tasks.push(TaskView { id, text }), draft: Seq::empty() },
        None => b,
    }
}

/// The board after the store answered a request to delete the task at
/// `index`: when it deleted it, the task leaves the list; else nothing
/// changes.
pub open spec fn after_delete(b: BoardView, index: int, deleted: bool) -> BoardView {
    if deleted {
        BoardView { tasks: b.tasks.remove(index), draft: b.draft }
    } else {
        b
    }
}

impl TaskBoard {
    /// A board holding `tasks`, as loaded from the store, and an empty draft.
    pub fn new(tasks: Vec<Task>) -> (r: TaskBoard)
        ensures
            r@ == (BoardView { tasks: task_views(tasks@), draft: Seq::empty() }),
    {
        TaskBoard { tasks, draft: String::new() }
    }

    /// The number of tasks.
    pub fn len(&self) -> (r: usize)
        ensures
            r == self@.tasks.len(),
    {
        self.tasks.len()
    }

    /// The tasks, in order.
    pub fn tasks(&self) -> (r: &Vec<Task>)
        ensures
            task_views(r@) == self@.tasks,
    {
        &self.tasks
    }

    /// The draft in the input bar.
    pub fn draft(&self) -> (r: &str)
        ensures
            r@ == self@.draft,
    {
        self.draft.as_str()
    }

    /// Replaces the draft with what the input bar now holds.
    pub fn set_draft(&mut self, text: String)
        ensures
            final(self)@ == (BoardView { tasks: old(self)@.tasks, draft: text@ }),
    {
        self.draft = text;
    }

    /// The text to ask the store to add when the draft is submitted: the
    /// draft trimmed, or nothing where only white space is left.
    pub fn submission(&self) -> (r: Option<String>)
        ensures
            match r {
                Some(t) => submission_of(self@.draft) == Some(t@),
                None => submission_of(self@.draft) is None,
            },
    {
        let t = trimmed(self.draft.as_str());
        if t.as_str().unicode_len() == 0 {
            None
        } else {
            Some(t)
        }
    }

    /// The draft as typed, to add when the draft is submitted, or nothing
    /// where only white space is left.
    pub fn raw_submission(&self) -> (r: Option<String>)
        ensures
            match r {
                Some(t) => trim(self@.draft).len() > 0 && t@ == self@.draft,
                None => trim(self@.draft).len() == 0,
            },
    {
        let t = trimmed(self.draft.as_str());
        if t.as_str().unicode_len() == 0 {
            None
        } else {
            Some(self.draft.clone())
        }
    }

    /// Takes the store's answer to a request to add `text`.
    pub fn record_insert(&mut self, text: String, outcome: Result<i64, StoreError>)
        ensures
            final(self)@ == after_insert(old(self)@, text@, stored_id(outcome)),
    {
        match outcome {
            Ok(id) => {
                self.tasks.push(Task { id, text });
                self.draft = String::new();
                assert(task_views(self.tasks@) =~= task_views(old(self).tasks@).push(
                    TaskView { id, text: text@ },
                ));
            },
            Err(_) => {},
        }
    }

    /// The id of the task at `index`, if there is one.
    pub fn task_id(&self, index: usize) -> (r: Option<i64>)
        ensures
            match r {
                Some(id) => index < self@.tasks.len() && id == self@.tasks[index as int].id,
                None => index >= self@.tasks.len(),
            },
    {
        if index < self.tasks.len() {
            Some(self.tasks[index].id)
        } else {
            None
        }
    }

    /// Takes the store's answer to a request to delete the task at `index`.
    pub fn record_delete(&mut self, index: usize, outcome: Result<usize, StoreError>)
        requires
            index < old(self)@.tasks.len(),
        ensures
            final(self)@ == after_delete(old(self)@, index as int, outcome is Ok),
    {
        match outcome {
            Ok(_) => {
                let _removed = self.tasks.remove(index);
                assert(task_views(self.tasks@) =~= task_views(old(self).tasks@).remove(
                    index as int,
                ));
            },
            Err(_) => {},
        }
    }

    /// The labels of the tasks, in order: each numbered from one, then `") "`
    /// and its text.
    pub fn labels(&self) -> (r: Vec<String>)
        ensures
            r@.len() == self@.tasks.len(),
            forall|i: int|
                0 <= i < r@.len() ==> #[trigger] r@[i]@ == numbered_label(
                    i as nat,
                    self@.tasks[i].text,
                ),
    {
        let n = self.tasks.len();
        let mut out: Vec<String> = Vec::new();
        for i in 0..n
            invariant
                n == self.tasks@.len(),
                self@.tasks == task_views(self.tasks@),
                out@.len() == i,
                forall|j: int|
                    0 <= j < i ==> #[trigger] out@[j]@ == numbered_label(
                        j as nat,
                        self@.tasks[j].text,
                    ),
        {
            let label = label_at(i, self.tasks[i].text.as_str());
            out.push(label);
        }
        out
    }
}


/// A draft is refused exactly when every character of it is white space;
/// any other draft is submitted as the piece `d[i..j]` of it that remains
/// when the white space at its two ends, and only that, is removed.
pub proof fn submission_refuses_only_blank_drafts(d: Seq<char>)
    ensures
        submission_of(d) is None <==> forall|k: int|
            0 <= k < d.len() ==> is_white_space(#[trigger] d[k]),
        submission_of(d) matches Some(t) ==> exists|i: int, j: int|
            {
                &&& 0 <= i < j <= d.len()
                &&& t == #[trigger] d.subrange(i, j)
                &&& forall|k: int| 0 <= k < i ==> is_white_space(#[trigger] d[k])
                &&& forall|k: int| j <= k < d.len() ==> is_white_space(#[trigger] d[k])
                &&& !is_white_space(d[i])
                &&& !is_white_space(d[j - 1])
            },
{
    trim_removes_only_outer_white_space(d);
    let (i, j) = choose|i: int, j: int|
        {
            &&& 0 <= i <= j <= d.len()
            &&& trim(d) == #[trigger] d.subrange(i, j)
            &&& forall|k: int| 0 <= k < i ==> is_white_space(#[trigger] d[k])
            &&& forall|k: int| j <= k < d.len() ==> is_white_space(#[trigger] d[k])
            &&& i < j ==> !is_white_space(d[i]) && !is_white_space(d[j - 1])
        };
    if i == j {
        assert forall|k: int| 0 <= k < d.len() implies is_white_space(#[trigger] d[k]) by {
            if k >= j {
            } else {
            }
        }
    } else {
        assert(trim(d).len() > 0);
        assert(!is_white_space(d[i]));
    }
}

/// Adding a task and then deleting the last task gives back the list as it
/// was, with the draft emptied.
pub proof fn insert_then_delete_restores(b: BoardView, text: Seq<char>, id: i64)
    ensures
        after_delete(after_insert(b, text, Some(id)), b.tasks.len() as int, true) == (BoardView {
            tasks: b.tasks,
            draft: Seq::empty(),
        }),
{
    assert(b.tasks.push(TaskView { id, text }).remove(b.tasks.len() as int) =~= b.tasks);
}

/// A request that the store refused leaves the board as it was.
pub proof fn refused_request_changes_nothing(b: BoardView, text: Seq<char>, index: int)
    ensures
        after_insert(b, text, None) == b,
        after_delete(b, index, false) == b,
{
}

/// A successful add keeps every earlier task where it was and puts the new
/// one last; a successful delete keeps the tasks before `index` in place
/// and moves each later one up by one.
pub proof fn updates_keep_other_tasks(b: BoardView, text: Seq<char>, id: i64, index: int)
    requires
        0 <= index < b.tasks.len(),
    ensures
        ({
            let a = after_insert(b, text, Some(id)).tasks;
            &&& a.len() == b.tasks.len() + 1
            &&& a[b.tasks.len() as int] == (TaskView { id, text })
            &&& forall|i: int| 0 <= i < b.tasks.len() ==> a[i] == b.tasks[i]
        }),
        ({
            let d = after_delete(b, index, true).tasks;
            &&& d.len() == b.tasks.len() - 1
            &&& forall|i: int| 0 <= i < index ==> d[i] == b.tasks[i]
            &&& forall|i: int| index <= i < d.len() ==> d[i] == b.tasks[i + 1]
        }),
{
}

} // verus!
