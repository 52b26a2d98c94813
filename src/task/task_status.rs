use vstd::prelude::*;

use crate::text::{
    ascii_lower, chars_of, has_char, is_ascii_text, lowered, lowercase, same_chars, string_of,
};

verus! {

#[derive(Clone, Copy, Debug, PartialEq, Eq, Structural)]
pub enum TaskStatus {
    ToDo,
    InProgress,
    Done,
}

/// Kept for callers that parse through `FromStr`; parsing never fails.
pub struct TaskStatusParseError;

pub open spec fn todo_text() -> Seq<char> {
    seq!['t', 'o', 'd', 'o']
}

pub open spec fn in_progress_text() -> Seq<char> {
    seq!['i', 'n', '-', 'p', 'r', 'o', 'g', 'r', 'e', 's', 's']
}

pub open spec fn done_text() -> Seq<char> {
    seq!['d', 'o', 'n', 'e']
}

/// The canonical text of a status.
pub open spec fn status_text(s: TaskStatus) -> Seq<char> {
    match s {
        TaskStatus::ToDo => todo_text(),
        TaskStatus::InProgress => in_progress_text(),
        TaskStatus::Done => done_text(),
    }
}

/// The status that already lowered text names; any other text means `ToDo`.
pub open spec fn status_of_lowered(l: Seq<char>) -> TaskStatus {
    if l == in_progress_text() {
        TaskStatus::InProgress
    } else if l == done_text() {
        TaskStatus::Done
    } else {
        TaskStatus::ToDo
    }
}

/// A status's text is lower-case ASCII, reads back as that status, and holds no brace or line
/// break.
pub proof fn lemma_status_text(st: TaskStatus)
    ensures
        status_of_lowered(lowered(status_text(st))) == st,
        !has_char(status_text(st), '{'),
        !has_char(status_text(st), '}'),
        !has_char(status_text(st), '\n'),
{
    let t = status_text(st);
    assert(forall|i: int| 0 <= i < t.len() ==> (#[trigger] t[i] == '-' || 'a' <= t[i] <= 'z'));
    assert(is_ascii_text(t));
    assert(ascii_lower(t) =~= t);
    assert(todo_text() != in_progress_text());
    assert(todo_text()[0] != done_text()[0]);
    assert(in_progress_text() != done_text());
}

fn todo_chars() -> (r: Vec<char>)
    ensures
        r@ == todo_text(),
{
    let r = vec!['t', 'o', 'd', 'o'];
    assert(r@ =~= todo_text());
    r
}

fn in_progress_chars() -> (r: Vec<char>)
    ensures
        r@ == in_progress_text(),
{
    let r = vec!['i', 'n', '-', 'p', 'r', 'o', 'g', 'r', 'e', 's', 's'];
    assert(r@ =~= in_progress_text());
    r
}

fn done_chars() -> (r: Vec<char>)
    ensures
        r@ == done_text(),
{
    let r = vec!['d', 'o', 'n', 'e'];
    assert(r@ =~= done_text());
    r
}

impl TaskStatus {
    /// The canonical text: `todo`, `in-progress` or `done`.
    pub fn to_string(&self) -> (r: String)
        ensures
            r@ == status_text(*self),
    {
        let v = match self {
            TaskStatus::ToDo => todo_chars(),
            TaskStatus::InProgress => in_progress_chars(),
            TaskStatus::Done => done_chars(),
        };
        string_of(&v)
    }

    /// The status named by text that is already in lower case; unknown text gives `ToDo`.
    pub fn from_lowered(l: &str) -> (r: TaskStatus)
        ensures
            r == status_of_lowered(l@),
    {
        let v = chars_of(l);
        if same_chars(&v, &in_progress_chars()) {
            TaskStatus::InProgress
        } else if same_chars(&v, &done_chars()) {
            TaskStatus::Done
        } else {
            TaskStatus::ToDo
        }
    }

    /// The status named by `s` in any case; unknown text gives `ToDo`.
    pub fn from_text(s: &str) -> (r: TaskStatus)
        ensures
            r == status_of_lowered(lowered(s@)),
    {
        let l = lowercase(s);
        TaskStatus::from_lowered(l.as_str())
    }
}

impl std::str::FromStr for TaskStatus {
    type Err = TaskStatusParseError;

    fn from_str(s: &str) -> (r: Result<TaskStatus, TaskStatusParseError>)
        ensures
            r is Ok && r->Ok_0 == status_of_lowered(lowered(s@)),
    {
        Ok(TaskStatus::from_text(s))
    }
}

impl Default for TaskStatus {
    fn default() -> (r: TaskStatus)
        ensures
            r == TaskStatus::ToDo,
    {
        TaskStatus::ToDo
    }
}

} // verus!
