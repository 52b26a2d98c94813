mod task_status;

use vstd::prelude::*;

pub use crate::task::task_status::{
    TaskStatus, TaskStatusParseError, done_text, in_progress_text, lemma_status_text,
    status_of_lowered, status_text,
    todo_text,
};
use crate::date_time::DateTime;

verus! {

/// What a task holds, as mathematical values.
pub struct TaskRecord {
    pub description: Seq<char>,
    pub status: TaskStatus,
    pub created_at: DateTime,
    pub updated_at: DateTime,
}

pub struct Task {
    description: String,
    status: TaskStatus,
    created_at: DateTime,
    updated_at: DateTime,
}

impl View for Task {
    type V = TaskRecord;

    closed spec fn view(&self) -> TaskRecord {
        TaskRecord {
            description: self.description@,
            status: self.status,
            created_at: self.created_at,
            updated_at: self.updated_at,
        }
    }
}

impl Task {
    /// A new task to do, created and updated at the present instant.
    pub fn new(description: &str) -> (r: Self)
        ensures
            r@.description == description@,
            r@.status == TaskStatus::ToDo,
            r@.created_at == r@.updated_at,
            exists|secs: int| r@.created_at.is_instant(secs),
    {
        Task::new_at(description, DateTime::now())
    }

    /// A new task to do, created and updated at `now`.
    pub fn new_at(description: &str, now: DateTime) -> (r: Self)
        ensures
            r@ == (TaskRecord {
                description: description@,
                status: TaskStatus::ToDo,
                created_at: now,
                updated_at: now,
            }),
    {
        Task {
            description: description.to_owned(),
            status: TaskStatus::ToDo,
            created_at: now,
            updated_at: now,
        }
    }

    /// A task with the given fields.
    pub fn load(
        description: &str,
        status: &TaskStatus,
        created_at: &DateTime,
        updated_at: &DateTime,
    ) -> (r: Self)
        ensures
            r@ == (TaskRecord {
                description: description@,
                status: *status,
                created_at: *created_at,
                updated_at: *updated_at,
            }),
    {
        Task {
            description: description.to_owned(),
            status: *status,
            created_at: *created_at,
            updated_at: *updated_at,
        }
    }

    pub fn status(&self) -> (r: &TaskStatus)
        ensures
            *r == self@.status,
    {
        &self.status
    }

    pub fn description(&self) -> (r: &str)
        ensures
            r@ == self@.description,
    {
        self.description.as_str()
    }

    pub fn created_at(&self) -> (r: &DateTime)
        ensures
            *r == self@.created_at,
    {
        &self.created_at
    }

    pub fn updated_at(&self) -> (r: &DateTime)
        ensures
            *r == self@.updated_at,
    {
        &self.updated_at
    }

    /// Sets the status and stamps the task as updated now.
    pub fn set_status(&mut self, new_status: TaskStatus)
        ensures
            final(self)@.status == new_status,
            final(self)@.description == old(self)@.description,
            final(self)@.created_at == old(self)@.created_at,
            exists|secs: int| final(self)@.updated_at.is_instant(secs),
    {
        let now = DateTime::now();
        self.set_status_at(new_status, now);
        assert(self@.updated_at == now);
    }

    /// Sets the status and stamps the task as updated at `now`.
    pub fn set_status_at(&mut self, new_status: TaskStatus, now: DateTime)
        ensures
            final(self)@ == (TaskRecord { status: new_status, updated_at: now, ..old(self)@ }),
    {
        self.status = new_status;
        self.set_updated_at(now);
    }

    /// Replaces the description and stamps the task as updated now.
    pub fn set_description(&mut self, new_description: &str)
        ensures
            final(self)@.description == new_description@,
            final(self)@.status == old(self)@.status,
            final(self)@.created_at == old(self)@.created_at,
            exists|secs: int| final(self)@.updated_at.is_instant(secs),
    {
        let now = DateTime::now();
        self.set_description_at(new_description, now);
        assert(self@.updated_at == now);
    }

    /// Replaces the description and stamps the task as updated at `now`.
    pub fn set_description_at(&mut self, new_description: &str, now: DateTime)
        ensures
            final(self)@ == (TaskRecord {
                description: new_description@,
                updated_at: now,
                ..old(self)@
            }),
    {
        self.description = new_description.to_owned();
        self.set_updated_at(now);
    }

    fn set_updated_at(&mut self, updated_at: DateTime)
        ensures
            final(self)@ == (TaskRecord { updated_at, ..old(self)@ }),
    {
        self.updated_at = updated_at;
    }
}

} // verus!
