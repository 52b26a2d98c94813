pub mod cli;
pub mod codec;
pub mod date_time;
pub mod task;
pub mod text;

use vstd::prelude::*;

pub use crate::cli::{argument_views, CLIInvalidArgumentsError, CLI};
use crate::codec::{
    decode, decode_text, encode, encode_text, has_id, lemma_task_map, lemma_task_map_push,
    lemma_task_map_remove, lemma_task_map_update, records, task_map, unique_ids,
};
pub use crate::date_time::{Date, DateTime, DateTimeParseError, Time};
pub use crate::task::{Task, TaskRecord, TaskStatus, TaskStatusParseError};
use crate::task::status_of_lowered;
use crate::text::{
    chars_of, decimal, lower_of, lowered, lowercase, parse_unsigned, parse_unsigned_chars, same_chars,
    string_of,
};

verus! {

/// The command a run carries out.
#[derive(Clone, Copy, Debug, PartialEq, Eq, Structural)]
pub enum TaskTrackerMode {
    Add,
    Update,
    Delete,
    List,
    MarkInProgress,
    MarkDone,
}

/// An unknown mode; holds the mode's text in lower case.
pub struct TaskTrackerModeParseError(pub String);

/// No task has the ID asked for; holds the message.
pub struct TaskTrackerInvalidTaskIdError(pub String);

pub enum TaskTrackerCreationError {
    TaskTrackerModeParseError(TaskTrackerModeParseError),
    CLIInvalidArgumentsError(CLIInvalidArgumentsError),
}

impl From<TaskTrackerModeParseError> for TaskTrackerCreationError {
    fn from(value: TaskTrackerModeParseError) -> (r: Self) {
        TaskTrackerCreationError::TaskTrackerModeParseError(value)
    }
}

impl vstd::std_specs::convert::FromSpecImpl<TaskTrackerModeParseError> for TaskTrackerCreationError {
    open spec fn obeys_from_spec() -> bool {
        true
    }

    open spec fn from_spec(v: TaskTrackerModeParseError) -> Self {
        TaskTrackerCreationError::TaskTrackerModeParseError(v)
    }
}

impl From<CLIInvalidArgumentsError> for TaskTrackerCreationError {
    fn from(value: CLIInvalidArgumentsError) -> (r: Self) {
        TaskTrackerCreationError::CLIInvalidArgumentsError(value)
    }
}

impl vstd::std_specs::convert::FromSpecImpl<CLIInvalidArgumentsError> for TaskTrackerCreationError {
    open spec fn obeys_from_spec() -> bool {
        true
    }

    open spec fn from_spec(v: CLIInvalidArgumentsError) -> Self {
        TaskTrackerCreationError::CLIInvalidArgumentsError(v)
    }
}

pub open spec fn add_text() -> Seq<char> {
    seq!['a', 'd', 'd']
}

pub open spec fn update_text() -> Seq<char> {
    seq!['u', 'p', 'd', 'a', 't', 'e']
}

pub open spec fn delete_text() -> Seq<char> {
    seq!['d', 'e', 'l', 'e', 't', 'e']
}

pub open spec fn list_text() -> Seq<char> {
    seq!['l', 'i', 's', 't']
}

pub open spec fn mark_in_progress_text() -> Seq<char> {
    seq!['m', 'a', 'r', 'k', '-', 'i', 'n', '-', 'p', 'r', 'o', 'g', 'r', 'e', 's', 's']
}

pub open spec fn mark_done_text() -> Seq<char> {
    seq!['m', 'a', 'r', 'k', '-', 'd', 'o', 'n', 'e']
}

/// The mode that lower-case text names, if any.
pub open spec fn mode_of_lowered(l: Seq<char>) -> Option<TaskTrackerMode> {
    if l == add_text() {
        Some(TaskTrackerMode::Add)
    } else if l == update_text() {
        Some(TaskTrackerMode::Update)
    } else if l == delete_text() {
        Some(TaskTrackerMode::Delete)
    } else if l == list_text() {
        Some(TaskTrackerMode::List)
    } else if l == mark_in_progress_text() {
        Some(TaskTrackerMode::MarkInProgress)
    } else if l == mark_done_text() {
        Some(TaskTrackerMode::MarkDone)
    } else {
        None
    }
}

impl TaskTrackerMode {
    /// The mode that lower-case text names, or an error holding the text.
    pub fn from_lowered(l: &str) -> (r: Result<TaskTrackerMode, TaskTrackerModeParseError>)
        ensures
            match mode_of_lowered(l@) {
                Some(m) => r is Ok && r->Ok_0 == m,
                None => r is Err && r->Err_0.0@ == l@,
            },
    {
        let v = chars_of(l);
        let add = vec!['a', 'd', 'd'];
        let update = vec!['u', 'p', 'd', 'a', 't', 'e'];
        let delete = vec!['d', 'e', 'l', 'e', 't', 'e'];
        let list = vec!['l', 'i', 's', 't'];
        let in_progress = vec!['m', 'a', 'r', 'k', '-', 'i', 'n', '-', 'p', 'r', 'o', 'g', 'r', 'e', 's', 's'];
        let done = vec!['m', 'a', 'r', 'k', '-', 'd', 'o', 'n', 'e'];
        assert(add@ =~= add_text());
        assert(update@ =~= update_text());
        assert(delete@ =~= delete_text());
        assert(list@ =~= list_text());
        assert(in_progress@ =~= mark_in_progress_text());
        assert(done@ =~= mark_done_text());
        if same_chars(&v, &add) {
            Ok(TaskTrackerMode::Add)
        } else if same_chars(&v, &update) {
            Ok(TaskTrackerMode::Update)
        } else if same_chars(&v, &delete) {
            Ok(TaskTrackerMode::Delete)
        } else if same_chars(&v, &list) {
            Ok(TaskTrackerMode::List)
        } else if same_chars(&v, &in_progress) {
            Ok(TaskTrackerMode::MarkInProgress)
        } else if same_chars(&v, &done) {
            Ok(TaskTrackerMode::MarkDone)
        } else {
            Err(TaskTrackerModeParseError(string_of(&v)))
        }
    }

    /// The mode that `s` names in any case, or an error holding `s` in lower case.
    pub fn from_text(s: &str) -> (r: Result<TaskTrackerMode, TaskTrackerModeParseError>)
        ensures
            match mode_of_lowered(lower_of(s@)) {
                Some(m) => r is Ok && r->Ok_0 == m,
                None => r is Err && r->Err_0.0@ == lower_of(s@),
            },
    {
        let l = lowercase(s);
        TaskTrackerMode::from_lowered(l.as_str())
    }
}

impl std::str::FromStr for TaskTrackerMode {
    type Err = TaskTrackerModeParseError;

    fn from_str(s: &str) -> (r: Result<TaskTrackerMode, TaskTrackerModeParseError>)
        ensures
            match mode_of_lowered(lower_of(s@)) {
                Some(m) => r is Ok && r->Ok_0 == m,
                None => r is Err && r->Err_0.0@ == lower_of(s@),
            },
    {
        TaskTrackerMode::from_text(s)
    }
}

impl Default for TaskTrackerMode {
    fn default() -> (r: TaskTrackerMode)
        ensures
            r == TaskTrackerMode::Add,
    {
        TaskTrackerMode::Add
    }
}

/// `No task with ID <id> found`.
pub open spec fn no_task_message(id: u32) -> Seq<char> {
    seq!['N', 'o', ' ', 't', 'a', 's', 'k', ' ', 'w', 'i', 't', 'h', ' ', 'I', 'D', ' '] + decimal(
        id as nat,
    ) + seq![' ', 'f', 'o', 'u', 'n', 'd']
}

fn no_task_error(id: u32) -> (r: TaskTrackerInvalidTaskIdError)
    ensures
        r.0@ == no_task_message(id),
{
    let mut v = vec!['N', 'o', ' ', 't', 'a', 's', 'k', ' ', 'w', 'i', 't', 'h', ' ', 'I', 'D', ' '];
    v.append(&mut crate::text::decimal_chars(id as u64));
    v.append(&mut vec![' ', 'f', 'o', 'u', 'n', 'd']);
    assert(v@ =~= no_task_message(id));
    TaskTrackerInvalidTaskIdError(string_of(&v))
}

/// `k` is the smallest ID that no record of `m` has.
pub open spec fn is_first_free_id(m: Map<u32, TaskRecord>, k: u32) -> bool {
    &&& !m.contains_key(k)
    &&& forall|j: u32| j < k ==> #[trigger] m.contains_key(j)
}

/// The IDs of `m` whose status matches `filter` (every ID where there is none).
pub open spec fn listed_ids(m: Map<u32, TaskRecord>, filter: Option<TaskStatus>) -> Set<u32> {
    Set::new(
        |k: u32|
            m.contains_key(k) && match filter {
                None => true,
                Some(st) => m[k].status == st,
            },
    )
}

/// Arguments that a mode reads, the program's name and the mode included.
pub open spec fn operands_needed(m: TaskTrackerMode) -> nat {
    match m {
        TaskTrackerMode::Add => 3,
        TaskTrackerMode::Update => 4,
        TaskTrackerMode::Delete => 3,
        TaskTrackerMode::List => 2,
        TaskTrackerMode::MarkInProgress => 3,
        TaskTrackerMode::MarkDone => 3,
    }
}

/// An ID argument: the number it spells, or 0.
pub open spec fn id_arg(a: Seq<char>) -> u32 {
    match parse_unsigned(a, 0xffff_ffff) {
        Some(n) => n as u32,
        None => 0,
    }
}

/// The status filter of a listing: none without a third argument, else the status it names.
pub open spec fn filter_arg(args: Seq<Seq<char>>) -> Option<TaskStatus> {
    if args.len() < 3 {
        None
    } else {
        Some(status_of_lowered(lowered(args[2])))
    }
}

/// A change of one task that fails, changing nothing, where no task has the ID.
pub open spec fn change_result(
    before: Map<u32, TaskRecord>,
    id: u32,
    changed: TaskRecord,
    after: Map<u32, TaskRecord>,
    r: Result<TaskTrackerOutcome, TaskTrackerInvalidTaskIdError>,
) -> bool {
    &&& (r is Ok <==> before.contains_key(id))
    &&& r is Ok ==> r->Ok_0 is Changed && after == before.insert(id, changed)
    &&& r is Err ==> after == before && r->Err_0.0@ == no_task_message(id)
}

/// What a run in mode `mode` with arguments `args` gives and leaves, from the tasks `before`,
/// with `next` as the first free ID.
pub open spec fn start_result(
    before: Map<u32, TaskRecord>,
    mode: TaskTrackerMode,
    args: Seq<Seq<char>>,
    next: u32,
    now: DateTime,
    after: Map<u32, TaskRecord>,
    r: Result<TaskTrackerOutcome, TaskTrackerInvalidTaskIdError>,
) -> bool {
    match mode {
        TaskTrackerMode::Add => r is Ok && r->Ok_0 == TaskTrackerOutcome::Added(next) && after
            == before.insert(
            next,
            TaskRecord {
                description: args[2],
                status: TaskStatus::ToDo,
                created_at: now,
                updated_at: now,
            },
        ),
        TaskTrackerMode::Update => change_result(
            before,
            id_arg(args[2]),
            TaskRecord { description: args[3], updated_at: now, ..before[id_arg(args[2])] },
            after,
            r,
        ),
        TaskTrackerMode::Delete => r is Ok && r->Ok_0 is Changed && after == before.remove(
            id_arg(args[2]),
        ),
        TaskTrackerMode::List => r is Ok && r->Ok_0 is Listed && r->Ok_0->Listed_0@.to_set()
            == listed_ids(before, filter_arg(args)) && r->Ok_0->Listed_0@.no_duplicates() && after
            == before,
        TaskTrackerMode::MarkInProgress => change_result(
            before,
            id_arg(args[2]),
            TaskRecord {
                status: TaskStatus::InProgress,
                updated_at: now,
                ..before[id_arg(args[2])]
            },
            after,
            r,
        ),
        TaskTrackerMode::MarkDone => change_result(
            before,
            id_arg(args[2]),
            TaskRecord { status: TaskStatus::Done, updated_at: now, ..before[id_arg(args[2])] },
            after,
            r,
        ),
    }
}

/// What a run asks of the program around the library once the command is done.
pub enum TaskTrackerOutcome {
    /// A task was added under this ID; the tasks are to be saved.
    Added(u32),
    /// Tasks were changed or deleted; the tasks are to be saved.
    Changed,
    /// Nothing changed; these are the IDs to show.
    Listed(Vec<u32>),
}

/// A run of the tracker: the command line, the tasks by ID, the mode, and the next free ID.
pub struct TaskTracker {
    cli: CLI,
    tasks: Vec<(u32, Task)>,
    mode: TaskTrackerMode,
    next_id: u32,
}

impl TaskTracker {
    pub closed spec fn entries(&self) -> Seq<(u32, TaskRecord)> {
        records(self.tasks@)
    }

    /// The tasks by ID.
    pub open spec fn tasks_map(&self) -> Map<u32, TaskRecord> {
        task_map(self.entries())
    }

    /// No ID is stored twice.
    pub closed spec fn wf(&self) -> bool {
        unique_ids(self.entries())
    }

    pub closed spec fn mode_spec(&self) -> TaskTrackerMode {
        self.mode
    }

    pub closed spec fn next_id_spec(&self) -> u32 {
        self.next_id
    }

    pub closed spec fn args(&self) -> Seq<Seq<char>> {
        self.cli.args()
    }

    /// The command line, mode and next ID are those of `other`.
    pub open spec fn same_run(&self, other: &TaskTracker) -> bool {
        &&& self.mode_spec() == other.mode_spec()
        &&& self.next_id_spec() == other.next_id_spec()
        &&& self.args() == other.args()
    }

    /// A tracker for the command line `cli` over the tasks that the text `stored` holds (empty
    /// text holds none); `now` stamps a stored task whose time fields are missing. Fails where
    /// the mode, the second argument, names no mode.
    pub fn new(cli: CLI, stored: &str, now: DateTime) -> (r: Result<Self, TaskTrackerCreationError>)
        ensures
            cli.args().len() >= 2,
            match mode_of_lowered(lower_of(cli.args()[1])) {
                Some(m) => r is Ok && r->Ok_0.wf() && r->Ok_0.mode_spec() == m
                    && r->Ok_0.entries() == decode_text(stored@, now) && r->Ok_0.next_id_spec()
                    == 0 && r->Ok_0.args() == cli.args(),
                None => r is Err && match r->Err_0 {
                    TaskTrackerCreationError::TaskTrackerModeParseError(e) => e.0@ == lower_of(
                        cli.args()[1],
                    ),
                    _ => false,
                },
            },
    {
        let mode = match TaskTrackerMode::from_text(cli.arguments()[1].as_str()) {
            Ok(m) => m,
            Err(e) => {
                return Err(TaskTrackerCreationError::TaskTrackerModeParseError(e));
            },
        };
        let tasks = decode(stored, now);
        Ok(TaskTracker { cli, tasks, mode, next_id: 0 })
    }

    pub fn cli(&self) -> (r: &CLI)
        ensures
            r.args() == self.args(),
    {
        &self.cli
    }

    pub fn mode(&self) -> (r: TaskTrackerMode)
        ensures
            r == self.mode_spec(),
    {
        self.mode
    }

    pub fn next_id(&self) -> (r: u32)
        ensures
            r == self.next_id_spec(),
    {
        self.next_id
    }

    /// How many tasks are stored.
    pub fn task_count(&self) -> (r: usize)
        ensures
            r == self.entries().len(),
    {
        self.tasks.len()
    }

    /// The task with ID `id`, if there is one.
    pub fn task(&self, id: u32) -> (r: Option<&Task>)
        requires
            self.wf(),
        ensures
            match r {
                Some(t) => self.tasks_map().contains_key(id) && t@ == self.tasks_map()[id],
                None => !self.tasks_map().contains_key(id),
            },
    {
        match self.position(id) {
            Some(i) => {
                proof {
                    lemma_task_map(self.entries());
                }
                Some(&self.tasks[i].1)
            },
            None => None,
        }
    }

    fn position(&self, id: u32) -> (r: Option<usize>)
        requires
            self.wf(),
        ensures
            match r {
                Some(i) => i < self.entries().len() && self.entries()[i as int].0 == id,
                None => !has_id(self.entries(), id),
            },
            r is Some <==> self.tasks_map().contains_key(id),
    {
        proof {
            lemma_task_map(self.entries());
        }
        let mut i: usize = 0;
        while i < self.tasks.len()
            invariant
                self.wf(),
                i <= self.tasks.len(),
                forall|j: int| 0 <= j < i ==> self.entries()[j].0 != id,
            decreases self.tasks.len() - i,
        {
            if self.tasks[i].0 == id {
                proof {
                    lemma_task_map(self.entries());
                }
                return Some(i);
            }
            i += 1;
        }
        proof {
            lemma_task_map(self.entries());
        }
        None
    }

    /// Sets the next ID to the smallest ID that no task has.
    pub fn set_next_id(&mut self)
        requires
            old(self).wf(),
            old(self).entries().len() < u32::MAX,
        ensures
            final(self).wf(),
            final(self).entries() == old(self).entries(),
            final(self).mode_spec() == old(self).mode_spec(),
            final(self).args() == old(self).args(),
            is_first_free_id(final(self).tasks_map(), final(self).next_id_spec()),
    {
        let mut next_id: u32 = 0;
        proof {
            lemma_task_map(self.entries());
        }
        while self.position(next_id).is_some()
            invariant
                self.wf(),
                self.entries().len() < u32::MAX,
                next_id <= self.entries().len(),
                forall|j: u32| j < next_id ==> #[trigger] self.tasks_map().contains_key(j),
            decreases self.entries().len() - next_id,
        {
            proof {
                lemma_ids_cover(self.entries(), next_id as int + 1);
            }
            next_id += 1;
        }
        self.next_id = next_id;
    }

    /// Adds a task to do under the next ID, created and updated at `now`.
    pub fn add_task(&mut self, description: &str, now: DateTime)
        requires
            old(self).wf(),
        ensures
            final(self).wf(),
            final(self).same_run(old(self)),
            final(self).tasks_map() == old(self).tasks_map().insert(
                old(self).next_id_spec(),
                TaskRecord {
                    description: description@,
                    status: TaskStatus::ToDo,
                    created_at: now,
                    updated_at: now,
                },
            ),
    {
        let task = Task::new_at(description, now);
        let ghost s = self.entries();
        match self.position(self.next_id) {
            Some(i) => {
                let ghost key = s[i as int].0;
                self.tasks.set(i, (self.next_id, task));
                proof {
                    assert(self.entries() =~= s.update(i as int, (key, task@)));
                    lemma_task_map_update(s, i as int, task@);
                }
            },
            None => {
                self.tasks.push((self.next_id, task));
                proof {
                    assert(self.entries() =~= s.push((self.next_id, task@)));
                    lemma_task_map_push(s, self.next_id, task@);
                }
            },
        }
    }

    /// Removes the task with ID `id`; an absent ID changes nothing.
    pub fn delete_task(&mut self, id: u32)
        requires
            old(self).wf(),
        ensures
            final(self).wf(),
            final(self).same_run(old(self)),
            final(self).tasks_map() == old(self).tasks_map().remove(id),
    {
        let ghost s = self.entries();
        match self.position(id) {
            Some(i) => {
                self.tasks.remove(i);
                proof {
                    assert(self.entries() =~= s.remove(i as int));
                    lemma_task_map_remove(s, i as int);
                }
            },
            None => {
                proof {
                    lemma_task_map(s);
                    assert(self.tasks_map() =~= old(self).tasks_map().remove(id));
                }
            },
        }
    }

    /// Replaces the description of task `id` and stamps it as updated at `now`; fails where no
    /// task has that ID, changing nothing.
    pub fn update_task(&mut self, id: u32, description: &str, now: DateTime) -> (r: Result<
        (),
        TaskTrackerInvalidTaskIdError,
    >)
        requires
            old(self).wf(),
        ensures
            final(self).wf(),
            final(self).same_run(old(self)),
            r is Ok <==> old(self).tasks_map().contains_key(id),
            r is Ok ==> final(self).tasks_map() == old(self).tasks_map().insert(
                id,
                TaskRecord { description: description@, updated_at: now, ..old(self).tasks_map()[id] },
            ),
            r is Err ==> final(self).tasks_map() == old(self).tasks_map() && r->Err_0.0@
                == no_task_message(id),
    {
        let ghost s = self.entries();
        match self.position(id) {
            Some(i) => {
                let (k, mut t) = self.tasks.remove(i);
                t.set_description_at(description, now);
                self.tasks.insert(i, (k, t));
                proof {
                    lemma_task_map(s);
                    assert(self.entries() =~= s.update(i as int, (k, t@)));
                    lemma_task_map_update(s, i as int, t@);
                }
                Ok(())
            },
            None => Err(no_task_error(id)),
        }
    }

    fn set_task_status(&mut self, id: u32, status: TaskStatus, now: DateTime) -> (r: Result<
        (),
        TaskTrackerInvalidTaskIdError,
    >)
        requires
            old(self).wf(),
        ensures
            final(self).wf(),
            final(self).same_run(old(self)),
            r is Ok <==> old(self).tasks_map().contains_key(id),
            r is Ok ==> final(self).tasks_map() == old(self).tasks_map().insert(
                id,
                TaskRecord { status, updated_at: now, ..old(self).tasks_map()[id] },
            ),
            r is Err ==> final(self).tasks_map() == old(self).tasks_map() && r->Err_0.0@
                == no_task_message(id),
    {
        let ghost s = self.entries();
        match self.position(id) {
            Some(i) => {
                let (k, mut t) = self.tasks.remove(i);
                t.set_status_at(status, now);
                self.tasks.insert(i, (k, t));
                proof {
                    lemma_task_map(s);
                    assert(self.entries() =~= s.update(i as int, (k, t@)));
                    lemma_task_map_update(s, i as int, t@);
                }
                Ok(())
            },
            None => Err(no_task_error(id)),
        }
    }

    /// Marks task `id` in progress, stamped as updated at `now`; fails where no task has that
    /// ID, changing nothing.
    pub fn mark_task_in_progress(&mut self, id: u32, now: DateTime) -> (r: Result<
        (),
        TaskTrackerInvalidTaskIdError,
    >)
        requires
            old(self).wf(),
        ensures
            final(self).wf(),
            final(self).same_run(old(self)),
            r is Ok <==> old(self).tasks_map().contains_key(id),
            r is Ok ==> final(self).tasks_map() == old(self).tasks_map().insert(
                id,
                TaskRecord {
                    status: TaskStatus::InProgress,
                    updated_at: now,
                    ..old(self).tasks_map()[id]
                },
            ),
            r is Err ==> final(self).tasks_map() == old(self).tasks_map() && r->Err_0.0@
                == no_task_message(id),
    {
        self.set_task_status(id, TaskStatus::InProgress, now)
    }

    /// Marks task `id` done, stamped as updated at `now`; fails where no task has that ID,
    /// changing nothing.
    pub fn mark_task_done(&mut self, id: u32, now: DateTime) -> (r: Result<
        (),
        TaskTrackerInvalidTaskIdError,
    >)
        requires
            old(self).wf(),
        ensures
            final(self).wf(),
            final(self).same_run(old(self)),
            r is Ok <==> old(self).tasks_map().contains_key(id),
            r is Ok ==> final(self).tasks_map() == old(self).tasks_map().insert(
                id,
                TaskRecord { status: TaskStatus::Done, updated_at: now, ..old(self).tasks_map()[id] },
            ),
            r is Err ==> final(self).tasks_map() == old(self).tasks_map() && r->Err_0.0@
                == no_task_message(id),
    {
        self.set_task_status(id, TaskStatus::Done, now)
    }

    /// The IDs of the tasks whose status is `filter`, or of every task; each once, in stored
    /// order.
    pub fn list_tasks(&self, filter: Option<TaskStatus>) -> (r: Vec<u32>)
        requires
            self.wf(),
        ensures
            r@.to_set() == listed_ids(self.tasks_map(), filter),
            r@.no_duplicates(),
    {
        let ghost s = self.entries();
        proof {
            lemma_task_map(s);
        }
        let mut r: Vec<u32> = Vec::new();
        let mut i: usize = 0;
        while i < self.tasks.len()
            invariant
                i <= self.tasks.len(),
                s == self.entries(),
                unique_ids(s),
                r@.no_duplicates(),
                forall|k: u32|
                    r@.contains(k) <==> exists|j: int|
                        0 <= j < i && #[trigger] s[j].0 == k && match filter {
                            None => true,
                            Some(st) => s[j].1.status == st,
                        },
            decreases self.tasks.len() - i,
        {
            let keep = match filter {
                None => true,
                Some(st) => *self.tasks[i].1.status() == st,
            };
            assert(s[i as int] == (self.tasks@[i as int].0, self.tasks@[i as int].1@));
            if keep {
                let ghost before = r@;
                let id = self.tasks[i].0;
                assert(!before.contains(id)) by {
                    if before.contains(id) {
                        let j = choose|j: int| 0 <= j < i && #[trigger] s[j].0 == id && match filter {
                            None => true,
                            Some(st) => s[j].1.status == st,
                        };
                        assert(s[j].0 == s[i as int].0);
                    }
                }
                r.push(id);
                assert forall|a: int, b: int| 0 <= a < b < r@.len() implies r@[a] != r@[b] by {
                    if b == r@.len() - 1 {
                        assert(before.contains(r@[a]));
                    }
                }
                assert forall|k: u32| r@.contains(k) <==> exists|j: int|
                    0 <= j < i + 1 && #[trigger] s[j].0 == k && match filter {
                        None => true,
                        Some(st) => s[j].1.status == st,
                    } by {
                    if k == id {
                        assert(r@[r@.len() - 1] == id);
                        assert(s[i as int].0 == k);
                    }
                    if r@.contains(k) && k != id {
                        let x = choose|x: int| 0 <= x < r@.len() && r@[x] == k;
                        assert(before[x] == k);
                    }
                    if before.contains(k) {
                        let x = choose|x: int| 0 <= x < before.len() && before[x] == k;
                        assert(r@[x] == k);
                    }
                    if k != id && (exists|j: int|
                        0 <= j < i + 1 && #[trigger] s[j].0 == k && match filter {
                            None => true,
                            Some(st) => s[j].1.status == st,
                        }) {
                        let j = choose|j: int|
                            0 <= j < i + 1 && #[trigger] s[j].0 == k && match filter {
                                None => true,
                                Some(st) => s[j].1.status == st,
                            };
                        assert(j < i);
                        assert(before.contains(k));
                    }
                }
            }
            i += 1;
        }
        proof {
            let m = self.tasks_map();
            assert forall|k: u32| #[trigger] r@.to_set().contains(k) <==> listed_ids(m, filter).contains(k) by {
                if listed_ids(m, filter).contains(k) {
                    let j = choose|j: int| 0 <= j < s.len() && s[j].0 == k;
                    assert(m[s[j].0] == s[j].1);
                }
                if r@.contains(k) {
                    let j = choose|j: int| 0 <= j < i && #[trigger] s[j].0 == k && match filter {
                        None => true,
                        Some(st) => s[j].1.status == st,
                    };
                    assert(m[s[j].0] == s[j].1);
                }
            }
            assert(r@.to_set() =~= listed_ids(m, filter));
        }
        r
    }

    /// Whether the command line holds every operand that the mode reads.
    pub fn has_operands(&self) -> (r: bool)
        ensures
            r == (self.args().len() >= operands_needed(self.mode_spec())),
    {
        let args = self.cli.arguments();
        let n = args.len();
        proof {
            assert(argument_views(args@).len() == n);
        }
        let needed: usize = match self.mode {
            TaskTrackerMode::Add => 3,
            TaskTrackerMode::Update => 4,
            TaskTrackerMode::Delete => 3,
            TaskTrackerMode::List => 2,
            TaskTrackerMode::MarkInProgress => 3,
            TaskTrackerMode::MarkDone => 3,
        };
        n >= needed
    }

    fn argument(&self, i: usize) -> (r: &str)
        requires
            i < self.args().len(),
        ensures
            r@ == self.args()[i as int],
    {
        let args = self.cli.arguments();
        proof {
            assert(argument_views(args@)[i as int] == args@[i as int]@);
        }
        args[i].as_str()
    }

    fn id_argument(&self, i: usize) -> (r: u32)
        requires
            i < self.args().len(),
        ensures
            r == id_arg(self.args()[i as int]),
    {
        let chars = chars_of(self.argument(i));
        match parse_unsigned_chars(&chars, 0xffff_ffff) {
            Some(n) => n as u32,
            None => 0,
        }
    }

    /// Carries out the mode on the tasks: first sets the next ID, then adds, updates, deletes,
    /// marks or lists as the command line says, with `now` as the present instant. An ID that
    /// is not a number reads as 0, and an unknown status filter as `todo`.
    pub fn start(&mut self, now: DateTime) -> (r: Result<TaskTrackerOutcome, TaskTrackerInvalidTaskIdError>)
        requires
            old(self).wf(),
            old(self).args().len() >= operands_needed(old(self).mode_spec()),
            old(self).entries().len() < u32::MAX,
        ensures
            final(self).wf(),
            final(self).mode_spec() == old(self).mode_spec(),
            final(self).args() == old(self).args(),
            is_first_free_id(old(self).tasks_map(), final(self).next_id_spec()),
            start_result(
                old(self).tasks_map(),
                old(self).mode_spec(),
                old(self).args(),
                final(self).next_id_spec(),
                now,
                final(self).tasks_map(),
                r,
            ),
    {
        self.set_next_id();
        match self.mode {
            TaskTrackerMode::Add => {
                let description = self.argument(2).to_owned();
                let id = self.next_id;
                self.add_task(description.as_str(), now);
                Ok(TaskTrackerOutcome::Added(id))
            },
            TaskTrackerMode::Update => {
                let id = self.id_argument(2);
                let description = self.argument(3).to_owned();
                match self.update_task(id, description.as_str(), now) {
                    Ok(()) => Ok(TaskTrackerOutcome::Changed),
                    Err(e) => Err(e),
                }
            },
            TaskTrackerMode::Delete => {
                let id = self.id_argument(2);
                self.delete_task(id);
                Ok(TaskTrackerOutcome::Changed)
            },
            TaskTrackerMode::List => {
                let filter = if self.cli.arguments().len() < 3 {
                    None
                } else {
                    Some(TaskStatus::from_text(self.argument(2)))
                };
                Ok(TaskTrackerOutcome::Listed(self.list_tasks(filter)))
            },
            TaskTrackerMode::MarkInProgress => {
                let id = self.id_argument(2);
                match self.mark_task_in_progress(id, now) {
                    Ok(()) => Ok(TaskTrackerOutcome::Changed),
                    Err(e) => Err(e),
                }
            },
            TaskTrackerMode::MarkDone => {
                let id = self.id_argument(2);
                match self.mark_task_done(id, now) {
                    Ok(()) => Ok(TaskTrackerOutcome::Changed),
                    Err(e) => Err(e),
                }
            },
        }
    }

    /// The text that stores the tasks.
    pub fn tasks_text(&self) -> (r: String)
        ensures
            r@ == encode_text(self.entries()),
    {
        encode(&self.tasks)
    }
}

/// Deleting an ID that no task has leaves the tasks as they were (and `delete_task` has no error
/// to report).
pub proof fn lemma_delete_absent(before: Map<u32, TaskRecord>, id: u32)
    requires
        !before.contains_key(id),
    ensures
        before.remove(id) == before,
{
    assert(before.remove(id) =~= before);
}

/// The first free ID is determined by the tasks: two IDs that are both first free are equal.
pub proof fn lemma_first_free_id_unique(m: Map<u32, TaskRecord>, a: u32, b: u32)
    requires
        is_first_free_id(m, a),
        is_first_free_id(m, b),
    ensures
        a == b,
{
    if a < b {
        assert(m.contains_key(a));
    } else if b < a {
        assert(m.contains_key(b));
    }
}

/// With unique IDs, when every ID below `k` is stored there are at least `k` records.
proof fn lemma_ids_cover(s: Seq<(u32, TaskRecord)>, k: int)
    requires
        unique_ids(s),
        0 <= k <= u32::MAX + 1,
        forall|j: u32| j < k ==> #[trigger] task_map(s).contains_key(j),
    ensures
        k <= s.len(),
{
    lemma_task_map(s);
    let ids = s.map_values(|e: (u32, TaskRecord)| e.0 as int);
    assert(ids.no_duplicates()) by {
        assert forall|a: int, b: int| 0 <= a < ids.len() && 0 <= b < ids.len() && a != b implies ids[a] != ids[b] by {
            if a < b {
                assert(s[a].0 != s[b].0);
            } else {
                assert(s[b].0 != s[a].0);
            }
        }
    }
    ids.unique_seq_to_set();
    vstd::seq_lib::seq_to_set_is_finite(ids);
    let range = vstd::set_lib::set_int_range(0, k);
    assert forall|x: int| #[trigger] range.contains(x) implies ids.to_set().contains(x) by {
        let j = x as u32;
        assert(task_map(s).contains_key(j));
        let i = choose|i: int| 0 <= i < s.len() && s[i].0 == j;
        assert(ids[i] == s[i].0 as int);
    }
    vstd::set_lib::lemma_int_range(0, k);
    vstd::set_lib::lemma_len_subset(range, ids.to_set());
}

} // verus!
