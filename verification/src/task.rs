//! Tasks: the unit of work the daemon schedules.
//!
//! A task is an arbitrary shell command together with the bookkeeping the
//! scheduler needs: its group, its dependencies, its lifecycle status and
//! the instants at which it was created, started and finished. Instants are
//! plain seconds-since-epoch values; the caller supplies the clock.

use vstd::prelude::*;

verus! {

/// How a finished task ended.
#[derive(Clone, Copy, Debug, PartialEq, Eq)]
pub enum TaskResult {
    /// The child exited with code 0.
    Success,
    /// The child exited with the given non-zero code.
    Failed(i32),
    /// The child could not be spawned at all.
    FailedToSpawn,
    /// The child was terminated by a signal.
    Killed,
    /// A dependency finished without success, so the task never ran.
    DependencyFailed,
}

/// Lifecycle status of a task.
///
/// `Queued`, `Stashed`, `Locked` and `Editing` are pre-run states; only
/// `Queued` is eligible for spawning. `Running` and `Paused` occupy a slot
/// of the group's parallel limit. `Done` is terminal.
#[derive(Clone, Copy, Debug, PartialEq, Eq)]
pub enum TaskStatus {
    /// Eligible to be spawned as soon as its group has a free slot.
    Queued,
    /// Explicitly held back; with `enqueue_at`, released once the clock
    /// reaches that instant.
    Stashed { enqueue_at: Option<u64> },
    /// Held back until every dependency has finished successfully.
    Locked,
    /// Held back while a client edits the task; never spawned.
    Editing,
    /// A child process is executing the command.
    Running,
    /// The child process is suspended; the group slot stays occupied.
    Paused,
    /// Finished, with the recorded outcome.
    Done(TaskResult),
}

/// The exit of a reaped child process, as the supervisor reports it.
#[derive(Clone, Copy, Debug, PartialEq, Eq)]
pub enum ChildExit {
    /// The process exited on its own with this code.
    Code(i32),
    /// The process was terminated by this signal.
    Signal(i32),
}

/// A task as the state store holds it.
pub struct Task {
    /// Unique id; ids grow monotonically and are never reused.
    pub id: u64,
    /// The shell command to execute.
    pub command: String,
    /// Working directory for the child process.
    pub path: String,
    /// Environment overlay, applied on top of the daemon's environment.
    pub envs: Vec<(String, String)>,
    /// Name of the group the task belongs to.
    pub group: String,
    /// Ids of tasks that must finish successfully before this one runs.
    pub dependencies: Vec<u64>,
    /// Optional free-form label.
    pub label: Option<String>,
    /// Current lifecycle status.
    pub status: TaskStatus,
    /// Instant at which the task was added.
    pub created_at: u64,
    /// Instant at which the task last entered `Running`, if it ever did.
    pub started_at: Option<u64>,
    /// Instant at which the task entered `Done`, if it has.
    pub completed_at: Option<u64>,
}

/// Mathematical model of a [`Task`]: strings become character sequences,
/// vectors become sequences; all contracts speak in these terms.
pub struct TaskView {
    pub id: u64,
    pub command: Seq<char>,
    pub path: Seq<char>,
    pub envs: Seq<(Seq<char>, Seq<char>)>,
    pub group: Seq<char>,
    pub dependencies: Seq<u64>,
    pub label: Option<Seq<char>>,
    pub status: TaskStatus,
    pub created_at: u64,
    pub started_at: Option<u64>,
    pub completed_at: Option<u64>,
}

impl View for Task {
    type V = TaskView;

    open spec fn view(&self) -> TaskView {
        TaskView {
            id: self.id,
            command: self.command@,
            path: self.path@,
            envs: self.envs@.map_values(|p: (String, String)| (p.0@, p.1@)),
            group: self.group@,
            dependencies: self.dependencies@,
            label: match self.label {
                Some(l) => Some(l@),
                None => None,
            },
            status: self.status,
            created_at: self.created_at,
            started_at: self.started_at,
            completed_at: self.completed_at,
        }
    }
}

/// True of the statuses that occupy a slot of the group's parallel limit.
pub open spec fn is_active(s: TaskStatus) -> bool {
    s is Running || s is Paused
}

/// True of the terminal status.
pub open spec fn is_done(s: TaskStatus) -> bool {
    s is Done
}

/// True when the status is terminal with a successful outcome.
pub open spec fn is_done_success(s: TaskStatus) -> bool {
    s == TaskStatus::Done(TaskResult::Success)
}

/// The outcome recorded for a reaped child: exit code 0 is success, any
/// other code a failure carrying that code, and death by signal `Killed`.
pub open spec fn exit_result(e: ChildExit) -> TaskResult {
    match e {
        ChildExit::Code(c) => if c == 0 {
            TaskResult::Success
        } else {
            TaskResult::Failed(c)
        },
        ChildExit::Signal(_) => TaskResult::Killed,
    }
}

impl Task {
    /// True of the statuses that occupy a slot of the group's parallel limit.
    pub fn is_active(&self) -> (r: bool)
        ensures
            r == is_active(self.status),
    {
        match self.status {
            TaskStatus::Running => true,
            TaskStatus::Paused => true,
            _ => false,
        }
    }

    /// True of the terminal status.
    pub fn is_done(&self) -> (r: bool)
        ensures
            r == is_done(self.status),
    {
        match self.status {
            TaskStatus::Done(_) => true,
            _ => false,
        }
    }
}

/// Translates a reaped child's exit into the recorded task outcome.
pub fn translate_exit(e: ChildExit) -> (r: TaskResult)
    ensures
        r == exit_result(e),
{
    match e {
        ChildExit::Code(c) => if c == 0 {
            TaskResult::Success
        } else {
            TaskResult::Failed(c)
        },
        ChildExit::Signal(_) => TaskResult::Killed,
    }
}

/// Deep copy of a string vector pair list, preserving the view.
fn clone_envs(envs: &Vec<(String, String)>) -> (r: Vec<(String, String)>)
    ensures
        r@.map_values(|p: (String, String)| (p.0@, p.1@)) == envs@.map_values(
            |p: (String, String)| (p.0@, p.1@),
        ),
{
    let mut out: Vec<(String, String)> = Vec::new();
    let mut i: usize = 0;
    while i < envs.len()
        invariant
            i <= envs.len(),
            out@.len() == i,
            forall|j: int|
                0 <= j < i ==> (#[trigger] out@[j]).0@ == envs@[j].0@ && out@[j].1@ == envs@[j].1@,
        decreases envs.len() - i,
    {
        let pair = &envs[i];
        out.push((pair.0.clone(), pair.1.clone()));
        i += 1;
    }
    proof {
        assert(out@.map_values(|p: (String, String)| (p.0@, p.1@)) =~= envs@.map_values(
            |p: (String, String)| (p.0@, p.1@),
        ));
    }
    out
}

/// Deep copy of an id vector, preserving the view.
pub fn clone_ids(v: &Vec<u64>) -> (r: Vec<u64>)
    ensures
        r@ == v@,
{
    let mut out: Vec<u64> = Vec::new();
    let mut i: usize = 0;
    while i < v.len()
        invariant
            i <= v.len(),
            out@ == v@.subrange(0, i as int),
        decreases v.len() - i,
    {
        out.push(v[i]);
        proof {
            assert(v@.subrange(0, i as int).push(v@[i as int]) =~= v@.subrange(0, i + 1 as int));
        }
        i += 1;
    }
    proof {
        assert(v@.subrange(0, v@.len() as int) =~= v@);
    }
    out
}

/// Deep copy of an optional label, preserving the view.
fn clone_label(l: &Option<String>) -> (r: Option<String>)
    ensures
        match l {
            Some(s) => r matches Some(t) && t@ == s@,
            None => r is None,
        },
{
    match l {
        Some(s) => Some(s.clone()),
        None => None,
    }
}

/// Deep copy of a task: the copy has the same view as the original.
pub fn clone_task(t: &Task) -> (r: Task)
    ensures
        r@ == t@,
{
    let r = Task {
        id: t.id,
        command: t.command.clone(),
        path: t.path.clone(),
        envs: clone_envs(&t.envs),
        group: t.group.clone(),
        dependencies: clone_ids(&t.dependencies),
        label: clone_label(&t.label),
        status: t.status,
        created_at: t.created_at,
        started_at: t.started_at,
        completed_at: t.completed_at,
    };
    r
}

} // verus!
