//! The request dispatcher: one handler per request kind, each a pure
//! mutation of the state returning a response, plus the actions the caller
//! must carry out against the outside world (signalling children, spawning,
//! deleting log files, forwarding stdin).

use vstd::prelude::*;

use crate::state::{
    count_active, group_idx_of, group_of, has_group, has_task, idx_of, lemma_count_congruence,
    lemma_group_idx_is, lemma_idx_is, task_of, wf, within_limits, Group, GroupStatus, GroupView,
    State, StateView,
};
use crate::scheduler::lemma_push_contains;
use crate::task::{is_active, is_done_success, Task, TaskStatus, TaskView};

verus! {

/// Why a request was refused.
#[derive(Clone, Copy, Debug, PartialEq, Eq)]
pub enum FailKind {
    /// The named group does not exist.
    UnknownGroup,
    /// The named task does not exist.
    UnknownTask,
    /// An empty command was submitted.
    EmptyCommand,
    /// A dependency names a task that does not exist.
    UnknownDependency,
    /// A parallel limit below 1 was submitted.
    InvalidLimit,
    /// The task's current status does not admit the request.
    IllegalTransition,
    /// The group still holds tasks and cannot be removed.
    GroupNotEmpty,
    /// The default group cannot be removed.
    CannotRemoveDefault,
    /// A group of that name already exists.
    GroupExists,
    /// The id counter is exhausted.
    IdSpaceExhausted,
}

/// Which tasks a control request addresses.
pub enum TaskSelection {
    /// Every task.
    All,
    /// Every task of the named group.
    Group(String),
    /// Exactly the listed tasks.
    Tasks(Vec<u64>),
}

/// A request to add one task.
pub struct AddMessage {
    pub command: String,
    pub path: String,
    pub envs: Vec<(String, String)>,
    pub group: String,
    pub dependencies: Vec<u64>,
    pub label: Option<String>,
    /// Hold the task back instead of queueing it.
    pub stashed: bool,
    /// Release a held task automatically at this instant.
    pub enqueue_at: Option<u64>,
    /// Spawn at once, borrowing an extra slot beyond the group limit.
    pub start_immediately: bool,
}

/// A group management request.
pub enum GroupRequest {
    Add { name: String, parallel_limit: u64 },
    Remove(String),
    List,
}

/// Requests and responses of the daemon, one tagged union as they travel
/// over the wire.
#[allow(inconsistent_fields)]
pub enum Message {
    Add(AddMessage),
    Clean { group: Option<String>, successful_only: bool },
    Edit { id: u64, command: Option<String>, path: Option<String>, label: Option<String> },
    EditRequest(u64),
    EditRestore(u64),
    Enqueue { ids: Vec<u64>, enqueue_at: Option<u64> },
    Group(GroupRequest),
    Kill { target: TaskSelection, signal: Option<i32> },
    Parallel { group: String, limit: u64 },
    Pause { target: TaskSelection },
    Remove(Vec<u64>),
    Reset,
    Restart { ids: Vec<u64>, in_place: bool },
    Send { id: u64, input: Vec<u8> },
    Start { target: TaskSelection },
    Stash(Vec<u64>),
    Status,
    Switch { a: u64, b: u64 },
    // responses
    Success,
    Failure(FailKind),
    Added { id: u64 },
    StatusResponse(State),
    EditResponse { id: u64, command: String },
    GroupList(Vec<Group>),
}

/// What the caller must do to the outside world after a handler returned.
pub enum Action {
    /// Suspend the children of these tasks.
    Suspend(Vec<u64>),
    /// Continue the children of these tasks.
    Resume(Vec<u64>),
    /// Deliver this signal to the children of these tasks.
    Signal { ids: Vec<u64>, signal: i32 },
    /// Spawn these queued tasks at once, beyond their group's limit.
    SpawnNow(Vec<u64>),
    /// Write these bytes to the task's stdin.
    SendInput { id: u64, input: Vec<u8> },
    /// Delete the log files of these removed tasks.
    RemoveLogs(Vec<u64>),
    /// Kill these children, reap them, then clear the task list.
    ResetAll(Vec<u64>),
}

/// A handler's reply: the response to send back, and the outside actions
/// to carry out.
pub struct Reply {
    pub response: Message,
    pub actions: Vec<Action>,
}

/// A listed queued or dependency-locked task is stashed; everything else
/// is untouched.
pub open spec fn stash_sel(t: TaskView, ids: Seq<u64>) -> TaskView {
    if ids.contains(t.id) && (t.status is Queued || t.status is Locked) {
        TaskView { status: TaskStatus::Stashed { enqueue_at: None }, ..t }
    } else {
        t
    }
}

/// A listed stashed or dependency-locked task is released: queued at once,
/// or re-stashed with the given release instant; everything else is
/// untouched.
pub open spec fn enqueue_sel(t: TaskView, ids: Seq<u64>, at: Option<u64>) -> TaskView {
    if ids.contains(t.id) && (t.status is Stashed || t.status is Locked) {
        match at {
            Some(x) => TaskView { status: TaskStatus::Stashed { enqueue_at: Some(x) }, ..t },
            None => TaskView { status: TaskStatus::Queued, ..t },
        }
    } else {
        t
    }
}

/// Stashes the listed tasks: each that is `Queued` or `Locked` is held
/// back; tasks in other statuses, and unknown ids, are untouched.
pub fn stash_tasks(state: &mut State, ids: &Vec<u64>)
    requires
        wf(old(state)@),
    ensures
        final(state)@.tasks == old(state)@.tasks.map_values(|t: TaskView| stash_sel(t, ids@)),
        final(state)@.groups == old(state)@.groups,
        final(state)@.next_id == old(state)@.next_id,
        wf(final(state)@),
        forall|g: Seq<char>|
            #[trigger] count_active(final(state)@.tasks, g) == count_active(old(state)@.tasks, g),
        within_limits(old(state)@) ==> within_limits(final(state)@),
{
    let ghost pre = state@;
    let mut k: usize = 0;
    while k < ids.len()
        invariant
            k <= ids@.len(),
            state@.tasks.len() == pre.tasks.len(),
            forall|j: int|
                0 <= j < pre.tasks.len() ==> state@.tasks[j] == stash_sel(
                    #[trigger] pre.tasks[j],
                    ids@.subrange(0, k as int),
                ),
            state@.groups == pre.groups,
            state@.next_id == pre.next_id,
            wf(state@),
        decreases ids@.len() - k,
    {
        let ghost prefix = ids@.subrange(0, k as int);
        let ghost prefix2 = ids@.subrange(0, k + 1 as int);
        proof {
            assert(prefix2 =~= prefix.push(ids@[k as int]));
        }
        let d = ids[k];
        match state.find_task(d) {
            None => {
                proof {
                    assert forall|j: int| 0 <= j < pre.tasks.len() implies state@.tasks[j]
                        == stash_sel(#[trigger] pre.tasks[j], prefix2) by {
                        assert(state@.tasks[j].id == pre.tasks[j].id);
                        lemma_push_contains(prefix, d, pre.tasks[j].id);
                    }
                }
            },
            Some(i) => {
                proof {
                    lemma_idx_is(state@.tasks, i as int);
                    lemma_idx_is(pre.tasks, i as int);
                }
                let applies = match state.tasks[i].status {
                    TaskStatus::Queued => true,
                    TaskStatus::Locked => true,
                    _ => false,
                };
                if applies {
                    state.set_status_at(i, TaskStatus::Stashed { enqueue_at: None });
                }
                proof {
                    assert forall|j: int| 0 <= j < pre.tasks.len() implies state@.tasks[j]
                        == stash_sel(#[trigger] pre.tasks[j], prefix2) by {
                        lemma_push_contains(prefix, d, pre.tasks[j].id);
                    }
                }
            },
        }
        k += 1;
    }
    proof {
        assert(ids@.subrange(0, ids@.len() as int) =~= ids@);
        assert(final(state)@.tasks =~= pre.tasks.map_values(|t: TaskView| stash_sel(t, ids@)));
        assert forall|g: Seq<char>| #[trigger]
            count_active(final(state)@.tasks, g) == count_active(pre.tasks, g) by {
            lemma_count_congruence(final(state)@.tasks, pre.tasks, g);
        }
    }
}

/// Releases the listed stashed or dependency-locked tasks: queued at once,
/// or re-stashed for the given instant; everything else is untouched.
pub fn enqueue_tasks(state: &mut State, ids: &Vec<u64>, at: Option<u64>)
    requires
        wf(old(state)@),
    ensures
        final(state)@.tasks == old(state)@.tasks.map_values(|t: TaskView| enqueue_sel(t, ids@, at)),
        final(state)@.groups == old(state)@.groups,
        final(state)@.next_id == old(state)@.next_id,
        wf(final(state)@),
        forall|g: Seq<char>|
            #[trigger] count_active(final(state)@.tasks, g) == count_active(old(state)@.tasks, g),
        within_limits(old(state)@) ==> within_limits(final(state)@),
{
    let ghost pre = state@;
    let mut k: usize = 0;
    while k < ids.len()
        invariant
            k <= ids@.len(),
            state@.tasks.len() == pre.tasks.len(),
            forall|j: int|
                0 <= j < pre.tasks.len() ==> state@.tasks[j] == enqueue_sel(
                    #[trigger] pre.tasks[j],
                    ids@.subrange(0, k as int),
                    at,
                ),
            state@.groups == pre.groups,
            state@.next_id == pre.next_id,
            wf(state@),
        decreases ids@.len() - k,
    {
        let ghost prefix = ids@.subrange(0, k as int);
        let ghost prefix2 = ids@.subrange(0, k + 1 as int);
        proof {
            assert(prefix2 =~= prefix.push(ids@[k as int]));
        }
        let d = ids[k];
        match state.find_task(d) {
            None => {
                proof {
                    assert forall|j: int| 0 <= j < pre.tasks.len() implies state@.tasks[j]
                        == enqueue_sel(#[trigger] pre.tasks[j], prefix2, at) by {
                        assert(state@.tasks[j].id == pre.tasks[j].id);
                        lemma_push_contains(prefix, d, pre.tasks[j].id);
                    }
                }
            },
            Some(i) => {
                proof {
                    lemma_idx_is(state@.tasks, i as int);
                    lemma_idx_is(pre.tasks, i as int);
                }
                let applies = match state.tasks[i].status {
                    TaskStatus::Stashed { .. } => true,
                    TaskStatus::Locked => true,
                    _ => false,
                };
                if applies {
                    match at {
                        Some(x) => state.set_status_at(
                            i,
                            TaskStatus::Stashed { enqueue_at: Some(x) },
                        ),
                        None => state.set_status_at(i, TaskStatus::Queued),
                    }
                }
                proof {
                    assert forall|j: int| 0 <= j < pre.tasks.len() implies state@.tasks[j]
                        == enqueue_sel(#[trigger] pre.tasks[j], prefix2, at) by {
                        lemma_push_contains(prefix, d, pre.tasks[j].id);
                    }
                }
            },
        }
        k += 1;
    }
    proof {
        assert(ids@.subrange(0, ids@.len() as int) =~= ids@);
        assert(final(state)@.tasks =~= pre.tasks.map_values(
            |t: TaskView| enqueue_sel(t, ids@, at),
        ));
        assert forall|g: Seq<char>| #[trigger]
            count_active(final(state)@.tasks, g) == count_active(pre.tasks, g) by {
            lemma_count_congruence(final(state)@.tasks, pre.tasks, g);
        }
    }
}

/// Sets a group's parallel limit. A limit below 1 and an unknown group are
/// refused; neither changes the state.
pub fn set_parallel_limit(state: &mut State, name: &String, limit: u64) -> (r: Message)
    requires
        wf(old(state)@),
    ensures
        ({
            let pre = old(state)@;
            if limit < 1 {
                final(state)@ == pre && r == Message::Failure(FailKind::InvalidLimit)
            } else if !has_group(pre.groups, name@) {
                final(state)@ == pre && r == Message::Failure(FailKind::UnknownGroup)
            } else {
                final(state)@.groups == pre.groups.update(
                    group_idx_of(pre.groups, name@),
                    GroupView { parallel_limit: limit, ..group_of(pre.groups, name@) },
                ) && final(state)@.tasks == pre.tasks && final(state)@.next_id == pre.next_id && r
                    == Message::Success
            }
        }),
        wf(final(state)@),
        final(state)@.next_id == old(state)@.next_id,
{
    if limit < 1 {
        return Message::Failure(FailKind::InvalidLimit);
    }
    let gi = match state.find_group(name) {
        Some(g) => g,
        None => {
            return Message::Failure(FailKind::UnknownGroup);
        },
    };
    proof {
        lemma_group_idx_is(state@.groups, gi as int);
    }
    state.set_group_limit_at(gi, limit);
    Message::Success
}

/// Whether this is the reserved name of the default group.
pub fn is_default_name(name: &String) -> (r: bool)
    ensures
        r == (name@ == crate::state::default_group_name()),
{
    let d = String::from_str("default");
    let r = *name == d;
    r
}

/// Whether some task belongs to the named group.
pub fn group_has_tasks(state: &State, name: &String) -> (r: bool)
    ensures
        r == exists|i: int|
            0 <= i < state@.tasks.len() && (#[trigger] state@.tasks[i]).group == name@,
{
    let mut i: usize = 0;
    while i < state.tasks.len()
        invariant
            i <= state@.tasks.len(),
            forall|j: int| 0 <= j < i ==> (#[trigger] state@.tasks[j]).group != name@,
        decreases state@.tasks.len() - i,
    {
        if state.tasks[i].group == *name {
            proof {
                assert((#[trigger] state@.tasks[i as int]).group == name@);
            }
            return true;
        }
        i += 1;
    }
    false
}

/// Adds a group. An existing name and a limit below 1 are refused; a new
/// group starts running.
pub fn group_add(state: &mut State, name: String, limit: u64) -> (r: Message)
    requires
        wf(old(state)@),
    ensures
        ({
            let pre = old(state)@;
            if limit < 1 {
                final(state)@ == pre && r == Message::Failure(FailKind::InvalidLimit)
            } else if has_group(pre.groups, name@) {
                final(state)@ == pre && r == Message::Failure(FailKind::GroupExists)
            } else {
                final(state)@.groups == pre.groups.push(
                    GroupView { name: name@, parallel_limit: limit, status: GroupStatus::Running },
                ) && final(state)@.tasks == pre.tasks && final(state)@.next_id == pre.next_id && r
                    == Message::Success
            }
        }),
        wf(final(state)@),
        final(state)@.next_id == old(state)@.next_id,
        within_limits(old(state)@) ==> within_limits(final(state)@),
{
    if limit < 1 {
        return Message::Failure(FailKind::InvalidLimit);
    }
    match state.find_group(&name) {
        Some(_) => {
            return Message::Failure(FailKind::GroupExists);
        },
        None => {},
    }
    let ghost pre = state@;
    let ghost namev = name@;
    state.groups.push(Group { name, parallel_limit: limit, status: GroupStatus::Running });
    proof {
        let post = final(state)@;
        let nv = GroupView { name: namev, parallel_limit: limit, status: GroupStatus::Running };
        assert(post.groups =~= pre.groups.push(nv));
        assert(wf(post)) by {
            assert forall|i: int| 0 <= i < post.tasks.len() implies has_group(
                post.groups,
                (#[trigger] post.tasks[i]).group,
            ) by {
                let gi = group_idx_of(pre.groups, pre.tasks[i].group);
                assert(post.groups[gi].name == pre.tasks[i].group);
            }
            assert(has_group(post.groups, crate::state::default_group_name())) by {
                let gi = group_idx_of(pre.groups, crate::state::default_group_name());
                assert(post.groups[gi].name == crate::state::default_group_name());
            }
        }
        if within_limits(pre) {
            assert forall|k: int| 0 <= k < post.groups.len() implies count_active(
                post.tasks,
                (#[trigger] post.groups[k]).name,
            ) <= post.groups[k].parallel_limit by {
                if k < pre.groups.len() {
                } else {
                    crate::state::lemma_count_bounds(post.tasks, post.groups[k].name);
                    assert forall|j: int|
                        0 <= j < post.tasks.len() implies crate::state::slot_use(
                        #[trigger] post.tasks[j],
                        nv.name,
                    ) == 0 by {
                        let gi = group_idx_of(pre.groups, pre.tasks[j].group);
                        assert(pre.groups[gi].name == pre.tasks[j].group);
                    }
                    lemma_count_zero(post.tasks, nv.name);
                }
            }
        }
    }
    Message::Success
}

/// A group no task contributes to has an active count of zero.
pub proof fn lemma_count_zero(tasks: Seq<TaskView>, g: Seq<char>)
    requires
        forall|j: int| 0 <= j < tasks.len() ==> crate::state::slot_use(#[trigger] tasks[j], g) == 0,
    ensures
        count_active(tasks, g) == 0,
    decreases tasks.len(),
{
    if tasks.len() > 0 {
        lemma_count_zero(tasks.drop_last(), g);
    }
}

/// Removes a group. The default group, an unknown group and a group that
/// still holds tasks are refused.
pub fn group_remove(state: &mut State, name: &String) -> (r: Message)
    requires
        wf(old(state)@),
    ensures
        ({
            let pre = old(state)@;
            if name@ == crate::state::default_group_name() {
                final(state)@ == pre && r == Message::Failure(FailKind::CannotRemoveDefault)
            } else if !has_group(pre.groups, name@) {
                final(state)@ == pre && r == Message::Failure(FailKind::UnknownGroup)
            } else if exists|i: int|
                0 <= i < pre.tasks.len() && (#[trigger] pre.tasks[i]).group == name@ {
                final(state)@ == pre && r == Message::Failure(FailKind::GroupNotEmpty)
            } else {
                final(state)@.groups == pre.groups.remove(group_idx_of(pre.groups, name@))
                    && final(state)@.tasks == pre.tasks && final(state)@.next_id == pre.next_id && r
                    == Message::Success
            }
        }),
        wf(final(state)@),
        final(state)@.next_id == old(state)@.next_id,
        within_limits(old(state)@) ==> within_limits(final(state)@),
{
    if is_default_name(name) {
        return Message::Failure(FailKind::CannotRemoveDefault);
    }
    let gi = match state.find_group(name) {
        Some(g) => g,
        None => {
            return Message::Failure(FailKind::UnknownGroup);
        },
    };
    if group_has_tasks(state, name) {
        return Message::Failure(FailKind::GroupNotEmpty);
    }
    let ghost pre = state@;
    proof {
        lemma_group_idx_is(pre.groups, gi as int);
    }
    state.groups.remove(gi);
    proof {
        let post = final(state)@;
        assert(post.groups =~= pre.groups.remove(gi as int));
        assert(post.tasks =~= pre.tasks);
        assert(wf(post)) by {
            assert forall|i: int| 0 <= i < post.tasks.len() implies has_group(
                post.groups,
                (#[trigger] post.tasks[i]).group,
            ) by {
                let gj = group_idx_of(pre.groups, pre.tasks[i].group);
                assert(pre.groups[gj].name != name@);
                assert(gj != gi);
                if gj < gi {
                    assert(post.groups[gj].name == pre.tasks[i].group);
                } else {
                    assert(post.groups[gj - 1].name == pre.tasks[i].group);
                }
            }
            assert(has_group(post.groups, crate::state::default_group_name())) by {
                let gj = group_idx_of(pre.groups, crate::state::default_group_name());
                assert(gj != gi);
                if gj < gi {
                    assert(post.groups[gj].name == crate::state::default_group_name());
                } else {
                    assert(post.groups[gj - 1].name == crate::state::default_group_name());
                }
            }
        }
        if within_limits(pre) {
            assert forall|k: int| 0 <= k < post.groups.len() implies count_active(
                post.tasks,
                (#[trigger] post.groups[k]).name,
            ) <= post.groups[k].parallel_limit by {
                if k < gi as int {
                    assert(post.groups[k] == pre.groups[k]);
                } else {
                    assert(post.groups[k] == pre.groups[k + 1]);
                }
            }
        }
    }
    Message::Success
}

/// Opens an edit session: a `Queued` or `Stashed` task is marked
/// `Editing`, which the scheduler never spawns, and its current command is
/// returned for the client to modify.
pub fn edit_request(state: &mut State, id: u64) -> (r: Message)
    requires
        wf(old(state)@),
    ensures
        ({
            let pre = old(state)@;
            if !has_task(pre.tasks, id) {
                final(state)@ == pre && r == Message::Failure(FailKind::UnknownTask)
            } else if task_of(pre.tasks, id).status is Queued || task_of(pre.tasks, id).status
                is Stashed {
                final(state)@.tasks == pre.tasks.update(
                    idx_of(pre.tasks, id),
                    TaskView { status: TaskStatus::Editing, ..task_of(pre.tasks, id) },
                ) && final(state)@.groups == pre.groups && final(state)@.next_id == pre.next_id && (
                r matches Message::EditResponse { id: rid, command } && rid == id && command@
                    == task_of(pre.tasks, id).command)
            } else {
                final(state)@ == pre && r == Message::Failure(FailKind::IllegalTransition)
            }
        }),
        wf(final(state)@),
        final(state)@.next_id == old(state)@.next_id,
{
    let i = match state.find_task(id) {
        Some(i) => i,
        None => {
            return Message::Failure(FailKind::UnknownTask);
        },
    };
    proof {
        lemma_idx_is(state@.tasks, i as int);
    }
    let applies = match state.tasks[i].status {
        TaskStatus::Queued => true,
        TaskStatus::Stashed { .. } => true,
        _ => false,
    };
    if !applies {
        return Message::Failure(FailKind::IllegalTransition);
    }
    let command = state.tasks[i].command.clone();
    state.set_status_at(i, TaskStatus::Editing);
    Message::EditResponse { id, command }
}

/// Commits an edit: the `Editing` task takes the handed-in fields and
/// returns to `Queued`.
pub fn edit_commit(
    state: &mut State,
    id: u64,
    command: Option<String>,
    path: Option<String>,
    label: Option<String>,
) -> (r: Message)
    requires
        wf(old(state)@),
    ensures
        ({
            let pre = old(state)@;
            if !has_task(pre.tasks, id) {
                final(state)@ == pre && r == Message::Failure(FailKind::UnknownTask)
            } else if task_of(pre.tasks, id).status is Editing {
                final(state)@.tasks == pre.tasks.update(
                    idx_of(pre.tasks, id),
                    TaskView {
                        status: TaskStatus::Queued,
                        command: match command {
                            Some(c) => c@,
                            None => task_of(pre.tasks, id).command,
                        },
                        path: match path {
                            Some(p) => p@,
                            None => task_of(pre.tasks, id).path,
                        },
                        label: match label {
                            Some(l) => Some(l@),
                            None => task_of(pre.tasks, id).label,
                        },
                        ..task_of(pre.tasks, id)
                    },
                ) && final(state)@.groups == pre.groups && final(state)@.next_id == pre.next_id && r
                    == Message::Success
            } else {
                final(state)@ == pre && r == Message::Failure(FailKind::IllegalTransition)
            }
        }),
        wf(final(state)@),
        final(state)@.next_id == old(state)@.next_id,
{
    let i = match state.find_task(id) {
        Some(i) => i,
        None => {
            return Message::Failure(FailKind::UnknownTask);
        },
    };
    proof {
        lemma_idx_is(state@.tasks, i as int);
    }
    let applies = match state.tasks[i].status {
        TaskStatus::Editing => true,
        _ => false,
    };
    if !applies {
        return Message::Failure(FailKind::IllegalTransition);
    }
    state.edit_fields_at(i, command, path, label);
    Message::Success
}

/// Cancels an edit: the `Editing` task returns to `Queued` unchanged.
pub fn edit_restore(state: &mut State, id: u64) -> (r: Message)
    requires
        wf(old(state)@),
    ensures
        ({
            let pre = old(state)@;
            if !has_task(pre.tasks, id) {
                final(state)@ == pre && r == Message::Failure(FailKind::UnknownTask)
            } else if task_of(pre.tasks, id).status is Editing {
                final(state)@.tasks == pre.tasks.update(
                    idx_of(pre.tasks, id),
                    TaskView { status: TaskStatus::Queued, ..task_of(pre.tasks, id) },
                ) && final(state)@.groups == pre.groups && final(state)@.next_id == pre.next_id && r
                    == Message::Success
            } else {
                final(state)@ == pre && r == Message::Failure(FailKind::IllegalTransition)
            }
        }),
        wf(final(state)@),
        final(state)@.next_id == old(state)@.next_id,
{
    let i = match state.find_task(id) {
        Some(i) => i,
        None => {
            return Message::Failure(FailKind::UnknownTask);
        },
    };
    proof {
        lemma_idx_is(state@.tasks, i as int);
    }
    let applies = match state.tasks[i].status {
        TaskStatus::Editing => true,
        _ => false,
    };
    if !applies {
        return Message::Failure(FailKind::IllegalTransition);
    }
    state.set_status_at(i, TaskStatus::Queued);
    Message::Success
}

/// The status a freshly added task starts in: stashed when held back or
/// scheduled, locked behind its dependencies when it has any, else queued.
pub open spec fn add_status_of(m: AddMessage) -> TaskStatus {
    if m.stashed || m.enqueue_at is Some {
        TaskStatus::Stashed { enqueue_at: m.enqueue_at }
    } else if m.dependencies@.len() > 0 {
        TaskStatus::Locked
    } else {
        TaskStatus::Queued
    }
}

/// The task a valid add request inserts, under the next fresh id.
pub open spec fn added_view(s: StateView, m: AddMessage, now: u64) -> TaskView {
    TaskView {
        id: s.next_id,
        command: m.command@,
        path: m.path@,
        envs: m.envs@.map_values(|p: (String, String)| (p.0@, p.1@)),
        group: m.group@,
        dependencies: m.dependencies@,
        label: match m.label {
            Some(l) => Some(l@),
            None => None,
        },
        status: add_status_of(m),
        created_at: now,
        started_at: None,
        completed_at: None,
    }
}

/// Adds one task under a fresh id. An empty command, an unknown group and
/// a dependency on a task that does not exist are refused; each leaves the
/// state untouched. Dependencies can only name existing tasks, whose ids
/// are below the new task's, so dependency cycles can never form.
pub fn add_task_handler(state: &mut State, m: AddMessage, now: u64) -> (r: Message)
    requires
        wf(old(state)@),
    ensures
        ({
            let pre = old(state)@;
            if m.command@.len() == 0 {
                final(state)@ == pre && r == Message::Failure(FailKind::EmptyCommand)
            } else if !has_group(pre.groups, m.group@) {
                final(state)@ == pre && r == Message::Failure(FailKind::UnknownGroup)
            } else if !(forall|k: int|
                0 <= k < m.dependencies@.len() ==> has_task(
                    pre.tasks,
                    #[trigger] m.dependencies@[k],
                )) {
                final(state)@ == pre && r == Message::Failure(FailKind::UnknownDependency)
            } else if pre.next_id == u64::MAX {
                final(state)@ == pre && r == Message::Failure(FailKind::IdSpaceExhausted)
            } else {
                final(state)@.tasks == pre.tasks.push(added_view(pre, m, now))
                    && final(state)@.groups == pre.groups
                    && final(state)@.next_id == pre.next_id + 1
                    && r == (Message::Added { id: pre.next_id })
            }
        }),
        wf(final(state)@),
        final(state)@.next_id >= old(state)@.next_id,
        within_limits(old(state)@) ==> within_limits(final(state)@),
{
    let ghost pre = state@;
    if m.command.as_str().is_empty() {
        return Message::Failure(FailKind::EmptyCommand);
    }
    match state.find_group(&m.group) {
        Some(gi) => {
            proof {
                assert(state@.groups[gi as int].name == m.group@);
                assert(has_group(pre.groups, m.group@));
            }
        },
        None => {
            return Message::Failure(FailKind::UnknownGroup);
        },
    }
    let mut k: usize = 0;
    while k < m.dependencies.len()
        invariant
            k <= m.dependencies@.len(),
            forall|j: int| 0 <= j < k ==> has_task(pre.tasks, #[trigger] m.dependencies@[j]),
            state@ == pre,
            pre == old(state)@,
            wf(pre),
            m.command@.len() != 0,
            has_group(pre.groups, m.group@),
        decreases m.dependencies@.len() - k,
    {
        match state.find_task(m.dependencies[k]) {
            Some(ti) => {
                proof {
                    assert(state@.tasks[ti as int].id == m.dependencies@[k as int]);
                    assert(has_task(pre.tasks, m.dependencies@[k as int]));
                }
            },
            None => {
                proof {
                    assert(!has_task(pre.tasks, m.dependencies@[k as int]));
                }
                return Message::Failure(FailKind::UnknownDependency);
            },
        }
        k += 1;
    }
    if state.next_id == u64::MAX {
        return Message::Failure(FailKind::IdSpaceExhausted);
    }
    let status = if m.stashed || m.enqueue_at.is_some() {
        TaskStatus::Stashed { enqueue_at: m.enqueue_at }
    } else if m.dependencies.len() > 0 {
        TaskStatus::Locked
    } else {
        TaskStatus::Queued
    };
    let t = Task {
        id: 0,
        command: m.command,
        path: m.path,
        envs: m.envs,
        group: m.group,
        dependencies: m.dependencies,
        label: m.label,
        status,
        created_at: now,
        started_at: None,
        completed_at: None,
    };
    let id = state.add_task(t);
    Message::Added { id }
}

/// Whether a task survives a clean: anything not yet finished stays, a
/// finished task stays when only successes are being cleaned and it did
/// not succeed, and a group-scoped clean keeps every other group's tasks.
pub open spec fn clean_keeps(t: TaskView, g: Option<Seq<char>>, ok_only: bool) -> bool {
    ||| !(t.status is Done)
    ||| (ok_only && !is_done_success(t.status))
    ||| (match g {
        Some(n) => t.group != n,
        None => false,
    })
}

/// The tasks surviving a clean, in their original order.
pub open spec fn cleaned_tasks(tasks: Seq<TaskView>, g: Option<Seq<char>>, ok_only: bool) -> Seq<
    TaskView,
>
    decreases tasks.len(),
{
    if tasks.len() == 0 {
        Seq::empty()
    } else {
        cleaned_tasks(tasks.drop_last(), g, ok_only) + (if clean_keeps(tasks.last(), g, ok_only) {
            seq![tasks.last()]
        } else {
            Seq::<TaskView>::empty()
        })
    }
}

/// The ids a clean removes, whose log files must be deleted with them.
pub open spec fn cleaned_ids(tasks: Seq<TaskView>, g: Option<Seq<char>>, ok_only: bool) -> Seq<u64>
    decreases tasks.len(),
{
    if tasks.len() == 0 {
        Seq::empty()
    } else {
        cleaned_ids(tasks.drop_last(), g, ok_only) + (if clean_keeps(tasks.last(), g, ok_only) {
            Seq::<u64>::empty()
        } else {
            seq![tasks.last().id]
        })
    }
}

/// Cleaning removes only finished tasks, so no group's active count
/// changes.
pub proof fn lemma_count_cleaned(
    tasks: Seq<TaskView>,
    g: Option<Seq<char>>,
    ok_only: bool,
    gname: Seq<char>,
)
    ensures
        count_active(cleaned_tasks(tasks, g, ok_only), gname) == count_active(tasks, gname),
    decreases tasks.len(),
{
    if tasks.len() > 0 {
        lemma_count_cleaned(tasks.drop_last(), g, ok_only, gname);
        let rest = cleaned_tasks(tasks.drop_last(), g, ok_only);
        if clean_keeps(tasks.last(), g, ok_only) {
            assert(cleaned_tasks(tasks, g, ok_only) =~= rest.push(tasks.last()));
            crate::state::lemma_count_push(rest, tasks.last(), gname);
        } else {
            assert(cleaned_tasks(tasks, g, ok_only) =~= rest);
        }
    }
}

/// Removes finished tasks: all of them, or only those of one group, or
/// only the successful ones. Returns the removed ids, whose log files must
/// be deleted with them.
pub fn clean_handler(state: &mut State, group: &Option<String>, successful_only: bool) -> (r: (
    Message,
    Vec<u64>,
))
    requires
        wf(old(state)@),
    ensures
        ({
            let pre = old(state)@;
            let gv = match group {
                Some(n) => Some(n@),
                None => None::<Seq<char>>,
            };
            if gv matches Some(n) && !has_group(pre.groups, n) {
                final(state)@ == pre && r.0 == Message::Failure(FailKind::UnknownGroup) && r.1@
                    == Seq::<u64>::empty()
            } else {
                final(state)@.tasks == cleaned_tasks(pre.tasks, gv, successful_only)
                    && final(state)@.groups == pre.groups
                    && final(state)@.next_id == pre.next_id && r.0 == Message::Success
                    && r.1@ == cleaned_ids(pre.tasks, gv, successful_only)
            }
        }),
        wf(final(state)@),
        final(state)@.next_id == old(state)@.next_id,
        within_limits(old(state)@) ==> within_limits(final(state)@),
{
    let ghost pre = state@;
    let ghost gv = match group {
        Some(n) => Some(n@),
        None => None::<Seq<char>>,
    };
    match group {
        Some(n) => {
            match state.find_group(n) {
                Some(_) => {},
                None => {
                    return (Message::Failure(FailKind::UnknownGroup), Vec::new());
                },
            }
        },
        None => {},
    }
    let mut kept: Vec<Task> = Vec::new();
    let mut removed: Vec<u64> = Vec::new();
    let mut i: usize = 0;
    while i < state.tasks.len()
        invariant
            wf(pre),
            state@ == pre,
            gv == (match group {
                Some(n) => Some(n@),
                None => None::<Seq<char>>,
            }),
            i <= pre.tasks.len(),
            kept@.map_values(|t: Task| t@) == cleaned_tasks(
                pre.tasks.subrange(0, i as int),
                gv,
                successful_only,
            ),
            removed@ == cleaned_ids(pre.tasks.subrange(0, i as int), gv, successful_only),
            forall|p: int, q: int|
                0 <= p && p < q && q < kept@.len() ==> (#[trigger] kept@[p])@.id < (
                #[trigger] kept@[q])@.id,
            forall|p: int|
                0 <= p < kept@.len() ==> (i < pre.tasks.len() ==> (#[trigger] kept@[p])@.id
                    < pre.tasks[i as int].id),
            forall|p: int| 0 <= p < kept@.len() ==> (#[trigger] kept@[p])@.id < pre.next_id,
            forall|p: int|
                0 <= p < kept@.len() ==> has_group(pre.groups, (#[trigger] kept@[p])@.group),
        decreases pre.tasks.len() - i,
    {
        proof {
            assert(pre.tasks.subrange(0, i + 1 as int).drop_last() =~= pre.tasks.subrange(
                0,
                i as int,
            ));
            assert(pre.tasks.subrange(0, i + 1 as int).last() == pre.tasks[i as int]);
        }
        let t = &state.tasks[i];
        let is_done = match t.status {
            TaskStatus::Done(_) => true,
            _ => false,
        };
        let is_success = match t.status {
            TaskStatus::Done(crate::task::TaskResult::Success) => true,
            _ => false,
        };
        let group_mismatch = match group {
            Some(n) => !(t.group == *n),
            None => false,
        };
        let keep = !is_done || (successful_only && !is_success) || group_mismatch;
        proof {
            assert(keep == clean_keeps(pre.tasks[i as int], gv, successful_only));
        }
        if keep {
            kept.push(crate::task::clone_task(t));
            proof {
                assert(clean_keeps(pre.tasks[i as int], gv, successful_only));
                assert(kept@.map_values(|t: Task| t@) =~= cleaned_tasks(
                    pre.tasks.subrange(0, i + 1 as int),
                    gv,
                    successful_only,
                ));
                assert(removed@ =~= cleaned_ids(pre.tasks.subrange(0, i + 1 as int), gv,
                successful_only));
            }
        } else {
            removed.push(t.id);
            proof {
                assert(!clean_keeps(pre.tasks[i as int], gv, successful_only));
                assert(kept@.map_values(|t: Task| t@) =~= cleaned_tasks(
                    pre.tasks.subrange(0, i + 1 as int),
                    gv,
                    successful_only,
                ));
                assert(removed@ =~= cleaned_ids(pre.tasks.subrange(0, i + 1 as int), gv,
                successful_only));
            }
        }
        i += 1;
    }
    proof {
        assert(pre.tasks.subrange(0, pre.tasks.len() as int) =~= pre.tasks);
    }
    state.tasks = kept;
    proof {
        let post = final(state)@;
        assert(post.tasks =~= cleaned_tasks(pre.tasks, gv, successful_only));
        assert(post.groups =~= pre.groups);
        assert(wf(post)) by {
            assert(has_group(post.groups, crate::state::default_group_name()));
        }
        if within_limits(pre) {
            assert forall|k2: int| 0 <= k2 < post.groups.len() implies count_active(
                post.tasks,
                (#[trigger] post.groups[k2]).name,
            ) <= post.groups[k2].parallel_limit by {
                lemma_count_cleaned(pre.tasks, gv, successful_only, post.groups[k2].name);
            }
        }
    }
    (Message::Success, removed)
}

/// Whether a task survives a removal request: it does unless it is listed.
pub open spec fn remove_keeps(t: TaskView, ids: Seq<u64>) -> bool {
    !ids.contains(t.id)
}

/// The tasks surviving a removal, in their original order.
pub open spec fn remaining_tasks(tasks: Seq<TaskView>, ids: Seq<u64>) -> Seq<TaskView>
    decreases tasks.len(),
{
    if tasks.len() == 0 {
        Seq::empty()
    } else {
        remaining_tasks(tasks.drop_last(), ids) + (if remove_keeps(tasks.last(), ids) {
            seq![tasks.last()]
        } else {
            Seq::<TaskView>::empty()
        })
    }
}

/// The ids a removal takes out: the listed ones that actually existed.
pub open spec fn removed_ids(tasks: Seq<TaskView>, ids: Seq<u64>) -> Seq<u64>
    decreases tasks.len(),
{
    if tasks.len() == 0 {
        Seq::empty()
    } else {
        removed_ids(tasks.drop_last(), ids) + (if remove_keeps(tasks.last(), ids) {
            Seq::<u64>::empty()
        } else {
            seq![tasks.last().id]
        })
    }
}

/// Removing only inactive tasks leaves every group's active count
/// unchanged.
pub proof fn lemma_count_remaining(tasks: Seq<TaskView>, ids: Seq<u64>, gname: Seq<char>)
    requires
        forall|j: int|
            0 <= j < tasks.len() ==> (ids.contains((#[trigger] tasks[j]).id) ==> !is_active(
                tasks[j].status,
            )),
    ensures
        count_active(remaining_tasks(tasks, ids), gname) == count_active(tasks, gname),
    decreases tasks.len(),
{
    if tasks.len() > 0 {
        lemma_count_remaining(tasks.drop_last(), ids, gname);
        let rest = remaining_tasks(tasks.drop_last(), ids);
        if remove_keeps(tasks.last(), ids) {
            assert(remaining_tasks(tasks, ids) =~= rest.push(tasks.last()));
            crate::state::lemma_count_push(rest, tasks.last(), gname);
        } else {
            assert(remaining_tasks(tasks, ids) =~= rest);
        }
    }
}

/// Removes the listed tasks and reports which were taken out, so their
/// log files can be deleted with them. If any listed task is Running or
/// Paused the whole request is refused and nothing changes.
pub fn remove_handler(state: &mut State, ids: &Vec<u64>) -> (r: (Message, Vec<u64>))
    requires
        wf(old(state)@),
    ensures
        ({
            let pre = old(state)@;
            if exists|x: u64|
                ids@.contains(x) && has_task(pre.tasks, x) && is_active(
                    task_of(pre.tasks, x).status,
                ) {
                final(state)@ == pre && r.0 == Message::Failure(FailKind::IllegalTransition)
                    && r.1@ == Seq::<u64>::empty()
            } else {
                final(state)@.tasks == remaining_tasks(pre.tasks, ids@) && final(state)@.groups
                    == pre.groups && final(state)@.next_id == pre.next_id && r.0
                    == Message::Success && r.1@ == removed_ids(pre.tasks, ids@)
            }
        }),
        wf(final(state)@),
        final(state)@.next_id == old(state)@.next_id,
        within_limits(old(state)@) ==> within_limits(final(state)@),
{
    let ghost pre = state@;
    let actives = crate::scheduler::active_among(state, ids);
    if actives.len() > 0 {
        proof {
            assert(actives@.contains(actives@[0]));
        }
        return (Message::Failure(FailKind::IllegalTransition), Vec::new());
    }
    proof {
        assert forall|j: int|
            0 <= j < pre.tasks.len() implies (ids@.contains(
            (#[trigger] pre.tasks[j]).id,
        ) ==> !is_active(pre.tasks[j].status)) by {
            if ids@.contains(pre.tasks[j].id) && is_active(pre.tasks[j].status) {
                lemma_idx_is(pre.tasks, j);
                assert(!actives@.contains(pre.tasks[j].id));
            }
        }
        assert(!(exists|x: u64|
            ids@.contains(x) && has_task(pre.tasks, x) && is_active(
                task_of(pre.tasks, x).status,
            ))) by {
            if exists|x: u64|
                ids@.contains(x) && has_task(pre.tasks, x) && is_active(
                    task_of(pre.tasks, x).status,
                ) {
                let x = choose|x: u64|
                    ids@.contains(x) && has_task(pre.tasks, x) && is_active(
                        task_of(pre.tasks, x).status,
                    );
                assert(!actives@.contains(x));
            }
        }
    }
    let mut kept: Vec<Task> = Vec::new();
    let mut removed: Vec<u64> = Vec::new();
    let mut i: usize = 0;
    while i < state.tasks.len()
        invariant
            wf(pre),
            state@ == pre,
            i <= pre.tasks.len(),
            kept@.map_values(|t: Task| t@) == remaining_tasks(pre.tasks.subrange(0, i as int), ids@),
            removed@ == removed_ids(pre.tasks.subrange(0, i as int), ids@),
            forall|p: int, q: int|
                0 <= p && p < q && q < kept@.len() ==> (#[trigger] kept@[p])@.id < (
                #[trigger] kept@[q])@.id,
            forall|p: int|
                0 <= p < kept@.len() ==> (i < pre.tasks.len() ==> (#[trigger] kept@[p])@.id
                    < pre.tasks[i as int].id),
            forall|p: int| 0 <= p < kept@.len() ==> (#[trigger] kept@[p])@.id < pre.next_id,
            forall|p: int|
                0 <= p < kept@.len() ==> has_group(pre.groups, (#[trigger] kept@[p])@.group),
        decreases pre.tasks.len() - i,
    {
        proof {
            assert(pre.tasks.subrange(0, i + 1 as int).drop_last() =~= pre.tasks.subrange(
                0,
                i as int,
            ));
            assert(pre.tasks.subrange(0, i + 1 as int).last() == pre.tasks[i as int]);
        }
        let t = &state.tasks[i];
        let listed = crate::scheduler::vec_contains_u64(ids, t.id);
        if !listed {
            kept.push(crate::task::clone_task(t));
            proof {
                assert(kept@.map_values(|t: Task| t@) =~= remaining_tasks(
                    pre.tasks.subrange(0, i + 1 as int),
                    ids@,
                ));
                assert(removed@ =~= removed_ids(pre.tasks.subrange(0, i + 1 as int), ids@));
            }
        } else {
            removed.push(t.id);
            proof {
                assert(kept@.map_values(|t: Task| t@) =~= remaining_tasks(
                    pre.tasks.subrange(0, i + 1 as int),
                    ids@,
                ));
                assert(removed@ =~= removed_ids(pre.tasks.subrange(0, i + 1 as int), ids@));
            }
        }
        i += 1;
    }
    proof {
        assert(pre.tasks.subrange(0, pre.tasks.len() as int) =~= pre.tasks);
    }
    state.tasks = kept;
    proof {
        let post = final(state)@;
        assert(post.tasks =~= remaining_tasks(pre.tasks, ids@));
        assert(post.groups =~= pre.groups);
        assert(wf(post)) by {
            assert(has_group(post.groups, crate::state::default_group_name()));
        }
        if within_limits(pre) {
            assert forall|k2: int| 0 <= k2 < post.groups.len() implies count_active(
                post.tasks,
                (#[trigger] post.groups[k2]).name,
            ) <= post.groups[k2].parallel_limit by {
                lemma_count_remaining(pre.tasks, ids@, post.groups[k2].name);
            }
        }
    }
    (Message::Success, removed)
}

/// The two switched ids exchanged; any other id unchanged.
pub open spec fn swap_id(x: u64, a: u64, b: u64) -> u64 {
    if x == a {
        b
    } else if x == b {
        a
    } else {
        x
    }
}

/// A task as a switch rewrites it: its own id and every dependency id go
/// through the exchange.
pub open spec fn switched_task(t: TaskView, a: u64, b: u64) -> TaskView {
    TaskView {
        id: swap_id(t.id, a, b),
        dependencies: t.dependencies.map_values(|d: u64| swap_id(d, a, b)),
        ..t
    }
}

/// Only tasks still waiting in the queue or stashed may trade places; an
/// editing task may not.
pub open spec fn switchable(st: TaskStatus) -> bool {
    st is Queued || st is Stashed
}

/// Exchanges every occurrence of the two ids in a dependency list.
fn swap_ids_vec(v: &Vec<u64>, a: u64, b: u64) -> (r: Vec<u64>)
    ensures
        r@ == v@.map_values(|d: u64| swap_id(d, a, b)),
{
    let mut out: Vec<u64> = Vec::new();
    let mut i: usize = 0;
    while i < v.len()
        invariant
            i <= v@.len(),
            out@.len() == i,
            forall|j: int| 0 <= j < i ==> out@[j] == swap_id(#[trigger] v@[j], a, b),
        decreases v@.len() - i,
    {
        let d = v[i];
        if d == a {
            out.push(b);
        } else if d == b {
            out.push(a);
        } else {
            out.push(d);
        }
        i += 1;
    }
    proof {
        assert(out@ =~= v@.map_values(|d: u64| swap_id(d, a, b)));
    }
    out
}

/// Swaps the positions of two waiting tasks in the id order: the two
/// exchange their ids, and every dependency list follows the exchange, so
/// the dependency relation between tasks is preserved. Only `Queued` and
/// `Stashed` tasks may trade places; anything else, unknown ids and equal
/// ids are refused.
pub fn switch_handler(state: &mut State, a: u64, b: u64) -> (r: Message)
    requires
        wf(old(state)@),
    ensures
        ({
            let pre = old(state)@;
            if a == b {
                final(state)@ == pre && r == Message::Failure(FailKind::IllegalTransition)
            } else if !has_task(pre.tasks, a) || !has_task(pre.tasks, b) {
                final(state)@ == pre && r == Message::Failure(FailKind::UnknownTask)
            } else if !switchable(task_of(pre.tasks, a).status) || !switchable(
                task_of(pre.tasks, b).status,
            ) {
                final(state)@ == pre && r == Message::Failure(FailKind::IllegalTransition)
            } else {
                ({
                    let sw = pre.tasks.map_values(|t: TaskView| switched_task(t, a, b));
                    let ia = idx_of(pre.tasks, a);
                    let ib = idx_of(pre.tasks, b);
                    final(state)@.tasks == sw.update(ia, sw[ib]).update(ib, sw[ia])
                }) && final(state)@.groups == pre.groups && final(state)@.next_id == pre.next_id
                    && r == Message::Success
            }
        }),
        wf(final(state)@),
        final(state)@.next_id == old(state)@.next_id,
        within_limits(old(state)@) ==> within_limits(final(state)@),
{
    let ghost pre = state@;
    if a == b {
        return Message::Failure(FailKind::IllegalTransition);
    }
    let ia = match state.find_task(a) {
        Some(i) => i,
        None => {
            return Message::Failure(FailKind::UnknownTask);
        },
    };
    let ib = match state.find_task(b) {
        Some(i) => i,
        None => {
            return Message::Failure(FailKind::UnknownTask);
        },
    };
    proof {
        lemma_idx_is(pre.tasks, ia as int);
        lemma_idx_is(pre.tasks, ib as int);
    }
    let sa = match state.tasks[ia].status {
        TaskStatus::Queued => true,
        TaskStatus::Stashed { .. } => true,
        _ => false,
    };
    let sb = match state.tasks[ib].status {
        TaskStatus::Queued => true,
        TaskStatus::Stashed { .. } => true,
        _ => false,
    };
    if !sa || !sb {
        return Message::Failure(FailKind::IllegalTransition);
    }
    let mut j: usize = 0;
    while j < state.tasks.len()
        invariant
            j <= pre.tasks.len(),
            state@.tasks.len() == pre.tasks.len(),
            forall|p: int|
                0 <= p < j ==> state@.tasks[p] == (TaskView {
                    dependencies: (#[trigger] pre.tasks[p]).dependencies.map_values(
                        |d: u64| swap_id(d, a, b),
                    ),
                    ..pre.tasks[p]
                }),
            forall|p: int| j <= p < pre.tasks.len() ==> state@.tasks[p] == #[trigger] pre.tasks[p],
            state@.groups == pre.groups,
            state@.next_id == pre.next_id,
        decreases pre.tasks.len() - j,
    {
        let nd = swap_ids_vec(&state.tasks[j].dependencies, a, b);
        state.set_deps_at(j, nd);
        j += 1;
    }
    let ghost mid = state@;
    let mut ta = crate::task::clone_task(&state.tasks[ia]);
    ta.id = b;
    let mut tb = crate::task::clone_task(&state.tasks[ib]);
    tb.id = a;
    state.set_task_at(ia, tb);
    state.set_task_at(ib, ta);
    proof {
        let post = final(state)@;
        let sw = pre.tasks.map_values(|t: TaskView| switched_task(t, a, b));
        assert(idx_of(pre.tasks, a) == ia as int);
        assert(idx_of(pre.tasks, b) == ib as int);
        assert forall|p: int|
            0 <= p < pre.tasks.len() && p != ia as int && p != ib as int implies (
        #[trigger] pre.tasks[p]).id != a && pre.tasks[p].id != b by {
            if pre.tasks[p].id == a {
                lemma_idx_is(pre.tasks, p);
            }
            if pre.tasks[p].id == b {
                lemma_idx_is(pre.tasks, p);
            }
        }
        assert(post.tasks =~= sw.update(ia as int, sw[ib as int]).update(ib as int, sw[ia as int]));
        assert forall|p: int| 0 <= p < post.tasks.len() implies (#[trigger] post.tasks[p]).id
            == pre.tasks[p].id by {}
        assert(wf(post)) by {
            assert forall|p: int, q: int|
                0 <= p && p < q && q < post.tasks.len() implies (#[trigger] post.tasks[p]).id < (
            #[trigger] post.tasks[q]).id by {
                assert(pre.tasks[p].id < pre.tasks[q].id);
            }
            assert forall|p: int| 0 <= p < post.tasks.len() implies has_group(
                post.groups,
                (#[trigger] post.tasks[p]).group,
            ) by {
                if p == ia as int {
                    assert(post.tasks[p].group == pre.tasks[ib as int].group);
                } else if p == ib as int {
                    assert(post.tasks[p].group == pre.tasks[ia as int].group);
                } else {
                    assert(post.tasks[p].group == pre.tasks[p].group);
                }
            }
        }
        if within_limits(pre) {
            assert forall|k2: int| 0 <= k2 < post.groups.len() implies count_active(
                post.tasks,
                (#[trigger] post.groups[k2]).name,
            ) <= post.groups[k2].parallel_limit by {
                lemma_count_congruence(post.tasks, pre.tasks, post.groups[k2].name);
            }
        }
    }
    Message::Success
}

/// One restart applied to the state: a finished task is either requeued
/// in place under its old id, with dependencies and recorded instants
/// reset, or copied into a brand-new task under a fresh id. A task that
/// does not exist or is not finished leaves the state untouched.
pub open spec fn restart_one(s: StateView, id: u64, in_place: bool, now: u64) -> StateView {
    if has_task(s.tasks, id) && task_of(s.tasks, id).status is Done {
        if in_place {
            StateView {
                tasks: s.tasks.update(
                    idx_of(s.tasks, id),
                    TaskView {
                        status: TaskStatus::Queued,
                        dependencies: Seq::empty(),
                        started_at: None,
                        completed_at: None,
                        ..task_of(s.tasks, id)
                    },
                ),
                ..s
            }
        } else if s.next_id < u64::MAX {
            StateView {
                tasks: s.tasks.push(
                    TaskView {
                        id: s.next_id,
                        status: TaskStatus::Queued,
                        dependencies: Seq::empty(),
                        started_at: None,
                        completed_at: None,
                        created_at: now,
                        command: task_of(s.tasks, id).command,
                        path: task_of(s.tasks, id).path,
                        envs: task_of(s.tasks, id).envs,
                        group: task_of(s.tasks, id).group,
                        label: task_of(s.tasks, id).label,
                    },
                ),
                groups: s.groups,
                next_id: (s.next_id + 1) as u64,
            }
        } else {
            s
        }
    } else {
        s
    }
}

/// The restarts of a whole id list, applied left to right.
pub open spec fn restarted(s: StateView, ids: Seq<u64>, in_place: bool, now: u64) -> StateView
    decreases ids.len(),
{
    if ids.len() == 0 {
        s
    } else {
        restart_one(restarted(s, ids.drop_last(), in_place, now), ids.last(), in_place, now)
    }
}

/// Restarts one finished task, in place or as a fresh copy.
pub fn restart_task(state: &mut State, id: u64, in_place: bool, now: u64)
    requires
        wf(old(state)@),
    ensures
        final(state)@ == restart_one(old(state)@, id, in_place, now),
        wf(final(state)@),
        final(state)@.next_id >= old(state)@.next_id,
        within_limits(old(state)@) ==> within_limits(final(state)@),
{
    let ghost pre = state@;
    let i = match state.find_task(id) {
        Some(i) => i,
        None => {
            return ;
        },
    };
    proof {
        lemma_idx_is(pre.tasks, i as int);
    }
    let done = match state.tasks[i].status {
        TaskStatus::Done(_) => true,
        _ => false,
    };
    if !done {
        return ;
    }
    if in_place {
        state.requeue_cleared_at(i);
        proof {
            if within_limits(pre) {
                let post = final(state)@;
                assert forall|k2: int| 0 <= k2 < post.groups.len() implies count_active(
                    post.tasks,
                    (#[trigger] post.groups[k2]).name,
                ) <= post.groups[k2].parallel_limit by {
                    crate::state::lemma_count_update(
                        pre.tasks,
                        i as int,
                        post.tasks[i as int],
                        post.groups[k2].name,
                    );
                }
            }
        }
    } else {
        if state.next_id == u64::MAX {
            return ;
        }
        let c = crate::task::clone_task(&state.tasks[i]);
        let t = Task {
            id: 0,
            command: c.command,
            path: c.path,
            envs: c.envs,
            group: c.group,
            dependencies: Vec::new(),
            label: c.label,
            status: TaskStatus::Queued,
            created_at: now,
            started_at: None,
            completed_at: None,
        };
        proof {
            assert(t@.dependencies =~= Seq::<u64>::empty());
            assert(has_group(pre.groups, t@.group));
        }
        state.add_task(t);
        proof {
            assert(final(state)@.tasks =~= restart_one(pre, id, in_place, now).tasks);
        }
    }
}

/// Restarts every listed finished task, left to right.
pub fn restart_tasks(state: &mut State, ids: &Vec<u64>, in_place: bool, now: u64)
    requires
        wf(old(state)@),
    ensures
        final(state)@ == restarted(old(state)@, ids@, in_place, now),
        wf(final(state)@),
        final(state)@.next_id >= old(state)@.next_id,
        within_limits(old(state)@) ==> within_limits(final(state)@),
{
    let ghost pre = state@;
    let mut k: usize = 0;
    while k < ids.len()
        invariant
            k <= ids@.len(),
            state@ == restarted(pre, ids@.subrange(0, k as int), in_place, now),
            wf(state@),
            state@.next_id >= pre.next_id,
            within_limits(pre) ==> within_limits(state@),
        decreases ids@.len() - k,
    {
        proof {
            assert(ids@.subrange(0, k + 1 as int).drop_last() =~= ids@.subrange(0, k as int));
            assert(ids@.subrange(0, k + 1 as int).last() == ids@[k as int]);
        }
        restart_task(state, ids[k], in_place, now);
        k += 1;
    }
    proof {
        assert(ids@.subrange(0, ids@.len() as int) =~= ids@);
    }
}

/// Routes one request to its handler, mutates the state accordingly, and
/// returns the response together with the outside actions the caller must
/// carry out. Response-shaped messages are refused unchanged.
pub fn handle_message(message: Message, state: &mut State, now: u64) -> (reply: Reply)
    requires
        wf(old(state)@),
    ensures
        wf(final(state)@),
        final(state)@.next_id >= old(state)@.next_id,
        ({
            let pre = old(state)@;
            let post = final(state)@;
            match message {
                Message::Add(m) => {
                    &&& (if m.command@.len() == 0 {
                        post == pre && reply.response == Message::Failure(FailKind::EmptyCommand)
                    } else if !has_group(pre.groups, m.group@) {
                        post == pre && reply.response == Message::Failure(FailKind::UnknownGroup)
                    } else if !(forall|k: int|
                        0 <= k < m.dependencies@.len() ==> has_task(
                            pre.tasks,
                            #[trigger] m.dependencies@[k],
                        )) {
                        post == pre && reply.response == Message::Failure(
                            FailKind::UnknownDependency,
                        )
                    } else if pre.next_id == u64::MAX {
                        post == pre && reply.response == Message::Failure(FailKind::IdSpaceExhausted)
                    } else {
                        post.tasks == pre.tasks.push(added_view(pre, m, now)) && post.groups
                            == pre.groups && post.next_id == pre.next_id + 1 && reply.response == (
                        Message::Added { id: pre.next_id })
                    })
                    &&& (if (reply.response matches Message::Added { .. }) && m.start_immediately {
                        reply.actions@.len() == 1 && (reply.actions@[0] matches Action::SpawnNow(v)
                            && v@ == seq![pre.next_id])
                    } else {
                        reply.actions@.len() == 0
                    })
                },
                Message::Clean { group, successful_only } => {
                    let gv = match group {
                        Some(n) => Some(n@),
                        None => None::<Seq<char>>,
                    };
                    if gv matches Some(n) && !has_group(pre.groups, n) {
                        post == pre && reply.response == Message::Failure(FailKind::UnknownGroup)
                            && reply.actions@.len() == 0
                    } else {
                        post.tasks == cleaned_tasks(pre.tasks, gv, successful_only) && post.groups
                            == pre.groups && post.next_id == pre.next_id && reply.response
                            is Success && reply.actions@.len() == 1 && (reply.actions@[0] matches
                        Action::RemoveLogs(v) && v@ == cleaned_ids(pre.tasks, gv, successful_only))
                    }
                },
                Message::Edit { id, command, path, label } => {
                    &&& reply.actions@.len() == 0
                    &&& (if !has_task(pre.tasks, id) {
                        post == pre && reply.response == Message::Failure(FailKind::UnknownTask)
                    } else if task_of(pre.tasks, id).status is Editing {
                        post.tasks == pre.tasks.update(
                            idx_of(pre.tasks, id),
                            TaskView {
                                status: TaskStatus::Queued,
                                command: match command {
                                    Some(c) => c@,
                                    None => task_of(pre.tasks, id).command,
                                },
                                path: match path {
                                    Some(p) => p@,
                                    None => task_of(pre.tasks, id).path,
                                },
                                label: match label {
                                    Some(l) => Some(l@),
                                    None => task_of(pre.tasks, id).label,
                                },
                                ..task_of(pre.tasks, id)
                            },
                        ) && post.groups == pre.groups && post.next_id == pre.next_id
                            && reply.response is Success
                    } else {
                        post == pre && reply.response == Message::Failure(
                            FailKind::IllegalTransition,
                        )
                    })
                },
                Message::EditRequest(id) => {
                    &&& reply.actions@.len() == 0
                    &&& (if !has_task(pre.tasks, id) {
                        post == pre && reply.response == Message::Failure(FailKind::UnknownTask)
                    } else if task_of(pre.tasks, id).status is Queued || task_of(
                        pre.tasks,
                        id,
                    ).status is Stashed {
                        post.tasks == pre.tasks.update(
                            idx_of(pre.tasks, id),
                            TaskView { status: TaskStatus::Editing, ..task_of(pre.tasks, id) },
                        ) && post.groups == pre.groups && post.next_id == pre.next_id && (
                        reply.response matches Message::EditResponse { id: rid, command } && rid
                            == id && command@ == task_of(pre.tasks, id).command)
                    } else {
                        post == pre && reply.response == Message::Failure(
                            FailKind::IllegalTransition,
                        )
                    })
                },
                Message::EditRestore(id) => {
                    &&& reply.actions@.len() == 0
                    &&& (if !has_task(pre.tasks, id) {
                        post == pre && reply.response == Message::Failure(FailKind::UnknownTask)
                    } else if task_of(pre.tasks, id).status is Editing {
                        post.tasks == pre.tasks.update(
                            idx_of(pre.tasks, id),
                            TaskView { status: TaskStatus::Queued, ..task_of(pre.tasks, id) },
                        ) && post.groups == pre.groups && post.next_id == pre.next_id
                            && reply.response is Success
                    } else {
                        post == pre && reply.response == Message::Failure(
                            FailKind::IllegalTransition,
                        )
                    })
                },
                Message::Enqueue { ids, enqueue_at } => post.tasks == pre.tasks.map_values(
                    |t: TaskView| enqueue_sel(t, ids@, enqueue_at),
                ) && post.groups == pre.groups && post.next_id == pre.next_id && reply.response
                    is Success && reply.actions@.len() == 0,
                Message::Group(req) => {
                    &&& reply.actions@.len() == 0
                    &&& (match req {
                        GroupRequest::Add { name, parallel_limit } => {
                            if parallel_limit < 1 {
                                post == pre && reply.response == Message::Failure(
                                    FailKind::InvalidLimit,
                                )
                            } else if has_group(pre.groups, name@) {
                                post == pre && reply.response == Message::Failure(
                                    FailKind::GroupExists,
                                )
                            } else {
                                post.groups == pre.groups.push(
                                    GroupView {
                                        name: name@,
                                        parallel_limit,
                                        status: GroupStatus::Running,
                                    },
                                ) && post.tasks == pre.tasks && post.next_id == pre.next_id
                                    && reply.response is Success
                            }
                        },
                        GroupRequest::Remove(name) => {
                            if name@ == crate::state::default_group_name() {
                                post == pre && reply.response == Message::Failure(
                                    FailKind::CannotRemoveDefault,
                                )
                            } else if !has_group(pre.groups, name@) {
                                post == pre && reply.response == Message::Failure(
                                    FailKind::UnknownGroup,
                                )
                            } else if exists|i: int|
                                0 <= i < pre.tasks.len() && (#[trigger] pre.tasks[i]).group
                                    == name@ {
                                post == pre && reply.response == Message::Failure(
                                    FailKind::GroupNotEmpty,
                                )
                            } else {
                                post.groups == pre.groups.remove(group_idx_of(pre.groups, name@))
                                    && post.tasks == pre.tasks && post.next_id == pre.next_id
                                    && reply.response is Success
                            }
                        },
                        GroupRequest::List => post == pre && (reply.response matches
                        Message::GroupList(gs) && gs@.map_values(|g: Group| g@) == pre.groups),
                    })
                },
                Message::Kill { target, signal } => {
                    let sig = match signal {
                        Some(s) => s,
                        None => 15int as i32,
                    };
                    &&& post == pre
                    &&& (match target {
                        TaskSelection::All => reply.response is Success && reply.actions@.len()
                            == 1 && (reply.actions@[0] matches Action::Signal { ids: v, signal: s }
                            && v@ == crate::scheduler::active_ids_spec(pre.tasks) && s == sig),
                        TaskSelection::Group(g) => if has_group(pre.groups, g@) {
                            reply.response is Success && reply.actions@.len() == 1 && (
                            reply.actions@[0] matches Action::Signal { ids: v, signal: s } && v@
                                == crate::scheduler::active_ids_in_spec(pre.tasks, g@) && s == sig)
                        } else {
                            reply.response == Message::Failure(FailKind::UnknownGroup)
                                && reply.actions@.len() == 0
                        },
                        TaskSelection::Tasks(list) => reply.response is Success
                            && reply.actions@.len() == 1 && (reply.actions@[0] matches
                        Action::Signal { ids: v, signal: s } && s == sig && (forall|x: u64|
                            #[trigger] v@.contains(x) <==> (list@.contains(x) && has_task(
                                pre.tasks,
                                x,
                            ) && is_active(task_of(pre.tasks, x).status)))),
                    })
                },
                Message::Parallel { group, limit } => {
                    &&& reply.actions@.len() == 0
                    &&& (if limit < 1 {
                        post == pre && reply.response == Message::Failure(FailKind::InvalidLimit)
                    } else if !has_group(pre.groups, group@) {
                        post == pre && reply.response == Message::Failure(FailKind::UnknownGroup)
                    } else {
                        post.groups == pre.groups.update(
                            group_idx_of(pre.groups, group@),
                            GroupView { parallel_limit: limit, ..group_of(pre.groups, group@) },
                        ) && post.tasks == pre.tasks && post.next_id == pre.next_id
                            && reply.response is Success
                    })
                },
                Message::Pause { target } => match target {
                    TaskSelection::All => post.tasks == pre.tasks.map_values(
                        |t: TaskView| crate::scheduler::paused_any(t),
                    ) && post.groups == crate::scheduler::groups_set_to(
                        pre.groups,
                        GroupStatus::Paused,
                    ) && post.next_id == pre.next_id && reply.response is Success
                        && reply.actions@.len() == 1 && (reply.actions@[0] matches Action::Suspend(
                        v,
                    ) && v@ == crate::scheduler::ids_any_where(pre.tasks, TaskStatus::Running)),
                    TaskSelection::Group(g) => if has_group(pre.groups, g@) {
                        post.tasks == pre.tasks.map_values(
                            |t: TaskView| crate::scheduler::paused_in_group(t, g@),
                        ) && post.groups == pre.groups.update(
                            group_idx_of(pre.groups, g@),
                            GroupView { status: GroupStatus::Paused, ..group_of(pre.groups, g@) },
                        ) && post.next_id == pre.next_id && reply.response is Success
                            && reply.actions@.len() == 1 && (reply.actions@[0] matches
                        Action::Suspend(v) && v@ == crate::scheduler::ids_where(
                            pre.tasks,
                            g@,
                            TaskStatus::Running,
                        ))
                    } else {
                        post == pre && reply.response == Message::Failure(FailKind::UnknownGroup)
                            && reply.actions@.len() == 0
                    },
                    TaskSelection::Tasks(ids) => post.tasks == pre.tasks.map_values(
                        |t: TaskView| crate::scheduler::paused_sel(t, ids@),
                    ) && post.groups == pre.groups && post.next_id == pre.next_id
                        && reply.response is Success && reply.actions@.len() == 1 && (
                    reply.actions@[0] matches Action::Suspend(v) && (forall|x: u64|
                        #[trigger] v@.contains(x) <==> (ids@.contains(x) && has_task(pre.tasks, x)
                            && task_of(pre.tasks, x).status is Running))),
                },
                Message::Remove(ids) => {
                    if exists|x: u64|
                        ids@.contains(x) && has_task(pre.tasks, x) && is_active(
                            task_of(pre.tasks, x).status,
                        ) {
                        post == pre && reply.response == Message::Failure(
                            FailKind::IllegalTransition,
                        ) && reply.actions@.len() == 0
                    } else {
                        post.tasks == remaining_tasks(pre.tasks, ids@) && post.groups == pre.groups
                            && post.next_id == pre.next_id && reply.response is Success
                            && reply.actions@.len() == 1 && (reply.actions@[0] matches
                        Action::RemoveLogs(v) && v@ == removed_ids(pre.tasks, ids@))
                    }
                },
                Message::Reset => post == pre && reply.response is Success && reply.actions@.len()
                    == 1 && (reply.actions@[0] matches Action::ResetAll(v) && v@
                    == crate::scheduler::active_ids_spec(pre.tasks)),
                Message::Restart { ids, in_place } => post == restarted(pre, ids@, in_place, now)
                    && reply.response is Success && reply.actions@.len() == 0,
                Message::Send { id, input } => {
                    &&& post == pre
                    &&& (if !has_task(pre.tasks, id) {
                        reply.response == Message::Failure(FailKind::UnknownTask)
                            && reply.actions@.len() == 0
                    } else if task_of(pre.tasks, id).status is Running {
                        reply.response is Success && reply.actions@.len() == 1 && (
                        reply.actions@[0] matches Action::SendInput { id: sid, input: inp } && sid
                            == id && inp@ == input@)
                    } else {
                        reply.response == Message::Failure(FailKind::IllegalTransition)
                            && reply.actions@.len() == 0
                    })
                },
                Message::Start { target } => match target {
                    TaskSelection::All => post.tasks == pre.tasks.map_values(
                        |t: TaskView| crate::scheduler::resumed_any(t),
                    ) && post.groups == crate::scheduler::groups_set_to(
                        pre.groups,
                        GroupStatus::Running,
                    ) && post.next_id == pre.next_id && reply.response is Success
                        && reply.actions@.len() == 1 && (reply.actions@[0] matches Action::Resume(v)
                        && v@ == crate::scheduler::ids_any_where(pre.tasks, TaskStatus::Paused)),
                    TaskSelection::Group(g) => if has_group(pre.groups, g@) {
                        post.tasks == pre.tasks.map_values(
                            |t: TaskView| crate::scheduler::resumed_in_group(t, g@),
                        ) && post.groups == pre.groups.update(
                            group_idx_of(pre.groups, g@),
                            GroupView { status: GroupStatus::Running, ..group_of(pre.groups, g@) },
                        ) && post.next_id == pre.next_id && reply.response is Success
                            && reply.actions@.len() == 1 && (reply.actions@[0] matches
                        Action::Resume(v) && v@ == crate::scheduler::ids_where(
                            pre.tasks,
                            g@,
                            TaskStatus::Paused,
                        ))
                    } else {
                        post == pre && reply.response == Message::Failure(FailKind::UnknownGroup)
                            && reply.actions@.len() == 0
                    },
                    TaskSelection::Tasks(ids) => post.tasks == pre.tasks.map_values(
                        |t: TaskView| crate::scheduler::resumed_sel(t, ids@),
                    ) && post.groups == pre.groups && post.next_id == pre.next_id
                        && reply.response is Success && reply.actions@.len() == 2 && (
                    reply.actions@[0] matches Action::Resume(v) && (forall|x: u64|
                        #[trigger] v@.contains(x) <==> (ids@.contains(x) && has_task(pre.tasks, x)
                            && task_of(pre.tasks, x).status is Paused))) && (reply.actions@[1]
                        matches Action::SpawnNow(v2) && (forall|x: u64|
                        #[trigger] v2@.contains(x) <==> (ids@.contains(x) && has_task(pre.tasks, x)
                            && task_of(pre.tasks, x).status is Queued))),
                },
                Message::Stash(ids) => post.tasks == pre.tasks.map_values(
                    |t: TaskView| stash_sel(t, ids@),
                ) && post.groups == pre.groups && post.next_id == pre.next_id && reply.response
                    is Success && reply.actions@.len() == 0,
                Message::Status => post == pre && (reply.response matches Message::StatusResponse(s)
                    && s@ == pre) && reply.actions@.len() == 0,
                Message::Switch { a, b } => {
                    &&& reply.actions@.len() == 0
                    &&& (if a == b {
                        post == pre && reply.response == Message::Failure(
                            FailKind::IllegalTransition,
                        )
                    } else if !has_task(pre.tasks, a) || !has_task(pre.tasks, b) {
                        post == pre && reply.response == Message::Failure(FailKind::UnknownTask)
                    } else if !switchable(task_of(pre.tasks, a).status) || !switchable(
                        task_of(pre.tasks, b).status,
                    ) {
                        post == pre && reply.response == Message::Failure(
                            FailKind::IllegalTransition,
                        )
                    } else {
                        ({
                            let sw = pre.tasks.map_values(|t: TaskView| switched_task(t, a, b));
                            let ia = idx_of(pre.tasks, a);
                            let ib = idx_of(pre.tasks, b);
                            post.tasks == sw.update(ia, sw[ib]).update(ib, sw[ia])
                        }) && post.groups == pre.groups && post.next_id == pre.next_id
                            && reply.response is Success
                    })
                },
                _ => post == pre && reply.response == Message::Failure(FailKind::IllegalTransition)
                    && reply.actions@.len() == 0,
            }
        }),
{
    match message {
        Message::Add(m) => {
            let start_now = m.start_immediately;
            let r = add_task_handler(state, m, now);
            let mut actions: Vec<Action> = Vec::new();
            match &r {
                Message::Added { id } => {
                    if start_now {
                        let mut v: Vec<u64> = Vec::new();
                        v.push(*id);
                        proof {
                            assert(v@ =~= seq![old(state)@.next_id]);
                        }
                        actions.push(Action::SpawnNow(v));
                    }
                },
                _ => {},
            }
            Reply { response: r, actions }
        },
        Message::Clean { group, successful_only } => {
            let (r, removed) = clean_handler(state, &group, successful_only);
            let mut actions: Vec<Action> = Vec::new();
            match &r {
                Message::Success => {
                    actions.push(Action::RemoveLogs(removed));
                },
                _ => {},
            }
            Reply { response: r, actions }
        },
        Message::Edit { id, command, path, label } => {
            let r = edit_commit(state, id, command, path, label);
            Reply { response: r, actions: Vec::new() }
        },
        Message::EditRequest(id) => {
            let r = edit_request(state, id);
            Reply { response: r, actions: Vec::new() }
        },
        Message::EditRestore(id) => {
            let r = edit_restore(state, id);
            Reply { response: r, actions: Vec::new() }
        },
        Message::Enqueue { ids, enqueue_at } => {
            enqueue_tasks(state, &ids, enqueue_at);
            Reply { response: Message::Success, actions: Vec::new() }
        },
        Message::Group(req) => {
            match req {
                GroupRequest::Add { name, parallel_limit } => {
                    let r = group_add(state, name, parallel_limit);
                    Reply { response: r, actions: Vec::new() }
                },
                GroupRequest::Remove(name) => {
                    let r = group_remove(state, &name);
                    Reply { response: r, actions: Vec::new() }
                },
                GroupRequest::List => {
                    let gs = crate::persist::clone_groups(&state.groups);
                    Reply { response: Message::GroupList(gs), actions: Vec::new() }
                },
            }
        },
        Message::Kill { target, signal } => {
            let sig = match signal {
                Some(s) => s,
                None => 15,
            };
            match target {
                TaskSelection::All => {
                    let ids = crate::scheduler::active_ids(state);
                    let mut actions: Vec<Action> = Vec::new();
                    actions.push(Action::Signal { ids, signal: sig });
                    Reply { response: Message::Success, actions }
                },
                TaskSelection::Group(g) => {
                    match state.find_group(&g) {
                        Some(_) => {
                            let ids = crate::scheduler::active_ids_in(state, &g);
                            let mut actions: Vec<Action> = Vec::new();
                            actions.push(Action::Signal { ids, signal: sig });
                            Reply { response: Message::Success, actions }
                        },
                        None => Reply {
                            response: Message::Failure(FailKind::UnknownGroup),
                            actions: Vec::new(),
                        },
                    }
                },
                TaskSelection::Tasks(list) => {
                    let ids = crate::scheduler::active_among(state, &list);
                    let mut actions: Vec<Action> = Vec::new();
                    actions.push(Action::Signal { ids, signal: sig });
                    Reply { response: Message::Success, actions }
                },
            }
        },
        Message::Parallel { group, limit } => {
            let r = set_parallel_limit(state, &group, limit);
            Reply { response: r, actions: Vec::new() }
        },
        Message::Pause { target } => {
            match target {
                TaskSelection::All => {
                    let ids = crate::scheduler::pause_all(state);
                    let mut actions: Vec<Action> = Vec::new();
                    actions.push(Action::Suspend(ids));
                    Reply { response: Message::Success, actions }
                },
                TaskSelection::Group(g) => {
                    match state.find_group(&g) {
                        Some(gi) => {
                            proof {
                                assert(state@.groups[gi as int].name == g@);
                            }
                            let ids = crate::scheduler::pause_group(state, &g);
                            let mut actions: Vec<Action> = Vec::new();
                            actions.push(Action::Suspend(ids));
                            Reply { response: Message::Success, actions }
                        },
                        None => Reply {
                            response: Message::Failure(FailKind::UnknownGroup),
                            actions: Vec::new(),
                        },
                    }
                },
                TaskSelection::Tasks(ids) => {
                    let hit = crate::scheduler::pause_tasks(state, &ids);
                    let mut actions: Vec<Action> = Vec::new();
                    actions.push(Action::Suspend(hit));
                    Reply { response: Message::Success, actions }
                },
            }
        },
        Message::Remove(ids) => {
            let (r, removed) = remove_handler(state, &ids);
            let mut actions: Vec<Action> = Vec::new();
            match &r {
                Message::Success => {
                    actions.push(Action::RemoveLogs(removed));
                },
                _ => {},
            }
            Reply { response: r, actions }
        },
        Message::Reset => {
            let ids = crate::scheduler::active_ids(state);
            let mut actions: Vec<Action> = Vec::new();
            actions.push(Action::ResetAll(ids));
            Reply { response: Message::Success, actions }
        },
        Message::Restart { ids, in_place } => {
            restart_tasks(state, &ids, in_place, now);
            Reply { response: Message::Success, actions: Vec::new() }
        },
        Message::Send { id, input } => {
            match state.find_task(id) {
                None => Reply {
                    response: Message::Failure(FailKind::UnknownTask),
                    actions: Vec::new(),
                },
                Some(i) => {
                    proof {
                        lemma_idx_is(state@.tasks, i as int);
                    }
                    let running = match state.tasks[i].status {
                        TaskStatus::Running => true,
                        _ => false,
                    };
                    if running {
                        let mut actions: Vec<Action> = Vec::new();
                        actions.push(Action::SendInput { id, input });
                        Reply { response: Message::Success, actions }
                    } else {
                        Reply {
                            response: Message::Failure(FailKind::IllegalTransition),
                            actions: Vec::new(),
                        }
                    }
                },
            }
        },
        Message::Start { target } => {
            match target {
                TaskSelection::All => {
                    let ids = crate::scheduler::resume_all(state);
                    let mut actions: Vec<Action> = Vec::new();
                    actions.push(Action::Resume(ids));
                    Reply { response: Message::Success, actions }
                },
                TaskSelection::Group(g) => {
                    match state.find_group(&g) {
                        Some(gi) => {
                            proof {
                                assert(state@.groups[gi as int].name == g@);
                            }
                            let ids = crate::scheduler::resume_group(state, &g);
                            let mut actions: Vec<Action> = Vec::new();
                            actions.push(Action::Resume(ids));
                            Reply { response: Message::Success, actions }
                        },
                        None => Reply {
                            response: Message::Failure(FailKind::UnknownGroup),
                            actions: Vec::new(),
                        },
                    }
                },
                TaskSelection::Tasks(ids) => {
                    let q = crate::scheduler::queued_among(state, &ids);
                    let resumed = crate::scheduler::resume_tasks(state, &ids);
                    let mut actions: Vec<Action> = Vec::new();
                    actions.push(Action::Resume(resumed));
                    actions.push(Action::SpawnNow(q));
                    Reply { response: Message::Success, actions }
                },
            }
        },
        Message::Stash(ids) => {
            stash_tasks(state, &ids);
            Reply { response: Message::Success, actions: Vec::new() }
        },
        Message::Status => {
            let copy = crate::persist::clone_state(state);
            Reply { response: Message::StatusResponse(copy), actions: Vec::new() }
        },
        Message::Switch { a, b } => {
            let r = switch_handler(state, a, b);
            Reply { response: r, actions: Vec::new() }
        },
        _ => Reply { response: Message::Failure(FailKind::IllegalTransition), actions: Vec::new() },
    }
}

} // verus!
