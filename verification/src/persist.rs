//! Crash-consistent snapshots of the state.
//!
//! A snapshot is the state as it may be written to disk: any task that was
//! `Running` or `Paused` is demoted to `Queued`, so that a restart after a
//! crash re-enqueues in-flight work instead of falsely reporting it
//! complete; every other field, the groups and the id counter are kept.
//! Restoring applies the same demotion once more, which changes nothing on
//! a snapshot that was written by [`snapshot`]. Writing the bytes to a
//! temporary file and renaming it over the old snapshot is the caller's
//! business.

use vstd::prelude::*;

use crate::state::{wf, State, StateView};
use crate::task::{clone_task, is_active, Task, TaskStatus, TaskView};

verus! {

/// A task as a snapshot holds it: in-flight work is demoted to `Queued`,
/// with its recorded instants preserved; everything else is unchanged.
pub open spec fn demoted(t: TaskView) -> TaskView {
    if is_active(t.status) {
        TaskView { status: TaskStatus::Queued, ..t }
    } else {
        t
    }
}

/// The state as a snapshot holds it.
pub open spec fn demoted_state(s: StateView) -> StateView {
    StateView { tasks: s.tasks.map_values(|t: TaskView| demoted(t)), ..s }
}

/// Deep copy of a group list, preserving the views.
pub fn clone_groups(groups: &Vec<crate::state::Group>) -> (r: Vec<crate::state::Group>)
    ensures
        r@.map_values(|g: crate::state::Group| g@) == groups@.map_values(
            |g: crate::state::Group| g@,
        ),
{
    let mut out: Vec<crate::state::Group> = Vec::new();
    let mut i: usize = 0;
    while i < groups.len()
        invariant
            i <= groups@.len(),
            out@.len() == i,
            forall|j: int| 0 <= j < i ==> (#[trigger] out@[j])@ == groups@[j]@,
        decreases groups@.len() - i,
    {
        let g = &groups[i];
        out.push(
            crate::state::Group {
                name: g.name.clone(),
                parallel_limit: g.parallel_limit,
                status: g.status,
            },
        );
        i += 1;
    }
    proof {
        assert(out@.map_values(|g: crate::state::Group| g@) =~= groups@.map_values(
            |g: crate::state::Group| g@,
        ));
    }
    out
}

/// Deep copy of the whole state, preserving the view; what the status
/// request returns.
pub fn clone_state(state: &State) -> (r: State)
    ensures
        r@ == state@,
{
    let mut tasks: Vec<Task> = Vec::new();
    let mut i: usize = 0;
    while i < state.tasks.len()
        invariant
            i <= state@.tasks.len(),
            tasks@.len() == i,
            forall|j: int| 0 <= j < i ==> (#[trigger] tasks@[j])@ == state@.tasks[j],
        decreases state@.tasks.len() - i,
    {
        tasks.push(clone_task(&state.tasks[i]));
        i += 1;
    }
    let groups = clone_groups(&state.groups);
    let r = State { tasks, groups, next_id: state.next_id };
    proof {
        assert(r@.tasks =~= state@.tasks);
        assert(r@.groups =~= state@.groups);
    }
    r
}

/// Takes a snapshot: a deep copy in which every `Running` or `Paused` task
/// is `Queued` instead, its start and completion instants preserved. No
/// snapshot ever holds a `Running` or `Paused` task.
pub fn snapshot(state: &State) -> (snap: State)
    ensures
        snap@ == demoted_state(state@),
        forall|i: int|
            0 <= i < snap@.tasks.len() ==> !is_active((#[trigger] snap@.tasks[i]).status),
        wf(state@) ==> wf(snap@),
{
    let mut tasks: Vec<Task> = Vec::new();
    let mut i: usize = 0;
    while i < state.tasks.len()
        invariant
            i <= state@.tasks.len(),
            tasks@.len() == i,
            forall|j: int| 0 <= j < i ==> (#[trigger] tasks@[j])@ == demoted(state@.tasks[j]),
        decreases state@.tasks.len() - i,
    {
        let mut t = clone_task(&state.tasks[i]);
        if t.is_active() {
            t.status = TaskStatus::Queued;
        }
        tasks.push(t);
        i += 1;
    }
    let groups = clone_groups(&state.groups);
    let snap = State { tasks, groups, next_id: state.next_id };
    proof {
        assert(snap@.tasks =~= state@.tasks.map_values(|t: TaskView| demoted(t)));
        assert(snap@.groups =~= state@.groups);
        if wf(state@) {
            crate::scheduler::lemma_wf_still(state@, snap@);
        }
    }
    snap
}

/// Restores a state read back from disk. The demotion is applied once
/// more, so even a snapshot tampered into holding in-flight statuses comes
/// back with them re-enqueued; on a faithful snapshot nothing changes.
pub fn restore(snap: State) -> (s: State)
    ensures
        s@ == demoted_state(snap@),
        wf(snap@) ==> wf(s@),
{
    snapshot(&snap)
}

/// Demoting is idempotent: restoring a snapshot yields exactly the
/// snapshot, which differs from the state it was taken of only in that
/// `Running` and `Paused` became `Queued`; every other field of every
/// task, the recorded instants included, the groups and the id counter are
/// unchanged.
pub proof fn lemma_snapshot_round_trip(s: StateView)
    ensures
        demoted_state(demoted_state(s)) == demoted_state(s),
        demoted_state(s).groups == s.groups,
        demoted_state(s).next_id == s.next_id,
        demoted_state(s).tasks.len() == s.tasks.len(),
        forall|i: int|
            0 <= i < s.tasks.len() ==> (#[trigger] demoted_state(s).tasks[i]) == demoted(
                s.tasks[i],
            ),
        forall|i: int|
            0 <= i < s.tasks.len() ==> !is_active((#[trigger] demoted_state(s).tasks[i]).status),
        forall|i: int|
            0 <= i < s.tasks.len() ==> {
                let t = s.tasks[i];
                let d = #[trigger] demoted_state(s).tasks[i];
                &&& d.id == t.id
                &&& d.command == t.command
                &&& d.path == t.path
                &&& d.envs == t.envs
                &&& d.group == t.group
                &&& d.dependencies == t.dependencies
                &&& d.label == t.label
                &&& d.created_at == t.created_at
                &&& d.started_at == t.started_at
                &&& d.completed_at == t.completed_at
                &&& (d.status == t.status || (is_active(t.status) && d.status
                    == TaskStatus::Queued))
            },
{
    assert(demoted_state(demoted_state(s)).tasks =~= demoted_state(s).tasks);
}

} // verus!
