//! The scheduling engine: one tick promotes scheduled stashes, resolves
//! dependencies, picks spawn candidates within each group's limit, and
//! records spawn results and reaped exits.
//!
//! The functions here decide and mutate state; actually spawning, signalling
//! and reaping processes happens outside, which then reports back through
//! [`start_task`], [`fail_spawn`] and [`finish_task`].

use vstd::prelude::*;

use crate::state::{
    count_active, group_idx_of, group_of, has_group, has_task, idx_of, lemma_count_congruence,
    lemma_count_update, lemma_group_idx_is, lemma_idx_is, task_of, wf, within_limits, GroupStatus, State,
    StateView,
};
use crate::task::{is_active, is_done, is_done_success, TaskResult, TaskStatus, TaskView};

verus! {

/// One dependency is met: the task it names exists and finished
/// successfully.
pub open spec fn dep_ok(tasks: Seq<TaskView>, d: u64) -> bool {
    has_task(tasks, d) && is_done_success(task_of(tasks, d).status)
}

/// One dependency can never be met: the task it names is gone, or it
/// finished without success.
pub open spec fn dep_bad(tasks: Seq<TaskView>, d: u64) -> bool {
    ||| !has_task(tasks, d)
    ||| (is_done(task_of(tasks, d).status) && !is_done_success(task_of(tasks, d).status))
}

/// Every dependency is met.
pub open spec fn deps_satisfied(tasks: Seq<TaskView>, deps: Seq<u64>) -> bool {
    forall|k: int| 0 <= k < deps.len() ==> dep_ok(tasks, #[trigger] deps[k])
}

/// Some dependency can never be met.
pub open spec fn deps_failed(tasks: Seq<TaskView>, deps: Seq<u64>) -> bool {
    exists|k: int| 0 <= k < deps.len() && dep_bad(tasks, #[trigger] deps[k])
}

/// A dependency list cannot be both satisfied and failed.
pub proof fn lemma_deps_disjoint(tasks: Seq<TaskView>, deps: Seq<u64>)
    ensures
        deps_failed(tasks, deps) ==> !deps_satisfied(tasks, deps),
{
    if deps_failed(tasks, deps) && deps_satisfied(tasks, deps) {
        let k = choose|k: int| 0 <= k < deps.len() && dep_bad(tasks, #[trigger] deps[k]);
        assert(dep_ok(tasks, deps[k]));
    }
}

/// Verdict on a task's dependency list.
#[derive(Clone, Copy, Debug, PartialEq, Eq)]
pub enum DepState {
    /// All dependencies finished successfully.
    Satisfied,
    /// Some dependency has not finished yet; none has failed.
    Waiting,
    /// Some dependency is gone or finished without success.
    Failed,
}

/// Evaluates a dependency list against the current tasks.
pub fn dep_state(state: &State, deps: &Vec<u64>) -> (r: DepState)
    requires
        wf(state@),
    ensures
        (r is Failed) == deps_failed(state@.tasks, deps@),
        (r is Satisfied) ==> deps_satisfied(state@.tasks, deps@),
        (r is Waiting) ==> !deps_satisfied(state@.tasks, deps@),
{
    let mut waiting = false;
    let mut k: usize = 0;
    while k < deps.len()
        invariant
            wf(state@),
            k <= deps@.len(),
            forall|kk: int| 0 <= kk < k ==> !dep_bad(state@.tasks, #[trigger] deps@[kk]),
            waiting == !(forall|kk: int| 0 <= kk < k ==> dep_ok(state@.tasks, #[trigger] deps@[kk])),
        decreases deps@.len() - k,
    {
        let d = deps[k];
        match state.find_task(d) {
            None => {
                proof {
                    assert(dep_bad(state@.tasks, d));
                }
                return DepState::Failed;
            },
            Some(i) => {
                proof {
                    lemma_idx_is(state@.tasks, i as int);
                }
                match state.tasks[i].status {
                    TaskStatus::Done(TaskResult::Success) => {
                        proof {
                            assert(dep_ok(state@.tasks, d));
                        }
                    },
                    TaskStatus::Done(_) => {
                        proof {
                            assert(dep_bad(state@.tasks, d));
                        }
                        return DepState::Failed;
                    },
                    _ => {
                        proof {
                            assert(!dep_ok(state@.tasks, d));
                        }
                        waiting = true;
                    },
                }
            },
        }
        k += 1;
    }
    if waiting {
        DepState::Waiting
    } else {
        DepState::Satisfied
    }
}

/// A scheduled stash whose release instant has passed moves on: into
/// `Locked` when it has dependencies still to check, else straight into
/// `Queued`. Everything else is untouched.
pub open spec fn promoted(t: TaskView, now: u64) -> TaskView {
    match t.status {
        TaskStatus::Stashed { enqueue_at: Some(at) } => if at <= now {
            TaskView {
                status: if t.dependencies.len() > 0 {
                    TaskStatus::Locked
                } else {
                    TaskStatus::Queued
                },
                ..t
            }
        } else {
            t
        },
        _ => t,
    }
}

/// Releases every stash whose scheduled instant has been reached. A stash
/// scheduled for a later instant, or not scheduled at all, stays put; no
/// other task changes. Active counts are untouched, so group limits keep
/// holding.
pub fn promote_stashed(state: &mut State, now: u64)
    requires
        wf(old(state)@),
    ensures
        final(state)@.tasks == old(state)@.tasks.map_values(|t: TaskView| promoted(t, now)),
        final(state)@.groups == old(state)@.groups,
        final(state)@.next_id == old(state)@.next_id,
        wf(final(state)@),
        forall|g: Seq<char>|
            #[trigger] count_active(final(state)@.tasks, g) == count_active(old(state)@.tasks, g),
        within_limits(old(state)@) ==> within_limits(final(state)@),
{
    let ghost pre = state@;
    let mut i: usize = 0;
    while i < state.tasks.len()
        invariant
            i <= pre.tasks.len(),
            state@.tasks.len() == pre.tasks.len(),
            forall|j: int| 0 <= j < i ==> state@.tasks[j] == promoted(#[trigger] pre.tasks[j], now),
            forall|j: int| i <= j < pre.tasks.len() ==> state@.tasks[j] == #[trigger] pre.tasks[j],
            state@.groups == pre.groups,
            state@.next_id == pre.next_id,
            wf(state@),
        decreases pre.tasks.len() - i,
    {
        let st = state.tasks[i].status;
        match st {
            TaskStatus::Stashed { enqueue_at: Some(at) } => {
                if at <= now {
                    let ns = if state.tasks[i].dependencies.len() > 0 {
                        TaskStatus::Locked
                    } else {
                        TaskStatus::Queued
                    };
                    state.set_status_at(i, ns);
                }
            },
            _ => {},
        }
        i += 1;
    }
    proof {
        assert(final(state)@.tasks =~= pre.tasks.map_values(|t: TaskView| promoted(t, now)));
        assert forall|g: Seq<char>| #[trigger]
            count_active(final(state)@.tasks, g) == count_active(pre.tasks, g) by {
            lemma_count_congruence(final(state)@.tasks, pre.tasks, g);
        }
    }
}

/// Outcome of dependency resolution for one task, judged against a fixed
/// snapshot of the tasks: a `Locked` task whose dependencies can never all
/// succeed fails without spawning; one whose dependencies all succeeded is
/// released into `Queued`; anything else is untouched.
pub open spec fn resolved(tasks: Seq<TaskView>, t: TaskView) -> TaskView {
    if t.status is Locked {
        if deps_failed(tasks, t.dependencies) {
            TaskView { status: TaskStatus::Done(TaskResult::DependencyFailed), ..t }
        } else if deps_satisfied(tasks, t.dependencies) {
            TaskView { status: TaskStatus::Queued, ..t }
        } else {
            t
        }
    } else {
        t
    }
}

/// Resolves every `Locked` task against one consistent snapshot of the
/// state: released into `Queued` when all dependencies finished
/// successfully, failed with `DependencyFailed` when some dependency is
/// gone or finished without success, untouched while dependencies are
/// still pending. Active counts are untouched.
pub fn resolve_dependencies(state: &mut State)
    requires
        wf(old(state)@),
    ensures
        final(state)@.tasks == old(state)@.tasks.map_values(
            |t: TaskView| resolved(old(state)@.tasks, t),
        ),
        final(state)@.groups == old(state)@.groups,
        final(state)@.next_id == old(state)@.next_id,
        wf(final(state)@),
        forall|g: Seq<char>|
            #[trigger] count_active(final(state)@.tasks, g) == count_active(old(state)@.tasks, g),
        within_limits(old(state)@) ==> within_limits(final(state)@),
{
    let ghost pre = state@;
    let mut decided: Vec<TaskStatus> = Vec::new();
    let mut i: usize = 0;
    while i < state.tasks.len()
        invariant
            wf(state@),
            state@ == pre,
            i <= pre.tasks.len(),
            decided@.len() == i,
            forall|j: int|
                0 <= j < i ==> decided@[j] == resolved(pre.tasks, #[trigger] pre.tasks[j]).status,
        decreases pre.tasks.len() - i,
    {
        let st = state.tasks[i].status;
        let mut ns = st;
        match st {
            TaskStatus::Locked => {
                let ds = dep_state(state, &state.tasks[i].dependencies);
                match ds {
                    DepState::Failed => {
                        ns = TaskStatus::Done(TaskResult::DependencyFailed);
                    },
                    DepState::Satisfied => {
                        ns = TaskStatus::Queued;
                    },
                    DepState::Waiting => {},
                }
            },
            _ => {},
        }
        decided.push(ns);
        i += 1;
    }
    let mut i: usize = 0;
    while i < state.tasks.len()
        invariant
            wf(state@),
            state@.tasks.len() == pre.tasks.len(),
            decided@.len() == pre.tasks.len(),
            i <= pre.tasks.len(),
            forall|j: int|
                0 <= j < pre.tasks.len() ==> decided@[j] == resolved(
                    pre.tasks,
                    #[trigger] pre.tasks[j],
                ).status,
            forall|j: int|
                0 <= j < i ==> state@.tasks[j] == resolved(pre.tasks, #[trigger] pre.tasks[j]),
            forall|j: int| i <= j < pre.tasks.len() ==> state@.tasks[j] == #[trigger] pre.tasks[j],
            state@.groups == pre.groups,
            state@.next_id == pre.next_id,
        decreases pre.tasks.len() - i,
    {
        let ns = decided[i];
        state.set_status_at(i, ns);
        i += 1;
    }
    proof {
        assert(final(state)@.tasks =~= pre.tasks.map_values(|t: TaskView| resolved(pre.tasks, t)));
        assert forall|g: Seq<char>| #[trigger]
            count_active(final(state)@.tasks, g) == count_active(pre.tasks, g) by {
            lemma_count_congruence(final(state)@.tasks, pre.tasks, g);
        }
    }
}

/// The task at index `i` may be spawned right now: it is queued, its group
/// is running and has a free slot, and every dependency has finished
/// successfully.
pub open spec fn eligible(s: StateView, i: int) -> bool {
    &&& 0 <= i < s.tasks.len()
    &&& s.tasks[i].status is Queued
    &&& group_of(s.groups, s.tasks[i].group).status is Running
    &&& count_active(s.tasks, s.tasks[i].group) < group_of(
        s.groups,
        s.tasks[i].group,
    ).parallel_limit
    &&& deps_satisfied(s.tasks, s.tasks[i].dependencies)
}

/// Picks the next task to spawn: the eligible task with the lowest id, so
/// spawn order within a group is first-in, first-out. Returns `None` when
/// nothing is eligible.
pub fn select_next_task(state: &State) -> (r: Option<u64>)
    requires
        wf(state@),
    ensures
        match r {
            Some(id) => has_task(state@.tasks, id) && eligible(state@, idx_of(state@.tasks, id))
                && forall|j: int| #[trigger]
                eligible(state@, j) ==> id <= state@.tasks[j].id,
            None => forall|j: int| !(#[trigger] eligible(state@, j)),
        },
{
    let mut i: usize = 0;
    while i < state.tasks.len()
        invariant
            wf(state@),
            i <= state@.tasks.len(),
            forall|j: int| 0 <= j < i ==> !(#[trigger] eligible(state@, j)),
        decreases state@.tasks.len() - i,
    {
        let is_queued = match state.tasks[i].status {
            TaskStatus::Queued => true,
            _ => false,
        };
        if !is_queued {
            proof {
                assert(!eligible(state@, i as int));
            }
            i += 1;
            continue ;
        }
        let gi = match state.find_group(&state.tasks[i].group) {
            Some(g) => g,
            None => {
                proof {
                    assert(false);
                }
                0
            },
        };
        proof {
            lemma_group_idx_is(state@.groups, gi as int);
        }
        let g_running = match state.groups[gi].status {
            GroupStatus::Running => true,
            _ => false,
        };
        if !g_running {
            proof {
                assert(!eligible(state@, i as int));
            }
            i += 1;
            continue ;
        }
        let cnt = state.count_active_in(&state.tasks[i].group);
        if !((cnt as u64) < state.groups[gi].parallel_limit) {
            proof {
                assert(!eligible(state@, i as int));
            }
            i += 1;
            continue ;
        }
        let ds = dep_state(state, &state.tasks[i].dependencies);
        match ds {
            DepState::Satisfied => {
                proof {
                    assert(eligible(state@, i as int));
                    lemma_idx_is(state@.tasks, i as int);
                    assert forall|j: int| #[trigger] eligible(state@, j) implies state@.tasks[i as int].id
                        <= state@.tasks[j].id by {
                        if j < i as int {
                            assert(!eligible(state@, j));
                        }
                    }
                }
                return Some(state.tasks[i].id);
            },
            _ => {
                proof {
                    lemma_deps_disjoint(state@.tasks, state@.tasks[i as int].dependencies);
                    assert(!eligible(state@, i as int));
                }
                i += 1;
            },
        }
    }
    None
}

/// Records a successful spawn: the eligible task becomes `Running` with the
/// given start instant. Because eligibility includes a free slot, every
/// group stays within its parallel limit.
pub fn start_task(state: &mut State, id: u64, now: u64)
    requires
        wf(old(state)@),
        has_task(old(state)@.tasks, id),
        eligible(old(state)@, idx_of(old(state)@.tasks, id)),
    ensures
        final(state)@.tasks == old(state)@.tasks.update(
            idx_of(old(state)@.tasks, id),
            TaskView {
                status: TaskStatus::Running,
                started_at: Some(now),
                ..task_of(old(state)@.tasks, id)
            },
        ),
        final(state)@.groups == old(state)@.groups,
        final(state)@.next_id == old(state)@.next_id,
        wf(final(state)@),
        within_limits(old(state)@) ==> within_limits(final(state)@),
{
    let ghost pre = state@;
    let i = match state.find_task(id) {
        Some(i) => i,
        None => {
            proof {
                assert(false);
            }
            0
        },
    };
    proof {
        lemma_idx_is(pre.tasks, i as int);
    }
    state.mark_running_at(i, now);
    proof {
        let post = final(state)@;
        let g0 = pre.tasks[i as int].group;
        if within_limits(pre) {
            assert forall|k: int| 0 <= k < post.groups.len() implies count_active(
                post.tasks,
                (#[trigger] post.groups[k]).name,
            ) <= post.groups[k].parallel_limit by {
                let gname = pre.groups[k].name;
                lemma_count_update(pre.tasks, i as int, post.tasks[i as int], gname);
                if gname == g0 {
                    lemma_group_idx_is(pre.groups, k);
                }
            }
        }
    }
}

/// Records a failed spawn attempt: the queued task is closed out as
/// `FailedToSpawn` and never occupies a slot.
pub fn fail_spawn(state: &mut State, id: u64, now: u64)
    requires
        wf(old(state)@),
        has_task(old(state)@.tasks, id),
        task_of(old(state)@.tasks, id).status is Queued,
    ensures
        final(state)@.tasks == old(state)@.tasks.update(
            idx_of(old(state)@.tasks, id),
            TaskView {
                status: TaskStatus::Done(TaskResult::FailedToSpawn),
                completed_at: Some(now),
                ..task_of(old(state)@.tasks, id)
            },
        ),
        final(state)@.groups == old(state)@.groups,
        final(state)@.next_id == old(state)@.next_id,
        wf(final(state)@),
        forall|g: Seq<char>|
            #[trigger] count_active(final(state)@.tasks, g) == count_active(old(state)@.tasks, g),
        within_limits(old(state)@) ==> within_limits(final(state)@),
{
    let ghost pre = state@;
    let i = match state.find_task(id) {
        Some(i) => i,
        None => {
            proof {
                assert(false);
            }
            0
        },
    };
    proof {
        lemma_idx_is(pre.tasks, i as int);
    }
    state.mark_done_at(i, TaskResult::FailedToSpawn, now);
    proof {
        assert forall|g: Seq<char>| #[trigger]
            count_active(final(state)@.tasks, g) == count_active(pre.tasks, g) by {
            lemma_count_update(pre.tasks, i as int, final(state)@.tasks[i as int], g);
        }
    }
}

/// Records a reaped child: the task's outcome is the translation of the
/// exit (code 0 success, other codes failure, signal death killed). The
/// task frees its slot, so group limits keep holding.
pub fn finish_task(state: &mut State, id: u64, exit: crate::task::ChildExit, now: u64)
    requires
        wf(old(state)@),
        has_task(old(state)@.tasks, id),
        is_active(task_of(old(state)@.tasks, id).status),
    ensures
        final(state)@.tasks == old(state)@.tasks.update(
            idx_of(old(state)@.tasks, id),
            TaskView {
                status: TaskStatus::Done(crate::task::exit_result(exit)),
                completed_at: Some(now),
                ..task_of(old(state)@.tasks, id)
            },
        ),
        final(state)@.groups == old(state)@.groups,
        final(state)@.next_id == old(state)@.next_id,
        wf(final(state)@),
        within_limits(old(state)@) ==> within_limits(final(state)@),
{
    let ghost pre = state@;
    let i = match state.find_task(id) {
        Some(i) => i,
        None => {
            proof {
                assert(false);
            }
            0
        },
    };
    proof {
        lemma_idx_is(pre.tasks, i as int);
    }
    let result = crate::task::translate_exit(exit);
    state.mark_done_at(i, result, now);
    proof {
        let post = final(state)@;
        if within_limits(pre) {
            assert forall|k: int| 0 <= k < post.groups.len() implies count_active(
                post.tasks,
                (#[trigger] post.groups[k]).name,
            ) <= post.groups[k].parallel_limit by {
                lemma_count_update(pre.tasks, i as int, post.tasks[i as int], pre.groups[k].name);
            }
        }
    }
}

/// Explicitly spawns one queued task on an operator's request, regardless
/// of the group's limit and run state: the task borrows a temporary extra
/// slot. Dependencies are still honored: a task whose dependencies have not
/// all succeeded is refused. Returns whether the task was started.
pub fn start_task_now(state: &mut State, id: u64, now: u64) -> (r: bool)
    requires
        wf(old(state)@),
    ensures
        ({
            let pre = old(state)@;
            if has_task(pre.tasks, id) && task_of(pre.tasks, id).status is Queued
                && deps_satisfied(pre.tasks, task_of(pre.tasks, id).dependencies) {
                r && final(state)@.tasks == pre.tasks.update(
                    idx_of(pre.tasks, id),
                    TaskView {
                        status: TaskStatus::Running,
                        started_at: Some(now),
                        ..task_of(pre.tasks, id)
                    },
                )
            } else {
                !r && final(state)@ == pre
            }
        }),
        final(state)@.groups == old(state)@.groups,
        final(state)@.next_id == old(state)@.next_id,
        wf(final(state)@),
{
    let ghost pre = state@;
    let i = match state.find_task(id) {
        Some(i) => i,
        None => {
            return false;
        },
    };
    proof {
        lemma_idx_is(pre.tasks, i as int);
    }
    let is_queued = match state.tasks[i].status {
        TaskStatus::Queued => true,
        _ => false,
    };
    if !is_queued {
        return false;
    }
    let ds = dep_state(state, &state.tasks[i].dependencies);
    match ds {
        DepState::Satisfied => {
            state.mark_running_at(i, now);
            true
        },
        _ => {
            proof {
                lemma_deps_disjoint(pre.tasks, pre.tasks[i as int].dependencies);
            }
            false
        },
    }
}

/// Whether `y` occurs in `s.push(x)`: either it occurred before the push,
/// or it is the pushed value.
pub proof fn lemma_push_contains<A>(s: Seq<A>, x: A, y: A)
    ensures
        s.push(x).contains(y) <==> (s.contains(y) || x == y),
{
    if s.contains(y) {
        let i = choose|i: int| 0 <= i < s.len() && s[i] == y;
        assert(s.push(x)[i] == y);
    }
    assert(s.push(x)[s.len() as int] == x);
    if s.push(x).contains(y) {
        let i = choose|i: int| 0 <= i < s.push(x).len() && s.push(x)[i] == y;
        if i < s.len() {
            assert(s[i] == y);
        }
    }
}

/// A running task of the group becomes `Paused`; everything else is
/// untouched.
pub open spec fn paused_in_group(t: TaskView, g: Seq<char>) -> TaskView {
    if t.group == g && t.status is Running {
        TaskView { status: TaskStatus::Paused, ..t }
    } else {
        t
    }
}

/// A paused task of the group becomes `Running` again; everything else is
/// untouched.
pub open spec fn resumed_in_group(t: TaskView, g: Seq<char>) -> TaskView {
    if t.group == g && t.status is Paused {
        TaskView { status: TaskStatus::Running, ..t }
    } else {
        t
    }
}

/// Ids of the group's tasks bearing exactly this status, in ascending id
/// order when the tasks are sorted.
pub open spec fn ids_where(tasks: Seq<TaskView>, g: Seq<char>, st: TaskStatus) -> Seq<u64>
    decreases tasks.len(),
{
    if tasks.len() == 0 {
        Seq::empty()
    } else {
        ids_where(tasks.drop_last(), g, st) + (if tasks.last().group == g && tasks.last().status
            == st {
            seq![tasks.last().id]
        } else {
            Seq::<u64>::empty()
        })
    }
}

/// Pauses a whole group: the group's run state becomes `Paused`, so the
/// scheduler spawns nothing in it, and every running task of the group is
/// marked `Paused`. Returns the ids of the tasks so marked, whose children
/// must now be suspended. Slots stay occupied, so group limits keep
/// holding.
pub fn pause_group(state: &mut State, name: &String) -> (r: Vec<u64>)
    requires
        wf(old(state)@),
        has_group(old(state)@.groups, name@),
    ensures
        final(state)@.groups == old(state)@.groups.update(
            group_idx_of(old(state)@.groups, name@),
            crate::state::GroupView {
                status: GroupStatus::Paused,
                ..group_of(old(state)@.groups, name@)
            },
        ),
        final(state)@.tasks == old(state)@.tasks.map_values(
            |t: TaskView| paused_in_group(t, name@),
        ),
        r@ == ids_where(old(state)@.tasks, name@, TaskStatus::Running),
        final(state)@.next_id == old(state)@.next_id,
        wf(final(state)@),
        forall|g: Seq<char>|
            #[trigger] count_active(final(state)@.tasks, g) == count_active(old(state)@.tasks, g),
        within_limits(old(state)@) ==> within_limits(final(state)@),
{
    let ghost pre = state@;
    let gi = match state.find_group(name) {
        Some(g) => g,
        None => {
            proof {
                assert(false);
            }
            0
        },
    };
    proof {
        lemma_group_idx_is(pre.groups, gi as int);
    }
    state.set_group_status_at(gi, GroupStatus::Paused);
    let ghost mid = state@;
    let mut r: Vec<u64> = Vec::new();
    let mut i: usize = 0;
    while i < state.tasks.len()
        invariant
            i <= pre.tasks.len(),
            state@.tasks.len() == pre.tasks.len(),
            forall|j: int|
                0 <= j < i ==> state@.tasks[j] == paused_in_group(#[trigger] pre.tasks[j], name@),
            forall|j: int| i <= j < pre.tasks.len() ==> state@.tasks[j] == #[trigger] pre.tasks[j],
            state@.groups == mid.groups,
            state@.next_id == pre.next_id,
            r@ == ids_where(pre.tasks.subrange(0, i as int), name@, TaskStatus::Running),
        decreases pre.tasks.len() - i,
    {
        proof {
            assert(pre.tasks.subrange(0, i + 1 as int).drop_last() =~= pre.tasks.subrange(
                0,
                i as int,
            ));
            assert(pre.tasks.subrange(0, i + 1 as int).last() == pre.tasks[i as int]);
        }
        let in_group = state.tasks[i].group == *name;
        let is_running = match state.tasks[i].status {
            TaskStatus::Running => true,
            _ => false,
        };
        if in_group && is_running {
            let id = state.tasks[i].id;
            state.set_status_at(i, TaskStatus::Paused);
            r.push(id);
            proof {
                assert(r@ =~= ids_where(pre.tasks.subrange(0, i + 1 as int), name@,
                TaskStatus::Running));
            }
        } else {
            proof {
                assert(r@ =~= ids_where(pre.tasks.subrange(0, i + 1 as int), name@,
                TaskStatus::Running));
            }
        }
        i += 1;
    }
    proof {
        assert(pre.tasks.subrange(0, pre.tasks.len() as int) =~= pre.tasks);
        assert(final(state)@.tasks =~= pre.tasks.map_values(
            |t: TaskView| paused_in_group(t, name@),
        ));
        assert forall|g: Seq<char>| #[trigger]
            count_active(final(state)@.tasks, g) == count_active(pre.tasks, g) by {
            lemma_count_congruence(final(state)@.tasks, pre.tasks, g);
        }
        lemma_wf_still(pre, final(state)@);
    }
    r
}

/// Resumes a whole group: the group's run state becomes `Running` and
/// every paused task of the group is marked `Running` again. Returns the
/// ids of the tasks so marked, whose children must now be continued.
pub fn resume_group(state: &mut State, name: &String) -> (r: Vec<u64>)
    requires
        wf(old(state)@),
        has_group(old(state)@.groups, name@),
    ensures
        final(state)@.groups == old(state)@.groups.update(
            group_idx_of(old(state)@.groups, name@),
            crate::state::GroupView {
                status: GroupStatus::Running,
                ..group_of(old(state)@.groups, name@)
            },
        ),
        final(state)@.tasks == old(state)@.tasks.map_values(
            |t: TaskView| resumed_in_group(t, name@),
        ),
        r@ == ids_where(old(state)@.tasks, name@, TaskStatus::Paused),
        final(state)@.next_id == old(state)@.next_id,
        wf(final(state)@),
        forall|g: Seq<char>|
            #[trigger] count_active(final(state)@.tasks, g) == count_active(old(state)@.tasks, g),
        within_limits(old(state)@) ==> within_limits(final(state)@),
{
    let ghost pre = state@;
    let gi = match state.find_group(name) {
        Some(g) => g,
        None => {
            proof {
                assert(false);
            }
            0
        },
    };
    proof {
        lemma_group_idx_is(pre.groups, gi as int);
    }
    state.set_group_status_at(gi, GroupStatus::Running);
    let ghost mid = state@;
    let mut r: Vec<u64> = Vec::new();
    let mut i: usize = 0;
    while i < state.tasks.len()
        invariant
            i <= pre.tasks.len(),
            state@.tasks.len() == pre.tasks.len(),
            forall|j: int|
                0 <= j < i ==> state@.tasks[j] == resumed_in_group(#[trigger] pre.tasks[j], name@),
            forall|j: int| i <= j < pre.tasks.len() ==> state@.tasks[j] == #[trigger] pre.tasks[j],
            state@.groups == mid.groups,
            state@.next_id == pre.next_id,
            r@ == ids_where(pre.tasks.subrange(0, i as int), name@, TaskStatus::Paused),
        decreases pre.tasks.len() - i,
    {
        proof {
            assert(pre.tasks.subrange(0, i + 1 as int).drop_last() =~= pre.tasks.subrange(
                0,
                i as int,
            ));
            assert(pre.tasks.subrange(0, i + 1 as int).last() == pre.tasks[i as int]);
        }
        let in_group = state.tasks[i].group == *name;
        let is_paused = match state.tasks[i].status {
            TaskStatus::Paused => true,
            _ => false,
        };
        if in_group && is_paused {
            let id = state.tasks[i].id;
            state.set_status_at(i, TaskStatus::Running);
            r.push(id);
            proof {
                assert(r@ =~= ids_where(pre.tasks.subrange(0, i + 1 as int), name@,
                TaskStatus::Paused));
            }
        } else {
            proof {
                assert(r@ =~= ids_where(pre.tasks.subrange(0, i + 1 as int), name@,
                TaskStatus::Paused));
            }
        }
        i += 1;
    }
    proof {
        assert(pre.tasks.subrange(0, pre.tasks.len() as int) =~= pre.tasks);
        assert(final(state)@.tasks =~= pre.tasks.map_values(
            |t: TaskView| resumed_in_group(t, name@),
        ));
        assert forall|g: Seq<char>| #[trigger]
            count_active(final(state)@.tasks, g) == count_active(pre.tasks, g) by {
            lemma_count_congruence(final(state)@.tasks, pre.tasks, g);
        }
        lemma_wf_still(pre, final(state)@);
    }
    r
}

/// Any running task becomes `Paused`; everything else is untouched.
pub open spec fn paused_any(t: TaskView) -> TaskView {
    if t.status is Running {
        TaskView { status: TaskStatus::Paused, ..t }
    } else {
        t
    }
}

/// Any paused task becomes `Running`; everything else is untouched.
pub open spec fn resumed_any(t: TaskView) -> TaskView {
    if t.status is Paused {
        TaskView { status: TaskStatus::Running, ..t }
    } else {
        t
    }
}

/// Ids of every task bearing exactly this status, in ascending id order
/// when the tasks are sorted.
pub open spec fn ids_any_where(tasks: Seq<TaskView>, st: TaskStatus) -> Seq<u64>
    decreases tasks.len(),
{
    if tasks.len() == 0 {
        Seq::empty()
    } else {
        ids_any_where(tasks.drop_last(), st) + (if tasks.last().status == st {
            seq![tasks.last().id]
        } else {
            Seq::<u64>::empty()
        })
    }
}

/// Every group's run state set to the given value.
pub open spec fn groups_set_to(groups: Seq<crate::state::GroupView>, st: GroupStatus) -> Seq<
    crate::state::GroupView,
> {
    groups.map_values(|g: crate::state::GroupView| crate::state::GroupView { status: st, ..g })
}

/// Pauses the whole daemon: every group's run state becomes `Paused` and
/// every running task is marked `Paused`. Returns the ids of the tasks so
/// marked, whose children must now be suspended.
pub fn pause_all(state: &mut State) -> (r: Vec<u64>)
    requires
        wf(old(state)@),
    ensures
        final(state)@.groups == groups_set_to(old(state)@.groups, GroupStatus::Paused),
        final(state)@.tasks == old(state)@.tasks.map_values(|t: TaskView| paused_any(t)),
        r@ == ids_any_where(old(state)@.tasks, TaskStatus::Running),
        final(state)@.next_id == old(state)@.next_id,
        wf(final(state)@),
        forall|g: Seq<char>|
            #[trigger] count_active(final(state)@.tasks, g) == count_active(old(state)@.tasks, g),
        within_limits(old(state)@) ==> within_limits(final(state)@),
{
    let ghost pre = state@;
    let mut gi: usize = 0;
    while gi < state.groups.len()
        invariant
            gi <= pre.groups.len(),
            state@.groups.len() == pre.groups.len(),
            forall|j: int|
                0 <= j < gi ==> state@.groups[j] == (crate::state::GroupView {
                    status: GroupStatus::Paused,
                    ..#[trigger] pre.groups[j]
                }),
            forall|j: int| gi <= j < pre.groups.len() ==> state@.groups[j] == #[trigger] pre.groups[j],
            state@.tasks == pre.tasks,
            state@.next_id == pre.next_id,
        decreases pre.groups.len() - gi,
    {
        state.set_group_status_at(gi, GroupStatus::Paused);
        gi += 1;
    }
    let ghost mid = state@;
    let mut r: Vec<u64> = Vec::new();
    let mut i: usize = 0;
    while i < state.tasks.len()
        invariant
            i <= pre.tasks.len(),
            state@.tasks.len() == pre.tasks.len(),
            forall|j: int| 0 <= j < i ==> state@.tasks[j] == paused_any(#[trigger] pre.tasks[j]),
            forall|j: int| i <= j < pre.tasks.len() ==> state@.tasks[j] == #[trigger] pre.tasks[j],
            state@.groups == mid.groups,
            state@.next_id == pre.next_id,
            r@ == ids_any_where(pre.tasks.subrange(0, i as int), TaskStatus::Running),
        decreases pre.tasks.len() - i,
    {
        proof {
            assert(pre.tasks.subrange(0, i + 1 as int).drop_last() =~= pre.tasks.subrange(
                0,
                i as int,
            ));
            assert(pre.tasks.subrange(0, i + 1 as int).last() == pre.tasks[i as int]);
        }
        let is_running = match state.tasks[i].status {
            TaskStatus::Running => true,
            _ => false,
        };
        if is_running {
            let id = state.tasks[i].id;
            state.set_status_at(i, TaskStatus::Paused);
            r.push(id);
            proof {
                assert(r@ =~= ids_any_where(pre.tasks.subrange(0, i + 1 as int),
                TaskStatus::Running));
            }
        } else {
            proof {
                assert(r@ =~= ids_any_where(pre.tasks.subrange(0, i + 1 as int),
                TaskStatus::Running));
            }
        }
        i += 1;
    }
    proof {
        assert(pre.tasks.subrange(0, pre.tasks.len() as int) =~= pre.tasks);
        assert(final(state)@.tasks =~= pre.tasks.map_values(|t: TaskView| paused_any(t)));
        assert(final(state)@.groups =~= groups_set_to(pre.groups, GroupStatus::Paused));
        assert forall|g: Seq<char>| #[trigger]
            count_active(final(state)@.tasks, g) == count_active(pre.tasks, g) by {
            lemma_count_congruence(final(state)@.tasks, pre.tasks, g);
        }
        lemma_wf_still(pre, final(state)@);
    }
    r
}

/// Resumes the whole daemon: every group's run state becomes `Running`
/// and every paused task is marked `Running` again. Returns the ids of the
/// tasks so marked, whose children must now be continued.
pub fn resume_all(state: &mut State) -> (r: Vec<u64>)
    requires
        wf(old(state)@),
    ensures
        final(state)@.groups == groups_set_to(old(state)@.groups, GroupStatus::Running),
        final(state)@.tasks == old(state)@.tasks.map_values(|t: TaskView| resumed_any(t)),
        r@ == ids_any_where(old(state)@.tasks, TaskStatus::Paused),
        final(state)@.next_id == old(state)@.next_id,
        wf(final(state)@),
        forall|g: Seq<char>|
            #[trigger] count_active(final(state)@.tasks, g) == count_active(old(state)@.tasks, g),
        within_limits(old(state)@) ==> within_limits(final(state)@),
{
    let ghost pre = state@;
    let mut gi: usize = 0;
    while gi < state.groups.len()
        invariant
            gi <= pre.groups.len(),
            state@.groups.len() == pre.groups.len(),
            forall|j: int|
                0 <= j < gi ==> state@.groups[j] == (crate::state::GroupView {
                    status: GroupStatus::Running,
                    ..#[trigger] pre.groups[j]
                }),
            forall|j: int| gi <= j < pre.groups.len() ==> state@.groups[j] == #[trigger] pre.groups[j],
            state@.tasks == pre.tasks,
            state@.next_id == pre.next_id,
        decreases pre.groups.len() - gi,
    {
        state.set_group_status_at(gi, GroupStatus::Running);
        gi += 1;
    }
    let ghost mid = state@;
    let mut r: Vec<u64> = Vec::new();
    let mut i: usize = 0;
    while i < state.tasks.len()
        invariant
            i <= pre.tasks.len(),
            state@.tasks.len() == pre.tasks.len(),
            forall|j: int| 0 <= j < i ==> state@.tasks[j] == resumed_any(#[trigger] pre.tasks[j]),
            forall|j: int| i <= j < pre.tasks.len() ==> state@.tasks[j] == #[trigger] pre.tasks[j],
            state@.groups == mid.groups,
            state@.next_id == pre.next_id,
            r@ == ids_any_where(pre.tasks.subrange(0, i as int), TaskStatus::Paused),
        decreases pre.tasks.len() - i,
    {
        proof {
            assert(pre.tasks.subrange(0, i + 1 as int).drop_last() =~= pre.tasks.subrange(
                0,
                i as int,
            ));
            assert(pre.tasks.subrange(0, i + 1 as int).last() == pre.tasks[i as int]);
        }
        let is_paused = match state.tasks[i].status {
            TaskStatus::Paused => true,
            _ => false,
        };
        if is_paused {
            let id = state.tasks[i].id;
            state.set_status_at(i, TaskStatus::Running);
            r.push(id);
            proof {
                assert(r@ =~= ids_any_where(pre.tasks.subrange(0, i + 1 as int),
                TaskStatus::Paused));
            }
        } else {
            proof {
                assert(r@ =~= ids_any_where(pre.tasks.subrange(0, i + 1 as int),
                TaskStatus::Paused));
            }
        }
        i += 1;
    }
    proof {
        assert(pre.tasks.subrange(0, pre.tasks.len() as int) =~= pre.tasks);
        assert(final(state)@.tasks =~= pre.tasks.map_values(|t: TaskView| resumed_any(t)));
        assert(final(state)@.groups =~= groups_set_to(pre.groups, GroupStatus::Running));
        assert forall|g: Seq<char>| #[trigger]
            count_active(final(state)@.tasks, g) == count_active(pre.tasks, g) by {
            lemma_count_congruence(final(state)@.tasks, pre.tasks, g);
        }
        lemma_wf_still(pre, final(state)@);
    }
    r
}

/// A listed running task becomes `Paused`; everything else is untouched.
pub open spec fn paused_sel(t: TaskView, ids: Seq<u64>) -> TaskView {
    if ids.contains(t.id) && t.status is Running {
        TaskView { status: TaskStatus::Paused, ..t }
    } else {
        t
    }
}

/// A listed paused task becomes `Running`; everything else is untouched.
pub open spec fn resumed_sel(t: TaskView, ids: Seq<u64>) -> TaskView {
    if ids.contains(t.id) && t.status is Paused {
        TaskView { status: TaskStatus::Running, ..t }
    } else {
        t
    }
}

/// Pauses single tasks, regardless of their group's run state: each listed
/// task that is running is marked `Paused`. Returns exactly the ids whose
/// tasks were running, whose children must now be suspended.
pub fn pause_tasks(state: &mut State, ids: &Vec<u64>) -> (r: Vec<u64>)
    requires
        wf(old(state)@),
    ensures
        final(state)@.tasks == old(state)@.tasks.map_values(|t: TaskView| paused_sel(t, ids@)),
        final(state)@.groups == old(state)@.groups,
        final(state)@.next_id == old(state)@.next_id,
        wf(final(state)@),
        forall|x: u64|
            #[trigger] r@.contains(x) <==> (ids@.contains(x) && has_task(old(state)@.tasks, x)
                && task_of(old(state)@.tasks, x).status is Running),
        forall|g: Seq<char>|
            #[trigger] count_active(final(state)@.tasks, g) == count_active(old(state)@.tasks, g),
        within_limits(old(state)@) ==> within_limits(final(state)@),
{
    let ghost pre = state@;
    let mut r: Vec<u64> = Vec::new();
    let mut k: usize = 0;
    while k < ids.len()
        invariant
            k <= ids@.len(),
            state@.tasks.len() == pre.tasks.len(),
            forall|j: int|
                0 <= j < pre.tasks.len() ==> state@.tasks[j] == paused_sel(
                    #[trigger] pre.tasks[j],
                    ids@.subrange(0, k as int),
                ),
            state@.groups == pre.groups,
            state@.next_id == pre.next_id,
            wf(state@),
            forall|x: u64|
                #[trigger] r@.contains(x) <==> (ids@.subrange(0, k as int).contains(x) && has_task(
                    pre.tasks,
                    x,
                ) && task_of(pre.tasks, x).status is Running),
        decreases ids@.len() - k,
    {
        let ghost prefix = ids@.subrange(0, k as int);
        let ghost prefix2 = ids@.subrange(0, k + 1 as int);
        proof {
            assert(prefix2 =~= prefix.push(ids@[k as int]));
        }
        let d = ids[k];
        match state.find_task(d) {
            None => {
                proof {
                    assert forall|j: int| 0 <= j < pre.tasks.len() implies state@.tasks[j]
                        == paused_sel(#[trigger] pre.tasks[j], prefix2) by {
                        assert(state@.tasks[j].id == pre.tasks[j].id);
                        lemma_push_contains(prefix, d, pre.tasks[j].id);
                    }
                    assert forall|x: u64| #[trigger]
                        r@.contains(x) <==> (prefix2.contains(x) && has_task(pre.tasks, x)
                            && task_of(pre.tasks, x).status is Running) by {
                        lemma_push_contains(prefix, d, x);
                        if x == d && has_task(pre.tasks, x) {
                            let j = idx_of(pre.tasks, x);
                            assert(state@.tasks[j].id == x);
                        }
                    }
                }
            },
            Some(i) => {
                proof {
                    lemma_idx_is(state@.tasks, i as int);
                    lemma_idx_is(pre.tasks, i as int);
                    assert(pre.tasks[i as int].id == d);
                }
                let is_running = match state.tasks[i].status {
                    TaskStatus::Running => true,
                    _ => false,
                };
                let ghost rpre = r@;
                if is_running {
                    state.set_status_at(i, TaskStatus::Paused);
                    r.push(d);
                }
                proof {
                    assert forall|j: int| 0 <= j < pre.tasks.len() implies state@.tasks[j]
                        == paused_sel(#[trigger] pre.tasks[j], prefix2) by {
                        lemma_push_contains(prefix, d, pre.tasks[j].id);
                    }
                    assert forall|x: u64| #[trigger]
                        r@.contains(x) <==> (prefix2.contains(x) && has_task(pre.tasks, x)
                            && task_of(pre.tasks, x).status is Running) by {
                        lemma_push_contains(prefix, d, x);
                        if is_running {
                            assert(r@ == rpre.push(d));
                            lemma_push_contains(rpre, d, x);
                        }
                    }
                }
            },
        }
        k += 1;
    }
    proof {
        assert(ids@.subrange(0, ids@.len() as int) =~= ids@);
        assert(final(state)@.tasks =~= pre.tasks.map_values(|t: TaskView| paused_sel(t, ids@)));
        assert forall|g: Seq<char>| #[trigger]
            count_active(final(state)@.tasks, g) == count_active(pre.tasks, g) by {
            lemma_count_congruence(final(state)@.tasks, pre.tasks, g);
        }
    }
    r
}

/// Resumes single tasks, regardless of their group's run state: each
/// listed task that is paused is marked `Running`. Returns exactly the ids
/// whose tasks were paused, whose children must now be continued.
pub fn resume_tasks(state: &mut State, ids: &Vec<u64>) -> (r: Vec<u64>)
    requires
        wf(old(state)@),
    ensures
        final(state)@.tasks == old(state)@.tasks.map_values(|t: TaskView| resumed_sel(t, ids@)),
        final(state)@.groups == old(state)@.groups,
        final(state)@.next_id == old(state)@.next_id,
        wf(final(state)@),
        forall|x: u64|
            #[trigger] r@.contains(x) <==> (ids@.contains(x) && has_task(old(state)@.tasks, x)
                && task_of(old(state)@.tasks, x).status is Paused),
        forall|g: Seq<char>|
            #[trigger] count_active(final(state)@.tasks, g) == count_active(old(state)@.tasks, g),
        within_limits(old(state)@) ==> within_limits(final(state)@),
{
    let ghost pre = state@;
    let mut r: Vec<u64> = Vec::new();
    let mut k: usize = 0;
    while k < ids.len()
        invariant
            k <= ids@.len(),
            state@.tasks.len() == pre.tasks.len(),
            forall|j: int|
                0 <= j < pre.tasks.len() ==> state@.tasks[j] == resumed_sel(
                    #[trigger] pre.tasks[j],
                    ids@.subrange(0, k as int),
                ),
            state@.groups == pre.groups,
            state@.next_id == pre.next_id,
            wf(state@),
            forall|x: u64|
                #[trigger] r@.contains(x) <==> (ids@.subrange(0, k as int).contains(x) && has_task(
                    pre.tasks,
                    x,
                ) && task_of(pre.tasks, x).status is Paused),
        decreases ids@.len() - k,
    {
        let ghost prefix = ids@.subrange(0, k as int);
        let ghost prefix2 = ids@.subrange(0, k + 1 as int);
        proof {
            assert(prefix2 =~= prefix.push(ids@[k as int]));
        }
        let d = ids[k];
        match state.find_task(d) {
            None => {
                proof {
                    assert forall|j: int| 0 <= j < pre.tasks.len() implies state@.tasks[j]
                        == resumed_sel(#[trigger] pre.tasks[j], prefix2) by {
                        assert(state@.tasks[j].id == pre.tasks[j].id);
                        lemma_push_contains(prefix, d, pre.tasks[j].id);
                    }
                    assert forall|x: u64| #[trigger]
                        r@.contains(x) <==> (prefix2.contains(x) && has_task(pre.tasks, x)
                            && task_of(pre.tasks, x).status is Paused) by {
                        lemma_push_contains(prefix, d, x);
                        if x == d && has_task(pre.tasks, x) {
                            let j = idx_of(pre.tasks, x);
                            assert(state@.tasks[j].id == x);
                        }
                    }
                }
            },
            Some(i) => {
                proof {
                    lemma_idx_is(state@.tasks, i as int);
                    lemma_idx_is(pre.tasks, i as int);
                    assert(pre.tasks[i as int].id == d);
                }
                let is_paused = match state.tasks[i].status {
                    TaskStatus::Paused => true,
                    _ => false,
                };
                let ghost rpre = r@;
                if is_paused {
                    state.set_status_at(i, TaskStatus::Running);
                    r.push(d);
                }
                proof {
                    assert forall|j: int| 0 <= j < pre.tasks.len() implies state@.tasks[j]
                        == resumed_sel(#[trigger] pre.tasks[j], prefix2) by {
                        lemma_push_contains(prefix, d, pre.tasks[j].id);
                    }
                    assert forall|x: u64| #[trigger]
                        r@.contains(x) <==> (prefix2.contains(x) && has_task(pre.tasks, x)
                            && task_of(pre.tasks, x).status is Paused) by {
                        lemma_push_contains(prefix, d, x);
                        if is_paused {
                            assert(r@ == rpre.push(d));
                            lemma_push_contains(rpre, d, x);
                        }
                    }
                }
            },
        }
        k += 1;
    }
    proof {
        assert(ids@.subrange(0, ids@.len() as int) =~= ids@);
        assert(final(state)@.tasks =~= pre.tasks.map_values(|t: TaskView| resumed_sel(t, ids@)));
        assert forall|g: Seq<char>| #[trigger]
            count_active(final(state)@.tasks, g) == count_active(pre.tasks, g) by {
            lemma_count_congruence(final(state)@.tasks, pre.tasks, g);
        }
    }
    r
}

/// Ids of every Running or Paused task, in ascending id order when the
/// tasks are sorted: the targets of a kill or reset that covers the whole
/// daemon.
pub open spec fn active_ids_spec(tasks: Seq<TaskView>) -> Seq<u64>
    decreases tasks.len(),
{
    if tasks.len() == 0 {
        Seq::empty()
    } else {
        active_ids_spec(tasks.drop_last()) + (if is_active(tasks.last().status) {
            seq![tasks.last().id]
        } else {
            Seq::<u64>::empty()
        })
    }
}

/// Ids of every Running or Paused task, the targets of a whole-daemon kill
/// or reset.
pub fn active_ids(state: &State) -> (r: Vec<u64>)
    ensures
        r@ == active_ids_spec(state@.tasks),
{
    let ghost all = state@.tasks;
    let mut r: Vec<u64> = Vec::new();
    let mut i: usize = 0;
    while i < state.tasks.len()
        invariant
            i <= all.len(),
            all == state@.tasks,
            r@ == active_ids_spec(all.subrange(0, i as int)),
        decreases all.len() - i,
    {
        proof {
            assert(all.subrange(0, i + 1 as int).drop_last() =~= all.subrange(0, i as int));
            assert(all.subrange(0, i + 1 as int).last() == all[i as int]);
        }
        if state.tasks[i].is_active() {
            r.push(state.tasks[i].id);
            proof {
                assert(r@ =~= active_ids_spec(all.subrange(0, i + 1 as int)));
            }
        } else {
            proof {
                assert(r@ =~= active_ids_spec(all.subrange(0, i + 1 as int)));
            }
        }
        i += 1;
    }
    proof {
        assert(all.subrange(0, all.len() as int) =~= all);
    }
    r
}

/// Ids of the group's Running or Paused tasks: the targets of a kill
/// scoped to one group.
pub open spec fn active_ids_in_spec(tasks: Seq<TaskView>, g: Seq<char>) -> Seq<u64>
    decreases tasks.len(),
{
    if tasks.len() == 0 {
        Seq::empty()
    } else {
        active_ids_in_spec(tasks.drop_last(), g) + (if tasks.last().group == g && is_active(
            tasks.last().status,
        ) {
            seq![tasks.last().id]
        } else {
            Seq::<u64>::empty()
        })
    }
}

/// Ids of the group's Running or Paused tasks, the targets of a kill
/// scoped to that group.
pub fn active_ids_in(state: &State, name: &String) -> (r: Vec<u64>)
    ensures
        r@ == active_ids_in_spec(state@.tasks, name@),
{
    let ghost all = state@.tasks;
    let mut r: Vec<u64> = Vec::new();
    let mut i: usize = 0;
    while i < state.tasks.len()
        invariant
            i <= all.len(),
            all == state@.tasks,
            r@ == active_ids_in_spec(all.subrange(0, i as int), name@),
        decreases all.len() - i,
    {
        proof {
            assert(all.subrange(0, i + 1 as int).drop_last() =~= all.subrange(0, i as int));
            assert(all.subrange(0, i + 1 as int).last() == all[i as int]);
        }
        let active = state.tasks[i].is_active();
        if active && state.tasks[i].group == *name {
            r.push(state.tasks[i].id);
            proof {
                assert(r@ =~= active_ids_in_spec(all.subrange(0, i + 1 as int), name@));
            }
        } else {
            proof {
                assert(r@ =~= active_ids_in_spec(all.subrange(0, i + 1 as int), name@));
            }
        }
        i += 1;
    }
    proof {
        assert(all.subrange(0, all.len() as int) =~= all);
    }
    r
}

/// Whether the id occurs in the vector.
pub fn vec_contains_u64(v: &Vec<u64>, x: u64) -> (r: bool)
    ensures
        r == v@.contains(x),
{
    let mut i: usize = 0;
    while i < v.len()
        invariant
            i <= v@.len(),
            forall|j: int| 0 <= j < i ==> v@[j] != x,
        decreases v@.len() - i,
    {
        if v[i] == x {
            return true;
        }
        i += 1;
    }
    false
}

/// Those of the listed ids whose task exists and is Running or Paused: the
/// targets of a kill that names its tasks.
pub fn active_among(state: &State, ids: &Vec<u64>) -> (r: Vec<u64>)
    requires
        wf(state@),
    ensures
        forall|x: u64|
            #[trigger] r@.contains(x) <==> (ids@.contains(x) && has_task(state@.tasks, x)
                && is_active(task_of(state@.tasks, x).status)),
{
    let mut r: Vec<u64> = Vec::new();
    let mut k: usize = 0;
    while k < ids.len()
        invariant
            wf(state@),
            k <= ids@.len(),
            forall|x: u64|
                #[trigger] r@.contains(x) <==> (ids@.subrange(0, k as int).contains(x) && has_task(
                    state@.tasks,
                    x,
                ) && is_active(task_of(state@.tasks, x).status)),
        decreases ids@.len() - k,
    {
        let ghost prefix = ids@.subrange(0, k as int);
        let ghost prefix2 = ids@.subrange(0, k + 1 as int);
        proof {
            assert(prefix2 =~= prefix.push(ids@[k as int]));
        }
        let d = ids[k];
        let ghost rpre = r@;
        let mut hit = false;
        match state.find_task(d) {
            None => {},
            Some(i) => {
                proof {
                    lemma_idx_is(state@.tasks, i as int);
                }
                if state.tasks[i].is_active() {
                    if !vec_contains_u64(&r, d) {
                        r.push(d);
                        hit = true;
                    }
                }
            },
        }
        proof {
            assert forall|x: u64| #[trigger]
                r@.contains(x) <==> (prefix2.contains(x) && has_task(state@.tasks, x) && is_active(
                    task_of(state@.tasks, x).status,
                )) by {
                lemma_push_contains(prefix, d, x);
                if hit {
                    lemma_push_contains(rpre, d, x);
                    assert(r@ =~= rpre.push(d));
                }
            }
        }
        k += 1;
    }
    proof {
        assert(ids@.subrange(0, ids@.len() as int) =~= ids@);
    }
    r
}

/// Those of the listed ids whose task exists and is Queued: the targets
/// of an explicit start that names its tasks.
pub fn queued_among(state: &State, ids: &Vec<u64>) -> (r: Vec<u64>)
    requires
        wf(state@),
    ensures
        forall|x: u64|
            #[trigger] r@.contains(x) <==> (ids@.contains(x) && has_task(state@.tasks, x)
                && task_of(state@.tasks, x).status is Queued),
{
    let mut r: Vec<u64> = Vec::new();
    let mut k: usize = 0;
    while k < ids.len()
        invariant
            wf(state@),
            k <= ids@.len(),
            forall|x: u64|
                #[trigger] r@.contains(x) <==> (ids@.subrange(0, k as int).contains(x) && has_task(
                    state@.tasks,
                    x,
                ) && task_of(state@.tasks, x).status is Queued),
        decreases ids@.len() - k,
    {
        let ghost prefix = ids@.subrange(0, k as int);
        let ghost prefix2 = ids@.subrange(0, k + 1 as int);
        proof {
            assert(prefix2 =~= prefix.push(ids@[k as int]));
        }
        let d = ids[k];
        let ghost rpre = r@;
        let mut hit = false;
        match state.find_task(d) {
            None => {},
            Some(i) => {
                proof {
                    lemma_idx_is(state@.tasks, i as int);
                }
                let is_queued = match state.tasks[i].status {
                    TaskStatus::Queued => true,
                    _ => false,
                };
                if is_queued {
                    if !vec_contains_u64(&r, d) {
                        r.push(d);
                        hit = true;
                    }
                }
            },
        }
        proof {
            assert forall|x: u64| #[trigger]
                r@.contains(x) <==> (prefix2.contains(x) && has_task(state@.tasks, x) && task_of(
                    state@.tasks,
                    x,
                ).status is Queued) by {
                lemma_push_contains(prefix, d, x);
                if hit {
                    assert(r@ == rpre.push(d));
                    lemma_push_contains(rpre, d, x);
                }
            }
        }
        k += 1;
    }
    proof {
        assert(ids@.subrange(0, ids@.len() as int) =~= ids@);
    }
    r
}

/// Well-formedness survives any change that keeps every task's id and
/// group, the group names and limits, and the counter.
pub proof fn lemma_wf_still(pre: StateView, post: StateView)
    requires
        wf(pre),
        post.tasks.len() == pre.tasks.len(),
        forall|j: int|
            0 <= j < pre.tasks.len() ==> (#[trigger] post.tasks[j]).id == pre.tasks[j].id && (
            #[trigger] post.tasks[j]).group == pre.tasks[j].group,
        post.groups.len() == pre.groups.len(),
        forall|j: int|
            0 <= j < pre.groups.len() ==> (#[trigger] post.groups[j]).name == pre.groups[j].name && (
            #[trigger] post.groups[j]).parallel_limit == pre.groups[j].parallel_limit,
        post.next_id == pre.next_id,
    ensures
        wf(post),
{
    assert forall|i: int| 0 <= i < post.tasks.len() implies has_group(
        post.groups,
        (#[trigger] post.tasks[i]).group,
    ) by {
        let gi = group_idx_of(pre.groups, pre.tasks[i].group);
        assert(post.groups[gi].name == pre.tasks[i].group);
    }
    assert(has_group(post.groups, crate::state::default_group_name())) by {
        let gi = group_idx_of(pre.groups, crate::state::default_group_name());
        assert(post.groups[gi].name == crate::state::default_group_name());
    }
}

} // verus!
