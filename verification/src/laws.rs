//! The engine's guarantees, stated on their own.
//!
//! Each law here is proved from the contracts in the other modules; the
//! snapshot laws live beside the snapshot code in [`crate::persist`].

use vstd::prelude::*;

use crate::scheduler::{deps_satisfied, eligible, promoted};
use crate::state::{
    count_active, has_task, idx_of, lemma_count_update, lemma_group_idx_is, task_of, wf,
    within_limits, StateView,
};
use crate::task::{is_active, TaskStatus, TaskView};

verus! {

/// Law: scheduler spawning respects group limits. When a spawn is gated
/// by eligibility — the task is queued and its group has a free slot —
/// marking it Running keeps every group's count of Running and Paused
/// tasks at or below that group's parallel limit. An explicit
/// operator-requested start is not so gated: it borrows a slot beyond the
/// limit by design.
pub proof fn law_spawn_within_limits(pre: StateView, post: StateView, id: u64, now: u64)
    requires
        wf(pre),
        within_limits(pre),
        has_task(pre.tasks, id),
        eligible(pre, idx_of(pre.tasks, id)),
        post.tasks == pre.tasks.update(
            idx_of(pre.tasks, id),
            TaskView {
                status: TaskStatus::Running,
                started_at: Some(now),
                ..task_of(pre.tasks, id)
            },
        ),
        post.groups == pre.groups,
    ensures
        within_limits(post),
{
    let i = idx_of(pre.tasks, id);
    assert(0 <= i < pre.tasks.len() && pre.tasks[i].id == id);
    let g0 = pre.tasks[i].group;
    assert forall|k: int| 0 <= k < post.groups.len() implies count_active(
        post.tasks,
        (#[trigger] post.groups[k]).name,
    ) <= post.groups[k].parallel_limit by {
        let gname = pre.groups[k].name;
        lemma_count_update(pre.tasks, i, post.tasks[i], gname);
        if gname == g0 {
            lemma_group_idx_is(pre.groups, k);
        }
    }
}

/// Law: a task is eligible to be spawned only when every one of its
/// dependencies exists and has finished successfully.
pub proof fn law_spawn_needs_deps(s: StateView, i: int)
    requires
        eligible(s, i),
    ensures
        deps_satisfied(s.tasks, s.tasks[i].dependencies),
{
}

/// Law: promotion honors the schedule. A task changes under stash
/// promotion at an instant only if it was stashed with a scheduled
/// release at or before that instant; every other task is untouched.
pub proof fn law_promotion_respects_schedule(t: TaskView, now: u64)
    ensures
        promoted(t, now) != t ==> (t.status matches TaskStatus::Stashed { enqueue_at: Some(at) }
            && at <= now),
        promoted(t, now) != t ==> !is_active(t.status) && !is_active(promoted(t, now).status),
{
}

/// Law: ids are never reused. In a well-formed state every task's id lies
/// strictly below the counter, and every mutation keeps the counter from
/// decreasing, so an id handed out once can never be handed out again.
pub proof fn law_ids_below_counter(s: StateView, i: int)
    requires
        wf(s),
        0 <= i < s.tasks.len(),
    ensures
        s.tasks[i].id < s.next_id,
{
}

} // verus!
