//! The authoritative state store: all tasks, all groups, and the id counter.
//!
//! The store is a plain value; the daemon keeps exactly one behind a lock.
//! Tasks are held sorted by ascending id, which both fixes the iteration
//! order (FIFO within a group follows from it) and makes lookups simple.

use vstd::prelude::*;

use crate::task::{is_active, Task, TaskStatus, TaskView};

verus! {

/// Run state of a group: a paused group spawns nothing.
#[derive(Clone, Copy, Debug, PartialEq, Eq)]
pub enum GroupStatus {
    Running,
    Paused,
}

/// A named bucket of tasks sharing one parallel limit and one run state.
pub struct Group {
    /// Unique name.
    pub name: String,
    /// Maximum number of simultaneously Running + Paused tasks; at least 1.
    pub parallel_limit: u64,
    /// Whether the scheduler may spawn tasks of this group.
    pub status: GroupStatus,
}

/// Mathematical model of a [`Group`].
pub struct GroupView {
    pub name: Seq<char>,
    pub parallel_limit: u64,
    pub status: GroupStatus,
}

impl View for Group {
    type V = GroupView;

    open spec fn view(&self) -> GroupView {
        GroupView { name: self.name@, parallel_limit: self.parallel_limit, status: self.status }
    }
}

/// The whole daemon state: tasks sorted by id, the groups, and the counter
/// from which new task ids are drawn.
pub struct State {
    pub tasks: Vec<Task>,
    pub groups: Vec<Group>,
    pub next_id: u64,
}

/// Mathematical model of the [`State`].
pub struct StateView {
    pub tasks: Seq<TaskView>,
    pub groups: Seq<GroupView>,
    pub next_id: u64,
}

impl View for State {
    type V = StateView;

    open spec fn view(&self) -> StateView {
        StateView {
            tasks: self.tasks@.map_values(|t: Task| t@),
            groups: self.groups@.map_values(|g: Group| g@),
            next_id: self.next_id,
        }
    }
}

/// Name of the group that exists from first start and cannot be removed.
pub open spec fn default_group_name() -> Seq<char> {
    "default"@
}

/// There is a task with this id.
pub open spec fn has_task(tasks: Seq<TaskView>, id: u64) -> bool {
    exists|i: int| 0 <= i < tasks.len() && tasks[i].id == id
}

/// Index of the task with this id (meaningful only when `has_task`
/// holds; unique under well-formedness).
pub open spec fn idx_of(tasks: Seq<TaskView>, id: u64) -> int {
    choose|i: int| 0 <= i < tasks.len() && tasks[i].id == id
}

/// The task with this id (meaningful only when `has_task` holds).
pub open spec fn task_of(tasks: Seq<TaskView>, id: u64) -> TaskView {
    tasks[idx_of(tasks, id)]
}

/// There is a group with this name.
pub open spec fn has_group(groups: Seq<GroupView>, name: Seq<char>) -> bool {
    exists|i: int| 0 <= i < groups.len() && groups[i].name == name
}

/// Index of the group with this name (meaningful only when `has_group`
/// holds; unique under well-formedness).
pub open spec fn group_idx_of(groups: Seq<GroupView>, name: Seq<char>) -> int {
    choose|i: int| 0 <= i < groups.len() && groups[i].name == name
}

/// The group with this name (meaningful only when `has_group` holds).
pub open spec fn group_of(groups: Seq<GroupView>, name: Seq<char>) -> GroupView {
    groups[group_idx_of(groups, name)]
}

/// Structural well-formedness of the state, established by the constructor
/// and preserved by every mutation:
/// task ids strictly ascend (so they are unique and iteration order is id
/// order), every id is below the counter (so ids are never reused), group
/// names are unique, every task's group exists, every limit is at least 1,
/// and the default group exists.
pub open spec fn wf(s: StateView) -> bool {
    &&& forall|i: int, j: int|
        0 <= i && i < j && j < s.tasks.len() ==> (#[trigger] s.tasks[i]).id < (
        #[trigger] s.tasks[j]).id
    &&& forall|i: int| 0 <= i < s.tasks.len() ==> (#[trigger] s.tasks[i]).id < s.next_id
    &&& forall|i: int, j: int|
        0 <= i && i < j && j < s.groups.len() ==> (#[trigger] s.groups[i]).name != (
        #[trigger] s.groups[j]).name
    &&& forall|i: int| 0 <= i < s.tasks.len() ==> has_group(s.groups, (#[trigger] s.tasks[i]).group)
    &&& forall|i: int| 0 <= i < s.groups.len() ==> (#[trigger] s.groups[i]).parallel_limit >= 1
    &&& has_group(s.groups, default_group_name())
}

/// 1 if the task occupies a slot of this group, else 0.
pub open spec fn slot_use(t: TaskView, g: Seq<char>) -> int {
    if t.group == g && is_active(t.status) {
        1
    } else {
        0
    }
}

/// Number of Running + Paused tasks in the group named `g`.
pub open spec fn count_active(tasks: Seq<TaskView>, g: Seq<char>) -> int
    decreases tasks.len(),
{
    if tasks.len() == 0 {
        0
    } else {
        count_active(tasks.drop_last(), g) + slot_use(tasks.last(), g)
    }
}

/// Every group's parallel limit is respected: at most `parallel_limit`
/// tasks of the group are Running or Paused.
pub open spec fn within_limits(s: StateView) -> bool {
    forall|k: int|
        0 <= k < s.groups.len() ==> count_active(s.tasks, (#[trigger] s.groups[k]).name) <= s.groups[
            k].parallel_limit
}

/// The active count is bounded by the number of tasks and never negative.
pub proof fn lemma_count_bounds(tasks: Seq<TaskView>, g: Seq<char>)
    ensures
        0 <= count_active(tasks, g) <= tasks.len(),
    decreases tasks.len(),
{
    if tasks.len() > 0 {
        lemma_count_bounds(tasks.drop_last(), g);
    }
}

/// Replacing one task changes the active count by the difference of the
/// two tasks' contributions.
pub proof fn lemma_count_update(tasks: Seq<TaskView>, i: int, t2: TaskView, g: Seq<char>)
    requires
        0 <= i < tasks.len(),
    ensures
        count_active(tasks.update(i, t2), g) == count_active(tasks, g) - slot_use(tasks[i], g)
            + slot_use(t2, g),
    decreases tasks.len(),
{
    let upd = tasks.update(i, t2);
    if i == tasks.len() - 1 {
        assert(upd.drop_last() =~= tasks.drop_last());
        assert(upd.last() == t2);
    } else {
        assert(upd.drop_last() =~= tasks.drop_last().update(i, t2));
        assert(upd.last() == tasks.last());
        lemma_count_update(tasks.drop_last(), i, t2, g);
    }
}

/// Appending one task adds exactly its contribution to the active count.
pub proof fn lemma_count_push(tasks: Seq<TaskView>, t: TaskView, g: Seq<char>)
    ensures
        count_active(tasks.push(t), g) == count_active(tasks, g) + slot_use(t, g),
{
    assert(tasks.push(t).drop_last() =~= tasks);
    assert(tasks.push(t).last() == t);
}

/// In a sequence of strictly ascending ids, an id determines its index.
pub proof fn lemma_idx_is(tasks: Seq<TaskView>, i: int)
    requires
        forall|p: int, q: int|
            0 <= p && p < q && q < tasks.len() ==> (#[trigger] tasks[p]).id < (
            #[trigger] tasks[q]).id,
        0 <= i < tasks.len(),
    ensures
        has_task(tasks, tasks[i].id),
        idx_of(tasks, tasks[i].id) == i,
        task_of(tasks, tasks[i].id) == tasks[i],
{
    let id = tasks[i].id;
    assert(has_task(tasks, id));
    let j = idx_of(tasks, id);
    assert(0 <= j < tasks.len() && tasks[j].id == id);
    if j < i {
        assert(tasks[j].id < tasks[i].id);
    }
    if i < j {
        assert(tasks[i].id < tasks[j].id);
    }
}

/// With unique group names, a name determines its index.
pub proof fn lemma_group_idx_is(groups: Seq<GroupView>, i: int)
    requires
        forall|p: int, q: int|
            0 <= p && p < q && q < groups.len() ==> (#[trigger] groups[p]).name != (
            #[trigger] groups[q]).name,
        0 <= i < groups.len(),
    ensures
        has_group(groups, groups[i].name),
        group_idx_of(groups, groups[i].name) == i,
        group_of(groups, groups[i].name) == groups[i],
{
    let name = groups[i].name;
    assert(has_group(groups, name));
    let j = group_idx_of(groups, name);
    assert(0 <= j < groups.len() && groups[j].name == name);
    if j < i {
        assert(groups[j].name != groups[i].name);
    }
    if i < j {
        assert(groups[i].name != groups[j].name);
    }
}

/// Two task sequences that agree on group membership and activity have the
/// same active count for every group.
pub proof fn lemma_count_congruence(a: Seq<TaskView>, b: Seq<TaskView>, g: Seq<char>)
    requires
        a.len() == b.len(),
        forall|i: int| 0 <= i < a.len() ==> slot_use(#[trigger] a[i], g) == slot_use(b[i], g),
    ensures
        count_active(a, g) == count_active(b, g),
    decreases a.len(),
{
    if a.len() > 0 {
        lemma_count_congruence(a.drop_last(), b.drop_last(), g);
    }
}

impl State {
    /// Fresh state: no tasks, the id counter at zero, and only the default
    /// group, running, with the configured limit.
    pub fn new(default_limit: u64) -> (s: State)
        requires
            default_limit >= 1,
        ensures
            s@.tasks.len() == 0,
            s@.groups.len() == 1,
            s@.groups[0].name == default_group_name(),
            s@.groups[0].parallel_limit == default_limit,
            s@.groups[0].status == GroupStatus::Running,
            s@.next_id == 0,
            wf(s@),
            within_limits(s@),
    {
        let mut groups: Vec<Group> = Vec::new();
        groups.push(
            Group {
                name: String::from_str("default"),
                parallel_limit: default_limit,
                status: GroupStatus::Running,
            },
        );
        let s = State { tasks: Vec::new(), groups, next_id: 0 };
        proof {
            assert(s@.groups[0].name == default_group_name());
        }
        s
    }

    /// Index of the task with this id, if any.
    pub fn find_task(&self, id: u64) -> (r: Option<usize>)
        ensures
            match r {
                Some(i) => i < self@.tasks.len() && self@.tasks[i as int].id == id,
                None => !has_task(self@.tasks, id),
            },
    {
        let mut i: usize = 0;
        while i < self.tasks.len()
            invariant
                i <= self@.tasks.len(),
                forall|j: int| 0 <= j < i ==> (#[trigger] self@.tasks[j]).id != id,
            decreases self@.tasks.len() - i,
        {
            if self.tasks[i].id == id {
                return Some(i);
            }
            i += 1;
        }
        None
    }

    /// Index of the group with this name, if any.
    pub fn find_group(&self, name: &String) -> (r: Option<usize>)
        ensures
            match r {
                Some(i) => i < self@.groups.len() && self@.groups[i as int].name == name@,
                None => !has_group(self@.groups, name@),
            },
    {
        let mut i: usize = 0;
        while i < self.groups.len()
            invariant
                i <= self@.groups.len(),
                forall|j: int| 0 <= j < i ==> (#[trigger] self@.groups[j]).name != name@,
            decreases self@.groups.len() - i,
        {
            if self.groups[i].name == *name {
                return Some(i);
            }
            i += 1;
        }
        None
    }

    /// Number of Running + Paused tasks in the named group.
    pub fn count_active_in(&self, name: &String) -> (n: usize)
        ensures
            n == count_active(self@.tasks, name@),
    {
        let ghost all = self@.tasks;
        let mut n: usize = 0;
        let mut i: usize = 0;
        while i < self.tasks.len()
            invariant
                i <= all.len(),
                all == self@.tasks,
                n <= i,
                n == count_active(all.subrange(0, i as int), name@),
            decreases all.len() - i,
        {
            proof {
                assert(all.subrange(0, i + 1 as int).drop_last() =~= all.subrange(0, i as int));
                assert(all.subrange(0, i + 1 as int).last() == all[i as int]);
            }
            let active = self.tasks[i].is_active();
            if active && self.tasks[i].group == *name {
                n += 1;
            }
            i += 1;
        }
        proof {
            assert(all.subrange(0, all.len() as int) =~= all);
        }
        n
    }

    /// Inserts a new task under a fresh id, drawn from and advancing the
    /// counter. The task starts in a pre-run status, so no group slot is
    /// taken and no active count changes.
    pub fn add_task(&mut self, t: Task) -> (id: u64)
        requires
            wf(old(self)@),
            old(self)@.next_id < u64::MAX,
            has_group(old(self)@.groups, t@.group),
            t@.status is Queued || t@.status is Stashed || t@.status is Locked,
        ensures
            id == old(self)@.next_id,
            final(self)@.next_id == old(self)@.next_id + 1,
            final(self)@.groups == old(self)@.groups,
            final(self)@.tasks == old(self)@.tasks.push(TaskView { id, ..t@ }),
            wf(final(self)@),
            forall|g: Seq<char>|
                #[trigger] count_active(final(self)@.tasks, g) == count_active(old(self)@.tasks, g),
            within_limits(old(self)@) ==> within_limits(final(self)@),
    {
        let ghost pre = self@;
        let id = self.next_id;
        let mut t = t;
        t.id = id;
        let ghost tv = t@;
        self.tasks.push(t);
        self.next_id = self.next_id + 1;
        proof {
            assert(final(self)@.tasks =~= pre.tasks.push(tv));
            assert(final(self)@.groups =~= pre.groups);
            assert forall|g: Seq<char>| #[trigger]
                count_active(final(self)@.tasks, g) == count_active(pre.tasks, g) by {
                lemma_count_push(pre.tasks, tv, g);
            }
            assert(wf(final(self)@)) by {
                let post = final(self)@;
                assert(forall|i: int|
                    0 <= i < post.tasks.len() ==> (#[trigger] post.tasks[i]).id < post.next_id);
                assert(forall|i: int|
                    0 <= i < post.tasks.len() ==> has_group(
                        post.groups,
                        (#[trigger] post.tasks[i]).group,
                    ));
            }
        }
        id
    }

    /// Replaces the status of the task at index `i`, leaving every other
    /// field and every other task unchanged.
    pub fn set_status_at(&mut self, i: usize, status: TaskStatus)
        requires
            i < old(self)@.tasks.len(),
        ensures
            final(self)@.tasks == old(self)@.tasks.update(
                i as int,
                TaskView { status, ..old(self)@.tasks[i as int] },
            ),
            final(self)@.groups == old(self)@.groups,
            final(self)@.next_id == old(self)@.next_id,
            wf(old(self)@) ==> wf(final(self)@),
    {
        let ghost pre = self@;
        let t = &mut self.tasks[i];
        t.status = status;
        proof {
            assert(final(self)@.tasks =~= pre.tasks.update(
                i as int,
                TaskView { status, ..pre.tasks[i as int] },
            ));
            assert(final(self)@.groups =~= pre.groups);
            if wf(pre) {
                lemma_wf_after_update(pre, final(self)@, i as int);
            }
        }
    }
}

impl State {
    /// Marks the task at index `i` as Running, recording the start instant.
    pub fn mark_running_at(&mut self, i: usize, now: u64)
        requires
            i < old(self)@.tasks.len(),
        ensures
            final(self)@.tasks == old(self)@.tasks.update(
                i as int,
                TaskView {
                    status: TaskStatus::Running,
                    started_at: Some(now),
                    ..old(self)@.tasks[i as int]
                },
            ),
            final(self)@.groups == old(self)@.groups,
            final(self)@.next_id == old(self)@.next_id,
            wf(old(self)@) ==> wf(final(self)@),
    {
        let ghost pre = self@;
        let t = &mut self.tasks[i];
        t.status = TaskStatus::Running;
        t.started_at = Some(now);
        proof {
            assert(final(self)@.tasks =~= pre.tasks.update(
                i as int,
                TaskView {
                    status: TaskStatus::Running,
                    started_at: Some(now),
                    ..pre.tasks[i as int]
                },
            ));
            assert(final(self)@.groups =~= pre.groups);
            if wf(pre) {
                lemma_wf_after_update(pre, final(self)@, i as int);
            }
        }
    }

    /// Marks the task at index `i` as Done with the given outcome,
    /// recording the completion instant.
    pub fn mark_done_at(&mut self, i: usize, result: crate::task::TaskResult, now: u64)
        requires
            i < old(self)@.tasks.len(),
        ensures
            final(self)@.tasks == old(self)@.tasks.update(
                i as int,
                TaskView {
                    status: TaskStatus::Done(result),
                    completed_at: Some(now),
                    ..old(self)@.tasks[i as int]
                },
            ),
            final(self)@.groups == old(self)@.groups,
            final(self)@.next_id == old(self)@.next_id,
            wf(old(self)@) ==> wf(final(self)@),
    {
        let ghost pre = self@;
        let t = &mut self.tasks[i];
        t.status = TaskStatus::Done(result);
        t.completed_at = Some(now);
        proof {
            assert(final(self)@.tasks =~= pre.tasks.update(
                i as int,
                TaskView {
                    status: TaskStatus::Done(result),
                    completed_at: Some(now),
                    ..pre.tasks[i as int]
                },
            ));
            assert(final(self)@.groups =~= pre.groups);
            if wf(pre) {
                lemma_wf_after_update(pre, final(self)@, i as int);
            }
        }
    }

    /// Replaces the run state of the group at index `i`.
    pub fn set_group_status_at(&mut self, i: usize, status: GroupStatus)
        requires
            i < old(self)@.groups.len(),
        ensures
            final(self)@.groups == old(self)@.groups.update(
                i as int,
                GroupView { status, ..old(self)@.groups[i as int] },
            ),
            final(self)@.tasks == old(self)@.tasks,
            final(self)@.next_id == old(self)@.next_id,
    {
        let ghost pre = self@;
        let g = &mut self.groups[i];
        g.status = status;
        proof {
            assert(final(self)@.groups =~= pre.groups.update(
                i as int,
                GroupView { status, ..pre.groups[i as int] },
            ));
            assert(final(self)@.tasks =~= pre.tasks);
        }
    }

    /// Replaces the parallel limit of the group at index `i`.
    pub fn set_group_limit_at(&mut self, i: usize, limit: u64)
        requires
            i < old(self)@.groups.len(),
            limit >= 1,
        ensures
            final(self)@.groups == old(self)@.groups.update(
                i as int,
                GroupView { parallel_limit: limit, ..old(self)@.groups[i as int] },
            ),
            final(self)@.tasks == old(self)@.tasks,
            final(self)@.next_id == old(self)@.next_id,
            wf(old(self)@) ==> wf(final(self)@),
    {
        let ghost pre = self@;
        let g = &mut self.groups[i];
        g.parallel_limit = limit;
        proof {
            assert(final(self)@.groups =~= pre.groups.update(
                i as int,
                GroupView { parallel_limit: limit, ..pre.groups[i as int] },
            ));
            assert(final(self)@.tasks =~= pre.tasks);
            if wf(pre) {
                let post = final(self)@;
                assert forall|i2: int|
                    0 <= i2 < post.tasks.len() implies has_group(
                    post.groups,
                    (#[trigger] post.tasks[i2]).group,
                ) by {
                    let gi = group_idx_of(pre.groups, pre.tasks[i2].group);
                    assert(post.groups[gi].name == pre.groups[gi].name);
                }
                assert(has_group(post.groups, default_group_name())) by {
                    let gi = group_idx_of(pre.groups, default_group_name());
                    assert(post.groups[gi].name == default_group_name());
                }
            }
        }
    }

    /// Commits an edit of the task at index `i`: each field handed in as
    /// `Some` replaces the stored one, and the task returns to `Queued`.
    pub fn edit_fields_at(
        &mut self,
        i: usize,
        command: Option<String>,
        path: Option<String>,
        label: Option<String>,
    )
        requires
            i < old(self)@.tasks.len(),
        ensures
            final(self)@.tasks == old(self)@.tasks.update(
                i as int,
                TaskView {
                    status: TaskStatus::Queued,
                    command: match command {
                        Some(c) => c@,
                        None => old(self)@.tasks[i as int].command,
                    },
                    path: match path {
                        Some(p) => p@,
                        None => old(self)@.tasks[i as int].path,
                    },
                    label: match label {
                        Some(l) => Some(l@),
                        None => old(self)@.tasks[i as int].label,
                    },
                    ..old(self)@.tasks[i as int]
                },
            ),
            final(self)@.groups == old(self)@.groups,
            final(self)@.next_id == old(self)@.next_id,
            wf(old(self)@) ==> wf(final(self)@),
    {
        let ghost pre = self@;
        let t = &mut self.tasks[i];
        t.status = TaskStatus::Queued;
        match command {
            Some(c) => {
                t.command = c;
            },
            None => {},
        }
        match path {
            Some(p) => {
                t.path = p;
            },
            None => {},
        }
        match label {
            Some(l) => {
                t.label = Some(l);
            },
            None => {},
        }
        proof {
            assert(final(self)@.tasks =~= pre.tasks.update(
                i as int,
                final(self)@.tasks[i as int],
            ));
            assert(final(self)@.groups =~= pre.groups);
            if wf(pre) {
                lemma_wf_after_update(pre, final(self)@, i as int);
            }
        }
    }

    /// Requeues the finished task at index `i` for a fresh run: status
    /// `Queued`, dependencies cleared, start and completion instants
    /// forgotten.
    pub fn requeue_cleared_at(&mut self, i: usize)
        requires
            i < old(self)@.tasks.len(),
        ensures
            final(self)@.tasks == old(self)@.tasks.update(
                i as int,
                TaskView {
                    status: TaskStatus::Queued,
                    dependencies: Seq::empty(),
                    started_at: None,
                    completed_at: None,
                    ..old(self)@.tasks[i as int]
                },
            ),
            final(self)@.groups == old(self)@.groups,
            final(self)@.next_id == old(self)@.next_id,
            wf(old(self)@) ==> wf(final(self)@),
    {
        let ghost pre = self@;
        let t = &mut self.tasks[i];
        t.status = TaskStatus::Queued;
        t.dependencies = Vec::new();
        t.started_at = None;
        t.completed_at = None;
        proof {
            assert(final(self)@.tasks =~= pre.tasks.update(
                i as int,
                TaskView {
                    status: TaskStatus::Queued,
                    dependencies: Seq::empty(),
                    started_at: None,
                    completed_at: None,
                    ..pre.tasks[i as int]
                },
            ));
            assert(final(self)@.groups =~= pre.groups);
            if wf(pre) {
                lemma_wf_after_update(pre, final(self)@, i as int);
            }
        }
    }

    /// Replaces the dependency list of the task at index `i`.
    pub fn set_deps_at(&mut self, i: usize, deps: Vec<u64>)
        requires
            i < old(self)@.tasks.len(),
        ensures
            final(self)@.tasks == old(self)@.tasks.update(
                i as int,
                TaskView { dependencies: deps@, ..old(self)@.tasks[i as int] },
            ),
            final(self)@.groups == old(self)@.groups,
            final(self)@.next_id == old(self)@.next_id,
            wf(old(self)@) ==> wf(final(self)@),
    {
        let ghost pre = self@;
        let ghost depsv = deps@;
        let t = &mut self.tasks[i];
        t.dependencies = deps;
        proof {
            assert(final(self)@.tasks =~= pre.tasks.update(
                i as int,
                TaskView { dependencies: depsv, ..pre.tasks[i as int] },
            ));
            assert(final(self)@.groups =~= pre.groups);
            if wf(pre) {
                lemma_wf_after_update(pre, final(self)@, i as int);
            }
        }
    }

    /// Replaces the whole task at index `i`. Sorted order and id freshness
    /// are the caller's business; well-formedness is not preserved by this
    /// alone.
    pub fn set_task_at(&mut self, i: usize, t: Task)
        requires
            i < old(self)@.tasks.len(),
        ensures
            final(self)@.tasks == old(self)@.tasks.update(i as int, t@),
            final(self)@.groups == old(self)@.groups,
            final(self)@.next_id == old(self)@.next_id,
    {
        let ghost pre = self@;
        let ghost tv = t@;
        let slot = &mut self.tasks[i];
        *slot = t;
        proof {
            assert(final(self)@.tasks =~= pre.tasks.update(i as int, tv));
            assert(final(self)@.groups =~= pre.groups);
        }
    }

    /// Removes every task while keeping the groups, their limits and the id
    /// counter, so removed ids are never handed out again.
    pub fn clear_tasks(&mut self)
        ensures
            final(self)@.tasks == Seq::<TaskView>::empty(),
            final(self)@.groups == old(self)@.groups,
            final(self)@.next_id == old(self)@.next_id,
            wf(old(self)@) ==> wf(final(self)@),
            within_limits(final(self)@),
    {
        let ghost pre = self@;
        self.tasks = Vec::new();
        proof {
            assert(final(self)@.tasks =~= Seq::<TaskView>::empty());
            assert(final(self)@.groups =~= pre.groups);
            assert forall|k: int| 0 <= k < final(self)@.groups.len() implies count_active(
                final(self)@.tasks,
                (#[trigger] final(self)@.groups[k]).name,
            ) <= final(self)@.groups[k].parallel_limit by {
                lemma_count_bounds(final(self)@.tasks, final(self)@.groups[k].name);
            }
        }
    }
}

/// A status-only update of one task preserves well-formedness: ids, groups
/// and the counter are untouched.
pub proof fn lemma_wf_after_update(pre: StateView, post: StateView, i: int)
    requires
        wf(pre),
        0 <= i < pre.tasks.len(),
        post.tasks.len() == pre.tasks.len(),
        forall|j: int|
            0 <= j < pre.tasks.len() ==> (#[trigger] post.tasks[j]).id == pre.tasks[j].id && (
            #[trigger] post.tasks[j]).group == pre.tasks[j].group,
        post.groups == pre.groups,
        post.next_id == pre.next_id,
    ensures
        wf(post),
{
}

} // verus!
