use pueue::handlers::{handle_message, Action, AddMessage, Message, TaskSelection};
use pueue::persist::{restore, snapshot};
use pueue::scheduler::{
    finish_task, promote_stashed, resolve_dependencies, select_next_task, start_task,
};
use pueue::state::{GroupStatus, State};
use pueue::task::{ChildExit, TaskResult, TaskStatus};

fn add_full(
    state: &mut State,
    cmd: &str,
    deps: Vec<u64>,
    stashed: bool,
    enqueue_at: Option<u64>,
    now: u64,
) -> u64 {
    let msg = Message::Add(AddMessage {
        command: cmd.to_string(),
        path: ".".to_string(),
        envs: Vec::new(),
        group: "default".to_string(),
        dependencies: deps,
        label: None,
        stashed,
        enqueue_at,
        start_immediately: false,
    });
    let reply = handle_message(msg, state, now);
    match reply.response {
        Message::Added { id } => id,
        other => panic!("add was refused: {:?}", std::mem::discriminant(&other)),
    }
}

fn add_cmd(state: &mut State, cmd: &str, now: u64) -> u64 {
    add_full(state, cmd, Vec::new(), false, None, now)
}

fn spawn_all_eligible(state: &mut State, now: u64) {
    while let Some(id) = select_next_task(state) {
        start_task(state, id, now);
    }
}

#[test]
fn fifo_within_group() {
    let mut state = State::new(2);
    let a = add_cmd(&mut state, "sleep 0", 0);
    let b = add_cmd(&mut state, "sleep 0", 0);
    let c = add_cmd(&mut state, "sleep 0", 0);

    let first = select_next_task(&state).unwrap();
    assert_eq!(first, a, "the lowest id spawns first");
    start_task(&mut state, first, 1);
    let second = select_next_task(&state).unwrap();
    assert_eq!(second, b);
    start_task(&mut state, second, 1);
    assert!(select_next_task(&state).is_none(), "limit 2 blocks the third task");
    assert!(matches!(state.tasks[0].status, TaskStatus::Running));
    assert!(matches!(state.tasks[1].status, TaskStatus::Running));
    assert!(matches!(state.tasks[2].status, TaskStatus::Queued));

    finish_task(&mut state, a, ChildExit::Code(0), 2);
    let third = select_next_task(&state).unwrap();
    assert_eq!(third, c, "a freed slot goes to the waiting task");
    start_task(&mut state, third, 2);

    finish_task(&mut state, b, ChildExit::Code(0), 3);
    finish_task(&mut state, c, ChildExit::Code(0), 3);
    for t in &state.tasks {
        assert!(matches!(t.status, TaskStatus::Done(TaskResult::Success)));
    }
}

#[test]
fn dependency_failure_propagation() {
    let mut state = State::new(2);
    let x = add_cmd(&mut state, "false", 0);
    let y = add_full(&mut state, "echo ok", vec![x], false, None, 0);
    assert!(matches!(state.tasks[1].status, TaskStatus::Locked));

    let sel = select_next_task(&state).unwrap();
    assert_eq!(sel, x);
    start_task(&mut state, x, 1);
    assert!(select_next_task(&state).is_none(), "the dependent task must wait");

    finish_task(&mut state, x, ChildExit::Code(1), 2);
    assert!(matches!(
        state.tasks[0].status,
        TaskStatus::Done(TaskResult::Failed(1))
    ));

    resolve_dependencies(&mut state);
    assert!(matches!(
        state.tasks[1].status,
        TaskStatus::Done(TaskResult::DependencyFailed)
    ));
    assert!(select_next_task(&state).is_none(), "the dependent never spawns");
    let _ = y;
}

#[test]
fn pause_then_kill() {
    let mut state = State::new(1);
    let p = add_cmd(&mut state, "sleep 60", 0);
    spawn_all_eligible(&mut state, 1);
    assert!(matches!(state.tasks[0].status, TaskStatus::Running));

    let reply = handle_message(
        Message::Pause {
            target: TaskSelection::Group("default".to_string()),
        },
        &mut state,
        2,
    );
    assert!(matches!(reply.response, Message::Success));
    match &reply.actions[0] {
        Action::Suspend(ids) => assert_eq!(ids, &vec![p]),
        _ => panic!("expected a suspend action"),
    }
    assert!(matches!(state.tasks[0].status, TaskStatus::Paused));
    assert!(matches!(state.groups[0].status, GroupStatus::Paused));

    let reply = handle_message(
        Message::Kill {
            target: TaskSelection::Tasks(vec![p]),
            signal: None,
        },
        &mut state,
        3,
    );
    assert!(matches!(reply.response, Message::Success));
    match &reply.actions[0] {
        Action::Signal { ids, signal } => {
            assert_eq!(ids, &vec![p]);
            assert_eq!(*signal, 15, "the default kill signal is termination");
        }
        _ => panic!("expected a signal action"),
    }

    let reply = handle_message(
        Message::Start {
            target: TaskSelection::Group("default".to_string()),
        },
        &mut state,
        4,
    );
    assert!(matches!(reply.response, Message::Success));
    match &reply.actions[0] {
        Action::Resume(ids) => assert_eq!(ids, &vec![p]),
        _ => panic!("expected a resume action"),
    }
    assert!(matches!(state.tasks[0].status, TaskStatus::Running));

    finish_task(&mut state, p, ChildExit::Signal(15), 5);
    assert!(matches!(
        state.tasks[0].status,
        TaskStatus::Done(TaskResult::Killed)
    ));
}

#[test]
fn scheduled_start() {
    let mut state = State::new(1);
    let s = add_full(&mut state, "true", Vec::new(), true, Some(102), 100);
    assert!(matches!(
        state.tasks[0].status,
        TaskStatus::Stashed {
            enqueue_at: Some(102)
        }
    ));

    promote_stashed(&mut state, 101);
    assert!(
        matches!(
            state.tasks[0].status,
            TaskStatus::Stashed {
                enqueue_at: Some(102)
            }
        ),
        "before the scheduled instant the task stays stashed"
    );
    assert!(select_next_task(&state).is_none());

    promote_stashed(&mut state, 102);
    assert!(matches!(state.tasks[0].status, TaskStatus::Queued));
    let sel = select_next_task(&state).unwrap();
    assert_eq!(sel, s);
    start_task(&mut state, s, 102);
    finish_task(&mut state, s, ChildExit::Code(0), 103);
    assert!(matches!(
        state.tasks[0].status,
        TaskStatus::Done(TaskResult::Success)
    ));
}

#[test]
fn crash_recovery() {
    let mut state = State::new(1);
    let r = add_cmd(&mut state, "sleep 30", 0);
    spawn_all_eligible(&mut state, 1);
    assert!(matches!(state.tasks[0].status, TaskStatus::Running));

    let snap = snapshot(&state);
    assert!(
        matches!(snap.tasks[0].status, TaskStatus::Queued),
        "a snapshot never records in-flight work as running"
    );
    assert_eq!(snap.tasks[0].started_at, Some(1), "recorded instants survive");

    let restored = restore(snap);
    assert!(matches!(restored.tasks[0].status, TaskStatus::Queued));
    assert_eq!(restored.next_id, state.next_id);

    let sel = select_next_task(&restored).unwrap();
    assert_eq!(sel, r, "the recovered task is respawned fresh");
}

#[test]
fn parallel_limit_change() {
    let mut state = State::new(1);
    let t0 = add_cmd(&mut state, "sleep 5", 0);
    let _t1 = add_cmd(&mut state, "sleep 5", 0);
    let _t2 = add_cmd(&mut state, "sleep 5", 0);
    spawn_all_eligible(&mut state, 1);
    assert!(matches!(state.tasks[0].status, TaskStatus::Running));
    assert!(matches!(state.tasks[1].status, TaskStatus::Queued));
    assert!(matches!(state.tasks[2].status, TaskStatus::Queued));

    let reply = handle_message(
        Message::Parallel {
            group: "default".to_string(),
            limit: 3,
        },
        &mut state,
        2,
    );
    assert!(matches!(reply.response, Message::Success));

    spawn_all_eligible(&mut state, 2);
    assert!(matches!(state.tasks[1].status, TaskStatus::Running));
    assert!(matches!(state.tasks[2].status, TaskStatus::Running));
    let _ = t0;
}

#[test]
fn snapshot_round_trip_preserves_everything_else() {
    let mut state = State::new(2);
    let a = add_cmd(&mut state, "sleep 1", 10);
    let _b = add_cmd(&mut state, "echo done", 11);
    let _c = add_full(&mut state, "true", Vec::new(), true, None, 12);
    spawn_all_eligible(&mut state, 13);
    handle_message(
        Message::Pause {
            target: TaskSelection::Tasks(vec![a]),
        },
        &mut state,
        14,
    );
    assert!(matches!(state.tasks[0].status, TaskStatus::Paused));
    assert!(matches!(state.tasks[1].status, TaskStatus::Running));

    let restored = restore(snapshot(&state));
    assert_eq!(restored.next_id, state.next_id);
    assert_eq!(restored.tasks.len(), state.tasks.len());
    assert_eq!(restored.groups.len(), state.groups.len());
    for (orig, rest) in state.tasks.iter().zip(restored.tasks.iter()) {
        assert_eq!(orig.id, rest.id);
        assert_eq!(orig.command, rest.command);
        assert_eq!(orig.path, rest.path);
        assert_eq!(orig.group, rest.group);
        assert_eq!(orig.created_at, rest.created_at);
        assert_eq!(orig.started_at, rest.started_at);
        assert_eq!(orig.completed_at, rest.completed_at);
        match orig.status {
            TaskStatus::Running | TaskStatus::Paused => {
                assert_eq!(rest.status, TaskStatus::Queued)
            }
            other => assert_eq!(rest.status, other),
        }
    }
}

#[test]
fn reset_clears_tasks_but_keeps_counter() {
    let mut state = State::new(2);
    let a = add_cmd(&mut state, "sleep 9", 0);
    let b = add_cmd(&mut state, "sleep 9", 0);
    spawn_all_eligible(&mut state, 1);

    let reply = handle_message(Message::Reset, &mut state, 2);
    assert!(matches!(reply.response, Message::Success));
    let targets = match &reply.actions[0] {
        Action::ResetAll(ids) => ids.clone(),
        _ => panic!("expected a reset action"),
    };
    assert_eq!(targets, vec![a, b]);
    for id in targets {
        finish_task(&mut state, id, ChildExit::Signal(15), 3);
    }
    state.clear_tasks();
    assert!(state.tasks.is_empty());
    assert_eq!(state.groups.len(), 1, "groups survive a reset");
    assert_eq!(state.next_id, 2, "the id counter survives a reset");
    let next = add_cmd(&mut state, "echo new", 4);
    assert_eq!(next, 2, "ids are never reused");
}

#[test]
fn spawn_failure_is_recorded() {
    let mut state = State::new(1);
    let a = add_cmd(&mut state, "nonsense", 0);
    let sel = select_next_task(&state).unwrap();
    assert_eq!(sel, a);
    pueue::scheduler::fail_spawn(&mut state, a, 1);
    assert!(matches!(
        state.tasks[0].status,
        TaskStatus::Done(TaskResult::FailedToSpawn)
    ));
    assert!(select_next_task(&state).is_none());
}

#[test]
fn immediate_start_borrows_an_extra_slot() {
    let mut state = State::new(1);
    let a = add_cmd(&mut state, "sleep 9", 0);
    spawn_all_eligible(&mut state, 1);
    assert!(matches!(state.tasks[0].status, TaskStatus::Running));

    let msg = Message::Add(AddMessage {
        command: "sleep 9".to_string(),
        path: ".".to_string(),
        envs: Vec::new(),
        group: "default".to_string(),
        dependencies: Vec::new(),
        label: None,
        stashed: false,
        enqueue_at: None,
        start_immediately: true,
    });
    let reply = handle_message(msg, &mut state, 2);
    let b = match reply.response {
        Message::Added { id } => id,
        _ => panic!("add failed"),
    };
    let spawn_now = match &reply.actions[0] {
        Action::SpawnNow(ids) => ids.clone(),
        _ => panic!("expected an immediate spawn action"),
    };
    assert_eq!(spawn_now, vec![b]);
    assert!(
        select_next_task(&state).is_none(),
        "the scheduler itself would not spawn beyond the limit"
    );
    let started = pueue::scheduler::start_task_now(&mut state, b, 2);
    assert!(started);
    assert!(matches!(state.tasks[1].status, TaskStatus::Running));
    let _ = a;
}
