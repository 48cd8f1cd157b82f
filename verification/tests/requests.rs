use pueue::handlers::{
    handle_message, Action, AddMessage, FailKind, GroupRequest, Message, TaskSelection,
};
use pueue::scheduler::{finish_task, select_next_task, start_task};
use pueue::state::State;
use pueue::task::{ChildExit, TaskResult, TaskStatus};

fn plain_add(cmd: &str, group: &str) -> Message {
    Message::Add(AddMessage {
        command: cmd.to_string(),
        path: ".".to_string(),
        envs: Vec::new(),
        group: group.to_string(),
        dependencies: Vec::new(),
        label: None,
        stashed: false,
        enqueue_at: None,
        start_immediately: false,
    })
}

fn added_id(state: &mut State, cmd: &str, now: u64) -> u64 {
    match handle_message(plain_add(cmd, "default"), state, now).response {
        Message::Added { id } => id,
        _ => panic!("add failed"),
    }
}

#[test]
fn add_to_unknown_group_fails() {
    let mut state = State::new(1);
    let reply = handle_message(plain_add("echo hi", "nosuch"), &mut state, 0);
    assert!(matches!(
        reply.response,
        Message::Failure(FailKind::UnknownGroup)
    ));
    assert!(state.tasks.is_empty());
    assert_eq!(state.next_id, 0);
}

#[test]
fn add_empty_command_fails() {
    let mut state = State::new(1);
    let reply = handle_message(plain_add("", "default"), &mut state, 0);
    assert!(matches!(
        reply.response,
        Message::Failure(FailKind::EmptyCommand)
    ));
    assert!(state.tasks.is_empty());
}

#[test]
fn add_unknown_dependency_fails() {
    let mut state = State::new(1);
    let msg = Message::Add(AddMessage {
        command: "echo hi".to_string(),
        path: ".".to_string(),
        envs: Vec::new(),
        group: "default".to_string(),
        dependencies: vec![7],
        label: None,
        stashed: false,
        enqueue_at: None,
        start_immediately: false,
    });
    let reply = handle_message(msg, &mut state, 0);
    assert!(matches!(
        reply.response,
        Message::Failure(FailKind::UnknownDependency)
    ));
    assert!(state.tasks.is_empty());
}

#[test]
fn group_lifecycle() {
    let mut state = State::new(1);
    let reply = handle_message(
        Message::Group(GroupRequest::Add {
            name: "work".to_string(),
            parallel_limit: 2,
        }),
        &mut state,
        0,
    );
    assert!(matches!(reply.response, Message::Success));
    assert_eq!(state.groups.len(), 2);

    let reply = handle_message(
        Message::Group(GroupRequest::Add {
            name: "work".to_string(),
            parallel_limit: 2,
        }),
        &mut state,
        0,
    );
    assert!(matches!(
        reply.response,
        Message::Failure(FailKind::GroupExists)
    ));

    let msg = Message::Add(AddMessage {
        command: "echo hi".to_string(),
        path: ".".to_string(),
        envs: Vec::new(),
        group: "work".to_string(),
        dependencies: Vec::new(),
        label: None,
        stashed: false,
        enqueue_at: None,
        start_immediately: false,
    });
    let id = match handle_message(msg, &mut state, 0).response {
        Message::Added { id } => id,
        _ => panic!("add failed"),
    };

    let reply = handle_message(
        Message::Group(GroupRequest::Remove("work".to_string())),
        &mut state,
        1,
    );
    assert!(matches!(
        reply.response,
        Message::Failure(FailKind::GroupNotEmpty)
    ));

    let reply = handle_message(Message::Remove(vec![id]), &mut state, 1);
    assert!(matches!(reply.response, Message::Success));

    let reply = handle_message(
        Message::Group(GroupRequest::Remove("work".to_string())),
        &mut state,
        1,
    );
    assert!(matches!(reply.response, Message::Success));
    assert_eq!(state.groups.len(), 1);

    let reply = handle_message(
        Message::Group(GroupRequest::Remove("default".to_string())),
        &mut state,
        1,
    );
    assert!(matches!(
        reply.response,
        Message::Failure(FailKind::CannotRemoveDefault)
    ));

    let reply = handle_message(Message::Group(GroupRequest::List), &mut state, 1);
    match reply.response {
        Message::GroupList(gs) => {
            assert_eq!(gs.len(), 1);
            assert_eq!(gs[0].name, "default");
        }
        _ => panic!("expected a group list"),
    }
}

#[test]
fn parallel_limit_validation() {
    let mut state = State::new(1);
    let reply = handle_message(
        Message::Parallel {
            group: "default".to_string(),
            limit: 0,
        },
        &mut state,
        0,
    );
    assert!(matches!(
        reply.response,
        Message::Failure(FailKind::InvalidLimit)
    ));
    let reply = handle_message(
        Message::Parallel {
            group: "nosuch".to_string(),
            limit: 2,
        },
        &mut state,
        0,
    );
    assert!(matches!(
        reply.response,
        Message::Failure(FailKind::UnknownGroup)
    ));
    assert_eq!(state.groups[0].parallel_limit, 1);
}

#[test]
fn stash_and_enqueue_cycle() {
    let mut state = State::new(1);
    let id = added_id(&mut state, "echo hi", 0);
    let reply = handle_message(Message::Stash(vec![id]), &mut state, 1);
    assert!(matches!(reply.response, Message::Success));
    assert!(matches!(
        state.tasks[0].status,
        TaskStatus::Stashed { enqueue_at: None }
    ));

    let reply = handle_message(
        Message::Enqueue {
            ids: vec![id],
            enqueue_at: Some(50),
        },
        &mut state,
        1,
    );
    assert!(matches!(reply.response, Message::Success));
    assert!(matches!(
        state.tasks[0].status,
        TaskStatus::Stashed {
            enqueue_at: Some(50)
        }
    ));

    let reply = handle_message(
        Message::Enqueue {
            ids: vec![id],
            enqueue_at: None,
        },
        &mut state,
        2,
    );
    assert!(matches!(reply.response, Message::Success));
    assert!(matches!(state.tasks[0].status, TaskStatus::Queued));
}

#[test]
fn edit_cycle_blocks_spawning() {
    let mut state = State::new(1);
    let id = added_id(&mut state, "echo one", 0);
    let reply = handle_message(Message::EditRequest(id), &mut state, 1);
    match reply.response {
        Message::EditResponse { id: rid, command } => {
            assert_eq!(rid, id);
            assert_eq!(command, "echo one");
        }
        _ => panic!("expected an edit response"),
    }
    assert!(matches!(state.tasks[0].status, TaskStatus::Editing));
    assert!(
        select_next_task(&state).is_none(),
        "an editing task is never spawned"
    );

    let reply = handle_message(
        Message::Edit {
            id,
            command: Some("echo two".to_string()),
            path: None,
            label: Some("tagged".to_string()),
        },
        &mut state,
        2,
    );
    assert!(matches!(reply.response, Message::Success));
    assert!(matches!(state.tasks[0].status, TaskStatus::Queued));
    assert_eq!(state.tasks[0].command, "echo two");
    assert_eq!(state.tasks[0].label.as_deref(), Some("tagged"));

    let reply = handle_message(Message::EditRestore(id), &mut state, 3);
    assert!(matches!(
        reply.response,
        Message::Failure(FailKind::IllegalTransition)
    ));

    let reply = handle_message(Message::EditRequest(id), &mut state, 4);
    assert!(matches!(reply.response, Message::EditResponse { .. }));
    let reply = handle_message(Message::EditRestore(id), &mut state, 5);
    assert!(matches!(reply.response, Message::Success));
    assert_eq!(state.tasks[0].command, "echo two", "a cancelled edit changes nothing");
}

#[test]
fn switch_swaps_ids_and_rewrites_dependencies() {
    let mut state = State::new(1);
    let a = added_id(&mut state, "cmd zero", 0);
    let b = added_id(&mut state, "cmd one", 0);
    let msg = Message::Add(AddMessage {
        command: "cmd two".to_string(),
        path: ".".to_string(),
        envs: Vec::new(),
        group: "default".to_string(),
        dependencies: vec![a],
        label: None,
        stashed: false,
        enqueue_at: None,
        start_immediately: false,
    });
    handle_message(msg, &mut state, 0);

    let reply = handle_message(Message::Switch { a, b }, &mut state, 1);
    assert!(matches!(reply.response, Message::Success));
    assert_eq!(state.tasks[0].id, a);
    assert_eq!(state.tasks[0].command, "cmd one");
    assert_eq!(state.tasks[1].id, b);
    assert_eq!(state.tasks[1].command, "cmd zero");
    assert_eq!(
        state.tasks[2].dependencies,
        vec![b],
        "dependencies follow the task, not the id"
    );

    let reply = handle_message(Message::Switch { a, b: a }, &mut state, 2);
    assert!(matches!(
        reply.response,
        Message::Failure(FailKind::IllegalTransition)
    ));
    let reply = handle_message(Message::Switch { a, b: 99 }, &mut state, 2);
    assert!(matches!(
        reply.response,
        Message::Failure(FailKind::UnknownTask)
    ));
}

#[test]
fn switch_refuses_an_editing_task() {
    let mut state = State::new(1);
    let a = added_id(&mut state, "cmd zero", 0);
    let b = added_id(&mut state, "cmd one", 0);
    handle_message(Message::EditRequest(a), &mut state, 1);
    let reply = handle_message(Message::Switch { a, b }, &mut state, 2);
    assert!(matches!(
        reply.response,
        Message::Failure(FailKind::IllegalTransition)
    ));
}

#[test]
fn restart_in_place_requeues() {
    let mut state = State::new(1);
    let x = added_id(&mut state, "false", 0);
    let y = match handle_message(
        Message::Add(AddMessage {
            command: "echo after".to_string(),
            path: ".".to_string(),
            envs: Vec::new(),
            group: "default".to_string(),
            dependencies: vec![x],
            label: None,
            stashed: false,
            enqueue_at: None,
            start_immediately: false,
        }),
        &mut state,
        0,
    )
    .response
    {
        Message::Added { id } => id,
        _ => panic!("add failed"),
    };
    start_task(&mut state, x, 1);
    finish_task(&mut state, x, ChildExit::Code(1), 2);

    let reply = handle_message(
        Message::Restart {
            ids: vec![x],
            in_place: true,
        },
        &mut state,
        3,
    );
    assert!(matches!(reply.response, Message::Success));
    assert!(matches!(state.tasks[0].status, TaskStatus::Queued));
    assert!(state.tasks[0].dependencies.is_empty(), "a restart resets dependencies");
    assert_eq!(state.tasks[0].started_at, None);
    assert_eq!(state.tasks[0].completed_at, None);
    let _ = y;
}

#[test]
fn restart_as_copy_gets_a_fresh_id() {
    let mut state = State::new(1);
    let x = added_id(&mut state, "false", 0);
    start_task(&mut state, x, 1);
    finish_task(&mut state, x, ChildExit::Code(1), 2);

    let reply = handle_message(
        Message::Restart {
            ids: vec![x],
            in_place: false,
        },
        &mut state,
        3,
    );
    assert!(matches!(reply.response, Message::Success));
    assert_eq!(state.tasks.len(), 2);
    assert!(matches!(
        state.tasks[0].status,
        TaskStatus::Done(TaskResult::Failed(1))
    ));
    assert_eq!(state.tasks[1].id, 1);
    assert_eq!(state.tasks[1].command, "false");
    assert!(matches!(state.tasks[1].status, TaskStatus::Queued));
    assert_eq!(state.tasks[1].created_at, 3);
}

#[test]
fn clean_removes_finished_tasks() {
    let mut state = State::new(3);
    let a = added_id(&mut state, "true", 0);
    let b = added_id(&mut state, "false", 0);
    let c = added_id(&mut state, "sleep 9", 0);
    start_task(&mut state, a, 1);
    start_task(&mut state, b, 1);
    finish_task(&mut state, a, ChildExit::Code(0), 2);
    finish_task(&mut state, b, ChildExit::Code(1), 2);

    let reply = handle_message(
        Message::Clean {
            group: None,
            successful_only: true,
        },
        &mut state,
        3,
    );
    assert!(matches!(reply.response, Message::Success));
    match &reply.actions[0] {
        Action::RemoveLogs(ids) => assert_eq!(ids, &vec![a]),
        _ => panic!("expected a log removal action"),
    }
    assert_eq!(state.tasks.len(), 2, "only the success was cleaned");

    let reply = handle_message(
        Message::Clean {
            group: None,
            successful_only: false,
        },
        &mut state,
        4,
    );
    match &reply.actions[0] {
        Action::RemoveLogs(ids) => assert_eq!(ids, &vec![b]),
        _ => panic!("expected a log removal action"),
    }
    assert_eq!(state.tasks.len(), 1);
    assert_eq!(state.tasks[0].id, c);
}

#[test]
fn remove_rejects_running_tasks() {
    let mut state = State::new(2);
    let a = added_id(&mut state, "sleep 9", 0);
    let b = added_id(&mut state, "echo hi", 0);
    start_task(&mut state, a, 1);

    let reply = handle_message(Message::Remove(vec![a, b]), &mut state, 2);
    assert!(matches!(
        reply.response,
        Message::Failure(FailKind::IllegalTransition)
    ));
    assert_eq!(state.tasks.len(), 2, "a refused removal changes nothing");

    let reply = handle_message(Message::Remove(vec![b]), &mut state, 2);
    assert!(matches!(reply.response, Message::Success));
    match &reply.actions[0] {
        Action::RemoveLogs(ids) => assert_eq!(ids, &vec![b]),
        _ => panic!("expected a log removal action"),
    }
    assert_eq!(state.tasks.len(), 1);
    assert_eq!(state.tasks[0].id, a);
}

#[test]
fn send_requires_a_running_task() {
    let mut state = State::new(1);
    let a = added_id(&mut state, "cat", 0);
    let reply = handle_message(
        Message::Send {
            id: a,
            input: b"hello".to_vec(),
        },
        &mut state,
        1,
    );
    assert!(matches!(
        reply.response,
        Message::Failure(FailKind::IllegalTransition)
    ));

    start_task(&mut state, a, 1);
    let reply = handle_message(
        Message::Send {
            id: a,
            input: b"hello".to_vec(),
        },
        &mut state,
        2,
    );
    assert!(matches!(reply.response, Message::Success));
    match &reply.actions[0] {
        Action::SendInput { id, input } => {
            assert_eq!(*id, a);
            assert_eq!(input, b"hello");
        }
        _ => panic!("expected a stdin action"),
    }

    let reply = handle_message(
        Message::Send {
            id: 42,
            input: Vec::new(),
        },
        &mut state,
        3,
    );
    assert!(matches!(
        reply.response,
        Message::Failure(FailKind::UnknownTask)
    ));
}

#[test]
fn status_returns_a_deep_copy() {
    let mut state = State::new(1);
    let a = added_id(&mut state, "echo hi", 0);
    let reply = handle_message(Message::Status, &mut state, 1);
    let copy = match reply.response {
        Message::StatusResponse(s) => s,
        _ => panic!("expected a status response"),
    };
    start_task(&mut state, a, 2);
    assert!(matches!(state.tasks[0].status, TaskStatus::Running));
    assert!(
        matches!(copy.tasks[0].status, TaskStatus::Queued),
        "the copy is independent of later mutation"
    );
    assert_eq!(copy.tasks[0].command, "echo hi");
}

#[test]
fn kill_scopes_select_their_targets() {
    let mut state = State::new(2);
    let a = added_id(&mut state, "sleep 9", 0);
    let b = added_id(&mut state, "sleep 9", 0);
    let _c = added_id(&mut state, "echo hi", 0);
    start_task(&mut state, a, 1);
    start_task(&mut state, b, 1);

    let reply = handle_message(
        Message::Kill {
            target: TaskSelection::All,
            signal: Some(9),
        },
        &mut state,
        2,
    );
    match &reply.actions[0] {
        Action::Signal { ids, signal } => {
            assert_eq!(ids, &vec![a, b], "only running tasks are signalled");
            assert_eq!(*signal, 9);
        }
        _ => panic!("expected a signal action"),
    }

    let reply = handle_message(
        Message::Kill {
            target: TaskSelection::Group("nosuch".to_string()),
            signal: None,
        },
        &mut state,
        2,
    );
    assert!(matches!(
        reply.response,
        Message::Failure(FailKind::UnknownGroup)
    ));
    assert!(reply.actions.is_empty());
}

#[test]
fn exit_translation() {
    assert_eq!(
        pueue::task::translate_exit(ChildExit::Code(0)),
        TaskResult::Success
    );
    assert_eq!(
        pueue::task::translate_exit(ChildExit::Code(3)),
        TaskResult::Failed(3)
    );
    assert_eq!(
        pueue::task::translate_exit(ChildExit::Signal(9)),
        TaskResult::Killed
    );
}

#[test]
fn log_tail_is_bounded() {
    let buf: Vec<u8> = (0u8..100).collect();
    let tail = pueue::logs::tail_bytes(&buf, 15);
    assert_eq!(tail.len(), 15);
    assert_eq!(tail, (85u8..100).collect::<Vec<u8>>());
    let all = pueue::logs::tail_bytes(&buf, 1000);
    assert_eq!(all, buf);
    let none = pueue::logs::tail_bytes(&buf, 0);
    assert!(none.is_empty());
}

#[test]
fn secret_comparison() {
    let a = b"SECRET-REDACTED".to_vec();
    let b = b"SECRET-REDACTED".to_vec();
    let c = b"SECRET-MISMATCH".to_vec();
    let d = b"short".to_vec();
    assert!(pueue::auth::secrets_match(&a, &b));
    assert!(!pueue::auth::secrets_match(&a, &c));
    assert!(!pueue::auth::secrets_match(&a, &d));
    assert!(pueue::auth::secrets_match(&Vec::new(), &Vec::new()));
}
