use mop::fake::fake_event_text;
use mop::collectors::{docker_event_status, systemd_action, systemd_unit_status};
use mop::fake::{fake_detail, FakeCollectorState};
use mop::logs::{append_prefixed, container_prefix_exec, merge_tail, LogLine, ResourceLogBuffer};
use mop::resource::{AppError, ResourceKind, ResourceStatus};
use mop::logs::cut_ok_exec;

fn line(ts: i64, text: &str) -> LogLine {
    LogLine {
        ts,
        stream: "stdout".to_string(),
        line: text.to_string(),
    }
}

#[test]
fn fake_compose_resources_and_managed_action() {
    let mut state = FakeCollectorState::new();
    let resources = state.resources();
    let project = resources
        .iter()
        .find(|r| r.id == "compose_project:media-stack")
        .expect("compose_project:media-stack should exist");
    assert_eq!(project.kind, ResourceKind::ComposeProject);
    let managed = resources
        .iter()
        .find(|r| r.id == "compose_service:media-stack:manga-worker")
        .expect("manga-worker service should exist");
    assert_eq!(managed.kind, ResourceKind::ComposeService);
    assert_eq!(resources.len(), 8);

    assert_eq!(state.status_of("compose_project:media-stack"), ResourceStatus::Running);

    // Restarting the managed service is allowed and marks its container too.
    let kind = state
        .check_action("compose_service:media-stack:manga-worker", "restart")
        .unwrap();
    assert_eq!(kind, ResourceKind::ComposeService);
    let t = state
        .apply_action("compose_service:media-stack:manga-worker", "restart")
        .unwrap();
    assert_eq!(t.status, ResourceStatus::Restarting);
    assert_eq!(t.followers, vec!["docker:media-stack-manga-worker-1"]);
    assert_eq!(
        state.status_of("docker:media-stack-manga-worker-1"),
        ResourceStatus::Restarting
    );
    let back = state.finish_restart("compose_service:media-stack:manga-worker");
    assert_eq!(back.len(), 1);
    assert_eq!(
        state.status_of("compose_service:media-stack:manga-worker"),
        ResourceStatus::Running
    );

    // The unmanaged database service is refused.
    match state.check_action("compose_service:media-stack:db", "restart") {
        Err(AppError::ActionNotAllowed(action, detail)) => {
            assert_eq!(action, "restart");
            assert!(detail.contains("has no managed containers"));
        }
        other => panic!("unexpected {other:?}"),
    }

    // Unknown resources are not found.
    assert_eq!(
        state.check_action("docker:nope", "start"),
        Err(AppError::ResourceNotFound("docker:nope".to_string()))
    );
}

#[test]
fn fake_stop_and_unknown_action() {
    let mut state = FakeCollectorState::new();
    let t = state.apply_action("systemd:caddy.service", "stop").unwrap();
    assert_eq!(t.status, ResourceStatus::Stopped);
    assert!(t.followers.is_empty());
    assert_eq!(state.status_of("systemd:caddy.service"), ResourceStatus::Stopped);
    assert_eq!(
        state.apply_action("systemd:caddy.service", "explode").unwrap_err(),
        AppError::ActionNotAllowed("explode".to_string(), "systemd:caddy.service".to_string())
    );
    assert_eq!(state.status_of("systemd:caddy.service"), ResourceStatus::Stopped);
    assert_eq!(fake_detail(ResourceStatus::Running), ("active", "running", Some(7200), Some(134217728)));
    assert_eq!(fake_detail(ResourceStatus::Stopped), ("inactive", "dead", None, None));
}

#[test]
fn log_buffer_keeps_newest_lines() {
    let mut buf = ResourceLogBuffer::new(2, 1000);
    buf.push(line(1, "a"));
    buf.push(line(2, "b"));
    buf.push(line(3, "c"));
    let snap = buf.get_snapshot(10, None);
    let texts: Vec<&str> = snap.iter().map(|l| l.line.as_str()).collect();
    assert_eq!(texts, vec!["b", "c"]);
    let since = buf.get_snapshot(10, Some(2));
    assert_eq!(since.len(), 1);
    assert_eq!(since[0].line, "c");
    let tail = buf.get_snapshot(1, None);
    assert_eq!(tail[0].line, "c");
}

#[test]
fn log_buffer_truncates_long_lines() {
    let mut buf = ResourceLogBuffer::new(4, 5);
    let stored = buf.push(line(1, "abcdefgh"));
    assert_eq!(stored.line, "abcde... [truncated]");
    let stored = buf.push(line(2, "abc"));
    assert_eq!(stored.line, "abc");
}

#[test]
fn merged_logs_are_time_ordered_and_prefixed() {
    let mut out = Vec::new();
    let p1 = container_prefix_exec("manga-worker", "media-stack-manga-worker-1");
    let p2 = container_prefix_exec("db", "media-stack-db-1");
    append_prefixed(&mut out, &p1, &vec![line(3, "w3"), line(1, "w1")]);
    append_prefixed(&mut out, &p2, &vec![line(2, "d2")]);
    let merged = merge_tail(out, 2);
    let texts: Vec<&str> = merged.iter().map(|l| l.line.as_str()).collect();
    assert_eq!(
        texts,
        vec![
            "[db|media-stack-db-1] d2",
            "[manga-worker|media-stack-manga-worker-1] w3"
        ]
    );
}

#[test]
fn systemd_and_docker_states() {
    assert_eq!(systemd_unit_status("active"), ResourceStatus::Running);
    assert_eq!(systemd_unit_status("activating"), ResourceStatus::Restarting);
    assert_eq!(systemd_unit_status("weird"), ResourceStatus::Unknown);
    assert_eq!(docker_event_status("die"), Some(ResourceStatus::Stopped));
    assert_eq!(docker_event_status("create"), None);
    let units = vec!["caddy.service".to_string()];
    let allow = vec!["restart".to_string()];
    assert_eq!(systemd_action(&units, &allow, "systemd:caddy.service", "restart"), Ok("RestartUnit"));
    assert_eq!(
        systemd_action(&units, &allow, "systemd:caddy.service", "stop"),
        Err(AppError::ActionNotAllowed("stop".to_string(), "systemd:caddy.service".to_string()))
    );
    assert_eq!(
        systemd_action(&units, &allow, "systemd:other.service", "restart"),
        Err(AppError::ResourceNotFound("systemd:other.service".to_string()))
    );
}

#[test]
fn line_cuts_on_character_boundaries_only() {
    assert!(cut_ok_exec("abc", 2));
    assert!(cut_ok_exec("abc", 3));
    assert!(!cut_ok_exec("aé", 2));
    assert!(cut_ok_exec("aé", 3));
}

#[test]
fn fake_fixture_carries_names_groups_and_labels() {
    let state = FakeCollectorState::new();
    let resources = state.resources();
    let komga = &resources[2];
    assert_eq!(komga.kind, ResourceKind::DockerContainer);
    assert_eq!(komga.display_name, "Komga Media Server");
    assert_eq!(komga.group_name, "Docker");
    assert_eq!(komga.source, "label");
    assert_eq!(komga.labels_json.as_deref(), Some(r#"{"mop.managed":"true","mop.group":"Docker"}"#));
    assert_eq!(resources[0].labels_json, None);
    let project = &resources[3];
    assert_eq!(project.group_name, "Docker Compose");
    for r in resources.iter().skip(3) {
        let text = r.labels_json.clone().unwrap();
        let value: serde_json::Value = serde_json::from_str(&text).unwrap();
        // Written as serde_json writes it: compact, keys in order.
        assert_eq!(value.to_string(), text);
    }
    let value: serde_json::Value = serde_json::from_str(project.labels_json.as_deref().unwrap()).unwrap();
    assert_eq!(value["managed_containers_count"], 1);
    assert_eq!(value["containers"][1]["name"], "media-stack-db-1");
}

#[test]
fn fake_event_texts_name_what_changed() {
    let p = "compose_project:media-stack";
    assert_eq!(fake_event_text(p, p, true, ResourceStatus::Restarting), "Resource compose_project:media-stack is restarting");
    assert_eq!(
        fake_event_text(p, "compose_service:media-stack:manga-worker", true, ResourceStatus::Restarting),
        "Service manga-worker is restarting"
    );
    assert_eq!(
        fake_event_text(p, "docker:media-stack-manga-worker-1", true, ResourceStatus::Running),
        "Container media-stack-manga-worker-1 restarted successfully"
    );
    assert_eq!(
        fake_event_text("docker:komga", "docker:komga", false, ResourceStatus::Stopped),
        "Resource docker:komga transitioned to stopped"
    );
}
