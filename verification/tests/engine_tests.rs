use servmgr::config::validate_config;
use servmgr::db::{ServerRow, ServerTable};
use servmgr::engine::{
    health_check_interval, health_transition, power_on_step, power_timed_out, reconcile_transition, watched_server,
    AppState, Command, CommandKind, PowerOnAction, PowerOnStage,
};
use servmgr::types::{AppConfig, CheckResult, HealthCheckType, HealthStatus, PowerOffMethod, PowerOnMethod, PowerState, ServerConfig, ServerStatus};

fn make_server(id: &str, deps: Vec<&str>) -> ServerConfig {
    ServerConfig {
        id: id.to_string(),
        name: id.to_string(),
        hostname: format!("{id}.local"),
        power_on: PowerOnMethod::Wol,
        mac: Some("aa:bb:cc:dd:ee:ff".to_string()),
        wol_broadcast: None,
        power_off: PowerOffMethod::Ssh,
        ssh_user: Some("user".to_string()),
        ssh_key_path: Some("/key".to_string()),
        ssh_password: None,
        ssh_shutdown_cmd: None,
        ipmi_ip: None,
        ipmi_user: None,
        ipmi_password: None,
        depends_on: deps.into_iter().map(String::from).collect(),
        health_checks: vec![],
        check_interval_secs: 30,
        power_timeout_secs: 300,
    }
}

fn make_state(servers: Vec<ServerConfig>) -> AppState {
    let mut table = ServerTable::new();
    for s in &servers {
        table.rows.push(ServerRow::fresh(s.id.clone()));
    }
    let validated = validate_config(&AppConfig { servers });
    AppState::new(validated, table)
}

fn counter_of(state: &AppState, id: &str) -> i32 {
    state.table.rows.iter().find(|r| r.id == id).unwrap().counter
}

fn row_of<'a>(state: &'a AppState, id: &str) -> &'a ServerRow {
    state.table.rows.iter().find(|r| r.id == id).unwrap()
}

fn kinds_for(cmds: &[Command], id: &str) -> Vec<CommandKind> {
    cmds.iter().filter(|c| c.server_id == id).map(|c| c.kind).collect()
}

#[test]
fn decrement_floors_at_zero_and_needs_no_matching_caller() {
    let mut state = make_state(vec![make_server("a", vec![])]);
    let mut cmds = Vec::new();

    state.handle_power_on("a", "webui-1", &mut cmds).unwrap();
    state.handle_power_on("a", "webui-2", &mut cmds).unwrap();
    assert_eq!(counter_of(&state, "a"), 2);

    state.handle_power_off("a", "some-unrelated-caller", &mut cmds).unwrap();
    assert_eq!(counter_of(&state, "a"), 1);

    state.handle_power_off("a", "some-unrelated-caller", &mut cmds).unwrap();
    assert_eq!(counter_of(&state, "a"), 0);

    state.handle_power_off("a", "some-unrelated-caller", &mut cmds).unwrap();
    assert_eq!(counter_of(&state, "a"), 0);
}

#[test]
fn cascade_reaches_transitive_dependencies() {
    let mut state = make_state(vec![
        make_server("a", vec!["b"]),
        make_server("b", vec!["c"]),
        make_server("c", vec![]),
    ]);
    let mut cmds = Vec::new();

    state.handle_power_on("a", "webui-1", &mut cmds).unwrap();
    assert_eq!(counter_of(&state, "a"), 1);
    assert_eq!(counter_of(&state, "b"), 1, "direct dependency should be incremented");
    assert_eq!(counter_of(&state, "c"), 1, "transitive dependency should also be incremented");

    state.handle_power_off("a", "webui-1", &mut cmds).unwrap();
    assert_eq!(counter_of(&state, "a"), 0);
    assert_eq!(counter_of(&state, "b"), 0);
    assert_eq!(counter_of(&state, "c"), 0);
}

#[test]
fn direct_decrement_on_cascade_only_dependency_works() {
    let mut state = make_state(vec![make_server("server1", vec!["server2"]), make_server("server2", vec![])]);
    let mut cmds = Vec::new();

    state.handle_power_on("server1", "webui-1", &mut cmds).unwrap();
    assert_eq!(counter_of(&state, "server2"), 1);

    state.handle_power_off("server2", "webui-9", &mut cmds).unwrap();
    assert_eq!(counter_of(&state, "server2"), 0);
}

#[test]
fn diamond_dependency_cascade_does_not_double_count_or_loop() {
    let mut state = make_state(vec![
        make_server("a", vec!["b", "c"]),
        make_server("b", vec!["d"]),
        make_server("c", vec!["d"]),
        make_server("d", vec![]),
    ]);
    let mut cmds = Vec::new();

    state.handle_power_on("a", "webui-1", &mut cmds).unwrap();
    assert_eq!(counter_of(&state, "d"), 1, "d reached via two paths from a single action, but only counted once");

    state.handle_power_off("a", "webui-1", &mut cmds).unwrap();
    assert_eq!(counter_of(&state, "d"), 0);

    state.handle_power_on("a", "webui-2", &mut cmds).unwrap();
    state.handle_power_on("b", "webui-3", &mut cmds).unwrap();
    assert_eq!(counter_of(&state, "d"), 2, "two separate actions, each reaching d, both count");

    state.handle_power_off("a", "webui-2", &mut cmds).unwrap();
    assert_eq!(counter_of(&state, "d"), 1, "a's action released; b's is still outstanding");

    state.handle_power_off("b", "webui-3", &mut cmds).unwrap();
    assert_eq!(counter_of(&state, "d"), 0);
}

#[test]
fn cascade_records_dependency_callers_breadth_first() {
    let mut state = make_state(vec![
        make_server("a", vec!["b", "c"]),
        make_server("b", vec!["d"]),
        make_server("c", vec!["d"]),
        make_server("d", vec![]),
    ]);
    let mut cmds = Vec::new();
    state.handle_power_on("a", "webui-1", &mut cmds).unwrap();
    assert_eq!(row_of(&state, "a").callers, vec!["webui-1".to_string()]);
    assert_eq!(row_of(&state, "b").callers, vec!["dep:a".to_string()]);
    assert_eq!(row_of(&state, "c").callers, vec!["dep:a".to_string()]);
    assert_eq!(row_of(&state, "d").callers, vec!["dep:b".to_string()]);
    let order: Vec<String> = cmds
        .iter()
        .filter(|c| c.kind == CommandKind::LogIncrement)
        .map(|c| c.server_id.clone())
        .collect();
    assert_eq!(order, vec!["a", "b", "c", "d"]);
}

#[test]
fn power_on_of_an_idle_server_starts_its_sequence() {
    let mut state = make_state(vec![make_server("a", vec![])]);
    let mut cmds = Vec::new();
    let st = state.handle_power_on("a", "ha", &mut cmds).unwrap();
    assert_eq!(st.counter, 1);
    assert_eq!(st.callers, vec!["ha".to_string()]);
    assert_eq!(st.status, ServerStatus::TurningOn);
    assert_eq!(row_of(&state, "a").power_state, PowerState::PendingOn);
    assert_eq!(
        kinds_for(&cmds, "a"),
        vec![
            CommandKind::SaveCounter,
            CommandKind::LogIncrement,
            CommandKind::SavePowerState,
            CommandKind::TriggerFastCheck,
            CommandKind::StartPowerOn,
            CommandKind::Broadcast
        ]
    );
    let mut cmds = Vec::new();
    state.handle_power_on("a", "ha2", &mut cmds).unwrap();
    assert_eq!(kinds_for(&cmds, "a"), vec![CommandKind::SaveCounter, CommandKind::LogIncrement, CommandKind::Broadcast]);

    let mut cmds = Vec::new();
    state.handle_power_off("a", "ha", &mut cmds).unwrap();
    assert_eq!(row_of(&state, "a").callers, vec!["ha2".to_string()]);
    assert_eq!(kinds_for(&cmds, "a"), vec![CommandKind::SaveCounter, CommandKind::LogDecrement, CommandKind::Broadcast]);
    let mut cmds = Vec::new();
    state.handle_power_off("a", "nobody", &mut cmds).unwrap();
    assert!(row_of(&state, "a").callers.is_empty());
    assert_eq!(row_of(&state, "a").power_state, PowerState::PendingOff);
    assert_eq!(
        kinds_for(&cmds, "a"),
        vec![
            CommandKind::SaveCounter,
            CommandKind::LogDecrement,
            CommandKind::CancelPowerTask,
            CommandKind::SavePowerState,
            CommandKind::TriggerFastCheck,
            CommandKind::StartPowerOff,
            CommandKind::Broadcast
        ]
    );
    let mut cmds = Vec::new();
    state.handle_power_off("a", "nobody", &mut cmds).unwrap();
    assert!(cmds.is_empty());
}

#[test]
fn requests_are_refused_without_changes() {
    let mut state = make_state(vec![make_server("a", vec!["a"]), make_server("b", vec![])]);
    let mut cmds = Vec::new();
    let err = state.handle_power_on("a", "x", &mut cmds).unwrap_err();
    assert_eq!(err, "Cycle detected: a \u{2192} a");
    let err = state.handle_power_off("zz", "x", &mut cmds).unwrap_err();
    assert_eq!(err, "Server not found: zz");
    state.table.rows.retain(|r| r.id != "b");
    let err = state.handle_power_on("b", "x", &mut cmds).unwrap_err();
    assert_eq!(err, "Server state not found: b");
    assert!(cmds.is_empty());
    assert_eq!(counter_of(&state, "a"), 0);
}

#[test]
fn power_on_then_off_restores_every_counter() {
    let mut state = make_state(vec![
        make_server("a", vec!["b", "ghost"]),
        make_server("b", vec!["c"]),
        make_server("c", vec![]),
        make_server("d", vec![]),
    ]);
    let mut cmds = Vec::new();
    state.handle_set_counter("c", 5, &mut cmds).unwrap();
    state.handle_set_counter("d", 2, &mut cmds).unwrap();
    let before: Vec<i32> = state.table.rows.iter().map(|r| r.counter).collect();
    state.handle_power_on("a", "one", &mut cmds).unwrap();
    assert_eq!(counter_of(&state, "a"), 1);
    assert_eq!(counter_of(&state, "b"), 1);
    assert_eq!(counter_of(&state, "c"), 6);
    assert_eq!(counter_of(&state, "d"), 2);
    state.handle_power_off("a", "two", &mut cmds).unwrap();
    let after: Vec<i32> = state.table.rows.iter().map(|r| r.counter).collect();
    assert_eq!(before, after);
}

#[test]
fn force_power_off_resets_the_row() {
    let mut state = make_state(vec![make_server("a", vec![])]);
    let mut cmds = Vec::new();
    state.handle_power_on("a", "x", &mut cmds).unwrap();
    let mut cmds = Vec::new();
    let st = state.handle_force_power_off("a", &mut cmds).unwrap();
    assert_eq!(st.counter, 0);
    assert!(st.callers.is_empty());
    assert_eq!(row_of(&state, "a").power_state, PowerState::Off);
    assert_eq!(
        kinds_for(&cmds, "a"),
        vec![
            CommandKind::LogForceOff,
            CommandKind::CancelPowerTask,
            CommandKind::PowerOffNow,
            CommandKind::SaveCounter,
            CommandKind::SavePowerState,
            CommandKind::Broadcast
        ]
    );
    let err = state.handle_force_power_off("nope", &mut cmds).unwrap_err();
    assert_eq!(err, "Server not found: nope");
}

#[test]
fn force_power_on_issues_the_command() {
    let state = make_state(vec![make_server("a", vec![])]);
    let mut cmds = Vec::new();
    let st = state.handle_force_power_on("a", &mut cmds).unwrap();
    assert_eq!(st.id, "a");
    assert_eq!(kinds_for(&cmds, "a"), vec![CommandKind::LogForceOn, CommandKind::PowerOnNow]);
    assert_eq!(state.handle_force_power_on("b", &mut cmds).unwrap_err(), "Server not found: b");
}

#[test]
fn set_counter_clears_callers() {
    let mut state = make_state(vec![make_server("a", vec![])]);
    let mut cmds = Vec::new();
    state.handle_power_on("a", "x", &mut cmds).unwrap();
    let st = state.handle_set_counter("a", 7, &mut cmds).unwrap();
    assert_eq!(st.counter, 7);
    assert!(st.callers.is_empty());
    assert_eq!(state.handle_set_counter("zz", 1, &mut cmds).unwrap_err(), "State not found");
}

#[test]
fn health_checks_confirm_pending_transitions() {
    let mut state = make_state(vec![make_server("a", vec![])]);
    let mut cmds = Vec::new();
    state.handle_power_on("a", "x", &mut cmds).unwrap();
    let checks = vec![CheckResult { check_type: HealthCheckType::Ping, ok: true, latency_ms: Some(3), port: None, label: None }];
    let mut cmds = Vec::new();
    state.record_health_check("a", HealthStatus::Up, checks, "2026-01-01T00:00:00+00:00".to_string(), &mut cmds);
    let row = row_of(&state, "a");
    assert_eq!(row.power_state, PowerState::On);
    assert_eq!(row.status, HealthStatus::Up);
    assert_eq!(row.last_checked, Some("2026-01-01T00:00:00+00:00".to_string()));
    assert_eq!(cmds[0].kind, CommandKind::SaveHealth);
    assert_eq!(cmds[0].text, "on");
    assert_eq!(cmds[1].kind, CommandKind::SavePowerState);
    assert_eq!(cmds[2].kind, CommandKind::Broadcast);
    assert_eq!(state.get_server_state("a").unwrap().status, ServerStatus::On);
}

#[test]
fn transitions_and_reconciliation() {
    assert_eq!(health_transition(PowerState::PendingOn, HealthStatus::Up), Some(PowerState::On));
    assert_eq!(health_transition(PowerState::PendingOff, HealthStatus::Down), Some(PowerState::Off));
    assert_eq!(health_transition(PowerState::Failed, HealthStatus::Up), Some(PowerState::On));
    assert_eq!(health_transition(PowerState::PendingOn, HealthStatus::Degraded), None);
    assert_eq!(reconcile_transition(PowerState::On, HealthStatus::Down), Some(PowerState::Off));
    assert_eq!(reconcile_transition(PowerState::PendingOff, HealthStatus::Up), Some(PowerState::On));
    assert_eq!(reconcile_transition(PowerState::Failed, HealthStatus::Down), None);

    let mut state = make_state(vec![make_server("a", vec![]), make_server("b", vec![])]);
    state.table.rows[0].power_state = PowerState::On;
    state.table.rows[1].status = HealthStatus::Up;
    let mut cmds = Vec::new();
    state.reconcile_power_states(&mut cmds);
    assert_eq!(row_of(&state, "a").power_state, PowerState::Off);
    assert_eq!(row_of(&state, "b").power_state, PowerState::On);
    assert_eq!(
        cmds.iter().map(|c| (c.kind, c.server_id.clone())).collect::<Vec<_>>(),
        vec![
            (CommandKind::SavePowerState, "a".to_string()),
            (CommandKind::Broadcast, "a".to_string()),
            (CommandKind::SavePowerState, "b".to_string()),
            (CommandKind::Broadcast, "b".to_string()),
        ]
    );
}

#[test]
fn startup_rows_and_config_errors() {
    let mut state = make_state(vec![make_server("a", vec![])]);
    state.table.rows.clear();
    let mut cmds = Vec::new();
    state.ensure_server_exists("a", &mut cmds);
    state.ensure_server_exists("a", &mut cmds);
    assert_eq!(state.table.rows.len(), 1);
    state.update_config_error("a", Some("bad".to_string()), &mut cmds);
    assert_eq!(row_of(&state, "a").config_error, Some("bad".to_string()));
    let all = state.get_all_server_states();
    assert_eq!(all.len(), 1);
    assert_eq!(all[0].config_error, Some("bad".to_string()));
    let mut cmds = Vec::new();
    state.transition_to_failed("a", &mut cmds);
    assert_eq!(row_of(&state, "a").power_state, PowerState::Failed);
    assert_eq!(cmds.len(), 2);
}

#[test]
fn health_check_interval_is_fast_during_transitions() {
    assert_eq!(health_check_interval(Some(PowerState::PendingOn), 30), 3);
    assert_eq!(health_check_interval(Some(PowerState::PendingOff), 30), 3);
    assert_eq!(health_check_interval(Some(PowerState::On), 30), 30);
    assert_eq!(health_check_interval(None, 60), 60);
}

#[test]
fn power_on_sequence_waits_for_dependencies_then_the_server() {
    let s = make_server("a", vec!["b"]);
    let st = PowerOnStage::WaitDependency(0);
    assert_eq!(watched_server(st, &s), Some("b".to_string()));
    assert_eq!(power_on_step(st, 1, false, false, Some(HealthStatus::Down), None), (st, PowerOnAction::Sleep));
    assert_eq!(
        power_on_step(st, 1, false, false, Some(HealthStatus::Up), None),
        (PowerOnStage::WaitDependency(1), PowerOnAction::Continue)
    );
    assert_eq!(power_on_step(st, 1, false, true, None, None), (PowerOnStage::Done, PowerOnAction::MarkFailed));
    assert_eq!(power_on_step(st, 1, true, true, None, None), (PowerOnStage::Done, PowerOnAction::Stop));
    assert_eq!(
        power_on_step(PowerOnStage::WaitDependency(1), 1, true, true, None, None),
        (PowerOnStage::AwaitOn, PowerOnAction::SendPowerOn)
    );
    assert_eq!(watched_server(PowerOnStage::AwaitOn, &s), Some("a".to_string()));
    assert_eq!(
        power_on_step(PowerOnStage::AwaitOn, 1, false, false, None, Some(PowerState::PendingOn)),
        (PowerOnStage::AwaitOn, PowerOnAction::Sleep)
    );
    assert_eq!(
        power_on_step(PowerOnStage::AwaitOn, 1, false, false, None, Some(PowerState::On)),
        (PowerOnStage::Done, PowerOnAction::Stop)
    );
    assert_eq!(
        power_on_step(PowerOnStage::AwaitOn, 1, false, false, None, Some(PowerState::PendingOff)),
        (PowerOnStage::Done, PowerOnAction::Stop)
    );
    assert!(power_timed_out(300_000_000_001, 300));
    assert!(!power_timed_out(300_000_000_000, 300));
}

#[test]
fn power_on_run_sends_once_after_each_dependency_is_up() {
    let inputs = [
        (false, false, Some(HealthStatus::Down)),
        (false, false, Some(HealthStatus::Up)),
        (false, false, Some(HealthStatus::Degraded)),
        (false, false, Some(HealthStatus::Up)),
        (false, false, None),
        (false, false, None),
    ];
    let mut stage = PowerOnStage::WaitDependency(0);
    let mut actions = Vec::new();
    for (cancelled, timed_out, health) in inputs {
        let (next, action) = power_on_step(stage, 2, cancelled, timed_out, health, Some(PowerState::PendingOn));
        actions.push(action);
        stage = next;
    }
    assert_eq!(
        actions,
        vec![
            PowerOnAction::Sleep,
            PowerOnAction::Continue,
            PowerOnAction::Sleep,
            PowerOnAction::Continue,
            PowerOnAction::SendPowerOn,
            PowerOnAction::Sleep
        ]
    );
    assert_eq!(stage, PowerOnStage::AwaitOn);
}

#[test]
fn callers_follow_the_counter_through_requests() {
    let mut state = make_state(vec![make_server("a", vec!["b"]), make_server("b", vec![])]);
    let mut cmds = Vec::new();
    state.handle_power_on("a", "x", &mut cmds).unwrap();
    state.handle_power_on("a", "y", &mut cmds).unwrap();
    state.handle_power_on("b", "z", &mut cmds).unwrap();
    state.handle_power_off("a", "w", &mut cmds).unwrap();
    for id in ["a", "b"] {
        let row = row_of(&state, id);
        assert_eq!(row.counter as usize, row.callers.len());
    }
    assert_eq!(row_of(&state, "a").callers, vec!["y".to_string()]);
    assert_eq!(row_of(&state, "b").callers, vec!["dep:a".to_string(), "z".to_string()]);
}

#[test]
fn a_repeated_power_on_by_the_same_caller_changes_nothing() {
    let mut state = make_state(vec![make_server("a", vec!["b"]), make_server("b", vec![])]);
    let mut cmds = Vec::new();
    state.handle_power_on("a", "ha", &mut cmds).unwrap();
    let mut cmds = Vec::new();
    let st = state.handle_power_on("a", "ha", &mut cmds).unwrap();
    assert!(cmds.is_empty());
    assert_eq!(st.counter, 1);
    assert_eq!(counter_of(&state, "a"), 1);
    assert_eq!(counter_of(&state, "b"), 1);
    assert_eq!(row_of(&state, "a").callers, vec!["ha".to_string()]);
    state.handle_power_on("a", "other", &mut cmds).unwrap();
    assert_eq!(counter_of(&state, "a"), 2);
    assert_eq!(counter_of(&state, "b"), 2);
}

#[test]
fn power_off_by_the_same_caller_restores_counters_and_callers() {
    let mut state = make_state(vec![
        make_server("a", vec!["b", "c"]),
        make_server("b", vec!["c"]),
        make_server("c", vec![]),
    ]);
    let mut cmds = Vec::new();
    state.handle_power_on("b", "x", &mut cmds).unwrap();
    state.handle_power_on("c", "y", &mut cmds).unwrap();
    let before: Vec<(i32, Vec<String>)> = state.table.rows.iter().map(|r| (r.counter, r.callers.clone())).collect();
    state.handle_power_on("a", "z", &mut cmds).unwrap();
    state.handle_power_off("a", "z", &mut cmds).unwrap();
    let after: Vec<(i32, Vec<String>)> = state.table.rows.iter().map(|r| (r.counter, r.callers.clone())).collect();
    assert_eq!(before.len(), after.len());
    for ((c0, mut k0), (c1, mut k1)) in before.into_iter().zip(after) {
        assert_eq!(c0, c1);
        k0.sort();
        k1.sort();
        assert_eq!(k0, k1);
    }
}

#[test]
fn a_cancelled_power_on_settles_by_health() {
    let mut state = make_state(vec![make_server("a", vec![]), make_server("b", vec![])]);
    let mut cmds = Vec::new();
    state.handle_power_on("a", "x", &mut cmds).unwrap();
    state.handle_power_on("b", "x", &mut cmds).unwrap();
    state.table.rows[1].status = HealthStatus::Up;
    let mut cmds = Vec::new();
    state.settle_cancelled("a", &mut cmds);
    state.settle_cancelled("b", &mut cmds);
    assert_eq!(row_of(&state, "a").power_state, PowerState::Off);
    assert_eq!(row_of(&state, "b").power_state, PowerState::On);
    assert_eq!(cmds.len(), 4);
    let mut cmds = Vec::new();
    state.settle_cancelled("b", &mut cmds);
    assert!(cmds.is_empty());
    assert_eq!(row_of(&state, "b").power_state, PowerState::On);
}
