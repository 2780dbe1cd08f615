use servmgr::db::{callers_from_json, callers_to_json, ServerRow};
use servmgr::health::{check_result, compute_status, plan_checks, PlannedCheck, Probe};
use servmgr::types::{
    compute_display_status, display_status_from_str, display_status_str, CheckResult, HealthCheckConfig, HealthCheckType,
    HealthStatus, PowerOffMethod, PowerOnMethod, PowerState, ServerConfig, ServerStatus,
};

#[test]
fn power_state_text_round_trips() {
    for p in [PowerState::Off, PowerState::PendingOn, PowerState::On, PowerState::PendingOff, PowerState::Failed] {
        assert_eq!(PowerState::from_str(p.as_str()), Some(p));
    }
    assert_eq!(PowerState::PendingOff.as_str(), "pending_off");
    assert_eq!(PowerState::from_str("bogus"), None);
}

#[test]
fn health_status_text_round_trips() {
    for h in [HealthStatus::Up, HealthStatus::Degraded, HealthStatus::Down] {
        assert_eq!(HealthStatus::from_str(h.as_str()), h);
    }
    assert_eq!(HealthStatus::from_str("weird"), HealthStatus::Down);
}

#[test]
fn display_status_follows_counter_health_and_transition() {
    assert_eq!(compute_display_status(PowerState::Off, 0, HealthStatus::Down), ServerStatus::Off);
    assert_eq!(compute_display_status(PowerState::On, 2, HealthStatus::Up), ServerStatus::On);
    assert_eq!(compute_display_status(PowerState::PendingOff, 0, HealthStatus::Up), ServerStatus::TurningOff);
    assert_eq!(compute_display_status(PowerState::On, 0, HealthStatus::Degraded), ServerStatus::Degraded);
    assert_eq!(compute_display_status(PowerState::PendingOn, 1, HealthStatus::Down), ServerStatus::TurningOn);
    assert_eq!(compute_display_status(PowerState::Failed, 1, HealthStatus::Down), ServerStatus::Degraded);
    assert_eq!(display_status_str(PowerState::PendingOn, 1, HealthStatus::Degraded), "turning_on");
}

#[test]
fn display_status_history_round_trips() {
    for (p, c, h) in [
        (PowerState::Off, 0, HealthStatus::Down),
        (PowerState::On, 1, HealthStatus::Up),
        (PowerState::PendingOn, 1, HealthStatus::Down),
        (PowerState::PendingOff, 0, HealthStatus::Up),
        (PowerState::On, 0, HealthStatus::Degraded),
    ] {
        assert_eq!(display_status_from_str(display_status_str(p, c, h)), compute_display_status(p, c, h));
    }
    assert_eq!(display_status_from_str("up"), ServerStatus::On);
    assert_eq!(display_status_from_str("down"), ServerStatus::Off);
}

fn result(ok: bool) -> CheckResult {
    CheckResult { check_type: HealthCheckType::Ping, ok, latency_ms: None, port: None, label: None }
}

#[test]
fn status_of_a_round_of_checks() {
    assert_eq!(compute_status(&[]), HealthStatus::Down);
    assert_eq!(compute_status(&[result(true), result(true)]), HealthStatus::Up);
    assert_eq!(compute_status(&[result(true), result(false)]), HealthStatus::Degraded);
    assert_eq!(compute_status(&[result(false), result(false)]), HealthStatus::Down);
}

fn server(checks: Vec<HealthCheckConfig>, on: PowerOnMethod) -> ServerConfig {
    ServerConfig {
        id: "s".to_string(),
        name: "S".to_string(),
        hostname: "s.local".to_string(),
        power_on: on,
        mac: None,
        wol_broadcast: None,
        power_off: PowerOffMethod::Ssh,
        ssh_user: None,
        ssh_key_path: None,
        ssh_password: None,
        ssh_shutdown_cmd: None,
        ipmi_ip: None,
        ipmi_user: None,
        ipmi_password: None,
        depends_on: vec![],
        health_checks: checks,
        check_interval_secs: 30,
        power_timeout_secs: 300,
    }
}

fn check(t: HealthCheckType, port: Option<u16>) -> HealthCheckConfig {
    HealthCheckConfig { check_type: t, url: None, port, label: None }
}

#[test]
fn planned_probes_follow_the_configuration() {
    let s = server(
        vec![check(HealthCheckType::Ping, None), check(HealthCheckType::Tcp, None), check(HealthCheckType::Ssh, None), check(HealthCheckType::Http, None)],
        PowerOnMethod::Ipmi,
    );
    let plan = plan_checks(&s);
    assert_eq!(plan.len(), 5);
    assert!(matches!(&plan[0].probe, Probe::Ping { host } if host == "s.local"));
    assert!(matches!(&plan[1].probe, Probe::Tcp { port: 80, .. }));
    assert!(matches!(&plan[2].probe, Probe::Tcp { port: 22, .. }));
    assert!(matches!(&plan[3].probe, Probe::Http { url } if url.is_empty()));
    assert!(matches!(&plan[4].probe, Probe::IpmiPower));

    let s = server(vec![check(HealthCheckType::IpmiPower, None)], PowerOnMethod::Ipmi);
    assert_eq!(plan_checks(&s).len(), 1);
    let s = server(vec![], PowerOnMethod::Wol);
    assert_eq!(plan_checks(&s).len(), 0);
}

#[test]
fn tcp_probes_on_port_22_are_recorded_as_ssh() {
    let c = PlannedCheck { probe: Probe::Tcp { host: "h".to_string(), port: 22 }, label: Some("x".to_string()) };
    let r = check_result(&c, true, 5);
    assert_eq!(r.check_type, HealthCheckType::Ssh);
    assert_eq!(r.port, Some(22));
    assert_eq!(r.latency_ms, Some(5));
    assert_eq!(r.label, Some("x".to_string()));
    let c = PlannedCheck { probe: Probe::Tcp { host: "h".to_string(), port: 445 }, label: None };
    assert_eq!(check_result(&c, false, 1).check_type, HealthCheckType::Tcp);
}

#[test]
fn callers_are_stored_as_json() {
    let callers = vec!["a".to_string(), "dep:x:\"q\"".to_string()];
    let text = callers_to_json(&callers);
    assert_eq!(text, "[\"a\",\"dep:x:\\\"q\\\"\"]");
    assert_eq!(callers_from_json(&text), callers);
    assert!(callers_from_json("not json").is_empty());
    assert_eq!(callers_to_json(&vec![]), "[]");
}

#[test]
fn rows_read_from_columns() {
    let row = ServerRow::from_columns(
        "a".to_string(),
        "pending_on",
        3,
        "[\"x\"]",
        "degraded",
        vec![],
        None,
        Some("err".to_string()),
    );
    assert_eq!(row.power_state, PowerState::PendingOn);
    assert_eq!(row.counter, 3);
    assert_eq!(row.callers, vec!["x".to_string()]);
    assert_eq!(row.status, HealthStatus::Degraded);
    let row = ServerRow::from_columns("b".to_string(), "??", 0, "{", "??", vec![], None, None);
    assert_eq!(row.power_state, PowerState::Off);
    assert_eq!(row.status, HealthStatus::Down);
    assert!(row.callers.is_empty());
}
