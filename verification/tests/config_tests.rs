use servmgr::config::{detect_cycles, power_tasks_to_cancel, validate_config};
use servmgr::graph::has_cycle;
use servmgr::types::{AppConfig, HealthCheckConfig, HealthCheckType, PowerOffMethod, PowerOnMethod, ServerConfig};

fn make_server(id: &str, deps: Vec<&str>) -> ServerConfig {
    ServerConfig {
        id: id.to_string(),
        name: id.to_string(),
        hostname: format!("{id}.local"),
        power_on: PowerOnMethod::Wol,
        mac: Some("aa:bb:cc:dd:ee:ff".to_string()),
        wol_broadcast: None,
        power_off: PowerOffMethod::Ssh,
        ssh_user: Some("user".to_string()),
        ssh_key_path: Some("/key".to_string()),
        ssh_password: None,
        ssh_shutdown_cmd: None,
        ipmi_ip: None,
        ipmi_user: None,
        ipmi_password: None,
        depends_on: deps.into_iter().map(String::from).collect(),
        health_checks: vec![],
        check_interval_secs: 30,
        power_timeout_secs: 300,
    }
}

#[test]
fn test_no_cycles() {
    let servers = vec![
        make_server("a", vec!["b"]),
        make_server("b", vec!["c"]),
        make_server("c", vec![]),
    ];
    let errors = detect_cycles(&servers);
    assert!(errors.is_empty());
}

#[test]
fn test_direct_cycle() {
    let servers = vec![make_server("a", vec!["b"]), make_server("b", vec!["a"])];
    let errors = detect_cycles(&servers);
    assert!(!errors.is_empty());
    assert!(errors.contains_key("a") || errors.contains_key("b"));
}

#[test]
fn test_three_node_cycle() {
    let servers = vec![
        make_server("a", vec!["b"]),
        make_server("b", vec!["c"]),
        make_server("c", vec!["a"]),
    ];
    let errors = detect_cycles(&servers);
    assert!(!errors.is_empty());
}

#[test]
fn test_self_cycle() {
    let servers = vec![make_server("a", vec!["a"])];
    let errors = detect_cycles(&servers);
    assert!(errors.contains_key("a"));
}

#[test]
fn test_nonexistent_dep_ignored() {
    let servers = vec![make_server("a", vec!["nonexistent"])];
    let errors = detect_cycles(&servers);
    assert!(errors.is_empty());
}

#[test]
fn cycle_messages_name_the_cycle_found() {
    let servers = vec![make_server("a", vec!["a"])];
    let errors = detect_cycles(&servers);
    assert_eq!(errors.get("a"), Some("Cycle detected: a \u{2192} a".to_string()));

    let servers = vec![make_server("nas", vec!["homeserver"]), make_server("homeserver", vec!["nas"])];
    let errors = detect_cycles(&servers);
    assert_eq!(errors.get("nas"), Some("Cycle detected: nas \u{2192} homeserver \u{2192} nas".to_string()));
    assert_eq!(errors.get("homeserver"), Some("Cycle detected: homeserver \u{2192} nas \u{2192} homeserver".to_string()));

    let servers = vec![
        make_server("a", vec!["b"]),
        make_server("b", vec!["c"]),
        make_server("c", vec!["a"]),
    ];
    let errors = detect_cycles(&servers);
    assert_eq!(errors.get("a"), Some("Cycle detected: a \u{2192} b \u{2192} c \u{2192} a".to_string()));
    assert_eq!(errors.get("c"), Some("Cycle detected: c \u{2192} a \u{2192} b \u{2192} c".to_string()));

    // s is not on the cycle it leads into: the message names that cycle.
    let servers = vec![
        make_server("s", vec!["c"]),
        make_server("c", vec!["d"]),
        make_server("d", vec!["c"]),
    ];
    let errors = detect_cycles(&servers);
    assert_eq!(errors.get("s"), Some("Cycle detected: c \u{2192} d \u{2192} c".to_string()));
}

#[test]
fn a_reload_cancels_only_sequences_whose_dependencies_changed() {
    let old = vec![make_server("a", vec!["b"]), make_server("b", vec![]), make_server("c", vec!["b"])];
    let new = vec![make_server("a", vec!["b", "c"]), make_server("b", vec![]), make_server("d", vec![])];
    let running = vec!["a".to_string(), "b".to_string(), "c".to_string(), "d".to_string(), "e".to_string()];
    assert_eq!(
        power_tasks_to_cancel(&old, &new, &running),
        vec!["a".to_string(), "c".to_string(), "d".to_string()]
    );
}

#[test]
fn a_server_leading_into_a_cycle_through_its_first_dependency_is_flagged() {
    // s depends on c, which lies on the cycle c -> d -> c
    let servers = vec![
        make_server("s", vec!["c"]),
        make_server("c", vec!["d"]),
        make_server("d", vec!["c"]),
    ];
    let errors = detect_cycles(&servers);
    assert!(errors.contains_key("s"));
    assert!(errors.contains_key("c"));
    assert!(errors.contains_key("d"));
}

#[test]
fn a_cycle_already_explored_through_an_earlier_dependency_is_not_reported_again() {
    // s -> [c1, c2], c1 -> c2, c2 <-> c3: the search from c1 marks c2 and c3
    // without finding an edge back to c1, so c2 is skipped afterwards.
    let servers = vec![
        make_server("s", vec!["c1", "c2"]),
        make_server("c1", vec!["c2"]),
        make_server("c2", vec!["c3"]),
        make_server("c3", vec!["c2"]),
    ];
    let errors = detect_cycles(&servers);
    assert!(!errors.contains_key("s"));
    assert!(errors.contains_key("c1"));
    assert!(errors.contains_key("c2"));
    assert!(errors.contains_key("c3"));
}

#[test]
fn validate_config_keeps_servers_and_flags_cycles() {
    let mut a = make_server("a", vec!["a"]);
    a.health_checks.push(HealthCheckConfig {
        check_type: HealthCheckType::Tcp,
        url: None,
        port: Some(445),
        label: Some("smb".to_string()),
    });
    let config = AppConfig { servers: vec![a, make_server("b", vec![])] };
    let validated = validate_config(&config);
    assert_eq!(validated.servers.len(), 2);
    assert_eq!(validated.servers[0].id, "a");
    assert_eq!(validated.servers[0].health_checks[0].port, Some(445));
    assert_eq!(validated.servers[0].health_checks[0].label, Some("smb".to_string()));
    assert_eq!(validated.servers[1].depends_on.len(), 0);
    assert!(validated.cycle_errors.contains_key("a"));
    assert!(!validated.cycle_errors.contains_key("b"));
    assert_eq!(validated.cycle_errors.get("b"), None);
}

#[test]
fn default_config_has_no_servers() {
    let config = AppConfig::default();
    assert!(config.servers.is_empty());
    assert_eq!(servmgr::types::default_check_interval(), 30);
    assert_eq!(servmgr::types::default_power_timeout(), 300);
}

#[test]
fn validation_reports_the_same_errors_as_detection() {
    let servers = vec![
        make_server("a", vec!["b"]),
        make_server("b", vec!["c"]),
        make_server("c", vec!["b"]),
        make_server("d", vec![]),
    ];
    let errors = detect_cycles(&servers);
    let validated = validate_config(&AppConfig { servers: servers.clone() });
    for id in ["a", "b", "c", "d"] {
        assert_eq!(validated.cycle_errors.get(id), errors.get(id));
    }
    assert_eq!(errors.get("a"), Some("Cycle detected: b \u{2192} c \u{2192} b".to_string()));
    assert_eq!(errors.get("d"), None);
}

#[test]
fn the_search_continues_a_path_and_keeps_earlier_marks() {
    // 0 -> 1 -> 2 -> 0, and 3 -> 1
    let adj: Vec<Vec<usize>> = vec![vec![1], vec![2], vec![0], vec![1]];
    // a fresh search from 3 finds the cycle through its dependency 1
    let mut visited = vec![false; 4];
    let mut path = Vec::new();
    assert!(has_cycle(&adj, 3, &mut visited, &mut path));
    assert_eq!(path, vec![1, 2, 0, 1]);
    // with 1 already marked, the search from 3 skips it
    let mut visited = vec![false, true, false, false];
    let mut path = Vec::new();
    assert!(!has_cycle(&adj, 3, &mut visited, &mut path));
    assert!(path.is_empty());
    assert_eq!(visited, vec![false, true, false, false]);
    // continuing the path [0, 1] from node 1 finds the edge back to 0
    let mut visited = vec![true, true, false, false];
    let mut path = vec![0, 1];
    assert!(has_cycle(&adj, 1, &mut visited, &mut path));
    assert_eq!(path, vec![0, 1, 2, 0]);
    assert_eq!(visited, vec![true, true, true, false]);
}
