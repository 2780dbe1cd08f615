use servmgr::power::{
    combined_output, ipmi_args, ipmi_reports_power_on, magic_packet, parse_mac, ssh_shutdown_command, wol_failure,
    wol_targets,
};
use servmgr::types::{PowerOffMethod, PowerOnMethod, ServerConfig};

#[test]
fn test_parse_mac_valid() {
    let result = parse_mac("aa:bb:cc:dd:ee:ff");
    assert_eq!(result.unwrap(), [0xaa, 0xbb, 0xcc, 0xdd, 0xee, 0xff]);
}

#[test]
fn test_parse_mac_invalid() {
    assert!(parse_mac("invalid").is_err());
    assert!(parse_mac("aa:bb:cc:dd:ee").is_err());
    assert!(parse_mac("gg:bb:cc:dd:ee:ff").is_err());
}

#[test]
fn parse_mac_errors_name_the_problem() {
    assert_eq!(parse_mac("aa:bb:cc:dd:ee"), Err("Invalid MAC address: aa:bb:cc:dd:ee".to_string()));
    assert_eq!(parse_mac("gg:bb:cc:dd:ee:ff"), Err("Invalid MAC address byte: gg".to_string()));
    assert_eq!(parse_mac("aa:bb::dd:ee:ff"), Err("Invalid MAC address byte: ".to_string()));
    assert_eq!(parse_mac("aa:bb:100:dd:ee:ff"), Err("Invalid MAC address byte: 100".to_string()));
}

#[test]
fn parse_mac_reads_bytes_as_from_str_radix_does() {
    assert_eq!(parse_mac("AA:0b:+c:00ff:1:2"), Ok([0xaa, 0x0b, 0x0c, 0xff, 0x01, 0x02]));
    assert!(parse_mac("+:bb:cc:dd:ee:ff").is_err());
}

#[test]
fn magic_packet_is_six_ff_then_sixteen_macs() {
    let mac = [1u8, 2, 3, 4, 5, 6];
    let packet = magic_packet(&mac);
    assert_eq!(packet.len(), 102);
    assert_eq!(&packet[..6], &[0xff; 6]);
    for r in 0..16 {
        assert_eq!(&packet[6 + 6 * r..12 + 6 * r], &mac);
    }
}

#[test]
fn wol_targets_add_the_directed_broadcast() {
    assert_eq!(wol_targets(&None), vec!["255.255.255.255:9".to_string()]);
    assert_eq!(
        wol_targets(&Some("192.168.1.255".to_string())),
        vec!["255.255.255.255:9".to_string(), "192.168.1.255:9".to_string()]
    );
    assert_eq!(
        wol_targets(&Some("10.0.0.255:7".to_string())),
        vec!["255.255.255.255:9".to_string(), "10.0.0.255:7".to_string()]
    );
    assert_eq!(wol_targets(&Some("255.255.255.255".to_string())), vec!["255.255.255.255:9".to_string()]);
}

#[test]
fn wol_fails_only_when_its_single_target_failed() {
    assert_eq!(wol_failure(&vec![Some("boom".to_string())]), Some("boom".to_string()));
    assert_eq!(wol_failure(&vec![None]), None);
    assert_eq!(wol_failure(&vec![Some("a".to_string()), Some("b".to_string())]), None);
    assert_eq!(wol_failure(&vec![]), None);
}

fn server() -> ServerConfig {
    ServerConfig {
        id: "nas".to_string(),
        name: "NAS".to_string(),
        hostname: "nas.local".to_string(),
        power_on: PowerOnMethod::Ipmi,
        mac: None,
        wol_broadcast: None,
        power_off: PowerOffMethod::Ssh,
        ssh_user: None,
        ssh_key_path: Some("/config/id_rsa".to_string()),
        ssh_password: None,
        ssh_shutdown_cmd: None,
        ipmi_ip: Some("10.0.0.9".to_string()),
        ipmi_user: None,
        ipmi_password: Some("pw".to_string()),
        depends_on: vec![],
        health_checks: vec![],
        check_interval_secs: 30,
        power_timeout_secs: 300,
    }
}

#[test]
fn ipmi_arguments_use_defaults() {
    let args = ipmi_args(&server(), "status");
    let expected: Vec<String> = ["-I", "lanplus", "-H", "10.0.0.9", "-U", "admin", "-P", "pw", "chassis", "power", "status"]
        .iter()
        .map(|s| s.to_string())
        .collect();
    assert_eq!(args, expected);
}

#[test]
fn ipmi_status_output_is_read() {
    assert!(ipmi_reports_power_on(b"Chassis Power is on\n"));
    assert!(!ipmi_reports_power_on(b"Chassis Power is off\n"));
    assert!(!ipmi_reports_power_on(b""));
}

#[test]
fn combined_output_trims_and_joins() {
    assert_eq!(combined_output(b"  out \n", b"\terr\n"), "out\nerr");
    assert_eq!(combined_output(b"out", b"   "), "out");
    assert_eq!(combined_output(b"", b" err"), "err");
    assert_eq!(combined_output(b"", b""), "");
    assert_eq!(combined_output(&[0x66, 0xff], b""), "f\u{fffd}");
}

#[test]
fn ssh_shutdown_with_key() {
    let c = ssh_shutdown_command(&server());
    assert_eq!(c.program, "ssh");
    let expected: Vec<String> = [
        "-o",
        "StrictHostKeyChecking=no",
        "-o",
        "ConnectTimeout=10",
        "-i",
        "/config/id_rsa",
        "root@nas.local",
        "sudo shutdown -h now",
    ]
    .iter()
    .map(|s| s.to_string())
    .collect();
    assert_eq!(c.args, expected);
}

#[test]
fn ssh_shutdown_with_password_pipes_it_into_sudo() {
    let mut s = server();
    s.ssh_user = Some("admin".to_string());
    s.ssh_password = Some("it's".to_string());
    s.ssh_shutdown_cmd = Some("sudo poweroff".to_string());
    let c = ssh_shutdown_command(&s);
    assert_eq!(c.program, "sshpass");
    let expected: Vec<String> = [
        "-p",
        "it's",
        "ssh",
        "-o",
        "StrictHostKeyChecking=no",
        "-o",
        "ConnectTimeout=10",
        "admin@nas.local",
        "echo 'it'\\''s' | sudo -S poweroff",
    ]
    .iter()
    .map(|s| s.to_string())
    .collect();
    assert_eq!(c.args, expected);

    s.ssh_shutdown_cmd = Some("sudo -S halt".to_string());
    let c = ssh_shutdown_command(&s);
    assert_eq!(c.args.last().unwrap(), "sudo -S halt");
    s.ssh_shutdown_cmd = Some("poweroff".to_string());
    let c = ssh_shutdown_command(&s);
    assert_eq!(c.args.last().unwrap(), "poweroff");
}

#[test]
fn output_is_trimmed_of_unicode_whitespace() {
    let out = "\u{a0}\t powered on \u{3000}\n".as_bytes();
    let err = " \u{2028}".as_bytes();
    assert_eq!(combined_output(out, err), "powered on");
    assert_eq!(combined_output(b"  ", b" e r "), "e r");
}
