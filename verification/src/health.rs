//! Health checks: which probes a server gets, how a probe's outcome is
//! recorded, and the overall status of a round of checks.

use vstd::prelude::*;
use crate::types::{
    CheckResult, HealthCheckConfig, HealthCheckType, HealthStatus, PowerOffMethod, PowerOnMethod,
    ServerConfig,
};

verus! {

/// The number of passing checks.
pub open spec fn passing(checks: Seq<CheckResult>) -> nat
    decreases checks.len(),
{
    if checks.len() == 0 {
        0
    } else {
        passing(checks.drop_last()) + if checks.last().ok { 1nat } else { 0nat }
    }
}

/// Up when every check passes, degraded when some do, down when none does
/// (or there is none).
pub open spec fn status_of(checks: Seq<CheckResult>) -> HealthStatus {
    if checks.len() == 0 {
        HealthStatus::Down
    } else if passing(checks) == checks.len() {
        HealthStatus::Up
    } else if passing(checks) > 0 {
        HealthStatus::Degraded
    } else {
        HealthStatus::Down
    }
}

proof fn lemma_passing_bound(checks: Seq<CheckResult>)
    ensures
        passing(checks) <= checks.len(),
    decreases checks.len(),
{
    if checks.len() > 0 {
        lemma_passing_bound(checks.drop_last());
    }
}

pub fn compute_status(checks: &[CheckResult]) -> (res: HealthStatus)
    ensures
        res == status_of(checks@),
{
    if checks.len() == 0 {
        return HealthStatus::Down;
    }
    let n = checks.len();
    let mut count: usize = 0;
    let mut i: usize = 0;
    while i < n
        invariant
            n == checks@.len(),
            i <= n,
            count == passing(checks@.take(i as int)),
            count <= i,
        decreases n - i,
    {
        assert(checks@.take(i + 1).drop_last() =~= checks@.take(i as int));
        if checks[i].ok {
            count += 1;
        }
        i += 1;
    }
    assert(checks@.take(n as int) =~= checks@);
    if count == n {
        HealthStatus::Up
    } else if count > 0 {
        HealthStatus::Degraded
    } else {
        HealthStatus::Down
    }
}

/// One probe to run against a server.
#[derive(Debug)]
pub enum Probe {
    /// ICMP echo to the host.
    Ping { host: String },
    /// HTTP GET of the URL; a 2xx answer passes.
    Http { url: String },
    /// TCP connection to the host and port.
    Tcp { host: String, port: u16 },
    /// IPMI chassis power status of the server's BMC.
    IpmiPower,
}

/// A probe with the label of the configured check it comes from.
#[derive(Debug)]
pub struct PlannedCheck {
    pub probe: Probe,
    pub label: Option<String>,
}

/// The probe that a configured check stands for on a host: an HTTP check
/// without URL gets the empty URL, a TCP check without port gets port 80,
/// an SSH check is a TCP connection to port 22.
pub open spec fn probe_matches(p: Probe, check: HealthCheckConfig, host: String) -> bool {
    match check.check_type {
        HealthCheckType::Ping => p matches Probe::Ping { host: h } && h == host,
        HealthCheckType::Http => p matches Probe::Http { url } && url@ == match check.url {
            Some(u) => u@,
            None => Seq::<char>::empty(),
        },
        HealthCheckType::Tcp => p matches Probe::Tcp { host: h, port } && h == host && port == match check.port {
            Some(q) => q,
            None => 80u16,
        },
        HealthCheckType::Ssh => p matches Probe::Tcp { host: h, port } && h == host && port == 22,
        HealthCheckType::IpmiPower => p matches Probe::IpmiPower,
    }
}

/// The server is powered on or off through IPMI.
pub open spec fn uses_ipmi(server: ServerConfig) -> bool {
    server.power_on == PowerOnMethod::Ipmi || server.power_off == PowerOffMethod::Ipmi
}

/// The server has a configured IPMI power check.
pub open spec fn has_ipmi_check(server: ServerConfig) -> bool {
    exists|k: int| 0 <= k < server.health_checks@.len() && #[trigger] server.health_checks@[k].check_type == HealthCheckType::IpmiPower
}

fn copy_opt(s: &Option<String>) -> (res: Option<String>)
    ensures
        res == *s,
{
    match s {
        Some(x) => Some(x.clone()),
        None => None,
    }
}

fn probe_for(check: &HealthCheckConfig, host: &String) -> (p: Probe)
    ensures
        probe_matches(p, *check, *host),
{
    match check.check_type {
        HealthCheckType::Ping => Probe::Ping { host: host.clone() },
        HealthCheckType::Http => Probe::Http {
            url: match &check.url {
                Some(u) => u.clone(),
                None => String::new(),
            },
        },
        HealthCheckType::Tcp => Probe::Tcp {
            host: host.clone(),
            port: match check.port {
                Some(q) => q,
                None => 80,
            },
        },
        HealthCheckType::Ssh => Probe::Tcp { host: host.clone(), port: 22 },
        HealthCheckType::IpmiPower => Probe::IpmiPower,
    }
}

/// The probes of one round of health checks of a server: one per
/// configured check, in order, then an IPMI power check when the server is
/// powered through IPMI and has none configured.
pub fn plan_checks(server: &ServerConfig) -> (plan: Vec<PlannedCheck>)
    ensures
        plan@.len() == server.health_checks@.len() + if uses_ipmi(*server) && !has_ipmi_check(*server) { 1int } else { 0int },
        forall|k: int| 0 <= k < server.health_checks@.len() ==> {
            &&& probe_matches(#[trigger] plan@[k].probe, server.health_checks@[k], server.hostname)
            &&& plan@[k].label == server.health_checks@[k].label
        },
        uses_ipmi(*server) && !has_ipmi_check(*server) ==> {
            let last = plan@[plan@.len() - 1];
            last.probe matches Probe::IpmiPower && last.label is None
        },
{
    let mut plan: Vec<PlannedCheck> = Vec::new();
    let n = server.health_checks.len();
    let mut has_ipmi = false;
    let mut i: usize = 0;
    while i < n
        invariant
            n == server.health_checks@.len(),
            i <= n,
            plan@.len() == i,
            forall|k: int| 0 <= k < i ==> {
                &&& probe_matches(#[trigger] plan@[k].probe, server.health_checks@[k], server.hostname)
                &&& plan@[k].label == server.health_checks@[k].label
            },
            has_ipmi == exists|k: int| 0 <= k < i && #[trigger] server.health_checks@[k].check_type == HealthCheckType::IpmiPower,
        decreases n - i,
    {
        let check = &server.health_checks[i];
        if check.check_type == HealthCheckType::IpmiPower {
            has_ipmi = true;
        }
        plan.push(PlannedCheck { probe: probe_for(check, &server.hostname), label: copy_opt(&check.label) });
        i += 1;
    }
    let uses = server.power_on == PowerOnMethod::Ipmi || server.power_off == PowerOffMethod::Ipmi;
    if uses && !has_ipmi {
        plan.push(PlannedCheck { probe: Probe::IpmiPower, label: None });
    }
    plan
}

/// The kind under which a probe's outcome is recorded: a TCP probe of port
/// 22 is an SSH check.
pub open spec fn recorded_type(p: Probe) -> HealthCheckType {
    match p {
        Probe::Ping { .. } => HealthCheckType::Ping,
        Probe::Http { .. } => HealthCheckType::Http,
        Probe::Tcp { port, .. } => if port == 22 { HealthCheckType::Ssh } else { HealthCheckType::Tcp },
        Probe::IpmiPower => HealthCheckType::IpmiPower,
    }
}

/// The result recorded for a probe that passed or not (`ok`) in
/// `latency_ms` milliseconds; TCP probes record their port.
pub fn check_result(check: &PlannedCheck, ok: bool, latency_ms: u64) -> (res: CheckResult)
    ensures
        res.check_type == recorded_type(check.probe),
        res.ok == ok,
        res.latency_ms == Some(latency_ms),
        res.port == match check.probe {
            Probe::Tcp { port, .. } => Some(port),
            _ => None,
        },
        res.label == check.label,
{
    let (check_type, port) = match &check.probe {
        Probe::Ping { .. } => (HealthCheckType::Ping, None),
        Probe::Http { .. } => (HealthCheckType::Http, None),
        Probe::Tcp { port, .. } => (if *port == 22 { HealthCheckType::Ssh } else { HealthCheckType::Tcp }, Some(*port)),
        Probe::IpmiPower => (HealthCheckType::IpmiPower, None),
    };
    CheckResult { check_type, ok, latency_ms: Some(latency_ms), port, label: copy_opt(&check.label) }
}

} // verus!
