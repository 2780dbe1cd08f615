//! The configuration model, the persisted power/health states and the
//! display status that the dashboard shows.

use vstd::prelude::*;
use crate::text::str_eq;

verus! {

/// How a server is woken up.
#[derive(Debug, Clone, Copy, PartialEq, Eq, Structural)]
pub enum PowerOnMethod {
    Wol,
    Ipmi,
}

/// How a server is shut down.
#[derive(Debug, Clone, Copy, PartialEq, Eq, Structural)]
pub enum PowerOffMethod {
    Ssh,
    Ipmi,
}

/// The kinds of health probes a server can be configured with.
#[derive(Debug, Clone, Copy, PartialEq, Eq, Structural)]
pub enum HealthCheckType {
    Ping,
    Http,
    Tcp,
    Ssh,
    IpmiPower,
}

/// One configured health probe.
#[derive(Debug, Clone)]
pub struct HealthCheckConfig {
    pub check_type: HealthCheckType,
    pub url: Option<String>,
    pub port: Option<u16>,
    pub label: Option<String>,
}

/// One managed server, as written in the configuration file.
#[derive(Debug, Clone)]
pub struct ServerConfig {
    pub id: String,
    pub name: String,
    pub hostname: String,
    pub power_on: PowerOnMethod,
    pub mac: Option<String>,
    pub wol_broadcast: Option<String>,
    pub power_off: PowerOffMethod,
    pub ssh_user: Option<String>,
    pub ssh_key_path: Option<String>,
    pub ssh_password: Option<String>,
    pub ssh_shutdown_cmd: Option<String>,
    pub ipmi_ip: Option<String>,
    pub ipmi_user: Option<String>,
    pub ipmi_password: Option<String>,
    pub depends_on: Vec<String>,
    pub health_checks: Vec<HealthCheckConfig>,
    pub check_interval_secs: u64,
    pub power_timeout_secs: u64,
}

/// Seconds between two health checks when the configuration says nothing.
pub fn default_check_interval() -> (r: u64)
    ensures
        r == 30,
{
    30
}

/// Seconds a power transition may take when the configuration says nothing.
pub fn default_power_timeout() -> (r: u64)
    ensures
        r == 300,
{
    300
}

/// The whole configuration file.
#[derive(Debug, Clone)]
pub struct AppConfig {
    pub servers: Vec<ServerConfig>,
}

impl Default for AppConfig {
    /// The configuration written on first start: no servers.
    fn default() -> (res: Self)
        ensures
            res.servers@.len() == 0,
    {
        AppConfig { servers: Vec::new() }
    }
}

/// The persisted power state of a server.
#[derive(Debug, Clone, Copy, PartialEq, Eq, Structural)]
pub enum PowerState {
    Off,
    PendingOn,
    On,
    PendingOff,
    Failed,
}

/// The text under which a power state is stored.
pub open spec fn power_state_name(p: PowerState) -> Seq<char> {
    match p {
        PowerState::Off => "off"@,
        PowerState::PendingOn => "pending_on"@,
        PowerState::On => "on"@,
        PowerState::PendingOff => "pending_off"@,
        PowerState::Failed => "failed"@,
    }
}

/// The power state stored under a text, if any.
pub open spec fn power_state_from_name(s: Seq<char>) -> Option<PowerState> {
    if s == "off"@ {
        Some(PowerState::Off)
    } else if s == "pending_on"@ {
        Some(PowerState::PendingOn)
    } else if s == "on"@ {
        Some(PowerState::On)
    } else if s == "pending_off"@ {
        Some(PowerState::PendingOff)
    } else if s == "failed"@ {
        Some(PowerState::Failed)
    } else {
        None
    }
}

impl PowerState {
    pub fn as_str(&self) -> (res: &'static str)
        ensures
            res@ == power_state_name(*self),
    {
        match self {
            PowerState::Off => "off",
            PowerState::PendingOn => "pending_on",
            PowerState::On => "on",
            PowerState::PendingOff => "pending_off",
            PowerState::Failed => "failed",
        }
    }

    pub fn from_str(s: &str) -> (res: Option<Self>)
        ensures
            res == power_state_from_name(s@),
    {
        if str_eq(s, "off") {
            Some(PowerState::Off)
        } else if str_eq(s, "pending_on") {
            Some(PowerState::PendingOn)
        } else if str_eq(s, "on") {
            Some(PowerState::On)
        } else if str_eq(s, "pending_off") {
            Some(PowerState::PendingOff)
        } else if str_eq(s, "failed") {
            Some(PowerState::Failed)
        } else {
            None
        }
    }
}

/// Health derived from the results of the checks of one round.
#[derive(Debug, Clone, Copy, PartialEq, Eq, Structural)]
pub enum HealthStatus {
    Up,
    Degraded,
    Down,
}

/// The text under which a health status is stored.
pub open spec fn health_status_name(h: HealthStatus) -> Seq<char> {
    match h {
        HealthStatus::Up => "up"@,
        HealthStatus::Degraded => "degraded"@,
        HealthStatus::Down => "down"@,
    }
}

/// The health status read back from a text: anything unknown is `Down`.
pub open spec fn health_status_from_name(s: Seq<char>) -> HealthStatus {
    if s == "up"@ {
        HealthStatus::Up
    } else if s == "degraded"@ {
        HealthStatus::Degraded
    } else {
        HealthStatus::Down
    }
}

impl HealthStatus {
    pub fn as_str(self) -> (res: &'static str)
        ensures
            res@ == health_status_name(self),
    {
        match self {
            HealthStatus::Up => "up",
            HealthStatus::Degraded => "degraded",
            HealthStatus::Down => "down",
        }
    }

    pub fn from_str(s: &str) -> (res: Self)
        ensures
            res == health_status_from_name(s@),
    {
        if str_eq(s, "up") {
            HealthStatus::Up
        } else if str_eq(s, "degraded") {
            HealthStatus::Degraded
        } else {
            HealthStatus::Down
        }
    }
}

/// The status the dashboard shows for a server.
#[derive(Debug, Clone, Copy, PartialEq, Eq, Structural)]
pub enum ServerStatus {
    Off,
    On,
    TurningOn,
    TurningOff,
    Degraded,
}

/// The display status of a server from its power state, counter and health.
pub open spec fn display_status(power_state: PowerState, counter: int, health: HealthStatus) -> ServerStatus {
    if counter == 0 && health == HealthStatus::Down {
        ServerStatus::Off
    } else if counter > 0 && health == HealthStatus::Up {
        ServerStatus::On
    } else if counter == 0 {
        if power_state == PowerState::PendingOff {
            ServerStatus::TurningOff
        } else {
            ServerStatus::Degraded
        }
    } else if power_state == PowerState::PendingOn {
        ServerStatus::TurningOn
    } else {
        ServerStatus::Degraded
    }
}

pub fn compute_display_status(power_state: PowerState, counter: i32, health: HealthStatus) -> (res: ServerStatus)
    ensures
        res == display_status(power_state, counter as int, health),
{
    let all_on = health == HealthStatus::Up;
    let all_off = health == HealthStatus::Down;
    if counter == 0 && all_off {
        ServerStatus::Off
    } else if counter > 0 && all_on {
        ServerStatus::On
    } else if counter == 0 {
        // some checks still answer: the server is stopping, or stuck
        if power_state == PowerState::PendingOff {
            ServerStatus::TurningOff
        } else {
            ServerStatus::Degraded
        }
    } else {
        // wanted on, some checks fail: the server is starting, or degraded
        if power_state == PowerState::PendingOn {
            ServerStatus::TurningOn
        } else {
            ServerStatus::Degraded
        }
    }
}

/// The text under which a display status is recorded in the history.
pub open spec fn server_status_name(s: ServerStatus) -> Seq<char> {
    match s {
        ServerStatus::Off => "off"@,
        ServerStatus::On => "on"@,
        ServerStatus::TurningOn => "turning_on"@,
        ServerStatus::TurningOff => "turning_off"@,
        ServerStatus::Degraded => "degraded"@,
    }
}

/// The display status read back from the history; `up` is an older name of
/// `on`, and anything unknown reads as `Off`.
pub open spec fn server_status_from_name(s: Seq<char>) -> ServerStatus {
    if s == "on"@ {
        ServerStatus::On
    } else if s == "turning_on"@ {
        ServerStatus::TurningOn
    } else if s == "turning_off"@ {
        ServerStatus::TurningOff
    } else if s == "degraded"@ {
        ServerStatus::Degraded
    } else if s == "up"@ {
        ServerStatus::On
    } else {
        ServerStatus::Off
    }
}

/// String form of the display status, as stored in the history table.
pub fn display_status_str(power_state: PowerState, counter: i32, health: HealthStatus) -> (res: &'static str)
    ensures
        res@ == server_status_name(display_status(power_state, counter as int, health)),
{
    match compute_display_status(power_state, counter, health) {
        ServerStatus::Off => "off",
        ServerStatus::On => "on",
        ServerStatus::TurningOn => "turning_on",
        ServerStatus::TurningOff => "turning_off",
        ServerStatus::Degraded => "degraded",
    }
}

pub fn display_status_from_str(s: &str) -> (res: ServerStatus)
    ensures
        res == server_status_from_name(s@),
{
    if str_eq(s, "on") {
        ServerStatus::On
    } else if str_eq(s, "turning_on") {
        ServerStatus::TurningOn
    } else if str_eq(s, "turning_off") {
        ServerStatus::TurningOff
    } else if str_eq(s, "degraded") {
        ServerStatus::Degraded
    } else if str_eq(s, "up") {
        // older history rows
        ServerStatus::On
    } else {
        ServerStatus::Off
    }
}

/// The outcome of one probe.
#[derive(Debug, Clone)]
pub struct CheckResult {
    pub check_type: HealthCheckType,
    pub ok: bool,
    pub latency_ms: Option<u64>,
    pub port: Option<u16>,
    pub label: Option<String>,
}

/// What the dashboard and the API report for one server.
#[derive(Debug, Clone)]
pub struct ServerState {
    pub id: String,
    pub name: String,
    pub hostname: String,
    pub counter: i32,
    pub callers: Vec<String>,
    pub status: ServerStatus,
    pub power_timeout: u64,
    pub checks: Vec<CheckResult>,
    /// RFC 3339 timestamp of the last health check, as stored.
    pub last_checked: Option<String>,
    pub config_error: Option<String>,
    pub depends_on: Vec<String>,
}

} // verus!
