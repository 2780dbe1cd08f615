//! The persisted state of each server, one row per server id, and the
//! encoding of its columns.

use vstd::prelude::*;
use crate::config::strings_view;
use crate::types::{
    CheckResult, HealthStatus, PowerState, health_status_from_name, power_state_from_name,
};

verus! {

#[verifier::external_type_specification]
#[verifier::external_body]
pub struct ExJsonError(serde_json::Error);

/// The JSON text that `serde_json` writes for a list of strings.
pub uninterp spec fn json_of_strings(items: Seq<Seq<char>>) -> Seq<char>;

/// The list of strings that `serde_json` reads from a text, if it reads one.
pub uninterp spec fn strings_of_json(text: Seq<char>) -> Option<Seq<Seq<char>>>;

/// `serde_json::to_string` on a list of strings. Its result depends on the
/// strings alone; it is `Ok`, because serializing a sequence of strings into
/// an in-memory buffer has no failing step in `serde_json`'s serializer; and
/// `serde_json::from_str` reads the same list back from the text it wrote.
#[verifier::external_body]
fn strings_to_json(items: &Vec<String>) -> (res: Result<String, serde_json::Error>)
    ensures
        res is Ok,
        res matches Ok(s) ==> s@ == json_of_strings(strings_view(items@)),
        res matches Ok(s) ==> strings_of_json(s@) == Some(strings_view(items@)),
{
    serde_json::to_string(items)
}

/// `serde_json::from_str` into a list of strings: `Ok` exactly when the text
/// is a JSON array of strings, a function of the text alone.
#[verifier::external_body]
fn strings_from_json(text: &str) -> (res: Result<Vec<String>, serde_json::Error>)
    ensures
        res is Ok <==> strings_of_json(text@) is Some,
        res matches Ok(v) ==> strings_of_json(text@) == Some(strings_view(v@)),
{
    serde_json::from_str(text)
}

/// The JSON text stored for a callers list; `[]` should the encoder fail.
/// Reading the text back gives the same list.
pub fn callers_to_json(callers: &Vec<String>) -> (res: String)
    ensures
        res@ == json_of_strings(strings_view(callers@)),
        strings_of_json(res@) == Some(strings_view(callers@)),
{
    match strings_to_json(callers) {
        Ok(s) => s,
        Err(_) => String::from_str("[]"),
    }
}

/// The callers list read back from its stored text; empty when the text is
/// not a JSON array of strings.
pub fn callers_from_json(text: &str) -> (res: Vec<String>)
    ensures
        strings_of_json(text@) matches Some(v) ==> strings_view(res@) == v,
        strings_of_json(text@) is None ==> res@.len() == 0,
{
    match strings_from_json(text) {
        Ok(v) => v,
        Err(_) => Vec::new(),
    }
}

/// The persisted state of one server.
#[derive(Debug)]
pub struct ServerRow {
    pub id: String,
    pub power_state: PowerState,
    pub counter: i32,
    pub callers: Vec<String>,
    pub status: HealthStatus,
    pub checks: Vec<CheckResult>,
    /// RFC 3339 timestamp of the last health check.
    pub last_checked: Option<String>,
    pub config_error: Option<String>,
}

impl ServerRow {
    /// The row of a server seen for the first time: off, counter 0, no
    /// callers, down, no checks.
    pub fn fresh(id: String) -> (row: ServerRow)
        ensures
            row.id == id,
            row.power_state == PowerState::Off,
            row.counter == 0,
            row.callers@.len() == 0,
            row.status == HealthStatus::Down,
            row.checks@.len() == 0,
            row.last_checked is None,
            row.config_error is None,
    {
        ServerRow {
            id,
            power_state: PowerState::Off,
            counter: 0,
            callers: Vec::new(),
            status: HealthStatus::Down,
            checks: Vec::new(),
            last_checked: None,
            config_error: None,
        }
    }

    /// A row from its stored columns: an unknown power state reads as `Off`,
    /// an unknown status as `Down`, and an unreadable callers list as empty.
    pub fn from_columns(
        id: String,
        power_state: &str,
        counter: i32,
        callers_json: &str,
        status: &str,
        checks: Vec<CheckResult>,
        last_checked: Option<String>,
        config_error: Option<String>,
    ) -> (row: ServerRow)
        ensures
            row.id == id,
            row.power_state == (match power_state_from_name(power_state@) {
                Some(p) => p,
                None => PowerState::Off,
            }),
            row.counter == counter,
            strings_of_json(callers_json@) matches Some(v) ==> strings_view(row.callers@) == v,
            strings_of_json(callers_json@) is None ==> row.callers@.len() == 0,
            row.status == health_status_from_name(status@),
            row.checks == checks,
            row.last_checked == last_checked,
            row.config_error == config_error,
    {
        let power_state = match PowerState::from_str(power_state) {
            Some(p) => p,
            None => PowerState::Off,
        };
        ServerRow {
            id,
            power_state,
            counter,
            callers: callers_from_json(callers_json),
            status: HealthStatus::from_str(status),
            checks,
            last_checked,
            config_error,
        }
    }
}

/// The position of the row of `id` in `rows`, if any.
pub open spec fn row_index(rows: Seq<ServerRow>, id: Seq<char>) -> Option<int> {
    if exists|i: int| 0 <= i < rows.len() && rows[i].id@ == id {
        Some(choose|i: int| 0 <= i < rows.len() && rows[i].id@ == id)
    } else {
        None
    }
}

/// Every id has at most one row.
pub open spec fn rows_wf(rows: Seq<ServerRow>) -> bool {
    forall|i: int, j: int| 0 <= i < j < rows.len() ==> rows[i].id@ != rows[j].id@
}

/// The table of persisted server states.
pub struct ServerTable {
    pub rows: Vec<ServerRow>,
}

impl ServerTable {
    /// Every id has at most one row.
    pub open spec fn wf(&self) -> bool {
        rows_wf(self.rows@)
    }

    /// The position of the row of `id`, if any.
    pub open spec fn index_of(&self, id: Seq<char>) -> Option<int> {
        row_index(self.rows@, id)
    }

    pub fn new() -> (t: ServerTable)
        ensures
            t.rows@.len() == 0,
            t.wf(),
    {
        ServerTable { rows: Vec::new() }
    }

    /// The position of the row of `id`, if any.
    pub fn find(&self, id: &str) -> (res: Option<usize>)
        requires
            self.wf(),
        ensures
            res matches Some(i) ==> self.index_of(id@) == Some(i as int),
            res is None ==> self.index_of(id@) is None,
    {
        let n = self.rows.len();
        let mut i: usize = 0;
        while i < n
            invariant
                n == self.rows@.len(),
                i <= n,
                self.wf(),
                forall|j: int| 0 <= j < i ==> self.rows@[j].id@ != id@,
            decreases n - i,
        {
            if crate::text::str_eq(self.rows[i].id.as_str(), id) {
                proof {
                    assert(self.rows@[i as int].id@ == id@);
                    let k = choose|k: int| 0 <= k < self.rows@.len() && self.rows@[k].id@ == id@;
                    assert(k == i);
                }
                return Some(i);
            }
            i += 1;
        }
        None
    }
}

} // verus!
