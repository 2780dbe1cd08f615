//! The reference-counting engine: the counters and callers of each server,
//! the power state machine they drive, and the commands (persistence, power
//! actions, notifications) that a caller performs for each decision.

use vstd::prelude::*;
use vstd::string::*;
use crate::cascade::{cascade_plan, is_cascade, lemma_cascade_distinct, pairs_view};
use crate::config::{find_server, first_index, is_first_index, server_ids, strings_view, ValidatedConfig};
use crate::db::{row_index, rows_wf, ServerRow, ServerTable};
use crate::types::{
    compute_display_status, display_status, CheckResult, HealthStatus, PowerState, ServerConfig,
    ServerState,
};

verus! {

/// What the caller of the engine has to carry out, in order.
#[derive(Debug, Clone, Copy, PartialEq, Eq, Structural)]
pub enum CommandKind {
    /// Persist the counter and the callers of the server's row.
    SaveCounter,
    /// Add a power-log entry `counter_inc` by the caller in `text`; its
    /// message is the server's counter.
    LogIncrement,
    /// Add a power-log entry `counter_dec` by the caller in `text`; its
    /// message is the server's counter.
    LogDecrement,
    /// Add a power-log entry `force_on`.
    LogForceOn,
    /// Add a power-log entry `force_off`.
    LogForceOff,
    /// Persist the power state of the server's row.
    SavePowerState,
    /// Persist the status, checks and check time of the server's row, and
    /// append a history entry with the display status in `text` and the
    /// server's counter.
    SaveHealth,
    /// Persist the configuration error of the server's row.
    SaveConfigError,
    /// Insert a fresh row for the server unless it has one.
    EnsureRow,
    /// Wake the server's health-check task for an immediate check.
    TriggerFastCheck,
    /// Cancel the server's running power-on sequence, if any, and start a
    /// new one in the background.
    StartPowerOn,
    /// Cancel the server's running power-on sequence, if any.
    CancelPowerTask,
    /// Send the shutdown command in the background; failures are logged.
    StartPowerOff,
    /// Send the power-on command now; a failure is the answer to the request.
    PowerOnNow,
    /// Send the shutdown command now; a failure is only logged.
    PowerOffNow,
    /// Publish the server's current state to the event stream.
    Broadcast,
}

/// One command: its kind, the server it is about, and a text whose meaning
/// depends on the kind (empty where the kind needs none).
#[derive(Debug)]
pub struct Command {
    pub kind: CommandKind,
    pub server_id: String,
    pub text: String,
}

/// The view of a command.
pub open spec fn cmd_view(c: Command) -> (CommandKind, Seq<char>, Seq<char>) {
    (c.kind, c.server_id@, c.text@)
}

/// The views of a list of commands.
pub open spec fn cmds_view(s: Seq<Command>) -> Seq<(CommandKind, Seq<char>, Seq<char>)> {
    Seq::new(s.len(), |i: int| cmd_view(s[i]))
}

/// A command about `id` that carries no text.
pub open spec fn plain(kind: CommandKind, id: Seq<char>) -> (CommandKind, Seq<char>, Seq<char>) {
    (kind, id, Seq::<char>::empty())
}

fn command(kind: CommandKind, id: &str, text: &str) -> (c: Command)
    ensures
        cmd_view(c) == (kind, id@, text@),
{
    Command { kind, server_id: String::from_str(id), text: String::from_str(text) }
}

fn push_command(cmds: &mut Vec<Command>, kind: CommandKind, id: &str, text: &str)
    ensures
        cmds_view(final(cmds)@) == cmds_view(old(cmds)@).push((kind, id@, text@)),
{
    let ghost before = cmds_view(cmds@);
    cmds.push(command(kind, id, text));
    assert(cmds_view(cmds@) =~= before.push((kind, id@, text@)));
}

/// The commands of one increment of the counter of `id` by `caller`; the
/// power-on sequence starts when the counter leaves 0.
pub open spec fn increment_commands(id: Seq<char>, caller: Seq<char>, was_zero: bool) -> Seq<(CommandKind, Seq<char>, Seq<char>)> {
    seq![plain(CommandKind::SaveCounter, id), (CommandKind::LogIncrement, id, caller)]
        + (if was_zero {
            seq![
                plain(CommandKind::SavePowerState, id),
                plain(CommandKind::TriggerFastCheck, id),
                plain(CommandKind::StartPowerOn, id),
            ]
        } else {
            Seq::empty()
        })
        + seq![plain(CommandKind::Broadcast, id)]
}

/// The commands of one decrement of the counter of `id` by `caller`; the
/// shutdown starts when the counter reaches 0.
pub open spec fn decrement_commands(id: Seq<char>, caller: Seq<char>, now_zero: bool) -> Seq<(CommandKind, Seq<char>, Seq<char>)> {
    seq![plain(CommandKind::SaveCounter, id), (CommandKind::LogDecrement, id, caller)]
        + (if now_zero {
            seq![
                plain(CommandKind::CancelPowerTask, id),
                plain(CommandKind::SavePowerState, id),
                plain(CommandKind::TriggerFastCheck, id),
                plain(CommandKind::StartPowerOff, id),
            ]
        } else {
            Seq::empty()
        })
        + seq![plain(CommandKind::Broadcast, id)]
}

/// The two rows agree on everything but counter, callers and power state.
pub open spec fn same_identity(a: ServerRow, b: ServerRow) -> bool {
    &&& a.id == b.id
    &&& a.status == b.status
    &&& a.checks == b.checks
    &&& a.last_checked == b.last_checked
    &&& a.config_error == b.config_error
}

/// `new` is `old` after one increment by `caller`: the counter goes up by
/// one, the caller is appended, and a counter leaving 0 makes the server
/// pending on.
pub open spec fn incremented(old: ServerRow, new: ServerRow, caller: Seq<char>) -> bool {
    &&& same_identity(old, new)
    &&& new.counter == old.counter + 1
    &&& strings_view(new.callers@) == strings_view(old.callers@).push(caller)
    &&& new.power_state == if old.counter == 0 { PowerState::PendingOn } else { old.power_state }
}

/// The first position of `x` in `s`.
pub open spec fn first_pos(s: Seq<Seq<char>>, x: Seq<char>) -> int {
    choose|i: int| 0 <= i < s.len() && s[i] == x && forall|j: int| 0 <= j < i ==> s[j] != x
}

/// The callers left after `caller` releases one count: its first entry if it
/// has one, otherwise the oldest entry.
pub open spec fn callers_after_release(callers: Seq<Seq<char>>, caller: Seq<char>) -> Seq<Seq<char>> {
    if callers.contains(caller) {
        callers.remove(first_pos(callers, caller))
    } else if callers.len() > 0 {
        callers.remove(0)
    } else {
        callers
    }
}

/// `new` is `old` after one decrement by `caller`: nothing changes at 0;
/// otherwise the counter goes down by one, one caller entry is released, and
/// a counter reaching 0 makes the server pending off.
pub open spec fn decremented(old: ServerRow, new: ServerRow, caller: Seq<char>) -> bool {
    if old.counter == 0 {
        new == old
    } else {
        &&& same_identity(old, new)
        &&& new.counter == old.counter - 1
        &&& strings_view(new.callers@) == callers_after_release(strings_view(old.callers@), caller)
        &&& new.power_state == if old.counter == 1 { PowerState::PendingOff } else { old.power_state }
    }
}

/// The two check results are field by field the same.
pub open spec fn same_result(a: CheckResult, b: CheckResult) -> bool {
    &&& a.check_type == b.check_type
    &&& a.ok == b.ok
    &&& a.latency_ms == b.latency_ms
    &&& a.port == b.port
    &&& a.label == b.label
}

/// `st` reports the server whose persisted row is `row` and whose
/// configuration is `sc`.
pub open spec fn describes(st: ServerState, row: ServerRow, sc: ServerConfig) -> bool {
    &&& st.id == row.id
    &&& st.name == sc.name
    &&& st.hostname == sc.hostname
    &&& st.counter == row.counter
    &&& st.callers@ == row.callers@
    &&& st.status == display_status(row.power_state, row.counter as int, row.status)
    &&& st.power_timeout == sc.power_timeout_secs
    &&& st.checks@.len() == row.checks@.len()
    &&& forall|k: int| 0 <= k < st.checks@.len() ==> same_result(#[trigger] st.checks@[k], row.checks@[k])
    &&& st.last_checked == row.last_checked
    &&& st.config_error == row.config_error
    &&& st.depends_on@ == sc.depends_on@
}

/// The configuration of the server with id `id` (the first one with it).
pub open spec fn server_of(servers: Seq<ServerConfig>, id: Seq<char>) -> ServerConfig {
    servers[first_index(server_ids(servers), id)]
}

/// The server `id` is configured and has a row: its state can be reported.
pub open spec fn known(servers: Seq<ServerConfig>, rows: Seq<ServerRow>, id: Seq<char>) -> bool {
    server_ids(servers).contains(id) && row_index(rows, id) is Some
}

/// The persisted row of `id` (meaningful when it has one).
pub open spec fn row_of(rows: Seq<ServerRow>, id: Seq<char>) -> ServerRow {
    rows[row_index(rows, id)->0]
}

fn copy_opt(s: &Option<String>) -> (res: Option<String>)
    ensures
        res == *s,
{
    match s {
        Some(x) => Some(x.clone()),
        None => None,
    }
}

fn copy_strings(v: &Vec<String>) -> (res: Vec<String>)
    ensures
        res@ == v@,
{
    let mut res: Vec<String> = Vec::new();
    let n = v.len();
    let mut i: usize = 0;
    while i < n
        invariant
            n == v@.len(),
            i <= n,
            res@ == v@.take(i as int),
        decreases n - i,
    {
        res.push(v[i].clone());
        assert(v@.take(i + 1) =~= v@.take(i as int).push(v@[i as int]));
        i += 1;
    }
    assert(v@.take(n as int) =~= v@);
    res
}

fn copy_checks(v: &Vec<CheckResult>) -> (res: Vec<CheckResult>)
    ensures
        res@.len() == v@.len(),
        forall|k: int| 0 <= k < v@.len() ==> same_result(#[trigger] res@[k], v@[k]),
{
    let mut res: Vec<CheckResult> = Vec::new();
    let n = v.len();
    let mut i: usize = 0;
    while i < n
        invariant
            n == v@.len(),
            i <= n,
            res@.len() == i,
            forall|k: int| 0 <= k < i ==> same_result(#[trigger] res@[k], v@[k]),
        decreases n - i,
    {
        let c = &v[i];
        res.push(CheckResult {
            check_type: c.check_type,
            ok: c.ok,
            latency_ms: c.latency_ms,
            port: c.port,
            label: copy_opt(&c.label),
        });
        i += 1;
    }
    res
}

/// The reported state of a server from its row and configuration.
fn state_from(row: &ServerRow, sc: &ServerConfig) -> (st: ServerState)
    ensures
        describes(st, *row, *sc),
{
    ServerState {
        id: row.id.clone(),
        name: sc.name.clone(),
        hostname: sc.hostname.clone(),
        counter: row.counter,
        callers: copy_strings(&row.callers),
        status: compute_display_status(row.power_state, row.counter, row.status),
        power_timeout: sc.power_timeout_secs,
        checks: copy_checks(&row.checks),
        last_checked: copy_opt(&row.last_checked),
        config_error: copy_opt(&row.config_error),
        depends_on: copy_strings(&sc.depends_on),
    }
}

/// The row at `i` after one increment by `caller`.
fn increment_row(table: &mut ServerTable, i: usize, caller: &str)
    requires
        (i as int) < old(table).rows@.len(),
        old(table).rows@[i as int].counter < i32::MAX,
    ensures
        final(table).rows@.len() == old(table).rows@.len(),
        forall|k: int| 0 <= k < old(table).rows@.len() && k != i ==> final(table).rows@[k] == old(table).rows@[k],
        incremented(old(table).rows@[i as int], final(table).rows@[i as int], caller@),
{
    let ghost old_rows = table.rows@;
    let mut row = table.rows.remove(i);
    let was_zero = row.counter == 0;
    row.counter = row.counter + 1;
    let ghost old_callers = row.callers@;
    row.callers.push(String::from_str(caller));
    assert(strings_view(row.callers@) =~= strings_view(old_callers).push(caller@));
    if was_zero {
        row.power_state = PowerState::PendingOn;
    }
    table.rows.insert(i, row);
    assert forall|k: int| 0 <= k < old_rows.len() && k != i implies table.rows@[k] == old_rows[k] by {
        if k < i {
        } else {
        }
    }
}

/// The row at `i` after one decrement by `caller`.
fn decrement_row(table: &mut ServerTable, i: usize, caller: &str)
    requires
        (i as int) < old(table).rows@.len(),
        old(table).rows@[i as int].counter > i32::MIN,
    ensures
        final(table).rows@.len() == old(table).rows@.len(),
        forall|k: int| 0 <= k < old(table).rows@.len() && k != i ==> final(table).rows@[k] == old(table).rows@[k],
        decremented(old(table).rows@[i as int], final(table).rows@[i as int], caller@),
{
    if table.rows[i].counter == 0 {
        return;
    }
    let ghost old_rows = table.rows@;
    let mut row = table.rows.remove(i);
    row.counter = row.counter - 1;
    let ghost cs = strings_view(row.callers@);
    let n = row.callers.len();
    let pos = position_of(&row.callers, caller);
    if pos < n {
        proof {
            assert(cs[pos as int] == caller@);
            assert(cs.contains(caller@));
            let f = first_pos(cs, caller@);
            assert(f == pos as int) by {
                if f < pos {
                } else if f > pos {
                }
            }
        }
        row.callers.remove(pos);
        assert(strings_view(row.callers@) =~= cs.remove(pos as int));
    } else if n > 0 {
        proof {
            if cs.contains(caller@) {
                let j = choose|j: int| 0 <= j < cs.len() && cs[j] == caller@;
            }
        }
        row.callers.remove(0);
        assert(strings_view(row.callers@) =~= cs.remove(0));
    } else {
        proof {
            if cs.contains(caller@) {
                let j = choose|j: int| 0 <= j < cs.len() && cs[j] == caller@;
            }
        }
    }
    if row.counter == 0 {
        row.power_state = PowerState::PendingOff;
    }
    table.rows.insert(i, row);
    assert forall|k: int| 0 <= k < old_rows.len() && k != i implies table.rows@[k] == old_rows[k] by {
        if k < i {
        } else {
        }
    }
}

/// The first position of `caller` in `callers`, or the length when absent.
fn position_of(callers: &Vec<String>, caller: &str) -> (pos: usize)
    ensures
        pos <= callers@.len(),
        forall|j: int| 0 <= j < pos ==> strings_view(callers@)[j] != caller@,
        pos < callers@.len() ==> strings_view(callers@)[pos as int] == caller@,
{
    let n = callers.len();
    let mut pos: usize = 0;
    while pos < n
        invariant
            n == callers@.len(),
            pos <= n,
            forall|j: int| 0 <= j < pos ==> strings_view(callers@)[j] != caller@,
        decreases n - pos,
    {
        if str_eq_string(&callers[pos], caller) {
            return pos;
        }
        pos += 1;
    }
    pos
}

fn str_eq_string(a: &String, b: &str) -> (res: bool)
    ensures
        res == (a@ == b@),
{
    crate::text::str_eq(a.as_str(), b)
}


/// "Server not found: " followed by the id.
pub open spec fn not_found_msg(id: Seq<char>) -> Seq<char> {
    "Server not found: "@ + id
}

/// "Server state not found: " followed by the id.
pub open spec fn no_state_msg(id: Seq<char>) -> Seq<char> {
    "Server state not found: "@ + id
}

fn prefixed(prefix: &str, id: &str) -> (res: String)
    ensures
        res@ == prefix@ + id@,
{
    let mut res = String::from_str(prefix);
    res.append(id);
    res
}

/// Both tables have the same ids at the same positions.
pub open spec fn same_ids(old: Seq<ServerRow>, new: Seq<ServerRow>) -> bool {
    &&& new.len() == old.len()
    &&& forall|k: int| 0 <= k < old.len() ==> #[trigger] new[k].id == old[k].id
}

pub(crate) proof fn lemma_same_ids_index(old: Seq<ServerRow>, new: Seq<ServerRow>, id: Seq<char>)
    requires
        same_ids(old, new),
        rows_wf(old),
    ensures
        row_index(new, id) == row_index(old, id),
        rows_wf(new),
{
    assert forall|i: int, j: int| 0 <= i < j < new.len() implies new[i].id@ != new[j].id@ by {
        assert(new[i].id == old[i].id);
        assert(new[j].id == old[j].id);
    }
    if exists|i: int| 0 <= i < old.len() && old[i].id@ == id {
        let a = choose|i: int| 0 <= i < old.len() && old[i].id@ == id;
        assert(new[a].id == old[a].id);
        let b = choose|i: int| 0 <= i < new.len() && new[i].id@ == id;
        assert(new[b].id == old[b].id);
        if a < b {
        } else if b < a {
        }
    } else {
        if exists|i: int| 0 <= i < new.len() && new[i].id@ == id {
            let b = choose|i: int| 0 <= i < new.len() && new[i].id@ == id;
            assert(new[b].id == old[b].id);
        }
    }
}

/// `new` is `old` after one increment (`up`) or decrement of the row of
/// `id` by `caller`; a table without a row for `id` is left as it is.
pub open spec fn bumped(old: Seq<ServerRow>, new: Seq<ServerRow>, id: Seq<char>, caller: Seq<char>, up: bool) -> bool {
    &&& new.len() == old.len()
    &&& match row_index(old, id) {
        Some(i) => {
            &&& (forall|k: int| 0 <= k < old.len() && k != i ==> new[k] == old[k])
            &&& if up {
                incremented(old[i], new[i], caller)
            } else {
                decremented(old[i], new[i], caller)
            }
        },
        None => new == old,
    }
}

/// The caller with which the cascade `p` visits `id`, if it does.
pub open spec fn visit_of(p: Seq<(Seq<char>, Seq<char>)>, id: Seq<char>) -> Option<Seq<char>>
    decreases p.len(),
{
    if p.len() == 0 {
        None
    } else if p.last().0 == id {
        Some(p.last().1)
    } else {
        visit_of(p.drop_last(), id)
    }
}

/// `new` is `old` after every configured server visited by `p` had its
/// counter incremented (`up`) or decremented once, by the caller of its visit.
pub open spec fn applied(
    servers: Seq<ServerConfig>,
    old: Seq<ServerRow>,
    new: Seq<ServerRow>,
    p: Seq<(Seq<char>, Seq<char>)>,
    up: bool,
) -> bool {
    &&& new.len() == old.len()
    &&& forall|k: int| 0 <= k < old.len() ==> match visit_of(p, #[trigger] old[k].id@) {
        Some(c) => if server_ids(servers).contains(old[k].id@) {
            if up {
                incremented(old[k], new[k], c)
            } else {
                decremented(old[k], new[k], c)
            }
        } else {
            new[k] == old[k]
        },
        None => new[k] == old[k],
    }
}

/// The commands of one visit of a cascade: those of an increment or a
/// decrement of a configured server that has a row; none otherwise, and none
/// for a decrement of a counter already at 0.
pub open spec fn visit_commands(
    servers: Seq<ServerConfig>,
    rows: Seq<ServerRow>,
    v: (Seq<char>, Seq<char>),
    up: bool,
) -> Seq<(CommandKind, Seq<char>, Seq<char>)> {
    if known(servers, rows, v.0) {
        let c = row_of(rows, v.0).counter;
        if up {
            increment_commands(v.0, v.1, c == 0)
        } else if c == 0 {
            Seq::empty()
        } else {
            decrement_commands(v.0, v.1, c == 1)
        }
    } else {
        Seq::empty()
    }
}

/// The commands of all visits of `p`, in order, with the counters of `rows`.
pub open spec fn cascade_commands(
    servers: Seq<ServerConfig>,
    rows: Seq<ServerRow>,
    p: Seq<(Seq<char>, Seq<char>)>,
    up: bool,
) -> Seq<(CommandKind, Seq<char>, Seq<char>)>
    decreases p.len(),
{
    if p.len() == 0 {
        Seq::empty()
    } else {
        cascade_commands(servers, rows, p.drop_last(), up) + visit_commands(servers, rows, p.last(), up)
    }
}

/// Every server that the cascade from `id` on behalf of `caller` visits,
/// from the `from`-th visit on, has a counter that can take one more
/// increment (`up`) or decrement without overflowing.
pub open spec fn room_for(
    servers: Seq<ServerConfig>,
    rows: Seq<ServerRow>,
    id: Seq<char>,
    caller: Seq<char>,
    up: bool,
    from: int,
) -> bool {
    forall|p: Seq<(Seq<char>, Seq<char>)>, j: int|
        #![trigger is_cascade(servers, id, caller, p), p[j]]
        is_cascade(servers, id, caller, p) && from <= j < p.len() && row_index(rows, p[j].0) is Some
            ==> if up {
                rows[row_index(rows, p[j].0)->0].counter < i32::MAX
            } else {
                rows[row_index(rows, p[j].0)->0].counter > i32::MIN
            }
}

proof fn lemma_visit_of_take(t: Seq<(Seq<char>, Seq<char>)>, j: int, x: Seq<char>)
    requires
        0 <= j < t.len(),
    ensures
        visit_of(t.take(j + 1), x) == if t[j].0 == x {
            Some(t[j].1)
        } else {
            visit_of(t.take(j), x)
        },
{
    assert(t.take(j + 1).drop_last() =~= t.take(j));
    assert(t.take(j + 1).last() == t[j]);
}

proof fn lemma_visit_of_absent(s: Seq<(Seq<char>, Seq<char>)>, x: Seq<char>)
    requires
        forall|i: int| 0 <= i < s.len() ==> s[i].0 != x,
    ensures
        visit_of(s, x) is None,
    decreases s.len(),
{
    if s.len() > 0 {
        lemma_visit_of_absent(s.drop_last(), x);
    }
}

proof fn lemma_apply_step(
    servers: Seq<ServerConfig>,
    r0: Seq<ServerRow>,
    cur: Seq<ServerRow>,
    cur2: Seq<ServerRow>,
    t: Seq<(Seq<char>, Seq<char>)>,
    j: int,
    up: bool,
    ok: bool,
)
    requires
        0 <= j < t.len(),
        forall|a: int, b: int| 0 <= a < b < t.len() ==> t[a].0 != t[b].0,
        rows_wf(r0),
        same_ids(r0, cur),
        same_ids(r0, cur2),
        applied(servers, r0, cur, t.take(j), up),
        ok ==> known(servers, r0, t[j].0),
        ok ==> bumped(cur, cur2, t[j].0, t[j].1, up),
        !ok ==> cur2 == cur && !known(servers, r0, t[j].0),
    ensures
        applied(servers, r0, cur2, t.take(j + 1), up),
{
    let x = t[j].0;
    lemma_same_ids_index(r0, cur, x);
    assert forall|k: int| 0 <= k < r0.len() implies match visit_of(t.take(j + 1), #[trigger] r0[k].id@) {
        Some(c) => if server_ids(servers).contains(r0[k].id@) {
            if up {
                incremented(r0[k], cur2[k], c)
            } else {
                decremented(r0[k], cur2[k], c)
            }
        } else {
            cur2[k] == r0[k]
        },
        None => cur2[k] == r0[k],
    } by {
        lemma_visit_of_take(t, j, r0[k].id@);
        assert(cur[k].id == r0[k].id);
        assert(cur2[k].id == r0[k].id);
        if r0[k].id@ == x {
            assert forall|i: int| 0 <= i < t.take(j).len() implies t.take(j)[i].0 != x by {
                assert(t.take(j)[i] == t[i]);
            }
            lemma_visit_of_absent(t.take(j), x);
            assert(cur[k] == r0[k]);
            assert(row_index(r0, x) is Some);
            let i = row_index(r0, x)->0;
            assert(r0[i].id@ == x);
            assert(i == k) by {
                if i < k {
                } else if k < i {
                }
            }
        } else if ok {
            let i = row_index(cur, x)->0;
            assert(cur[i].id@ == x);
            assert(k != i);
        }
    }
}

proof fn lemma_cascade_commands_cons(
    servers: Seq<ServerConfig>,
    rows: Seq<ServerRow>,
    v: (Seq<char>, Seq<char>),
    t: Seq<(Seq<char>, Seq<char>)>,
    up: bool,
)
    ensures
        cascade_commands(servers, rows, seq![v] + t, up)
            == visit_commands(servers, rows, v, up) + cascade_commands(servers, rows, t, up),
    decreases t.len(),
{
    if t.len() == 0 {
        assert((seq![v] + t).drop_last() =~= Seq::<(Seq<char>, Seq<char>)>::empty());
        assert(cascade_commands(servers, rows, Seq::<(Seq<char>, Seq<char>)>::empty(), up) =~= Seq::empty());
        assert(visit_commands(servers, rows, v, up) + Seq::empty() =~= visit_commands(servers, rows, v, up));
        assert(Seq::empty() + visit_commands(servers, rows, v, up) =~= visit_commands(servers, rows, v, up));
    } else {
        lemma_cascade_commands_cons(servers, rows, v, t.drop_last(), up);
        assert((seq![v] + t).drop_last() =~= seq![v] + t.drop_last());
        assert((seq![v] + t).last() == t.last());
        assert(visit_commands(servers, rows, v, up) + cascade_commands(servers, rows, t.drop_last(), up)
            + visit_commands(servers, rows, t.last(), up)
            =~= visit_commands(servers, rows, v, up) + (cascade_commands(servers, rows, t.drop_last(), up)
            + visit_commands(servers, rows, t.last(), up)));
    }
}

proof fn lemma_cascade_commands_same(
    servers: Seq<ServerConfig>,
    r0: Seq<ServerRow>,
    r1: Seq<ServerRow>,
    t: Seq<(Seq<char>, Seq<char>)>,
    up: bool,
)
    requires
        forall|i: int| 0 <= i < t.len() ==> visit_commands(servers, r0, #[trigger] t[i], up) == visit_commands(servers, r1, t[i], up),
    ensures
        cascade_commands(servers, r0, t, up) == cascade_commands(servers, r1, t, up),
    decreases t.len(),
{
    if t.len() > 0 {
        let t2 = t.drop_last();
        assert forall|i: int| 0 <= i < t2.len() implies visit_commands(servers, r0, #[trigger] t2[i], up) == visit_commands(servers, r1, t2[i], up) by {
            assert(t2[i] == t[i]);
        }
        lemma_cascade_commands_same(servers, r0, r1, t2, up);
        assert(visit_commands(servers, r0, t[t.len() - 1], up) == visit_commands(servers, r1, t[t.len() - 1], up));
    }
}

/// The counter of the row of `id`, if it has one, can take one more
/// increment (`up`) or decrement.
pub open spec fn row_room(rows: Seq<ServerRow>, id: Seq<char>, up: bool) -> bool {
    row_index(rows, id) matches Some(i) ==> if up {
        rows[i].counter < i32::MAX
    } else {
        rows[i].counter > i32::MIN
    }
}

/// `caller` is recorded among the callers of the row of `id`: it already
/// holds a count on that server.
pub open spec fn already_holding(rows: Seq<ServerRow>, id: Seq<char>, caller: Seq<char>) -> bool {
    row_index(rows, id) is Some && strings_view(row_of(rows, id).callers@).contains(caller)
}

/// A request to increment (`up`) or decrement server `id` on behalf of
/// `caller` goes through to the counters: the server has no cycle error, is
/// configured and has a row, and an increment is not a repeat by a caller
/// that already holds a count.
pub open spec fn accepted(config: ValidatedConfig, rows: Seq<ServerRow>, id: Seq<char>, caller: Seq<char>, up: bool) -> bool {
    &&& !config.cycle_errors@.dom().contains(id)
    &&& server_ids(config.servers@).contains(id)
    &&& row_index(rows, id) is Some
    &&& !(up && already_holding(rows, id, caller))
}

/// What a request to increment (`up`) or decrement server `id` on behalf of
/// `caller` does, from rows `r0` and commands `c0` to rows `r2` and commands
/// `c2`, answering `res`: a server with a cycle error is refused with that
/// error, an unknown server with "Server not found", a server without a row
/// with "Server state not found", each leaving everything as it was; a
/// repeated increment by a caller that already holds a count is answered
/// with the server's state and changes nothing; otherwise the cascade from
/// the server is applied to the rows, its
/// commands are issued, and the answer is the server's new state.
pub open spec fn request_outcome(
    config: ValidatedConfig,
    r0: Seq<ServerRow>,
    r2: Seq<ServerRow>,
    c0: Seq<(CommandKind, Seq<char>, Seq<char>)>,
    c2: Seq<(CommandKind, Seq<char>, Seq<char>)>,
    id: Seq<char>,
    caller: Seq<char>,
    up: bool,
    res: Result<ServerState, String>,
) -> bool {
    let servers = config.servers@;
    if config.cycle_errors@.dom().contains(id) {
        &&& res matches Err(e) && e@ == config.cycle_errors@[id]
        &&& r2 == r0
        &&& c2 == c0
    } else if !server_ids(servers).contains(id) {
        &&& res matches Err(e) && e@ == not_found_msg(id)
        &&& r2 == r0
        &&& c2 == c0
    } else if row_index(r0, id) is None {
        &&& res matches Err(e) && e@ == no_state_msg(id)
        &&& r2 == r0
        &&& c2 == c0
    } else if up && already_holding(r0, id, caller) {
        &&& res matches Ok(st) && describes(st, row_of(r0, id), server_of(servers, id))
        &&& r2 == r0
        &&& c2 == c0
    } else {
        &&& exists|p: Seq<(Seq<char>, Seq<char>)>| #[trigger] is_cascade(servers, id, caller, p)
            && applied(servers, r0, r2, p, up)
            && c2 == c0 + cascade_commands(servers, r0, p, up)
        &&& res matches Ok(st) && describes(st, row_of(r2, id), server_of(servers, id))
    }
}

proof fn lemma_visit_of_cons(v: (Seq<char>, Seq<char>), t: Seq<(Seq<char>, Seq<char>)>, x: Seq<char>)
    ensures
        visit_of(seq![v] + t, x) == match visit_of(t, x) {
            Some(c) => Some(c),
            None => if v.0 == x {
                Some(v.1)
            } else {
                None
            },
        },
    decreases t.len(),
{
    if t.len() == 0 {
        assert((seq![v] + t).drop_last() =~= Seq::<(Seq<char>, Seq<char>)>::empty());
        assert((seq![v] + t).last() == v);
        assert(visit_of(Seq::<(Seq<char>, Seq<char>)>::empty(), x) is None);
        assert(t =~= Seq::<(Seq<char>, Seq<char>)>::empty());
    } else {
        lemma_visit_of_cons(v, t.drop_last(), x);
        assert((seq![v] + t).drop_last() =~= seq![v] + t.drop_last());
        assert((seq![v] + t).last() == t.last());
    }
}


proof fn lemma_room_after_first(servers: Seq<ServerConfig>, r0: Seq<ServerRow>, r1: Seq<ServerRow>, id: Seq<char>, caller: Seq<char>, up: bool)
    requires
        rows_wf(r0),
        same_ids(r0, r1),
        row_index(r0, id) is Some,
        forall|k: int| 0 <= k < r0.len() && k != row_index(r0, id)->0 ==> r1[k] == r0[k],
        room_for(servers, r0, id, caller, up, 1),
    ensures
        room_for(servers, r1, id, caller, up, 1),
{
    let i0 = row_index(r0, id)->0;
    assert(r0[i0].id@ == id);
    assert forall|p: Seq<(Seq<char>, Seq<char>)>, j: int|
        #![trigger is_cascade(servers, id, caller, p), p[j]]
        is_cascade(servers, id, caller, p) && 1 <= j < p.len() && row_index(r1, p[j].0) is Some
        implies if up {
            r1[row_index(r1, p[j].0)->0].counter < i32::MAX
        } else {
            r1[row_index(r1, p[j].0)->0].counter > i32::MIN
        } by {
        lemma_cascade_distinct(servers, id, caller, p);
        assert(p[0].0 != p[j].0);
        lemma_same_ids_index(r0, r1, p[j].0);
        let k = row_index(r0, p[j].0)->0;
        assert(r0[k].id@ == p[j].0);
        assert(k != i0);
    }
}

proof fn lemma_compose(
    servers: Seq<ServerConfig>,
    r0: Seq<ServerRow>,
    r1: Seq<ServerRow>,
    r2: Seq<ServerRow>,
    c0: Seq<(CommandKind, Seq<char>, Seq<char>)>,
    c1: Seq<(CommandKind, Seq<char>, Seq<char>)>,
    c2: Seq<(CommandKind, Seq<char>, Seq<char>)>,
    id: Seq<char>,
    caller: Seq<char>,
    up: bool,
    p: Seq<(Seq<char>, Seq<char>)>,
)
    requires
        rows_wf(r0),
        server_ids(servers).contains(id),
        row_index(r0, id) is Some,
        same_ids(r0, r1),
        bumped(r0, r1, id, caller, up),
        c1 == c0 + visit_commands(servers, r0, (id, caller), up),
        is_cascade(servers, id, caller, p),
        applied(servers, r1, r2, p.drop_first(), up),
        c2 == c1 + cascade_commands(servers, r1, p.drop_first(), up),
    ensures
        applied(servers, r0, r2, p, up),
        c2 == c0 + cascade_commands(servers, r0, p, up),
{
    let i0 = row_index(r0, id)->0;
    assert(r0[i0].id@ == id);
    let t = p.drop_first();
    let v = (id, caller);
    assert(p =~= seq![v] + t);
    lemma_cascade_distinct(servers, id, caller, p);
    assert forall|m: int| 0 <= m < t.len() implies t[m].0 != id by {
        assert(t[m] == p[m + 1]);
    }
    lemma_visit_of_absent(t, id);
    lemma_same_ids_index(r0, r1, id);
    assert forall|k: int| 0 <= k < r0.len() implies match visit_of(p, #[trigger] r0[k].id@) {
        Some(c) => if server_ids(servers).contains(r0[k].id@) {
            if up {
                incremented(r0[k], r2[k], c)
            } else {
                decremented(r0[k], r2[k], c)
            }
        } else {
            r2[k] == r0[k]
        },
        None => r2[k] == r0[k],
    } by {
        lemma_visit_of_cons(v, t, r0[k].id@);
        assert(r1[k].id == r0[k].id);
        if k == i0 {
            assert(visit_of(t, r1[k].id@) is None);
        } else {
            assert(r1[k] == r0[k]);
        }
    }
    assert forall|m: int| 0 <= m < t.len() implies visit_commands(servers, r0, #[trigger] t[m], up)
        == visit_commands(servers, r1, t[m], up) by {
        lemma_same_ids_index(r0, r1, t[m].0);
        if row_index(r0, t[m].0) is Some {
            let k = row_index(r0, t[m].0)->0;
            assert(r0[k].id@ == t[m].0);
            assert(k != i0);
        }
    }
    lemma_cascade_commands_same(servers, r0, r1, t, up);
    lemma_cascade_commands_cons(servers, r0, v, t, up);
    assert(c2 =~= c0 + cascade_commands(servers, r0, p, up));
}

/// `new` is `old` with the row of `id` (if any) holding counter `value`, no
/// callers and power state `ps`, and nothing else changed.
pub open spec fn reset_row(old: Seq<ServerRow>, new: Seq<ServerRow>, id: Seq<char>, value: i32, ps: PowerState) -> bool {
    &&& new.len() == old.len()
    &&& match row_index(old, id) {
        Some(i) => {
            &&& (forall|k: int| 0 <= k < old.len() && k != i ==> new[k] == old[k])
            &&& same_identity(old[i], new[i])
            &&& new[i].counter == value
            &&& new[i].callers@.len() == 0
            &&& new[i].power_state == ps
        },
        None => new == old,
    }
}

/// The positions of the rows whose id names a configured server, in order.
pub open spec fn configured_rows(servers: Seq<ServerConfig>, rows: Seq<ServerRow>) -> Seq<int>
    decreases rows.len(),
{
    if rows.len() == 0 {
        seq![]
    } else {
        let r = configured_rows(servers, rows.drop_last());
        if server_ids(servers).contains(rows.last().id@) {
            r.push(rows.len() - 1)
        } else {
            r
        }
    }
}

/// A row as a server seen for the first time has it.
pub open spec fn fresh_row(row: ServerRow, id: Seq<char>) -> bool {
    &&& row.id@ == id
    &&& row.power_state == PowerState::Off
    &&& row.counter == 0
    &&& row.callers@.len() == 0
    &&& row.status == HealthStatus::Down
    &&& row.checks@.len() == 0
    &&& row.last_checked is None
    &&& row.config_error is None
}

/// `new` is `old` with the power state of the row of `id` (if any) set to
/// `ps`, and nothing else changed.
pub open spec fn set_power_row(old: Seq<ServerRow>, new: Seq<ServerRow>, id: Seq<char>, ps: PowerState) -> bool {
    &&& new.len() == old.len()
    &&& match row_index(old, id) {
        Some(i) => {
            &&& (forall|k: int| 0 <= k < old.len() && k != i ==> new[k] == old[k])
            &&& same_identity(old[i], new[i])
            &&& new[i].counter == old[i].counter
            &&& new[i].callers == old[i].callers
            &&& new[i].power_state == ps
        },
        None => new == old,
    }
}

/// The power transition that a round of health checks confirms: a server
/// pending on (or failed) that is up is on; a server pending off that is
/// down is off.
pub open spec fn health_transition_of(ps: PowerState, h: HealthStatus) -> Option<PowerState> {
    match (ps, h) {
        (PowerState::PendingOn, HealthStatus::Up) => Some(PowerState::On),
        (PowerState::PendingOff, HealthStatus::Down) => Some(PowerState::Off),
        (PowerState::Failed, HealthStatus::Up) => Some(PowerState::On),
        _ => None,
    }
}

pub fn health_transition(ps: PowerState, h: HealthStatus) -> (res: Option<PowerState>)
    ensures
        res == health_transition_of(ps, h),
{
    match (ps, h) {
        (PowerState::PendingOn, HealthStatus::Up) => Some(PowerState::On),
        (PowerState::PendingOff, HealthStatus::Down) => Some(PowerState::Off),
        (PowerState::Failed, HealthStatus::Up) => Some(PowerState::On),
        _ => None,
    }
}

/// The commands of the start-up correction of `rows`: a `SavePowerState`
/// and a `Broadcast` of the corrected state per configured server whose row
/// it changes, in configuration order (a server configured twice is
/// corrected once).
pub open spec fn reconcile_commands(servers: Seq<ServerConfig>, rows: Seq<ServerRow>) -> Seq<(CommandKind, Seq<char>, Seq<char>)>
    decreases servers.len(),
{
    if servers.len() == 0 {
        seq![]
    } else {
        let rest = reconcile_commands(servers.drop_last(), rows);
        let id = servers.last().id@;
        if !server_ids(servers.drop_last()).contains(id) && row_index(rows, id) is Some
            && reconcile_transition_of(row_of(rows, id).power_state, row_of(rows, id).status) is Some {
            rest + seq![plain(CommandKind::SavePowerState, id), plain(CommandKind::Broadcast, id)]
        } else {
            rest
        }
    }
}

/// The correction of a persisted power state by the health found at
/// start-up.
pub open spec fn reconcile_transition_of(ps: PowerState, h: HealthStatus) -> Option<PowerState> {
    match (ps, h) {
        (PowerState::On, HealthStatus::Down) => Some(PowerState::Off),
        (PowerState::PendingOn, HealthStatus::Down) => Some(PowerState::Off),
        (PowerState::Off, HealthStatus::Up) => Some(PowerState::On),
        (PowerState::PendingOff, HealthStatus::Up) => Some(PowerState::On),
        _ => None,
    }
}

/// A corrected power state needs no further correction.
proof fn lemma_reconcile_settles(ps: PowerState, h: HealthStatus)
    ensures
        reconcile_transition_of(ps, h) matches Some(p) ==> reconcile_transition_of(p, h) is None,
{
}

pub fn reconcile_transition(ps: PowerState, h: HealthStatus) -> (res: Option<PowerState>)
    ensures
        res == reconcile_transition_of(ps, h),
{
    match (ps, h) {
        (PowerState::On, HealthStatus::Down) | (PowerState::PendingOn, HealthStatus::Down) => Some(PowerState::Off),
        (PowerState::Off, HealthStatus::Up) | (PowerState::PendingOff, HealthStatus::Up) => Some(PowerState::On),
        _ => None,
    }
}


proof fn lemma_cascade_pre(
    servers: Seq<ServerConfig>,
    r0: Seq<ServerRow>,
    cur: Seq<ServerRow>,
    t: Seq<(Seq<char>, Seq<char>)>,
    p: Seq<(Seq<char>, Seq<char>)>,
    j: int,
    id: Seq<char>,
    caller: Seq<char>,
    up: bool,
)
    requires
        0 <= j < t.len(),
        is_cascade(servers, id, caller, p),
        p == seq![(id, caller)] + t,
        forall|a: int, b: int| 0 <= a < b < t.len() ==> t[a].0 != t[b].0,
        rows_wf(r0),
        room_for(servers, r0, id, caller, up, 1),
        same_ids(r0, cur),
        applied(servers, r0, cur, t.take(j), up),
    ensures
        row_room(cur, t[j].0, up),
        rows_wf(cur),
{
    let x = t[j].0;
    lemma_same_ids_index(r0, cur, x);
    if row_index(r0, x) is Some {
        let i = row_index(r0, x)->0;
        assert(r0[i].id@ == x);
        assert forall|m: int| 0 <= m < t.take(j).len() implies t.take(j)[m].0 != x by {
            assert(t.take(j)[m] == t[m]);
        }
        lemma_visit_of_absent(t.take(j), x);
        assert(visit_of(t.take(j), r0[i].id@) is None);
        assert(cur[i] == r0[i]);
        assert(p[j + 1] == t[j]);
        assert(is_cascade(servers, id, caller, p) && 1 <= j + 1 < p.len());
    }
}

proof fn lemma_cascade_post(
    servers: Seq<ServerConfig>,
    r0: Seq<ServerRow>,
    cur: Seq<ServerRow>,
    cur2: Seq<ServerRow>,
    t: Seq<(Seq<char>, Seq<char>)>,
    j: int,
    up: bool,
    ok: bool,
    c0: Seq<(CommandKind, Seq<char>, Seq<char>)>,
    before: Seq<(CommandKind, Seq<char>, Seq<char>)>,
    after: Seq<(CommandKind, Seq<char>, Seq<char>)>,
)
    requires
        0 <= j < t.len(),
        forall|a: int, b: int| 0 <= a < b < t.len() ==> t[a].0 != t[b].0,
        rows_wf(r0),
        same_ids(r0, cur),
        same_ids(cur, cur2),
        applied(servers, r0, cur, t.take(j), up),
        before == c0 + cascade_commands(servers, r0, t.take(j), up),
        !server_ids(servers).contains(t[j].0) ==> !ok,
        server_ids(servers).contains(t[j].0) && row_index(cur, t[j].0) is None ==> !ok,
        known(servers, cur, t[j].0) ==> ok,
        !ok ==> cur2 == cur && after == before,
        ok ==> bumped(cur, cur2, t[j].0, t[j].1, up),
        ok && up ==> after == before + increment_commands(t[j].0, t[j].1, cur[row_index(cur, t[j].0)->0].counter == 0),
        ok && !up ==> after == before + ({
            let c = cur[row_index(cur, t[j].0)->0].counter;
            if c == 0 {
                Seq::empty()
            } else {
                decrement_commands(t[j].0, t[j].1, c == 1)
            }
        }),
    ensures
        same_ids(r0, cur2),
        applied(servers, r0, cur2, t.take(j + 1), up),
        after == c0 + cascade_commands(servers, r0, t.take(j + 1), up),
{
    let x = t[j].0;
    assert(same_ids(r0, cur2)) by {
        assert forall|k: int| 0 <= k < r0.len() implies #[trigger] cur2[k].id == r0[k].id by {
            assert(cur[k].id == r0[k].id);
        }
    }
    lemma_same_ids_index(r0, cur, x);
    lemma_apply_step(servers, r0, cur, cur2, t, j, up, ok);
    assert(t.take(j + 1).drop_last() =~= t.take(j));
    assert(t.take(j + 1).last() == t[j]);
    if known(servers, r0, x) {
        let i = row_index(r0, x)->0;
        assert(r0[i].id@ == x);
        assert forall|m: int| 0 <= m < t.take(j).len() implies t.take(j)[m].0 != x by {
            assert(t.take(j)[m] == t[m]);
        }
        lemma_visit_of_absent(t.take(j), x);
        assert(visit_of(t.take(j), r0[i].id@) is None);
        assert(cur[i] == r0[i]);
        assert(row_of(r0, x) == cur[i]);
    }
    assert(after =~= c0 + cascade_commands(servers, r0, t.take(j + 1), up));
}

/// The engine's state: the configuration and the table of server rows.
pub struct AppState {
    pub config: ValidatedConfig,
    pub table: ServerTable,
}

impl AppState {
    pub fn new(config: ValidatedConfig, table: ServerTable) -> (s: AppState)
        ensures
            s.config == config,
            s.table == table,
    {
        AppState { config, table }
    }

    /// The reported state of a server: `None` unless it is configured and
    /// has a row.
    pub fn get_server_state(&self, server_id: &str) -> (res: Option<ServerState>)
        requires
            self.table.wf(),
        ensures
            res is Some <==> known(self.config.servers@, self.table.rows@, server_id@),
            res matches Some(st) ==> describes(st, row_of(self.table.rows@, server_id@), server_of(self.config.servers@, server_id@)),
    {
        match find_server(self.config.servers.as_slice(), server_id) {
            None => None,
            Some(c) => {
                proof {
                    crate::config::lemma_first_index(server_ids(self.config.servers@), server_id@, c as int);
                }
                match self.table.find(server_id) {
                    None => None,
                    Some(r) => Some(state_from(&self.table.rows[r], &self.config.servers[c])),
                }
            },
        }
    }

    /// One increment of the counter of `server_id` by `caller`. Every call
    /// counts, whoever the caller; the first count starts the power-on
    /// sequence.
    pub fn increment_and_start(&mut self, server_id: &str, caller: &str, cmds: &mut Vec<Command>) -> (res: Result<(), String>)
        requires
            old(self).table.wf(),
            row_index(old(self).table.rows@, server_id@) matches Some(i) ==> old(self).table.rows@[i].counter < i32::MAX,
        ensures
            final(self).config == old(self).config,
            final(self).table.wf(),
            same_ids(old(self).table.rows@, final(self).table.rows@),
            !server_ids(old(self).config.servers@).contains(server_id@) ==> (res matches Err(e) && e@ == not_found_msg(server_id@)),
            server_ids(old(self).config.servers@).contains(server_id@) && row_index(old(self).table.rows@, server_id@) is None
                ==> (res matches Err(e) && e@ == no_state_msg(server_id@)),
            res is Err ==> final(self).table.rows@ == old(self).table.rows@ && cmds_view(final(cmds)@) == cmds_view(old(cmds)@),
            known(old(self).config.servers@, old(self).table.rows@, server_id@) ==> res is Ok,
            res is Ok ==> bumped(old(self).table.rows@, final(self).table.rows@, server_id@, caller@, true),
            res is Ok ==> cmds_view(final(cmds)@) == cmds_view(old(cmds)@) + increment_commands(
                server_id@, caller@, old(self).table.rows@[row_index(old(self).table.rows@, server_id@)->0].counter == 0),
    {
        if find_server(self.config.servers.as_slice(), server_id).is_none() {
            return Err(prefixed("Server not found: ", server_id));
        }
        let i = match self.table.find(server_id) {
            None => {
                return Err(prefixed("Server state not found: ", server_id));
            },
            Some(i) => i,
        };
        let ghost old_rows = self.table.rows@;
        let ghost old_cmds = cmds_view(cmds@);
        let was_zero = self.table.rows[i].counter == 0;
        increment_row(&mut self.table, i, caller);
        proof {
            assert(same_ids(old_rows, self.table.rows@)) by {
                assert forall|k: int| 0 <= k < old_rows.len() implies #[trigger] self.table.rows@[k].id == old_rows[k].id by {
                    if k != i {
                    }
                }
            }
            lemma_same_ids_index(old_rows, self.table.rows@, server_id@);
        }
        push_command(cmds, CommandKind::SaveCounter, server_id, "");
        push_command(cmds, CommandKind::LogIncrement, server_id, caller);
        if was_zero {
            push_command(cmds, CommandKind::SavePowerState, server_id, "");
            push_command(cmds, CommandKind::TriggerFastCheck, server_id, "");
            push_command(cmds, CommandKind::StartPowerOn, server_id, "");
        }
        push_command(cmds, CommandKind::Broadcast, server_id, "");
        proof {
            let e = Seq::<char>::empty();
            assert(""@ =~= e) by {
                reveal_strlit("");
            }
            let id = server_id@;
            if was_zero {
                assert(cmds_view(cmds@) =~= old_cmds + increment_commands(id, caller@, true));
            } else {
                assert(cmds_view(cmds@) =~= old_cmds + increment_commands(id, caller@, false));
            }
        }
        Ok(())
    }

    /// One decrement of the counter of `server_id` on behalf of `caller`,
    /// floored at 0: any caller can release a count, and a counter already
    /// at 0 is left alone. The count that reaches 0 cancels a running
    /// power-on sequence and starts the shutdown.
    pub fn decrement_and_stop(&mut self, server_id: &str, caller: &str, cmds: &mut Vec<Command>) -> (res: Result<(), String>)
        requires
            old(self).table.wf(),
            row_index(old(self).table.rows@, server_id@) matches Some(i) ==> old(self).table.rows@[i].counter > i32::MIN,
        ensures
            final(self).config == old(self).config,
            final(self).table.wf(),
            same_ids(old(self).table.rows@, final(self).table.rows@),
            !server_ids(old(self).config.servers@).contains(server_id@) ==> (res matches Err(e) && e@ == not_found_msg(server_id@)),
            server_ids(old(self).config.servers@).contains(server_id@) && row_index(old(self).table.rows@, server_id@) is None
                ==> (res matches Err(e) && e@ == no_state_msg(server_id@)),
            res is Err ==> final(self).table.rows@ == old(self).table.rows@ && cmds_view(final(cmds)@) == cmds_view(old(cmds)@),
            known(old(self).config.servers@, old(self).table.rows@, server_id@) ==> res is Ok,
            res is Ok ==> bumped(old(self).table.rows@, final(self).table.rows@, server_id@, caller@, false),
            res is Ok ==> cmds_view(final(cmds)@) == cmds_view(old(cmds)@) + ({
                let c = old(self).table.rows@[row_index(old(self).table.rows@, server_id@)->0].counter;
                if c == 0 {
                    Seq::empty()
                } else {
                    decrement_commands(server_id@, caller@, c == 1)
                }
            }),
    {
        if find_server(self.config.servers.as_slice(), server_id).is_none() {
            return Err(prefixed("Server not found: ", server_id));
        }
        let i = match self.table.find(server_id) {
            None => {
                return Err(prefixed("Server state not found: ", server_id));
            },
            Some(i) => i,
        };
        let ghost old_rows = self.table.rows@;
        let ghost old_cmds = cmds_view(cmds@);
        let c = self.table.rows[i].counter;
        if c == 0 {
            assert(cmds_view(cmds@) =~= old_cmds + Seq::empty());
            return Ok(());
        }
        decrement_row(&mut self.table, i, caller);
        proof {
            assert(same_ids(old_rows, self.table.rows@)) by {
                assert forall|k: int| 0 <= k < old_rows.len() implies #[trigger] self.table.rows@[k].id == old_rows[k].id by {
                    if k != i {
                    }
                }
            }
            lemma_same_ids_index(old_rows, self.table.rows@, server_id@);
        }
        push_command(cmds, CommandKind::SaveCounter, server_id, "");
        push_command(cmds, CommandKind::LogDecrement, server_id, caller);
        if c == 1 {
            push_command(cmds, CommandKind::CancelPowerTask, server_id, "");
            push_command(cmds, CommandKind::SavePowerState, server_id, "");
            push_command(cmds, CommandKind::TriggerFastCheck, server_id, "");
            push_command(cmds, CommandKind::StartPowerOff, server_id, "");
        }
        push_command(cmds, CommandKind::Broadcast, server_id, "");
        proof {
            let e = Seq::<char>::empty();
            assert(""@ =~= e) by {
                reveal_strlit("");
            }
            let id = server_id@;
            if c == 1 {
                assert(cmds_view(cmds@) =~= old_cmds + decrement_commands(id, caller@, true));
            } else {
                assert(cmds_view(cmds@) =~= old_cmds + decrement_commands(id, caller@, false));
            }
        }
        Ok(())
    }

    /// Spreads one increment (`increment`) or decrement of `server_id` to
    /// every server it transitively depends on, breadth first, visiting each
    /// server at most once; each visited server records the caller
    /// `dep:<parent>`, the id of the server that first led to it. Failures on single servers (an id
    /// that names no server or has no row) are skipped.
    fn cascade_dependencies(&mut self, server_id: &str, caller: &str, increment: bool, cmds: &mut Vec<Command>)
        requires
            old(self).table.wf(),
            room_for(old(self).config.servers@, old(self).table.rows@, server_id@, caller@, increment, 1),
        ensures
            final(self).config == old(self).config,
            final(self).table.wf(),
            same_ids(old(self).table.rows@, final(self).table.rows@),
            exists|p: Seq<(Seq<char>, Seq<char>)>| #[trigger] is_cascade(old(self).config.servers@, server_id@, caller@, p)
                && applied(old(self).config.servers@, old(self).table.rows@, final(self).table.rows@, p.drop_first(), increment)
                && cmds_view(final(cmds)@) == cmds_view(old(cmds)@)
                    + cascade_commands(old(self).config.servers@, old(self).table.rows@, p.drop_first(), increment),
    {
        let ghost servers = self.config.servers@;
        let ghost r0 = self.table.rows@;
        let ghost c0 = cmds_view(cmds@);
        let plan = cascade_plan(self.config.servers.as_slice(), server_id, caller);
        let ghost p = seq![(server_id@, caller@)] + pairs_view(plan@);
        let ghost t = pairs_view(plan@);
        proof {
            lemma_cascade_distinct(servers, server_id@, caller@, p);
            assert(p.drop_first() =~= t);
            assert forall|a: int, b: int| 0 <= a < b < t.len() implies t[a].0 != t[b].0 by {
                assert(t[a] == p[a + 1]);
                assert(t[b] == p[b + 1]);
            }
            assert(applied(servers, r0, r0, t.take(0), increment)) by {
                assert forall|k: int| 0 <= k < r0.len() implies visit_of(t.take(0), #[trigger] r0[k].id@) is None by {
                    lemma_visit_of_absent(t.take(0), r0[k].id@);
                }
            }
            assert(cascade_commands(servers, r0, t.take(0), increment) =~= Seq::empty());
            assert(c0 + Seq::empty() =~= c0);
        }
        let n = plan.len();
        let mut j: usize = 0;
        while j < n
            invariant
                n == plan@.len(),
                j <= n,
                t == pairs_view(plan@),
                is_cascade(servers, server_id@, caller@, p),
                p == seq![(server_id@, caller@)] + t,
                forall|a: int, b: int| 0 <= a < b < t.len() ==> t[a].0 != t[b].0,
                servers == self.config.servers@,
                self.config == old(self).config,
                r0 == old(self).table.rows@,
                rows_wf(r0),
                room_for(servers, r0, server_id@, caller@, increment, 1),
                self.table.wf(),
                same_ids(r0, self.table.rows@),
                applied(servers, r0, self.table.rows@, t.take(j as int), increment),
                cmds_view(cmds@) == c0 + cascade_commands(servers, r0, t.take(j as int), increment),
            decreases n - j,
        {
            let ghost cur = self.table.rows@;
            let ghost before = cmds_view(cmds@);
            proof {
                lemma_cascade_pre(servers, r0, cur, t, p, j as int, server_id@, caller@, increment);
            }
            let res = if increment {
                self.increment_and_start(plan[j].0.as_str(), plan[j].1.as_str(), cmds)
            } else {
                self.decrement_and_stop(plan[j].0.as_str(), plan[j].1.as_str(), cmds)
            };
            proof {
                assert(plan[j as int].0@ == t[j as int].0);
                assert(plan[j as int].1@ == t[j as int].1);
                lemma_cascade_post(servers, r0, cur, self.table.rows@, t, j as int, increment, res is Ok,
                    c0, before, cmds_view(cmds@));
            }
            j += 1;
        }
        proof {
            assert(t.take(n as int) =~= t);
            assert(p.drop_first() =~= t);
        }
    }

    /// A request to keep `server_id` on, on behalf of `caller`: refused with
    /// the server's cycle error when it has one, or when it is not
    /// configured; a no-op when `caller` already holds a count on the
    /// server; otherwise one increment of the server and of every server it
    /// transitively depends on, each counted once.
    pub fn handle_power_on(&mut self, server_id: &str, caller: &str, cmds: &mut Vec<Command>) -> (res: Result<ServerState, String>)
        requires
            old(self).table.wf(),
            accepted(old(self).config, old(self).table.rows@, server_id@, caller@, true) ==> {
                &&& row_room(old(self).table.rows@, server_id@, true)
                &&& room_for(old(self).config.servers@, old(self).table.rows@, server_id@, caller@, true, 1)
            },
        ensures
            final(self).config == old(self).config,
            final(self).table.wf(),
            request_outcome(old(self).config, old(self).table.rows@, final(self).table.rows@,
                cmds_view(old(cmds)@), cmds_view(final(cmds)@), server_id@, caller@, true, res),
    {
        self.handle_counter_request(server_id, caller, true, cmds)
    }

    /// A request to release `server_id`, on behalf of `caller`: refused with
    /// the server's cycle error when it has one, or when it is not
    /// configured; otherwise one decrement (floored at 0, whoever the caller)
    /// of the server and of every server it transitively depends on, each
    /// counted once.
    pub fn handle_power_off(&mut self, server_id: &str, caller: &str, cmds: &mut Vec<Command>) -> (res: Result<ServerState, String>)
        requires
            old(self).table.wf(),
            accepted(old(self).config, old(self).table.rows@, server_id@, caller@, false) ==> {
                &&& row_room(old(self).table.rows@, server_id@, false)
                &&& room_for(old(self).config.servers@, old(self).table.rows@, server_id@, caller@, false, 1)
            },
        ensures
            final(self).config == old(self).config,
            final(self).table.wf(),
            request_outcome(old(self).config, old(self).table.rows@, final(self).table.rows@,
                cmds_view(old(cmds)@), cmds_view(final(cmds)@), server_id@, caller@, false, res),
    {
        self.handle_counter_request(server_id, caller, false, cmds)
    }

    fn handle_counter_request(&mut self, server_id: &str, caller: &str, up: bool, cmds: &mut Vec<Command>) -> (res: Result<ServerState, String>)
        requires
            old(self).table.wf(),
            accepted(old(self).config, old(self).table.rows@, server_id@, caller@, up) ==> {
                &&& row_room(old(self).table.rows@, server_id@, up)
                &&& room_for(old(self).config.servers@, old(self).table.rows@, server_id@, caller@, up, 1)
            },
        ensures
            final(self).config == old(self).config,
            final(self).table.wf(),
            request_outcome(old(self).config, old(self).table.rows@, final(self).table.rows@,
                cmds_view(old(cmds)@), cmds_view(final(cmds)@), server_id@, caller@, up, res),
    {
        let ghost servers = self.config.servers@;
        let ghost r0 = self.table.rows@;
        let ghost c0 = cmds_view(cmds@);
        if let Some(err) = self.config.cycle_errors.get(server_id) {
            return Err(err);
        }
        if find_server(self.config.servers.as_slice(), server_id).is_none() {
            return Err(prefixed("Server not found: ", server_id));
        }
        if up {
            if let Some(i) = self.table.find(server_id) {
                let pos = position_of(&self.table.rows[i].callers, caller);
                if pos < self.table.rows[i].callers.len() {
                    proof {
                        assert(row_of(r0, server_id@) == r0[i as int]);
                        assert(strings_view(r0[i as int].callers@)[pos as int] == caller@);
                    }
                    return match self.get_server_state(server_id) {
                        Some(st) => Ok(st),
                        None => Err(String::from_str("State not found")),
                    };
                }
                proof {
                    assert(row_of(r0, server_id@) == r0[i as int]);
                    if strings_view(r0[i as int].callers@).contains(caller@) {
                        let j = choose|j: int| 0 <= j < r0[i as int].callers@.len()
                            && strings_view(r0[i as int].callers@)[j] == caller@;
                    }
                }
            }
        }
        let first = if up {
            self.increment_and_start(server_id, caller, cmds)
        } else {
            self.decrement_and_stop(server_id, caller, cmds)
        };
        if let Err(e) = first {
            return Err(e);
        }
        let ghost r1 = self.table.rows@;
        let ghost c1 = cmds_view(cmds@);
        proof {
            let i0 = row_index(r0, server_id@)->0;
            assert(row_of(r0, server_id@) == r0[i0]);
            assert(c1 == c0 + visit_commands(servers, r0, (server_id@, caller@), up));
        }
        proof {
            lemma_room_after_first(servers, r0, r1, server_id@, caller@, up);
        }
        self.cascade_dependencies(server_id, caller, up, cmds);
        let ghost r2 = self.table.rows@;
        proof {
            let p = choose|p: Seq<(Seq<char>, Seq<char>)>| #[trigger] is_cascade(servers, server_id@, caller@, p)
                && applied(servers, r1, r2, p.drop_first(), up)
                && cmds_view(cmds@) == c1 + cascade_commands(servers, r1, p.drop_first(), up);
            lemma_compose(servers, r0, r1, r2, c0, c1, cmds_view(cmds@), server_id@, caller@, up, p);
            lemma_same_ids_index(r0, r2, server_id@);
        }
        match self.get_server_state(server_id) {
            Some(st) => Ok(st),
            None => Err(String::from_str("State not found")),
        }
    }

    /// A direct power-on command for `server_id`, bypassing the counter:
    /// refused when the server is not configured; otherwise a log entry and
    /// the power-on command, and the answer is the server's state.
    pub fn handle_force_power_on(&self, server_id: &str, cmds: &mut Vec<Command>) -> (res: Result<ServerState, String>)
        requires
            self.table.wf(),
        ensures
            !server_ids(self.config.servers@).contains(server_id@) ==> (res matches Err(e) && e@ == not_found_msg(server_id@))
                && cmds_view(final(cmds)@) == cmds_view(old(cmds)@),
            server_ids(self.config.servers@).contains(server_id@) ==> cmds_view(final(cmds)@) == cmds_view(old(cmds)@)
                + seq![plain(CommandKind::LogForceOn, server_id@), plain(CommandKind::PowerOnNow, server_id@)],
            server_ids(self.config.servers@).contains(server_id@) && row_index(self.table.rows@, server_id@) is None
                ==> (res matches Err(e) && e@ == "State not found"@),
            known(self.config.servers@, self.table.rows@, server_id@) ==> (res matches Ok(st)
                && describes(st, row_of(self.table.rows@, server_id@), server_of(self.config.servers@, server_id@))),
    {
        if find_server(self.config.servers.as_slice(), server_id).is_none() {
            return Err(prefixed("Server not found: ", server_id));
        }
        let ghost c0 = cmds_view(cmds@);
        push_command(cmds, CommandKind::LogForceOn, server_id, "");
        push_command(cmds, CommandKind::PowerOnNow, server_id, "");
        proof {
            assert(""@ =~= Seq::<char>::empty()) by {
                reveal_strlit("");
            }
            assert(cmds_view(cmds@) =~= c0 + seq![plain(CommandKind::LogForceOn, server_id@), plain(CommandKind::PowerOnNow, server_id@)]);
        }
        match self.get_server_state(server_id) {
            Some(st) => Ok(st),
            None => Err(String::from_str("State not found")),
        }
    }

    /// A direct shutdown of `server_id`, bypassing the counter: refused when
    /// the server is not configured; otherwise a log entry, the cancellation
    /// of a running power-on sequence, the shutdown command, and the reset
    /// of the server's row to counter 0, no callers, power state off.
    pub fn handle_force_power_off(&mut self, server_id: &str, cmds: &mut Vec<Command>) -> (res: Result<ServerState, String>)
        requires
            old(self).table.wf(),
        ensures
            final(self).config == old(self).config,
            final(self).table.wf(),
            same_ids(old(self).table.rows@, final(self).table.rows@),
            !server_ids(old(self).config.servers@).contains(server_id@) ==> (res matches Err(e) && e@ == not_found_msg(server_id@))
                && cmds_view(final(cmds)@) == cmds_view(old(cmds)@)
                && final(self).table.rows@ == old(self).table.rows@,
            server_ids(old(self).config.servers@).contains(server_id@) ==> {
                &&& cmds_view(final(cmds)@) == cmds_view(old(cmds)@) + seq![
                    plain(CommandKind::LogForceOff, server_id@),
                    plain(CommandKind::CancelPowerTask, server_id@),
                    plain(CommandKind::PowerOffNow, server_id@),
                    plain(CommandKind::SaveCounter, server_id@),
                    plain(CommandKind::SavePowerState, server_id@),
                ] + if row_index(old(self).table.rows@, server_id@) is Some {
                    seq![plain(CommandKind::Broadcast, server_id@)]
                } else {
                    Seq::empty()
                }
                &&& reset_row(old(self).table.rows@, final(self).table.rows@, server_id@, 0, PowerState::Off)
            },
            server_ids(old(self).config.servers@).contains(server_id@) && row_index(old(self).table.rows@, server_id@) is None
                ==> (res matches Err(e) && e@ == "State not found"@),
            known(old(self).config.servers@, old(self).table.rows@, server_id@) ==> (res matches Ok(st)
                && describes(st, row_of(final(self).table.rows@, server_id@), server_of(old(self).config.servers@, server_id@))),
    {
        if find_server(self.config.servers.as_slice(), server_id).is_none() {
            return Err(prefixed("Server not found: ", server_id));
        }
        let ghost c0 = cmds_view(cmds@);
        let ghost r0 = self.table.rows@;
        push_command(cmds, CommandKind::LogForceOff, server_id, "");
        push_command(cmds, CommandKind::CancelPowerTask, server_id, "");
        push_command(cmds, CommandKind::PowerOffNow, server_id, "");
        self.reset_counter(server_id, 0, true);
        push_command(cmds, CommandKind::SaveCounter, server_id, "");
        push_command(cmds, CommandKind::SavePowerState, server_id, "");
        proof {
            assert(""@ =~= Seq::<char>::empty()) by {
                reveal_strlit("");
            }
            lemma_same_ids_index(r0, self.table.rows@, server_id@);
        }
        match self.get_server_state(server_id) {
            Some(st) => {
                push_command(cmds, CommandKind::Broadcast, server_id, "");
                proof {
                    assert(cmds_view(cmds@) =~= c0 + seq![
                        plain(CommandKind::LogForceOff, server_id@),
                        plain(CommandKind::CancelPowerTask, server_id@),
                        plain(CommandKind::PowerOffNow, server_id@),
                        plain(CommandKind::SaveCounter, server_id@),
                        plain(CommandKind::SavePowerState, server_id@),
                    ] + seq![plain(CommandKind::Broadcast, server_id@)]);
                }
                Ok(st)
            },
            None => {
                proof {
                    assert(cmds_view(cmds@) =~= c0 + seq![
                        plain(CommandKind::LogForceOff, server_id@),
                        plain(CommandKind::CancelPowerTask, server_id@),
                        plain(CommandKind::PowerOffNow, server_id@),
                        plain(CommandKind::SaveCounter, server_id@),
                        plain(CommandKind::SavePowerState, server_id@),
                    ] + Seq::empty());
                }
                Err(String::from_str("State not found"))
            },
        }
    }

    /// Sets the counter of the row of `server_id` to `value` and clears its
    /// callers; with `off`, also sets its power state to off. A table
    /// without a row for the server is left as it is.
    fn reset_counter(&mut self, server_id: &str, value: i32, off: bool)
        requires
            old(self).table.wf(),
        ensures
            final(self).config == old(self).config,
            final(self).table.wf(),
            same_ids(old(self).table.rows@, final(self).table.rows@),
            reset_row(old(self).table.rows@, final(self).table.rows@, server_id@, value,
                if off { PowerState::Off } else { old(self).table.rows@[row_index(old(self).table.rows@, server_id@)->0].power_state }),
    {
        let ghost r0 = self.table.rows@;
        match self.table.find(server_id) {
            None => {},
            Some(i) => {
                let mut row = self.table.rows.remove(i);
                row.counter = value;
                row.callers = Vec::new();
                if off {
                    row.power_state = PowerState::Off;
                }
                self.table.rows.insert(i, row);
                proof {
                    assert forall|k: int| 0 <= k < r0.len() && k != i implies self.table.rows@[k] == r0[k] by {
                        if k < i {
                        } else {
                        }
                    }
                    assert(same_ids(r0, self.table.rows@)) by {
                        assert forall|k: int| 0 <= k < r0.len() implies #[trigger] self.table.rows@[k].id == r0[k].id by {
                            if k != i {
                            }
                        }
                    }
                    lemma_same_ids_index(r0, self.table.rows@, server_id@);
                }
            },
        }
    }

    /// Overrides the counter of `server_id` with `value` and clears its
    /// callers, whatever the configuration says; the answer is the server's
    /// state, or "State not found".
    pub fn handle_set_counter(&mut self, server_id: &str, value: i32, cmds: &mut Vec<Command>) -> (res: Result<ServerState, String>)
        requires
            old(self).table.wf(),
        ensures
            final(self).config == old(self).config,
            final(self).table.wf(),
            same_ids(old(self).table.rows@, final(self).table.rows@),
            reset_row(old(self).table.rows@, final(self).table.rows@, server_id@, value,
                old(self).table.rows@[row_index(old(self).table.rows@, server_id@)->0].power_state),
            cmds_view(final(cmds)@) == cmds_view(old(cmds)@).push(plain(CommandKind::SaveCounter, server_id@)),
            res is Ok <==> known(old(self).config.servers@, old(self).table.rows@, server_id@),
            res matches Err(e) ==> e@ == "State not found"@,
            res matches Ok(st) ==> describes(st, row_of(final(self).table.rows@, server_id@), server_of(old(self).config.servers@, server_id@)),
    {
        let ghost r0 = self.table.rows@;
        self.reset_counter(server_id, value, false);
        push_command(cmds, CommandKind::SaveCounter, server_id, "");
        proof {
            assert(""@ =~= Seq::<char>::empty()) by {
                reveal_strlit("");
            }
            lemma_same_ids_index(r0, self.table.rows@, server_id@);
        }
        match self.get_server_state(server_id) {
            Some(st) => Ok(st),
            None => Err(String::from_str("State not found")),
        }
    }

    /// The reported state of every configured server that has a row, in row
    /// order.
    pub fn get_all_server_states(&self) -> (res: Vec<ServerState>)
        requires
            self.table.wf(),
        ensures
            res@.len() == configured_rows(self.config.servers@, self.table.rows@).len(),
            forall|j: int| 0 <= j < res@.len() ==> {
                let k = configured_rows(self.config.servers@, self.table.rows@)[j];
                describes(#[trigger] res@[j], self.table.rows@[k], server_of(self.config.servers@, self.table.rows@[k].id@))
            },
    {
        let ghost servers = self.config.servers@;
        let ghost rows = self.table.rows@;
        let mut res: Vec<ServerState> = Vec::new();
        let n = self.table.rows.len();
        let mut i: usize = 0;
        while i < n
            invariant
                n == rows.len(),
                rows == self.table.rows@,
                servers == self.config.servers@,
                i <= n,
                res@.len() == configured_rows(servers, rows.take(i as int)).len(),
                forall|m: int| 0 <= m < configured_rows(servers, rows.take(i as int)).len()
                    ==> 0 <= #[trigger] configured_rows(servers, rows.take(i as int))[m] < i,
                forall|j: int| 0 <= j < res@.len() ==> {
                    let k = configured_rows(servers, rows.take(i as int))[j];
                    describes(#[trigger] res@[j], rows[k], server_of(servers, rows[k].id@))
                },
            decreases n - i,
        {
            let ghost before = configured_rows(servers, rows.take(i as int));
            assert(rows.take(i + 1).drop_last() =~= rows.take(i as int));
            assert(rows.take(i + 1).last() == rows[i as int]);
            match find_server(self.config.servers.as_slice(), self.table.rows[i].id.as_str()) {
                Some(c) => {
                    proof {
                        crate::config::lemma_first_index(server_ids(servers), rows[i as int].id@, c as int);
                    }
                    let st = state_from(&self.table.rows[i], &self.config.servers[c]);
                    res.push(st);
                },
                None => {},
            }
            i += 1;
        }
        assert(rows.take(n as int) =~= rows);
        res
    }

    /// Gives `server_id` a fresh row (off, counter 0, down) unless it has one.
    pub fn ensure_server_exists(&mut self, server_id: &str, cmds: &mut Vec<Command>)
        requires
            old(self).table.wf(),
        ensures
            final(self).config == old(self).config,
            final(self).table.wf(),
            row_index(old(self).table.rows@, server_id@) is Some ==> final(self).table.rows@ == old(self).table.rows@,
            row_index(old(self).table.rows@, server_id@) is None ==> {
                &&& final(self).table.rows@.drop_last() == old(self).table.rows@
                &&& final(self).table.rows@.len() == old(self).table.rows@.len() + 1
                &&& fresh_row(final(self).table.rows@.last(), server_id@)
            },
            cmds_view(final(cmds)@) == cmds_view(old(cmds)@).push(plain(CommandKind::EnsureRow, server_id@)),
    {
        let ghost r0 = self.table.rows@;
        if self.table.find(server_id).is_none() {
            self.table.rows.push(ServerRow::fresh(String::from_str(server_id)));
            proof {
                assert(self.table.rows@.drop_last() =~= r0);
                assert forall|i: int, j: int| 0 <= i < j < self.table.rows@.len() implies self.table.rows@[i].id@ != self.table.rows@[j].id@ by {
                    if j == r0.len() {
                        assert(r0[i].id@ != server_id@);
                    }
                }
            }
        }
        push_command(cmds, CommandKind::EnsureRow, server_id, "");
        proof {
            assert(""@ =~= Seq::<char>::empty()) by {
                reveal_strlit("");
            }
        }
    }

    /// Records the configuration error of `server_id` (or its absence).
    pub fn update_config_error(&mut self, server_id: &str, error: Option<String>, cmds: &mut Vec<Command>)
        requires
            old(self).table.wf(),
        ensures
            final(self).config == old(self).config,
            final(self).table.wf(),
            same_ids(old(self).table.rows@, final(self).table.rows@),
            final(self).table.rows@.len() == old(self).table.rows@.len(),
            match row_index(old(self).table.rows@, server_id@) {
                Some(i) => {
                    &&& (forall|k: int| 0 <= k < old(self).table.rows@.len() && k != i
                        ==> final(self).table.rows@[k] == old(self).table.rows@[k])
                    &&& final(self).table.rows@[i].config_error == error
                    &&& final(self).table.rows@[i].counter == old(self).table.rows@[i].counter
                    &&& final(self).table.rows@[i].callers == old(self).table.rows@[i].callers
                    &&& final(self).table.rows@[i].power_state == old(self).table.rows@[i].power_state
                    &&& final(self).table.rows@[i].status == old(self).table.rows@[i].status
                    &&& final(self).table.rows@[i].checks == old(self).table.rows@[i].checks
                    &&& final(self).table.rows@[i].last_checked == old(self).table.rows@[i].last_checked
                },
                None => final(self).table.rows@ == old(self).table.rows@,
            },
            cmds_view(final(cmds)@) == cmds_view(old(cmds)@).push(plain(CommandKind::SaveConfigError, server_id@)),
    {
        let ghost r0 = self.table.rows@;
        match self.table.find(server_id) {
            None => {},
            Some(i) => {
                let mut row = self.table.rows.remove(i);
                row.config_error = error;
                self.table.rows.insert(i, row);
                proof {
                    assert forall|k: int| 0 <= k < r0.len() && k != i implies self.table.rows@[k] == r0[k] by {
                        if k < i {
                        } else {
                        }
                    }
                    assert(same_ids(r0, self.table.rows@)) by {
                        assert forall|k: int| 0 <= k < r0.len() implies #[trigger] self.table.rows@[k].id == r0[k].id by {
                            if k != i {
                            }
                        }
                    }
                    lemma_same_ids_index(r0, self.table.rows@, server_id@);
                }
            },
        }
        push_command(cmds, CommandKind::SaveConfigError, server_id, "");
        proof {
            assert(""@ =~= Seq::<char>::empty()) by {
                reveal_strlit("");
            }
        }
    }

    /// Records the outcome of one round of health checks of `server_id`:
    /// the status, the check results and their time; the history gets the
    /// display status computed before any transition; a pending transition
    /// that the status confirms (or a failed server found up) moves the
    /// power state. Nothing happens for a server without a row.
    pub fn record_health_check(
        &mut self,
        server_id: &str,
        status: HealthStatus,
        checks: Vec<CheckResult>,
        now: String,
        cmds: &mut Vec<Command>,
    )
        requires
            old(self).table.wf(),
        ensures
            final(self).config == old(self).config,
            final(self).table.wf(),
            same_ids(old(self).table.rows@, final(self).table.rows@),
            match row_index(old(self).table.rows@, server_id@) {
                Some(i) => {
                    let old_row = old(self).table.rows@[i];
                    let new_row = final(self).table.rows@[i];
                    &&& (forall|k: int| 0 <= k < old(self).table.rows@.len() && k != i
                        ==> final(self).table.rows@[k] == old(self).table.rows@[k])
                    &&& new_row.status == status
                    &&& new_row.checks == checks
                    &&& new_row.last_checked == Some(now)
                    &&& new_row.counter == old_row.counter
                    &&& new_row.callers == old_row.callers
                    &&& new_row.config_error == old_row.config_error
                    &&& new_row.power_state == match health_transition_of(old_row.power_state, status) {
                        Some(p) => p,
                        None => old_row.power_state,
                    }
                    &&& cmds_view(final(cmds)@) == cmds_view(old(cmds)@)
                        + seq![(CommandKind::SaveHealth, server_id@,
                            crate::types::server_status_name(display_status(old_row.power_state, old_row.counter as int, status)))]
                        + (if health_transition_of(old_row.power_state, status) is Some {
                            seq![plain(CommandKind::SavePowerState, server_id@)]
                        } else {
                            Seq::empty()
                        })
                        + (if server_ids(old(self).config.servers@).contains(server_id@) {
                            seq![plain(CommandKind::Broadcast, server_id@)]
                        } else {
                            Seq::empty()
                        })
                },
                None => final(self).table.rows@ == old(self).table.rows@ && cmds_view(final(cmds)@) == cmds_view(old(cmds)@),
            },
    {
        let ghost r0 = self.table.rows@;
        let ghost c0 = cmds_view(cmds@);
        let i = match self.table.find(server_id) {
            None => {
                return;
            },
            Some(i) => i,
        };
        let mut row = self.table.rows.remove(i);
        let display = crate::types::display_status_str(row.power_state, row.counter, status);
        row.status = status;
        row.checks = checks;
        row.last_checked = Some(now);
        push_command(cmds, CommandKind::SaveHealth, server_id, display);
        let ghost c1 = cmds_view(cmds@);
        let moved = health_transition(row.power_state, status);
        let changed = moved.is_some();
        if let Some(p) = moved {
            row.power_state = p;
            push_command(cmds, CommandKind::SavePowerState, server_id, "");
        }
        let ghost c2 = cmds_view(cmds@);
        self.table.rows.insert(i, row);
        proof {
            assert(""@ =~= Seq::<char>::empty()) by {
                reveal_strlit("");
            }
            assert forall|k: int| 0 <= k < r0.len() && k != i implies self.table.rows@[k] == r0[k] by {
                if k < i {
                } else {
                }
            }
            assert(same_ids(r0, self.table.rows@)) by {
                assert forall|k: int| 0 <= k < r0.len() implies #[trigger] self.table.rows@[k].id == r0[k].id by {
                    if k != i {
                    }
                }
            }
            lemma_same_ids_index(r0, self.table.rows@, server_id@);
        }
        let configured = find_server(self.config.servers.as_slice(), server_id).is_some();
        if configured {
            push_command(cmds, CommandKind::Broadcast, server_id, "");
        }
        proof {
            if changed {
                if configured {
                    assert(cmds_view(cmds@) =~= c0 + seq![(CommandKind::SaveHealth, server_id@, display@)]
                        + seq![plain(CommandKind::SavePowerState, server_id@)] + seq![plain(CommandKind::Broadcast, server_id@)]);
                } else {
                    assert(cmds_view(cmds@) =~= c0 + seq![(CommandKind::SaveHealth, server_id@, display@)]
                        + seq![plain(CommandKind::SavePowerState, server_id@)] + Seq::empty());
                }
            } else {
                if configured {
                    assert(cmds_view(cmds@) =~= c0 + seq![(CommandKind::SaveHealth, server_id@, display@)]
                        + Seq::empty() + seq![plain(CommandKind::Broadcast, server_id@)]);
                } else {
                    assert(cmds_view(cmds@) =~= c0 + seq![(CommandKind::SaveHealth, server_id@, display@)]
                        + Seq::empty() + Seq::empty());
                }
            }
        }
    }

    /// Marks `server_id` as failed after its power-on sequence timed out.
    pub fn transition_to_failed(&mut self, server_id: &str, cmds: &mut Vec<Command>)
        requires
            old(self).table.wf(),
        ensures
            final(self).config == old(self).config,
            final(self).table.wf(),
            same_ids(old(self).table.rows@, final(self).table.rows@),
            set_power_row(old(self).table.rows@, final(self).table.rows@, server_id@, PowerState::Failed),
            cmds_view(final(cmds)@) == cmds_view(old(cmds)@) + seq![plain(CommandKind::SavePowerState, server_id@)]
                + if known(old(self).config.servers@, old(self).table.rows@, server_id@) {
                    seq![plain(CommandKind::Broadcast, server_id@)]
                } else {
                    Seq::empty()
                },
    {
        let ghost r0 = self.table.rows@;
        let ghost c0 = cmds_view(cmds@);
        self.set_power_state(server_id, PowerState::Failed);
        push_command(cmds, CommandKind::SavePowerState, server_id, "");
        proof {
            assert(""@ =~= Seq::<char>::empty()) by {
                reveal_strlit("");
            }
            lemma_same_ids_index(r0, self.table.rows@, server_id@);
        }
        if self.get_server_state(server_id).is_some() {
            push_command(cmds, CommandKind::Broadcast, server_id, "");
            assert(cmds_view(cmds@) =~= c0 + seq![plain(CommandKind::SavePowerState, server_id@)]
                + seq![plain(CommandKind::Broadcast, server_id@)]);
        } else {
            assert(cmds_view(cmds@) =~= c0 + seq![plain(CommandKind::SavePowerState, server_id@)] + Seq::empty());
        }
    }

    /// After its power-on sequence was cancelled by a configuration reload,
    /// a server still pending on goes back to a stable state: on when its
    /// health is up, off otherwise. Other servers are left as they are.
    pub fn settle_cancelled(&mut self, server_id: &str, cmds: &mut Vec<Command>)
        requires
            old(self).table.wf(),
        ensures
            final(self).config == old(self).config,
            final(self).table.wf(),
            same_ids(old(self).table.rows@, final(self).table.rows@),
            match row_index(old(self).table.rows@, server_id@) {
                Some(i) if old(self).table.rows@[i].power_state == PowerState::PendingOn => {
                    &&& set_power_row(old(self).table.rows@, final(self).table.rows@, server_id@,
                        if old(self).table.rows@[i].status == HealthStatus::Up { PowerState::On } else { PowerState::Off })
                    &&& cmds_view(final(cmds)@) == cmds_view(old(cmds)@) + seq![plain(CommandKind::SavePowerState, server_id@)]
                        + if server_ids(old(self).config.servers@).contains(server_id@) {
                            seq![plain(CommandKind::Broadcast, server_id@)]
                        } else {
                            Seq::empty()
                        }
                },
                _ => final(self).table.rows@ == old(self).table.rows@ && cmds_view(final(cmds)@) == cmds_view(old(cmds)@),
            },
    {
        let ghost r0 = self.table.rows@;
        let ghost c0 = cmds_view(cmds@);
        let i = match self.table.find(server_id) {
            None => {
                return;
            },
            Some(i) => i,
        };
        if self.table.rows[i].power_state != PowerState::PendingOn {
            return;
        }
        let target = if self.table.rows[i].status == HealthStatus::Up { PowerState::On } else { PowerState::Off };
        self.set_power_state(server_id, target);
        push_command(cmds, CommandKind::SavePowerState, server_id, "");
        proof {
            assert(""@ =~= Seq::<char>::empty()) by {
                reveal_strlit("");
            }
            lemma_same_ids_index(r0, self.table.rows@, server_id@);
        }
        if self.get_server_state(server_id).is_some() {
            push_command(cmds, CommandKind::Broadcast, server_id, "");
            assert(cmds_view(cmds@) =~= c0 + seq![plain(CommandKind::SavePowerState, server_id@)]
                + seq![plain(CommandKind::Broadcast, server_id@)]);
        } else {
            assert(cmds_view(cmds@) =~= c0 + seq![plain(CommandKind::SavePowerState, server_id@)] + Seq::empty());
        }
    }

    /// Sets the power state of the row of `server_id`, if it has one.
    fn set_power_state(&mut self, server_id: &str, ps: PowerState)
        requires
            old(self).table.wf(),
        ensures
            final(self).config == old(self).config,
            final(self).table.wf(),
            same_ids(old(self).table.rows@, final(self).table.rows@),
            set_power_row(old(self).table.rows@, final(self).table.rows@, server_id@, ps),
    {
        let ghost r0 = self.table.rows@;
        match self.table.find(server_id) {
            None => {},
            Some(i) => {
                let mut row = self.table.rows.remove(i);
                row.power_state = ps;
                self.table.rows.insert(i, row);
                proof {
                    assert forall|k: int| 0 <= k < r0.len() && k != i implies self.table.rows@[k] == r0[k] by {
                        if k < i {
                        } else {
                        }
                    }
                    assert(same_ids(r0, self.table.rows@)) by {
                        assert forall|k: int| 0 <= k < r0.len() implies #[trigger] self.table.rows@[k].id == r0[k].id by {
                            if k != i {
                            }
                        }
                    }
                    lemma_same_ids_index(r0, self.table.rows@, server_id@);
                }
            },
        }
    }

    /// After the first round of health checks at start-up, corrects the
    /// power state of every configured server to what its health shows: a
    /// server believed on (or starting) that is down is off, a server
    /// believed off (or stopping) that is up is on. Counters and callers are
    /// kept: they are the users' intent.
    pub fn reconcile_power_states(&mut self, cmds: &mut Vec<Command>)
        requires
            old(self).table.wf(),
        ensures
            final(self).config == old(self).config,
            cmds_view(final(cmds)@) == cmds_view(old(cmds)@)
                + reconcile_commands(old(self).config.servers@, old(self).table.rows@),
            final(self).table.wf(),
            same_ids(old(self).table.rows@, final(self).table.rows@),
            forall|k: int| 0 <= k < old(self).table.rows@.len() ==> {
                let old_row = #[trigger] old(self).table.rows@[k];
                let new_row = final(self).table.rows@[k];
                &&& same_identity(old_row, new_row)
                &&& new_row.counter == old_row.counter
                &&& new_row.callers == old_row.callers
                &&& new_row.power_state == if server_ids(old(self).config.servers@).contains(old_row.id@) {
                    match reconcile_transition_of(old_row.power_state, old_row.status) {
                        Some(p) => p,
                        None => old_row.power_state,
                    }
                } else {
                    old_row.power_state
                }
            },
    {
        let ghost r0 = self.table.rows@;
        let ghost servers = self.config.servers@;
        let ghost c0 = cmds_view(cmds@);
        let n = self.config.servers.len();
        let mut j: usize = 0;
        assert(servers.take(0) =~= Seq::<ServerConfig>::empty());
        while j < n
            invariant
                n == servers.len(),
                j <= n,
                servers == self.config.servers@,
                cmds_view(cmds@) == c0 + reconcile_commands(servers.take(j as int), r0),
                self.config == old(self).config,
                r0 == old(self).table.rows@,
                rows_wf(r0),
                self.table.wf(),
                same_ids(r0, self.table.rows@),
                forall|k: int| 0 <= k < r0.len() ==> {
                    let old_row = #[trigger] r0[k];
                    let new_row = self.table.rows@[k];
                    &&& same_identity(old_row, new_row)
                    &&& new_row.counter == old_row.counter
                    &&& new_row.callers == old_row.callers
                    &&& new_row.power_state == if server_ids(servers.take(j as int)).contains(old_row.id@) {
                        match reconcile_transition_of(old_row.power_state, old_row.status) {
                            Some(p) => p,
                            None => old_row.power_state,
                        }
                    } else {
                        old_row.power_state
                    }
                },
            decreases n - j,
        {
            let ghost cur = self.table.rows@;
            let ghost x = servers[j as int].id@;
            let ghost cc = cmds_view(cmds@);
            proof {
                assert(servers.take(j + 1).drop_last() =~= servers.take(j as int));
                assert(servers.take(j + 1).last() == servers[j as int]);
                assert forall|y: Seq<char>| server_ids(servers.take(j + 1)).contains(y)
                    <==> (server_ids(servers.take(j as int)).contains(y) || y == x) by {
                    if server_ids(servers.take(j + 1)).contains(y) {
                        let m = choose|m: int| 0 <= m < j + 1 && #[trigger] server_ids(servers.take(j + 1))[m] == y;
                        if m < j {
                            assert(server_ids(servers.take(j as int))[m] == y);
                        }
                    }
                    if server_ids(servers.take(j as int)).contains(y) {
                        let m = choose|m: int| 0 <= m < j && #[trigger] server_ids(servers.take(j as int))[m] == y;
                        assert(server_ids(servers.take(j + 1))[m] == y);
                    }
                    if y == x {
                        assert(server_ids(servers.take(j + 1))[j as int] == y);
                    }
                }
            }
            match self.table.find(self.config.servers[j].id.as_str()) {
                None => {
                    proof {
                        lemma_same_ids_index(r0, cur, x);
                        assert forall|k: int| 0 <= k < r0.len() implies r0[k].id@ != x by {
                            assert(cur[k].id == r0[k].id);
                        }
                        assert(row_index(r0, x) is None);
                        assert(reconcile_commands(servers.take(j + 1), r0) == reconcile_commands(servers.take(j as int), r0));
                    }
                },
                Some(i) => {
                    let ps = self.table.rows[i].power_state;
                    let st = self.table.rows[i].status;
                    proof {
                        lemma_same_ids_index(r0, cur, x);
                        assert(cur[i as int].id@ == x);
                        assert(r0[i as int].id == cur[i as int].id);
                        assert(row_of(r0, x) == r0[i as int]);
                        if server_ids(servers.take(j as int)).contains(x) {
                            lemma_reconcile_settles(r0[i as int].power_state, r0[i as int].status);
                        }
                    }
                    let ghost fresh = !server_ids(servers.take(j as int)).contains(x)
                        && reconcile_transition_of(r0[i as int].power_state, r0[i as int].status) is Some;
                    proof {
                        let t1 = servers.take(j + 1);
                        assert(row_index(r0, x) is Some);
                        assert(reconcile_commands(t1, r0) == if fresh {
                            reconcile_commands(servers.take(j as int), r0)
                                + seq![plain(CommandKind::SavePowerState, x), plain(CommandKind::Broadcast, x)]
                        } else {
                            reconcile_commands(servers.take(j as int), r0)
                        });
                        assert(reconcile_transition_of(ps, st) is Some <==> fresh);
                    }
                    match reconcile_transition(ps, st) {
                        None => {
                            assert(cmds_view(cmds@) == c0 + reconcile_commands(servers.take(j + 1), r0));
                        },
                        Some(p) => {
                            let mut row = self.table.rows.remove(i);
                            row.power_state = p;
                            self.table.rows.insert(i, row);
                            push_command(cmds, CommandKind::SavePowerState, self.config.servers[j].id.as_str(), "");
                            push_command(cmds, CommandKind::Broadcast, self.config.servers[j].id.as_str(), "");
                            proof {
                                reveal_strlit("");
                                assert(""@ =~= Seq::<char>::empty());
                                assert(cmds_view(cmds@) =~= c0 + reconcile_commands(servers.take(j + 1), r0));
                            }
                        },
                    }
                    proof {
                        assert(cur[i as int].id@ == x);
                        assert(r0[i as int].id == cur[i as int].id);
                        assert forall|k: int| 0 <= k < r0.len() && k != i implies self.table.rows@[k] == cur[k] by {
                            if k < i {
                            } else {
                            }
                        }
                        assert forall|k: int| 0 <= k < r0.len() && k != i implies r0[k].id@ != x by {
                            assert(cur[k].id == r0[k].id);
                        }
                        assert(same_ids(r0, self.table.rows@)) by {
                            assert forall|k: int| 0 <= k < r0.len() implies #[trigger] self.table.rows@[k].id == r0[k].id by {
                                assert(cur[k].id == r0[k].id);
                            }
                        }
                        lemma_same_ids_index(r0, self.table.rows@, x);
                        assert(rows_wf(self.table.rows@));
                    }
                },
            }
            j += 1;
        }
        assert(servers.take(n as int) =~= servers);
    }
}


/// Seconds between health checks while a power transition is under way.
pub open spec fn fast_check_interval() -> u64 {
    3
}

/// Seconds between health checks of a server: the fast interval while its
/// persisted power state is pending on or off, the configured one otherwise.
pub fn health_check_interval(power_state: Option<PowerState>, normal_secs: u64) -> (secs: u64)
    ensures
        secs == match power_state {
            Some(PowerState::PendingOn) | Some(PowerState::PendingOff) => fast_check_interval(),
            _ => normal_secs,
        },
{
    match power_state {
        Some(PowerState::PendingOn) | Some(PowerState::PendingOff) => 3,
        _ => normal_secs,
    }
}

/// Whether a power transition started `elapsed_nanos` nanoseconds ago has
/// exceeded its timeout of `timeout_secs` seconds.
pub fn power_timed_out(elapsed_nanos: u128, timeout_secs: u64) -> (res: bool)
    ensures
        res == (elapsed_nanos > timeout_secs * 1_000_000_000),
{
    let limit: u128 = timeout_secs as u128 * 1_000_000_000u128;
    elapsed_nanos > limit
}

/// Where a power-on sequence stands.
#[derive(Debug, Clone, Copy, PartialEq, Eq, Structural)]
pub enum PowerOnStage {
    /// Waiting for the dependency at this position of `depends_on` to be up.
    WaitDependency(usize),
    /// The power-on command was sent; waiting for the server to be on.
    AwaitOn,
    /// The sequence is over.
    Done,
}

/// What the power-on sequence does next.
#[derive(Debug, Clone, Copy, PartialEq, Eq, Structural)]
pub enum PowerOnAction {
    /// Go on with the next stage at once.
    Continue,
    /// Wait five seconds, then look again.
    Sleep,
    /// Send the power-on command (a failure is only logged), then go on.
    SendPowerOn,
    /// Mark the server failed: the transition timed out.
    MarkFailed,
    /// End the sequence.
    Stop,
}

/// One decision of the power-on sequence of a server with `n_deps`
/// dependencies, from its stage, whether it was cancelled, whether it timed
/// out, the health of the dependency it waits for and its own power state
/// (each as persisted, `None` when unknown).
pub open spec fn power_on_decision(
    stage: PowerOnStage,
    n_deps: int,
    cancelled: bool,
    timed_out: bool,
    dependency_health: Option<HealthStatus>,
    own_power: Option<PowerState>,
) -> (PowerOnStage, PowerOnAction) {
    match stage {
        PowerOnStage::WaitDependency(i) => if i >= n_deps {
            (PowerOnStage::AwaitOn, PowerOnAction::SendPowerOn)
        } else if cancelled {
            (PowerOnStage::Done, PowerOnAction::Stop)
        } else if timed_out {
            (PowerOnStage::Done, PowerOnAction::MarkFailed)
        } else if dependency_health == Some(HealthStatus::Up) {
            (PowerOnStage::WaitDependency((i + 1) as usize), PowerOnAction::Continue)
        } else {
            (stage, PowerOnAction::Sleep)
        },
        PowerOnStage::AwaitOn => if cancelled {
            (PowerOnStage::Done, PowerOnAction::Stop)
        } else if timed_out {
            (PowerOnStage::Done, PowerOnAction::MarkFailed)
        } else {
            match own_power {
                Some(PowerState::PendingOn) | None => (stage, PowerOnAction::Sleep),
                Some(_) => (PowerOnStage::Done, PowerOnAction::Stop),
            }
        },
        PowerOnStage::Done => (PowerOnStage::Done, PowerOnAction::Stop),
    }
}

/// One step of the power-on sequence: the dependencies of the server are
/// waited for in order until each is up; then the power-on command is sent
/// and the server is watched until it is on or leaves the pending-on state
/// (released or forced off). Cancellation ends the sequence, a timeout marks
/// the server failed.
pub fn power_on_step(
    stage: PowerOnStage,
    n_deps: usize,
    cancelled: bool,
    timed_out: bool,
    dependency_health: Option<HealthStatus>,
    own_power: Option<PowerState>,
) -> (res: (PowerOnStage, PowerOnAction))
    ensures
        res == power_on_decision(stage, n_deps as int, cancelled, timed_out, dependency_health, own_power),
{
    match stage {
        PowerOnStage::WaitDependency(i) => {
            if i >= n_deps {
                (PowerOnStage::AwaitOn, PowerOnAction::SendPowerOn)
            } else if cancelled {
                (PowerOnStage::Done, PowerOnAction::Stop)
            } else if timed_out {
                (PowerOnStage::Done, PowerOnAction::MarkFailed)
            } else if dependency_health == Some(HealthStatus::Up) {
                (PowerOnStage::WaitDependency(i + 1), PowerOnAction::Continue)
            } else {
                (stage, PowerOnAction::Sleep)
            }
        },
        PowerOnStage::AwaitOn => {
            if cancelled {
                (PowerOnStage::Done, PowerOnAction::Stop)
            } else if timed_out {
                (PowerOnStage::Done, PowerOnAction::MarkFailed)
            } else {
                match own_power {
                    Some(PowerState::PendingOn) | None => (stage, PowerOnAction::Sleep),
                    Some(_) => (PowerOnStage::Done, PowerOnAction::Stop),
                }
            }
        },
        PowerOnStage::Done => (PowerOnStage::Done, PowerOnAction::Stop),
    }
}

/// The id of the server whose persisted state the stage watches: the
/// dependency waited for, or the server itself once the command was sent.
pub fn watched_server(stage: PowerOnStage, server: &ServerConfig) -> (res: Option<String>)
    ensures
        match stage {
            PowerOnStage::WaitDependency(i) => if (i as int) < server.depends_on@.len() {
                res == Some(server.depends_on@[i as int])
            } else {
                res is None
            },
            PowerOnStage::AwaitOn => res == Some(server.id),
            PowerOnStage::Done => res is None,
        },
{
    match stage {
        PowerOnStage::WaitDependency(i) => {
            if i < server.depends_on.len() {
                Some(server.depends_on[i].clone())
            } else {
                None
            }
        },
        PowerOnStage::AwaitOn => Some(server.id.clone()),
        PowerOnStage::Done => None,
    }
}

} // verus!
