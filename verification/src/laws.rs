//! Properties of the library as a whole: text encodings that read back what
//! they wrote, the reach of a cascade, what a request and its reverse do to
//! the counters, and which servers cycle detection flags.

use vstd::prelude::*;
use crate::cascade::{
    children_of, enqueued, first_visits, is_cascade, lemma_cascade_unique, lemma_visit_brought, tagged,
};
use crate::config::{cycle_flagged, dependency_graph_of, first_index, server_ids, strings_view, ValidatedConfig};
use crate::db::{rows_wf, ServerRow};
use crate::engine::{
    already_holding, applied, callers_after_release, cascade_commands, health_transition_of, reconcile_transition_of, decremented, first_pos, incremented, lemma_same_ids_index, power_on_decision, request_outcome, same_ids, visit_of,
    CommandKind, PowerOnAction, PowerOnStage,
};
use crate::graph::{edge, flagged, flagged_at, is_walk, on_cycle, reaches, step_ok};
use crate::health::{passing, status_of};
use crate::types::{
    display_status, CheckResult,
    health_status_from_name, health_status_name, power_state_from_name, power_state_name,
    server_status_from_name, server_status_name, HealthStatus, PowerState, ServerConfig, ServerState, ServerStatus,
};

verus! {

/// The power state read back from its stored text is the one written.
pub proof fn law_power_state_text_roundtrip(p: PowerState)
    ensures
        power_state_from_name(power_state_name(p)) == Some(p),
{
    reveal_strlit("off");
    reveal_strlit("pending_on");
    reveal_strlit("on");
    reveal_strlit("pending_off");
    reveal_strlit("failed");
    match p {
        PowerState::Off => {},
        PowerState::PendingOn => {
            assert("pending_on"@.len() == 10 && "off"@.len() == 3);
        },
        PowerState::On => {
            assert("on"@.len() == 2 && "off"@.len() == 3);
            assert("on"@.len() == 2 && "pending_on"@.len() == 10);
        },
        PowerState::PendingOff => {
            assert("pending_off"@.len() == 11 && "off"@.len() == 3);
            assert("pending_off"@.len() == 11 && "pending_on"@.len() == 10);
            assert("pending_off"@.len() == 11 && "on"@.len() == 2);
        },
        PowerState::Failed => {
            assert("failed"@.len() == 6 && "off"@.len() == 3);
            assert("failed"@.len() == 6 && "pending_on"@.len() == 10);
            assert("failed"@.len() == 6 && "on"@.len() == 2);
            assert("failed"@.len() == 6 && "pending_off"@.len() == 11);
        },
    }
}

/// The health status read back from its stored text is the one written.
pub proof fn law_health_status_text_roundtrip(h: HealthStatus)
    ensures
        health_status_from_name(health_status_name(h)) == h,
{
    reveal_strlit("up");
    reveal_strlit("degraded");
    reveal_strlit("down");
    match h {
        HealthStatus::Up => {},
        HealthStatus::Degraded => {
            assert("degraded"@.len() == 8 && "up"@.len() == 2);
        },
        HealthStatus::Down => {
            assert("down"@.len() == 4 && "up"@.len() == 2);
            assert("down"@.len() == 4 && "degraded"@.len() == 8);
        },
    }
}

/// The display status read back from the history is the one recorded.
pub proof fn law_display_status_history_roundtrip(s: ServerStatus)
    ensures
        server_status_from_name(server_status_name(s)) == s,
{
    reveal_strlit("off");
    reveal_strlit("on");
    reveal_strlit("turning_on");
    reveal_strlit("turning_off");
    reveal_strlit("degraded");
    reveal_strlit("up");
    match s {
        ServerStatus::Off => {
            assert("off"@.len() == 3 && "on"@.len() == 2);
            assert("off"@.len() == 3 && "turning_on"@.len() == 10);
            assert("off"@.len() == 3 && "turning_off"@.len() == 11);
            assert("off"@.len() == 3 && "degraded"@.len() == 8);
            assert("off"@.len() == 3 && "up"@.len() == 2);
        },
        ServerStatus::On => {},
        ServerStatus::TurningOn => {
            assert("turning_on"@.len() == 10 && "on"@.len() == 2);
        },
        ServerStatus::TurningOff => {
            assert("turning_off"@.len() == 11 && "on"@.len() == 2);
            assert("turning_off"@.len() == 11 && "turning_on"@.len() == 10);
        },
        ServerStatus::Degraded => {
            assert("degraded"@.len() == 8 && "on"@.len() == 2);
            assert("degraded"@.len() == 8 && "turning_on"@.len() == 10);
            assert("degraded"@.len() == 8 && "turning_off"@.len() == 11);
        },
    }
}

/// Step `i` of `w` goes from a server to one of its dependencies.
pub open spec fn id_step(servers: Seq<ServerConfig>, w: Seq<Seq<char>>, i: int) -> bool {
    children_of(servers, w[i]).contains(w[i + 1])
}

/// `w` follows `depends_on` from server to dependency.
pub open spec fn id_walk(servers: Seq<ServerConfig>, w: Seq<Seq<char>>) -> bool {
    &&& w.len() >= 1
    &&& forall|i: int| 0 <= i < w.len() - 1 ==> #[trigger] id_step(servers, w, i)
}

/// `b` is `a` or a server that `a` depends on, directly or not.
pub open spec fn depends_transitively(servers: Seq<ServerConfig>, a: Seq<char>, b: Seq<char>) -> bool {
    exists|w: Seq<Seq<char>>| #[trigger] id_walk(servers, w) && w[0] == a && w.last() == b
}

/// The cascade `p` visits the id `x`.
pub open spec fn visits(p: Seq<(Seq<char>, Seq<char>)>, x: Seq<char>) -> bool {
    exists|k: int| 0 <= k < p.len() && #[trigger] p[k].0 == x
}

proof fn lemma_tagged_in_enqueued(servers: Seq<ServerConfig>, p: Seq<(Seq<char>, Seq<char>)>, a: int, i: int)
    requires
        0 <= a < p.len(),
        0 <= i < children_of(servers, p[a].0).len(),
    ensures
        exists|m: int| 0 <= m < enqueued(servers, p).len()
            && #[trigger] enqueued(servers, p)[m].0 == children_of(servers, p[a].0)[i],
    decreases p.len(),
{
    let q0 = enqueued(servers, p.drop_last());
    let t = tagged(servers, p.last());
    assert(enqueued(servers, p) == q0 + t);
    if a < p.len() - 1 {
        lemma_tagged_in_enqueued(servers, p.drop_last(), a, i);
        assert(p.drop_last()[a] == p[a]);
        let m = choose|m: int| 0 <= m < q0.len() && #[trigger] q0[m].0 == children_of(servers, p.drop_last()[a].0)[i];
        assert(enqueued(servers, p)[m] == q0[m]);
    } else {
        assert(p.last() == p[a]);
        assert(t[i].0 == children_of(servers, p[a].0)[i]);
        assert(enqueued(servers, p)[q0.len() + i] == t[i]);
    }
}

proof fn lemma_first_visits_cover(q: Seq<(Seq<char>, Seq<char>)>, start: Seq<char>, m: int)
    requires
        0 <= m < q.len(),
    ensures
        q[m].0 == start || exists|j: int| 0 <= j < first_visits(q, start).len() && #[trigger] first_visits(q, start)[j].0 == q[m].0,
    decreases q.len(),
{
    let q2 = q.drop_last();
    let r = first_visits(q2, start);
    let x = q.last();
    if m < q.len() - 1 {
        lemma_first_visits_cover(q2, start, m);
        assert(q2[m] == q[m]);
        if q[m].0 != start {
            let j = choose|j: int| 0 <= j < r.len() && #[trigger] r[j].0 == q2[m].0;
            assert(first_visits(q, start)[j] == r[j]);
        }
    } else {
        if x.0 == start {
        } else if exists|j: int| 0 <= j < q.len() - 1 && #[trigger] q[j].0 == x.0 {
            let j = choose|j: int| 0 <= j < q.len() - 1 && #[trigger] q[j].0 == x.0;
            lemma_first_visits_cover(q2, start, j);
            assert(q2[j] == q[j]);
            if q[j].0 != start {
                let j2 = choose|j2: int| 0 <= j2 < r.len() && #[trigger] r[j2].0 == q2[j].0;
                assert(first_visits(q, start)[j2] == r[j2]);
            }
        } else {
            assert(first_visits(q, start)[r.len() as int] == x);
        }
    }
}

proof fn lemma_visited_reachable(
    servers: Seq<ServerConfig>,
    start: Seq<char>,
    caller: Seq<char>,
    p: Seq<(Seq<char>, Seq<char>)>,
    k: int,
)
    requires
        is_cascade(servers, start, caller, p),
        0 <= k < p.len(),
    ensures
        depends_transitively(servers, start, p[k].0),
    decreases k,
{
    if k == 0 {
        let w = seq![start];
        assert(id_walk(servers, w));
    } else {
        let a = lemma_visit_brought(servers, start, caller, p, k);
        let t = tagged(servers, p[a]);
        let i = choose|i: int| 0 <= i < t.len() && t[i] == p[k];
        assert(children_of(servers, p[a].0)[i] == p[k].0);
        lemma_visited_reachable(servers, start, caller, p, a);
        let w = choose|w: Seq<Seq<char>>| #[trigger] id_walk(servers, w) && w[0] == start && w.last() == p[a].0;
        let w2 = w.push(p[k].0);
        assert forall|i: int| 0 <= i < w2.len() - 1 implies #[trigger] id_step(servers, w2, i) by {
            if i < w.len() - 1 {
                assert(id_step(servers, w, i));
            }
        }
        assert(id_walk(servers, w2));
    }
}

proof fn lemma_reachable_visited(
    servers: Seq<ServerConfig>,
    start: Seq<char>,
    caller: Seq<char>,
    p: Seq<(Seq<char>, Seq<char>)>,
    w: Seq<Seq<char>>,
)
    requires
        is_cascade(servers, start, caller, p),
        id_walk(servers, w),
        w[0] == start,
    ensures
        visits(p, w.last()),
    decreases w.len(),
{
    if w.len() == 1 {
        assert(p[0].0 == start);
    } else {
        let w2 = w.drop_last();
        assert forall|i: int| 0 <= i < w2.len() - 1 implies #[trigger] id_step(servers, w2, i) by {
            assert(id_step(servers, w, i));
        }
        lemma_reachable_visited(servers, start, caller, p, w2);
        let a = choose|a: int| 0 <= a < p.len() && #[trigger] p[a].0 == w2.last();
        assert(id_step(servers, w, w.len() - 2));
        let x = w.last();
        let ch = children_of(servers, p[a].0);
        let i = choose|i: int| 0 <= i < ch.len() && ch[i] == x;
        lemma_tagged_in_enqueued(servers, p, a, i);
        let q = enqueued(servers, p);
        let m = choose|m: int| 0 <= m < q.len() && #[trigger] q[m].0 == ch[i];
        lemma_first_visits_cover(q, start, m);
        if q[m].0 == start {
            assert(p[0].0 == x);
        } else {
            let fv = first_visits(q, start);
            let j = choose|j: int| 0 <= j < fv.len() && #[trigger] fv[j].0 == q[m].0;
            assert(p.drop_first()[j] == fv[j]);
            assert(p[j + 1].0 == x);
        }
    }
}

/// A cascade from a server visits exactly that server and every server it
/// transitively depends on.
pub proof fn law_cascade_reaches_exactly_the_dependencies(
    servers: Seq<ServerConfig>,
    start: Seq<char>,
    caller: Seq<char>,
    p: Seq<(Seq<char>, Seq<char>)>,
    x: Seq<char>,
)
    requires
        is_cascade(servers, start, caller, p),
    ensures
        visits(p, x) <==> depends_transitively(servers, start, x),
{
    if visits(p, x) {
        let k = choose|k: int| 0 <= k < p.len() && #[trigger] p[k].0 == x;
        lemma_visited_reachable(servers, start, caller, p, k);
    }
    if depends_transitively(servers, start, x) {
        let w = choose|w: Seq<Seq<char>>| #[trigger] id_walk(servers, w) && w[0] == start && w.last() == x;
        lemma_reachable_visited(servers, start, caller, p, w);
    }
}


/// A request to keep a server on counts once on that server and once on
/// every server it transitively depends on (a server reached along several
/// paths is still counted once), and on no other server; a server whose
/// counter leaves 0 becomes pending on.
pub proof fn law_power_on_counts_each_dependency_once(
    config: ValidatedConfig,
    r0: Seq<ServerRow>,
    r2: Seq<ServerRow>,
    c0: Seq<(CommandKind, Seq<char>, Seq<char>)>,
    c2: Seq<(CommandKind, Seq<char>, Seq<char>)>,
    id: Seq<char>,
    caller: Seq<char>,
    res: Result<ServerState, String>,
)
    requires
        request_outcome(config, r0, r2, c0, c2, id, caller, true, res),
        res is Ok,
        !already_holding(r0, id, caller),
    ensures
        r2.len() == r0.len(),
        forall|k: int| 0 <= k < r0.len() ==> {
            let counted = server_ids(config.servers@).contains(#[trigger] r0[k].id@)
                && depends_transitively(config.servers@, id, r0[k].id@);
            &&& r2[k].id == r0[k].id
            &&& r2[k].counter == r0[k].counter + if counted { 1int } else { 0int }
            &&& r2[k].power_state == if counted && r0[k].counter == 0 { PowerState::PendingOn } else { r0[k].power_state }
        },
{
    let servers = config.servers@;
    let p = choose|p: Seq<(Seq<char>, Seq<char>)>| #[trigger] is_cascade(servers, id, caller, p)
        && applied(servers, r0, r2, p, true) && c2 == c0 + cascade_commands(servers, r0, p, true);
    assert forall|k: int| 0 <= k < r0.len() implies {
        let counted = server_ids(servers).contains(#[trigger] r0[k].id@) && depends_transitively(servers, id, r0[k].id@);
        &&& r2[k].id == r0[k].id
        &&& r2[k].counter == r0[k].counter + if counted { 1int } else { 0int }
        &&& r2[k].power_state == if counted && r0[k].counter == 0 { PowerState::PendingOn } else { r0[k].power_state }
    } by {
        let x = r0[k].id@;
        law_cascade_reaches_exactly_the_dependencies(servers, id, caller, p, x);
        lemma_visit_of_visits(p, x);
    }
}

/// A request to release a server takes one count off that server and off
/// every server it transitively depends on (each once, whoever the caller),
/// never below 0, and touches no other server; a server whose counter
/// reaches 0 becomes pending off.
pub proof fn law_power_off_releases_each_dependency_once(
    config: ValidatedConfig,
    r0: Seq<ServerRow>,
    r2: Seq<ServerRow>,
    c0: Seq<(CommandKind, Seq<char>, Seq<char>)>,
    c2: Seq<(CommandKind, Seq<char>, Seq<char>)>,
    id: Seq<char>,
    caller: Seq<char>,
    res: Result<ServerState, String>,
)
    requires
        request_outcome(config, r0, r2, c0, c2, id, caller, false, res),
        res is Ok,
    ensures
        r2.len() == r0.len(),
        forall|k: int| 0 <= k < r0.len() ==> {
            let counted = server_ids(config.servers@).contains(#[trigger] r0[k].id@)
                && depends_transitively(config.servers@, id, r0[k].id@);
            &&& r2[k].id == r0[k].id
            &&& r2[k].counter == if counted && r0[k].counter != 0 { r0[k].counter - 1 } else { r0[k].counter as int }
            &&& r2[k].power_state == if counted && r0[k].counter == 1 { PowerState::PendingOff } else { r0[k].power_state }
        },
{
    let servers = config.servers@;
    let p = choose|p: Seq<(Seq<char>, Seq<char>)>| #[trigger] is_cascade(servers, id, caller, p)
        && applied(servers, r0, r2, p, false) && c2 == c0 + cascade_commands(servers, r0, p, false);
    assert forall|k: int| 0 <= k < r0.len() implies {
        let counted = server_ids(servers).contains(#[trigger] r0[k].id@) && depends_transitively(servers, id, r0[k].id@);
        &&& r2[k].id == r0[k].id
        &&& r2[k].counter == if counted && r0[k].counter != 0 { r0[k].counter - 1 } else { r0[k].counter as int }
        &&& r2[k].power_state == if counted && r0[k].counter == 1 { PowerState::PendingOff } else { r0[k].power_state }
    } by {
        let x = r0[k].id@;
        law_cascade_reaches_exactly_the_dependencies(servers, id, caller, p, x);
        lemma_visit_of_visits(p, x);
    }
}

proof fn lemma_visit_of_visits(p: Seq<(Seq<char>, Seq<char>)>, x: Seq<char>)
    ensures
        visit_of(p, x) is Some <==> visits(p, x),
    decreases p.len(),
{
    if p.len() > 0 {
        lemma_visit_of_visits(p.drop_last(), x);
        if visits(p, x) {
            let k = choose|k: int| 0 <= k < p.len() && #[trigger] p[k].0 == x;
            if k < p.len() - 1 {
                assert(p.drop_last()[k].0 == x);
            }
        }
        if visits(p.drop_last(), x) {
            let k = choose|k: int| 0 <= k < p.drop_last().len() && #[trigger] p.drop_last()[k].0 == x;
            assert(p[k].0 == x);
        }
    }
}

/// Releasing a server right after asking for it (by a caller that did not
/// already hold it), under the same configuration, gives every counter back
/// its value; when the same caller releases it, every callers list comes
/// back as the same multiset. Excluded: a counter of -1 on a server the
/// requests reach, which the first request raises to 0 and the second
/// leaves at 0.
pub proof fn law_power_off_undoes_power_on(
    config: ValidatedConfig,
    r0: Seq<ServerRow>,
    r1: Seq<ServerRow>,
    r2: Seq<ServerRow>,
    c0: Seq<(CommandKind, Seq<char>, Seq<char>)>,
    c1: Seq<(CommandKind, Seq<char>, Seq<char>)>,
    c2: Seq<(CommandKind, Seq<char>, Seq<char>)>,
    id: Seq<char>,
    on_caller: Seq<char>,
    off_caller: Seq<char>,
    res_on: Result<ServerState, String>,
    res_off: Result<ServerState, String>,
)
    requires
        rows_wf(r0),
        request_outcome(config, r0, r1, c0, c1, id, on_caller, true, res_on),
        request_outcome(config, r1, r2, c1, c2, id, off_caller, false, res_off),
        res_on is Ok,
        !already_holding(r0, id, on_caller),
        forall|k: int| 0 <= k < r0.len() && depends_transitively(config.servers@, id, #[trigger] r0[k].id@)
            ==> r0[k].counter != -1,
    ensures
        res_off is Ok,
        r2.len() == r0.len(),
        forall|k: int| 0 <= k < r0.len() ==> #[trigger] r2[k].counter == r0[k].counter,
        off_caller == on_caller ==> forall|k: int| 0 <= k < r0.len()
            ==> #[trigger] strings_view(r2[k].callers@).to_multiset() == strings_view(r0[k].callers@).to_multiset(),
{
    law_power_on_counts_each_dependency_once(config, r0, r1, c0, c1, id, on_caller, res_on);
    assert(same_ids(r0, r1)) by {
        assert forall|k: int| 0 <= k < r0.len() implies #[trigger] r1[k].id == r0[k].id by {
            assert(server_ids(config.servers@).contains(r0[k].id@) ==> r1[k].id == r0[k].id);
        }
    }
    lemma_same_ids_index(r0, r1, id);
    law_power_off_releases_each_dependency_once(config, r1, r2, c1, c2, id, off_caller, res_off);
    assert forall|k: int| 0 <= k < r0.len() implies #[trigger] r2[k].counter == r0[k].counter by {
        assert(r1[k].id == r0[k].id);
        assert(server_ids(config.servers@).contains(r1[k].id@) == server_ids(config.servers@).contains(r0[k].id@));
    }
    if off_caller == on_caller {
        let servers = config.servers@;
        let p = choose|p: Seq<(Seq<char>, Seq<char>)>| #[trigger] is_cascade(servers, id, on_caller, p)
            && applied(servers, r0, r1, p, true) && c1 == c0 + cascade_commands(servers, r0, p, true);
        let q = choose|p: Seq<(Seq<char>, Seq<char>)>| #[trigger] is_cascade(servers, id, off_caller, p)
            && applied(servers, r1, r2, p, false) && c2 == c1 + cascade_commands(servers, r1, p, false);
        lemma_cascade_unique(servers, id, on_caller, p, q);
        assert forall|k: int| 0 <= k < r0.len()
            implies #[trigger] strings_view(r2[k].callers@).to_multiset() == strings_view(r0[k].callers@).to_multiset() by {
            assert(r1[k].id == r0[k].id);
            if let Some(c) = visit_of(p, r0[k].id@) {
                if server_ids(servers).contains(r0[k].id@) {
                    law_cascade_reaches_exactly_the_dependencies(servers, id, on_caller, p, r0[k].id@);
                    lemma_visit_of_visits(p, r0[k].id@);
                    lemma_take_then_release(strings_view(r0[k].callers@), c);
                }
            }
        }
    }
}

proof fn lemma_take_then_release(s: Seq<Seq<char>>, c: Seq<char>)
    ensures
        callers_after_release(s.push(c), c).to_multiset() =~= s.to_multiset(),
{
    broadcast use vstd::seq_lib::group_seq_properties;
    broadcast use vstd::multiset::group_multiset_axioms;
    let t = s.push(c);
    assert(t[s.len() as int] == c);
    lemma_first_pos_found(t, c, s.len() as int);
    let f = first_pos(t, c);
    assert(t.contains(c));
    assert(callers_after_release(t, c) == t.remove(f));
    assert(t.remove(f).to_multiset() =~= t.to_multiset().remove(c));
    assert(t.to_multiset() =~= s.to_multiset().insert(c));
    assert(s.to_multiset().insert(c).remove(c) =~= s.to_multiset());
}

/// Once a request to release a server went through, no counter is
/// negative that was not negative before.
pub proof fn law_release_keeps_counters_non_negative(
    config: ValidatedConfig,
    r0: Seq<ServerRow>,
    r2: Seq<ServerRow>,
    c0: Seq<(CommandKind, Seq<char>, Seq<char>)>,
    c2: Seq<(CommandKind, Seq<char>, Seq<char>)>,
    id: Seq<char>,
    caller: Seq<char>,
    res: Result<ServerState, String>,
)
    requires
        request_outcome(config, r0, r2, c0, c2, id, caller, false, res),
        forall|k: int| 0 <= k < r0.len() ==> #[trigger] r0[k].counter >= 0,
    ensures
        forall|k: int| 0 <= k < r2.len() ==> #[trigger] r2[k].counter >= 0,
{
    if res is Ok {
        law_power_off_releases_each_dependency_once(config, r0, r2, c0, c2, id, caller, res);
        assert forall|k: int| 0 <= k < r2.len() implies #[trigger] r2[k].counter >= 0 by {
            assert(r0[k].counter >= 0);
        }
    }
}

/// A request keeps the callers list of every server as long as its counter
/// wherever the two agreed before: a count taken adds its caller, a count
/// released removes one entry. (A counter set by hand, whose callers list
/// is emptied, does not agree with it.)
pub proof fn law_requests_keep_callers_in_step_with_counters(
    config: ValidatedConfig,
    r0: Seq<ServerRow>,
    r2: Seq<ServerRow>,
    c0: Seq<(CommandKind, Seq<char>, Seq<char>)>,
    c2: Seq<(CommandKind, Seq<char>, Seq<char>)>,
    id: Seq<char>,
    caller: Seq<char>,
    up: bool,
    res: Result<ServerState, String>,
)
    requires
        request_outcome(config, r0, r2, c0, c2, id, caller, up, res),
    ensures
        r2.len() == r0.len(),
        forall|k: int| 0 <= k < r0.len() && r0[k].counter == r0[k].callers@.len()
            ==> #[trigger] r2[k].counter == r2[k].callers@.len(),
{
    let servers = config.servers@;
    if res is Ok && !(up && already_holding(r0, id, caller)) {
        let p = choose|p: Seq<(Seq<char>, Seq<char>)>| #[trigger] is_cascade(servers, id, caller, p)
            && applied(servers, r0, r2, p, up) && c2 == c0 + cascade_commands(servers, r0, p, up);
        lemma_applied_keeps_in_step(servers, r0, r2, p, up);
    }
}

proof fn lemma_applied_keeps_in_step(
    servers: Seq<ServerConfig>,
    r0: Seq<ServerRow>,
    r2: Seq<ServerRow>,
    p: Seq<(Seq<char>, Seq<char>)>,
    up: bool,
)
    requires
        applied(servers, r0, r2, p, up),
    ensures
        forall|k: int| 0 <= k < r0.len() && r0[k].counter == r0[k].callers@.len()
            ==> #[trigger] r2[k].counter == r2[k].callers@.len(),
{
    assert forall|k: int| 0 <= k < r0.len() && r0[k].counter == r0[k].callers@.len()
        implies #[trigger] r2[k].counter == r2[k].callers@.len() by {
        match visit_of(p, r0[k].id@) {
            Some(c) => {
                if server_ids(servers).contains(r0[k].id@) {
                    lemma_bump_keeps_in_step(r0[k], r2[k], c, up);
                }
            },
            None => {},
        }
    }
}

proof fn lemma_first_pos_found(s: Seq<Seq<char>>, x: Seq<char>, j: int)
    requires
        0 <= j < s.len(),
        s[j] == x,
    ensures
        0 <= first_pos(s, x) < s.len(),
        s[first_pos(s, x)] == x,
    decreases j,
{
    if exists|i: int| 0 <= i < j && s[i] == x {
        let i = choose|i: int| 0 <= i < j && s[i] == x;
        lemma_first_pos_found(s, x, i);
    } else {
        assert(0 <= j < s.len() && s[j] == x && forall|i: int| 0 <= i < j ==> s[i] != x);
    }
}

proof fn lemma_bump_keeps_in_step(old: ServerRow, new: ServerRow, c: Seq<char>, up: bool)
    requires
        if up {
            incremented(old, new, c)
        } else {
            decremented(old, new, c)
        },
        old.counter == old.callers@.len(),
    ensures
        new.counter == new.callers@.len(),
{
    let before = strings_view(old.callers@);
    let after = strings_view(new.callers@);
    assert(before.len() == old.callers@.len());
    assert(after.len() == new.callers@.len());
    if !up && old.counter != 0 {
        if before.contains(c) {
            let j = choose|j: int| 0 <= j < before.len() && before[j] == c;
            lemma_first_pos_found(before, c, j);
        }
    }
}

/// Every server whose node lies on a dependency cycle is reported with a
/// cycle error.
pub proof fn law_servers_on_a_cycle_are_flagged(servers: Seq<ServerConfig>, id: Seq<char>)
    requires
        server_ids(servers).contains(id),
        on_cycle(dependency_graph_of(servers), first_index(server_ids(servers), id) as usize),
    ensures
        cycle_flagged(servers, id),
{
    let g = dependency_graph_of(servers);
    let s = first_index(server_ids(servers), id) as usize;
    lemma_on_cycle_flagged(g, s);
}

/// A server reported with a cycle error has a dependency that lies on a
/// dependency cycle.
pub proof fn law_flagged_servers_depend_on_a_cycle(servers: Seq<ServerConfig>, id: Seq<char>)
    requires
        cycle_flagged(servers, id),
    ensures
        exists|c: usize| #[trigger] edge(dependency_graph_of(servers), first_index(server_ids(servers), id) as usize, c)
            && on_cycle(dependency_graph_of(servers), c),
{
    let g = dependency_graph_of(servers);
    let s = first_index(server_ids(servers), id) as usize;
    crate::config::lemma_first_index_exists(server_ids(servers), id);
    let i = choose|i: int| flagged_at(g, s, i);
    let c = g[s as int][i];
    assert(g[s as int].contains(c));
    assert(edge(g, s, c));
}

/// A configuration without dependency cycles has no cycle errors.
pub proof fn law_acyclic_configurations_have_no_errors(servers: Seq<ServerConfig>, id: Seq<char>)
    requires
        forall|c: usize| !#[trigger] on_cycle(dependency_graph_of(servers), c),
    ensures
        !cycle_flagged(servers, id),
{
    if cycle_flagged(servers, id) {
        law_flagged_servers_depend_on_a_cycle(servers, id);
    }
}

proof fn lemma_reach_trans(g: Seq<Seq<usize>>, a: usize, b: usize, c: usize)
    requires
        reaches(g, a, b),
        reaches(g, b, c),
    ensures
        reaches(g, a, c),
{
    let p = choose|p: Seq<usize>| #[trigger] is_walk(g, p) && p[0] == a && p.last() == b;
    let q = choose|q: Seq<usize>| #[trigger] is_walk(g, q) && q[0] == b && q.last() == c;
    let r = p + q.drop_first();
    assert forall|i: int| 0 <= i < r.len() - 1 implies #[trigger] step_ok(g, r, i) by {
        if i < p.len() - 1 {
            assert(step_ok(g, p, i));
        } else {
            assert(step_ok(g, q, i - p.len() + 1));
            if i == p.len() - 1 {
                assert(r[i] == b);
                assert(q[0] == b);
            }
        }
    }
    if q.len() == 1 {
        assert(r =~= p);
    }
    assert(is_walk(g, r));
}

proof fn lemma_min_reaching(g: Seq<Seq<usize>>, s: usize, i: int) -> (m: int)
    requires
        0 <= i < g[s as int].len(),
        reaches(g, g[s as int][i], s),
    ensures
        0 <= m <= i,
        reaches(g, g[s as int][m], s),
        forall|j: int| 0 <= j < m ==> !reaches(g, #[trigger] g[s as int][j], s),
    decreases i,
{
    if exists|j: int| 0 <= j < i && reaches(g, #[trigger] g[s as int][j], s) {
        let j = choose|j: int| 0 <= j < i && reaches(g, #[trigger] g[s as int][j], s);
        lemma_min_reaching(g, s, j)
    } else {
        i
    }
}

proof fn lemma_on_cycle_flagged(g: Seq<Seq<usize>>, s: usize)
    requires
        on_cycle(g, s),
    ensures
        flagged(g, s),
{
    let p = choose|p: Seq<usize>| #[trigger] is_walk(g, p) && p.len() >= 2 && p[0] == s && p.last() == s;
    assert(step_ok(g, p, 0));
    let c = p[1];
    let i0 = choose|i: int| 0 <= i < g[s as int].len() && g[s as int][i] == c;
    let tail = p.drop_first();
    assert forall|i: int| 0 <= i < tail.len() - 1 implies #[trigger] step_ok(g, tail, i) by {
        assert(step_ok(g, p, i + 1));
    }
    assert(is_walk(g, tail));
    assert(reaches(g, c, s));
    let m = lemma_min_reaching(g, s, i0);
    let cm = g[s as int][m];
    // cm reaches s, and s has an edge back to cm
    assert(g[s as int].contains(cm));
    assert(edge(g, s, cm));
    let q = choose|q: Seq<usize>| #[trigger] is_walk(g, q) && q[0] == cm && q.last() == s;
    let q2 = q.push(cm);
    assert forall|i: int| 0 <= i < q2.len() - 1 implies #[trigger] step_ok(g, q2, i) by {
        if i < q.len() - 1 {
            assert(step_ok(g, q, i));
        }
    }
    assert(is_walk(g, q2));
    assert(on_cycle(g, cm));
    assert forall|j: int| 0 <= j < m implies !reaches(g, #[trigger] g[s as int][j], g[s as int][m]) by {
        if reaches(g, g[s as int][j], cm) {
            lemma_reach_trans(g, g[s as int][j], cm, s);
        }
    }
    assert(flagged_at(g, s, m));
}

/// What one step of a power-on sequence sees: whether it was cancelled,
/// whether it timed out, the health of the dependency it waits for and the
/// server's own power state.
pub type PowerOnInput = (bool, bool, Option<HealthStatus>, Option<PowerState>);

/// The stage of the power-on sequence of a server with `n_deps`
/// dependencies after `t` steps that saw `inputs`; it starts waiting for
/// the first dependency.
pub open spec fn power_on_stage_after(n_deps: int, inputs: Seq<PowerOnInput>, t: int) -> PowerOnStage
    decreases t,
{
    if t <= 0 {
        PowerOnStage::WaitDependency(0)
    } else {
        let x = inputs[t - 1];
        power_on_decision(power_on_stage_after(n_deps, inputs, t - 1), n_deps, x.0, x.1, x.2, x.3).0
    }
}

/// The action of step `t` of that sequence.
pub open spec fn power_on_action_at(n_deps: int, inputs: Seq<PowerOnInput>, t: int) -> PowerOnAction {
    let x = inputs[t];
    power_on_decision(power_on_stage_after(n_deps, inputs, t), n_deps, x.0, x.1, x.2, x.3).1
}

/// At step `u` the sequence waited for dependency `j` and saw it up, neither
/// cancelled nor timed out.
pub open spec fn saw_dependency_up(n_deps: int, inputs: Seq<PowerOnInput>, u: int, j: int) -> bool {
    &&& power_on_stage_after(n_deps, inputs, u) == PowerOnStage::WaitDependency(j as usize)
    &&& inputs[u].2 == Some(HealthStatus::Up)
    &&& !inputs[u].0
    &&& !inputs[u].1
}

/// Before step `t` the sequence saw dependency `j` up while waiting for it.
pub open spec fn dependency_seen_before(n_deps: int, inputs: Seq<PowerOnInput>, t: int, j: int) -> bool {
    exists|u: int| 0 <= u < t && #[trigger] saw_dependency_up(n_deps, inputs, u, j)
}

proof fn lemma_waited_in_order(n_deps: int, inputs: Seq<PowerOnInput>, t: int)
    requires
        0 <= n_deps <= usize::MAX,
        0 <= t <= inputs.len(),
    ensures
        power_on_stage_after(n_deps, inputs, t) matches PowerOnStage::WaitDependency(i) ==> {
            &&& i <= n_deps
            &&& forall|j: int| 0 <= j < i ==> #[trigger] dependency_seen_before(n_deps, inputs, t, j)
        },
    decreases t,
{
    if t > 0 {
        lemma_waited_in_order(n_deps, inputs, t - 1);
        let s = power_on_stage_after(n_deps, inputs, t - 1);
        if let PowerOnStage::WaitDependency(i) = power_on_stage_after(n_deps, inputs, t) {
            if let PowerOnStage::WaitDependency(i0) = s {
                assert forall|j: int| 0 <= j < i implies #[trigger] dependency_seen_before(n_deps, inputs, t, j) by {
                    if j < i0 {
                        assert(dependency_seen_before(n_deps, inputs, t - 1, j));
                        let u = choose|u: int| 0 <= u < t - 1 && #[trigger] saw_dependency_up(n_deps, inputs, u, j);
                    } else {
                        assert(saw_dependency_up(n_deps, inputs, t - 1, j));
                    }
                }
            }
        }
    }
}

proof fn lemma_stays_past_dependencies(n_deps: int, inputs: Seq<PowerOnInput>, u: int, t: int)
    requires
        0 <= u <= t <= inputs.len(),
        !(power_on_stage_after(n_deps, inputs, u) is WaitDependency),
    ensures
        !(power_on_stage_after(n_deps, inputs, t) is WaitDependency),
    decreases t - u,
{
    if t > u {
        lemma_stays_past_dependencies(n_deps, inputs, u, t - 1);
    }
}

/// A power-on sequence sends the power-on command only after it has seen
/// every dependency up, one after the other, and it sends it at most once.
pub proof fn law_power_on_waits_for_every_dependency(n_deps: int, inputs: Seq<PowerOnInput>, t: int)
    requires
        0 <= n_deps <= usize::MAX,
        0 <= t < inputs.len(),
        power_on_action_at(n_deps, inputs, t) == PowerOnAction::SendPowerOn,
    ensures
        forall|j: int| 0 <= j < n_deps ==> #[trigger] dependency_seen_before(n_deps, inputs, t, j),
        forall|t2: int| 0 <= t2 < inputs.len() && t2 != t
            ==> #[trigger] power_on_action_at(n_deps, inputs, t2) != PowerOnAction::SendPowerOn,
{
    lemma_waited_in_order(n_deps, inputs, t);
    assert forall|t2: int| 0 <= t2 < inputs.len() && t2 != t
        implies #[trigger] power_on_action_at(n_deps, inputs, t2) != PowerOnAction::SendPowerOn by {
        if power_on_action_at(n_deps, inputs, t2) == PowerOnAction::SendPowerOn {
            let (a, b) = if t < t2 { (t, t2) } else { (t2, t) };
            assert(power_on_stage_after(n_deps, inputs, a + 1) == PowerOnStage::AwaitOn);
            lemma_stays_past_dependencies(n_deps, inputs, a + 1, b);
        }
    }
}

/// The power-on sequence is still waiting: for one of its dependencies, or
/// for the server to come on after the command was sent.
pub open spec fn still_waiting(stage: PowerOnStage, n_deps: int) -> bool {
    ||| stage matches PowerOnStage::WaitDependency(i) && (i as int) < n_deps
    ||| stage == PowerOnStage::AwaitOn
}

/// A waiting power-on sequence that runs past its timeout, uncancelled,
/// marks the server failed and ends; a cancelled one ends without marking
/// it; a server is marked failed only on a timeout. Once the command was
/// sent, the sequence ends by itself only when the server has left the
/// pending-on state.
pub proof fn law_power_on_times_out_to_failed(
    stage: PowerOnStage,
    n_deps: int,
    cancelled: bool,
    timed_out: bool,
    dependency_health: Option<HealthStatus>,
    own_power: Option<PowerState>,
)
    ensures
        still_waiting(stage, n_deps) && !cancelled && timed_out
            ==> power_on_decision(stage, n_deps, cancelled, timed_out, dependency_health, own_power)
                == (PowerOnStage::Done, PowerOnAction::MarkFailed),
        still_waiting(stage, n_deps) && cancelled
            ==> power_on_decision(stage, n_deps, cancelled, timed_out, dependency_health, own_power)
                == (PowerOnStage::Done, PowerOnAction::Stop),
        power_on_decision(stage, n_deps, cancelled, timed_out, dependency_health, own_power).1 == PowerOnAction::MarkFailed
            ==> timed_out && !cancelled && still_waiting(stage, n_deps),
        stage == PowerOnStage::AwaitOn && !cancelled && !timed_out ==> (
            power_on_decision(stage, n_deps, cancelled, timed_out, dependency_health, own_power).1 == PowerOnAction::Stop
                <==> (own_power is Some && own_power != Some(PowerState::PendingOn))),
{
}

/// A round of health checks moves a server only to confirm a transition:
/// pending off to off exactly when the health is down, pending on (or
/// failed) to on exactly when it is up; nothing else moves.
pub proof fn law_health_confirms_pending_transitions(ps: PowerState, h: HealthStatus)
    ensures
        health_transition_of(ps, h) == Some(PowerState::Off)
            <==> (ps == PowerState::PendingOff && h == HealthStatus::Down),
        health_transition_of(ps, h) == Some(PowerState::On)
            <==> (h == HealthStatus::Up && (ps == PowerState::PendingOn || ps == PowerState::Failed)),
        health_transition_of(ps, h) is Some
            ==> health_transition_of(ps, h) == Some(PowerState::Off) || health_transition_of(ps, h) == Some(PowerState::On),
{
}

/// Start-up reconciliation corrects a server believed on or starting that is
/// down to off, and one believed off or stopping that is up to on, and
/// changes no other power state.
pub proof fn law_reconciliation_follows_health(ps: PowerState, h: HealthStatus)
    ensures
        reconcile_transition_of(ps, h) == Some(PowerState::Off)
            <==> ((ps == PowerState::On || ps == PowerState::PendingOn) && h == HealthStatus::Down),
        reconcile_transition_of(ps, h) == Some(PowerState::On)
            <==> ((ps == PowerState::Off || ps == PowerState::PendingOff) && h == HealthStatus::Up),
        reconcile_transition_of(ps, h) is Some
            ==> reconcile_transition_of(ps, h) == Some(PowerState::Off) || reconcile_transition_of(ps, h) == Some(PowerState::On),
{
}

proof fn lemma_passing_counts(checks: Seq<CheckResult>)
    ensures
        passing(checks) <= checks.len(),
        passing(checks) == checks.len() <==> forall|k: int| 0 <= k < checks.len() ==> #[trigger] checks[k].ok,
        passing(checks) == 0 <==> forall|k: int| 0 <= k < checks.len() ==> !#[trigger] checks[k].ok,
    decreases checks.len(),
{
    if checks.len() > 0 {
        let t = checks.drop_last();
        lemma_passing_counts(t);
        assert forall|k: int| 0 <= k < t.len() implies #[trigger] t[k] == checks[k] by {}
        if forall|k: int| 0 <= k < checks.len() ==> #[trigger] checks[k].ok {
            assert forall|k: int| 0 <= k < t.len() implies #[trigger] t[k].ok by {
                assert(checks[k].ok);
            }
        }
        if forall|k: int| 0 <= k < checks.len() ==> !#[trigger] checks[k].ok {
            assert forall|k: int| 0 <= k < t.len() implies !#[trigger] t[k].ok by {
                assert(!checks[k].ok);
            }
        }
        if passing(checks) == checks.len() {
            assert forall|k: int| 0 <= k < checks.len() implies #[trigger] checks[k].ok by {
                if k < t.len() {
                    assert(t[k].ok);
                }
            }
        }
        if passing(checks) == 0 {
            assert forall|k: int| 0 <= k < checks.len() implies !#[trigger] checks[k].ok by {
                if k < t.len() {
                    assert(!t[k].ok);
                }
            }
        }
    }
}

/// The health of a round of checks: up exactly when there is a check and
/// every check passes, down exactly when no check passes, degraded exactly
/// when some pass and some fail.
pub proof fn law_health_status_of_a_round(checks: Seq<CheckResult>)
    ensures
        status_of(checks) == HealthStatus::Up
            <==> (checks.len() > 0 && forall|k: int| 0 <= k < checks.len() ==> #[trigger] checks[k].ok),
        status_of(checks) == HealthStatus::Down
            <==> forall|k: int| 0 <= k < checks.len() ==> !#[trigger] checks[k].ok,
        status_of(checks) == HealthStatus::Degraded
            <==> ((exists|k: int| 0 <= k < checks.len() && #[trigger] checks[k].ok)
                && (exists|k: int| 0 <= k < checks.len() && !#[trigger] checks[k].ok)),
{
    lemma_passing_counts(checks);
    if checks.len() > 0 && passing(checks) != checks.len() {
        let k = choose|k: int| 0 <= k < checks.len() && !#[trigger] checks[k].ok;
    }
    if passing(checks) > 0 {
        let k = choose|k: int| 0 <= k < checks.len() && #[trigger] checks[k].ok;
    }
}

/// What the dashboard reports of a server: off when nobody holds it and its
/// checks are down; on when it is held and its checks are up; turning off
/// when nobody holds it, it is stopping and some check still answers;
/// turning on when it is held (or its counter is negative), not fully up and
/// starting; degraded in every other case.
pub proof fn law_display_status_meaning(ps: PowerState, counter: int, h: HealthStatus)
    ensures
        display_status(ps, counter, h) == ServerStatus::Off <==> (counter == 0 && h == HealthStatus::Down),
        display_status(ps, counter, h) == ServerStatus::On <==> (counter > 0 && h == HealthStatus::Up),
        display_status(ps, counter, h) == ServerStatus::TurningOff
            <==> (counter == 0 && h != HealthStatus::Down && ps == PowerState::PendingOff),
        display_status(ps, counter, h) == ServerStatus::TurningOn
            <==> (counter != 0 && !(counter > 0 && h == HealthStatus::Up) && ps == PowerState::PendingOn),
        display_status(ps, counter, h) == ServerStatus::Degraded <==> (
            !(counter == 0 && h == HealthStatus::Down) && !(counter > 0 && h == HealthStatus::Up)
                && (if counter == 0 { ps != PowerState::PendingOff } else { ps != PowerState::PendingOn })),
{
}

} // verus!
