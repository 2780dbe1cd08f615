//! Validation of a configuration: the dependency graph between servers and
//! the cycle errors that block power actions on the servers caught in one.

use vstd::prelude::*;
use vstd::string::*;
use crate::graph::{
    cycle_through, flagged, flagged_at, graph_of, has_cycle, is_walk, marks_only, no_marks, on_cycle, search_deps,
    search_from, wf_graph,
};
use crate::text::str_eq;
use crate::types::{AppConfig, HealthCheckConfig, ServerConfig};

verus! {

/// The character views of a sequence of strings.
pub open spec fn strings_view(v: Seq<String>) -> Seq<Seq<char>> {
    Seq::new(v.len(), |i: int| v[i]@)
}

/// The ids of the configured servers, in configuration order.
pub open spec fn server_ids(servers: Seq<ServerConfig>) -> Seq<Seq<char>> {
    Seq::new(servers.len(), |i: int| servers[i].id@)
}

/// `i` is the first position at which `id` occurs in `ids`.
pub open spec fn is_first_index(ids: Seq<Seq<char>>, id: Seq<char>, i: int) -> bool {
    &&& 0 <= i < ids.len()
    &&& ids[i] == id
    &&& forall|j: int| 0 <= j < i ==> ids[j] != id
}

/// The first position of `id` in `ids` (meaningful when `ids` contains it):
/// a server is looked up by id, and the first server with that id wins.
pub open spec fn first_index(ids: Seq<Seq<char>>, id: Seq<char>) -> int {
    choose|i: int| is_first_index(ids, id, i)
}

/// The nodes of the dependencies `deps`, in order, skipping ids that name no
/// configured server.
pub open spec fn dep_nodes(ids: Seq<Seq<char>>, deps: Seq<Seq<char>>) -> Seq<usize>
    decreases deps.len(),
{
    if deps.len() == 0 {
        seq![]
    } else {
        let rest = dep_nodes(ids, deps.drop_last());
        if ids.contains(deps.last()) {
            rest.push(first_index(ids, deps.last()) as usize)
        } else {
            rest
        }
    }
}

/// The dependency graph of a configuration: node `u` is the `u`-th server.
pub open spec fn dependency_graph_of(servers: Seq<ServerConfig>) -> Seq<Seq<usize>> {
    Seq::new(servers.len(), |u: int| dep_nodes(server_ids(servers), strings_view(servers[u].depends_on@)))
}

/// The server with id `id` is reported as caught in a dependency cycle.
pub open spec fn cycle_flagged(servers: Seq<ServerConfig>, id: Seq<char>) -> bool {
    &&& server_ids(servers).contains(id)
    &&& flagged(dependency_graph_of(servers), first_index(server_ids(servers), id) as usize)
}

/// The separator between the ids of a reported cycle.
pub open spec fn arrow_sep() -> Seq<char> {
    " \u{2192} "@
}

/// `parts` joined by `sep`.
pub open spec fn join(parts: Seq<Seq<char>>, sep: Seq<char>) -> Seq<char>
    decreases parts.len(),
{
    if parts.len() == 0 {
        seq![]
    } else if parts.len() == 1 {
        parts[0]
    } else {
        join(parts.drop_last(), sep) + sep + parts.last()
    }
}

/// The ids of the nodes of a walk.
pub open spec fn walk_names(ids: Seq<Seq<char>>, p: Seq<usize>) -> Seq<Seq<char>> {
    Seq::new(p.len(), |i: int| ids[p[i] as int])
}

/// The message for a cycle error naming the closed walk `p`.
pub open spec fn cycle_message(ids: Seq<Seq<char>>, p: Seq<usize>) -> Seq<char> {
    "Cycle detected: "@ + join(walk_names(ids, p), arrow_sep())
}

/// `p` is the closed walk that the search from node `s` reports: it starts
/// and ends at the first dependency of `s` that is flagged.
pub open spec fn reported_walk(g: Seq<Seq<usize>>, s: usize, p: Seq<usize>) -> bool {
    &&& p.len() >= 2
    &&& is_walk(g, p)
    &&& p.last() == p[0]
    &&& exists|i: int| #![trigger flagged_at(g, s, i)]
            flagged_at(g, s, i) && (forall|i2: int| 0 <= i2 < i ==> !flagged_at(g, s, i2)) && p[0] == g[s as int][i]
}

/// `p` is a closed walk of at least one step from `s` back to `s`.
pub open spec fn closed_walk_at(g: Seq<Seq<usize>>, s: usize, p: Seq<usize>) -> bool {
    &&& p.len() >= 2
    &&& is_walk(g, p)
    &&& p[0] == s
    &&& p.last() == s
}

/// `msg` is the error of server `id`: "Cycle detected: " followed by the ids
/// of a closed walk, separated by arrows. The walk runs from the server back
/// to itself when the server lies on a cycle; otherwise it is the cycle that
/// the search through the server's dependencies ran into.
pub open spec fn is_cycle_report(servers: Seq<ServerConfig>, id: Seq<char>, msg: Seq<char>) -> bool {
    let ids = server_ids(servers);
    let g = dependency_graph_of(servers);
    let s = first_index(ids, id) as usize;
    exists|p: Seq<usize>| #[trigger] cycle_message(ids, p) == msg
        && if on_cycle(g, s) {
            closed_walk_at(g, s, p)
        } else {
            reported_walk(g, s, p)
        }
}

/// The closed walk named in the error of the server at node `s`: the walk
/// found by the depth-first search rooted at `s` when it returns to `s`;
/// otherwise the walk found by the search through the dependencies of `s`.
pub open spec fn cycle_walk(g: Seq<Seq<usize>>, s: usize) -> Seq<usize> {
    let n = g.len();
    let own = search_from(g, s, s, 0, marks_only(n, s), seq![s], n);
    if own.0 {
        own.2
    } else {
        search_deps(g, s, 0, no_marks(n), n).2
    }
}

/// The cycle errors of a configuration: for each flagged server id, the
/// message naming its cycle walk.
pub open spec fn cycle_errors_of(servers: Seq<ServerConfig>) -> Map<Seq<char>, Seq<char>> {
    let ids = server_ids(servers);
    Map::new(
        |id: Seq<char>| cycle_flagged(servers, id),
        |id: Seq<char>| cycle_message(ids, cycle_walk(dependency_graph_of(servers), first_index(ids, id) as usize)),
    )
}

/// The map that a list of (key, value) entries stands for; a later entry
/// wins over an earlier one with the same key.
pub open spec fn entries_map(s: Seq<(String, String)>) -> Map<Seq<char>, Seq<char>>
    decreases s.len(),
{
    if s.len() == 0 {
        Map::empty()
    } else {
        entries_map(s.drop_last()).insert(s.last().0@, s.last().1@)
    }
}

proof fn lemma_entries_map_dom(s: Seq<(String, String)>, k: Seq<char>)
    ensures
        entries_map(s).dom().contains(k) <==> exists|i: int| 0 <= i < s.len() && #[trigger] s[i].0@ == k,
    decreases s.len(),
{
    if s.len() > 0 {
        lemma_entries_map_dom(s.drop_last(), k);
        if exists|i: int| 0 <= i < s.len() && #[trigger] s[i].0@ == k {
            let i = choose|i: int| 0 <= i < s.len() && #[trigger] s[i].0@ == k;
            if i < s.len() - 1 {
                assert(s.drop_last()[i].0@ == k);
            }
        }
        if exists|i: int| 0 <= i < s.len() - 1 && #[trigger] s.drop_last()[i].0@ == k {
            let i = choose|i: int| 0 <= i < s.len() - 1 && #[trigger] s.drop_last()[i].0@ == k;
            assert(s[i].0@ == k);
        }
    }
}

proof fn lemma_entries_map_value(s: Seq<(String, String)>, i: int)
    requires
        0 <= i < s.len(),
        forall|j: int| i < j < s.len() ==> #[trigger] s[j].0@ != s[i].0@,
    ensures
        entries_map(s).dom().contains(s[i].0@),
        entries_map(s)[s[i].0@] == s[i].1@,
    decreases s.len(),
{
    if i < s.len() - 1 {
        let t = s.drop_last();
        assert forall|j: int| i < j < t.len() implies #[trigger] t[j].0@ != t[i].0@ by {
            assert(s[j].0@ != s[i].0@);
        }
        lemma_entries_map_value(t, i);
        assert(s[s.len() - 1].0@ != s[i].0@);
    }
}

/// The cycle errors of a configuration, by server id.
pub struct CycleErrors {
    entries: Vec<(String, String)>,
}

impl View for CycleErrors {
    type V = Map<Seq<char>, Seq<char>>;

    closed spec fn view(&self) -> Map<Seq<char>, Seq<char>> {
        entries_map(self.entries@)
    }
}

impl CycleErrors {
    pub fn new() -> (res: Self)
        ensures
            res@ == Map::<Seq<char>, Seq<char>>::empty(),
    {
        CycleErrors { entries: Vec::new() }
    }

    /// Records the error of a server, replacing an earlier one.
    pub fn insert(&mut self, id: String, message: String)
        ensures
            final(self)@ == old(self)@.insert(id@, message@),
    {
        let ghost before = self.entries@;
        self.entries.push((id, message));
        proof {
            assert(self.entries@.drop_last() =~= before);
        }
    }

    pub fn is_empty(&self) -> (res: bool)
        ensures
            res == (self@.dom() =~= Set::<Seq<char>>::empty()),
    {
        proof {
            if self.entries@.len() > 0 {
                let k = self.entries@.last().0@;
                lemma_entries_map_dom(self.entries@, k);
                assert(self@.dom().contains(k));
            } else {
                assert(self@ == Map::<Seq<char>, Seq<char>>::empty());
            }
        }
        self.entries.len() == 0
    }

    pub fn contains_key(&self, id: &str) -> (res: bool)
        ensures
            res == self@.dom().contains(id@),
    {
        proof {
            lemma_entries_map_dom(self.entries@, id@);
        }
        let n = self.entries.len();
        let mut i: usize = 0;
        while i < n
            invariant
                n == self.entries@.len(),
                i <= n,
                forall|j: int| 0 <= j < i ==> #[trigger] self.entries@[j].0@ != id@,
            decreases n - i,
        {
            if str_eq(self.entries[i].0.as_str(), id) {
                proof {
                    lemma_entries_map_dom(self.entries@, id@);
                    assert(self.entries@[i as int].0@ == id@);
                }
                return true;
            }
            i += 1;
        }
        false
    }

    /// The error recorded for a server, if any.
    pub fn get(&self, id: &str) -> (res: Option<String>)
        ensures
            res is Some <==> self@.dom().contains(id@),
            res matches Some(m) ==> m@ == self@[id@],
    {
        proof {
            lemma_entries_map_dom(self.entries@, id@);
        }
        let n = self.entries.len();
        let mut i: usize = n;
        while i > 0
            invariant
                n == self.entries@.len(),
                i <= n,
                forall|j: int| i <= j < n ==> #[trigger] self.entries@[j].0@ != id@,
            decreases i,
        {
            i -= 1;
            if str_eq(self.entries[i].0.as_str(), id) {
                proof {
                    lemma_entries_map_value(self.entries@, i as int);
                }
                return Some(self.entries[i].1.clone());
            }
        }
        None
    }
}

/// The first position of the server with id `id`, if any.
pub fn find_server(servers: &[ServerConfig], id: &str) -> (res: Option<usize>)
    ensures
        res matches Some(i) ==> is_first_index(server_ids(servers@), id@, i as int),
        res is None ==> !server_ids(servers@).contains(id@),
{
    let n = servers.len();
    let mut i: usize = 0;
    while i < n
        invariant
            n == servers@.len(),
            i <= n,
            forall|j: int| 0 <= j < i ==> servers@[j].id@ != id@,
        decreases n - i,
    {
        if str_eq(servers[i].id.as_str(), id) {
            return Some(i);
        }
        i += 1;
    }
    proof {
        if server_ids(servers@).contains(id@) {
            let j = choose|j: int| 0 <= j < n && server_ids(servers@)[j] == id@;
            assert(servers@[j].id@ == id@);
        }
    }
    None
}

pub(crate) proof fn lemma_first_index(ids: Seq<Seq<char>>, id: Seq<char>, i: int)
    requires
        is_first_index(ids, id, i),
    ensures
        first_index(ids, id) == i,
        ids.contains(id),
{
    let k = first_index(ids, id);
    assert(is_first_index(ids, id, k));
    if k < i {
        assert(ids[k] == id);
    } else if i < k {
        assert(ids[i] == id);
    }
    assert(ids[i] == id);
}

/// The dependency nodes of one server.
fn dependency_nodes(servers: &[ServerConfig], deps: &Vec<String>) -> (res: Vec<usize>)
    ensures
        res@ == dep_nodes(server_ids(servers@), strings_view(deps@)),
        forall|k: int| 0 <= k < res@.len() ==> (#[trigger] res@[k] as int) < servers@.len(),
{
    let ghost ids = server_ids(servers@);
    let mut res: Vec<usize> = Vec::new();
    let n = deps.len();
    let mut i: usize = 0;
    while i < n
        invariant
            n == deps@.len(),
            i <= n,
            ids == server_ids(servers@),
            res@ == dep_nodes(ids, strings_view(deps@).take(i as int)),
            forall|k: int| 0 <= k < res@.len() ==> (#[trigger] res@[k] as int) < servers@.len(),
        decreases n - i,
    {
        let ghost before = strings_view(deps@).take(i as int);
        let ghost after = strings_view(deps@).take(i + 1);
        assert(after.drop_last() =~= before);
        assert(after.last() == deps@[i as int]@);
        match find_server(servers, deps[i].as_str()) {
            Some(j) => {
                proof {
                    lemma_first_index(ids, deps@[i as int]@, j as int);
                }
                res.push(j);
            },
            None => {},
        }
        i += 1;
    }
    assert(strings_view(deps@).take(n as int) =~= strings_view(deps@));
    res
}

/// The adjacency lists of the dependency graph of a configuration.
pub fn dependency_graph(servers: &[ServerConfig]) -> (adj: Vec<Vec<usize>>)
    ensures
        graph_of(&adj) == dependency_graph_of(servers@),
        wf_graph(graph_of(&adj)),
{
    let mut adj: Vec<Vec<usize>> = Vec::new();
    let n = servers.len();
    let mut i: usize = 0;
    while i < n
        invariant
            n == servers@.len(),
            i <= n,
            adj@.len() == i,
            forall|u: int| 0 <= u < i ==> #[trigger] adj@[u]@ == dependency_graph_of(servers@)[u],
            forall|u: int, k: int| 0 <= u < i && 0 <= k < adj@[u]@.len() ==> (#[trigger] adj@[u]@[k] as int) < n,
        decreases n - i,
    {
        let nodes = dependency_nodes(servers, &servers[i].depends_on);
        adj.push(nodes);
        i += 1;
    }
    assert(graph_of(&adj) =~= dependency_graph_of(servers@));
    adj
}


proof fn lemma_join_step(parts: Seq<Seq<char>>, sep: Seq<char>, k: int)
    requires
        0 <= k < parts.len(),
    ensures
        join(parts.take(k + 1), sep) == if k == 0 {
            parts[0]
        } else {
            join(parts.take(k), sep) + sep + parts[k]
        },
{
    let t = parts.take(k + 1);
    assert(t.drop_last() =~= parts.take(k));
    if k == 0 {
        assert(t.len() == 1);
    }
}

/// Builds the error message naming the walk `path`.
fn build_cycle_message(servers: &[ServerConfig], path: &Vec<usize>) -> (msg: String)
    requires
        forall|k: int| 0 <= k < path@.len() ==> (#[trigger] path@[k] as int) < servers@.len(),
    ensures
        msg@ == cycle_message(server_ids(servers@), path@),
{
    let ghost ids = server_ids(servers@);
    let ghost parts = walk_names(ids, path@);
    let mut msg = String::from_str("Cycle detected: ");
    let n = path.len();
    let mut k: usize = 0;
    while k < n
        invariant
            n == path@.len(),
            k <= n,
            ids == server_ids(servers@),
            parts == walk_names(ids, path@),
            forall|j: int| 0 <= j < path@.len() ==> (#[trigger] path@[j] as int) < servers@.len(),
            msg@ == "Cycle detected: "@ + join(parts.take(k as int), arrow_sep()),
        decreases n - k,
    {
        proof {
            lemma_join_step(parts, arrow_sep(), k as int);
        }
        if k > 0 {
            msg.append(" \u{2192} ");
        }
        let name = servers[path[k]].id.as_str();
        assert(parts[k as int] == name@);
        msg.append(name);
        proof {
            if k > 0 {
                assert(msg@ =~= "Cycle detected: "@ + (join(parts.take(k as int), arrow_sep()) + arrow_sep() + parts[k as int]));
            } else {
                assert(msg@ =~= "Cycle detected: "@ + parts[0]);
            }
        }
        k += 1;
    }
    assert(parts.take(n as int) =~= parts);
    msg
}

/// Finds, for every configured server, whether the search through its
/// dependencies runs into a cycle, and records an error for each server
/// where it does.
pub fn detect_cycles(servers: &[ServerConfig]) -> (errors: CycleErrors)
    ensures
        forall|id: Seq<char>| #[trigger] errors@.dom().contains(id) <==> cycle_flagged(servers@, id),
        forall|id: Seq<char>| #[trigger] errors@.dom().contains(id) ==> is_cycle_report(servers@, id, errors@[id]),
        errors@ == cycle_errors_of(servers@),
{
    let ghost ids = server_ids(servers@);
    let ghost g = dependency_graph_of(servers@);
    let adj = dependency_graph(servers);
    let mut errors = CycleErrors::new();
    let n = servers.len();
    assert(graph_of(&adj).len() == adj@.len());
    let mut i: usize = 0;
    while i < n
        invariant
            n == servers@.len(),
            i <= n,
            ids == server_ids(servers@),
            g == dependency_graph_of(servers@),
            graph_of(&adj) == g,
            adj@.len() == n,
            wf_graph(g),
            forall|id: Seq<char>| #[trigger] errors@.dom().contains(id) <==>
                (exists|j: int| 0 <= j < i && servers@[j].id@ == id) && cycle_flagged(servers@, id),
            forall|id: Seq<char>| #[trigger] errors@.dom().contains(id) ==> is_cycle_report(servers@, id, errors@[id]),
            forall|id: Seq<char>| #[trigger] errors@.dom().contains(id) ==> errors@[id] == cycle_message(ids, cycle_walk(g, first_index(ids, id) as usize)),
        decreases n - i,
    {
        let ghost id = servers@[i as int].id@;
        assert(ids[i as int] == id);
        match find_server(servers, servers[i].id.as_str()) {
            Some(start) => {
                proof {
                    lemma_first_index(ids, id, start as int);
                }
                let mut visited: Vec<bool> = Vec::new();
                let mut m: usize = 0;
                while m < n
                    invariant
                        n == servers@.len(),
                        m <= n,
                        visited@.len() == m,
                        forall|w: int| 0 <= w < m ==> !visited@[w],
                    decreases n - m,
                {
                    visited.push(false);
                    m += 1;
                }
                let mut path: Vec<usize> = Vec::new();
                assert(visited@ =~= no_marks(n as nat));
                let found = has_cycle(&adj, start, &mut visited, &mut path);
                if found {
                    let ghost on = on_cycle(g, start);
                    let walk = match cycle_through(&adj, start) {
                        Some(w) => w,
                        None => path,
                    };
                    proof {
                        assert(walk@.len() >= 2 && is_walk(g, walk@) && walk@.last() == walk@[0]);
                        assert forall|k: int| 0 <= k < walk@.len() implies (#[trigger] walk@[k] as int) < servers@.len() by {
                            if k < walk@.len() - 1 {
                                assert(crate::graph::step_ok(g, walk@, k));
                            } else {
                                assert(crate::graph::step_ok(g, walk@, 0));
                            }
                        }
                    }
                    let message = build_cycle_message(servers, &walk);
                    proof {
                        assert(first_index(ids, id) as usize == start);
                        if on {
                            assert(closed_walk_at(g, start, walk@));
                        } else {
                            assert(reported_walk(g, start, walk@));
                        }
                        assert(is_cycle_report(servers@, id, message@));
                        assert(g.len() == n);
                        assert(walk@ == cycle_walk(g, start));
                        assert(message@ == cycle_message(ids, cycle_walk(g, first_index(ids, id) as usize)));
                    }
                    errors.insert(servers[i].id.clone(), message);
                }
            },
            None => {
                assert(ids.contains(id));
            },
        }
        i += 1;
    }
    proof {
        assert forall|id: Seq<char>| #[trigger] errors@.dom().contains(id) <==> cycle_flagged(servers@, id) by {
            if cycle_flagged(servers@, id) {
                let j = choose|j: int| 0 <= j < ids.len() && ids[j] == id;
                assert(servers@[j].id@ == id);
            }
        }
        assert(errors@ =~= cycle_errors_of(servers@));
    }
    errors
}

/// The two health checks are field by field the same.
pub open spec fn same_check(a: HealthCheckConfig, b: HealthCheckConfig) -> bool {
    &&& a.check_type == b.check_type
    &&& a.url == b.url
    &&& a.port == b.port
    &&& a.label == b.label
}

/// The two server configurations are field by field the same.
pub open spec fn same_server(a: ServerConfig, b: ServerConfig) -> bool {
    &&& a.id == b.id
    &&& a.name == b.name
    &&& a.hostname == b.hostname
    &&& a.power_on == b.power_on
    &&& a.mac == b.mac
    &&& a.wol_broadcast == b.wol_broadcast
    &&& a.power_off == b.power_off
    &&& a.ssh_user == b.ssh_user
    &&& a.ssh_key_path == b.ssh_key_path
    &&& a.ssh_password == b.ssh_password
    &&& a.ssh_shutdown_cmd == b.ssh_shutdown_cmd
    &&& a.ipmi_ip == b.ipmi_ip
    &&& a.ipmi_user == b.ipmi_user
    &&& a.ipmi_password == b.ipmi_password
    &&& a.depends_on@ == b.depends_on@
    &&& a.health_checks@.len() == b.health_checks@.len()
    &&& forall|k: int| 0 <= k < a.health_checks@.len() ==> same_check(#[trigger] a.health_checks@[k], b.health_checks@[k])
    &&& a.check_interval_secs == b.check_interval_secs
    &&& a.power_timeout_secs == b.power_timeout_secs
}

fn copy_string_opt(s: &Option<String>) -> (res: Option<String>)
    ensures
        res == *s,
{
    match s {
        Some(x) => Some(x.clone()),
        None => None,
    }
}

fn copy_strings(v: &Vec<String>) -> (res: Vec<String>)
    ensures
        res@ == v@,
{
    let mut res: Vec<String> = Vec::new();
    let n = v.len();
    let mut i: usize = 0;
    while i < n
        invariant
            n == v@.len(),
            i <= n,
            res@ == v@.take(i as int),
        decreases n - i,
    {
        res.push(v[i].clone());
        assert(v@.take(i + 1) =~= v@.take(i as int).push(v@[i as int]));
        i += 1;
    }
    assert(v@.take(n as int) =~= v@);
    res
}

/// A field by field copy of a server configuration.
pub fn copy_server(s: &ServerConfig) -> (res: ServerConfig)
    ensures
        same_server(res, *s),
{
    let mut checks: Vec<HealthCheckConfig> = Vec::new();
    let n = s.health_checks.len();
    let mut i: usize = 0;
    while i < n
        invariant
            n == s.health_checks@.len(),
            i <= n,
            checks@.len() == i,
            forall|k: int| 0 <= k < i ==> same_check(#[trigger] checks@[k], s.health_checks@[k]),
        decreases n - i,
    {
        let c = &s.health_checks[i];
        checks.push(HealthCheckConfig {
            check_type: c.check_type,
            url: copy_string_opt(&c.url),
            port: c.port,
            label: copy_string_opt(&c.label),
        });
        i += 1;
    }
    ServerConfig {
        id: s.id.clone(),
        name: s.name.clone(),
        hostname: s.hostname.clone(),
        power_on: s.power_on,
        mac: copy_string_opt(&s.mac),
        wol_broadcast: copy_string_opt(&s.wol_broadcast),
        power_off: s.power_off,
        ssh_user: copy_string_opt(&s.ssh_user),
        ssh_key_path: copy_string_opt(&s.ssh_key_path),
        ssh_password: copy_string_opt(&s.ssh_password),
        ssh_shutdown_cmd: copy_string_opt(&s.ssh_shutdown_cmd),
        ipmi_ip: copy_string_opt(&s.ipmi_ip),
        ipmi_user: copy_string_opt(&s.ipmi_user),
        ipmi_password: copy_string_opt(&s.ipmi_password),
        depends_on: copy_strings(&s.depends_on),
        health_checks: checks,
        check_interval_secs: s.check_interval_secs,
        power_timeout_secs: s.power_timeout_secs,
    }
}

/// A configuration together with the cycle errors found in it.
pub struct ValidatedConfig {
    pub servers: Vec<ServerConfig>,
    pub cycle_errors: CycleErrors,
}

/// Copies the servers of a configuration and finds its dependency cycles.
pub fn validate_config(config: &AppConfig) -> (res: ValidatedConfig)
    ensures
        res.servers@.len() == config.servers@.len(),
        forall|i: int| 0 <= i < config.servers@.len() ==> same_server(#[trigger] res.servers@[i], config.servers@[i]),
        forall|id: Seq<char>| #[trigger] res.cycle_errors@.dom().contains(id) <==> cycle_flagged(config.servers@, id),
        forall|id: Seq<char>| #[trigger] res.cycle_errors@.dom().contains(id)
            ==> is_cycle_report(config.servers@, id, res.cycle_errors@[id]),
        res.cycle_errors@ == cycle_errors_of(config.servers@),
{
    let cycle_errors = detect_cycles(config.servers.as_slice());
    let mut servers: Vec<ServerConfig> = Vec::new();
    let n = config.servers.len();
    let mut i: usize = 0;
    while i < n
        invariant
            n == config.servers@.len(),
            i <= n,
            servers@.len() == i,
            forall|k: int| 0 <= k < i ==> same_server(#[trigger] servers@[k], config.servers@[k]),
        decreases n - i,
    {
        servers.push(copy_server(&config.servers[i]));
        i += 1;
    }
    ValidatedConfig { servers, cycle_errors }
}


proof fn lemma_min_position(ids: Seq<Seq<char>>, id: Seq<char>, i: int) -> (m: int)
    requires
        0 <= i < ids.len(),
        ids[i] == id,
    ensures
        is_first_index(ids, id, m),
    decreases i,
{
    if exists|j: int| 0 <= j < i && ids[j] == id {
        let j = choose|j: int| 0 <= j < i && ids[j] == id;
        lemma_min_position(ids, id, j)
    } else {
        i
    }
}

/// An id that occurs has a first position.
pub proof fn lemma_first_index_exists(ids: Seq<Seq<char>>, id: Seq<char>)
    requires
        ids.contains(id),
    ensures
        is_first_index(ids, id, first_index(ids, id)),
{
    let i = choose|i: int| 0 <= i < ids.len() && ids[i] == id;
    let m = lemma_min_position(ids, id, i);
    lemma_first_index(ids, id, m);
}

/// The dependencies configured for `id`: those of the first server with that
/// id, `None` when no server has it.
pub open spec fn deps_of(servers: Seq<ServerConfig>, id: Seq<char>) -> Option<Seq<Seq<char>>> {
    let ids = server_ids(servers);
    if ids.contains(id) {
        Some(strings_view(servers[first_index(ids, id)].depends_on@))
    } else {
        None
    }
}

/// The ids of `running` whose dependencies differ between the configuration
/// `old` and the configuration `new` (a server that appears or disappears
/// counts as changed), in order.
pub open spec fn changed_dependencies(
    old: Seq<ServerConfig>,
    new: Seq<ServerConfig>,
    running: Seq<Seq<char>>,
) -> Seq<Seq<char>>
    decreases running.len(),
{
    if running.len() == 0 {
        seq![]
    } else {
        let rest = changed_dependencies(old, new, running.drop_last());
        if deps_of(old, running.last()) != deps_of(new, running.last()) {
            rest.push(running.last())
        } else {
            rest
        }
    }
}

fn same_strings(a: &Vec<String>, b: &Vec<String>) -> (res: bool)
    ensures
        res == (strings_view(a@) == strings_view(b@)),
{
    if a.len() != b.len() {
        assert(strings_view(a@).len() != strings_view(b@).len());
        return false;
    }
    let n = a.len();
    let mut i: usize = 0;
    while i < n
        invariant
            n == a@.len(),
            n == b@.len(),
            i <= n,
            forall|j: int| 0 <= j < i ==> a@[j]@ == b@[j]@,
        decreases n - i,
    {
        if !str_eq(a[i].as_str(), b[i].as_str()) {
            assert(strings_view(a@)[i as int] != strings_view(b@)[i as int]);
            return false;
        }
        i += 1;
    }
    assert(strings_view(a@) =~= strings_view(b@));
    true
}

/// Whether the dependencies of `id` differ between `old` and `new`.
fn dependencies_changed(old: &[ServerConfig], new: &[ServerConfig], id: &str) -> (res: bool)
    ensures
        res == (deps_of(old@, id@) != deps_of(new@, id@)),
{
    match (find_server(old, id), find_server(new, id)) {
        (Some(i), Some(j)) => {
            proof {
                lemma_first_index(server_ids(old@), id@, i as int);
                lemma_first_index(server_ids(new@), id@, j as int);
            }
            !same_strings(&old[i].depends_on, &new[j].depends_on)
        },
        (None, None) => false,
        (Some(i), None) => {
            proof {
                lemma_first_index(server_ids(old@), id@, i as int);
            }
            true
        },
        (None, Some(j)) => {
            proof {
                lemma_first_index(server_ids(new@), id@, j as int);
            }
            true
        },
    }
}

/// The running power-on sequences that a configuration reload cancels:
/// those of servers whose dependencies changed. The others go on.
pub fn power_tasks_to_cancel(old: &[ServerConfig], new: &[ServerConfig], running: &Vec<String>) -> (res: Vec<String>)
    ensures
        strings_view(res@) == changed_dependencies(old@, new@, strings_view(running@)),
{
    let ghost r = strings_view(running@);
    let mut res: Vec<String> = Vec::new();
    let n = running.len();
    let mut i: usize = 0;
    while i < n
        invariant
            n == running@.len(),
            r == strings_view(running@),
            i <= n,
            strings_view(res@) == changed_dependencies(old@, new@, r.take(i as int)),
        decreases n - i,
    {
        assert(r.take(i + 1).drop_last() =~= r.take(i as int));
        assert(r.take(i + 1).last() == running@[i as int]@);
        if dependencies_changed(old, new, running[i].as_str()) {
            let ghost before = strings_view(res@);
            res.push(running[i].clone());
            assert(strings_view(res@) =~= before.push(running@[i as int]@));
        }
        i += 1;
    }
    assert(r.take(n as int) =~= r);
    res
}

} // verus!
