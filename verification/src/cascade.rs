//! The breadth-first walk of the `depends_on` graph that spreads one
//! counter change of a server to every server it transitively depends on.

use vstd::prelude::*;
use vstd::string::*;
use crate::config::{find_server, first_index, server_ids, strings_view};
use crate::types::ServerConfig;

verus! {

/// The dependency ids of the server with id `id`: those of the first server
/// configured with that id, none when no server has it.
pub open spec fn children_of(servers: Seq<ServerConfig>, id: Seq<char>) -> Seq<Seq<char>> {
    let ids = server_ids(servers);
    if ids.contains(id) {
        strings_view(servers[first_index(ids, id)].depends_on@)
    } else {
        seq![]
    }
}

/// The caller recorded on a dependency of `parent`: `dep:` and the id of
/// `parent`.
pub open spec fn dep_caller(parent: Seq<char>) -> Seq<char> {
    "dep:"@ + parent
}

/// The queue entries that visiting `v` (an id and its caller) appends: one
/// per dependency of `v.0`, in order, each with the caller naming `v.0`.
pub open spec fn tagged(servers: Seq<ServerConfig>, v: (Seq<char>, Seq<char>)) -> Seq<(Seq<char>, Seq<char>)> {
    let ch = children_of(servers, v.0);
    Seq::new(ch.len(), |k: int| (ch[k], dep_caller(v.0)))
}

/// Everything appended to the queue by the visits `p`, in visit order.
pub open spec fn enqueued(servers: Seq<ServerConfig>, p: Seq<(Seq<char>, Seq<char>)>) -> Seq<(Seq<char>, Seq<char>)>
    decreases p.len(),
{
    if p.len() == 0 {
        seq![]
    } else {
        enqueued(servers, p.drop_last()) + tagged(servers, p.last())
    }
}

/// The entries of `q` whose id is neither `start` nor the id of an earlier
/// entry: the first occurrence of every id, in queue order.
pub open spec fn first_visits(q: Seq<(Seq<char>, Seq<char>)>, start: Seq<char>) -> Seq<(Seq<char>, Seq<char>)>
    decreases q.len(),
{
    if q.len() == 0 {
        seq![]
    } else {
        let r = first_visits(q.drop_last(), start);
        let x = q.last();
        if x.0 == start || (exists|j: int| 0 <= j < q.len() - 1 && #[trigger] q[j].0 == x.0) {
            r
        } else {
            r.push(x)
        }
    }
}

/// The number of first visits among the queue entries appended by the
/// first `k` visits of `p`.
pub open spec fn reached(servers: Seq<ServerConfig>, start: Seq<char>, p: Seq<(Seq<char>, Seq<char>)>, k: int) -> nat {
    first_visits(enqueued(servers, p.take(k)), start).len()
}

/// `p` is the sequence of visits of the breadth-first cascade from `start`
/// on behalf of `caller`: the start itself, then each id in the order in
/// which it is first taken from the queue, with the caller of the entry that
/// first brought it there; each visit is brought by an earlier one.
pub open spec fn is_cascade(
    servers: Seq<ServerConfig>,
    start: Seq<char>,
    caller: Seq<char>,
    p: Seq<(Seq<char>, Seq<char>)>,
) -> bool {
    &&& p.len() >= 1
    &&& p[0] == (start, caller)
    &&& p.drop_first() == first_visits(enqueued(servers, p), start)
    &&& forall|k: int| 1 <= k < p.len() ==> #[trigger] reached(servers, start, p, k) >= k
}

/// The character views of a list of string pairs.
pub open spec fn pairs_view(s: Seq<(String, String)>) -> Seq<(Seq<char>, Seq<char>)> {
    Seq::new(s.len(), |i: int| (s[i].0@, s[i].1@))
}

/// The number of configured servers whose id is not in `seen`.
pub open spec fn pending(servers: Seq<ServerConfig>, seen: Seq<Seq<char>>) -> nat
    decreases servers.len(),
{
    if servers.len() == 0 {
        0
    } else {
        pending(servers.drop_last(), seen) + if seen.contains(servers.last().id@) { 0nat } else { 1nat }
    }
}

proof fn lemma_pending_mono(servers: Seq<ServerConfig>, seen: Seq<Seq<char>>, seen2: Seq<Seq<char>>, x: Seq<char>)
    requires
        forall|y: Seq<char>| seen.contains(y) ==> seen2.contains(y),
    ensures
        pending(servers, seen2) <= pending(servers, seen),
        server_ids(servers).contains(x) && !seen.contains(x) && seen2.contains(x)
            ==> pending(servers, seen2) < pending(servers, seen),
    decreases servers.len(),
{
    if servers.len() > 0 {
        let s2 = servers.drop_last();
        lemma_pending_mono(s2, seen, seen2, x);
        if server_ids(servers).contains(x) && !seen.contains(x) && seen2.contains(x) {
            let i = choose|i: int| 0 <= i < servers.len() && server_ids(servers)[i] == x;
            if i < servers.len() - 1 {
                assert(server_ids(s2)[i] == x);
            }
        }
    }
}

pub(crate) proof fn lemma_first_visits_from(q: Seq<(Seq<char>, Seq<char>)>, start: Seq<char>)
    ensures
        forall|k: int| 0 <= k < first_visits(q, start).len()
            ==> exists|j: int| 0 <= j < q.len() && q[j] == #[trigger] first_visits(q, start)[k],
    decreases q.len(),
{
    if q.len() > 0 {
        let q2 = q.drop_last();
        lemma_first_visits_from(q2, start);
        let fv = first_visits(q, start);
        assert forall|k: int| 0 <= k < fv.len() implies exists|j: int| 0 <= j < q.len() && q[j] == #[trigger] fv[k] by {
            if k < first_visits(q2, start).len() {
                let j = choose|j: int| 0 <= j < q2.len() && q2[j] == #[trigger] first_visits(q2, start)[k];
                assert(q[j] == fv[k]);
            } else {
                assert(q[q.len() - 1] == fv[k]);
            }
        }
    }
}

fn contains_string(v: &Vec<String>, s: &String) -> (res: bool)
    ensures
        res == strings_view(v@).contains(s@),
{
    let n = v.len();
    let mut i: usize = 0;
    while i < n
        invariant
            n == v@.len(),
            i <= n,
            forall|j: int| 0 <= j < i ==> v@[j]@ != s@,
        decreases n - i,
    {
        if v[i] == *s {
            assert(strings_view(v@)[i as int] == s@);
            return true;
        }
        i += 1;
    }
    proof {
        if strings_view(v@).contains(s@) {
            let j = choose|j: int| 0 <= j < n && strings_view(v@)[j] == s@;
            assert(v@[j]@ == s@);
        }
    }
    false
}

/// `"dep:" + parent`.
fn make_dep_caller(parent: &str) -> (res: String)
    ensures
        res@ == dep_caller(parent@),
{
    let mut res = String::from_str("dep:");
    res.append(parent);
    res
}

/// Appends to `queue` one entry per dependency of `id`, each with the
/// caller `dep:<id>`.
fn push_children(servers: &[ServerConfig], id: &str, caller: &str, queue: &mut Vec<(String, String)>)
    ensures
        pairs_view(final(queue)@) == pairs_view(old(queue)@) + tagged(servers@, (id@, caller@)),
{
    let ghost start_q = pairs_view(queue@);
    match find_server(servers, id) {
        Some(i) => {
            proof {
                crate::config::lemma_first_index(server_ids(servers@), id@, i as int);
            }
            let ghost ch = children_of(servers@, id@);
            let tag = make_dep_caller(id);
            let deps = &servers[i].depends_on;
            assert(ch == strings_view(deps@));
            let n = deps.len();
            let mut k: usize = 0;
            while k < n
                invariant
                    n == deps@.len(),
                    k <= n,
                    ch == strings_view(deps@),
                    tag@ == dep_caller(id@),
                    tagged(servers@, (id@, caller@)) == Seq::new(ch.len(), |m: int| (ch[m], dep_caller(id@))),
                    pairs_view(queue@) == start_q + tagged(servers@, (id@, caller@)).take(k as int),
                decreases n - k,
            {
                let ghost before = pairs_view(queue@);
                queue.push((deps[k].clone(), tag.clone()));
                assert(pairs_view(queue@) =~= before.push((ch[k as int], tag@)));
                assert(tagged(servers@, (id@, caller@)).take(k + 1) =~= tagged(servers@, (id@, caller@)).take(k as int).push((ch[k as int], tag@)));
                k += 1;
            }
            assert(tagged(servers@, (id@, caller@)).take(n as int) =~= tagged(servers@, (id@, caller@)));
        },
        None => {
            assert(tagged(servers@, (id@, caller@)) =~= Seq::<(Seq<char>, Seq<char>)>::empty());
            assert(pairs_view(queue@) =~= start_q + tagged(servers@, (id@, caller@)));
        },
    }
}

/// The servers reached by the cascade from `start` on behalf of `caller`,
/// each with the caller to record on it, in the order they are reached.
/// Every id is visited at most once, so cycles and diamonds are harmless.
pub fn cascade_plan(servers: &[ServerConfig], start: &str, caller: &str) -> (plan: Vec<(String, String)>)
    ensures
        is_cascade(servers@, start@, caller@, seq![(start@, caller@)] + pairs_view(plan@)),
{
    let mut visited: Vec<String> = Vec::new();
    visited.push(String::from_str(start));
    let mut visits: Vec<(String, String)> = Vec::new();
    let mut queue: Vec<(String, String)> = Vec::new();
    push_children(servers, start, caller, &mut queue);
    let ghost p0 = seq![(start@, caller@)];
    proof {
        assert(p0.drop_last() =~= Seq::<(Seq<char>, Seq<char>)>::empty());
        assert(enqueued(servers@, Seq::<(Seq<char>, Seq<char>)>::empty()) =~= Seq::<(Seq<char>, Seq<char>)>::empty());
        assert(enqueued(servers@, p0) =~= tagged(servers@, (start@, caller@)));
        assert(pairs_view(queue@) =~= tagged(servers@, (start@, caller@)));
        assert(pairs_view(queue@).take(0) =~= Seq::<(Seq<char>, Seq<char>)>::empty());
    }
    let mut h: usize = 0;
    while h < queue.len()
        invariant
            h <= queue@.len(),
            pairs_view(queue@) == enqueued(servers@, seq![(start@, caller@)] + pairs_view(visits@)),
            first_visits(pairs_view(queue@).take(h as int), start@) == pairs_view(visits@),
            visited@.len() == visits@.len() + 1,
            visited@[0]@ == start@,
            forall|k: int| 1 <= k < visited@.len() ==> #[trigger] visited@[k]@ == visits@[k - 1].0@,
            forall|j: int| 0 <= j < h ==> strings_view(visited@).contains(#[trigger] queue@[j].0@),
            forall|k: int| 1 <= k < pairs_view(visits@).len() + 1 ==> #[trigger] reached(
                servers@, start@, seq![(start@, caller@)] + pairs_view(visits@), k) >= k,
        decreases pending(servers@, strings_view(visited@)), queue@.len() - h,
    {
        let ghost p = seq![(start@, caller@)] + pairs_view(visits@);
        let ghost q = pairs_view(queue@);
        let ghost seen = strings_view(visited@);
        let id = queue[h].0.clone();
        let c = queue[h].1.clone();
        assert(q[h as int] == (id@, c@));
        assert(q.take(h + 1).drop_last() =~= q.take(h as int));
        assert(q.take(h + 1).last() == q[h as int]);
        if contains_string(&visited, &id) {
            proof {
                let k = choose|k: int| 0 <= k < seen.len() && seen[k] == id@;
                if k > 0 {
                    assert(visited@[k]@ == visits@[k - 1].0@);
                    lemma_first_visits_from(q.take(h as int), start@);
                    let fv = first_visits(q.take(h as int), start@);
                    assert(fv[k - 1] == pairs_view(visits@)[k - 1]);
                    let j = choose|j: int| 0 <= j < h && q.take(h as int)[j] == #[trigger] fv[k - 1];
                    assert(q.take(h + 1)[j].0 == id@);
                }
                assert(first_visits(q.take(h + 1), start@) == first_visits(q.take(h as int), start@));
                lemma_pending_mono(servers@, seen, seen, id@);
            }
        } else {
            proof {
                assert(seen[0] == start@);
                assert forall|j: int| 0 <= j < h implies #[trigger] q.take(h + 1)[j].0 != id@ by {
                    assert(seen.contains(queue@[j].0@));
                }
                assert(first_visits(q.take(h + 1), start@) == first_visits(q.take(h as int), start@).push(q[h as int]));
            }
            visited.push(id.clone());
            visits.push((id.clone(), c.clone()));
            let ghost p2 = seq![(start@, caller@)] + pairs_view(visits@);
            proof {
                assert(pairs_view(visits@) =~= pairs_view(visits@).drop_last().push((id@, c@)));
                assert(p2 =~= p.push((id@, c@)));
                assert(p2.drop_last() =~= p);
                assert(strings_view(visited@) =~= seen.push(id@));
                assert forall|y: Seq<char>| seen.contains(y) implies strings_view(visited@).contains(y) by {
                    let k = choose|k: int| 0 <= k < seen.len() && seen[k] == y;
                    assert(strings_view(visited@)[k] == y);
                }
                lemma_pending_mono(servers@, seen, strings_view(visited@), id@);
                assert(strings_view(visited@)[seen.len() as int] == id@);
                let l = p.len() as int;
                assert forall|k: int| 1 <= k < pairs_view(visits@).len() + 1 implies #[trigger] reached(
                    servers@, start@, p2, k) >= k by {
                    if k < l {
                        assert(p2.take(k) =~= p.take(k));
                        assert(reached(servers@, start@, p, k) >= k);
                    } else {
                        assert(p2.take(l) =~= p);
                        assert(q =~= q.take(h + 1) + q.skip(h + 1));
                        lemma_first_visits_append(q.take(h + 1), q.skip(h + 1), start@);
                    }
                }
            }
            let ghost before_push = pairs_view(queue@);
            push_children(servers, id.as_str(), c.as_str(), &mut queue);
            proof {
                assert(pairs_view(queue@).take(h + 1) =~= q.take(h + 1));
                if !server_ids(servers@).contains(id@) {
                    assert(tagged(servers@, (id@, c@)) =~= Seq::<(Seq<char>, Seq<char>)>::empty());
                    assert(pairs_view(queue@) =~= q);
                }
                assert forall|j: int| 0 <= j < h + 1 implies strings_view(visited@).contains(#[trigger] queue@[j].0@) by {
                    if j < h {
                        assert(seen.contains(q[j].0));
                        let k = choose|k: int| 0 <= k < seen.len() && seen[k] == q[j].0;
                        assert(strings_view(visited@)[k] == q[j].0);
                        assert(pairs_view(queue@)[j] == q[j]);
                    } else {
                        assert(pairs_view(queue@)[j] == q[j]);
                        assert(strings_view(visited@)[seen.len() as int] == id@);
                    }
                }
                assert forall|k: int| 1 <= k < visited@.len() implies #[trigger] visited@[k]@ == visits@[k - 1].0@ by {
                    if k < visited@.len() - 1 {
                        assert(seen[k] == pairs_view(visits@)[k - 1].0);
                    }
                }
            }
        }
        h += 1;
    }
    proof {
        assert(pairs_view(queue@).take(h as int) =~= pairs_view(queue@));
        let p = seq![(start@, caller@)] + pairs_view(visits@);
        assert(p.drop_first() =~= pairs_view(visits@));
    }
    visits
}


proof fn lemma_first_visits_distinct(q: Seq<(Seq<char>, Seq<char>)>, start: Seq<char>)
    ensures
        forall|a: int, b: int| 0 <= a < b < first_visits(q, start).len()
            ==> first_visits(q, start)[a].0 != first_visits(q, start)[b].0,
        forall|a: int| 0 <= a < first_visits(q, start).len() ==> first_visits(q, start)[a].0 != start,
    decreases q.len(),
{
    if q.len() > 0 {
        let q2 = q.drop_last();
        lemma_first_visits_distinct(q2, start);
        lemma_first_visits_from(q2, start);
        let r = first_visits(q2, start);
        let x = q.last();
        if !(x.0 == start || (exists|j: int| 0 <= j < q.len() - 1 && #[trigger] q[j].0 == x.0)) {
            assert forall|a: int| 0 <= a < r.len() implies r[a].0 != x.0 by {
                let j = choose|j: int| 0 <= j < q2.len() && q2[j] == #[trigger] r[a];
                assert(q[j].0 == q2[j].0);
            }
        }
    }
}

/// The visits of a cascade are of pairwise different ids.
pub proof fn lemma_cascade_distinct(
    servers: Seq<ServerConfig>,
    start: Seq<char>,
    caller: Seq<char>,
    p: Seq<(Seq<char>, Seq<char>)>,
)
    requires
        is_cascade(servers, start, caller, p),
    ensures
        forall|a: int, b: int| 0 <= a < b < p.len() ==> p[a].0 != p[b].0,
{
    let q = enqueued(servers, p);
    lemma_first_visits_distinct(q, start);
    assert forall|a: int, b: int| 0 <= a < b < p.len() implies p[a].0 != p[b].0 by {
        if a == 0 {
            assert(p[b] == p.drop_first()[b - 1]);
        } else {
            assert(p[a] == p.drop_first()[a - 1]);
            assert(p[b] == p.drop_first()[b - 1]);
        }
    }
}

proof fn lemma_first_visits_append(
    a: Seq<(Seq<char>, Seq<char>)>,
    b: Seq<(Seq<char>, Seq<char>)>,
    start: Seq<char>,
)
    ensures
        first_visits(a, start).len() <= first_visits(a + b, start).len(),
        first_visits(a + b, start).take(first_visits(a, start).len() as int) == first_visits(a, start),
        forall|i: int| first_visits(a, start).len() <= i < first_visits(a + b, start).len()
            ==> b.contains(#[trigger] first_visits(a + b, start)[i]),
    decreases b.len(),
{
    let fa = first_visits(a, start);
    if b.len() == 0 {
        assert(a + b =~= a);
        assert(fa.take(fa.len() as int) =~= fa);
    } else {
        let b2 = b.drop_last();
        lemma_first_visits_append(a, b2, start);
        assert((a + b).drop_last() =~= a + b2);
        assert((a + b).last() == b.last());
        let f2 = first_visits(a + b2, start);
        let f = first_visits(a + b, start);
        assert(f == f2 || f == f2.push(b.last()));
        assert(f.take(fa.len() as int) =~= f2.take(fa.len() as int));
        assert forall|i: int| fa.len() <= i < f.len() implies b.contains(#[trigger] f[i]) by {
            if i < f2.len() {
                assert(f[i] == f2[i]);
                assert(b2.contains(f2[i]));
                let k = choose|k: int| 0 <= k < b2.len() && b2[k] == f2[i];
                assert(b[k] == b2[k]);
            } else {
                assert(f[i] == b[b.len() - 1]);
            }
        }
    }
}

proof fn lemma_enqueued_step(servers: Seq<ServerConfig>, p: Seq<(Seq<char>, Seq<char>)>, k: int)
    requires
        0 <= k < p.len(),
    ensures
        enqueued(servers, p.take(k + 1)) == enqueued(servers, p.take(k)) + tagged(servers, p[k]),
{
    assert(p.take(k + 1).drop_last() =~= p.take(k));
    assert(p.take(k + 1).last() == p[k]);
}

/// The first visits found after `k` visits begin those found after `m`.
proof fn lemma_reached_prefix(
    servers: Seq<ServerConfig>,
    start: Seq<char>,
    p: Seq<(Seq<char>, Seq<char>)>,
    k: int,
    m: int,
)
    requires
        0 <= k <= m <= p.len(),
    ensures
        reached(servers, start, p, k) <= reached(servers, start, p, m),
        first_visits(enqueued(servers, p.take(m)), start).take(reached(servers, start, p, k) as int)
            == first_visits(enqueued(servers, p.take(k)), start),
    decreases m - k,
{
    let fk = first_visits(enqueued(servers, p.take(k)), start);
    if k == m {
        assert(fk.take(fk.len() as int) =~= fk);
    } else {
        lemma_reached_prefix(servers, start, p, k, m - 1);
        lemma_enqueued_step(servers, p, m - 1);
        lemma_first_visits_append(enqueued(servers, p.take(m - 1)), tagged(servers, p[m - 1]), start);
        let f1 = first_visits(enqueued(servers, p.take(m - 1)), start);
        let f2 = first_visits(enqueued(servers, p.take(m)), start);
        assert(f2.take(fk.len() as int) =~= f2.take(f1.len() as int).take(fk.len() as int));
    }
}

/// In a cascade, the first visits found after `k` visits are visits
/// `1 ..` of the cascade.
proof fn lemma_reached_visits(
    servers: Seq<ServerConfig>,
    start: Seq<char>,
    caller: Seq<char>,
    p: Seq<(Seq<char>, Seq<char>)>,
    k: int,
    i: int,
)
    requires
        is_cascade(servers, start, caller, p),
        0 <= k <= p.len(),
        0 <= i < reached(servers, start, p, k),
    ensures
        reached(servers, start, p, k) < p.len(),
        first_visits(enqueued(servers, p.take(k)), start)[i] == p[i + 1],
{
    lemma_reached_prefix(servers, start, p, k, p.len() as int);
    assert(p.take(p.len() as int) =~= p);
    let f = first_visits(enqueued(servers, p), start);
    assert(f == p.drop_first());
    let fk = first_visits(enqueued(servers, p.take(k)), start);
    assert(fk[i] == f.take(fk.len() as int)[i]);
}

/// Where the first visits found pass `m`: some visit `j` whose appended
/// entries hold visit `m`.
proof fn lemma_crossing(
    servers: Seq<ServerConfig>,
    start: Seq<char>,
    p: Seq<(Seq<char>, Seq<char>)>,
    m: int,
    k: int,
) -> (j: int)
    requires
        0 <= k < p.len(),
        reached(servers, start, p, k) < m,
        m <= reached(servers, start, p, p.len() as int),
    ensures
        k <= j < p.len(),
        reached(servers, start, p, j) < m <= reached(servers, start, p, j + 1),
    decreases p.len() - k,
{
    if m <= reached(servers, start, p, k + 1) {
        k
    } else {
        lemma_crossing(servers, start, p, m, k + 1)
    }
}

/// Each visit after the first is among the entries appended by an earlier
/// visit.
pub(crate) proof fn lemma_visit_brought(
    servers: Seq<ServerConfig>,
    start: Seq<char>,
    caller: Seq<char>,
    p: Seq<(Seq<char>, Seq<char>)>,
    m: int,
) -> (j: int)
    requires
        is_cascade(servers, start, caller, p),
        1 <= m < p.len(),
    ensures
        0 <= j < m,
        tagged(servers, p[j]).contains(p[m]),
{
    let n = p.len() as int;
    assert(p.take(0) =~= Seq::<(Seq<char>, Seq<char>)>::empty());
    assert(enqueued(servers, p.take(0)) =~= Seq::<(Seq<char>, Seq<char>)>::empty());
    assert(reached(servers, start, p, 0) == 0);
    assert(p.take(n) =~= p);
    assert(reached(servers, start, p, n) == n - 1);
    let j = lemma_crossing(servers, start, p, m, 0);
    assert(reached(servers, start, p, m) >= m);
    if j >= m {
        lemma_reached_prefix(servers, start, p, m, j);
    }
    lemma_enqueued_step(servers, p, j);
    let a = enqueued(servers, p.take(j));
    let b = tagged(servers, p[j]);
    lemma_first_visits_append(a, b, start);
    lemma_reached_visits(servers, start, caller, p, j + 1, m - 1);
    let f = first_visits(enqueued(servers, p.take(j + 1)), start);
    assert(f[m - 1] == p[m]);
    j
}

/// The cascade from a server on behalf of a caller is determined by the
/// configuration: two sequences of visits that both satisfy its
/// description are the same.
pub proof fn lemma_cascade_unique(
    servers: Seq<ServerConfig>,
    start: Seq<char>,
    caller: Seq<char>,
    p: Seq<(Seq<char>, Seq<char>)>,
    q: Seq<(Seq<char>, Seq<char>)>,
)
    requires
        is_cascade(servers, start, caller, p),
        is_cascade(servers, start, caller, q),
    ensures
        p == q,
{
    assert(p.take(1) =~= q.take(1));
    lemma_cascade_agree(servers, start, caller, p, q, 1);
}

proof fn lemma_cascade_agree(
    servers: Seq<ServerConfig>,
    start: Seq<char>,
    caller: Seq<char>,
    p: Seq<(Seq<char>, Seq<char>)>,
    q: Seq<(Seq<char>, Seq<char>)>,
    k: int,
)
    requires
        is_cascade(servers, start, caller, p),
        is_cascade(servers, start, caller, q),
        1 <= k <= p.len(),
        k <= q.len(),
        p.take(k) == q.take(k),
    ensures
        p == q,
    decreases p.len() - k,
{
    if k < p.len() && k < q.len() {
        assert(reached(servers, start, p, k) >= k);
        lemma_reached_visits(servers, start, caller, p, k, k - 1);
        lemma_reached_visits(servers, start, caller, q, k, k - 1);
        assert(p.take(k + 1) =~= p.take(k).push(p[k]));
        assert(q.take(k + 1) =~= q.take(k).push(q[k]));
        lemma_cascade_agree(servers, start, caller, p, q, k + 1);
    } else if k == p.len() && k < q.len() {
        assert(p.take(k) =~= p);
        assert(reached(servers, start, q, k) >= k);
        assert(first_visits(enqueued(servers, p), start) == p.drop_first());
        assert(reached(servers, start, q, k) == p.len() - 1);
    } else if k == q.len() && k < p.len() {
        assert(q.take(k) =~= q);
        assert(reached(servers, start, p, k) >= k);
        assert(first_visits(enqueued(servers, q), start) == q.drop_first());
        assert(reached(servers, start, p, k) == q.len() - 1);
    } else {
        assert(p.take(k) =~= p);
        assert(q.take(k) =~= q);
    }
}

} // verus!
