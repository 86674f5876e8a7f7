//! The scheduler's shared state: monitored servers and batch registrations.
//!
//! A `ServerStatus` exists for every URL that is currently monitored; it
//! carries an opaque session token, the batches that reference the URL (each
//! with its registration time, in seconds), and a bounded history of ping
//! latencies (in nanoseconds). A batch records every URL it successfully
//! registered. Contracts are stated over `Map`/`Set` abstractions of the
//! underlying tables.

use vstd::prelude::*;

use crate::kv::{kv_map, kv_distinct, lemma_kv_map_contains, lemma_kv_map_get, lemma_kv_map_push,
    lemma_kv_map_remove, lemma_kv_map_update, lemma_kv_map_absent_key};
use crate::MAX_PING_HISTORY;

verus! {

/// Monitoring record of one upstream URL.
pub struct ServerStatus {
    /// Opaque token for the live session owned by this entry; chosen by the
    /// caller when the session is opened and never changed afterwards.
    pub session_id: u64,
    /// Batch id -> registration time (seconds). Never empty.
    pub active_batches: Vec<(String, u64)>,
    /// Recent ping durations in nanoseconds, oldest first.
    pub latency_history: Vec<u64>,
}

/// Mathematical abstraction of a `ServerStatus`.
pub struct ServerStatusAbs {
    pub session_id: u64,
    pub active_batches: Map<Seq<char>, u64>,
    pub latency_history: Seq<u64>,
}

/// The key/value views of a vector of (batch id, time) pairs.
pub open spec fn u64_pairs(s: Seq<(String, u64)>) -> Seq<(Seq<char>, u64)> {
    s.map_values(|p: (String, u64)| (p.0@, p.1))
}

/// The key/value views of a vector of (url, status) pairs.
pub open spec fn entry_pairs(s: Seq<(String, ServerStatus)>) -> Seq<(Seq<char>, ServerStatusAbs)> {
    s.map_values(|p: (String, ServerStatus)| (p.0@, p.1@))
}

impl ServerStatus {
    pub open spec fn batch_pairs(self) -> Seq<(Seq<char>, u64)> {
        u64_pairs(self.active_batches@)
    }

    pub open spec fn wf(self) -> bool {
        &&& kv_distinct(self.batch_pairs())
        &&& self.active_batches@.len() > 0
        &&& self.latency_history@.len() <= MAX_PING_HISTORY
    }
}

impl View for ServerStatus {
    type V = ServerStatusAbs;

    open spec fn view(&self) -> ServerStatusAbs {
        ServerStatusAbs {
            session_id: self.session_id,
            active_batches: kv_map(self.batch_pairs()),
            latency_history: self.latency_history@,
        }
    }
}

/// The whole shared state: monitored servers and recorded batches.
pub struct SchedulerState {
    pub servers: Vec<(String, ServerStatus)>,
    pub batches: Vec<(String, Vec<String>)>,
}

/// Mathematical abstraction of the whole state.
pub struct SchedulerStateAbs {
    pub servers: Map<Seq<char>, ServerStatusAbs>,
    pub batches: Map<Seq<char>, Set<Seq<char>>>,
}

/// The set of (views of) the strings in a sequence.
pub open spec fn url_set(urls: Seq<String>) -> Set<Seq<char>> {
    urls.map_values(|u: String| u@).to_set()
}

/// The strings in a sequence are pairwise distinct (as character sequences).
pub open spec fn distinct_strings(urls: Seq<String>) -> bool {
    forall|i: int, j: int| 0 <= i < j < urls.len() ==> urls[i]@ != urls[j]@
}

impl View for SchedulerState {
    type V = SchedulerStateAbs;

    open spec fn view(&self) -> SchedulerStateAbs {
        SchedulerStateAbs {
            servers: kv_map(self.server_pairs()),
            batches: kv_map(self.batch_pairs()),
        }
    }
}

impl SchedulerState {
    pub open spec fn server_pairs(self) -> Seq<(Seq<char>, ServerStatusAbs)> {
        entry_pairs(self.servers@)
    }

    pub open spec fn batch_pairs(self) -> Seq<(Seq<char>, Set<Seq<char>>)> {
        self.batches@.map_values(|p: (String, Vec<String>)| (p.0@, url_set(p.1@)))
    }

    /// Structural part of the invariant: distinct keys, well-formed statuses,
    /// batch url lists without duplicates.
    pub open spec fn inv_core(self) -> bool {
        &&& kv_distinct(self.server_pairs())
        &&& kv_distinct(self.batch_pairs())
        &&& forall|i: int|
            0 <= i < self.servers@.len() ==> (#[trigger] self.servers@[i]).1.wf()
        &&& forall|i: int|
            0 <= i < self.batches@.len() ==> distinct_strings((#[trigger] self.batches@[i]).1@)
    }

    /// Every batch reference held by a server points at a recorded batch that
    /// contains the server's URL.
    pub open spec fn refs_recorded(self) -> bool {
        forall|u: Seq<char>, b: Seq<char>|
            self@.servers.contains_key(u) && #[trigger] self@.servers[u].active_batches.contains_key(
                b,
            ) ==> self@.batches.contains_key(b) && self@.batches[b].contains(u)
    }

    /// Global invariant, preserved by every operation.
    pub open spec fn inv(self) -> bool {
        self.inv_core() && self.refs_recorded()
    }

    /// Converse reference condition: every URL of every recorded batch is
    /// monitored and holds a reference to that batch. Registration and
    /// unregistration preserve it; the heartbeat sweep does not (a timed-out
    /// reference disappears from the server while the batch stays recorded).
    pub open spec fn tight(self) -> bool {
        forall|b: Seq<char>, u: Seq<char>|
            self@.batches.contains_key(b) && #[trigger] self@.batches[b].contains(u)
                ==> self@.servers.contains_key(u) && self@.servers[u].active_batches.contains_key(b)
    }

    /// Empty state: nothing monitored, nothing recorded.
    pub fn new() -> (r: SchedulerState)
        ensures
            r.inv(),
            r.tight(),
            r@.servers =~= Map::<Seq<char>, ServerStatusAbs>::empty(),
            r@.batches =~= Map::<Seq<char>, Set<Seq<char>>>::empty(),
    {
        let r = SchedulerState { servers: Vec::new(), batches: Vec::new() };
        proof {
            assert(r.server_pairs() =~= Seq::<(Seq<char>, ServerStatusAbs)>::empty());
            assert(r.batch_pairs() =~= Seq::<(Seq<char>, Set<Seq<char>>)>::empty());
        }
        r
    }
}

/// Position of `key` among the keys of `entries`, if present.
fn find_key<V>(entries: &Vec<(String, V)>, key: &String) -> (r: Option<usize>)
    ensures
        match r {
            Some(i) => i < entries@.len() && entries@[i as int].0@ == key@,
            None => forall|j: int| 0 <= j < entries@.len() ==> entries@[j].0@ != key@,
        },
{
    let n = entries.len();
    let mut i: usize = 0;
    while i < n
        invariant
            i <= n,
            n == entries@.len(),
            forall|j: int| 0 <= j < i ==> entries@[j].0@ != key@,
        decreases n - i,
    {
        if entries[i].0 == *key {
            return Some(i);
        }
        i += 1;
    }
    None
}

impl SchedulerState {
    proof fn lemma_server_lookup(self, i: int)
        requires
            self.inv_core(),
            0 <= i < self.servers@.len(),
        ensures
            self@.servers.contains_key(self.servers@[i].0@),
            self@.servers[self.servers@[i].0@] == self.servers@[i].1@,
    {
        lemma_kv_map_get(self.server_pairs(), i);
    }

    proof fn lemma_batch_lookup(self, i: int)
        requires
            self.inv_core(),
            0 <= i < self.batches@.len(),
        ensures
            self@.batches.contains_key(self.batches@[i].0@),
            self@.batches[self.batches@[i].0@] == url_set(self.batches@[i].1@),
    {
        lemma_kv_map_get(self.batch_pairs(), i);
    }

    /// Find a monitored URL's position in the server table.
    fn find_server(&self, url: &String) -> (r: Option<usize>)
        requires
            self.inv_core(),
        ensures
            match r {
                Some(i) => i < self.servers@.len() && self.servers@[i as int].0@ == url@
                    && self@.servers.contains_key(url@) && self@.servers[url@]
                    == self.servers@[i as int].1@,
                None => !self@.servers.contains_key(url@),
            },
            r is Some <==> self@.servers.contains_key(url@),
    {
        let r = find_key(&self.servers, url);
        proof {
            lemma_kv_map_contains(self.server_pairs(), url@);
            match r {
                Some(i) => {
                    self.lemma_server_lookup(i as int);
                },
                None => {},
            }
        }
        r
    }

    /// Find a recorded batch's position in the batch table.
    fn find_batch(&self, batch_id: &String) -> (r: Option<usize>)
        requires
            self.inv_core(),
        ensures
            match r {
                Some(i) => i < self.batches@.len() && self.batches@[i as int].0@ == batch_id@
                    && self@.batches.contains_key(batch_id@) && self@.batches[batch_id@]
                    == url_set(self.batches@[i as int].1@),
                None => !self@.batches.contains_key(batch_id@),
            },
            r is Some <==> self@.batches.contains_key(batch_id@),
    {
        let r = find_key(&self.batches, batch_id);
        proof {
            lemma_kv_map_contains(self.batch_pairs(), batch_id@);
            match r {
                Some(i) => {
                    self.lemma_batch_lookup(i as int);
                },
                None => {},
            }
        }
        r
    }

    /// The URLs a recorded batch registered, if the batch exists. The
    /// selection engine serves a batch iff this answers.
    pub fn batch_urls(&self, batch_id: &String) -> (r: Option<Vec<String>>)
        requires
            self.inv_core(),
        ensures
            r is Some <==> self@.batches.contains_key(batch_id@),
            match r {
                Some(urls) => url_set(urls@) == self@.batches[batch_id@] && distinct_strings(
                    urls@,
                ),
                None => true,
            },
    {
        match self.find_batch(batch_id) {
            Some(i) => {
                let urls = copy_urls(&self.batches[i].1);
                proof {
                    assert(urls@ =~= self.batches@[i as int].1@);
                }
                Some(urls)
            },
            None => None,
        }
    }

    /// Whether registering `url` would need a fresh session to be opened.
    pub fn needs_session(&self, url: &String) -> (r: bool)
        requires
            self.inv_core(),
        ensures
            r <==> !self@.servers.contains_key(url@),
    {
        self.find_server(url).is_none()
    }
}

pub proof fn lemma_url_set_contains(urls: Seq<String>, u: Seq<char>)
    ensures
        url_set(urls).contains(u) <==> exists|j: int|
            0 <= j < urls.len() && (#[trigger] urls[j])@ == u,
{
    let vs = urls.map_values(|x: String| x@);
    if url_set(urls).contains(u) {
        assert(vs.contains(u));
        let j = choose|j: int| 0 <= j < vs.len() && vs[j] == u;
        assert(urls[j]@ == u);
    }
    if exists|j: int| 0 <= j < urls.len() && (#[trigger] urls[j])@ == u {
        let j = choose|j: int| 0 <= j < urls.len() && (#[trigger] urls[j])@ == u;
        assert(vs[j] == u);
        assert(vs.contains(u));
    }
}

/// Whether `url` occurs in `v` (by character content).
fn contains_url(v: &Vec<String>, url: &String) -> (r: bool)
    ensures
        r <==> url_set(v@).contains(url@),
{
    let n = v.len();
    let mut i: usize = 0;
    while i < n
        invariant
            i <= n,
            n == v@.len(),
            forall|j: int| 0 <= j < i ==> (#[trigger] v@[j])@ != url@,
        decreases n - i,
    {
        if v[i] == *url {
            proof {
                lemma_url_set_contains(v@, url@);
            }
            return true;
        }
        i += 1;
    }
    proof {
        lemma_url_set_contains(v@, url@);
    }
    false
}

/// An element-wise copy of a list of URLs.
fn copy_urls(v: &Vec<String>) -> (r: Vec<String>)
    ensures
        r@.len() == v@.len(),
        forall|i: int| 0 <= i < v@.len() ==> #[trigger] r@[i] == v@[i],
{
    let n = v.len();
    let mut r: Vec<String> = Vec::new();
    let mut i: usize = 0;
    while i < n
        invariant
            i <= n,
            n == v@.len(),
            r@.len() == i,
            forall|j: int| 0 <= j < i ==> #[trigger] r@[j] == v@[j],
        decreases n - i,
    {
        r.push(v[i].clone());
        i += 1;
    }
    r
}

impl SchedulerState {
    /// Add a reference from batch `batch_id` (registered at `now`) to `url`,
    /// iff the URL is currently monitored. The session and the latency
    /// history of the URL are untouched: no session is re-opened for an
    /// already-monitored URL.
    pub fn add_batch_ref(&mut self, url: &String, batch_id: &String, now: u64) -> (added: bool)
        requires
            old(self).inv(),
            old(self)@.batches.contains_key(batch_id@),
            old(self)@.batches[batch_id@].contains(url@),
        ensures
            final(self).inv(),
            final(self)@.batches == old(self)@.batches,
            added <==> old(self)@.servers.contains_key(url@),
            !added ==> final(self)@ == old(self)@,
            added ==> final(self)@.servers =~= old(self)@.servers.insert(
                url@,
                (ServerStatusAbs {
                    session_id: old(self)@.servers[url@].session_id,
                    active_batches: old(self)@.servers[url@].active_batches.insert(batch_id@, now),
                    latency_history: old(self)@.servers[url@].latency_history,
                }),
            ),
            old(self).tight() ==> final(self).tight(),
    {
        let idx = match self.find_server(url) {
            Some(i) => i,
            None => {
                return false;
            },
        };
        let ghost pre = *self;
        let mut entry = self.servers.remove(idx);
        let ghost abpre = entry.1.batch_pairs();
        match find_key(&entry.1.active_batches, batch_id) {
            Some(k) => {
                let mut pair = entry.1.active_batches.remove(k);
                pair.1 = now;
                entry.1.active_batches.insert(k, pair);
                proof {
                    assert(entry.1.batch_pairs() =~= abpre.update(k as int, (batch_id@, now)));
                    lemma_kv_map_update(abpre, k as int, now);
                    lemma_kv_map_contains(abpre, batch_id@);
                    assert(abpre[k as int].0 == batch_id@);
                    assert(entry.1@.active_batches =~= pre.servers@[idx as int].1@.active_batches
                        .insert(batch_id@, now));
                }
            },
            None => {
                entry.1.active_batches.push((batch_id.clone(), now));
                proof {
                    assert(entry.1.batch_pairs() =~= abpre.push((batch_id@, now)));
                    lemma_kv_map_push(abpre, batch_id@, now);
                    assert(entry.1@.active_batches =~= pre.servers@[idx as int].1@.active_batches
                        .insert(batch_id@, now));
                }
            },
        }
        self.servers.insert(idx, entry);
        proof {
            assert(self.servers@ =~= pre.servers@.update(idx as int, self.servers@[idx as int]));
            assert(self.server_pairs() =~= pre.server_pairs().update(
                idx as int,
                (url@, self.servers@[idx as int].1@),
            ));
            lemma_kv_map_update(pre.server_pairs(), idx as int, self.servers@[idx as int].1@);
            assert(final(self)@.servers =~= pre@.servers.insert(
                url@,
                (ServerStatusAbs {
                    session_id: pre@.servers[url@].session_id,
                    active_batches: pre@.servers[url@].active_batches.insert(batch_id@, now),
                    latency_history: pre@.servers[url@].latency_history,
                }),
            ));
            assert(final(self).inv()) by {
                assert(forall|i: int|
                    0 <= i < self.servers@.len() ==> (#[trigger] self.servers@[i]).1.wf());
                assert forall|u: Seq<char>, b: Seq<char>|
                    self@.servers.contains_key(u)
                        && #[trigger] self@.servers[u].active_batches.contains_key(b)
                    implies self@.batches.contains_key(b) && self@.batches[b].contains(u) by {
                    if u == url@ && b != batch_id@ {
                        assert(pre@.servers[u].active_batches.contains_key(b));
                    }
                }
            }
            if pre.tight() {
                assert forall|b: Seq<char>, u: Seq<char>|
                    self@.batches.contains_key(b) && #[trigger] self@.batches[b].contains(u)
                    implies self@.servers.contains_key(u)
                    && self@.servers[u].active_batches.contains_key(b) by {
                    assert(pre@.batches[b].contains(u));
                    assert(pre@.servers.contains_key(u));
                    assert(pre@.servers[u].active_batches.contains_key(b));
                }
            }
        }
        true
    }

    /// Install a fresh monitoring entry for a URL that is not yet monitored:
    /// a caller-opened session, one batch reference, an empty history.
    pub fn install_server(&mut self, url: &String, session_id: u64, batch_id: &String, now: u64)
        requires
            old(self).inv(),
            !old(self)@.servers.contains_key(url@),
            old(self)@.batches.contains_key(batch_id@),
            old(self)@.batches[batch_id@].contains(url@),
        ensures
            final(self).inv(),
            final(self)@.batches == old(self)@.batches,
            final(self)@.servers =~= old(self)@.servers.insert(
                url@,
                (ServerStatusAbs {
                    session_id: session_id,
                    active_batches: Map::<Seq<char>, u64>::empty().insert(batch_id@, now),
                    latency_history: Seq::<u64>::empty(),
                }),
            ),
            old(self).tight() ==> final(self).tight(),
    {
        let ghost pre = *self;
        let mut ab: Vec<(String, u64)> = Vec::new();
        ab.push((batch_id.clone(), now));
        let status = ServerStatus {
            session_id,
            active_batches: ab,
            latency_history: Vec::new(),
        };
        self.servers.push((url.clone(), status));
        proof {
            let st = self.servers@.last().1;
            assert(st.batch_pairs() =~= Seq::<(Seq<char>, u64)>::empty().push((batch_id@, now)));
            lemma_kv_map_push(Seq::<(Seq<char>, u64)>::empty(), batch_id@, now);
            assert(kv_map(Seq::<(Seq<char>, u64)>::empty()) =~= Map::<Seq<char>, u64>::empty());
            assert(st@.active_batches =~= Map::<Seq<char>, u64>::empty().insert(batch_id@, now));
            assert(self.server_pairs() =~= pre.server_pairs().push((url@, st@)));
            lemma_kv_map_push(pre.server_pairs(), url@, st@);
            lemma_kv_map_contains(pre.server_pairs(), url@);
            assert(final(self).inv()) by {
                assert(forall|i: int|
                    0 <= i < self.servers@.len() ==> (#[trigger] self.servers@[i]).1.wf());
                assert forall|u: Seq<char>, b: Seq<char>|
                    self@.servers.contains_key(u)
                        && #[trigger] self@.servers[u].active_batches.contains_key(b)
                    implies self@.batches.contains_key(b) && self@.batches[b].contains(u) by {
                    if u != url@ {
                        assert(pre@.servers.contains_key(u));
                        assert(pre@.servers[u].active_batches.contains_key(b));
                    }
                }
            }
            if pre.tight() {
                assert forall|b: Seq<char>, u: Seq<char>|
                    self@.batches.contains_key(b) && #[trigger] self@.batches[b].contains(u)
                    implies self@.servers.contains_key(u)
                    && self@.servers[u].active_batches.contains_key(b) by {
                    assert(pre@.batches[b].contains(u));
                    assert(pre@.servers.contains_key(u));
                    assert(pre@.servers[u].active_batches.contains_key(b));
                }
            }
        }
    }

    /// Record a batch under a fresh id with the URLs it accepted.
    pub fn commit_batch(&mut self, batch_id: &String, urls: Vec<String>)
        requires
            old(self).inv(),
            !old(self)@.batches.contains_key(batch_id@),
            distinct_strings(urls@),
        ensures
            final(self).inv(),
            final(self)@.servers == old(self)@.servers,
            final(self)@.batches =~= old(self)@.batches.insert(batch_id@, url_set(urls@)),
    {
        let ghost pre = *self;
        let ghost uv = urls@;
        self.batches.push((batch_id.clone(), urls));
        proof {
            assert(self.batch_pairs() =~= pre.batch_pairs().push((batch_id@, url_set(uv))));
            lemma_kv_map_push(pre.batch_pairs(), batch_id@, url_set(uv));
            lemma_kv_map_contains(pre.batch_pairs(), batch_id@);
            assert(final(self).inv()) by {
                assert(forall|i: int|
                    0 <= i < self.batches@.len() ==> distinct_strings(
                        (#[trigger] self.batches@[i]).1@,
                    ));
                assert forall|u: Seq<char>, b: Seq<char>|
                    self@.servers.contains_key(u)
                        && #[trigger] self@.servers[u].active_batches.contains_key(b)
                    implies self@.batches.contains_key(b) && self@.batches[b].contains(u) by {
                    assert(self@.servers == pre@.servers);
                    assert(pre@.servers.contains_key(u) && pre@.servers[u].active_batches
                        .contains_key(b));
                    assert(pre@.batches.contains_key(b) && pre@.batches[b].contains(u));
                    assert(b != batch_id@);
                }
            }
        }
    }

    /// Draw one random batch id in UUID text form; `None` if it happens to
    /// collide with a recorded batch (the caller may simply draw again).
    pub fn fresh_batch_id(&self) -> (r: Option<String>)
        requires
            self.inv_core(),
        ensures
            match r {
                Some(id) => !self@.batches.contains_key(id@) && id@.len() == 36,
                None => true,
            },
    {
        let id = crate::ids::random_uuid_string();
        if self.find_batch(&id).is_none() {
            Some(id)
        } else {
            None
        }
    }
}

/// A URL is accepted by a registration iff some occurrence of it in the
/// input list was already monitored or had a successful handshake.
pub open spec fn accepted_url(
    pre: SchedulerStateAbs,
    urls: Seq<String>,
    ok: Seq<bool>,
    u: Seq<char>,
) -> bool {
    exists|i: int|
        0 <= i < urls.len() && (#[trigger] urls[i])@ == u && (pre.servers.contains_key(u) || ok[i])
}

spec fn accepted_url_upto(
    pre: SchedulerStateAbs,
    urls: Seq<String>,
    ok: Seq<bool>,
    u: Seq<char>,
    n: int,
) -> bool {
    exists|i: int|
        0 <= i < n && i < urls.len() && (#[trigger] urls[i])@ == u && (pre.servers.contains_key(u)
            || ok[i])
}

spec fn touched_upto(urls: Seq<String>, u: Seq<char>, n: int) -> bool {
    exists|j: int| 0 <= j < n && j < urls.len() && (#[trigger] urls[j])@ == u
}

spec fn installed_upto(
    pre: SchedulerStateAbs,
    urls: Seq<String>,
    ok: Seq<bool>,
    u: Seq<char>,
    n: int,
) -> bool {
    !pre.servers.contains_key(u) && exists|j: int|
        0 <= j < n && j < urls.len() && (#[trigger] urls[j])@ == u && ok[j]
}

proof fn lemma_touched_step(urls: Seq<String>, u: Seq<char>, i: int)
    requires
        0 <= i < urls.len(),
    ensures
        touched_upto(urls, u, i + 1) <==> (touched_upto(urls, u, i) || urls[i]@ == u),
{
    if touched_upto(urls, u, i + 1) {
        let j = choose|j: int| 0 <= j < i + 1 && j < urls.len() && (#[trigger] urls[j])@ == u;
        if j < i {
            assert(touched_upto(urls, u, i));
        }
    }
    if touched_upto(urls, u, i) {
        let j = choose|j: int| 0 <= j < i && j < urls.len() && (#[trigger] urls[j])@ == u;
        assert(touched_upto(urls, u, i + 1));
    }
    if urls[i]@ == u {
        assert(touched_upto(urls, u, i + 1));
    }
}

proof fn lemma_installed_step(
    pre: SchedulerStateAbs,
    urls: Seq<String>,
    ok: Seq<bool>,
    u: Seq<char>,
    i: int,
)
    requires
        0 <= i < urls.len(),
    ensures
        installed_upto(pre, urls, ok, u, i + 1) <==> (installed_upto(pre, urls, ok, u, i) || (
        !pre.servers.contains_key(u) && urls[i]@ == u && ok[i])),
{
    if installed_upto(pre, urls, ok, u, i + 1) {
        let j = choose|j: int|
            0 <= j < i + 1 && j < urls.len() && (#[trigger] urls[j])@ == u && ok[j];
        if j < i {
            assert(installed_upto(pre, urls, ok, u, i));
        }
    }
    if installed_upto(pre, urls, ok, u, i) {
        let j = choose|j: int| 0 <= j < i && j < urls.len() && (#[trigger] urls[j])@ == u && ok[j];
        assert(installed_upto(pre, urls, ok, u, i + 1));
    }
    if !pre.servers.contains_key(u) && urls[i]@ == u && ok[i] {
        assert(installed_upto(pre, urls, ok, u, i + 1));
    }
}

proof fn lemma_accepted_step(
    pre: SchedulerStateAbs,
    urls: Seq<String>,
    ok: Seq<bool>,
    u: Seq<char>,
    i: int,
)
    requires
        0 <= i < urls.len(),
    ensures
        accepted_url_upto(pre, urls, ok, u, i + 1) <==> (accepted_url_upto(pre, urls, ok, u, i) || (
        urls[i]@ == u && (pre.servers.contains_key(u) || ok[i]))),
{
    if accepted_url_upto(pre, urls, ok, u, i + 1) {
        let j = choose|j: int|
            0 <= j < i + 1 && j < urls.len() && (#[trigger] urls[j])@ == u && (
            pre.servers.contains_key(u) || ok[j]);
        if j < i {
            assert(accepted_url_upto(pre, urls, ok, u, i));
        }
    }
    if accepted_url_upto(pre, urls, ok, u, i) {
        let j = choose|j: int|
            0 <= j < i && j < urls.len() && (#[trigger] urls[j])@ == u && (
            pre.servers.contains_key(u) || ok[j]);
        assert(accepted_url_upto(pre, urls, ok, u, i + 1));
    }
    if urls[i]@ == u && (pre.servers.contains_key(u) || ok[i]) {
        assert(accepted_url_upto(pre, urls, ok, u, i + 1));
    }
}

proof fn lemma_accepted_full(pre: SchedulerStateAbs, urls: Seq<String>, ok: Seq<bool>, u: Seq<char>)
    ensures
        accepted_url_upto(pre, urls, ok, u, urls.len() as int) <==> accepted_url(pre, urls, ok, u),
{
    if accepted_url_upto(pre, urls, ok, u, urls.len() as int) {
        let j = choose|j: int|
            0 <= j < urls.len() && (#[trigger] urls[j])@ == u && (pre.servers.contains_key(u)
                || ok[j]);
        assert(accepted_url(pre, urls, ok, u));
    }
    if accepted_url(pre, urls, ok, u) {
        let j = choose|j: int|
            0 <= j < urls.len() && (#[trigger] urls[j])@ == u && (pre.servers.contains_key(u)
                || ok[j]);
        assert(accepted_url_upto(pre, urls, ok, u, urls.len() as int));
    }
}

/// Failure modes of a registration request.
#[derive(PartialEq, Eq, Structural, Clone, Copy, Debug)]
pub enum RegisterError {
    /// The request named no URLs at all.
    EmptyInput,
}

/// Successful answers to a registration request.
pub enum RegisterOutcome {
    /// The batch was recorded: its id and the URLs it accepted.
    Created { batch_id: String, accepted: Vec<String> },
    /// Every URL failed its handshake; nothing was recorded.
    NoUrlAccepted,
}

impl SchedulerState {
    /// Apply a whole registration under a fresh batch id: for each input URL,
    /// an already-monitored URL gains a reference to the new batch (keeping
    /// its session), an unmonitored URL with a successful handshake is
    /// installed fresh under the caller-opened session token, and a URL whose
    /// handshake failed is skipped. The batch is recorded iff it accepted at
    /// least one URL.
    ///
    /// `handshake_ok[i]` and `session_ids[i]` report the handshake attempt
    /// for `urls[i]`; they are consulted only for URLs not monitored at the
    /// time that URL is reached.
    pub fn apply_registration(
        &mut self,
        batch_id: &String,
        now: u64,
        urls: &Vec<String>,
        handshake_ok: &Vec<bool>,
        session_ids: &Vec<u64>,
    ) -> (accepted: Vec<String>)
        requires
            old(self).inv(),
            !old(self)@.batches.contains_key(batch_id@),
            handshake_ok@.len() == urls@.len(),
            session_ids@.len() == urls@.len(),
        ensures
            final(self).inv(),
            distinct_strings(accepted@),
            forall|u: Seq<char>|
                #[trigger] url_set(accepted@).contains(u) <==> accepted_url(
                    old(self)@,
                    urls@,
                    handshake_ok@,
                    u,
                ),
            accepted@.len() == 0 ==> final(self)@ == old(self)@,
            accepted@.len() > 0 ==> final(self)@.batches =~= old(self)@.batches.insert(
                batch_id@,
                url_set(accepted@),
            ),
            forall|u: Seq<char>|
                old(self)@.servers.contains_key(u) ==> {
                    &&& (#[trigger] final(self)@.servers.contains_key(u))
                    &&& final(self)@.servers[u].session_id == old(self)@.servers[u].session_id
                    &&& final(self)@.servers[u].latency_history == old(self)@.servers[u].latency_history
                    &&& (url_set(accepted@).contains(u) ==> final(self)@.servers[u].active_batches
                        =~= old(self)@.servers[u].active_batches.insert(batch_id@, now))
                    &&& (!url_set(accepted@).contains(u) ==> final(self)@.servers[u].active_batches
                        == old(self)@.servers[u].active_batches)
                },
            forall|u: Seq<char>|
                !old(self)@.servers.contains_key(u) ==> ((#[trigger] final(self)@.servers.contains_key(u)) <==> url_set(accepted@).contains(u)),
            forall|u: Seq<char>|
                !old(self)@.servers.contains_key(u) && #[trigger] url_set(accepted@).contains(u)
                    ==> {
                    &&& final(self)@.servers[u].active_batches =~= Map::<
                        Seq<char>,
                        u64,
                    >::empty().insert(batch_id@, now)
                    &&& final(self)@.servers[u].latency_history =~= Seq::<u64>::empty()
                    &&& exists|i: int|
                        0 <= i < urls@.len() && (#[trigger] urls@[i])@ == u && handshake_ok@[i]
                            && final(self)@.servers[u].session_id == session_ids@[i]
                },
            old(self).tight() ==> final(self).tight(),
    {
        let ghost pre = *self;
        let n = urls.len();
        let mut accepted: Vec<String> = Vec::new();
        let mut i: usize = 0;
        while i < n
            invariant
                *self == pre,
                pre.inv(),
                i <= n,
                n == urls@.len(),
                handshake_ok@.len() == n,
                distinct_strings(accepted@),
                forall|u: Seq<char>|
                    #[trigger] url_set(accepted@).contains(u) <==> accepted_url_upto(
                        pre@,
                        urls@,
                        handshake_ok@,
                        u,
                        i as int,
                    ),
            decreases n - i,
        {
            let u = &urls[i];
            let ghost acc0 = accepted@;
            let present = !self.needs_session(u);
            if present || handshake_ok[i] {
                if !contains_url(&accepted, u) {
                    accepted.push(u.clone());
                    proof {
                        assert(accepted@ =~= acc0.push(urls@[i as int]));
                        assert forall|x: Seq<char>| #[trigger]
                            url_set(accepted@).contains(x) implies (url_set(acc0).contains(x) || x
                            == urls@[i as int]@) by {
                            lemma_url_set_contains(accepted@, x);
                            let j = choose|j: int|
                                0 <= j < accepted@.len() && (#[trigger] accepted@[j])@ == x;
                            if j < acc0.len() {
                                lemma_url_set_contains(acc0, x);
                            }
                        }
                        assert forall|x: Seq<char>|
                            (url_set(acc0).contains(x) || x == urls@[i as int]@) implies #[trigger]
                            url_set(accepted@).contains(x) by {
                            lemma_url_set_contains(accepted@, x);
                            if url_set(acc0).contains(x) {
                                lemma_url_set_contains(acc0, x);
                                let j = choose|j: int|
                                    0 <= j < acc0.len() && (#[trigger] acc0[j])@ == x;
                                assert(accepted@[j]@ == x);
                            } else {
                                assert(accepted@[acc0.len() as int]@ == x);
                            }
                        }
                        assert(distinct_strings(accepted@)) by {
                            lemma_url_set_contains(acc0, urls@[i as int]@);
                        }
                    }
                }
            }
            proof {
                assert forall|x: Seq<char>| #[trigger]
                    url_set(accepted@).contains(x) implies accepted_url_upto(
                    pre@,
                    urls@,
                    handshake_ok@,
                    x,
                    i + 1,
                ) by {
                    lemma_accepted_step(pre@, urls@, handshake_ok@, x, i as int);
                    if url_set(acc0).contains(x) {
                        assert(accepted_url_upto(pre@, urls@, handshake_ok@, x, i as int));
                    } else {
                        assert(x == urls@[i as int]@);
                        assert(present || handshake_ok@[i as int]);
                    }
                }
                assert forall|x: Seq<char>|
                    accepted_url_upto(pre@, urls@, handshake_ok@, x, i + 1) implies #[trigger]
                    url_set(accepted@).contains(x) by {
                    lemma_accepted_step(pre@, urls@, handshake_ok@, x, i as int);
                    if accepted_url_upto(pre@, urls@, handshake_ok@, x, i as int) {
                        assert(url_set(acc0).contains(x));
                        if url_set(accepted@) != url_set(acc0) {
                            lemma_url_set_contains(acc0, x);
                            let j = choose|j: int|
                                0 <= j < acc0.len() && (#[trigger] acc0[j])@ == x;
                            assert(accepted@[j]@ == x);
                            lemma_url_set_contains(accepted@, x);
                        }
                    } else {
                        assert(urls@[i as int]@ == x);
                        assert(pre@.servers.contains_key(x) || handshake_ok@[i as int]);
                        assert(present == pre@.servers.contains_key(x));
                        lemma_url_set_contains(accepted@, x);
                        lemma_url_set_contains(acc0, x);
                    }
                }
            }
            i += 1;
        }
        proof {
            assert forall|u: Seq<char>|
                (#[trigger] url_set(accepted@).contains(u)) == accepted_url(
                pre@,
                urls@,
                handshake_ok@,
                u,
            ) by {
                lemma_accepted_full(pre@, urls@, handshake_ok@, u);
            }
        }
        if accepted.len() == 0 {
            proof {
                assert forall|u: Seq<char>| !accepted_url(pre@, urls@, handshake_ok@, u) by {
                    if accepted_url(pre@, urls@, handshake_ok@, u) {
                        lemma_url_set_contains(accepted@, u);
                    }
                }
            }
            return accepted;
        }
        let to_store = copy_urls(&accepted);
        proof {
            assert(to_store@ =~= accepted@);
        }
        self.commit_batch(batch_id, to_store);
        let ghost mid = *self;
        let mut i: usize = 0;
        while i < n
            invariant
                i <= n,
                n == urls@.len(),
                handshake_ok@.len() == n,
                session_ids@.len() == n,
                self.inv(),
                accepted@.len() > 0,
                distinct_strings(accepted@),
                !pre@.batches.contains_key(batch_id@),
                forall|u: Seq<char>|
                    #[trigger] url_set(accepted@).contains(u) <==> accepted_url(
                        pre@,
                        urls@,
                        handshake_ok@,
                        u,
                    ),
                self@.batches =~= pre@.batches.insert(batch_id@, url_set(accepted@)),
                forall|u: Seq<char>|
                    pre@.servers.contains_key(u) ==> {
                        &&& (#[trigger] self@.servers.contains_key(u))
                        &&& self@.servers[u].session_id == pre@.servers[u].session_id
                        &&& self@.servers[u].latency_history == pre@.servers[u].latency_history
                        &&& (touched_upto(urls@, u, i as int) ==> self@.servers[u].active_batches
                            =~= pre@.servers[u].active_batches.insert(batch_id@, now))
                        &&& (!touched_upto(urls@, u, i as int) ==> self@.servers[u].active_batches
                            == pre@.servers[u].active_batches)
                    },
                forall|u: Seq<char>|
                    !pre@.servers.contains_key(u) ==> ((#[trigger] self@.servers.contains_key(u))
                        <==> installed_upto(pre@, urls@, handshake_ok@, u, i as int)),
                forall|u: Seq<char>|
                    installed_upto(pre@, urls@, handshake_ok@, u, i as int) ==> {
                        &&& (#[trigger] self@.servers[u].active_batches) =~= Map::<
                            Seq<char>,
                            u64,
                        >::empty().insert(batch_id@, now)
                        &&& self@.servers[u].latency_history =~= Seq::<u64>::empty()
                        &&& exists|j: int|
                            0 <= j < i && (#[trigger] urls@[j])@ == u && handshake_ok@[j]
                                && self@.servers[u].session_id == session_ids@[j]
                    },
            decreases n - i,
        {
            let u = &urls[i];
            let ghost uview = urls@[i as int]@;
            let ghost cur = *self;
            proof {
                lemma_touched_step(urls@, uview, i as int);
                lemma_installed_step(pre@, urls@, handshake_ok@, uview, i as int);
            }
            match self.find_server(u) {
                Some(_) => {
                    proof {
                        // the URL is accepted, so the recorded batch contains it
                        if pre@.servers.contains_key(uview) {
                            assert(accepted_url(pre@, urls@, handshake_ok@, uview));
                        } else {
                            assert(installed_upto(pre@, urls@, handshake_ok@, uview, i as int));
                            let j = choose|j: int|
                                0 <= j < i && j < urls@.len() && (#[trigger] urls@[j])@ == uview
                                    && handshake_ok@[j];
                            assert(accepted_url(pre@, urls@, handshake_ok@, uview));
                        }
                        assert(url_set(accepted@).contains(uview));
                        assert(self@.batches[batch_id@].contains(uview));
                    }
                    self.add_batch_ref(u, batch_id, now);
                    proof {
                        assert forall|x: Seq<char>| pre@.servers.contains_key(x) implies {
                            &&& (#[trigger] self@.servers.contains_key(x))
                            &&& self@.servers[x].session_id == pre@.servers[x].session_id
                            &&& self@.servers[x].latency_history == pre@.servers[x].latency_history
                            &&& (touched_upto(urls@, x, i + 1) ==> self@.servers[x].active_batches
                                =~= pre@.servers[x].active_batches.insert(batch_id@, now))
                            &&& (!touched_upto(urls@, x, i + 1) ==> self@.servers[x].active_batches
                                == pre@.servers[x].active_batches)
                        } by {
                            lemma_touched_step(urls@, x, i as int);
                            assert(cur@.servers.contains_key(x));
                            if x == uview {
                                assert(self@.servers[x].session_id == cur@.servers[x].session_id);
                                assert(self@.servers[x].latency_history == cur@.servers[x]
                                    .latency_history);
                                assert(self@.servers[x].active_batches =~= cur@.servers[x]
                                    .active_batches.insert(batch_id@, now));
                                if touched_upto(urls@, x, i as int) {
                                    assert(cur@.servers[x].active_batches =~= pre@.servers[x]
                                        .active_batches.insert(batch_id@, now));
                                } else {
                                    assert(cur@.servers[x].active_batches == pre@.servers[x]
                                        .active_batches);
                                }
                                assert(self@.servers[x].active_batches =~= pre@.servers[x]
                                    .active_batches.insert(batch_id@, now));
                                assert(touched_upto(urls@, x, i + 1));
                            } else {
                                assert(self@.servers[x] == cur@.servers[x]);
                            }
                        }
                        assert forall|x: Seq<char>| !pre@.servers.contains_key(x) implies ((
                        #[trigger] self@.servers.contains_key(x)) <==> installed_upto(
                            pre@,
                            urls@,
                            handshake_ok@,
                            x,
                            i + 1,
                        )) by {
                            lemma_installed_step(pre@, urls@, handshake_ok@, x, i as int);
                            if x == uview {
                                assert(cur@.servers.contains_key(x));
                                assert(installed_upto(pre@, urls@, handshake_ok@, x, i as int));
                                assert(self@.servers.contains_key(x));
                            } else {
                                assert(self@.servers.contains_key(x) == cur@.servers.contains_key(
                                    x,
                                ));
                            }
                        }
                        assert forall|x: Seq<char>|
                            installed_upto(pre@, urls@, handshake_ok@, x, i + 1) implies {
                            &&& (#[trigger] self@.servers[x].active_batches) =~= Map::<
                                Seq<char>,
                                u64,
                            >::empty().insert(batch_id@, now)
                            &&& self@.servers[x].latency_history =~= Seq::<u64>::empty()
                            &&& exists|j: int|
                                0 <= j < i + 1 && (#[trigger] urls@[j])@ == x && handshake_ok@[j]
                                    && self@.servers[x].session_id == session_ids@[j]
                        } by {
                            lemma_installed_step(pre@, urls@, handshake_ok@, x, i as int);
                            if !installed_upto(pre@, urls@, handshake_ok@, x, i as int) {
                                assert(x == uview);
                                assert(cur@.servers.contains_key(x));
                            }
                            assert(installed_upto(pre@, urls@, handshake_ok@, x, i as int));
                            assert((cur@.servers[x].active_batches) =~= Map::<
                                Seq<char>,
                                u64,
                            >::empty().insert(batch_id@, now));
                            assert(cur@.servers[x].latency_history =~= Seq::<u64>::empty());
                            let j = choose|j: int|
                                0 <= j < i && (#[trigger] urls@[j])@ == x && handshake_ok@[j]
                                    && cur@.servers[x].session_id == session_ids@[j];
                            if x == uview {
                                assert(self@.servers[x].active_batches =~= cur@.servers[x]
                                    .active_batches.insert(batch_id@, now));
                                assert(self@.servers[x].session_id == cur@.servers[x].session_id);
                                assert(self@.servers[x].latency_history == cur@.servers[x]
                                    .latency_history);
                            } else {
                                assert(self@.servers[x] == cur@.servers[x]);
                            }
                            assert(self@.servers[x].session_id == session_ids@[j]);
                        }
                    }
                },
                None => {
                    proof {
                        assert(!pre@.servers.contains_key(uview));
                        assert(!installed_upto(pre@, urls@, handshake_ok@, uview, i as int));
                    }
                    if handshake_ok[i] {
                        proof {
                            assert(accepted_url(pre@, urls@, handshake_ok@, uview));
                            assert(url_set(accepted@).contains(uview));
                            assert(self@.batches[batch_id@].contains(uview));
                        }
                        self.install_server(u, session_ids[i], batch_id, now);
                        proof {
                            assert forall|x: Seq<char>| pre@.servers.contains_key(x) implies {
                                &&& (#[trigger] self@.servers.contains_key(x))
                                &&& self@.servers[x].session_id == pre@.servers[x].session_id
                                &&& self@.servers[x].latency_history == pre@.servers[x]
                                    .latency_history
                                &&& (touched_upto(urls@, x, i + 1)
                                    ==> self@.servers[x].active_batches =~= pre@.servers[x]
                                    .active_batches.insert(batch_id@, now))
                                &&& (!touched_upto(urls@, x, i + 1)
                                    ==> self@.servers[x].active_batches == pre@.servers[x]
                                    .active_batches)
                            } by {
                                lemma_touched_step(urls@, x, i as int);
                                assert(cur@.servers.contains_key(x));
                                assert(x != uview);
                                assert(self@.servers[x] == cur@.servers[x]);
                                if touched_upto(urls@, x, i as int) {
                                    assert(cur@.servers[x].active_batches =~= pre@.servers[x]
                                        .active_batches.insert(batch_id@, now));
                                } else {
                                    assert(cur@.servers[x].active_batches == pre@.servers[x]
                                        .active_batches);
                                }
                            }
                            assert forall|x: Seq<char>| !pre@.servers.contains_key(x) implies ((
                            #[trigger] self@.servers.contains_key(x)) <==> installed_upto(
                                pre@,
                                urls@,
                                handshake_ok@,
                                x,
                                i + 1,
                            )) by {
                                lemma_installed_step(pre@, urls@, handshake_ok@, x, i as int);
                                if x != uview {
                                    assert(self@.servers.contains_key(x)
                                        == cur@.servers.contains_key(x));
                                }
                            }
                            assert forall|x: Seq<char>|
                                installed_upto(pre@, urls@, handshake_ok@, x, i + 1) implies {
                                &&& (#[trigger] self@.servers[x].active_batches) =~= Map::<
                                    Seq<char>,
                                    u64,
                                >::empty().insert(batch_id@, now)
                                &&& self@.servers[x].latency_history =~= Seq::<u64>::empty()
                                &&& exists|j: int|
                                    0 <= j < i + 1 && (#[trigger] urls@[j])@ == x
                                        && handshake_ok@[j] && self@.servers[x].session_id
                                        == session_ids@[j]
                            } by {
                                lemma_installed_step(pre@, urls@, handshake_ok@, x, i as int);
                                if x == uview {
                                    assert(self@.servers[x].active_batches =~= Map::<
                                        Seq<char>,
                                        u64,
                                    >::empty().insert(batch_id@, now));
                                    assert(self@.servers[x].latency_history =~= Seq::<u64>::empty());
                                    assert(urls@[i as int]@ == x && handshake_ok@[i as int]
                                        && self@.servers[x].session_id == session_ids@[i as int]);
                                } else {
                                    assert(installed_upto(pre@, urls@, handshake_ok@, x, i as int));
                                    assert((cur@.servers[x].active_batches) =~= Map::<
                                        Seq<char>,
                                        u64,
                                    >::empty().insert(batch_id@, now));
                                    assert(cur@.servers[x].latency_history =~= Seq::<u64>::empty());
                                    let j = choose|j: int|
                                        0 <= j < i && (#[trigger] urls@[j])@ == x
                                            && handshake_ok@[j] && cur@.servers[x].session_id
                                            == session_ids@[j];
                                    assert(self@.servers[x] == cur@.servers[x]);
                                    assert(self@.servers[x].session_id == session_ids@[j]);
                                }
                            }
                        }
                    } else {
                        proof {
                            assert forall|x: Seq<char>| pre@.servers.contains_key(x) implies (
                            !touched_upto(urls@, x, i + 1) ==> self@.servers[x].active_batches
                                == pre@.servers[x].active_batches) && (touched_upto(urls@, x, i + 1)
                                ==> self@.servers[x].active_batches =~= pre@.servers[x]
                                .active_batches.insert(batch_id@, now)) by {
                                lemma_touched_step(urls@, x, i as int);
                                assert(self@.servers.contains_key(x));
                                assert(x != uview);
                                if touched_upto(urls@, x, i as int) {
                                    assert(self@.servers[x].active_batches =~= pre@.servers[x]
                                        .active_batches.insert(batch_id@, now));
                                } else {
                                    assert(self@.servers[x].active_batches == pre@.servers[x]
                                        .active_batches);
                                }
                            }
                            assert forall|x: Seq<char>| !pre@.servers.contains_key(x) implies ((
                            #[trigger] self@.servers.contains_key(x)) <==> installed_upto(
                                pre@,
                                urls@,
                                handshake_ok@,
                                x,
                                i + 1,
                            )) by {
                                lemma_installed_step(pre@, urls@, handshake_ok@, x, i as int);
                            }
                            assert forall|x: Seq<char>|
                                installed_upto(pre@, urls@, handshake_ok@, x, i + 1) implies {
                                &&& (#[trigger] self@.servers[x].active_batches) =~= Map::<
                                    Seq<char>,
                                    u64,
                                >::empty().insert(batch_id@, now)
                                &&& self@.servers[x].latency_history =~= Seq::<u64>::empty()
                                &&& exists|j: int|
                                    0 <= j < i + 1 && (#[trigger] urls@[j])@ == x
                                        && handshake_ok@[j] && self@.servers[x].session_id
                                        == session_ids@[j]
                            } by {
                                lemma_installed_step(pre@, urls@, handshake_ok@, x, i as int);
                                assert(installed_upto(pre@, urls@, handshake_ok@, x, i as int));
                                assert((cur@.servers[x].active_batches) =~= Map::<
                                    Seq<char>,
                                    u64,
                                >::empty().insert(batch_id@, now));
                                assert(cur@.servers[x].latency_history =~= Seq::<u64>::empty());
                                let j = choose|j: int|
                                    0 <= j < i && (#[trigger] urls@[j])@ == x && handshake_ok@[j]
                                        && cur@.servers[x].session_id == session_ids@[j];
                                assert(self@.servers[x].session_id == session_ids@[j]);
                            }
                        }
                    }
                },
            }
            proof {
                assert forall|x: Seq<char>|
                    pre@.servers.contains_key(x) implies (#[trigger] self@.servers.contains_key(
                    x,
                )) by {}
                assert forall|x: Seq<char>| pre@.servers.contains_key(x) implies self@.servers[x]
                    .session_id == pre@.servers[x].session_id by {
                    assert(self@.servers.contains_key(x));
                }
                assert forall|x: Seq<char>| pre@.servers.contains_key(x) implies self@.servers[x]
                    .latency_history == pre@.servers[x].latency_history by {
                    assert(self@.servers.contains_key(x));
                }
                assert forall|x: Seq<char>|
                    pre@.servers.contains_key(x) && touched_upto(urls@, x, i + 1) implies self@
                    .servers[x].active_batches =~= pre@.servers[x].active_batches.insert(
                    batch_id@,
                    now,
                ) by {
                    assert(self@.servers.contains_key(x));
                }
                assert forall|x: Seq<char>|
                    pre@.servers.contains_key(x) && !touched_upto(urls@, x, i + 1) implies self@
                    .servers[x].active_batches == pre@.servers[x].active_batches by {
                    assert(self@.servers.contains_key(x));
                }
            }
            i += 1;
        }
        proof {
            // relate end-of-loop facts to the postconditions
            assert forall|u: Seq<char>| pre@.servers.contains_key(u) implies (touched_upto(
                urls@,
                u,
                n as int,
            ) <==> url_set(accepted@).contains(u)) by {
                if touched_upto(urls@, u, n as int) {
                    let j = choose|j: int|
                        0 <= j < n && j < urls@.len() && (#[trigger] urls@[j])@ == u;
                    assert(accepted_url(pre@, urls@, handshake_ok@, u));
                }
                if url_set(accepted@).contains(u) {
                    let j = choose|j: int|
                        0 <= j < urls@.len() && (#[trigger] urls@[j])@ == u && (
                        pre@.servers.contains_key(u) || handshake_ok@[j]);
                    assert(touched_upto(urls@, u, n as int));
                }
            }
            assert forall|u: Seq<char>| !pre@.servers.contains_key(u) implies (installed_upto(
                pre@,
                urls@,
                handshake_ok@,
                u,
                n as int,
            ) <==> url_set(accepted@).contains(u)) by {
                if installed_upto(pre@, urls@, handshake_ok@, u, n as int) {
                    let j = choose|j: int|
                        0 <= j < n && j < urls@.len() && (#[trigger] urls@[j])@ == u
                            && handshake_ok@[j];
                    assert(accepted_url(pre@, urls@, handshake_ok@, u));
                }
                if url_set(accepted@).contains(u) {
                    let j = choose|j: int|
                        0 <= j < urls@.len() && (#[trigger] urls@[j])@ == u && (
                        pre@.servers.contains_key(u) || handshake_ok@[j]);
                    assert(installed_upto(pre@, urls@, handshake_ok@, u, n as int));
                }
            }
            assert forall|u: Seq<char>|
                !pre@.servers.contains_key(u) && #[trigger] url_set(accepted@).contains(u) implies (
                exists|i: int|
                    0 <= i < urls@.len() && (#[trigger] urls@[i])@ == u && handshake_ok@[i]
                        && final(self)@.servers[u].session_id == session_ids@[i]) by {
                assert(installed_upto(pre@, urls@, handshake_ok@, u, n as int));
                assert((self@.servers[u].active_batches) =~= Map::<Seq<char>, u64>::empty().insert(
                    batch_id@,
                    now,
                ));
                let j = choose|j: int|
                    0 <= j < n && (#[trigger] urls@[j])@ == u && handshake_ok@[j] && self@.servers[u].session_id == session_ids@[j];
                assert(0 <= j < urls@.len() && urls@[j]@ == u && handshake_ok@[j] && final(self)@.servers[u].session_id == session_ids@[j]);
            }
            if pre.tight() {
                assert forall|b: Seq<char>, u: Seq<char>|
                    self@.batches.contains_key(b) && #[trigger] self@.batches[b].contains(u)
                    implies self@.servers.contains_key(u)
                    && self@.servers[u].active_batches.contains_key(b) by {
                    if b == batch_id@ {
                        assert(url_set(accepted@).contains(u));
                        if pre@.servers.contains_key(u) {
                            assert(touched_upto(urls@, u, n as int));
                            assert(self@.servers.contains_key(u));
                            assert(self@.servers[u].active_batches =~= pre@.servers[u]
                                .active_batches.insert(batch_id@, now));
                        } else {
                            assert(installed_upto(pre@, urls@, handshake_ok@, u, n as int));
                            assert(self@.servers.contains_key(u));
                            assert((self@.servers[u].active_batches) =~= Map::<
                                Seq<char>,
                                u64,
                            >::empty().insert(batch_id@, now));
                        }
                    } else {
                        assert(pre@.batches[b].contains(u));
                        assert(pre@.servers.contains_key(u));
                        assert(pre@.servers[u].active_batches.contains_key(b));
                        assert(self@.servers.contains_key(u));
                        if touched_upto(urls@, u, n as int) {
                            assert(self@.servers[u].active_batches =~= pre@.servers[u]
                                .active_batches.insert(batch_id@, now));
                        } else {
                            assert(self@.servers[u].active_batches == pre@.servers[u]
                                .active_batches);
                        }
                    }
                }
            }
        }
        accepted
    }

    /// Handle one registration request end to end: reject an empty URL list,
    /// otherwise apply the registration and report whether any URL was
    /// accepted. The handshake outcome and session token for each URL are
    /// supplied by the caller, which performed the handshakes.
    pub fn register(
        &mut self,
        batch_id: &String,
        now: u64,
        urls: &Vec<String>,
        handshake_ok: &Vec<bool>,
        session_ids: &Vec<u64>,
    ) -> (r: Result<RegisterOutcome, RegisterError>)
        requires
            old(self).inv(),
            !old(self)@.batches.contains_key(batch_id@),
            handshake_ok@.len() == urls@.len(),
            session_ids@.len() == urls@.len(),
        ensures
            final(self).inv(),
            r is Err <==> urls@.len() == 0,
            r matches Err(e) ==> e == RegisterError::EmptyInput && final(self)@ == old(self)@,
            r matches Ok(RegisterOutcome::NoUrlAccepted) ==> (forall|u: Seq<char>|
                !accepted_url(old(self)@, urls@, handshake_ok@, u)) && final(self)@ == old(self)@,
            r matches Ok(RegisterOutcome::Created { batch_id: b, accepted }) ==> {
                &&& b@ == batch_id@
                &&& accepted@.len() > 0
                &&& distinct_strings(accepted@)
                &&& (forall|u: Seq<char>|
                    #[trigger] url_set(accepted@).contains(u) <==> accepted_url(
                        old(self)@,
                        urls@,
                        handshake_ok@,
                        u,
                    ))
                &&& final(self)@.batches =~= old(self)@.batches.insert(
                    batch_id@,
                    url_set(accepted@),
                )
                &&& (forall|u: Seq<char>|
                    old(self)@.servers.contains_key(u) ==> {
                        &&& (#[trigger] final(self)@.servers.contains_key(u))
                        &&& final(self)@.servers[u].session_id == old(self)@.servers[u].session_id
                        &&& final(self)@.servers[u].latency_history == old(self)@.servers[u].latency_history
                        &&& (url_set(accepted@).contains(u) ==> final(self)@.servers[u].active_batches =~= old(self)@.servers[u].active_batches.insert(batch_id@, now))
                        &&& (!url_set(accepted@).contains(u) ==> final(self)@.servers[u].active_batches == old(self)@.servers[u].active_batches)
                    })
                &&& (forall|u: Seq<char>|
                    !old(self)@.servers.contains_key(u) ==> ((#[trigger] final(self)@.servers.contains_key(u)) <==> url_set(accepted@).contains(u)))
                &&& (forall|u: Seq<char>|
                    !old(self)@.servers.contains_key(u) && #[trigger] url_set(accepted@).contains(
                        u,
                    ) ==> {
                        &&& final(self)@.servers[u].active_batches =~= Map::<
                            Seq<char>,
                            u64,
                        >::empty().insert(batch_id@, now)
                        &&& final(self)@.servers[u].latency_history =~= Seq::<u64>::empty()
                        &&& exists|i: int|
                            0 <= i < urls@.len() && (#[trigger] urls@[i])@ == u && handshake_ok@[i]
                                && final(self)@.servers[u].session_id == session_ids@[i]
                    })
            },
            old(self).tight() ==> final(self).tight(),
    {
        if urls.len() == 0 {
            return Err(RegisterError::EmptyInput);
        }
        let accepted = self.apply_registration(batch_id, now, urls, handshake_ok, session_ids);
        if accepted.len() == 0 {
            proof {
                assert forall|u: Seq<char>|
                    !accepted_url(old(self)@, urls@, handshake_ok@, u) by {
                    if accepted_url(old(self)@, urls@, handshake_ok@, u) {
                        assert(url_set(accepted@).contains(u));
                        lemma_url_set_contains(accepted@, u);
                    }
                }
            }
            Ok(RegisterOutcome::NoUrlAccepted)
        } else {
            Ok(RegisterOutcome::Created { batch_id: batch_id.clone(), accepted })
        }
    }
}

/// The latency history after appending one sample under the FIFO bound.
pub open spec fn push_bounded(h: Seq<u64>, sample: u64) -> Seq<u64> {
    if h.len() < MAX_PING_HISTORY {
        h.push(sample)
    } else {
        h.subrange(1, h.len() as int).push(sample)
    }
}

/// Append one latency sample (in nanoseconds) to a bounded history,
/// evicting the oldest sample when the bound would be exceeded.
pub fn push_latency_sample(history: &mut Vec<u64>, sample: u64)
    requires
        old(history)@.len() <= MAX_PING_HISTORY,
    ensures
        final(history)@ == push_bounded(old(history)@, sample),
        final(history)@.len() <= MAX_PING_HISTORY,
{
    history.push(sample);
    if history.len() > MAX_PING_HISTORY {
        history.remove(0);
        proof {
            assert(final(history)@ =~= push_bounded(old(history)@, sample));
        }
    }
}

/// Sum of a sequence of samples.
pub open spec fn sum_seq(s: Seq<u64>) -> int
    decreases s.len(),
{
    if s.len() == 0 {
        0
    } else {
        sum_seq(s.drop_last()) + s.last()
    }
}

impl SchedulerState {
    /// Record the outcome of one ping: append the measured duration to the
    /// URL's latency history iff the URL is still monitored. Ping failure is
    /// recorded like success; only batch timeout evicts an entry.
    pub fn record_ping(&mut self, url: &String, sample_nanos: u64)
        requires
            old(self).inv(),
        ensures
            final(self).inv(),
            final(self)@.batches == old(self)@.batches,
            !old(self)@.servers.contains_key(url@) ==> final(self)@.servers
                == old(self)@.servers,
            old(self)@.servers.contains_key(url@) ==> final(self)@.servers =~= old(self)@.servers.insert(
                url@,
                (ServerStatusAbs {
                    session_id: old(self)@.servers[url@].session_id,
                    active_batches: old(self)@.servers[url@].active_batches,
                    latency_history: push_bounded(
                        old(self)@.servers[url@].latency_history,
                        sample_nanos,
                    ),
                }),
            ),
            old(self).tight() ==> final(self).tight(),
    {
        let idx = match self.find_server(url) {
            Some(i) => i,
            None => {
                return ;
            },
        };
        let ghost pre = *self;
        let mut entry = self.servers.remove(idx);
        push_latency_sample(&mut entry.1.latency_history, sample_nanos);
        self.servers.insert(idx, entry);
        proof {
            assert(self.servers@ =~= pre.servers@.update(idx as int, self.servers@[idx as int]));
            assert(self.server_pairs() =~= pre.server_pairs().update(
                idx as int,
                (pre.server_pairs()[idx as int].0, self.servers@[idx as int].1@),
            ));
            lemma_kv_map_update(pre.server_pairs(), idx as int, self.servers@[idx as int].1@);
            assert(final(self)@.servers =~= pre@.servers.insert(
                url@,
                (ServerStatusAbs {
                    session_id: pre@.servers[url@].session_id,
                    active_batches: pre@.servers[url@].active_batches,
                    latency_history: push_bounded(pre@.servers[url@].latency_history, sample_nanos),
                }),
            ));
            assert(final(self).inv()) by {
                assert(forall|i: int|
                    0 <= i < self.servers@.len() ==> (#[trigger] self.servers@[i]).1.wf());
                assert(forall|u: Seq<char>, b: Seq<char>|
                    self@.servers.contains_key(u)
                        && #[trigger] self@.servers[u].active_batches.contains_key(b) ==> pre@
                        .servers.contains_key(u) && pre@.servers[u].active_batches.contains_key(b));
            }
            if pre.tight() {
                assert forall|b: Seq<char>, u: Seq<char>|
                    self@.batches.contains_key(b) && #[trigger] self@.batches[b].contains(u)
                    implies self@.servers.contains_key(u)
                    && self@.servers[u].active_batches.contains_key(b) by {
                    assert(pre@.batches[b].contains(u));
                    assert(pre@.servers.contains_key(u));
                    assert(self@.servers.contains_key(u) && self@.servers[u].active_batches == pre@
                        .servers[u].active_batches);
                }
            }
        }
    }

    /// Total recorded latency (nanoseconds) and sample count for a URL, if it
    /// is monitored. An average is the quotient of the two.
    pub fn latency_totals(&self, url: &String) -> (r: Option<(u128, usize)>)
        requires
            self.inv(),
        ensures
            r is Some <==> self@.servers.contains_key(url@),
            match r {
                Some(t) => t.0 == sum_seq(self@.servers[url@].latency_history) && t.1
                    == self@.servers[url@].latency_history.len(),
                None => true,
            },
    {
        let idx = match self.find_server(url) {
            Some(i) => i,
            None => {
                return None;
            },
        };
        let h = &self.servers[idx].1.latency_history;
        let n = h.len();
        let mut sum: u128 = 0;
        let mut i: usize = 0;
        while i < n
            invariant
                i <= n,
                n == h@.len(),
                n <= MAX_PING_HISTORY,
                sum == sum_seq(h@.take(i as int)),
                sum <= i * (u64::MAX as u128),
            decreases n - i,
        {
            proof {
                assert(h@.take(i + 1 as int).drop_last() =~= h@.take(i as int));
            }
            sum = sum + h[i] as u128;
            i += 1;
        }
        proof {
            assert(h@.take(n as int) =~= h@);
        }
        Some((sum, n))
    }
}

/// Failure modes of an unregistration request.
#[derive(PartialEq, Eq, Structural, Clone, Copy, Debug)]
pub enum UnregisterError {
    /// The batch id is not recorded (or was already unregistered).
    NotFound,
}

/// What an unregistration did.
pub struct UnregisterSummary {
    /// How many URLs the removed batch referenced.
    pub urls_affected: usize,
    /// How many of them lost their last batch reference and stopped being
    /// monitored.
    pub stopped: usize,
}

/// The URLs whose monitoring stops when batch `b` is removed from `pre`:
/// those whose only remaining batch reference is `b`.
pub open spec fn stopped_by_removal(pre: SchedulerStateAbs, b: Seq<char>) -> Set<Seq<char>> {
    Set::new(
        |u: Seq<char>|
            pre.servers.contains_key(u) && pre.servers[u].active_batches.remove(b) =~= Map::<
                Seq<char>,
                u64,
            >::empty(),
    )
}

impl SchedulerState {
    /// Remove a recorded batch: drop its entry from the batch table, delete
    /// its reference from every URL it named, and stop monitoring every URL
    /// whose last reference it was (the session is released by dropping the
    /// entry). Unknown batch ids are rejected and leave the state unchanged.
    #[verifier::rlimit(60)]
    pub fn unregister(&mut self, batch_id: &String) -> (r: Result<
        UnregisterSummary,
        UnregisterError,
    >)
        requires
            old(self).inv(),
        ensures
            final(self).inv(),
            r is Err <==> !old(self)@.batches.contains_key(batch_id@),
            r matches Err(e) ==> e == UnregisterError::NotFound && final(self)@ == old(self)@,
            r matches Ok(s) ==> {
                &&& final(self)@.batches =~= old(self)@.batches.remove(batch_id@)
                &&& s.urls_affected == old(self)@.batches[batch_id@].len()
                &&& s.stopped == stopped_by_removal(old(self)@, batch_id@).len()
                &&& (forall|u: Seq<char>|
                    old(self)@.servers.contains_key(u) ==> {
                        &&& (old(self)@.servers[u].active_batches.remove(batch_id@) =~= Map::<
                            Seq<char>,
                            u64,
                        >::empty() ==> !(#[trigger] final(self)@.servers.contains_key(u)))
                        &&& (!(old(self)@.servers[u].active_batches.remove(batch_id@) =~= Map::<
                            Seq<char>,
                            u64,
                        >::empty()) ==> final(self)@.servers.contains_key(u) && final(self)@.servers[u].session_id == old(self)@.servers[u].session_id && final(self)@.servers[u].latency_history == old(self)@.servers[u].latency_history
                            && final(self)@.servers[u].active_batches =~= old(self)@.servers[u].active_batches.remove(batch_id@))
                    })
                &&& (forall|u: Seq<char>|
                    !old(self)@.servers.contains_key(u) ==> !(#[trigger] final(self)@.servers.contains_key(u)))
            },
            old(self).tight() ==> final(self).tight(),
    {
        let bidx = match self.find_batch(batch_id) {
            Some(i) => i,
            None => {
                return Err(UnregisterError::NotFound);
            },
        };
        let ghost pre = *self;
        let entry = self.batches.remove(bidx);
        let urls = entry.1;
        let ghost uv = urls@;
        proof {
            lemma_kv_map_remove(pre.batch_pairs(), bidx as int);
            assert(self.batch_pairs() =~= pre.batch_pairs().remove(bidx as int));
            assert(self@.batches =~= pre@.batches.remove(batch_id@));
            assert(distinct_strings(uv));
            assert(url_set(uv) == pre@.batches[batch_id@]);
            assert forall|u: Seq<char>, b2: Seq<char>|
                self@.servers.contains_key(u)
                    && #[trigger] self@.servers[u].active_batches.contains_key(b2) && b2
                    != batch_id@ implies self@.batches.contains_key(b2)
                && self@.batches[b2].contains(u) by {
                assert(pre@.servers.contains_key(u));
                assert(pre@.servers[u].active_batches.contains_key(b2));
                assert(pre@.batches.contains_key(b2) && pre@.batches[b2].contains(u));
            }
        }
        let n = urls.len();
        let mut stopped: usize = 0;
        let ghost mut done = Set::<Seq<char>>::empty();
        let mut i: usize = 0;
        while i < n
            invariant
                i <= n,
                n == uv.len(),
                urls@ == uv,
                distinct_strings(uv),
                stopped <= i,
                self.inv_core(),
                self@.batches =~= pre@.batches.remove(batch_id@),
                pre.inv(),
                url_set(uv) == pre@.batches[batch_id@],
                pre@.batches.contains_key(batch_id@),
                forall|u: Seq<char>, b2: Seq<char>|
                    self@.servers.contains_key(u)
                        && #[trigger] self@.servers[u].active_batches.contains_key(b2) && b2
                        != batch_id@ ==> self@.batches.contains_key(b2)
                        && self@.batches[b2].contains(u),
                forall|u: Seq<char>|
                    pre@.servers.contains_key(u) ==> {
                        &&& (touched_upto(uv, u, i as int) && pre@.servers[u].active_batches.remove(
                            batch_id@,
                        ) =~= Map::<Seq<char>, u64>::empty() ==> !(#[trigger] self@
                            .servers.contains_key(u)))
                        &&& (touched_upto(uv, u, i as int) && !(pre@.servers[u]
                            .active_batches.remove(batch_id@) =~= Map::<Seq<char>, u64>::empty())
                            ==> self@.servers.contains_key(u) && self@.servers[u].session_id
                            == pre@.servers[u].session_id && self@.servers[u].latency_history
                            == pre@.servers[u].latency_history && self@.servers[u].active_batches
                            =~= pre@.servers[u].active_batches.remove(batch_id@))
                        &&& (!touched_upto(uv, u, i as int) ==> self@.servers.contains_key(u)
                            && self@.servers[u] == pre@.servers[u])
                    },
                forall|u: Seq<char>|
                    !pre@.servers.contains_key(u) ==> !(#[trigger] self@.servers.contains_key(u)),
                done.finite(),
                stopped == done.len(),
                forall|u: Seq<char>|
                    #[trigger] done.contains(u) <==> (stopped_by_removal(pre@, batch_id@).contains(
                        u,
                    ) && touched_upto(uv, u, i as int)),
            decreases n - i,
        {
            let u = &urls[i];
            let ghost uview = uv[i as int]@;
            let ghost cur = *self;
            proof {
                lemma_touched_step(uv, uview, i as int);
                assert(!touched_upto(uv, uview, i as int)) by {
                    if touched_upto(uv, uview, i as int) {
                        let j = choose|j: int|
                            0 <= j < i && j < uv.len() && (#[trigger] uv[j])@ == uview;
                    }
                }
            }
            match self.find_server(u) {
                Some(sidx) => {
                    proof {
                        assert(pre@.servers.contains_key(uview));
                        assert(cur@.servers[uview] == pre@.servers[uview]);
                    }
                    let mut entry = self.servers.remove(sidx);
                    let ghost abpre = entry.1.batch_pairs();
                    match find_key(&entry.1.active_batches, batch_id) {
                        Some(k) => {
                            entry.1.active_batches.remove(k);
                            proof {
                                assert(entry.1.batch_pairs() =~= abpre.remove(k as int));
                                lemma_kv_map_remove(abpre, k as int);
                                assert(entry.1@.active_batches =~= pre@.servers[uview]
                                    .active_batches.remove(batch_id@));
                            }
                        },
                        None => {
                            proof {
                                lemma_kv_map_absent_key(abpre, batch_id@);
                                assert(entry.1@.active_batches =~= pre@.servers[uview]
                                    .active_batches.remove(batch_id@));
                            }
                        },
                    }
                    if entry.1.active_batches.len() == 0 {
                        stopped = stopped + 1;
                        proof {
                            assert(entry.1.batch_pairs() =~= Seq::<(Seq<char>, u64)>::empty());
                            assert(entry.1@.active_batches =~= Map::<Seq<char>, u64>::empty());
                            assert(stopped_by_removal(pre@, batch_id@).contains(uview));
                            assert(!done.contains(uview));
                            vstd::set::axiom_set_insert_finite(done, uview);
                            vstd::set::axiom_set_insert_len(done, uview);
                            done = done.insert(uview);
                        }
                        proof {
                            assert(pre@.servers[uview].active_batches.remove(batch_id@) =~= Map::<
                                Seq<char>,
                                u64,
                            >::empty());
                            // the server entry stays removed
                            assert(self.servers@ =~= cur.servers@.remove(sidx as int));
                            assert(self.server_pairs() =~= cur.server_pairs().remove(sidx as int));
                            lemma_kv_map_remove(cur.server_pairs(), sidx as int);
                            assert(self@.servers =~= cur@.servers.remove(uview));
                        }
                    } else {
                        proof {
                            assert(entry.1.batch_pairs().len() > 0);
                            lemma_kv_map_get(entry.1.batch_pairs(), 0);
                            assert(entry.1@.active_batches.contains_key(
                                entry.1.batch_pairs()[0].0,
                            ));
                            assert(!(pre@.servers[uview].active_batches.remove(batch_id@) =~= Map::<
                                Seq<char>,
                                u64,
                            >::empty()));
                        }
                        self.servers.insert(sidx, entry);
                        proof {
                            assert(self.servers@ =~= cur.servers@.update(
                                sidx as int,
                                self.servers@[sidx as int],
                            ));
                            assert(self.server_pairs() =~= cur.server_pairs().update(
                                sidx as int,
                                (uview, self.servers@[sidx as int].1@),
                            ));
                            lemma_kv_map_update(
                                cur.server_pairs(),
                                sidx as int,
                                self.servers@[sidx as int].1@,
                            );
                            assert(self@.servers =~= cur@.servers.insert(
                                uview,
                                self.servers@[sidx as int].1@,
                            ));
                        }
                    }
                },
                None => {
                    proof {
                        assert(!pre@.servers.contains_key(uview));
                    }
                },
            }
            proof {
                assert forall|x: Seq<char>| pre@.servers.contains_key(x) implies {
                    &&& (touched_upto(uv, x, i + 1) && pre@.servers[x].active_batches.remove(
                        batch_id@,
                    ) =~= Map::<Seq<char>, u64>::empty() ==> !(#[trigger] self@
                        .servers.contains_key(x)))
                    &&& (touched_upto(uv, x, i + 1) && !(pre@.servers[x].active_batches.remove(
                        batch_id@,
                    ) =~= Map::<Seq<char>, u64>::empty()) ==> self@.servers.contains_key(x) && self@
                        .servers[x].session_id == pre@.servers[x].session_id && self@
                        .servers[x].latency_history == pre@.servers[x].latency_history && self@
                        .servers[x].active_batches =~= pre@.servers[x].active_batches.remove(
                        batch_id@,
                    ))
                    &&& (!touched_upto(uv, x, i + 1) ==> self@.servers.contains_key(x) && self@
                        .servers[x] == pre@.servers[x])
                } by {
                    lemma_touched_step(uv, x, i as int);
                    if x != uview {
                        assert(cur@.servers.contains_key(x) == self@.servers.contains_key(x));
                        if cur@.servers.contains_key(x) {
                            assert(self@.servers[x] == cur@.servers[x]);
                        }
                    } else {
                        if pre@.servers.contains_key(x) {
                            assert(cur@.servers[x] == pre@.servers[x]);
                            if pre@.servers[x].active_batches.remove(batch_id@) =~= Map::<
                                Seq<char>,
                                u64,
                            >::empty() {
                                assert(!self@.servers.contains_key(x));
                            } else {
                                assert(self@.servers.contains_key(x));
                                assert(self@.servers[x].session_id == pre@.servers[x].session_id);
                                assert(self@.servers[x].latency_history == pre@.servers[x]
                                    .latency_history);
                                assert(self@.servers[x].active_batches =~= pre@.servers[x]
                                    .active_batches.remove(batch_id@));
                            }
                        }
                    }
                }
                assert forall|x: Seq<char>| #[trigger]
                    done.contains(x) <==> (stopped_by_removal(pre@, batch_id@).contains(x)
                        && touched_upto(uv, x, i + 1)) by {
                    lemma_touched_step(uv, x, i as int);
                    if x == uview && stopped_by_removal(pre@, batch_id@).contains(x) {
                        assert(pre@.servers.contains_key(x));
                    }
                }
                assert forall|x: Seq<char>|
                    pre@.servers.contains_key(x) && touched_upto(uv, x, i + 1) && pre@.servers[x]
                        .active_batches.remove(batch_id@) =~= Map::<Seq<char>, u64>::empty()
                    implies !self@.servers.contains_key(x) by {
                    // mention the membership term so the facts above instantiate
                    assert(self@.servers.contains_key(x) || !self@.servers.contains_key(x));
                }
                assert forall|x: Seq<char>|
                    pre@.servers.contains_key(x) && touched_upto(uv, x, i + 1) && !(pre@.servers[x]
                        .active_batches.remove(batch_id@) =~= Map::<Seq<char>, u64>::empty())
                    implies self@.servers.contains_key(x) && self@.servers[x].session_id == pre@
                        .servers[x].session_id && self@.servers[x].latency_history == pre@
                        .servers[x].latency_history && self@.servers[x].active_batches =~= pre@
                        .servers[x].active_batches.remove(batch_id@) by {
                    // mention the membership term so the facts above instantiate
                    assert(self@.servers.contains_key(x) || !self@.servers.contains_key(x));
                }
                assert forall|x: Seq<char>|
                    pre@.servers.contains_key(x) && !touched_upto(uv, x, i + 1)
                    implies self@.servers.contains_key(x) && self@.servers[x] == pre@.servers[x] by {
                    // mention the membership term so the facts above instantiate
                    assert(self@.servers.contains_key(x) || !self@.servers.contains_key(x));
                }
            }
            i += 1;
        }
        proof {
            // no server still references the removed batch
            assert forall|u: Seq<char>, b2: Seq<char>|
                self@.servers.contains_key(u)
                    && #[trigger] self@.servers[u].active_batches.contains_key(b2)
                implies self@.batches.contains_key(b2) && self@.batches[b2].contains(u) by {
                if b2 == batch_id@ {
                    assert(pre@.servers.contains_key(u));
                    if touched_upto(uv, u, n as int) {
                        if pre@.servers[u].active_batches.remove(batch_id@) =~= Map::<
                            Seq<char>,
                            u64,
                        >::empty() {
                            assert(!self@.servers.contains_key(u));
                        } else {
                            assert(self@.servers[u].active_batches =~= pre@.servers[u]
                                .active_batches.remove(batch_id@));
                        }
                        assert(false);
                    } else {
                        assert(self@.servers[u] == pre@.servers[u]);
                        assert(pre@.servers[u].active_batches.contains_key(batch_id@));
                        assert(pre@.batches[batch_id@].contains(u));
                        lemma_url_set_contains(uv, u);
                        assert(touched_upto(uv, u, n as int));
                        assert(false);
                    }
                }
            }
            // every stopped URL was named by the batch, so the ghost set is
            // exactly the stopped set
            assert(done =~= stopped_by_removal(pre@, batch_id@)) by {
                assert forall|u: Seq<char>|
                    stopped_by_removal(pre@, batch_id@).contains(u) implies done.contains(u) by {
                    assert(pre@.servers.contains_key(u));
                    assert(pre@.servers[u].active_batches.remove(batch_id@) =~= Map::<
                        Seq<char>,
                        u64,
                    >::empty());
                    lemma_kv_map_contains(pre.server_pairs(), u);
                    let i0 = choose|i0: int|
                        0 <= i0 < pre.server_pairs().len() && (#[trigger] pre.server_pairs()[i0]).0
                            == u;
                    pre.lemma_server_lookup(i0);
                    assert(pre.servers@[i0].1.wf());
                    assert(pre.servers@[i0].1.batch_pairs().len() > 0);
                    lemma_kv_map_get(pre.servers@[i0].1.batch_pairs(), 0);
                    let b0 = pre.servers@[i0].1.batch_pairs()[0].0;
                    assert(pre@.servers[u].active_batches.contains_key(b0));
                    assert(b0 == batch_id@) by {
                        if b0 != batch_id@ {
                            assert(pre@.servers[u].active_batches.remove(batch_id@).contains_key(
                                b0,
                            ));
                        }
                    }
                    assert(pre@.batches[batch_id@].contains(u));
                    lemma_url_set_contains(uv, u);
                    assert(touched_upto(uv, u, n as int));
                }
            }
            // the batch's url list is duplicate-free, so its length is the
            // size of the url set
            assert(uv.map_values(|x: String| x@).no_duplicates());
            uv.map_values(|x: String| x@).unique_seq_to_set();
            assert(url_set(uv).len() == uv.len());
            // a URL whose only reference was the removed batch was named by
            // that batch, so the loop reached it
            assert forall|u: Seq<char>|
                pre@.servers.contains_key(u) && pre@.servers[u].active_batches.remove(batch_id@)
                    =~= Map::<Seq<char>, u64>::empty() implies !self@.servers.contains_key(u) by {
                assert(stopped_by_removal(pre@, batch_id@).contains(u));
                assert(done.contains(u));
                assert(touched_upto(uv, u, n as int));
            }
            assert forall|u: Seq<char>|
                pre@.servers.contains_key(u) && !(pre@.servers[u].active_batches.remove(batch_id@)
                    =~= Map::<Seq<char>, u64>::empty()) implies (self@.servers.contains_key(u)
                && self@.servers[u].session_id == pre@.servers[u].session_id && self@
                .servers[u].latency_history == pre@.servers[u].latency_history && self@
                .servers[u].active_batches =~= pre@.servers[u].active_batches.remove(
                batch_id@,
            )) by {
                assert(self@.servers.contains_key(u));
                if touched_upto(uv, u, n as int) {
                } else {
                    assert(self@.servers[u] == pre@.servers[u]);
                    assert(!pre@.servers[u].active_batches.contains_key(batch_id@)) by {
                        if pre@.servers[u].active_batches.contains_key(batch_id@) {
                            assert(pre@.batches[batch_id@].contains(u));
                            lemma_url_set_contains(uv, u);
                            assert(touched_upto(uv, u, n as int));
                        }
                    }
                    assert(self@.servers[u].active_batches =~= pre@.servers[u]
                        .active_batches.remove(batch_id@));
                }
            }
            if pre.tight() {
                assert forall|b2: Seq<char>, u: Seq<char>|
                    self@.batches.contains_key(b2) && #[trigger] self@.batches[b2].contains(u)
                    implies self@.servers.contains_key(u)
                    && self@.servers[u].active_batches.contains_key(b2) by {
                    assert(pre@.batches.contains_key(b2) && pre@.batches[b2].contains(u));
                    assert(b2 != batch_id@);
                    assert(pre@.servers.contains_key(u));
                    assert(pre@.servers[u].active_batches.contains_key(b2));
                    assert(!(pre@.servers[u].active_batches.remove(batch_id@) =~= Map::<
                        Seq<char>,
                        u64,
                    >::empty())) by {
                        assert(pre@.servers[u].active_batches.remove(batch_id@).contains_key(b2));
                    }
                    if touched_upto(uv, u, n as int) {
                        assert(self@.servers[u].active_batches =~= pre@.servers[u]
                            .active_batches.remove(batch_id@));
                        assert(self@.servers[u].active_batches.contains_key(b2));
                    } else {
                        assert(self@.servers[u] == pre@.servers[u]);
                    }
                }
            }
        }
        Ok(UnregisterSummary { urls_affected: n, stopped })
    }
}

/// A batch reference registered at `t` has expired at `now`.
pub open spec fn ref_expired(t: u64, now: u64) -> bool {
    now > t + crate::TIMEOUT_SECONDS
}

/// The references of `ab` that have not expired at `now`.
pub open spec fn live_refs(ab: Map<Seq<char>, u64>, now: u64) -> Map<Seq<char>, u64> {
    Map::new(
        |b: Seq<char>| ab.contains_key(b) && !ref_expired(ab[b], now),
        |b: Seq<char>| ab[b],
    )
}

/// The server table after one sweep at `now`: expired references are dropped
/// and servers left without references are evicted; sessions and histories
/// of the survivors are untouched.
pub open spec fn swept(
    servers: Map<Seq<char>, ServerStatusAbs>,
    now: u64,
) -> Map<Seq<char>, ServerStatusAbs> {
    Map::new(
        |u: Seq<char>|
            servers.contains_key(u) && !(live_refs(servers[u].active_batches, now) =~= Map::<
                Seq<char>,
                u64,
            >::empty()),
        |u: Seq<char>|
            ServerStatusAbs {
                session_id: servers[u].session_id,
                active_batches: live_refs(servers[u].active_batches, now),
                latency_history: servers[u].latency_history,
            },
    )
}

impl SchedulerState {
    /// One heartbeat sweep: drop every batch reference older than the
    /// timeout, evict servers left without references, and return the URLs
    /// still monitored (the ones to ping). Batches stay recorded even when
    /// their references time out.
    #[verifier::rlimit(60)]
    pub fn sweep(&mut self, now: u64) -> (to_ping: Vec<String>)
        requires
            old(self).inv(),
        ensures
            final(self).inv(),
            final(self)@.batches == old(self)@.batches,
            final(self)@.servers =~= swept(old(self)@.servers, now),
            distinct_strings(to_ping@),
            forall|u: Seq<char>|
                #[trigger] url_set(to_ping@).contains(u) <==> swept(
                    old(self)@.servers,
                    now,
                ).contains_key(u),
    {
        let ghost pre = *self;
        let mut kept: Vec<(String, ServerStatus)> = Vec::new();
        let mut to_ping: Vec<String> = Vec::new();
        loop
            invariant
                pre.inv(),
                self.batches == pre.batches,
                self.servers@.len() <= pre.servers@.len(),
                self.servers@ =~= pre.servers@.subrange(0, self.servers@.len() as int),
                kept@.len() == to_ping@.len(),
                forall|k: int|
                    0 <= k < kept@.len() ==> (#[trigger] kept@[k]).0@ == to_ping@[k]@,
                kv_distinct(entry_pairs(kept@)),
                forall|k: int|
                    0 <= k < kept@.len() ==> (#[trigger] kept@[k]).1.wf(),
                forall|u: Seq<char>|
                    #[trigger] kv_map(
                        entry_pairs(kept@),
                    ).contains_key(u) <==> (swept(pre@.servers, now).contains_key(u) && exists|j: int|
                        self.servers@.len() <= j < pre.servers@.len() && (#[trigger] pre
                            .server_pairs()[j]).0 == u),
                forall|u: Seq<char>|
                    #[trigger] kv_map(
                        entry_pairs(kept@),
                    ).contains_key(u) ==> kv_map(
                        entry_pairs(kept@),
                    )[u] == swept(pre@.servers, now)[u],
            ensures
                self.batches == pre.batches,
                self.servers@.len() == 0,
                kept@.len() == to_ping@.len(),
                forall|k: int|
                    0 <= k < kept@.len() ==> (#[trigger] kept@[k]).0@ == to_ping@[k]@,
                kv_distinct(entry_pairs(kept@)),
                forall|k: int|
                    0 <= k < kept@.len() ==> (#[trigger] kept@[k]).1.wf(),
                forall|u: Seq<char>|
                    #[trigger] kv_map(entry_pairs(kept@)).contains_key(u) <==> (swept(
                        pre@.servers,
                        now,
                    ).contains_key(u) && exists|j: int|
                        0 <= j < pre.servers@.len() && (#[trigger] pre.server_pairs()[j]).0 == u),
                forall|u: Seq<char>|
                    #[trigger] kv_map(entry_pairs(kept@)).contains_key(u) ==> kv_map(
                        entry_pairs(kept@),
                    )[u] == swept(pre@.servers, now)[u],
            decreases self.servers@.len(),
        {
            let ghost m = self.servers@.len();
            let ghost kept0 = kept@;
            let entry = match self.servers.pop() {
                Some(e) => e,
                None => {
                    break ;
                },
            };
            let url = entry.0;
            let mut st = entry.1;
            proof {
                assert(self.servers@ =~= pre.servers@.subrange(0, m - 1));
                assert(pre.servers@.subrange(0, m as int)[m - 1] == pre.servers@[m - 1]);
                assert(pre.servers@[m - 1] == (url, st));
                pre.lemma_server_lookup(m - 1);
                assert(pre@.servers[url@] == st@);
                assert(st.wf());
            }
            let ghost ab0 = st.batch_pairs();
            let mut live: Vec<(String, u64)> = Vec::new();
            let nb = st.active_batches.len();
            let mut k: usize = 0;
            while k < nb
                invariant
                    k <= nb,
                    nb == st.active_batches@.len(),
                    ab0 == st.batch_pairs(),
                    kv_distinct(ab0),
                    kv_distinct(u64_pairs(live@)),
                    forall|b: Seq<char>|
                        #[trigger] kv_map(
                            u64_pairs(live@),
                        ).contains_key(b) <==> exists|j2: int|
                            0 <= j2 < k && (#[trigger] ab0[j2]).0 == b && !ref_expired(
                                ab0[j2].1,
                                now,
                            ),
                    forall|b: Seq<char>|
                        #[trigger] kv_map(
                            u64_pairs(live@),
                        ).contains_key(b) ==> kv_map(
                            u64_pairs(live@),
                        )[b] == kv_map(ab0)[b],
                decreases nb - k,
            {
                let ghost live0 = live@;
                let t = st.active_batches[k].1;
                let expired = (now as u128) > (t as u128) + (crate::TIMEOUT_SECONDS as u128);
                if !expired {
                    let b = st.active_batches[k].0.clone();
                    live.push((b, t));
                    proof {
                        assert(u64_pairs(live@) =~= u64_pairs(live0).push((
                            ab0[k as int].0,
                            ab0[k as int].1,
                        )));
                        lemma_kv_map_push(
                            u64_pairs(live0),
                            ab0[k as int].0,
                            ab0[k as int].1,
                        );
                        lemma_kv_map_get(ab0, k as int);
                        assert(!kv_map(u64_pairs(live0)).contains_key(ab0[k as int].0)) by {
                            if kv_map(u64_pairs(live0)).contains_key(ab0[k as int].0) {
                                let j9 = choose|j9: int|
                                    0 <= j9 < k && (#[trigger] ab0[j9]).0 == ab0[k as int].0
                                        && !ref_expired(ab0[j9].1, now);
                            }
                        }
                        lemma_kv_map_contains(u64_pairs(live0), ab0[k as int].0);
                        assert(kv_distinct(u64_pairs(live@)));
                        assert forall|b2: Seq<char>|
                            #[trigger] kv_map(
                                u64_pairs(live@),
                            ).contains_key(b2) implies exists|j2: int|
                            0 <= j2 < k + 1 && (#[trigger] ab0[j2]).0 == b2 && !ref_expired(
                                ab0[j2].1,
                                now,
                            ) by {
                            if b2 != ab0[k as int].0 {
                                let j2 = choose|j2: int|
                                    0 <= j2 < k && (#[trigger] ab0[j2]).0 == b2 && !ref_expired(
                                        ab0[j2].1,
                                        now,
                                    );
                                assert(0 <= j2 < k + 1 && ab0[j2].0 == b2);
                            } else {
                                assert(0 <= k < k + 1 && ab0[k as int].0 == b2 && !ref_expired(
                                    ab0[k as int].1,
                                    now,
                                ));
                            }
                        }
                        assert forall|b2: Seq<char>|
                            (exists|j2: int|
                                0 <= j2 < k + 1 && (#[trigger] ab0[j2]).0 == b2 && !ref_expired(
                                    ab0[j2].1,
                                    now,
                                )) implies #[trigger] kv_map(
                            u64_pairs(live@),
                        ).contains_key(b2) by {
                            let j2 = choose|j2: int|
                                0 <= j2 < k + 1 && (#[trigger] ab0[j2]).0 == b2 && !ref_expired(
                                    ab0[j2].1,
                                    now,
                                );
                            if j2 < k {
                                assert(kv_map(
                                    u64_pairs(live0),
                                ).contains_key(b2));
                            }
                        }
                    }
                } else {
                    proof {
                        assert forall|b2: Seq<char>|
                            #[trigger] kv_map(
                                u64_pairs(live@),
                            ).contains_key(b2) implies exists|j2: int|
                            0 <= j2 < k + 1 && (#[trigger] ab0[j2]).0 == b2 && !ref_expired(
                                ab0[j2].1,
                                now,
                            ) by {
                            let j2 = choose|j2: int|
                                0 <= j2 < k && (#[trigger] ab0[j2]).0 == b2 && !ref_expired(
                                    ab0[j2].1,
                                    now,
                                );
                            assert(0 <= j2 < k + 1 && ab0[j2].0 == b2);
                        }
                        assert forall|b2: Seq<char>|
                            (exists|j2: int|
                                0 <= j2 < k + 1 && (#[trigger] ab0[j2]).0 == b2 && !ref_expired(
                                    ab0[j2].1,
                                    now,
                                )) implies #[trigger] kv_map(
                            u64_pairs(live@),
                        ).contains_key(b2) by {
                            let j2 = choose|j2: int|
                                0 <= j2 < k + 1 && (#[trigger] ab0[j2]).0 == b2 && !ref_expired(
                                    ab0[j2].1,
                                    now,
                                );
                            assert(j2 != k);
                            assert(kv_map(
                                u64_pairs(live0),
                            ).contains_key(b2));
                        }
                    }
                }
                k += 1;
            }
            proof {
                // the filtered references are exactly the live ones
                assert(kv_map(u64_pairs(live@)) =~= live_refs(
                    st@.active_batches,
                    now,
                )) by {
                    assert forall|b2: Seq<char>|
                        #[trigger] kv_map(
                            u64_pairs(live@),
                        ).contains_key(b2) implies live_refs(st@.active_batches, now).contains_key(
                        b2,
                    ) && kv_map(u64_pairs(live@))[b2] == live_refs(
                        st@.active_batches,
                        now,
                    )[b2] by {
                        let j2 = choose|j2: int|
                            0 <= j2 < nb && (#[trigger] ab0[j2]).0 == b2 && !ref_expired(
                                ab0[j2].1,
                                now,
                            );
                        lemma_kv_map_get(ab0, j2);
                    }
                    assert forall|b2: Seq<char>|
                        live_refs(st@.active_batches, now).contains_key(b2) implies #[trigger]
                        kv_map(
                        u64_pairs(live@),
                    ).contains_key(b2) by {
                        lemma_kv_map_contains(ab0, b2);
                        let j2 = choose|j2: int|
                            0 <= j2 < ab0.len() && (#[trigger] ab0[j2]).0 == b2;
                        lemma_kv_map_get(ab0, j2);
                        assert(0 <= j2 < nb && ab0[j2].0 == b2 && !ref_expired(ab0[j2].1, now));
                    }
                }
            }
            let no_live = live.len() == 0;
            let ghost live_map = kv_map(u64_pairs(live@));
            if !no_live {
                proof {
                    assert(!(live_refs(st@.active_batches, now) =~= Map::<Seq<char>, u64>::empty()))
                        by {
                        lemma_kv_map_get(u64_pairs(live@), 0);
                    }
                    assert(swept(pre@.servers, now).contains_key(url@));
                }
                st.active_batches = live;
                to_ping.push(url.clone());
                kept.push((url, st));
                proof {
                    assert(entry_pairs(kept@) =~= entry_pairs(kept0).push((
                        url@,
                        kept@.last().1@,
                    )));
                    lemma_kv_map_push(
                        entry_pairs(kept0),
                        url@,
                        kept@.last().1@,
                    );
                    assert(kept@.last().1@ == swept(pre@.servers, now)[url@]);
                    // the popped key is not among the already-kept keys
                    assert(!kv_map(
                        entry_pairs(kept0),
                    ).contains_key(url@)) by {
                        if kv_map(
                            entry_pairs(kept0),
                        ).contains_key(url@) {
                            let j = choose|j: int|
                                m <= j < pre.servers@.len() && (#[trigger] pre.server_pairs()[j]).0
                                    == url@;
                            assert(pre.server_pairs()[m - 1].0 == url@);
                        }
                    }
                    lemma_kv_map_contains(entry_pairs(kept0), url@);
                    assert(kv_distinct(entry_pairs(kept@)));
                    assert(kept@.last().1.wf());
                    assert forall|x: Seq<char>|
                        #[trigger] kv_map(
                            entry_pairs(kept@),
                        ).contains_key(x) implies (swept(pre@.servers, now).contains_key(x)
                        && exists|j: int|
                        self.servers@.len() <= j < pre.servers@.len() && (#[trigger] pre
                            .server_pairs()[j]).0 == x) by {
                        if x == url@ {
                            assert(pre.server_pairs()[m - 1].0 == x);
                            assert(self.servers@.len() <= m - 1 < pre.servers@.len());
                        } else {
                            let j = choose|j: int|
                                m <= j < pre.servers@.len() && (#[trigger] pre.server_pairs()[j]).0
                                    == x;
                            assert(self.servers@.len() <= j < pre.servers@.len());
                        }
                    }
                    assert forall|x: Seq<char>|
                        (swept(pre@.servers, now).contains_key(x) && exists|j: int|
                            self.servers@.len() <= j < pre.servers@.len() && (#[trigger] pre
                                .server_pairs()[j]).0 == x) implies #[trigger] kv_map(
                        entry_pairs(kept@),
                    ).contains_key(x) by {
                        let j = choose|j: int|
                            self.servers@.len() <= j < pre.servers@.len() && (#[trigger] pre
                                .server_pairs()[j]).0 == x;
                        if j >= m {
                            assert(kv_map(
                                entry_pairs(kept0),
                            ).contains_key(x));
                        } else {
                            assert(j == m - 1);
                            assert(x == url@);
                        }
                    }
                }
            } else {
                proof {
                    assert(live_refs(st@.active_batches, now) =~= Map::<Seq<char>, u64>::empty());
                    assert(!swept(pre@.servers, now).contains_key(url@));
                    assert forall|x: Seq<char>|
                        #[trigger] kv_map(
                            entry_pairs(kept@),
                        ).contains_key(x) implies (swept(pre@.servers, now).contains_key(x)
                        && exists|j: int|
                        self.servers@.len() <= j < pre.servers@.len() && (#[trigger] pre
                            .server_pairs()[j]).0 == x) by {
                        let j = choose|j: int|
                            m <= j < pre.servers@.len() && (#[trigger] pre.server_pairs()[j]).0
                                == x;
                        assert(self.servers@.len() <= j < pre.servers@.len());
                    }
                    assert forall|x: Seq<char>|
                        (swept(pre@.servers, now).contains_key(x) && exists|j: int|
                            self.servers@.len() <= j < pre.servers@.len() && (#[trigger] pre
                                .server_pairs()[j]).0 == x) implies #[trigger] kv_map(
                        entry_pairs(kept@),
                    ).contains_key(x) by {
                        let j = choose|j: int|
                            self.servers@.len() <= j < pre.servers@.len() && (#[trigger] pre
                                .server_pairs()[j]).0 == x;
                        if j >= m {
                            assert(kv_map(
                                entry_pairs(kept0),
                            ).contains_key(x));
                        } else {
                            assert(j == m - 1);
                            assert(x == url@);
                            assert(pre@.servers[x] == st@);
                            assert(false);
                        }
                    }
                }
            }
        }
        self.servers = kept;
        proof {
            assert(self@.servers =~= swept(pre@.servers, now)) by {
                assert forall|x: Seq<char>|
                    #[trigger] self@.servers.contains_key(x) implies swept(
                    pre@.servers,
                    now,
                ).contains_key(x) && self@.servers[x] == swept(pre@.servers, now)[x] by {}
                assert forall|x: Seq<char>|
                    swept(pre@.servers, now).contains_key(x) implies #[trigger] self@
                    .servers.contains_key(x) by {
                    lemma_kv_map_contains(pre.server_pairs(), x);
                    let j = choose|j: int|
                        0 <= j < pre.server_pairs().len() && (#[trigger] pre.server_pairs()[j]).0
                            == x;
                    assert(0 <= j < pre.servers@.len());
                    assert(kv_map(entry_pairs(kept@)).contains_key(x));
                }
            }
            assert(final(self).inv()) by {
                assert(kv_distinct(self.server_pairs()));
                assert forall|i2: int|
                    0 <= i2 < self.servers@.len() implies (#[trigger] self.servers@[i2]).1.wf() by {}
                assert forall|u: Seq<char>, b: Seq<char>|
                    self@.servers.contains_key(u)
                        && #[trigger] self@.servers[u].active_batches.contains_key(b)
                    implies self@.batches.contains_key(b) && self@.batches[b].contains(u) by {
                    assert(pre@.servers.contains_key(u));
                    assert(pre@.servers[u].active_batches.contains_key(b));
                    assert(pre@.batches.contains_key(b) && pre@.batches[b].contains(u));
                }
            }
            assert forall|u: Seq<char>|
                #[trigger] url_set(to_ping@).contains(u) <==> swept(
                    pre@.servers,
                    now,
                ).contains_key(u) by {
                lemma_url_set_contains(to_ping@, u);
                if swept(pre@.servers, now).contains_key(u) {
                    assert(self@.servers.contains_key(u));
                    lemma_kv_map_contains(
                        entry_pairs(kept@),
                        u,
                    );
                    let j = choose|j: int|
                        0 <= j < kept@.len() && (#[trigger] entry_pairs(kept@)[j]).0 == u;
                    assert(to_ping@[j]@ == u);
                }
                if url_set(to_ping@).contains(u) {
                    let j = choose|j: int|
                        0 <= j < to_ping@.len() && (#[trigger] to_ping@[j])@ == u;
                    assert(kept@[j].0@ == u);
                    lemma_kv_map_get(
                        entry_pairs(kept@),
                        j,
                    );
                }
            }
            assert(distinct_strings(to_ping@)) by {
                assert forall|i2: int, j2: int|
                    0 <= i2 < j2 < to_ping@.len() implies to_ping@[i2]@ != to_ping@[j2]@ by {
                    assert(kept@[i2].0@ == to_ping@[i2]@ && kept@[j2].0@ == to_ping@[j2]@);
                    assert(entry_pairs(kept@)[i2].0 == kept@[i2].0@);
                    assert(entry_pairs(kept@)[j2].0 == kept@[j2].0@);
                }
            }
        }
        to_ping
    }

    /// A URL is monitored iff some recorded batch registered it. This is the
    /// state after any sequence of registrations and unregistrations; a
    /// heartbeat sweep may break the right-to-left direction (its batches
    /// stay recorded), which is why it is stated under `tight`.
    pub proof fn lemma_monitored_iff_batched(self, u: Seq<char>)
        requires
            self.inv(),
            self.tight(),
        ensures
            self@.servers.contains_key(u) <==> exists|b: Seq<char>|
                #[trigger] self@.batches.contains_key(b) && self@.batches[b].contains(u),
    {
        if self@.servers.contains_key(u) {
            lemma_kv_map_contains(self.server_pairs(), u);
            let i = choose|i: int|
                0 <= i < self.server_pairs().len() && (#[trigger] self.server_pairs()[i]).0 == u;
            self.lemma_server_lookup(i);
            assert(self.servers@[i].1.wf());
            assert(self.servers@[i].1.batch_pairs().len() > 0);
            lemma_kv_map_get(self.servers@[i].1.batch_pairs(), 0);
            let b = self.servers@[i].1.batch_pairs()[0].0;
            assert(self@.servers[u].active_batches.contains_key(b));
            assert(self@.batches.contains_key(b) && self@.batches[b].contains(u));
        }
        if exists|b: Seq<char>|
            #[trigger] self@.batches.contains_key(b) && self@.batches[b].contains(u) {
            let b = choose|b: Seq<char>|
                #[trigger] self@.batches.contains_key(b) && self@.batches[b].contains(u);
            assert(self@.servers.contains_key(u));
        }
    }

    /// Unregistration is the inverse of registration: once no recorded batch
    /// references a URL, the URL is not monitored.
    pub proof fn lemma_unreferenced_url_not_monitored(self, u: Seq<char>)
        requires
            self.inv(),
            self.tight(),
            forall|b: Seq<char>|
                #[trigger] self@.batches.contains_key(b) ==> !self@.batches[b].contains(u),
        ensures
            !self@.servers.contains_key(u),
    {
        self.lemma_monitored_iff_batched(u);
    }
}

} // verus!
