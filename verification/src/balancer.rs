use vstd::prelude::*;
use vstd::arithmetic::div_mod::{
    lemma_add_mod_noop, lemma_mod_add_multiples_vanish, lemma_mod_division_less_than_divisor,
    lemma_small_mod,
};

use crate::config::{Config, Server};

verus! {

/// Stepping a residue: adding one inside or outside `% n` lands on the same
/// cyclic position.
pub proof fn lemma_mod_step(a: int, n: int)
    requires
        n > 0,
        0 <= a,
    ensures
        0 <= a % n < n,
        (a % n + 1) % n == (a + 1) % n,
{
    lemma_mod_division_less_than_divisor(a, n);
    lemma_add_mod_noop(a, 1, n);
    if n == 1 {
        lemma_mod_division_less_than_divisor(1, n);
        lemma_mod_division_less_than_divisor(a % n + 1, n);
        lemma_mod_division_less_than_divisor(a + 1, n);
    } else {
        lemma_small_mod(1, n as nat);
    }
}

/// A full lap of the cursor comes back to where it started.
pub proof fn lemma_mod_full_lap(c: int, n: int)
    requires
        0 <= c < n,
    ensures
        (c + n) % n == c,
{
    lemma_mod_add_multiples_vanish(c, n);
    lemma_small_mod(c as nat, n as nat);
}

/// Why a request could not be served.
#[derive(Clone, Copy, Debug, PartialEq, Eq, Structural)]
pub enum BalancerError {
    /// The client exhausted its budget for the current window (HTTP 429).
    RateLimitExceeded,
    /// Every backend in the pool is marked down (HTTP 502).
    NoHealthyBackend,
}

/// Per-client admission state: how many requests the client has made in its
/// current window, and when that window started (seconds).
#[derive(Clone, Copy, Debug, PartialEq, Eq, Structural)]
pub struct ClientRecord {
    pub count: u64,
    pub window_start: u64,
}

/// One client's entry in the admission map: the client's identifier (its
/// source IP as a string) together with its record.
pub struct ClientEntry {
    pub client: String,
    pub record: ClientRecord,
}

impl Clone for ClientEntry {
    fn clone(&self) -> (res: Self)
        ensures
            res == *self,
    {
        ClientEntry { client: self.client.clone(), record: self.record }
    }
}

/// No two entries of the admission map name the same client.
pub open spec fn unique_clients(m: Seq<ClientEntry>) -> bool {
    forall|i: int, j: int|
        0 <= i < m.len() && 0 <= j < m.len() && i != j ==> m[i].client@ != m[j].client@
}

/// The admission map holds an entry for client `c`.
pub open spec fn has_client(m: Seq<ClientEntry>, c: Seq<char>) -> bool {
    exists|i: int| 0 <= i < m.len() && m[i].client@ == c
}

/// The record stored for client `c` (meaningful only when `has_client` and
/// the map's clients are unique).
pub open spec fn record_of(m: Seq<ClientEntry>, c: Seq<char>) -> ClientRecord {
    m[choose|i: int| 0 <= i < m.len() && m[i].client@ == c].record
}

/// A record's window has elapsed at time `now`. A record stamped in the
/// future (a clock that jumped backwards) is never treated as expired.
pub open spec fn window_expired(rec: ClientRecord, now: u64, window: u64) -> bool {
    rec.window_start <= now && now - rec.window_start >= window
}

/// A request count after one more request; it saturates instead of wrapping,
/// which keeps an over-limit client over the limit.
pub open spec fn bumped(count: u64) -> u64 {
    if count < u64::MAX {
        (count + 1) as u64
    } else {
        count
    }
}

/// Whether a call by client `c` at time `now` is admitted: always on the
/// first request of a window (fresh or expired record), otherwise exactly
/// when the incremented count stays within `max_requests`.
pub open spec fn admitted(
    m: Seq<ClientEntry>,
    c: Seq<char>,
    now: u64,
    window: u64,
    max_requests: u64,
) -> bool {
    if !has_client(m, c) {
        true
    } else if window_expired(record_of(m, c), now, window) {
        true
    } else {
        bumped(record_of(m, c).count) <= max_requests
    }
}

/// The record client `c` holds right after a call at time `now`: a fresh
/// `{count: 1, window_start: now}` when no live window exists, otherwise the
/// old record with its count bumped.
pub open spec fn record_after_admit(
    m: Seq<ClientEntry>,
    c: Seq<char>,
    now: u64,
    window: u64,
) -> ClientRecord {
    if !has_client(m, c) || window_expired(record_of(m, c), now, window) {
        ClientRecord { count: 1, window_start: now }
    } else {
        ClientRecord {
            count: bumped(record_of(m, c).count),
            window_start: record_of(m, c).window_start,
        }
    }
}

/// How one admission call by client `c` at time `now` rewrites the admission
/// map: `c`'s record becomes `record_after_admit`, and every other client's
/// presence and record are untouched.
pub open spec fn admit_post(
    m0: Seq<ClientEntry>,
    m1: Seq<ClientEntry>,
    c: Seq<char>,
    now: u64,
    window: u64,
) -> bool {
    &&& has_client(m1, c)
    &&& record_of(m1, c) == record_after_admit(m0, c, now, window)
    &&& forall|d: Seq<char>| d != c ==> (has_client(m1, d) <==> has_client(m0, d))
    &&& forall|d: Seq<char>|
        d != c && has_client(m0, d) ==> record_of(m1, d) == record_of(m0, d)
}

/// With uniquely-keyed entries, an entry whose key matches is the entry
/// `record_of` speaks of.
proof fn lemma_record_at(m: Seq<ClientEntry>, c: Seq<char>, i: int)
    requires
        unique_clients(m),
        0 <= i < m.len(),
        m[i].client@ == c,
    ensures
        has_client(m, c),
        record_of(m, c) == m[i].record,
{
    assert(has_client(m, c));
    let j = choose|j: int| 0 <= j < m.len() && m[j].client@ == c;
    assert(j == i);
}

/// Overwriting client `c`'s entry in place with its post-admission record is
/// one admission step: `c`'s record is rewritten, nobody else's moves.
proof fn lemma_admit_update(
    m0: Seq<ClientEntry>,
    i: int,
    e: ClientEntry,
    c: Seq<char>,
    now: u64,
    window: u64,
)
    requires
        unique_clients(m0),
        0 <= i < m0.len(),
        m0[i].client@ == c,
        e.client@ == c,
        e.record == record_after_admit(m0, c, now, window),
    ensures
        unique_clients(m0.update(i, e)),
        admit_post(m0, m0.update(i, e), c, now, window),
{
    let m1 = m0.update(i, e);
    assert(forall|k: int| 0 <= k < m1.len() ==> m1[k].client@ == m0[k].client@);
    assert(unique_clients(m1));
    lemma_record_at(m1, c, i);
    assert forall|d: Seq<char>| d != c implies (has_client(m1, d) <==> has_client(m0, d)) by {
        if has_client(m1, d) {
            let k = choose|k: int| 0 <= k < m1.len() && m1[k].client@ == d;
            assert(m0[k].client@ == d);
        }
        if has_client(m0, d) {
            let k = choose|k: int| 0 <= k < m0.len() && m0[k].client@ == d;
            assert(m1[k].client@ == d);
        }
    }
    assert forall|d: Seq<char>|
        d != c && has_client(m0, d) implies record_of(m1, d) == record_of(m0, d) by {
        let k0 = choose|k: int| 0 <= k < m0.len() && m0[k].client@ == d;
        assert(m1[k0].client@ == d);
        assert(k0 != i);
        lemma_record_at(m0, d, k0);
        lemma_record_at(m1, d, k0);
    }
}

/// Appending an entry for a client the map does not know keeps the map
/// uniquely keyed, stores exactly that entry for that client, and leaves
/// every other client's presence and record alone.
proof fn lemma_push_entry(m0: Seq<ClientEntry>, e: ClientEntry)
    requires
        unique_clients(m0),
        !has_client(m0, e.client@),
    ensures
        unique_clients(m0.push(e)),
        has_client(m0.push(e), e.client@),
        record_of(m0.push(e), e.client@) == e.record,
        forall|d: Seq<char>|
            d != e.client@ ==> (has_client(m0.push(e), d) <==> has_client(m0, d)),
        forall|d: Seq<char>|
            d != e.client@ && has_client(m0, d) ==> record_of(m0.push(e), d) == record_of(
                m0,
                d,
            ),
{
    let c = e.client@;
    let m1 = m0.push(e);
    assert(forall|k: int| 0 <= k < m0.len() ==> m1[k] == m0[k]);
    assert(forall|k: int| 0 <= k < m0.len() ==> m0[k].client@ != c);
    assert(m1[m0.len() as int].client@ == c);
    assert(unique_clients(m1));
    lemma_record_at(m1, c, m0.len() as int);
    assert forall|d: Seq<char>| d != c implies (has_client(m1, d) <==> has_client(m0, d)) by {
        if has_client(m1, d) {
            let k = choose|k: int| 0 <= k < m1.len() && m1[k].client@ == d;
            assert(k < m0.len());
            assert(m0[k].client@ == d);
        }
        if has_client(m0, d) {
            let k = choose|k: int| 0 <= k < m0.len() && m0[k].client@ == d;
            assert(m1[k].client@ == d);
        }
    }
    assert forall|d: Seq<char>|
        d != c && has_client(m0, d) implies record_of(m1, d) == record_of(m0, d) by {
        let k0 = choose|k: int| 0 <= k < m0.len() && m0[k].client@ == d;
        assert(m1[k0].client@ == d);
        lemma_record_at(m0, d, k0);
        lemma_record_at(m1, d, k0);
    }
}

/// Appending a fresh entry for an unknown client `c` is one admission step.
proof fn lemma_admit_push(
    m0: Seq<ClientEntry>,
    e: ClientEntry,
    c: Seq<char>,
    now: u64,
    window: u64,
)
    requires
        unique_clients(m0),
        !has_client(m0, c),
        e.client@ == c,
        e.record == record_after_admit(m0, c, now, window),
    ensures
        unique_clients(m0.push(e)),
        admit_post(m0, m0.push(e), c, now, window),
{
    lemma_push_entry(m0, e);
}

/// First healthy position reached from `pos` going cyclically through `h`,
/// examining at most `left` positions.
pub open spec fn scan_healthy(h: Seq<bool>, pos: int, left: nat) -> Option<int>
    decreases left,
{
    if left == 0 {
        None
    } else if h[pos] {
        Some(pos)
    } else {
        scan_healthy(h, (pos + 1) % (h.len() as int), (left - 1) as nat)
    }
}

/// The backend index a selection starting from cursor `cursor` settles on:
/// the first healthy index among `(cursor+1) % n, (cursor+2) % n, ...`,
/// examining each of the `n` positions once; `None` when the whole pool is
/// down.
pub open spec fn selected(h: Seq<bool>, cursor: int) -> Option<int>
    recommends
        h.len() > 0,
{
    scan_healthy(h, (cursor + 1) % (h.len() as int), h.len())
}

/// The load balancer core. It owns the health snapshot, the round-robin
/// cursor and the per-client admission map; the surrounding program feeds it
/// probe results and the current time and asks it for backends.
pub struct Balancer {
    /// The configuration this balancer was built from.
    pub configuration: Config,
    /// Number of configured backends; equals `configuration.servers.len()`.
    pub servers_count: u64,
    /// The round-robin cursor: index of the backend most recently considered.
    pub next: usize,
    /// Every client's admission record for its current window.
    pub client_map: Vec<ClientEntry>,
    /// The health snapshot: one flag per backend, `true` means healthy.
    pub servers: Vec<bool>,
}

impl Balancer {
    /// The balancer's invariant: a non-empty pool, a snapshot of matching
    /// length, a cursor inside the pool, and uniquely-keyed client records.
    pub open spec fn wf(&self) -> bool {
        &&& self.configuration.servers@.len() > 0
        &&& self.servers_count == self.configuration.servers@.len()
        &&& self.servers@.len() == self.configuration.servers@.len()
        &&& (self.next as int) < self.servers@.len()
        &&& unique_clients(self.client_map@)
    }

    /// Builds the balancer for a configuration: cursor at `0`, no client
    /// records, and a pessimistic all-down snapshot (requests fail with
    /// `NoHealthyBackend` until the first probe round reports in).
    ///
    /// A pool with no backends is a fatal configuration error, rejected here
    /// rather than carried into a running balancer.
    pub fn new(config: Config) -> (b: Balancer)
        requires
            config.servers@.len() > 0,
        ensures
            b.wf(),
            b.configuration == config,
            b.servers_count == config.servers@.len(),
            b.next == 0,
            b.client_map@.len() == 0,
            b.servers@.len() == config.servers@.len(),
            forall|i: int| 0 <= i < b.servers@.len() ==> !b.servers@[i],
    {
        let n = config.servers.len();
        let mut statuses: Vec<bool> = Vec::new();
        while statuses.len() < n
            invariant
                statuses@.len() <= n,
                forall|i: int| 0 <= i < statuses@.len() ==> !statuses@[i],
            decreases n - statuses@.len(),
        {
            statuses.push(false);
        }
        Balancer {
            configuration: config,
            servers_count: n as u64,
            next: 0,
            client_map: Vec::new(),
            servers: statuses,
        }
    }

    /// Reads the health flag of the backend the cursor points at, out of the
    /// current snapshot.
    pub fn check_srv(&self) -> (r: bool)
        requires
            self.wf(),
        ensures
            r == self.servers@[self.next as int],
    {
        self.servers[self.next]
    }

    /// Admission control for one request by `client_address` at time `now`
    /// (seconds): the fixed-window rate limiter. The first request of a
    /// client's window — first ever, or first after the previous window
    /// elapsed — starts a fresh record at count 1 and is admitted; every
    /// further request in the window bumps the count and is admitted exactly
    /// while the count stays within `max_requests_per_window`. Windows are
    /// per client, anchored at the client's own first request.
    pub fn client_rate_ok(&mut self, client_address: String, now: u64) -> (r: bool)
        requires
            old(self).wf(),
        ensures
            final(self).wf(),
            r == admitted(
                old(self).client_map@,
                client_address@,
                now,
                old(self).configuration.rate_limit_window_size,
                old(self).configuration.max_requests_per_window,
            ),
            admit_post(
                old(self).client_map@,
                final(self).client_map@,
                client_address@,
                now,
                old(self).configuration.rate_limit_window_size,
            ),
            final(self).configuration == old(self).configuration,
            final(self).servers_count == old(self).servers_count,
            final(self).next == old(self).next,
            final(self).servers@ == old(self).servers@,
    {
        let window = self.configuration.rate_limit_window_size;
        let max_requests = self.configuration.max_requests_per_window;
        let ghost m0 = self.client_map@;
        let ghost c = client_address@;
        let n = self.client_map.len();
        let mut i: usize = 0;
        while i < n
            invariant
                *self == *old(self),
                old(self).wf(),
                m0 == self.client_map@,
                c == client_address@,
                window == self.configuration.rate_limit_window_size,
                max_requests == self.configuration.max_requests_per_window,
                n == self.client_map@.len(),
                i <= n,
                forall|j: int| 0 <= j < i ==> self.client_map@[j].client@ != c,
            decreases n - i,
        {
            if self.client_map[i].client == client_address {
                let rec = self.client_map[i].record;
                proof {
                    lemma_record_at(m0, c, i as int);
                }
                if rec.window_start <= now && now - rec.window_start >= window {
                    // The window elapsed: lazily replace the record, as if
                    // the client were new.
                    let entry = ClientEntry {
                        client: client_address,
                        record: ClientRecord { count: 1, window_start: now },
                    };
                    proof {
                        lemma_admit_update(m0, i as int, entry, c, now, window);
                    }
                    self.client_map[i] = entry;
                    return true;
                } else {
                    let newcount = if rec.count < u64::MAX {
                        rec.count + 1
                    } else {
                        rec.count
                    };
                    let entry = ClientEntry {
                        client: client_address,
                        record: ClientRecord { count: newcount, window_start: rec.window_start },
                    };
                    proof {
                        lemma_admit_update(m0, i as int, entry, c, now, window);
                    }
                    self.client_map[i] = entry;
                    return newcount <= max_requests;
                }
            }
            i += 1;
        }
        let entry = ClientEntry {
            client: client_address,
            record: ClientRecord { count: 1, window_start: now },
        };
        proof {
            assert(!has_client(m0, c));
            lemma_admit_push(m0, entry, c, now, window);
        }
        self.client_map.push(entry);
        true
    }

    /// Serves one request: admission first, then health-aware round-robin
    /// selection on the current snapshot.
    ///
    /// If the rate limiter rejects `client_address`, the call fails with
    /// `RateLimitExceeded` and the cursor does not move. Otherwise the
    /// cursor advances cyclically, skipping backends marked down, and the
    /// first healthy backend reached is returned with the cursor left on it
    /// (the next call starts from the one after — round-robin fairness
    /// across successful selections). If a whole lap finds every backend
    /// down, the call fails with `NoHealthyBackend` and the cursor is back
    /// where it started. Either way, the admission map is updated exactly as
    /// by `client_rate_ok`, and no other state changes.
    #[verifier::loop_isolation(false)]
    pub fn get_server(&mut self, client_address: String, now: u64) -> (r: Result<
        Server,
        BalancerError,
    >)
        requires
            old(self).wf(),
        ensures
            final(self).wf(),
            final(self).configuration == old(self).configuration,
            final(self).servers_count == old(self).servers_count,
            final(self).servers@ == old(self).servers@,
            admit_post(
                old(self).client_map@,
                final(self).client_map@,
                client_address@,
                now,
                old(self).configuration.rate_limit_window_size,
            ),
            !admitted(
                old(self).client_map@,
                client_address@,
                now,
                old(self).configuration.rate_limit_window_size,
                old(self).configuration.max_requests_per_window,
            ) ==> r == Result::<Server, BalancerError>::Err(BalancerError::RateLimitExceeded)
                && final(self).next == old(self).next,
            admitted(
                old(self).client_map@,
                client_address@,
                now,
                old(self).configuration.rate_limit_window_size,
                old(self).configuration.max_requests_per_window,
            ) ==> {
                &&& (selected(old(self).servers@, old(self).next as int) matches Some(k)
                    ==> final(self).next == k && r == Result::<Server, BalancerError>::Ok(
                    old(self).configuration.servers@[k],
                ))
                &&& (selected(old(self).servers@, old(self).next as int) is None ==> r
                    == Result::<Server, BalancerError>::Err(BalancerError::NoHealthyBackend)
                    && final(self).next == old(self).next)
            },
    {
        let ghost h = self.servers@;
        let ghost c0 = self.next as int;
        let ghost n = self.servers@.len() as int;
        let ok = self.client_rate_ok(client_address, now);
        if !ok {
            return Err(BalancerError::RateLimitExceeded);
        }
        let ghost m1 = self.client_map@;
        let slen = self.servers.len();
        let mut down_servers: usize = 0;
        proof {
            lemma_mod_step(c0 + 1, n);
        }
        self.next = (self.next + 1) % slen;
        while !self.servers[self.next]
            invariant
                self.wf(),
                self.servers@ == h,
                self.client_map@ == m1,
                self.configuration == old(self).configuration,
                self.servers_count == old(self).servers_count,
                0 <= down_servers < n,
                self.next as int == (c0 + 1 + down_servers) % n,
                self.next < slen,
                selected(h, c0) == scan_healthy(
                    h,
                    self.next as int,
                    (n - down_servers) as nat,
                ),
            decreases n - down_servers,
        {
            down_servers = down_servers + 1;
            if down_servers == slen {
                proof {
                    lemma_mod_full_lap(c0, n);
                    assert(scan_healthy(h, self.next as int, 1nat) == scan_healthy(
                        h,
                        (self.next as int + 1) % n,
                        0nat,
                    ));
                    assert(selected(h, c0) is None);
                }
                return Err(BalancerError::NoHealthyBackend);
            }
            proof {
                lemma_mod_step(c0 + down_servers, n);
            }
            self.next = (self.next + 1) % slen;
        }
        Ok(self.configuration.servers[self.next].clone())
    }

    /// Sweeps the admission map at time `now`: every record whose window has
    /// elapsed is dropped, every record still inside its window is kept
    /// untouched. Run periodically, this bounds the map's memory without
    /// unblocking any client early — admission decisions are unchanged,
    /// since an expired record and no record admit alike.
    #[verifier::loop_isolation(false)]
    pub fn clean_clients(&mut self, now: u64)
        requires
            old(self).wf(),
        ensures
            final(self).wf(),
            final(self).configuration == old(self).configuration,
            final(self).servers_count == old(self).servers_count,
            final(self).next == old(self).next,
            final(self).servers@ == old(self).servers@,
            forall|d: Seq<char>|
                has_client(final(self).client_map@, d) <==> (has_client(
                    old(self).client_map@,
                    d,
                ) && !window_expired(
                    record_of(old(self).client_map@, d),
                    now,
                    old(self).configuration.rate_limit_window_size,
                )),
            forall|d: Seq<char>|
                has_client(final(self).client_map@, d) ==> record_of(
                    final(self).client_map@,
                    d,
                ) == record_of(old(self).client_map@, d),
    {
        let window = self.configuration.rate_limit_window_size;
        let ghost m0 = self.client_map@;
        let mut kept: Vec<ClientEntry> = Vec::new();
        let mut i: usize = 0;
        while i < self.client_map.len()
            invariant
                i <= self.client_map@.len(),
                unique_clients(kept@),
                forall|d: Seq<char>|
                    has_client(kept@, d) <==> exists|j: int|
                        0 <= j < i && m0[j].client@ == d && !window_expired(
                            m0[j].record,
                            now,
                            window,
                        ),
                forall|d: Seq<char>|
                    has_client(kept@, d) ==> record_of(kept@, d) == record_of(m0, d),
            decreases self.client_map@.len() - i,
        {
            let e = self.client_map[i].clone();
            let ghost kept_old = kept@;
            if !(e.record.window_start <= now && now - e.record.window_start >= window) {
                proof {
                    assert(!has_client(kept@, e.client@)) by {
                        if has_client(kept@, e.client@) {
                            let j = choose|j: int|
                                0 <= j < i && m0[j].client@ == e.client@ && !window_expired(
                                    m0[j].record,
                                    now,
                                    window,
                                );
                            assert(m0[j].client@ == m0[i as int].client@);
                        }
                    }
                    lemma_push_entry(kept@, e);
                    lemma_record_at(m0, e.client@, i as int);
                }
                kept.push(e);
                proof {
                    assert forall|d: Seq<char>|
                        has_client(kept@, d) <==> exists|j: int|
                            0 <= j < i + 1 && m0[j].client@ == d && !window_expired(
                                m0[j].record,
                                now,
                                window,
                            ) by {
                        if has_client(kept@, d) {
                            if d == e.client@ {
                                assert(m0[i as int].client@ == d && !window_expired(
                                    m0[i as int].record,
                                    now,
                                    window,
                                ));
                            } else {
                                assert(has_client(kept_old, d));
                                let j = choose|j: int|
                                    0 <= j < i && m0[j].client@ == d && !window_expired(
                                        m0[j].record,
                                        now,
                                        window,
                                    );
                                assert(0 <= j < i + 1 && m0[j].client@ == d && !window_expired(
                                    m0[j].record,
                                    now,
                                    window,
                                ));
                            }
                        }
                        if exists|j: int|
                            0 <= j < i + 1 && m0[j].client@ == d && !window_expired(
                                m0[j].record,
                                now,
                                window,
                            ) {
                            let j = choose|j: int|
                                0 <= j < i + 1 && m0[j].client@ == d && !window_expired(
                                    m0[j].record,
                                    now,
                                    window,
                                );
                            if j == i {
                                assert(d == e.client@);
                                assert(has_client(kept@, d));
                            } else {
                                assert(0 <= j < i && m0[j].client@ == d && !window_expired(
                                    m0[j].record,
                                    now,
                                    window,
                                ));
                                assert(has_client(kept_old, d));
                                assert(has_client(kept@, d));
                            }
                        }
                    }
                    assert forall|d: Seq<char>|
                        has_client(kept@, d) implies record_of(kept@, d) == record_of(
                        m0,
                        d,
                    ) by {
                        if d != e.client@ {
                            assert(has_client(kept_old, d));
                        }
                    }
                }
            } else {
                proof {
                    assert(window_expired(m0[i as int].record, now, window));
                    assert forall|d: Seq<char>|
                        has_client(kept@, d) <==> exists|j: int|
                            0 <= j < i + 1 && m0[j].client@ == d && !window_expired(
                                m0[j].record,
                                now,
                                window,
                            ) by {
                        if has_client(kept@, d) {
                            let j = choose|j: int|
                                0 <= j < i && m0[j].client@ == d && !window_expired(
                                    m0[j].record,
                                    now,
                                    window,
                                );
                            assert(0 <= j < i + 1 && m0[j].client@ == d && !window_expired(
                                m0[j].record,
                                now,
                                window,
                            ));
                        }
                        if exists|j: int|
                            0 <= j < i + 1 && m0[j].client@ == d && !window_expired(
                                m0[j].record,
                                now,
                                window,
                            ) {
                            let j = choose|j: int|
                                0 <= j < i + 1 && m0[j].client@ == d && !window_expired(
                                    m0[j].record,
                                    now,
                                    window,
                                );
                            assert(j != i);
                            assert(exists|j2: int|
                                0 <= j2 < i && m0[j2].client@ == d && !window_expired(
                                    m0[j2].record,
                                    now,
                                    window,
                                ));
                        }
                    }
                }
            }
            i += 1;
        }
        self.client_map = kept;
        proof {
            assert forall|d: Seq<char>|
                has_client(self.client_map@, d) <==> (has_client(m0, d) && !window_expired(
                    record_of(m0, d),
                    now,
                    window,
                )) by {
                if has_client(self.client_map@, d) {
                    let j = choose|j: int|
                        0 <= j < m0.len() && m0[j].client@ == d && !window_expired(
                            m0[j].record,
                            now,
                            window,
                        );
                    lemma_record_at(m0, d, j);
                }
                if has_client(m0, d) && !window_expired(record_of(m0, d), now, window) {
                    let j = choose|j: int| 0 <= j < m0.len() && m0[j].client@ == d;
                    lemma_record_at(m0, d, j);
                }
            }
        }
    }

    /// Publishes the outcome of one probe round: the whole snapshot is
    /// replaced at once, so readers never see a half-updated round. Cursor,
    /// client records and configuration are untouched.
    pub fn update_servers_status(&mut self, statuses: Vec<bool>)
        requires
            old(self).wf(),
            statuses@.len() == old(self).servers@.len(),
        ensures
            final(self).wf(),
            final(self).servers@ == statuses@,
            final(self).configuration == old(self).configuration,
            final(self).servers_count == old(self).servers_count,
            final(self).next == old(self).next,
            final(self).client_map@ == old(self).client_map@,
    {
        self.servers = statuses;
    }
}

/// Decision rule for one health probe: a backend is healthy exactly when the
/// probe came back with HTTP status 200 and a readable body. Any other
/// status, an unreadable body, or a network failure (reported by the prober
/// as `status == 0`) counts as down.
pub fn probe_healthy(status: u16, body_readable: bool) -> (r: bool)
    ensures
        r == (status == 200 && body_readable),
{
    status == 200 && body_readable
}

} // verus!
