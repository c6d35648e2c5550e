//! The balancer's global guarantees, stated and proved over the same spec
//! model that the executable methods' contracts use: `selected` for the
//! round-robin choice and `admit_post` / `admitted` for the rate limiter.

use vstd::prelude::*;
use vstd::arithmetic::div_mod::{
    lemma_add_mod_noop, lemma_fundamental_div_mod, lemma_small_mod,
};

use crate::balancer::{
    admit_post, admitted, has_client, lemma_mod_full_lap, lemma_mod_step, record_of,
    scan_healthy, selected, window_expired, ClientEntry, ClientRecord,
};

verus! {

/// Whatever a scan settles on is a healthy index inside the pool.
proof fn lemma_scan_healthy_some(h: Seq<bool>, pos: int, left: nat)
    requires
        h.len() > 0,
        0 <= pos < h.len(),
    ensures
        scan_healthy(h, pos, left) matches Some(i) ==> 0 <= i < h.len() && h[i],
    decreases left,
{
    if left > 0 && !h[pos] {
        lemma_mod_step(pos, h.len() as int);
        lemma_scan_healthy_some(h, (pos + 1) % (h.len() as int), (left - 1) as nat);
    }
}

/// A scan that found nothing really looked at `left` consecutive cyclic
/// positions and saw every one of them down.
proof fn lemma_scan_none(h: Seq<bool>, pos: int, left: nat)
    requires
        h.len() > 0,
        0 <= pos < h.len(),
        left <= h.len(),
        scan_healthy(h, pos, left) is None,
    ensures
        forall|j: int| 0 <= j < left ==> !h[#[trigger] ((pos + j) % (h.len() as int))],
    decreases left,
{
    let n = h.len() as int;
    if left > 0 {
        assert(!h[pos]);
        lemma_mod_step(pos, n);
        let pos2 = (pos + 1) % n;
        lemma_scan_none(h, pos2, (left - 1) as nat);
        assert forall|j: int| 0 <= j < left implies !h[#[trigger] ((pos + j) % n)] by {
            if j == 0 {
                lemma_small_mod(pos as nat, n as nat);
            } else {
                assert(!h[(pos2 + (j - 1)) % n]);
                lemma_add_mod_noop(pos + 1, j - 1, n);
                lemma_small_mod((j - 1) as nat, n as nat);
                assert((pos2 + (j - 1)) % n == (pos + j) % n);
            }
        }
    }
}

/// On an all-healthy pool, a selection from cursor `c` picks exactly the
/// next backend in cyclic order, `(c + 1) % n`.
pub proof fn lemma_all_healthy_selects_next(h: Seq<bool>, c: int)
    requires
        h.len() > 0,
        0 <= c < h.len(),
        forall|i: int| 0 <= i < h.len() ==> h[i],
    ensures
        selected(h, c) == Some((c + 1) % (h.len() as int)),
{
    let n = h.len() as int;
    lemma_mod_step(c + 1, n);
}

/// Determinism of round-robin on an all-healthy pool: the k-th consecutive
/// successful selection, starting from cursor `c`, lands on backend
/// `(c + k) % n` — each call serves the backend after the one just served.
pub proof fn lemma_round_robin_determinism(h: Seq<bool>, c: int, k: int)
    requires
        h.len() > 0,
        0 <= c < h.len(),
        forall|i: int| 0 <= i < h.len() ==> h[i],
        k >= 1,
    ensures
        selected(h, (c + k - 1) % (h.len() as int)) == Some((c + k) % (h.len() as int)),
{
    let n = h.len() as int;
    lemma_mod_step(c + k - 1, n);
    lemma_all_healthy_selects_next(h, (c + k - 1) % n);
}

/// Two different call positions within one lap land on two different
/// backends: the n indices of n consecutive all-healthy selections are
/// pairwise distinct.
pub proof fn lemma_cycle_distinct(c: int, n: int, j: int, k: int)
    requires
        n > 0,
        0 <= c,
        1 <= j < k <= n,
    ensures
        (c + j) % n != (c + k) % n,
{
    if (c + j) % n == (c + k) % n {
        lemma_fundamental_div_mod(c + j, n);
        lemma_fundamental_div_mod(c + k, n);
        let dq = (c + k) / n - (c + j) / n;
        assert(n * dq == k - j) by (nonlinear_arith)
            requires
                c + j == n * ((c + j) / n) + (c + j) % n,
                c + k == n * ((c + k) / n) + (c + k) % n,
                (c + j) % n == (c + k) % n,
                dq == (c + k) / n - (c + j) / n,
        ;
        assert(false) by (nonlinear_arith)
            requires
                n * dq == k - j,
                0 < k - j < n,
                n > 0,
        ;
    }
}

/// One lap reaches everything: every backend index is the target of exactly
/// one of the n consecutive all-healthy selections that start at cursor `c`.
pub proof fn lemma_cycle_covers(c: int, n: int, i: int)
    requires
        0 <= c < n,
        0 <= i < n,
    ensures
        exists|k: int| 1 <= k <= n && #[trigger] ((c + k) % n) == i,
{
    let k = if i > c {
        i - c
    } else {
        i + n - c
    };
    if i > c {
        lemma_small_mod(i as nat, n as nat);
    } else {
        lemma_mod_full_lap(i, n);
    }
    assert(1 <= k <= n && #[trigger] ((c + k) % n) == i);
}

/// Skip correctness: a backend marked down is never the one selected, from
/// any cursor position.
pub proof fn lemma_never_selects_unhealthy(h: Seq<bool>, c: int, k: int)
    requires
        h.len() > 0,
        0 <= c < h.len(),
        0 <= k < h.len(),
        !h[k],
    ensures
        selected(h, c) != Some(k),
{
    let n = h.len() as int;
    lemma_mod_step(c + 1, n);
    lemma_scan_healthy_some(h, (c + 1) % n, h.len());
}

/// No sticking: as long as any backend at all is healthy, a selection from
/// any cursor position succeeds — unhealthy backends are skipped over, they
/// never trap the cursor.
pub proof fn lemma_healthy_backend_found(h: Seq<bool>, c: int)
    requires
        h.len() > 0,
        0 <= c < h.len(),
        exists|i: int| 0 <= i < h.len() && h[i],
    ensures
        selected(h, c) is Some,
{
    let n = h.len() as int;
    lemma_mod_step(c + 1, n);
    let pos = (c + 1) % n;
    if selected(h, c) is None {
        lemma_scan_none(h, pos, h.len());
        let i = choose|i: int| 0 <= i < h.len() && h[i];
        let j = if i >= pos {
            i - pos
        } else {
            i + n - pos
        };
        if i >= pos {
            lemma_small_mod(i as nat, n as nat);
        } else {
            lemma_mod_full_lap(i, n);
        }
        assert(0 <= j < n && (pos + j) % n == i);
        assert(!h[(pos + j) % n]);
        assert(false);
    }
}

/// Total outage: when every backend is down, no cursor position selects
/// anything — every admitted call reports `NoHealthyBackend`, whatever the
/// rate-limit state.
pub proof fn lemma_total_outage(h: Seq<bool>, c: int)
    requires
        h.len() > 0,
        0 <= c < h.len(),
        forall|i: int| 0 <= i < h.len() ==> !h[i],
    ensures
        selected(h, c) is None,
{
    let n = h.len() as int;
    lemma_mod_step(c + 1, n);
    lemma_scan_healthy_some(h, (c + 1) % n, h.len());
    match selected(h, c) {
        Some(i) => {
            assert(h[i]);
            assert(false);
        },
        None => {},
    }
}

/// With a single backend the cursor has one place to be, index 0, and a
/// selection returns that backend exactly when it is healthy.
pub proof fn lemma_single_backend(h: Seq<bool>, c: int)
    requires
        h.len() == 1,
        0 <= c < 1,
    ensures
        selected(h, c) == if h[0] {
            Some(0int)
        } else {
            None::<int>
        },
{
    lemma_mod_full_lap(0, 1);
    assert(scan_healthy(h, 0, 1) == if h[0] {
        Some(0int)
    } else {
        scan_healthy(h, (0int + 1) % 1, 0)
    });
}

/// A run of admission calls by one client: `ms` is the history of admission
/// maps and `ts` the call times, each consecutive pair of maps related by
/// one admission step of client `c` at the matching time.
pub open spec fn admit_chain(
    ms: Seq<Seq<ClientEntry>>,
    ts: Seq<u64>,
    c: Seq<char>,
    window: u64,
) -> bool {
    &&& ms.len() == ts.len() + 1
    &&& forall|i: int|
        0 <= i < ts.len() ==> admit_post(#[trigger] ms[i], ms[i + 1], c, ts[i], window)
}

/// All of the chain's calls fall inside the window that the first call
/// opens: none earlier than the first, none a full window later.
pub open spec fn calls_within_window(ts: Seq<u64>, window: u64) -> bool {
    forall|i: int| 0 <= i < ts.len() ==> ts[0] <= #[trigger] ts[i] && ts[i] - ts[0] < window
}

/// After `k` calls inside one window, a client that started fresh holds
/// exactly the record `{count: k, window_start: first call time}`.
pub proof fn lemma_window_counting(
    ms: Seq<Seq<ClientEntry>>,
    ts: Seq<u64>,
    c: Seq<char>,
    window: u64,
    k: int,
)
    requires
        ts.len() < u64::MAX,
        !has_client(ms[0], c),
        admit_chain(ms, ts, c, window),
        calls_within_window(ts, window),
        1 <= k <= ts.len(),
    ensures
        has_client(ms[k], c),
        record_of(ms[k], c) == (ClientRecord { count: k as u64, window_start: ts[0] }),
    decreases k,
{
    if k == 1 {
        assert(admit_post(ms[0], ms[1], c, ts[0], window));
    } else {
        lemma_window_counting(ms, ts, c, window, k - 1);
        assert(admit_post(ms[k - 1], ms[k], c, ts[k - 1], window));
        assert(!window_expired(record_of(ms[k - 1], c), ts[k - 1], window));
    }
}

/// Fixed-window rate limiting: a client starting fresh and calling `k`
/// times inside one window is admitted on its k-th call exactly while
/// `k <= max_requests` (the first call of a window is always admitted); in
/// particular calls `1..=R` succeed and call `R+1` is rejected — and stays
/// rejected for the rest of the window, since later in-window calls only
/// push the count higher.
pub proof fn lemma_fixed_window_rate_limit(
    ms: Seq<Seq<ClientEntry>>,
    ts: Seq<u64>,
    c: Seq<char>,
    window: u64,
    max_requests: u64,
    k: int,
)
    requires
        ts.len() < u64::MAX,
        !has_client(ms[0], c),
        admit_chain(ms, ts, c, window),
        calls_within_window(ts, window),
        1 <= k <= ts.len(),
    ensures
        admitted(ms[k - 1], c, ts[k - 1], window, max_requests) <==> (k == 1 || k
            <= max_requests),
{
    if k > 1 {
        lemma_window_counting(ms, ts, c, window, k - 1);
        assert(!window_expired(record_of(ms[k - 1], c), ts[k - 1], window));
    }
}

/// Window reset: a client whose window has elapsed is admitted on its next
/// call, whatever its old count was, and starts over with a fresh record of
/// count 1.
pub proof fn lemma_window_reset(
    m0: Seq<ClientEntry>,
    m1: Seq<ClientEntry>,
    c: Seq<char>,
    now: u64,
    window: u64,
    max_requests: u64,
)
    requires
        has_client(m0, c),
        window_expired(record_of(m0, c), now, window),
        admit_post(m0, m1, c, now, window),
    ensures
        admitted(m0, c, now, window, max_requests),
        record_of(m1, c) == (ClientRecord { count: 1, window_start: now }),
{
}

/// Client independence: an admission step by one client never changes
/// another client's presence, record, or admission outcome — at any time
/// and under any limit.
pub proof fn lemma_client_independence(
    m0: Seq<ClientEntry>,
    m1: Seq<ClientEntry>,
    a: Seq<char>,
    b: Seq<char>,
    at: u64,
    bt: u64,
    window: u64,
    max_requests: u64,
)
    requires
        a != b,
        admit_post(m0, m1, a, at, window),
    ensures
        has_client(m1, b) == has_client(m0, b),
        has_client(m0, b) ==> record_of(m1, b) == record_of(m0, b),
        admitted(m1, b, bt, window, max_requests) == admitted(m0, b, bt, window, max_requests),
{
}

} // verus!
