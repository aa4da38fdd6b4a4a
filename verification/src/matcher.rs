//! Pairing of requests seen on the two targets.
//!
//! Exchanges wait in one first-in-first-out queue per target and endpoint
//! key (`"METHOD /path/template"`). An exchange from one target is paired
//! with the oldest exchange still waiting on the other target for the same
//! key; waiting exchanges expire once older than the match window.
use vstd::prelude::*;
use vstd::string::*;
use crate::http::{HttpRequest, HttpResponse, RequestView, ResponseView};
use crate::keyed::KeyedQueues;
use std::collections::VecDeque;
use crate::clock::now_micros;

verus! {

/// The two environments under comparison.
#[derive(Debug, Clone, Copy, PartialEq, Eq, Hash, Structural)]
pub enum Target {
    A,
    B,
}

/// A request/response exchange from one target, waiting for its counterpart.
/// Times are in microseconds.
#[derive(Debug)]
pub struct PendingRequest {
    pub request: HttpRequest,
    pub response: HttpResponse,
    pub arrived_at: u64,
    pub captured_at: u64,
}

/// Two exchanges with the same endpoint, one from each target.
#[derive(Debug)]
pub struct MatchedPair {
    pub endpoint: String,
    pub req_a: HttpRequest,
    pub res_a: HttpResponse,
    pub req_b: HttpRequest,
    pub res_b: HttpResponse,
}

pub struct MatchedPairView {
    pub endpoint: Seq<char>,
    pub req_a: RequestView,
    pub res_a: ResponseView,
    pub req_b: RequestView,
    pub res_b: ResponseView,
}

impl View for MatchedPair {
    type V = MatchedPairView;

    open spec fn view(&self) -> MatchedPairView {
        MatchedPairView {
            endpoint: self.endpoint@,
            req_a: self.req_a@,
            res_a: self.res_a@,
            req_b: self.req_b@,
            res_b: self.res_b@,
        }
    }
}

/// How long an exchange waits for its counterpart, in microseconds.
pub const MATCH_WINDOW_US: u64 = 500_000;

/// At most this many exchanges wait per target and key; the oldest gives way.
pub const QUEUE_LIMIT: usize = 100;

/// The key under which exchanges are paired: method, a space, path template.
pub open spec fn endpoint_key(method: Seq<char>, template: Seq<char>) -> Seq<char> {
    method + " "@ + template
}

/// `"METHOD /path/template"` for a request.
pub fn endpoint_key_of(req: &HttpRequest) -> (r: String)
    ensures
        r@ == endpoint_key(req.method@, req.path_template@),
{
    let key = req.method.clone().concat(" ");
    key.concat(req.path_template.as_str())
}

/// An exchange that has waited longer than `window` at time `now`.
pub open spec fn expired(p: PendingRequest, now: u64, window: u64) -> bool {
    now > p.arrived_at && now - p.arrived_at > window
}

/// The number of expired exchanges at the front of `q`.
pub open spec fn expired_prefix(q: Seq<PendingRequest>, now: u64, window: u64) -> nat
    decreases q.len(),
{
    if q.len() > 0 && expired(q[0], now, window) {
        1 + expired_prefix(q.drop_first(), now, window)
    } else {
        0
    }
}

/// What is left of `q` once the expired exchanges at its front are dropped.
pub open spec fn live_part(q: Seq<PendingRequest>, now: u64, window: u64) -> Seq<PendingRequest> {
    q.skip(expired_prefix(q, now, window) as int)
}

/// `q` with room made for one more exchange and `p` appended.
pub open spec fn enqueued(q: Seq<PendingRequest>, p: PendingRequest) -> Seq<PendingRequest> {
    if q.len() >= QUEUE_LIMIT {
        q.drop_first().push(p)
    } else {
        q.push(p)
    }
}

pub open spec fn other(t: Target) -> Target {
    match t {
        Target::A => Target::B,
        Target::B => Target::A,
    }
}

proof fn lemma_expired_prefix_bound(q: Seq<PendingRequest>, now: u64, window: u64)
    ensures
        expired_prefix(q, now, window) <= q.len(),
    decreases q.len(),
{
    if q.len() > 0 && expired(q[0], now, window) {
        lemma_expired_prefix_bound(q.drop_first(), now, window);
    }
}

fn is_expired(p: &PendingRequest, now: u64, window: u64) -> (r: bool)
    ensures
        r == expired(*p, now, window),
{
    now > p.arrived_at && now - p.arrived_at > window
}

/// Drops the expired exchanges at the front of `q`.
fn drop_expired(q: &mut VecDeque<PendingRequest>, now: u64, window: u64)
    ensures
        final(q)@ == live_part(old(q)@, now, window),
        final(q)@.len() > 0 ==> !expired(final(q)@[0], now, window),
{
    proof {
        lemma_expired_prefix_bound(q@, now, window);
    }
    assert(q@.skip(0) =~= q@);
    while q.len() > 0 && is_expired(&q[0], now, window)
        invariant
            live_part(q@, now, window) == live_part(old(q)@, now, window),
        decreases q.len(),
    {
        let ghost before = q@;
        q.pop_front();
        proof {
            assert(q@ =~= before.drop_first());
            lemma_expired_prefix_bound(q@, now, window);
            assert(before.skip(expired_prefix(before, now, window) as int) =~= q@.skip(
                expired_prefix(q@, now, window) as int,
            ));
        }
    }
    proof {
        assert(expired_prefix(q@, now, window) == 0);
        assert(q@.skip(0) =~= q@);
    }
}

/// Takes the oldest live exchange waiting under `key`, dropping the expired
/// ones in front of it.
fn take_match(queues: &mut KeyedQueues<PendingRequest>, key: &str, now: u64, window: u64) -> (r: Option<PendingRequest>)
    requires
        old(queues).wf(),
    ensures
        final(queues).wf(),
        ({
            let q = old(queues).queue(key@);
            let live = live_part(q, now, window);
            &&& r == if live.len() > 0 {
                Some(live[0])
            } else {
                None::<PendingRequest>
            }
            &&& final(queues).queues() == if old(queues).queues().dom().contains(key@) {
                old(queues).queues().insert(key@, if live.len() > 0 { live.drop_first() } else { live })
            } else {
                old(queues).queues()
            }
        }),
{
    if !queues.contains(key) {
        return None;
    }
    let mut q = queues.take(key);
    drop_expired(&mut q, now, window);
    let ghost live = q@;
    let m = q.pop_front();
    proof {
        if live.len() > 0 {
            assert(q@ =~= live.drop_first());
        }
    }
    queues.put_queue(key, q);
    m
}

/// Appends `p` to the queue under `key`, dropping the oldest exchange when
/// the queue is full.
fn enqueue(queues: &mut KeyedQueues<PendingRequest>, key: &str, p: PendingRequest)
    requires
        old(queues).wf(),
    ensures
        final(queues).wf(),
        final(queues).queues() == old(queues).queues().insert(key@, enqueued(old(queues).queue(key@), p)),
{
    let mut q = queues.take(key);
    let ghost before = q@;
    if q.len() >= QUEUE_LIMIT {
        q.pop_front();
        assert(q@ =~= before.drop_first());
    }
    q.push_back(p);
    queues.put_queue(key, q);
}

/// Drops the expired exchanges at the front of every queue.
fn expire_all(queues: &mut KeyedQueues<PendingRequest>, now: u64, window: u64)
    requires
        old(queues).wf(),
    ensures
        final(queues).wf(),
        final(queues).queues() == old(queues).queues().map_values(|q: Seq<PendingRequest>| live_part(q, now, window)),
{
    let ghost start = queues.queues();
    let keys = queues.keys();
    let mut i: usize = 0;
    while i < keys.len()
        invariant
            i <= keys.len(),
            queues.wf(),
            forall|k: Seq<char>| start.dom().contains(k) <==> exists|j: int| 0 <= j < keys.len() && #[trigger] keys@[j]@ == k,
            forall|a: int, b: int| 0 <= a < b < keys.len() ==> keys@[a]@ != keys@[b]@,
            queues.queues().dom() == start.dom(),
            forall|k: Seq<char>| #[trigger] start.dom().contains(k) ==> queues.queues()[k] == if exists|j: int| 0 <= j < i && #[trigger] keys@[j]@ == k {
                live_part(start[k], now, window)
            } else {
                start[k]
            },
        decreases keys.len() - i,
    {
        let ghost before = queues.queues();
        let ghost ki = keys@[i as int]@;
        assert(start.dom().contains(ki));
        assert(!exists|j: int| 0 <= j < i && #[trigger] keys@[j]@ == ki);
        let mut q = queues.take(keys[i].as_str());
        drop_expired(&mut q, now, window);
        queues.put_queue(keys[i].as_str(), q);
        proof {
            assert(queues.queues() == before.insert(ki, live_part(start[ki], now, window)));
            assert(queues.queues().dom() =~= start.dom());
            assert forall|k: Seq<char>| #[trigger] start.dom().contains(k) implies queues.queues()[k] == if exists|j: int| 0 <= j < i + 1 && #[trigger] keys@[j]@ == k {
                live_part(start[k], now, window)
            } else {
                start[k]
            } by {
                if k == ki {
                    assert(keys@[i as int]@ == k);
                } else {
                    if exists|j: int| 0 <= j < i + 1 && #[trigger] keys@[j]@ == k {
                        let j = choose|j: int| 0 <= j < i + 1 && #[trigger] keys@[j]@ == k;
                        assert(j < i);
                    }
                }
            }
        }
        i = i + 1;
    }
    proof {
        assert forall|k: Seq<char>| #[trigger] start.dom().contains(k) implies queues.queues()[k] == live_part(start[k], now, window) by {
            let j = choose|j: int| 0 <= j < keys.len() && #[trigger] keys@[j]@ == k;
            assert(keys@[j]@ == k);
        }
        assert(queues.queues() =~= start.map_values(|q: Seq<PendingRequest>| live_part(q, now, window)));
    }
}

/// After dropping the expired front of a queue, its oldest exchange (if any)
/// is live and nothing live was dropped: what remains is a suffix that starts
/// at the first live exchange.
pub proof fn law_live_part(q: Seq<PendingRequest>, now: u64, window: u64)
    ensures
        live_part(q, now, window).len() > 0 ==> !expired(live_part(q, now, window)[0], now, window),
        forall|i: int| 0 <= i < q.len() - live_part(q, now, window).len() ==> expired(#[trigger] q[i], now, window),
        live_part(q, now, window) == q.skip(q.len() - live_part(q, now, window).len()),
    decreases q.len(),
{
    lemma_expired_prefix_bound(q, now, window);
    if q.len() > 0 && expired(q[0], now, window) {
        let d = q.drop_first();
        law_live_part(d, now, window);
        lemma_expired_prefix_bound(d, now, window);
        assert(q.skip(expired_prefix(q, now, window) as int) =~= d.skip(expired_prefix(d, now, window) as int));
        assert forall|i: int| 0 <= i < q.len() - live_part(q, now, window).len() implies expired(#[trigger] q[i], now, window) by {
            if i > 0 {
                assert(q[i] == d[i - 1]);
            }
        }
    } else {
        assert(q.skip(0) =~= q);
    }
}

proof fn lemma_live_parts_keyed(m: Map<Seq<char>, Seq<PendingRequest>>, now: u64, window: u64)
    requires
        queues_keyed(m),
    ensures
        queues_keyed(m.map_values(|q: Seq<PendingRequest>| live_part(q, now, window))),
{
    let n = m.map_values(|q: Seq<PendingRequest>| live_part(q, now, window));
    assert forall|k: Seq<char>, i: int| n.dom().contains(k) && 0 <= i < n[k].len() implies endpoint_key(
        (#[trigger] n[k][i]).request.method@,
        n[k][i].request.path_template@,
    ) == k by {
        lemma_expired_prefix_bound(m[k], now, window);
        let e = expired_prefix(m[k], now, window) as int;
        assert(n[k][i] == m[k][e + i]);
    }
}

/// The outcome of taking in one exchange from `target` at time `now`:
/// `before` and `after` are the matcher around the call and `r` its result.
/// When the other target has a live exchange waiting under the same key, the
/// oldest one is paired with the new one (expired ones in front of it are
/// dropped); otherwise the new exchange waits, the oldest giving way when
/// its queue is full.
pub open spec fn ingested_at(
    before: Matcher,
    after: Matcher,
    target: Target,
    req: HttpRequest,
    res: HttpResponse,
    now: u64,
    r: Option<MatchedPair>,
) -> bool {
    let key = endpoint_key(req.method@, req.path_template@);
    let theirs = before.waiting(other(target), key);
    let live = live_part(theirs, now, before.window_us);
    let trimmed = if live.len() > 0 { live.drop_first() } else { live };
    &&& after.pending(other(target)) == if before.pending(other(target)).dom().contains(key) {
        before.pending(other(target)).insert(key, trimmed)
    } else {
        before.pending(other(target))
    }
    &&& if live.len() > 0 {
        &&& after.pending(target) == before.pending(target)
        &&& r matches Some(pair) && pair.endpoint@ == key && match target {
            Target::A => pair.req_a == req && pair.res_a == res && pair.req_b == live[0].request
                && pair.res_b == live[0].response,
            Target::B => pair.req_b == req && pair.res_b == res && pair.req_a == live[0].request
                && pair.res_a == live[0].response,
        }
    } else {
        &&& r is None
        &&& after.pending(target) == before.pending(target).insert(
            key,
            enqueued(
                before.waiting(target, key),
                PendingRequest { request: req, response: res, arrived_at: now, captured_at: now },
            ),
        )
    }
}

/// The outcome of dropping, at time `now`, the expired exchanges at the front
/// of every queue of both targets.
pub open spec fn collected_at(before: Matcher, after: Matcher, now: u64) -> bool {
    &&& after.pending(Target::A) == before.pending(Target::A).map_values(
        |q: Seq<PendingRequest>| live_part(q, now, before.window_us),
    )
    &&& after.pending(Target::B) == before.pending(Target::B).map_values(
        |q: Seq<PendingRequest>| live_part(q, now, before.window_us),
    )
}

/// Waiting exchanges of both targets, and the match window.
pub struct Matcher {
    pub pending_a: KeyedQueues<PendingRequest>,
    pub pending_b: KeyedQueues<PendingRequest>,
    pub window_us: u64,
}

pub open spec fn queues_bounded(m: Map<Seq<char>, Seq<PendingRequest>>) -> bool {
    forall|k: Seq<char>| #[trigger] m.dom().contains(k) ==> m[k].len() <= QUEUE_LIMIT
}

/// Every exchange waits under its own request's key.
pub open spec fn queues_keyed(m: Map<Seq<char>, Seq<PendingRequest>>) -> bool {
    forall|k: Seq<char>, i: int|
        m.dom().contains(k) && 0 <= i < m[k].len() ==> endpoint_key(
            (#[trigger] m[k][i]).request.method@,
            m[k][i].request.path_template@,
        ) == k
}

impl Matcher {
    /// Both queue sets are well formed, no queue holds more than
    /// `QUEUE_LIMIT` exchanges, every exchange waits under its own key, and
    /// the pairing window is `MATCH_WINDOW_US`.
    pub open spec fn wf(&self) -> bool {
        &&& self.window_us == MATCH_WINDOW_US
        &&& self.pending_a.wf()
        &&& self.pending_b.wf()
        &&& queues_bounded(self.pending_a.queues())
        &&& queues_bounded(self.pending_b.queues())
        &&& queues_keyed(self.pending_a.queues())
        &&& queues_keyed(self.pending_b.queues())
    }

    /// The waiting exchanges of target `t`, by key.
    pub open spec fn pending(&self, t: Target) -> Map<Seq<char>, Seq<PendingRequest>> {
        match t {
            Target::A => self.pending_a.queues(),
            Target::B => self.pending_b.queues(),
        }
    }

    /// The exchanges of `t` waiting under `key`, oldest first.
    pub open spec fn waiting(&self, t: Target, key: Seq<char>) -> Seq<PendingRequest> {
        match t {
            Target::A => self.pending_a.queue(key),
            Target::B => self.pending_b.queue(key),
        }
    }

    /// A matcher with nothing waiting and a 500 ms window.
    pub fn new() -> (r: Matcher)
        ensures
            r.wf(),
            r.window_us == MATCH_WINDOW_US,
            r.pending(Target::A) == Map::<Seq<char>, Seq<PendingRequest>>::empty(),
            r.pending(Target::B) == Map::<Seq<char>, Seq<PendingRequest>>::empty(),
    {
        Matcher { pending_a: KeyedQueues::new(), pending_b: KeyedQueues::new(), window_us: MATCH_WINDOW_US }
    }

    /// Takes in one exchange from `target`, seen at `now` (microseconds).
    /// When the other target has a live exchange waiting under the same key,
    /// the oldest one is paired with it (expired ones in front of it are
    /// dropped) and the pair is returned. Otherwise the exchange waits.
    pub fn ingest_at(&mut self, target: Target, req: HttpRequest, res: HttpResponse, now: u64) -> (r: Option<MatchedPair>)
        requires
            old(self).wf(),
        ensures
            final(self).wf(),
            final(self).window_us == old(self).window_us,
            ingested_at(*old(self), *final(self), target, req, res, now, r),
    {
        let key = endpoint_key_of(&req);
        let window = self.window_us;
        let found = match target {
            Target::A => take_match(&mut self.pending_b, key.as_str(), now, window),
            Target::B => take_match(&mut self.pending_a, key.as_str(), now, window),
        };
        proof {
            let theirs = old(self).waiting(other(target), key@);
            lemma_expired_prefix_bound(theirs, now, window);
            let m_old = old(self).pending(other(target));
            let m_new = self.pending(other(target));
            assert forall|k: Seq<char>| #[trigger] m_new.dom().contains(k) implies m_new[k].len() <= QUEUE_LIMIT by {
                if k == key@ {
                    assert(m_old.dom().contains(k));
                    assert(m_old[k].len() <= QUEUE_LIMIT);
                } else {
                    assert(m_old.dom().contains(k));
                }
            }
            assert(queues_bounded(m_new));
            let live = live_part(theirs, now, window);
            assert forall|k: Seq<char>, i: int| m_new.dom().contains(k) && 0 <= i < m_new[k].len() implies endpoint_key(
                (#[trigger] m_new[k][i]).request.method@,
                m_new[k][i].request.path_template@,
            ) == k by {
                assert(m_old.dom().contains(k));
                if k == key@ {
                    let e = expired_prefix(theirs, now, window) as int;
                    assert(theirs == m_old[k]);
                    if live.len() > 0 {
                        assert(m_new[k][i] == live[i + 1]);
                        assert(live[i + 1] == theirs[e + i + 1]);
                    } else {
                        assert(m_new[k][i] == live[i]);
                    }
                }
            }
        }
        match found {
            Some(m) => {
                let pair = match target {
                    Target::A => MatchedPair { endpoint: key, req_a: req, res_a: res, req_b: m.request, res_b: m.response },
                    Target::B => MatchedPair { endpoint: key, req_a: m.request, res_a: m.response, req_b: req, res_b: res },
                };
                Some(pair)
            },
            None => {
                let p = PendingRequest { request: req, response: res, arrived_at: now, captured_at: now };
                let ghost mine_old = self.pending(target);
                match target {
                    Target::A => enqueue(&mut self.pending_a, key.as_str(), p),
                    Target::B => enqueue(&mut self.pending_b, key.as_str(), p),
                }
                proof {
                    let mine = self.pending(target);
                    let q = old(self).waiting(target, key@);
                    assert(mine_old == old(self).pending(target));
                    assert forall|k: Seq<char>, i: int| mine.dom().contains(k) && 0 <= i < mine[k].len() implies endpoint_key(
                        (#[trigger] mine[k][i]).request.method@,
                        mine[k][i].request.path_template@,
                    ) == k by {
                        if k == key@ {
                            if q.len() >= QUEUE_LIMIT {
                                if i < q.len() - 1 {
                                    assert(mine[k][i] == q[i + 1]);
                                    assert(mine_old.dom().contains(k));
                                }
                            } else if i < q.len() {
                                assert(mine[k][i] == q[i]);
                                assert(mine_old.dom().contains(k));
                            }
                        } else {
                            assert(mine_old.dom().contains(k));
                        }
                    }
                }
                None
            },
        }
    }

    /// `ingest_at` at the current time.
    pub fn ingest(&mut self, target: Target, req: HttpRequest, res: HttpResponse) -> (r: Option<MatchedPair>)
        requires
            old(self).wf(),
        ensures
            final(self).wf(),
            final(self).window_us == old(self).window_us,
            exists|now: u64| ingested_at(*old(self), *final(self), target, req, res, now, r),
    {
        let now = now_micros();
        self.ingest_at(target, req, res, now)
    }

    /// Drops, at time `now`, the expired exchanges at the front of every queue.
    pub fn gc_at(&mut self, now: u64)
        requires
            old(self).wf(),
        ensures
            final(self).wf(),
            final(self).window_us == old(self).window_us,
            collected_at(*old(self), *final(self), now),
    {
        let window = self.window_us;
        expire_all(&mut self.pending_a, now, window);
        expire_all(&mut self.pending_b, now, window);
        proof {
            assert forall|k: Seq<char>| #[trigger] self.pending_a.queues().dom().contains(k) implies self.pending_a.queues()[k].len()
                <= QUEUE_LIMIT by {
                lemma_expired_prefix_bound(old(self).pending_a.queues()[k], now, window);
            }
            assert forall|k: Seq<char>| #[trigger] self.pending_b.queues().dom().contains(k) implies self.pending_b.queues()[k].len()
                <= QUEUE_LIMIT by {
                lemma_expired_prefix_bound(old(self).pending_b.queues()[k], now, window);
            }
            lemma_live_parts_keyed(old(self).pending_a.queues(), now, window);
            lemma_live_parts_keyed(old(self).pending_b.queues(), now, window);
        }
    }

    /// `gc_at` at the current time.
    pub fn gc(&mut self)
        requires
            old(self).wf(),
        ensures
            final(self).wf(),
            final(self).window_us == old(self).window_us,
            exists|now: u64| collected_at(*old(self), *final(self), now),
    {
        let now = now_micros();
        self.gc_at(now);
    }
}

/// A pair joins two exchanges with the same key (method and path
/// template), and the one that had been waiting was still within the
/// pairing window: it is among the exchanges its target had waiting under
/// that key, and had not expired.
pub proof fn law_pairs_share_a_key_within_the_window(
    before: Matcher,
    after: Matcher,
    target: Target,
    req: HttpRequest,
    res: HttpResponse,
    now: u64,
    r: Option<MatchedPair>,
)
    requires
        before.wf(),
        ingested_at(before, after, target, req, res, now, r),
    ensures
        r matches Some(pair) ==> {
            &&& endpoint_key(pair.req_a.method@, pair.req_a.path_template@) == pair.endpoint@
            &&& endpoint_key(pair.req_b.method@, pair.req_b.path_template@) == pair.endpoint@
            &&& exists|p: PendingRequest|
                #![trigger before.waiting(other(target), pair.endpoint@).contains(p)]
                before.waiting(other(target), pair.endpoint@).contains(p) && !expired(p, now, before.window_us) && (
                match target {
                    Target::A => p.request == pair.req_b && p.response == pair.res_b,
                    Target::B => p.request == pair.req_a && p.response == pair.res_a,
                })
        },
{
    let key = endpoint_key(req.method@, req.path_template@);
    let theirs = before.waiting(other(target), key);
    let live = live_part(theirs, now, before.window_us);
    if live.len() > 0 {
        law_live_part(theirs, now, before.window_us);
        lemma_expired_prefix_bound(theirs, now, before.window_us);
        let e = expired_prefix(theirs, now, before.window_us) as int;
        assert(live[0] == theirs[e]);
        assert(theirs.contains(live[0]));
        let m = before.pending(other(target));
        assert(m.dom().contains(key)) by {
            if !m.dom().contains(key) {
                assert(theirs.len() == 0);
            }
        }
        assert(theirs == m[key]);
        assert(endpoint_key(m[key][e].request.method@, m[key][e].request.path_template@) == key);
    }
}

/// Exchanges are paired first in, first out: when an exchange arrives while
/// the other target has a live exchange waiting under the same key, it is
/// paired, and with the first live one in arrival order, one that stands no
/// later than any live exchange; only expired ones are passed over.
pub proof fn law_pairing_is_first_in_first_out(
    before: Matcher,
    after: Matcher,
    target: Target,
    req: HttpRequest,
    res: HttpResponse,
    now: u64,
    r: Option<MatchedPair>,
    i: int,
)
    requires
        before.wf(),
        ingested_at(before, after, target, req, res, now, r),
        0 <= i < before.waiting(other(target), endpoint_key(req.method@, req.path_template@)).len(),
        !expired(before.waiting(other(target), endpoint_key(req.method@, req.path_template@))[i], now, before.window_us),
    ensures
        r matches Some(pair) && exists|k: int|
            #![trigger before.waiting(other(target), endpoint_key(req.method@, req.path_template@))[k]]
            {
                let q = before.waiting(other(target), endpoint_key(req.method@, req.path_template@));
                &&& 0 <= k <= i
                &&& forall|j: int| 0 <= j < k ==> expired(#[trigger] q[j], now, before.window_us)
                &&& match target {
                    Target::A => pair.req_b == q[k].request && pair.res_b == q[k].response,
                    Target::B => pair.req_a == q[k].request && pair.res_a == q[k].response,
                }
            },
{
    let key = endpoint_key(req.method@, req.path_template@);
    let q = before.waiting(other(target), key);
    let live = live_part(q, now, before.window_us);
    law_live_part(q, now, before.window_us);
    lemma_expired_prefix_bound(q, now, before.window_us);
    let e = q.len() - live.len();
    assert(e <= i) by {
        if e > i {
            assert(expired(q[i], now, before.window_us));
        }
    }
    assert(live.len() > 0);
    assert(live[0] == q[e]);
}

} // verus!
