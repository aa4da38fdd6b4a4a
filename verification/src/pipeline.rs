//! The decisions of the capture pipeline: which target a stream belongs to,
//! which request a response answers, and feeding matched pairs to the scorer.
use vstd::prelude::*;
use crate::capture::{StreamKey, reversed_stream, stream_id};
use crate::diff::{calculate_protocol_divergence, latency_delta, RawProtocolDivergence};
use crate::http::{HttpMessage, HttpRequest, HttpResponse};
use std::collections::{HashMap, VecDeque};
use crate::matcher::{MatchedPair, Target};
use crate::scorer::{Scorer, slid, WINDOW_SIZE};

verus! {

/// The target a stream belongs to: A when either of its ports is A's port,
/// B otherwise.
pub fn target_of(key: &StreamKey, port_a: u16) -> (r: Target)
    ensures
        r == if key.dst_port == port_a || key.src_port == port_a {
            Target::A
        } else {
            Target::B
        },
{
    if key.dst_port == port_a || key.src_port == port_a {
        Target::A
    } else {
        Target::B
    }
}

/// The requests seen on each connection that still wait for their
/// responses, oldest first, keyed by the number of the request direction's
/// stream.
pub struct ConnectionPairer {
    pub waiting: HashMap<u128, VecDeque<HttpRequest>>,
}

/// The requests waiting on connection `k`, oldest first.
pub open spec fn waiting_on(m: Map<u128, VecDeque<HttpRequest>>, k: u128) -> Seq<HttpRequest> {
    if m.contains_key(k) {
        m[k]@
    } else {
        Seq::empty()
    }
}

/// What taking in message `msg`, seen on stream `key`, does to the waiting
/// requests `before`, giving `after` and the exchange `r` it completes. A
/// request joins the end of its connection's queue. A response answers the
/// oldest request waiting on its connection (the one whose request
/// direction is the response's direction reversed), which leaves the queue;
/// with no request waiting it completes nothing.
pub open spec fn paired_on_connection(
    before: Map<u128, VecDeque<HttpRequest>>,
    after: Map<u128, VecDeque<HttpRequest>>,
    key: StreamKey,
    msg: HttpMessage,
    r: Option<(HttpRequest, HttpResponse)>,
) -> bool {
    match msg {
        HttpMessage::Request(q) => {
            let k = stream_id(key) as u128;
            &&& r is None
            &&& after.dom() == before.dom().insert(k)
            &&& waiting_on(after, k) == waiting_on(before, k).push(q)
            &&& forall|j: u128| j != k ==> #[trigger] waiting_on(after, j) == waiting_on(before, j)
        },
        HttpMessage::Response(s) => {
            let k = stream_id(reversed_stream(key)) as u128;
            let w = waiting_on(before, k);
            &&& r == if w.len() > 0 {
                Some((w[0], s))
            } else {
                None::<(HttpRequest, HttpResponse)>
            }
            &&& waiting_on(after, k) == if w.len() > 0 { w.drop_first() } else { w }
            &&& forall|j: u128| j != k ==> #[trigger] waiting_on(after, j) == waiting_on(before, j)
            &&& after.dom().subset_of(before.dom())
        },
    }
}

impl ConnectionPairer {
    /// No request waiting on any connection.
    pub fn new() -> (r: ConnectionPairer)
        ensures
            r.waiting@ == Map::<u128, VecDeque<HttpRequest>>::empty(),
    {
        ConnectionPairer { waiting: HashMap::new() }
    }

    /// Takes in a message seen on stream `key` (see `paired_on_connection`):
    /// a request waits for its response; a response is paired with the
    /// oldest request waiting on its connection.
    pub fn take(&mut self, key: &StreamKey, msg: HttpMessage) -> (r: Option<(HttpRequest, HttpResponse)>)
        ensures
            paired_on_connection(old(self).waiting@, final(self).waiting@, *key, msg, r),
    {
        broadcast use vstd::std_specs::hash::group_hash_axioms;
        match msg {
            HttpMessage::Request(q) => {
                let k = key.id();
                let mut queue = match self.waiting.remove(&k) {
                    Some(w) => w,
                    None => VecDeque::new(),
                };
                let ghost before = self.waiting@;
                queue.push_back(q);
                self.waiting.insert(k, queue);
                proof {
                    assert(waiting_on(self.waiting@, k) =~= waiting_on(old(self).waiting@, k).push(q));
                    assert(self.waiting@.dom() =~= old(self).waiting@.dom().insert(k));
                    assert forall|j: u128| j != k implies #[trigger] waiting_on(self.waiting@, j) == waiting_on(
                        old(self).waiting@,
                        j,
                    ) by {
                        assert(before.contains_key(j) == old(self).waiting@.contains_key(j));
                    }
                }
                None
            },
            HttpMessage::Response(s) => {
                let k = key.reversed().id();
                match self.waiting.remove(&k) {
                    None => {
                        assert(self.waiting@ =~= old(self).waiting@);
                        None
                    },
                    Some(mut queue) => {
                        let ghost w = queue@;
                        let front = queue.pop_front();
                        match front {
                            Some(req) => {
                                if queue.len() > 0 {
                                    self.waiting.insert(k, queue);
                                }
                                proof {
                                    assert(w == waiting_on(old(self).waiting@, k));
                                    assert(queue@ =~= w.drop_first());
                                    assert(waiting_on(self.waiting@, k) =~= w.drop_first());
                                    assert(self.waiting@.dom().subset_of(old(self).waiting@.dom()));
                                    assert forall|j: u128| j != k implies #[trigger] waiting_on(self.waiting@, j)
                                        == waiting_on(old(self).waiting@, j) by {}
                                }
                                Some((req, s))
                            },
                            None => {
                                assert(w == waiting_on(old(self).waiting@, k));
                                assert(waiting_on(self.waiting@, k) =~= w);
                                assert(self.waiting@.dom().subset_of(old(self).waiting@.dom()));
                                assert forall|j: u128| j != k implies #[trigger] waiting_on(self.waiting@, j)
                                    == waiting_on(old(self).waiting@, j) by {}
                                None
                            },
                        }
                    },
                }
            },
        }
    }
}

fn exchange_latency_exec(req_at: u64, res_at: u64) -> (r: i64)
    ensures
        r == (if res_at >= req_at {
            (res_at - req_at) as u64
        } else {
            0u64
        }) as i64,
{
    (if res_at >= req_at {
        res_at - req_at
    } else {
        0
    }) as i64
}

impl Scorer {
    /// Computes the protocol divergence of a matched pair and adds it to its
    /// endpoint's window; returns `false`, changing nothing, when the
    /// latency difference does not fit in an `i64`.
    pub fn ingest_pair(&mut self, pair: &MatchedPair) -> (r: bool)
        requires
            old(self).wf(),
        ensures
            final(self).wf(),
            r == (i64::MIN <= latency_delta(pair@) <= i64::MAX),
            r ==> exists|d: RawProtocolDivergence|
                crate::diff::divergence_of(pair@, #[trigger] d@) && final(self).recent_diffs.queues()
                    == old(self).recent_diffs.queues().insert(
                    d.endpoint@,
                    slid(old(self).window(d.endpoint@), d, WINDOW_SIZE as nat),
                ),
            !r ==> final(self).recent_diffs.queues() == old(self).recent_diffs.queues(),
            final(self).schema_inferrer == old(self).schema_inferrer,
            final(self).normalizer == old(self).normalizer,
    {
        let lat_a = exchange_latency_exec(pair.req_a.captured_at, pair.res_a.captured_at);
        let lat_b = exchange_latency_exec(pair.req_b.captured_at, pair.res_b.captured_at);
        let delta = lat_a as i128 - lat_b as i128;
        if delta < i64::MIN as i128 || delta > i64::MAX as i128 {
            return false;
        }
        let d = calculate_protocol_divergence(pair);
        let ghost dv = d;
        self.ingest_diff(d);
        assert(crate::diff::divergence_of(pair@, dv@));
        true
    }
}

} // verus!
