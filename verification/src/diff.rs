//! Protocol-level comparison of the two responses of a matched pair.
use vstd::prelude::*;
use crate::http::{RequestView, ResponseView, string_pairs_view};
use crate::matcher::{MatchedPair, MatchedPairView};
use crate::text::str_eq;

verus! {

// ---------------------------------------------------------------------------
// Header maps
// ---------------------------------------------------------------------------

/// The headers of a message as a map: a name that occurs more than once keeps
/// its last value.
pub open spec fn header_map(hs: Seq<(Seq<char>, Seq<char>)>) -> Map<Seq<char>, Seq<char>>
    decreases hs.len(),
{
    if hs.len() == 0 {
        Map::empty()
    } else {
        header_map(hs.drop_last()).insert(hs.last().0, hs.last().1)
    }
}

pub proof fn lemma_header_map_domain(hs: Seq<(Seq<char>, Seq<char>)>, k: Seq<char>)
    ensures
        header_map(hs).contains_key(k) <==> exists|i: int| 0 <= i < hs.len() && #[trigger] hs[i].0 == k,
    decreases hs.len(),
{
    if hs.len() > 0 {
        lemma_header_map_domain(hs.drop_last(), k);
        if header_map(hs.drop_last()).contains_key(k) {
            let i = choose|i: int| 0 <= i < hs.drop_last().len() && #[trigger] hs.drop_last()[i].0 == k;
            assert(hs[i].0 == k);
        }
        if exists|i: int| 0 <= i < hs.len() && #[trigger] hs[i].0 == k {
            let i = choose|i: int| 0 <= i < hs.len() && #[trigger] hs[i].0 == k;
            if i < hs.len() - 1 {
                assert(hs.drop_last()[i].0 == k);
            }
        }
    }
}

pub proof fn lemma_header_map_value(hs: Seq<(Seq<char>, Seq<char>)>, j: int)
    requires
        0 <= j < hs.len(),
        forall|i: int| j < i < hs.len() ==> #[trigger] hs[i].0 != hs[j].0,
    ensures
        header_map(hs).contains_key(hs[j].0),
        header_map(hs)[hs[j].0] == hs[j].1,
    decreases hs.len(),
{
    if j < hs.len() - 1 {
        let k = hs[j].0;
        assert(hs.last().0 != k);
        assert forall|i: int| j < i < hs.drop_last().len() implies #[trigger] hs.drop_last()[i].0 != hs.drop_last()[j].0 by {
            assert(hs[i].0 != hs[j].0);
        }
        lemma_header_map_value(hs.drop_last(), j);
    }
}

/// The position of the last header called `name`, whose value the map keeps.
pub fn find_header(hs: &Vec<(String, String)>, name: &String) -> (r: Option<usize>)
    ensures
        match r {
            Some(j) => j < hs.len() && hs@[j as int].0@ == name@
                && header_map(string_pairs_view(hs@)).contains_key(name@)
                && header_map(string_pairs_view(hs@))[name@] == hs@[j as int].1@,
            None => !header_map(string_pairs_view(hs@)).contains_key(name@),
        },
{
    let ghost v = string_pairs_view(hs@);
    let mut i: usize = hs.len();
    while i > 0
        invariant
            i <= hs.len(),
            v == string_pairs_view(hs@),
            forall|t: int| i <= t < hs.len() ==> #[trigger] hs@[t].0@ != name@,
        decreases i,
    {
        if hs[i - 1].0 == *name {
            proof {
                assert forall|t: int| (i - 1) < t < v.len() implies #[trigger] v[t].0 != v[i - 1].0 by {
                    assert(hs@[t].0@ != name@);
                }
                lemma_header_map_value(v, i - 1);
            }
            return Some(i - 1);
        }
        i = i - 1;
    }
    proof {
        lemma_header_map_domain(v, name@);
        if header_map(v).contains_key(name@) {
            let t = choose|t: int| 0 <= t < v.len() && #[trigger] v[t].0 == name@;
            assert(hs@[t].0@ == name@);
        }
    }
    None
}

/// Headers whose values differ on every response by design: dates, request
/// and trace ids, server timings, CDN and cache markers, cache ages.
pub open spec fn is_volatile_header(name: Seq<char>) -> bool {
    ||| name == "date"@
    ||| name == "x-request-id"@
    ||| name == "x-trace-id"@
    ||| name == "x-amzn-requestid"@
    ||| name == "server-timing"@
    ||| name == "cf-ray"@
    ||| name == "x-cache"@
    ||| name == "age"@
}

pub fn header_is_volatile(name: &String) -> (r: bool)
    ensures
        r == is_volatile_header(name@),
{
    let n = name.as_str();
    str_eq(n, "date") || str_eq(n, "x-request-id") || str_eq(n, "x-trace-id") || str_eq(
        n,
        "x-amzn-requestid",
    ) || str_eq(n, "server-timing") || str_eq(n, "cf-ray") || str_eq(n, "x-cache") || str_eq(
        n,
        "age",
    )
}

// ---------------------------------------------------------------------------
// The divergence record
// ---------------------------------------------------------------------------

/// The raw, protocol-level differences between the two responses of a pair.
#[derive(Debug, Clone)]
pub struct RawProtocolDivergence {
    pub endpoint: String,
    pub status_match: bool,
    pub status_a: u16,
    pub status_b: u16,
    pub headers_only_a: Vec<String>,
    pub headers_only_b: Vec<String>,
    pub headers_value_diff: Vec<(String, String, String)>,
    pub body_identical: bool,
    pub body_a_len: usize,
    pub body_b_len: usize,
    pub latency_delta_us: i64,
}

pub open spec fn strings_view(v: Seq<String>) -> Seq<Seq<char>> {
    v.map_values(|s: String| s@)
}

pub open spec fn triples_view(v: Seq<(String, String, String)>) -> Seq<(Seq<char>, Seq<char>, Seq<char>)> {
    v.map_values(|t: (String, String, String)| (t.0@, t.1@, t.2@))
}

/// Header names present in `a` but not in `b`, volatile headers aside.
pub open spec fn headers_only_in(a: Map<Seq<char>, Seq<char>>, b: Map<Seq<char>, Seq<char>>) -> Set<Seq<char>> {
    Set::new(|k: Seq<char>| a.contains_key(k) && !b.contains_key(k) && !is_volatile_header(k))
}

/// `(name, value in a, value in b)` for every non-volatile header present in
/// both with different values.
pub open spec fn header_value_diffs(a: Map<Seq<char>, Seq<char>>, b: Map<Seq<char>, Seq<char>>) -> Set<(Seq<char>, Seq<char>, Seq<char>)> {
    Set::new(
        |t: (Seq<char>, Seq<char>, Seq<char>)|
            a.contains_key(t.0) && b.contains_key(t.0) && a[t.0] != b[t.0] && !is_volatile_header(t.0)
                && t.1 == a[t.0] && t.2 == b[t.0],
    )
}

/// Time from request capture to response capture in microseconds, as an `i64`
/// (zero when the response was stamped first).
pub open spec fn exchange_latency(req: RequestView, res: ResponseView) -> i64 {
    (if res.captured_at >= req.captured_at {
        (res.captured_at - req.captured_at) as u64
    } else {
        0u64
    }) as i64
}

/// The latency of A's exchange minus that of B's.
pub open spec fn latency_delta(p: MatchedPairView) -> int {
    exchange_latency(p.req_a, p.res_a) - exchange_latency(p.req_b, p.res_b)
}

pub open spec fn divergence_of(p: MatchedPairView, d: RawProtocolDivergenceView) -> bool {
    let ma = header_map(p.res_a.headers);
    let mb = header_map(p.res_b.headers);
    &&& d.endpoint == p.endpoint
    &&& d.status_match == (p.res_a.status == p.res_b.status)
    &&& d.status_a == p.res_a.status
    &&& d.status_b == p.res_b.status
    &&& d.headers_only_a.no_duplicates()
    &&& d.headers_only_a.to_set() == headers_only_in(ma, mb)
    &&& d.headers_only_b.no_duplicates()
    &&& d.headers_only_b.to_set() == headers_only_in(mb, ma)
    &&& d.headers_value_diff.map_values(|t: (Seq<char>, Seq<char>, Seq<char>)| t.0).no_duplicates()
    &&& d.headers_value_diff.to_set() == header_value_diffs(ma, mb)
    &&& d.body_identical == (p.res_a.body == p.res_b.body)
    &&& d.body_a_len == p.res_a.body.len()
    &&& d.body_b_len == p.res_b.body.len()
    &&& d.latency_delta_us == latency_delta(p)
}

pub struct RawProtocolDivergenceView {
    pub endpoint: Seq<char>,
    pub status_match: bool,
    pub status_a: u16,
    pub status_b: u16,
    pub headers_only_a: Seq<Seq<char>>,
    pub headers_only_b: Seq<Seq<char>>,
    pub headers_value_diff: Seq<(Seq<char>, Seq<char>, Seq<char>)>,
    pub body_identical: bool,
    pub body_a_len: usize,
    pub body_b_len: usize,
    pub latency_delta_us: i64,
}

impl View for RawProtocolDivergence {
    type V = RawProtocolDivergenceView;

    open spec fn view(&self) -> RawProtocolDivergenceView {
        RawProtocolDivergenceView {
            endpoint: self.endpoint@,
            status_match: self.status_match,
            status_a: self.status_a,
            status_b: self.status_b,
            headers_only_a: strings_view(self.headers_only_a@),
            headers_only_b: strings_view(self.headers_only_b@),
            headers_value_diff: triples_view(self.headers_value_diff@),
            body_identical: self.body_identical,
            body_a_len: self.body_a_len,
            body_b_len: self.body_b_len,
            latency_delta_us: self.latency_delta_us,
        }
    }
}

fn contains_string(v: &Vec<String>, s: &String) -> (r: bool)
    ensures
        r == strings_view(v@).contains(s@),
{
    let mut i: usize = 0;
    while i < v.len()
        invariant
            i <= v.len(),
            forall|j: int| 0 <= j < i ==> #[trigger] v@[j]@ != s@,
        decreases v.len() - i,
    {
        if v[i] == *s {
            assert(strings_view(v@)[i as int] == s@);
            return true;
        }
        i = i + 1;
    }
    proof {
        if strings_view(v@).contains(s@) {
            let j = choose|j: int| 0 <= j < strings_view(v@).len() && strings_view(v@)[j] == s@;
            assert(v@[j]@ == s@);
        }
    }
    false
}

/// Names of non-volatile headers of `a` that `b` lacks, each once.
fn names_only_in(a: &Vec<(String, String)>, b: &Vec<(String, String)>) -> (r: Vec<String>)
    ensures
        strings_view(r@).no_duplicates(),
        strings_view(r@).to_set() == headers_only_in(
            header_map(string_pairs_view(a@)),
            header_map(string_pairs_view(b@)),
        ),
{
    let ghost ma = header_map(string_pairs_view(a@));
    let ghost mb = header_map(string_pairs_view(b@));
    let mut out: Vec<String> = Vec::new();
    let mut j: usize = 0;
    while j < a.len()
        invariant
            j <= a.len(),
            ma == header_map(string_pairs_view(a@)),
            mb == header_map(string_pairs_view(b@)),
            strings_view(out@).no_duplicates(),
            forall|k: Seq<char>| #![trigger strings_view(out@).contains(k)]
                strings_view(out@).contains(k) <==> (exists|i: int| 0 <= i < j && #[trigger] a@[i].0@ == k)
                    && !mb.contains_key(k) && !is_volatile_header(k),
        decreases a.len() - j,
    {
        let name = &a[j].0;
        let absent = find_header(b, name).is_none();
        let volatile = header_is_volatile(name);
        let seen = contains_string(&out, name);
        let ghost before = strings_view(out@);
        if absent && !volatile && !seen {
            out.push(name.clone());
            assert(strings_view(out@) =~= before.push(name@));
        }
        proof {
            broadcast use vstd::seq_lib::lemma_seq_contains_after_push;
            assert forall|k: Seq<char>|
                strings_view(out@).contains(k) <==> (exists|i: int| 0 <= i < j + 1 && #[trigger] a@[i].0@ == k)
                    && !mb.contains_key(k) && !is_volatile_header(k) by {
                let in_prefix = exists|i: int| 0 <= i < j && #[trigger] a@[i].0@ == k;
                let in_next = exists|i: int| 0 <= i < j + 1 && #[trigger] a@[i].0@ == k;
                if in_next {
                    let i = choose|i: int| 0 <= i < j + 1 && #[trigger] a@[i].0@ == k;
                    if i < j {
                        assert(in_prefix);
                    } else {
                        assert(k == name@);
                    }
                }
                if in_prefix {
                    let i = choose|i: int| 0 <= i < j && #[trigger] a@[i].0@ == k;
                    assert(a@[i].0@ == k);
                    assert(in_next);
                }
                if k == name@ {
                    assert(a@[j as int].0@ == k);
                    assert(in_next);
                }
                assert(before.contains(k) <==> in_prefix && !mb.contains_key(k) && !is_volatile_header(k));
                if absent && !volatile && !seen {
                    assert(strings_view(out@).contains(k) <==> (before.contains(k) || k == name@));
                } else {
                    assert(strings_view(out@) == before);
                }
            }
        }
        j = j + 1;
    }
    proof {
        let av = string_pairs_view(a@);
        assert forall|k: Seq<char>| strings_view(out@).to_set().contains(k) == headers_only_in(ma, mb).contains(k) by {
            lemma_header_map_domain(av, k);
            if exists|i: int| 0 <= i < av.len() && #[trigger] av[i].0 == k {
                let i = choose|i: int| 0 <= i < av.len() && #[trigger] av[i].0 == k;
                assert(a@[i].0@ == k);
            }
            if exists|i: int| 0 <= i < a.len() && #[trigger] a@[i].0@ == k {
                let i = choose|i: int| 0 <= i < a.len() && #[trigger] a@[i].0@ == k;
                assert(av[i].0 == k);
            }
        }
        assert(strings_view(out@).to_set() =~= headers_only_in(ma, mb));
    }
    out
}

/// Non-volatile headers of `a` whose value differs in `b`, each name once.
fn value_diffs(a: &Vec<(String, String)>, b: &Vec<(String, String)>) -> (r: Vec<(String, String, String)>)
    ensures
        triples_view(r@).map_values(|t: (Seq<char>, Seq<char>, Seq<char>)| t.0).no_duplicates(),
        triples_view(r@).to_set() == header_value_diffs(
            header_map(string_pairs_view(a@)),
            header_map(string_pairs_view(b@)),
        ),
{
    let ghost ma = header_map(string_pairs_view(a@));
    let ghost mb = header_map(string_pairs_view(b@));
    let mut out: Vec<(String, String, String)> = Vec::new();
    let mut names: Vec<String> = Vec::new();
    let mut j: usize = 0;
    while j < a.len()
        invariant
            j <= a.len(),
            ma == header_map(string_pairs_view(a@)),
            mb == header_map(string_pairs_view(b@)),
            strings_view(names@) == triples_view(out@).map_values(
                |t: (Seq<char>, Seq<char>, Seq<char>)| t.0,
            ),
            strings_view(names@).no_duplicates(),
            forall|t: (Seq<char>, Seq<char>, Seq<char>)| #![trigger triples_view(out@).contains(t)]
                triples_view(out@).contains(t) <==> (exists|i: int| 0 <= i < j && #[trigger] a@[i].0@ == t.0)
                    && header_value_diffs(ma, mb).contains(t),
        decreases a.len() - j,
    {
        let name = &a[j].0;
        let ia = find_header(a, name);
        let ib = find_header(b, name);
        let volatile = header_is_volatile(name);
        let seen = contains_string(&names, name);
        let ghost before = triples_view(out@);
        let ghost before_names = strings_view(names@);
        proof {
            lemma_header_map_domain(string_pairs_view(a@), name@);
            assert(string_pairs_view(a@)[j as int].0 == name@);
        }
        match (ia, ib) {
            (Some(x), Some(y)) => {
                if !volatile && !seen && a[x].1 != b[y].1 {
                    let t = (name.clone(), a[x].1.clone(), b[y].1.clone());
                    out.push(t);
                    names.push(name.clone());
                    assert(triples_view(out@) =~= before.push((name@, ma[name@], mb[name@])));
                    assert(strings_view(names@) =~= before_names.push(name@));
                    assert(triples_view(out@).map_values(|t: (Seq<char>, Seq<char>, Seq<char>)| t.0)
                        =~= before.map_values(|t: (Seq<char>, Seq<char>, Seq<char>)| t.0).push(name@));
                }
            },
            _ => {},
        }
        proof {
            broadcast use vstd::seq_lib::lemma_seq_contains_after_push;
            let pushed = triples_view(out@) != before;
            let star = (name@, ma[name@], mb[name@]);
            if pushed {
                assert(triples_view(out@) == before.push(star));
            }
            assert forall|t: (Seq<char>, Seq<char>, Seq<char>)|
                triples_view(out@).contains(t) <==> (exists|i: int| 0 <= i < j + 1 && #[trigger] a@[i].0@ == t.0)
                    && header_value_diffs(ma, mb).contains(t) by {
                let in_prefix = exists|i: int| 0 <= i < j && #[trigger] a@[i].0@ == t.0;
                let in_next = exists|i: int| 0 <= i < j + 1 && #[trigger] a@[i].0@ == t.0;
                if in_next {
                    let i = choose|i: int| 0 <= i < j + 1 && #[trigger] a@[i].0@ == t.0;
                    if i < j {
                        assert(in_prefix);
                    } else {
                        assert(t.0 == name@);
                    }
                }
                if in_prefix {
                    let i = choose|i: int| 0 <= i < j && #[trigger] a@[i].0@ == t.0;
                    assert(a@[i].0@ == t.0);
                    assert(in_next);
                }
                if t.0 == name@ {
                    assert(a@[j as int].0@ == t.0);
                    assert(in_next);
                }
                assert(before.contains(t) <==> in_prefix && header_value_diffs(ma, mb).contains(t));
                if pushed {
                    assert(triples_view(out@).contains(t) <==> (before.contains(t) || t == star));
                } else if t.0 == name@ && header_value_diffs(ma, mb).contains(t) {
                    assert(seen);
                    let q = choose|q: int| 0 <= q < before_names.len() && before_names[q] == name@;
                    assert(before.map_values(|t: (Seq<char>, Seq<char>, Seq<char>)| t.0)[q] == name@);
                    assert(before.contains(before[q]));
                    assert(before[q] == t);
                }
            }
        }
        j = j + 1;
    }
    proof {
        let av = string_pairs_view(a@);
        assert forall|t: (Seq<char>, Seq<char>, Seq<char>)|
            triples_view(out@).to_set().contains(t) == header_value_diffs(ma, mb).contains(t) by {
            lemma_header_map_domain(av, t.0);
            if exists|i: int| 0 <= i < av.len() && #[trigger] av[i].0 == t.0 {
                let i = choose|i: int| 0 <= i < av.len() && #[trigger] av[i].0 == t.0;
                assert(a@[i].0@ == t.0);
            }
        }
        assert(triples_view(out@).to_set() =~= header_value_diffs(ma, mb));
    }
    out
}

/// Whether two byte strings are equal.
pub fn bytes_equal(a: &[u8], b: &[u8]) -> (r: bool)
    ensures
        r == (a@ == b@),
{
    if a.len() != b.len() {
        return false;
    }
    let mut i: usize = 0;
    while i < a.len()
        invariant
            i <= a.len(),
            a.len() == b.len(),
            forall|j: int| 0 <= j < i ==> a@[j] == b@[j],
        decreases a.len() - i,
    {
        if a[i] != b[i] {
            return false;
        }
        i = i + 1;
    }
    assert(a@ =~= b@);
    true
}

/// Compares the two responses of a pair: status codes, headers (ignoring
/// volatile ones), bodies byte for byte, and the latency of each exchange.
/// The header name lists are sets: each name once, in no promised order.
pub fn calculate_protocol_divergence(pair: &MatchedPair) -> (r: RawProtocolDivergence)
    requires
        i64::MIN <= latency_delta(pair@) <= i64::MAX,
    ensures
        divergence_of(pair@, r@),
{
    let status_match = pair.res_a.status == pair.res_b.status;
    let headers_only_a = names_only_in(&pair.res_a.headers, &pair.res_b.headers);
    let headers_only_b = names_only_in(&pair.res_b.headers, &pair.res_a.headers);
    let headers_value_diff = value_diffs(&pair.res_a.headers, &pair.res_b.headers);
    let body_identical = bytes_equal(pair.res_a.body.as_slice(), pair.res_b.body.as_slice());
    let lat_a = if pair.res_a.captured_at >= pair.req_a.captured_at {
        pair.res_a.captured_at - pair.req_a.captured_at
    } else {
        0
    } as i64;
    let lat_b = if pair.res_b.captured_at >= pair.req_b.captured_at {
        pair.res_b.captured_at - pair.req_b.captured_at
    } else {
        0
    } as i64;
    RawProtocolDivergence {
        endpoint: pair.endpoint.clone(),
        status_match,
        status_a: pair.res_a.status,
        status_b: pair.res_b.status,
        headers_only_a,
        headers_only_b,
        headers_value_diff,
        body_identical,
        body_a_len: pair.res_a.body.len(),
        body_b_len: pair.res_b.body.len(),
        latency_delta_us: lat_a - lat_b,
    }
}

/// The headers that are never diffed, by name: dates, request and trace
/// ids, server timings, CDN and cache markers, cache ages. Whatever the two
/// responses carry under these names, no divergence of the pair lists one
/// of them as missing on a side or as differing in value.
pub proof fn law_volatile_headers_are_never_diffed(p: MatchedPairView, d: RawProtocolDivergenceView, name: Seq<char>)
    requires
        divergence_of(p, d),
        name == "date"@ || name == "x-request-id"@ || name == "x-trace-id"@ || name == "x-amzn-requestid"@
            || name == "server-timing"@ || name == "cf-ray"@ || name == "x-cache"@ || name == "age"@,
    ensures
        !d.headers_only_a.contains(name),
        !d.headers_only_b.contains(name),
        forall|i: int| 0 <= i < d.headers_value_diff.len() ==> (#[trigger] d.headers_value_diff[i]).0 != name,
{
    let ma = header_map(p.res_a.headers);
    let mb = header_map(p.res_b.headers);
    assert(is_volatile_header(name));
    if d.headers_only_a.contains(name) {
        assert(d.headers_only_a.to_set().contains(name));
        assert(headers_only_in(ma, mb).contains(name));
    }
    if d.headers_only_b.contains(name) {
        assert(d.headers_only_b.to_set().contains(name));
        assert(headers_only_in(mb, ma).contains(name));
    }
    assert forall|i: int| 0 <= i < d.headers_value_diff.len() implies (#[trigger] d.headers_value_diff[i]).0 != name by {
        let t = d.headers_value_diff[i];
        assert(d.headers_value_diff.contains(t));
        assert(d.headers_value_diff.to_set().contains(t));
        assert(header_value_diffs(ma, mb).contains(t));
    }
}

} // verus!
