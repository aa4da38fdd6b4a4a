//! The rolling window of protocol divergences per endpoint, and what the
//! drift score is computed from.
use vstd::prelude::*;
use crate::diff::RawProtocolDivergence;
use crate::keyed::KeyedQueues;
use crate::schema::{SchemaInferrer, divergence_of};
use crate::semantic::{SemanticNormalizer, names_of, default_ignored, normalized, equal_up_to_noise};
use crate::json::{JsonTree, JsonValue, tree_of, members_tree, elements_tree};

verus! {

/// The number of recent divergences kept per endpoint.
pub const WINDOW_SIZE: usize = 1000;

/// `w` after `d` is appended and, when that makes it longer than `n`, its
/// oldest entry dropped.
pub open spec fn slid(w: Seq<RawProtocolDivergence>, d: RawProtocolDivergence, n: nat) -> Seq<RawProtocolDivergence> {
    if w.len() + 1 > n {
        w.push(d).drop_first()
    } else {
        w.push(d)
    }
}

/// A window slides: it ends with the newest divergence, keeps the ones
/// before it in order, and holds at most `n` of them.
pub proof fn law_window_slides(w: Seq<RawProtocolDivergence>, d: RawProtocolDivergence, n: nat)
    requires
        n >= 1,
        w.len() <= n,
    ensures
        slid(w, d, n).len() == if w.len() < n { w.len() + 1 } else { n },
        slid(w, d, n).last() == d,
        slid(w, d, n).drop_last() == w.skip(w.len() + 1 - slid(w, d, n).len()),
{
    if w.len() + 1 > n {
        assert(w.push(d).drop_first().drop_last() =~= w.skip(1));
    } else {
        assert(w.skip(0) =~= w);
    }
}

pub open spec fn windows_bounded(m: Map<Seq<char>, Seq<RawProtocolDivergence>>, n: nat) -> bool {
    forall|k: Seq<char>| #[trigger] m.dom().contains(k) ==> m[k].len() <= n
}

/// `|x|` as a natural number.
pub open spec fn magnitude(x: i64) -> nat {
    if x < 0 {
        (-x) as nat
    } else {
        x as nat
    }
}

/// The sum of `|latency_delta_us|` over a window.
pub open spec fn latency_sum(w: Seq<RawProtocolDivergence>) -> nat
    decreases w.len(),
{
    if w.len() == 0 {
        0
    } else {
        latency_sum(w.drop_last()) + magnitude(w.last().latency_delta_us)
    }
}

/// The number of entries of a window whose status codes differ.
pub open spec fn status_mismatches(w: Seq<RawProtocolDivergence>) -> nat
    decreases w.len(),
{
    if w.len() == 0 {
        0
    } else {
        status_mismatches(w.drop_last()) + if w.last().status_match {
            0nat
        } else {
            1nat
        }
    }
}

/// The number of header differences recorded in one divergence.
pub open spec fn header_total(d: RawProtocolDivergence) -> nat {
    d.headers_only_a@.len() + d.headers_only_b@.len() + d.headers_value_diff@.len()
}

/// What the drift score of an endpoint is computed from: the window's size,
/// how many of its pairs had different status codes, the sum of the
/// magnitudes of their latency differences, the number of header
/// differences of each pair (oldest first), and whether the schemas diverge.
#[derive(Debug)]
pub struct ScoreInputs {
    pub sample_count: usize,
    pub status_mismatches: usize,
    pub latency_abs_sum: u128,
    pub header_diff_totals: Vec<u128>,
    pub schema_diverged: bool,
}

/// Schema inference, body normalisation and the recent divergences of each
/// endpoint.
pub struct Scorer {
    pub schema_inferrer: SchemaInferrer,
    pub normalizer: SemanticNormalizer,
    pub recent_diffs: KeyedQueues<RawProtocolDivergence>,
    pub window_size: usize,
}

impl Scorer {
    /// The inferrer is well formed, the window size is `WINDOW_SIZE` and no
    /// window is longer.
    pub open spec fn wf(&self) -> bool {
        &&& self.schema_inferrer.wf()
        &&& self.recent_diffs.wf()
        &&& self.window_size == WINDOW_SIZE
        &&& windows_bounded(self.recent_diffs.queues(), self.window_size as nat)
    }

    /// The recent divergences of `endpoint`, oldest first.
    pub open spec fn window(&self, endpoint: Seq<char>) -> Seq<RawProtocolDivergence> {
        self.recent_diffs.queue(endpoint)
    }

    /// A scorer with no history that ignores `ignore_fields` (and the default
    /// names) when normalising bodies.
    pub fn new(ignore_fields: Vec<String>) -> (r: Scorer)
        ensures
            r.wf(),
            r.normalizer.ignored() == names_of(ignore_fields@) + default_ignored(),
            r.schema_inferrer.min_samples == 50,
            forall|e: Seq<char>, t: crate::matcher::Target| crate::schema::schema_for(r.schema_inferrer.schemas@, e, t) is None,
            r.recent_diffs.queues() == Map::<Seq<char>, Seq<RawProtocolDivergence>>::empty(),
    {
        Scorer {
            normalizer: SemanticNormalizer::new(ignore_fields),
            schema_inferrer: SchemaInferrer::new(),
            recent_diffs: KeyedQueues::new(),
            window_size: WINDOW_SIZE,
        }
    }

    /// Appends `diff` to the window of its endpoint, dropping the oldest
    /// entry when the window would exceed `window_size`.
    pub fn ingest_diff(&mut self, diff: RawProtocolDivergence)
        requires
            old(self).wf(),
        ensures
            final(self).wf(),
            final(self).schema_inferrer == old(self).schema_inferrer,
            final(self).normalizer == old(self).normalizer,
            final(self).recent_diffs.queues() == old(self).recent_diffs.queues().insert(
                diff.endpoint@,
                slid(old(self).window(diff.endpoint@), diff, WINDOW_SIZE as nat),
            ),
    {
        let ghost old_view = self.recent_diffs.queues();
        let mut w = self.recent_diffs.take(diff.endpoint.as_str());
        let ghost endpoint = diff.endpoint@;
        let key = diff.endpoint.clone();
        let ghost before = w@;
        proof {
            if old_view.dom().contains(endpoint) {
                assert(before.len() <= WINDOW_SIZE);
            }
        }
        w.push_back(diff);
        if w.len() > self.window_size {
            w.pop_front();
            proof {
                assert(w@ =~= before.push(diff).drop_first());
            }
        }
        self.recent_diffs.put_queue(key.as_str(), w);
        proof {
            let m = self.recent_diffs.queues();
            assert forall|k: Seq<char>| #[trigger] m.dom().contains(k) implies m[k].len() <= WINDOW_SIZE by {
                if k != endpoint {
                    assert(old_view.dom().contains(k));
                }
            }
        }
    }

    /// The inputs of the drift score of `endpoint`; `None` when it has no
    /// recent divergences.
    pub fn score_inputs(&self, endpoint: &str) -> (r: Option<ScoreInputs>)
        requires
            self.wf(),
        ensures
            match r {
                None => self.window(endpoint@).len() == 0,
                Some(s) => {
                    let w = self.window(endpoint@);
                    &&& w.len() > 0
                    &&& s.sample_count == w.len()
                    &&& s.status_mismatches == status_mismatches(w)
                    &&& s.latency_abs_sum == latency_sum(w)
                    &&& s.header_diff_totals.len() == w.len()
                    &&& forall|i: int| 0 <= i < w.len() ==> #[trigger] s.header_diff_totals@[i] == header_total(w[i])
                    &&& s.schema_diverged == (divergence_of(&self.schema_inferrer, endpoint@) is Some)
                },
            },
    {
        let w = match self.recent_diffs.get(endpoint) {
            Some(w) => w,
            None => return None,
        };
        if w.len() == 0 {
            return None;
        }
        let ghost ws = w@;
        assert(self.recent_diffs.queues().dom().contains(endpoint@));
        assert(self.recent_diffs.queues()[endpoint@] == ws);
        assert(ws.len() <= WINDOW_SIZE);
        let mut mismatches: usize = 0;
        let mut latency: u128 = 0;
        let mut totals: Vec<u128> = Vec::new();
        let mut i: usize = 0;
        while i < w.len()
            invariant
                i <= w.len(),
                ws == w@,
                ws.len() <= WINDOW_SIZE,
                mismatches == status_mismatches(ws.take(i as int)),
                mismatches <= i,
                latency == latency_sum(ws.take(i as int)),
                latency <= i * 0x8000_0000_0000_0000,
                totals.len() == i,
                forall|j: int| 0 <= j < i ==> #[trigger] totals@[j] == header_total(ws[j]),
            decreases w.len() - i,
        {
            let d = &w[i];
            proof {
                assert(ws.take(i + 1).drop_last() =~= ws.take(i as int));
                assert(ws.take(i + 1).last() == ws[i as int]);
            }
            if !d.status_match {
                mismatches = mismatches + 1;
            }
            let x = d.latency_delta_us;
            let m: u128 = if x < 0 {
                (-(x as i128)) as u128
            } else {
                x as u128
            };
            assert(m == magnitude(x));
            latency = latency + m;
            let total = d.headers_only_a.len() as u128 + d.headers_only_b.len() as u128 + d.headers_value_diff.len() as u128;
            totals.push(total);
            i = i + 1;
        }
        assert(ws.take(w.len() as int) =~= ws);
        let schema_diverged = match self.schema_inferrer.diff(endpoint) {
            Some(_) => true,
            None => false,
        };
        Some(ScoreInputs {
            sample_count: w.len(),
            status_mismatches: mismatches,
            latency_abs_sum: latency,
            header_diff_totals: totals,
            schema_diverged,
        })
    }

    /// The endpoints that have a window, each once.
    pub fn endpoints(&self) -> (r: Vec<String>)
        requires
            self.wf(),
        ensures
            forall|k: Seq<char>| self.recent_diffs.queues().dom().contains(k) <==> exists|i: int| 0 <= i < r.len() && #[trigger] r@[i]@ == k,
            forall|i: int, j: int| 0 <= i < j < r.len() ==> r@[i]@ != r@[j]@,
    {
        self.recent_diffs.keys()
    }
}

// ---------------------------------------------------------------------------
// Comparing two responses
// ---------------------------------------------------------------------------

/// Two JSON documents that serialise to the same text: the same tree, with
/// numbers compared by their text.
pub open spec fn same_document(a: JsonTree, b: JsonTree) -> bool
    decreases a, 0nat,
{
    match (a, b) {
        (JsonTree::Null, JsonTree::Null) => true,
        (JsonTree::Bool(x), JsonTree::Bool(y)) => x == y,
        (JsonTree::Number(x, _), JsonTree::Number(y, _)) => x == y,
        (JsonTree::Str(x), JsonTree::Str(y)) => x == y,
        (JsonTree::Array(x), JsonTree::Array(y)) => x.len() == y.len() && same_elements(x, y, x.len()),
        (JsonTree::Object(x), JsonTree::Object(y)) => x.len() == y.len() && same_members(x, y, x.len()),
        _ => false,
    }
}

/// The first `n` elements of two arrays are pairwise the same document.
pub open spec fn same_elements(x: Seq<JsonTree>, y: Seq<JsonTree>, n: nat) -> bool
    decreases x, n,
{
    if n == 0 {
        true
    } else if n > x.len() || n > y.len() {
        false
    } else {
        proof {
            assert(decreases_to!(x => x[n - 1]));
        }
        same_elements(x, y, (n - 1) as nat) && same_document(x[n - 1], y[n - 1])
    }
}

/// The first `n` members of two objects have pairwise the same names and
/// the same documents as values.
pub open spec fn same_members(x: Seq<(Seq<char>, JsonTree)>, y: Seq<(Seq<char>, JsonTree)>, n: nat) -> bool
    decreases x, n,
{
    if n == 0 {
        true
    } else if n > x.len() || n > y.len() {
        false
    } else {
        proof {
            assert(decreases_to!(x => x[n - 1]));
        }
        same_members(x, y, (n - 1) as nat) && x[n - 1].0 == y[n - 1].0 && same_document(x[n - 1].1, y[n - 1].1)
    }
}

proof fn lemma_same_elements_prefix(x: Seq<JsonTree>, y: Seq<JsonTree>, m: nat, n: nat)
    requires
        m <= n,
        same_elements(x, y, n),
    ensures
        same_elements(x, y, m),
    decreases n - m,
{
    if m < n {
        lemma_same_elements_prefix(x, y, m, (n - 1) as nat);
    }
}

proof fn lemma_same_members_prefix(x: Seq<(Seq<char>, JsonTree)>, y: Seq<(Seq<char>, JsonTree)>, m: nat, n: nat)
    requires
        m <= n,
        same_members(x, y, n),
    ensures
        same_members(x, y, m),
    decreases n - m,
{
    if m < n {
        lemma_same_members_prefix(x, y, m, (n - 1) as nat);
    }
}

/// Whether two JSON documents serialise to the same text (see `same_document`).
pub fn same_json(a: &JsonValue, b: &JsonValue) -> (r: bool)
    ensures
        r == same_document(tree_of(*a), tree_of(*b)),
    decreases a,
{
    match (a, b) {
        (JsonValue::Null, JsonValue::Null) => true,
        (JsonValue::Bool(x), JsonValue::Bool(y)) => *x == *y,
        (JsonValue::Number(x), JsonValue::Number(y)) => crate::text::str_eq(x.text.as_str(), y.text.as_str()),
        (JsonValue::String(x), JsonValue::String(y)) => crate::text::str_eq(x.as_str(), y.as_str()),
        (JsonValue::Array(x), JsonValue::Array(y)) => {
            proof {
                crate::json::lemma_array_tree(*x);
                crate::json::lemma_array_tree(*y);
            }
            if x.len() != y.len() {
                return false;
            }
            let mut i: usize = 0;
            while i < x.len()
                invariant
                    i <= x.len(),
                    x.len() == y.len(),
                    *a == JsonValue::Array(*x),
                    *b == JsonValue::Array(*y),
                    tree_of(*a) == JsonTree::Array(elements_tree(x@)),
                    tree_of(*b) == JsonTree::Array(elements_tree(y@)),
                    same_elements(elements_tree(x@), elements_tree(y@), i as nat),
                decreases x.len() - i,
            {
                assert(decreases_to!(*a => (*a)->Array_0));
                assert(decreases_to!(*x => x@));
                assert(decreases_to!(x@ => x@[i as int]));
                if !same_json(&x[i], &y[i]) {
                    proof {
                        if same_document(tree_of(*a), tree_of(*b)) {
                            lemma_same_elements_prefix(elements_tree(x@), elements_tree(y@), (i + 1) as nat, x.len() as nat);
                        }
                    }
                    return false;
                }
                i = i + 1;
            }
            true
        },
        (JsonValue::Object(x), JsonValue::Object(y)) => {
            proof {
                crate::json::lemma_object_tree(*x);
                crate::json::lemma_object_tree(*y);
            }
            if x.len() != y.len() {
                return false;
            }
            let mut i: usize = 0;
            while i < x.len()
                invariant
                    i <= x.len(),
                    x.len() == y.len(),
                    *a == JsonValue::Object(*x),
                    *b == JsonValue::Object(*y),
                    tree_of(*a) == JsonTree::Object(members_tree(x@)),
                    tree_of(*b) == JsonTree::Object(members_tree(y@)),
                    same_members(members_tree(x@), members_tree(y@), i as nat),
                decreases x.len() - i,
            {
                assert(decreases_to!(*a => (*a)->Object_0));
                assert(decreases_to!(*x => x@));
                assert(decreases_to!(x@ => x@[i as int]));
                assert(decreases_to!(x@[i as int] => x@[i as int].1));
                if !crate::text::str_eq(x[i].0.as_str(), y[i].0.as_str()) || !same_json(&x[i].1, &y[i].1) {
                    proof {
                        if same_document(tree_of(*a), tree_of(*b)) {
                            lemma_same_members_prefix(members_tree(x@), members_tree(y@), (i + 1) as nat, x.len() as nat);
                        }
                    }
                    return false;
                }
                i = i + 1;
            }
            true
        },
        _ => {
            proof {
                if *a is Array {
                    crate::json::lemma_array_tree(a->Array_0);
                }
                if *a is Object {
                    crate::json::lemma_object_tree(a->Object_0);
                }
                if *b is Array {
                    crate::json::lemma_array_tree(b->Array_0);
                }
                if *b is Object {
                    crate::json::lemma_object_tree(b->Object_0);
                }
            }
            false
        },
    }
}

/// Whether two response bodies differ once normalised: both JSON documents
/// (`doc_a`, `doc_b`, the bodies as parsed) are compared in normal form;
/// neither, the raw bytes are compared; only one, they differ.
pub open spec fn bodies_differ(
    ignored: Set<Seq<char>>,
    body_a: Seq<u8>,
    doc_a: Option<JsonTree>,
    body_b: Seq<u8>,
    doc_b: Option<JsonTree>,
) -> bool {
    match (doc_a, doc_b) {
        (Some(x), Some(y)) => !same_document(normalized(ignored, x), normalized(ignored, y)),
        (None, None) => body_a != body_b,
        _ => true,
    }
}

pub open spec fn doc_tree(d: Option<JsonValue>) -> Option<JsonTree> {
    match d {
        Some(v) => Some(tree_of(v)),
        None => None,
    }
}

impl Scorer {
    /// In how many respects (status, normalised body) two responses differ;
    /// each counts half of the pair's score. `doc_a` and `doc_b` are the
    /// bodies parsed as JSON, when they parse.
    pub fn pair_differences(
        &self,
        status_a: u16,
        status_b: u16,
        body_a: &[u8],
        doc_a: Option<JsonValue>,
        body_b: &[u8],
        doc_b: Option<JsonValue>,
    ) -> (r: u8)
        ensures
            r == (if status_a != status_b { 1int } else { 0int }) + (if bodies_differ(
                self.normalizer.ignored(),
                body_a@,
                doc_tree(doc_a),
                body_b@,
                doc_tree(doc_b),
            ) {
                1int
            } else {
                0int
            }),
    {
        let status: u8 = if status_a != status_b { 1 } else { 0 };
        let body_differs = match (doc_a, doc_b) {
            (Some(x), Some(y)) => {
                let nx = self.normalizer.normalized_value(x);
                let ny = self.normalizer.normalized_value(y);
                !same_json(&nx, &ny)
            },
            (None, None) => !crate::diff::bytes_equal(body_a, body_b),
            _ => true,
        };
        if body_differs {
            status + 1
        } else {
            status
        }
    }
}

proof fn lemma_same_document_reflexive(t: JsonTree)
    ensures
        same_document(t, t),
    decreases t, 0nat,
{
    match t {
        JsonTree::Array(x) => lemma_same_elements_reflexive(x, x.len()),
        JsonTree::Object(x) => lemma_same_members_reflexive(x, x.len()),
        _ => {},
    }
}

proof fn lemma_same_elements_reflexive(x: Seq<JsonTree>, n: nat)
    requires
        n <= x.len(),
    ensures
        same_elements(x, x, n),
    decreases x, n,
{
    if n > 0 {
        assert(decreases_to!(x => x[n - 1]));
        lemma_same_elements_reflexive(x, (n - 1) as nat);
        lemma_same_document_reflexive(x[n - 1]);
    }
}

proof fn lemma_same_members_reflexive(x: Seq<(Seq<char>, JsonTree)>, n: nat)
    requires
        n <= x.len(),
    ensures
        same_members(x, x, n),
    decreases x, n,
{
    if n > 0 {
        assert(decreases_to!(x => x[n - 1]));
        lemma_same_members_reflexive(x, (n - 1) as nat);
        lemma_same_document_reflexive(x[n - 1].1);
    }
}

/// Two JSON bodies that differ only in noise (keys normalisation drops at
/// any depth, the order of arrays of primitives; see `equal_up_to_noise`)
/// do not count as differing bodies, so a pair of such responses with the
/// same status has no difference (`Scorer::pair_differences` gives 0).
pub proof fn law_noise_is_no_difference(
    ignored: Set<Seq<char>>,
    body_a: Seq<u8>,
    doc_a: JsonTree,
    body_b: Seq<u8>,
    doc_b: JsonTree,
)
    requires
        equal_up_to_noise(ignored, doc_a, doc_b),
    ensures
        !bodies_differ(ignored, body_a, Some(doc_a), body_b, Some(doc_b)),
{
    crate::semantic::law_noise_does_not_matter(ignored, doc_a, doc_b);
    lemma_same_document_reflexive(normalized(ignored, doc_a));
}

/// A document with every number's float mark cleared: what it serialises
/// to depends only on this.
pub open spec fn without_float_marks(t: JsonTree) -> JsonTree
    decreases t,
{
    match t {
        JsonTree::Number(text, _) => JsonTree::Number(text, false),
        JsonTree::Array(x) => JsonTree::Array(
            Seq::new(
                x.len(),
                |i: int|
                    if 0 <= i < x.len() {
                        without_float_marks(x[i])
                    } else {
                        JsonTree::Null
                    },
            ),
        ),
        JsonTree::Object(x) => JsonTree::Object(
            Seq::new(
                x.len(),
                |i: int|
                    if 0 <= i < x.len() {
                        (x[i].0, without_float_marks(x[i].1))
                    } else {
                        (Seq::empty(), JsonTree::Null)
                    },
            ),
        ),
        _ => t,
    }
}

proof fn lemma_same_elements_pointwise(x: Seq<JsonTree>, y: Seq<JsonTree>, n: nat)
    ensures
        same_elements(x, y, n) <==> (n <= x.len() && n <= y.len() && forall|i: int|
            0 <= i < n ==> same_document(#[trigger] x[i], y[i])),
    decreases n,
{
    if n > 0 {
        lemma_same_elements_pointwise(x, y, (n - 1) as nat);
    }
}

proof fn lemma_same_members_pointwise(x: Seq<(Seq<char>, JsonTree)>, y: Seq<(Seq<char>, JsonTree)>, n: nat)
    ensures
        same_members(x, y, n) <==> (n <= x.len() && n <= y.len() && forall|i: int|
            0 <= i < n ==> (#[trigger] x[i]).0 == y[i].0 && same_document(x[i].1, y[i].1)),
    decreases n,
{
    if n > 0 {
        lemma_same_members_pointwise(x, y, (n - 1) as nat);
    }
}

/// Two documents are the same exactly when they are equal once the float
/// marks of their numbers are set aside: same kinds, same strings, numbers
/// with the same text, arrays with the same elements in the same positions,
/// objects with the same members in the same order.
pub proof fn law_same_document_is_equality_up_to_float_marks(a: JsonTree, b: JsonTree)
    ensures
        same_document(a, b) <==> without_float_marks(a) == without_float_marks(b),
    decreases a,
{
    match (a, b) {
        (JsonTree::Array(x), JsonTree::Array(y)) => {
            lemma_same_elements_pointwise(x, y, x.len());
            let ex = without_float_marks(a)->Array_0;
            let ey = without_float_marks(b)->Array_0;
            assert forall|i: int| 0 <= i < x.len() && i < y.len() implies same_document(#[trigger] x[i], y[i])
                == (ex[i] == ey[i]) by {
                assert(decreases_to!(a => x));
                law_same_document_is_equality_up_to_float_marks(x[i], y[i]);
            }
            if same_document(a, b) {
                assert(ex =~= ey);
            }
            if without_float_marks(a) == without_float_marks(b) {
                assert(ex.len() == x.len() && ey.len() == y.len());
                assert forall|i: int| 0 <= i < x.len() implies same_document(#[trigger] x[i], y[i]) by {
                    assert(ex[i] == ey[i]);
                }
            }
        },
        (JsonTree::Object(x), JsonTree::Object(y)) => {
            lemma_same_members_pointwise(x, y, x.len());
            let ex = without_float_marks(a)->Object_0;
            let ey = without_float_marks(b)->Object_0;
            assert forall|i: int| 0 <= i < x.len() && i < y.len() implies ((#[trigger] x[i]).0 == y[i].0 && same_document(
                x[i].1,
                y[i].1,
            )) == (ex[i] == ey[i]) by {
                assert(decreases_to!(a => x));
                assert(decreases_to!(x => x[i]));
                law_same_document_is_equality_up_to_float_marks(x[i].1, y[i].1);
            }
            if same_document(a, b) {
                assert(ex =~= ey);
            }
            if without_float_marks(a) == without_float_marks(b) {
                assert(ex.len() == x.len() && ey.len() == y.len());
                assert forall|i: int| 0 <= i < x.len() implies (#[trigger] x[i]).0 == y[i].0 && same_document(x[i].1, y[i].1) by {
                    assert(ex[i] == ey[i]);
                }
            }
        },
        _ => {},
    }
}

} // verus!
