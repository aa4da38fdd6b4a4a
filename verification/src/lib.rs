//! DriftMap: runtime semantic diffing of two live HTTP services.
pub mod text;
pub mod clock;
pub mod http;
pub mod keyed;
pub mod matcher;
pub mod diff;
pub mod probe;
pub mod capture;
pub mod json;
pub mod schema;
pub mod semantic;
pub mod scorer;
pub mod state;
pub mod plugin;
pub mod config;
pub mod dashboard;
pub mod pipeline;
pub mod export;

pub use crate::matcher::{MatchedPair, Target};
pub use crate::scorer::Scorer;

use vstd::prelude::*;
use crate::json::JsonValue;
use crate::scorer::{bodies_differ, doc_tree};
use crate::semantic::{names_of, default_ignored};

verus! {

/// A session for diffing pairs of responses programmatically.
pub struct DriftSession {
    scorer: Scorer,
}

impl DriftSession {
    /// The session's scorer.
    pub closed spec fn scorer(&self) -> Scorer {
        self.scorer
    }

    /// A session whose normalizer ignores `ignore_fields` and the default
    /// names.
    pub fn new(ignore_fields: Vec<String>) -> (r: DriftSession)
        ensures
            r.scorer().wf(),
            r.scorer().normalizer.ignored() == names_of(ignore_fields@) + default_ignored(),
            r.scorer().recent_diffs.queues() == Map::<Seq<char>, Seq<crate::diff::RawProtocolDivergence>>::empty(),
    {
        let scorer = Scorer::new(ignore_fields);
        assert(scorer.recent_diffs.queues() =~= Map::<Seq<char>, Seq<crate::diff::RawProtocolDivergence>>::empty());
        DriftSession { scorer }
    }

    /// In how many respects two responses differ (see
    /// `Scorer::pair_differences`); the pair's score is half that number.
    pub fn differences(
        &self,
        status_a: u16,
        status_b: u16,
        body_a: &[u8],
        doc_a: Option<JsonValue>,
        body_b: &[u8],
        doc_b: Option<JsonValue>,
    ) -> (r: u8)
        ensures
            r == (if status_a != status_b { 1int } else { 0int }) + (if bodies_differ(
                self.scorer().normalizer.ignored(),
                body_a@,
                doc_tree(doc_a),
                body_b@,
                doc_tree(doc_b),
            ) {
                1int
            } else {
                0int
            }),
    {
        self.scorer.pair_differences(status_a, status_b, body_a, doc_a, body_b, doc_b)
    }
}

} // verus!
