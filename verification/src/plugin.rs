//! What a scoring plugin sees of a pair, and the gRPC scorer that ships with
//! the project.
use vstd::prelude::*;
use crate::text::{contains_run, str_contains};

verus! {

/// The request half of an exchange, as handed to a plugin.
#[derive(Debug)]
pub struct Request {
    pub method: Vec<u8>,
    pub path: Vec<u8>,
    pub body: Vec<u8>,
}

/// The response half of an exchange, as handed to a plugin.
#[derive(Debug)]
pub struct Response {
    pub status: u16,
    pub body: Vec<u8>,
}

/// A plugin's judgement of a pair: no drift (score 0) or drift (score 1).
#[derive(Debug, Clone, Copy, PartialEq, Eq, Structural)]
pub enum PairVerdict {
    Same,
    Diverged,
}

/// The length a gRPC frame declares: the big-endian `u32` after the
/// compression flag.
pub open spec fn declared_length(body: Seq<u8>) -> nat {
    body[1] as nat * 0x100_0000 + body[2] as nat * 0x1_0000 + body[3] as nat * 0x100 + body[4] as nat
}

/// The gRPC scorer's verdict on two response bodies. Without the services'
/// protobuf descriptors the messages cannot be decoded, so any byte of
/// difference between the bodies counts as full drift.
pub open spec fn grpc_verdict(a: Seq<u8>, b: Seq<u8>) -> PairVerdict {
    if a == b {
        PairVerdict::Same
    } else {
        PairVerdict::Diverged
    }
}

/// Scores gRPC responses by their bytes.
#[derive(Debug)]
pub struct GrpcScorer;

fn frame_length(body: &Vec<u8>) -> (r: u64)
    requires
        body.len() >= 5,
    ensures
        r == declared_length(body@),
{
    (body[1] as u64) * 0x100_0000 + (body[2] as u64) * 0x1_0000 + (body[3] as u64) * 0x100 + body[4] as u64
}

impl GrpcScorer {
    /// The verdict on a pair (see `grpc_verdict`); requests are not looked at.
    /// Two framed bodies whose headers declare different message lengths
    /// are told apart by their headers alone.
    pub fn score_pair(req_a: &Request, res_a: &Response, req_b: &Request, res_b: &Response) -> (r: PairVerdict)
        ensures
            r == grpc_verdict(res_a.body@, res_b.body@),
    {
        let a = &res_a.body;
        let b = &res_b.body;
        if a.len() >= 5 && b.len() >= 5 && frame_length(a) != frame_length(b) {
            return PairVerdict::Diverged;
        }
        if crate::diff::bytes_equal(a.as_slice(), b.as_slice()) {
            PairVerdict::Same
        } else {
            PairVerdict::Diverged
        }
    }
}

/// Whether a plugin registered for the patterns `applies_to` scores pairs of
/// `endpoint`: some pattern occurs in the endpoint's key.
pub fn plugin_applies(applies_to: &Vec<String>, endpoint: &str) -> (r: bool)
    ensures
        r == exists|i: int| 0 <= i < applies_to.len() && contains_run(endpoint@, #[trigger] applies_to@[i]@),
{
    let mut i: usize = 0;
    while i < applies_to.len()
        invariant
            i <= applies_to.len(),
            forall|j: int| 0 <= j < i ==> !contains_run(endpoint@, #[trigger] applies_to@[j]@),
        decreases applies_to.len() - i,
    {
        if str_contains(endpoint, applies_to[i].as_str()) {
            return true;
        }
        i = i + 1;
    }
    false
}

} // verus!
