//! Names under which endpoints are exported as metrics.
use vstd::prelude::*;
use vstd::string::*;

verus! {

/// A character of an endpoint key as it appears in a metric label: spaces
/// and slashes become underscores.
pub open spec fn label_char(c: char) -> char {
    if c == ' ' || c == '/' {
        '_'
    } else {
        c
    }
}

/// An endpoint key as a metric label.
pub open spec fn label_of(endpoint: Seq<char>) -> Seq<char> {
    endpoint.map_values(|c: char| label_char(c))
}

/// The metric label of an endpoint key (`GET /a/b` becomes `GET__a_b`).
pub fn metric_label(endpoint: &str) -> (r: String)
    ensures
        r@ == label_of(endpoint@),
{
    let n = endpoint.unicode_len();
    let mut out = String::new();
    let mut start: usize = 0;
    let mut i: usize = 0;
    proof {
        reveal_strlit("_");
    }
    while i < n
        invariant
            start <= i <= n,
            n == endpoint@.len(),
            out@ == label_of(endpoint@.take(start as int)),
            forall|j: int| start <= j < i ==> endpoint@[j] != ' ' && endpoint@[j] != '/',
            "_"@ == seq!['_'],
        decreases n - i,
    {
        let c = endpoint.get_char(i);
        if c == ' ' || c == '/' {
            let piece = endpoint.substring_char(start, i);
            out.append(piece);
            out.append("_");
            proof {
                assert(label_of(endpoint@.take(i + 1)) =~= label_of(endpoint@.take(start as int)) + piece@ + seq!['_']);
            }
            start = i + 1;
        }
        i = i + 1;
    }
    let piece = endpoint.substring_char(start, n);
    out.append(piece);
    assert(label_of(endpoint@.take(n as int)) =~= label_of(endpoint@.take(start as int)) + piece@);
    assert(endpoint@.take(n as int) =~= endpoint@);
    out
}

} // verus!
