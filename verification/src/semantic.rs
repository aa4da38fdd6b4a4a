//! Normalisation of JSON bodies, so that two responses that differ only in
//! identifiers, secrets, timestamps, UUIDs or the order of primitive array
//! elements compare equal.
use vstd::prelude::*;
use vstd::utf8::encode_utf8;
use crate::json::{JsonTree, JsonValue, tree_of, members_tree, elements_tree};
use crate::text::str_eq;

verus! {

// ---------------------------------------------------------------------------
// Text order
// ---------------------------------------------------------------------------

/// Lexicographic order of texts by code point, which is the byte order of
/// their UTF-8 encodings (the order of `String`'s `Ord`).
pub open spec fn text_le(a: Seq<char>, b: Seq<char>) -> bool
    decreases a.len(),
{
    if a.len() == 0 {
        true
    } else if b.len() == 0 {
        false
    } else if a[0] != b[0] {
        (a[0] as u32) < (b[0] as u32)
    } else {
        text_le(a.drop_first(), b.drop_first())
    }
}

/// `a <= b` in `text_le` order.
pub fn text_le_exec(a: &str, b: &str) -> (r: bool)
    ensures
        r == text_le(a@, b@),
{
    let n = a.unicode_len();
    let m = b.unicode_len();
    let mut i: usize = 0;
    assert(a@.skip(0) =~= a@);
    assert(b@.skip(0) =~= b@);
    while i < n && i < m
        invariant
            i <= n,
            i <= m,
            n == a@.len(),
            m == b@.len(),
            text_le(a@, b@) == text_le(a@.skip(i as int), b@.skip(i as int)),
        decreases n - i,
    {
        let ca = a.get_char(i);
        let cb = b.get_char(i);
        proof {
            assert(a@.skip(i as int).drop_first() =~= a@.skip(i + 1));
            assert(b@.skip(i as int).drop_first() =~= b@.skip(i + 1));
            assert(a@.skip(i as int)[0] == ca);
            assert(b@.skip(i as int)[0] == cb);
        }
        if ca != cb {
            return (ca as u32) < (cb as u32);
        }
        i = i + 1;
    }
    i == n
}

// ---------------------------------------------------------------------------
// Characters
// ---------------------------------------------------------------------------

pub open spec fn is_dash() -> spec_fn(char) -> bool {
    |c: char| c == '-'
}

/// Whether `c` occurs in `s`.
fn has_char(s: &str, c: char) -> (r: bool)
    ensures
        r == s@.contains(c),
{
    let n = s.unicode_len();
    let mut i: usize = 0;
    while i < n
        invariant
            i <= n,
            n == s@.len(),
            forall|j: int| 0 <= j < i ==> s@[j] != c,
        decreases n - i,
    {
        if s.get_char(i) == c {
            assert(s@[i as int] == c);
            return true;
        }
        i = i + 1;
    }
    false
}

/// The number of dashes in `s`.
fn dash_count(s: &str) -> (r: usize)
    ensures
        r == s@.filter(is_dash()).len(),
{
    let n = s.unicode_len();
    let mut i: usize = 0;
    let mut count: usize = 0;
    assert(s@.take(0).filter(is_dash()) =~= Seq::<char>::empty());
    while i < n
        invariant
            i <= n,
            n == s@.len(),
            count == s@.take(i as int).filter(is_dash()).len(),
            count <= i,
        decreases n - i,
    {
        let c = s.get_char(i);
        proof {
            assert(s@.take(i + 1) =~= s@.take(i as int).push(c));
            s@.take(i as int).lemma_filter_push(c, is_dash());
        }
        if c == '-' {
            count = count + 1;
        }
        i = i + 1;
    }
    assert(s@.take(n as int) =~= s@);
    count
}

/// Looks like an ISO-8601 timestamp: at least 19 bytes long and holding a
/// `-`, a `T` and a `:`.
pub open spec fn timestamp_like(s: Seq<char>) -> bool {
    &&& encode_utf8(s).len() >= 19
    &&& s.contains('-')
    &&& s.contains('T')
    &&& s.contains(':')
}

/// Looks like a UUID: 36 bytes long with exactly four dashes.
pub open spec fn uuid_like(s: Seq<char>) -> bool {
    encode_utf8(s).len() == 36 && s.filter(is_dash()).len() == 4
}

fn is_timestamp_like(s: &str) -> (r: bool)
    ensures
        r == timestamp_like(s@),
{
    s.as_bytes().len() >= 19 && has_char(s, '-') && has_char(s, 'T') && has_char(s, ':')
}

fn is_uuid_like(s: &str) -> (r: bool)
    ensures
        r == uuid_like(s@),
{
    s.as_bytes().len() == 36 && dash_count(s) == 4
}

// ---------------------------------------------------------------------------
// The normal form
// ---------------------------------------------------------------------------

/// A member that normalisation removes: its name is ignored, or its value is
/// a string that looks like a timestamp or a UUID.
pub open spec fn dropped_member(ignored: Set<Seq<char>>) -> spec_fn((Seq<char>, JsonTree)) -> bool {
    |m: (Seq<char>, JsonTree)|
        ignored.contains(m.0) || match m.1 {
            JsonTree::Str(s) => timestamp_like(s) || uuid_like(s),
            _ => false,
        }
}

pub open spec fn kept_member(ignored: Set<Seq<char>>) -> spec_fn((Seq<char>, JsonTree)) -> bool {
    |m: (Seq<char>, JsonTree)| !dropped_member(ignored)(m)
}

/// Strings, numbers and booleans.
pub open spec fn is_primitive(t: JsonTree) -> bool {
    t is Str || t is Number || t is Bool
}

pub open spec fn all_primitive(s: Seq<JsonTree>) -> bool {
    forall|i: int| 0 <= i < s.len() ==> is_primitive(#[trigger] s[i])
}

/// A lowercase hexadecimal digit.
pub open spec fn hex_digit(d: u32) -> char {
    if d < 10 {
        ((0x30 + d) as u32) as char
    } else {
        ((0x61 + d - 10) as u32) as char
    }
}

/// How `serde_json` writes one character inside a string literal: `"` and
/// `\` behind a backslash; backspace, form feed, line feed, carriage return
/// and tab as `\b`, `\f`, `\n`, `\r`, `\t`; the other characters below
/// U+0020 as `\u00` and two lowercase hex digits; every other character as
/// itself.
pub open spec fn json_escaped_char(c: char) -> Seq<char> {
    let n = c as u32;
    if c == '"' {
        seq!['\\', '"']
    } else if c == '\\' {
        seq!['\\', '\\']
    } else if n == 0x08 {
        seq!['\\', 'b']
    } else if n == 0x0c {
        seq!['\\', 'f']
    } else if n == 0x0a {
        seq!['\\', 'n']
    } else if n == 0x0d {
        seq!['\\', 'r']
    } else if n == 0x09 {
        seq!['\\', 't']
    } else if n < 0x20 {
        seq!['\\', 'u', '0', '0', hex_digit(n / 16), hex_digit(n % 16)]
    } else {
        seq![c]
    }
}

/// The characters of `s`, each escaped as `serde_json` writes it.
pub open spec fn json_escaped(s: Seq<char>) -> Seq<char>
    decreases s.len(),
{
    if s.len() == 0 {
        Seq::empty()
    } else {
        json_escaped(s.drop_last()) + json_escaped_char(s.last())
    }
}

/// What `serde_json` writes for a string: a quote, the escaped characters,
/// a quote.
pub open spec fn json_quoted(s: Seq<char>) -> Seq<char> {
    seq!['"'] + json_escaped(s) + seq!['"']
}

/// The JSON text of a primitive value, by which arrays of primitives are
/// ordered: a string quoted, a number as written, `true` or `false`.
pub open spec fn text_of(t: JsonTree) -> Seq<char> {
    match t {
        JsonTree::Str(s) => json_quoted(s),
        JsonTree::Number(text, _) => text,
        JsonTree::Bool(b) => if b {
            "true"@
        } else {
            "false"@
        },
        _ => Seq::empty(),
    }
}

/// `x` inserted into `s` after the last element whose text is at most its own.
pub open spec fn insert_by_text(s: Seq<JsonTree>, x: JsonTree) -> Seq<JsonTree>
    decreases s.len(),
{
    if s.len() == 0 {
        seq![x]
    } else if text_le(text_of(s.last()), text_of(x)) {
        s.push(x)
    } else {
        insert_by_text(s.drop_last(), x).push(s.last())
    }
}

/// `s` sorted by text; elements with equal texts keep their order.
pub open spec fn sort_by_text(s: Seq<JsonTree>) -> Seq<JsonTree>
    decreases s.len(),
{
    if s.len() == 0 {
        s
    } else {
        insert_by_text(sort_by_text(s.drop_last()), s.last())
    }
}

/// The normal form of a JSON value given the ignored field names: objects
/// lose dropped members and have their members normalised; arrays have their
/// elements normalised and, when all are primitive, sorted by text.
pub open spec fn normalized(ignored: Set<Seq<char>>, t: JsonTree) -> JsonTree
    decreases t, 0nat,
{
    match t {
        JsonTree::Object(ms) => JsonTree::Object(normalized_members(ignored, ms, ms.len()).filter(kept_member(ignored))),
        JsonTree::Array(a) => {
            let b = normalized_elements(ignored, a, a.len());
            if all_primitive(b) {
                JsonTree::Array(sort_by_text(b))
            } else {
                JsonTree::Array(b)
            }
        },
        _ => t,
    }
}

/// The first `n` members of an object, each with its value normalised.
pub open spec fn normalized_members(ignored: Set<Seq<char>>, ms: Seq<(Seq<char>, JsonTree)>, n: nat) -> Seq<(Seq<char>, JsonTree)>
    decreases ms, n,
{
    if n == 0 || n > ms.len() {
        Seq::empty()
    } else {
        proof {
            assert(decreases_to!(ms => ms[n - 1]));
        }
        normalized_members(ignored, ms, (n - 1) as nat).push((ms[n - 1].0, normalized(ignored, ms[n - 1].1)))
    }
}

/// The first `n` elements of an array, each normalised.
pub open spec fn normalized_elements(ignored: Set<Seq<char>>, a: Seq<JsonTree>, n: nat) -> Seq<JsonTree>
    decreases a, n,
{
    if n == 0 || n > a.len() {
        Seq::empty()
    } else {
        normalized_elements(ignored, a, (n - 1) as nat).push(normalized(ignored, a[n - 1]))
    }
}

/// `serde_json::to_string` on a string: the quoted JSON literal, escaped as
/// its escape table says (see `json_escaped_char`). It does not fail on a
/// string.
#[verifier::external_body]
fn json_string_literal(s: &str) -> (r: String)
    ensures
        r@ == json_quoted(s@),
{
    match serde_json::to_string(s) {
        Ok(t) => t,
        Err(_) => String::new(),
    }
}

/// The JSON text of a primitive value (see `text_of`).
fn text_key(v: &JsonValue) -> (r: String)
    requires
        is_primitive(tree_of(*v)),
    ensures
        r@ == text_of(tree_of(*v)),
{
    match v {
        JsonValue::String(s) => {
            assert(tree_of(*v) == JsonTree::Str(s@));
            json_string_literal(s.as_str())
        },
        JsonValue::Number(n) => {
            assert(tree_of(*v) == JsonTree::Number(n.text@, n.is_f64));
            n.text.clone()
        },
        JsonValue::Bool(b) => {
            assert(tree_of(*v) == JsonTree::Bool(*b));
            if *b {
                "true".to_string()
            } else {
                "false".to_string()
            }
        },
        JsonValue::Null => String::new(),
        JsonValue::Array(a) => {
            proof {
                crate::json::lemma_array_tree(*a);
            }
            String::new()
        },
        JsonValue::Object(o) => {
            proof {
                crate::json::lemma_object_tree(*o);
            }
            String::new()
        },
    }
}

// ---------------------------------------------------------------------------
// Sorting
// ---------------------------------------------------------------------------

proof fn lemma_insert_at(s: Seq<JsonTree>, x: JsonTree, p: int)
    requires
        0 <= p <= s.len(),
        forall|j: int| p <= j < s.len() ==> !text_le(text_of(#[trigger] s[j]), text_of(x)),
        p > 0 ==> text_le(text_of(s[p - 1]), text_of(x)),
    ensures
        insert_by_text(s, x) == s.insert(p, x),
    decreases s.len(),
{
    if s.len() == 0 {
        assert(s.insert(p, x) =~= seq![x]);
    } else if p == s.len() {
        assert(s.insert(p, x) =~= s.push(x));
    } else {
        assert(!text_le(text_of(s[s.len() - 1]), text_of(x)));
        let d = s.drop_last();
        assert forall|j: int| p <= j < d.len() implies !text_le(text_of(#[trigger] d[j]), text_of(x)) by {
            assert(d[j] == s[j]);
        }
        lemma_insert_at(d, x, p);
        assert(d.insert(p, x).push(s.last()) =~= s.insert(p, x));
    }
}

/// `items` sorted by text, stably (see `sort_by_text`).
fn sort_primitives(items: Vec<JsonValue>) -> (r: Vec<JsonValue>)
    requires
        all_primitive(elements_tree(items@)),
    ensures
        elements_tree(r@) == sort_by_text(elements_tree(items@)),
{
    let ghost all = elements_tree(items@);
    let n = items.len();
    let mut rest = items;
    let mut out: Vec<JsonValue> = Vec::new();
    let mut keys: Vec<String> = Vec::new();
    let mut i: usize = 0;
    assert(all.take(0) =~= Seq::<JsonTree>::empty());
    while i < n
        invariant
            i <= n,
            n == all.len(),
            all_primitive(all),
            rest.len() == n - i,
            elements_tree(rest@) == all.skip(i as int),
            elements_tree(out@) == sort_by_text(all.take(i as int)),
            keys.len() == out.len(),
            forall|j: int| 0 <= j < keys.len() ==> (#[trigger] keys@[j])@ == text_of(elements_tree(out@)[j]),
        decreases n - i,
    {
        let ghost sorted = elements_tree(out@);
        let ghost before_rest = rest@;
        let x = rest.remove(0);
        proof {
            assert(before_rest[0] == x);
            assert(elements_tree(before_rest)[0] == tree_of(x));
            assert(all.skip(i as int)[0] == tree_of(x));
            assert(rest@ =~= before_rest.drop_first());
            assert forall|j: int| 0 <= j < rest.len() implies elements_tree(rest@)[j] == all.skip(i + 1)[j] by {
                assert(elements_tree(before_rest)[j + 1] == all.skip(i as int)[j + 1]);
            }
            assert(elements_tree(rest@) =~= all.skip(i + 1));
            assert(is_primitive(all[i as int]));
        }
        let kx = text_key(&x);
        let mut p: usize = out.len();
        while p > 0 && !text_le_exec(keys[p - 1].as_str(), kx.as_str())
            invariant
                p <= out.len(),
                keys.len() == out.len(),
                sorted == elements_tree(out@),
                forall|j: int| 0 <= j < keys.len() ==> (#[trigger] keys@[j])@ == text_of(sorted[j]),
                kx@ == text_of(tree_of(x)),
                forall|j: int| p <= j < sorted.len() ==> !text_le(text_of(#[trigger] sorted[j]), text_of(tree_of(x))),
            decreases p,
        {
            p = p - 1;
        }
        proof {
            if p > 0 {
                assert(keys@[p - 1]@ == text_of(sorted[p - 1]));
            }
            lemma_insert_at(sorted, tree_of(x), p as int);
            assert(all.take(i + 1).drop_last() =~= all.take(i as int));
            assert(all.take(i + 1).last() == all[i as int]);
            assert(all[i as int] == tree_of(x));
        }
        let ghost prev_keys = keys@;
        out.insert(p, x);
        keys.insert(p, kx);
        proof {
            assert(elements_tree(out@) =~= sorted.insert(p as int, tree_of(x)));
            assert forall|j: int| 0 <= j < keys.len() implies (#[trigger] keys@[j])@ == text_of(elements_tree(out@)[j]) by {
                if j < p {
                    assert(keys@[j] == prev_keys[j]);
                } else if j > p {
                    assert(keys@[j] == prev_keys[j - 1]);
                }
            }
        }
        i = i + 1;
    }
    assert(all.take(n as int) =~= all);
    out
}

// ---------------------------------------------------------------------------
// The normalizer
// ---------------------------------------------------------------------------

/// Field names that are never compared, and the rules that drop volatile
/// values.
pub struct SemanticNormalizer {
    pub ignore_fields: Vec<String>,
}

/// The texts of a list of strings, as a set.
pub open spec fn names_of(v: Seq<String>) -> Set<Seq<char>> {
    Set::new(|k: Seq<char>| exists|i: int| 0 <= i < v.len() && #[trigger] v[i]@ == k)
}

/// The names always ignored: identifiers and secrets.
pub open spec fn default_ignored() -> Set<Seq<char>> {
    set![
        "id"@,
        "request_id"@,
        "trace_id"@,
        "password"@,
        "secret"@,
        "token"@,
        "api_key"@,
        "authorization"@,
    ]
}

impl SemanticNormalizer {
    /// The ignored field names.
    pub open spec fn ignored(&self) -> Set<Seq<char>> {
        names_of(self.ignore_fields@)
    }

    /// A normalizer that ignores `ignore_fields` and the default names.
    pub fn new(ignore_fields: Vec<String>) -> (r: SemanticNormalizer)
        ensures
            r.ignored() == names_of(ignore_fields@) + default_ignored(),
    {
        let mut set = ignore_fields;
        let ghost given = set@;
        set.push("id".to_string());
        set.push("request_id".to_string());
        set.push("trace_id".to_string());
        set.push("password".to_string());
        set.push("secret".to_string());
        set.push("token".to_string());
        set.push("api_key".to_string());
        set.push("authorization".to_string());
        let r = SemanticNormalizer { ignore_fields: set };
        proof {
            let g = given.len() as int;
            assert(set@.len() == g + 8);
            assert forall|k: Seq<char>| r.ignored().contains(k) <==> (names_of(given) + default_ignored()).contains(k) by {
                if names_of(given).contains(k) {
                    let i = choose|i: int| 0 <= i < given.len() && #[trigger] given[i]@ == k;
                    assert(set@[i] == given[i]);
                }
                if default_ignored().contains(k) {
                    if k == "id"@ { assert(set@[g]@ == k); }
                    else if k == "request_id"@ { assert(set@[g + 1]@ == k); }
                    else if k == "trace_id"@ { assert(set@[g + 2]@ == k); }
                    else if k == "password"@ { assert(set@[g + 3]@ == k); }
                    else if k == "secret"@ { assert(set@[g + 4]@ == k); }
                    else if k == "token"@ { assert(set@[g + 5]@ == k); }
                    else if k == "api_key"@ { assert(set@[g + 6]@ == k); }
                    else { assert(set@[g + 7]@ == k); }
                }
                if r.ignored().contains(k) {
                    let i = choose|i: int| 0 <= i < set@.len() && #[trigger] set@[i]@ == k;
                    if i < g {
                        assert(given[i] == set@[i]);
                    }
                }
            }
            assert(r.ignored() =~= names_of(given) + default_ignored());
        }
        r
    }

    /// Whether `name` is an ignored field name.
    pub fn is_ignored(&self, name: &str) -> (r: bool)
        ensures
            r == self.ignored().contains(name@),
    {
        let mut i: usize = 0;
        while i < self.ignore_fields.len()
            invariant
                i <= self.ignore_fields.len(),
                forall|j: int| 0 <= j < i ==> (#[trigger] self.ignore_fields@[j])@ != name@,
            decreases self.ignore_fields.len() - i,
        {
            if str_eq(self.ignore_fields[i].as_str(), name) {
                assert(self.ignore_fields@[i as int]@ == name@);
                return true;
            }
            i = i + 1;
        }
        false
    }

    /// Whether normalisation removes the member `(name, value)`.
    fn drops(&self, name: &String, value: &JsonValue) -> (r: bool)
        ensures
            r == dropped_member(self.ignored())((name@, tree_of(*value))),
    {
        if self.is_ignored(name.as_str()) {
            return true;
        }
        match value {
            JsonValue::String(s) => {
                assert(tree_of(*value) == JsonTree::Str(s@));
                is_timestamp_like(s.as_str()) || is_uuid_like(s.as_str())
            },
            JsonValue::Null => false,
            JsonValue::Bool(b) => {
                assert(tree_of(*value) == JsonTree::Bool(*b));
                false
            },
            JsonValue::Number(n) => {
                assert(tree_of(*value) == JsonTree::Number(n.text@, n.is_f64));
                false
            },
            JsonValue::Array(a) => {
                proof {
                    crate::json::lemma_array_tree(*a);
                }
                false
            },
            JsonValue::Object(o) => {
                proof {
                    crate::json::lemma_object_tree(*o);
                }
                false
            },
        }
    }
}

proof fn lemma_normalized_shape(ignored: Set<Seq<char>>, t: JsonTree)
    ensures
        is_primitive(t) ==> normalized(ignored, t) == t,
        is_primitive(normalized(ignored, t)) == is_primitive(t),
        (normalized(ignored, t) is Str) == (t is Str),
{
}

proof fn lemma_kept_after_normalizing(ignored: Set<Seq<char>>, name: Seq<char>, t: JsonTree)
    ensures
        kept_member(ignored)((name, normalized(ignored, t))) == kept_member(ignored)((name, t)),
{
    lemma_normalized_shape(ignored, t);
}

fn is_primitive_value(v: &JsonValue) -> (r: bool)
    ensures
        r == is_primitive(tree_of(*v)),
{
    match v {
        JsonValue::String(s) => {
            assert(tree_of(*v) == JsonTree::Str(s@));
            true
        },
        JsonValue::Number(n) => {
            assert(tree_of(*v) == JsonTree::Number(n.text@, n.is_f64));
            true
        },
        JsonValue::Bool(b) => {
            assert(tree_of(*v) == JsonTree::Bool(*b));
            true
        },
        JsonValue::Null => false,
        JsonValue::Array(a) => {
            proof {
                crate::json::lemma_array_tree(*a);
            }
            false
        },
        JsonValue::Object(o) => {
            proof {
                crate::json::lemma_object_tree(*o);
            }
            false
        },
    }
}

impl SemanticNormalizer {
    /// The normal form of `value` (see `normalized`).
    pub fn normalized_value(&self, value: JsonValue) -> (r: JsonValue)
        ensures
            tree_of(r) == normalized(self.ignored(), tree_of(value)),
        decreases value,
    {
        let ghost ign = self.ignored();
        let ghost whole = value;
        match value {
            JsonValue::Object(m) => {
                let ghost m0 = m;
                let ghost mt = members_tree(m@);
                let n = m.len();
                let mut rest = m;
                let mut out: Vec<(String, JsonValue)> = Vec::new();
                let mut i: usize = 0;
                assert(normalized_members(ign, mt, 0).filter(kept_member(ign)) =~= Seq::<(Seq<char>, JsonTree)>::empty());
                while i < n
                    invariant
                        i <= n,
                        n == mt.len(),
                        n == m0.len(),
                        whole == JsonValue::Object(m0),
                        whole == value,
                        mt == members_tree(m0@),
                        ign == self.ignored(),
                        rest@ == m0@.skip(i as int),
                        members_tree(out@) == normalized_members(ign, mt, i as nat).filter(kept_member(ign)),
                    decreases n - i,
                {
                    let ghost before_out = out@;
                    let ghost done = normalized_members(ign, mt, i as nat);
                    let (k, val) = rest.remove(0);
                    proof {
                        assert(m0@.skip(i as int)[0] == (k, val));
                        assert(m0@[i as int] == (k, val));
                        assert(rest@ =~= m0@.skip(i + 1));
                    }
                    let keep = !self.drops(&k, &val);
                    assert(decreases_to!(whole => whole->Object_0));
                    assert(decreases_to!(m0 => m0@));
                    assert(decreases_to!(m0@ => m0@[i as int]));
                    assert(decreases_to!(m0@[i as int] => m0@[i as int].1));
                    let ghost vt = tree_of(val);
                    let nv = self.normalized_value(val);
                    let ghost entry = (k@, tree_of(nv));
                    proof {
                        assert(mt[i as int] == (k@, vt));
                        assert(normalized_members(ign, mt, (i + 1) as nat) == done.push(entry));
                        lemma_kept_after_normalizing(ign, k@, vt);
                        done.lemma_filter_push(entry, kept_member(ign));
                    }
                    if keep {
                        out.push((k, nv));
                        proof {
                            assert(out@.drop_last() =~= before_out);
                            assert(members_tree(out@) =~= members_tree(before_out).push(entry));
                        }
                    }
                    i = i + 1;
                }
                let r = JsonValue::Object(out);
                proof {
                    crate::json::lemma_object_tree(m0);
                    crate::json::lemma_object_tree(out);
                }
                r
            },
            JsonValue::Array(a) => {
                let ghost a0 = a;
                let ghost at = elements_tree(a@);
                let n = a.len();
                let mut rest = a;
                let mut out: Vec<JsonValue> = Vec::new();
                let mut i: usize = 0;
                let mut primitive = true;
                assert(normalized_elements(ign, at, 0) =~= Seq::<JsonTree>::empty());
                while i < n
                    invariant
                        i <= n,
                        n == at.len(),
                        n == a0.len(),
                        whole == JsonValue::Array(a0),
                        whole == value,
                        at == elements_tree(a0@),
                        ign == self.ignored(),
                        rest@ == a0@.skip(i as int),
                        out.len() == i,
                        elements_tree(out@) == normalized_elements(ign, at, i as nat),
                        primitive == all_primitive(normalized_elements(ign, at, i as nat)),
                    decreases n - i,
                {
                    let ghost before_out = out@;
                    let val = rest.remove(0);
                    proof {
                        assert(a0@.skip(i as int)[0] == val);
                        assert(a0@[i as int] == val);
                        assert(rest@ =~= a0@.skip(i + 1));
                    }
                    assert(decreases_to!(whole => whole->Array_0));
                    assert(decreases_to!(a0 => a0@));
                    assert(decreases_to!(a0@ => a0@[i as int]));
                    let nv = self.normalized_value(val);
                    let p = is_primitive_value(&nv);
                    primitive = primitive && p;
                    out.push(nv);
                    proof {
                        let pre = normalized_elements(ign, at, i as nat);
                        let post = normalized_elements(ign, at, (i + 1) as nat);
                        assert(at[i as int] == tree_of(val));
                        assert(post == pre.push(tree_of(nv)));
                        if all_primitive(pre) && p {
                            assert forall|j: int| 0 <= j < post.len() implies is_primitive(#[trigger] post[j]) by {
                                if j < i {
                                    assert(post[j] == pre[j]);
                                }
                            }
                        }
                        if all_primitive(post) {
                            assert(is_primitive(post[i as int]));
                            assert forall|j: int| 0 <= j < pre.len() implies is_primitive(#[trigger] pre[j]) by {
                                assert(post[j] == pre[j]);
                            }
                        }
                        assert(out@.drop_last() =~= before_out);
                        assert(elements_tree(out@) =~= post);
                    }
                    i = i + 1;
                }
                proof {
                    crate::json::lemma_array_tree(a0);
                }
                let items = if primitive {
                    sort_primitives(out)
                } else {
                    out
                };
                let r = JsonValue::Array(items);
                proof {
                    crate::json::lemma_array_tree(items);
                }
                r
            },
            other => {
                proof {
                    assert(!(other is Object) && !(other is Array));
                }
                other
            },
        }
    }

    /// Replaces `value` by its normal form (see `normalized`).
    pub fn normalize_value(&self, value: &mut JsonValue)
        ensures
            tree_of(*final(value)) == normalized(self.ignored(), tree_of(*old(value))),
    {
        let mut taken = JsonValue::Null;
        std::mem::swap(&mut taken, value);
        *value = self.normalized_value(taken);
    }
}

// ---------------------------------------------------------------------------
// Laws of the text order and of sorting
// ---------------------------------------------------------------------------

proof fn lemma_text_le_reflexive(a: Seq<char>)
    ensures
        text_le(a, a),
    decreases a.len(),
{
    if a.len() > 0 {
        lemma_text_le_reflexive(a.drop_first());
    }
}

proof fn lemma_text_le_total(a: Seq<char>, b: Seq<char>)
    ensures
        text_le(a, b) || text_le(b, a),
    decreases a.len(),
{
    if a.len() > 0 && b.len() > 0 {
        if a[0] == b[0] {
            lemma_text_le_total(a.drop_first(), b.drop_first());
        } else {
            vstd::utf8::char_u32_cast(a[0], a[0] as u32);
            vstd::utf8::char_u32_cast(b[0], b[0] as u32);
        }
    }
}

proof fn lemma_text_le_transitive(a: Seq<char>, b: Seq<char>, c: Seq<char>)
    requires
        text_le(a, b),
        text_le(b, c),
    ensures
        text_le(a, c),
    decreases a.len(),
{
    if a.len() > 0 && b.len() > 0 && c.len() > 0 && a[0] == b[0] && b[0] == c[0] {
        lemma_text_le_transitive(a.drop_first(), b.drop_first(), c.drop_first());
    }
}

/// `s` is ordered by the texts of its elements.
pub open spec fn sorted_by_text(s: Seq<JsonTree>) -> bool {
    forall|i: int, j: int| 0 <= i < j < s.len() ==> text_le(text_of(#[trigger] s[i]), text_of(#[trigger] s[j]))
}

/// The elements whose text is `k`.
pub open spec fn has_text(k: Seq<char>) -> spec_fn(JsonTree) -> bool {
    |t: JsonTree| text_of(t) == k
}

proof fn lemma_insert_by_text(s: Seq<JsonTree>, x: JsonTree)
    requires
        sorted_by_text(s),
    ensures
        sorted_by_text(insert_by_text(s, x)),
        insert_by_text(s, x).len() == s.len() + 1,
        forall|y: JsonTree| #[trigger] insert_by_text(s, x).contains(y) ==> y == x || s.contains(y),
        forall|k: Seq<char>|
            #[trigger] insert_by_text(s, x).filter(has_text(k)) == if text_of(x) == k {
                s.filter(has_text(k)).push(x)
            } else {
                s.filter(has_text(k))
            },
    decreases s.len(),
{
    let r = insert_by_text(s, x);
    if s.len() == 0 {
        assert(r == seq![x]);
        assert forall|k: Seq<char>| #[trigger] r.filter(has_text(k)) == if text_of(x) == k {
            s.filter(has_text(k)).push(x)
        } else {
            s.filter(has_text(k))
        } by {
            s.lemma_filter_push(x, has_text(k));
            assert(s.push(x) =~= r);
        }
        assert forall|y: JsonTree| #[trigger] r.contains(y) implies y == x || s.contains(y) by {
            let i = choose|i: int| 0 <= i < r.len() && r[i] == y;
        }
    } else if text_le(text_of(s.last()), text_of(x)) {
        assert(r == s.push(x));
        assert forall|i: int, j: int| 0 <= i < j < r.len() implies text_le(text_of(#[trigger] r[i]), text_of(#[trigger] r[j])) by {
            if j == s.len() {
                if i < s.len() - 1 {
                    assert(text_le(text_of(s[i]), text_of(s[s.len() - 1])));
                    lemma_text_le_transitive(text_of(s[i]), text_of(s.last()), text_of(x));
                }
            } else {
                assert(r[i] == s[i] && r[j] == s[j]);
            }
        }
        assert forall|k: Seq<char>| #[trigger] r.filter(has_text(k)) == if text_of(x) == k {
            s.filter(has_text(k)).push(x)
        } else {
            s.filter(has_text(k))
        } by {
            s.lemma_filter_push(x, has_text(k));
        }
        assert forall|y: JsonTree| #[trigger] r.contains(y) implies y == x || s.contains(y) by {
            let i = choose|i: int| 0 <= i < r.len() && r[i] == y;
            if i < s.len() {
                assert(s[i] == y);
            }
        }
    } else {
        let d = s.drop_last();
        let last = s.last();
        assert(sorted_by_text(d)) by {
            assert forall|i: int, j: int| 0 <= i < j < d.len() implies text_le(text_of(#[trigger] d[i]), text_of(#[trigger] d[j])) by {
                assert(d[i] == s[i] && d[j] == s[j]);
            }
        }
        lemma_insert_by_text(d, x);
        let m = insert_by_text(d, x);
        assert(r == m.push(last));
        lemma_text_le_total(text_of(last), text_of(x));
        assert forall|i: int, j: int| 0 <= i < j < r.len() implies text_le(text_of(#[trigger] r[i]), text_of(#[trigger] r[j])) by {
            if j == m.len() {
                assert(r[j] == last);
                assert(r[i] == m[i]);
                assert(m.contains(m[i]));
                if m[i] == x {
                } else {
                    assert(d.contains(m[i]));
                    let q = choose|q: int| 0 <= q < d.len() && d[q] == m[i];
                    assert(s[q] == d[q]);
                    assert(text_le(text_of(s[q]), text_of(s[s.len() - 1])));
                }
            } else {
                assert(r[i] == m[i] && r[j] == m[j]);
            }
        }
        assert forall|k: Seq<char>| #[trigger] r.filter(has_text(k)) == if text_of(x) == k {
            s.filter(has_text(k)).push(x)
        } else {
            s.filter(has_text(k))
        } by {
            m.lemma_filter_push(last, has_text(k));
            d.lemma_filter_push(last, has_text(k));
            assert(d.push(last) =~= s);
            if text_of(x) == k && text_of(last) == k {
                lemma_text_le_reflexive(k);
            }
        }
        assert forall|y: JsonTree| #[trigger] r.contains(y) implies y == x || s.contains(y) by {
            let i = choose|i: int| 0 <= i < r.len() && r[i] == y;
            if i < m.len() {
                assert(m[i] == y);
                assert(m.contains(y));
                if y != x {
                    assert(d.contains(y));
                    let q = choose|q: int| 0 <= q < d.len() && d[q] == y;
                    assert(s[q] == y);
                }
            } else {
                assert(s[s.len() - 1] == y);
            }
        }
    }
}

/// Arrays of primitives are sorted by text, and sorting is stable: for
/// every text, the elements with that text keep their order.
pub proof fn law_sort_by_text(s: Seq<JsonTree>)
    ensures
        sorted_by_text(sort_by_text(s)),
        sort_by_text(s).len() == s.len(),
        forall|k: Seq<char>| #[trigger] sort_by_text(s).filter(has_text(k)) == s.filter(has_text(k)),
        forall|y: JsonTree| #[trigger] sort_by_text(s).contains(y) ==> s.contains(y),
    decreases s.len(),
{
    if s.len() == 0 {
        assert forall|k: Seq<char>| #[trigger] sort_by_text(s).filter(has_text(k)) == s.filter(has_text(k)) by {}
    } else {
        let d = s.drop_last();
        law_sort_by_text(d);
        lemma_insert_by_text(sort_by_text(d), s.last());
        assert forall|k: Seq<char>| #[trigger] sort_by_text(s).filter(has_text(k)) == s.filter(has_text(k)) by {
            d.lemma_filter_push(s.last(), has_text(k));
            assert(d.push(s.last()) =~= s);
            assert(sort_by_text(d).filter(has_text(k)) == d.filter(has_text(k)));
        }
        assert forall|y: JsonTree| #[trigger] sort_by_text(s).contains(y) implies s.contains(y) by {
            if y == s.last() {
                assert(s[s.len() - 1] == y);
            } else {
                assert(sort_by_text(d).contains(y));
                assert(d.contains(y));
                let q = choose|q: int| 0 <= q < d.len() && d[q] == y;
                assert(s[q] == y);
            }
        }
    }
}

// ---------------------------------------------------------------------------
// Law: nothing that normalisation drops survives it
// ---------------------------------------------------------------------------

/// No object anywhere in the tree has a member that normalisation drops.
pub open spec fn clean(ignored: Set<Seq<char>>, t: JsonTree) -> bool
    decreases t, 0nat,
{
    match t {
        JsonTree::Object(ms) => clean_members(ignored, ms, ms.len()),
        JsonTree::Array(a) => clean_elements(ignored, a, a.len()),
        _ => true,
    }
}

pub open spec fn clean_members(ignored: Set<Seq<char>>, ms: Seq<(Seq<char>, JsonTree)>, n: nat) -> bool
    decreases ms, n,
{
    if n == 0 || n > ms.len() {
        n == 0
    } else {
        proof {
            assert(decreases_to!(ms => ms[n - 1]));
        }
        clean_members(ignored, ms, (n - 1) as nat) && kept_member(ignored)(ms[n - 1]) && clean(ignored, ms[n - 1].1)
    }
}

pub open spec fn clean_elements(ignored: Set<Seq<char>>, a: Seq<JsonTree>, n: nat) -> bool
    decreases a, n,
{
    if n == 0 || n > a.len() {
        n == 0
    } else {
        clean_elements(ignored, a, (n - 1) as nat) && clean(ignored, a[n - 1])
    }
}

proof fn lemma_clean_members(ignored: Set<Seq<char>>, ms: Seq<(Seq<char>, JsonTree)>, n: nat)
    requires
        n <= ms.len(),
        forall|j: int| 0 <= j < n ==> kept_member(ignored)(#[trigger] ms[j]) && clean(ignored, ms[j].1),
    ensures
        clean_members(ignored, ms, n),
    decreases n,
{
    if n > 0 {
        lemma_clean_members(ignored, ms, (n - 1) as nat);
        assert(kept_member(ignored)(ms[n - 1]));
    }
}

proof fn lemma_clean_elements(ignored: Set<Seq<char>>, a: Seq<JsonTree>, n: nat)
    requires
        n <= a.len(),
        forall|j: int| 0 <= j < n ==> clean(ignored, #[trigger] a[j]),
    ensures
        clean_elements(ignored, a, n),
    decreases n,
{
    if n > 0 {
        lemma_clean_elements(ignored, a, (n - 1) as nat);
        assert(clean(ignored, a[n - 1]));
    }
}

proof fn lemma_normalized_members_index(ignored: Set<Seq<char>>, ms: Seq<(Seq<char>, JsonTree)>, n: nat, j: int)
    requires
        n <= ms.len(),
        0 <= j < n,
    ensures
        normalized_members(ignored, ms, n).len() == n,
        normalized_members(ignored, ms, n)[j] == (ms[j].0, normalized(ignored, ms[j].1)),
    decreases n,
{
    let prev = normalized_members(ignored, ms, (n - 1) as nat);
    assert(normalized_members(ignored, ms, n) == prev.push((ms[n - 1].0, normalized(ignored, ms[n - 1].1))));
    if n == 1 {
        assert(prev.len() == 0);
    } else if j < n - 1 {
        lemma_normalized_members_index(ignored, ms, (n - 1) as nat, j);
    } else {
        lemma_normalized_members_index(ignored, ms, (n - 1) as nat, 0);
    }
}

proof fn lemma_normalized_elements_index(ignored: Set<Seq<char>>, a: Seq<JsonTree>, n: nat, j: int)
    requires
        n <= a.len(),
        0 <= j < n,
    ensures
        normalized_elements(ignored, a, n).len() == n,
        normalized_elements(ignored, a, n)[j] == normalized(ignored, a[j]),
    decreases n,
{
    let prev = normalized_elements(ignored, a, (n - 1) as nat);
    assert(normalized_elements(ignored, a, n) == prev.push(normalized(ignored, a[n - 1])));
    if n == 1 {
        assert(prev.len() == 0);
    } else if j < n - 1 {
        lemma_normalized_elements_index(ignored, a, (n - 1) as nat, j);
    } else {
        lemma_normalized_elements_index(ignored, a, (n - 1) as nat, 0);
    }
}

/// Normalisation removes every ignored field, timestamp and UUID member, at
/// every depth.
pub proof fn law_normalized_is_clean(ignored: Set<Seq<char>>, t: JsonTree)
    ensures
        clean(ignored, normalized(ignored, t)),
    decreases t,
{
    match t {
        JsonTree::Object(ms) => {
            let nm = normalized_members(ignored, ms, ms.len());
            let kept = nm.filter(kept_member(ignored));
            assert forall|j: int| 0 <= j < kept.len() implies kept_member(ignored)(#[trigger] kept[j]) && clean(ignored, kept[j].1) by {
                nm.lemma_filter_pred(kept_member(ignored), j);
                assert(kept.contains(kept[j]));
                nm.lemma_filter_contains_rev(kept_member(ignored), kept[j]);
                let q = choose|q: int| 0 <= q < nm.len() && nm[q] == kept[j];
                if ms.len() > 0 {
                    lemma_normalized_members_index(ignored, ms, ms.len(), 0);
                }
                lemma_normalized_members_index(ignored, ms, ms.len(), q);
                assert(decreases_to!(t => ms));
                assert(decreases_to!(ms => ms[q]));
                law_normalized_is_clean(ignored, ms[q].1);
            }
            lemma_clean_members(ignored, kept, kept.len());
        },
        JsonTree::Array(a) => {
            let b = normalized_elements(ignored, a, a.len());
            if a.len() > 0 {
                lemma_normalized_elements_index(ignored, a, a.len(), 0);
            }
            assert forall|j: int| 0 <= j < b.len() implies clean(ignored, #[trigger] b[j]) by {
                lemma_normalized_elements_index(ignored, a, a.len(), j);
                assert(decreases_to!(t => a));
                law_normalized_is_clean(ignored, a[j]);
            }
            if all_primitive(b) {
                let sorted = sort_by_text(b);
                law_sort_by_text(b);
                assert forall|j: int| 0 <= j < sorted.len() implies clean(ignored, #[trigger] sorted[j]) by {
                    assert(sorted.contains(sorted[j]));
                    let q = choose|q: int| 0 <= q < b.len() && b[q] == sorted[j];
                    assert(clean(ignored, b[q]));
                }
                lemma_clean_elements(ignored, sorted, sorted.len());
            } else {
                lemma_clean_elements(ignored, b, b.len());
            }
        },
        _ => {},
    }
}

// ---------------------------------------------------------------------------
// Law: the normal form is stable
// ---------------------------------------------------------------------------

proof fn lemma_filter_keeps_all<A>(s: Seq<A>, p: spec_fn(A) -> bool)
    requires
        forall|i: int| 0 <= i < s.len() ==> p(#[trigger] s[i]),
    ensures
        s.filter(p) == s,
    decreases s.len(),
{
    if s.len() > 0 {
        let d = s.drop_last();
        lemma_filter_keeps_all(d, p);
        d.lemma_filter_push(s.last(), p);
        assert(d.push(s.last()) =~= s);
    } else {
        assert(s.filter(p) =~= s);
    }
}

proof fn lemma_sort_sorted(s: Seq<JsonTree>)
    requires
        sorted_by_text(s),
    ensures
        sort_by_text(s) == s,
    decreases s.len(),
{
    if s.len() > 0 {
        let d = s.drop_last();
        assert(sorted_by_text(d)) by {
            assert forall|i: int, j: int| 0 <= i < j < d.len() implies text_le(text_of(#[trigger] d[i]), text_of(#[trigger] d[j])) by {
                assert(d[i] == s[i] && d[j] == s[j]);
            }
        }
        lemma_sort_sorted(d);
        if d.len() > 0 {
            assert(text_le(text_of(s[s.len() - 2]), text_of(s[s.len() - 1])));
            assert(d.last() == s[s.len() - 2]);
            assert(d.push(s.last()) =~= s);
        } else {
            assert(seq![s.last()] =~= s);
        }
    }
}

/// Normalising a normal form changes nothing.
pub proof fn law_normalized_is_stable(ignored: Set<Seq<char>>, t: JsonTree)
    ensures
        normalized(ignored, normalized(ignored, t)) == normalized(ignored, t),
    decreases t,
{
    match t {
        JsonTree::Object(ms) => {
            let nm = normalized_members(ignored, ms, ms.len());
            let f = nm.filter(kept_member(ignored));
            if ms.len() > 0 {
                lemma_normalized_members_index(ignored, ms, ms.len(), 0);
            } else {
                assert(nm =~= Seq::<(Seq<char>, JsonTree)>::empty());
            }
            let g = normalized_members(ignored, f, f.len());
            if f.len() > 0 {
                lemma_normalized_members_index(ignored, f, f.len(), 0);
            } else {
                assert(g =~= Seq::<(Seq<char>, JsonTree)>::empty());
            }
            assert forall|j: int| 0 <= j < f.len() implies #[trigger] g[j] == f[j] && kept_member(ignored)(f[j]) by {
                lemma_normalized_members_index(ignored, f, f.len(), j);
                nm.lemma_filter_pred(kept_member(ignored), j);
                assert(f.contains(f[j]));
                nm.lemma_filter_contains_rev(kept_member(ignored), f[j]);
                let q = choose|q: int| 0 <= q < nm.len() && nm[q] == f[j];
                lemma_normalized_members_index(ignored, ms, ms.len(), q);
                assert(decreases_to!(t => ms));
                assert(decreases_to!(ms => ms[q]));
                law_normalized_is_stable(ignored, ms[q].1);
            }
            assert(g =~= f);
            lemma_filter_keeps_all(f, kept_member(ignored));
        },
        JsonTree::Array(a) => {
            let b = normalized_elements(ignored, a, a.len());
            if a.len() > 0 {
                lemma_normalized_elements_index(ignored, a, a.len(), 0);
            } else {
                assert(b =~= Seq::<JsonTree>::empty());
            }
            if all_primitive(b) {
                let sb = sort_by_text(b);
                law_sort_by_text(b);
                let c = normalized_elements(ignored, sb, sb.len());
                if sb.len() > 0 {
                    lemma_normalized_elements_index(ignored, sb, sb.len(), 0);
                } else {
                    assert(c =~= Seq::<JsonTree>::empty());
                }
                assert forall|j: int| 0 <= j < sb.len() implies #[trigger] c[j] == sb[j] && is_primitive(sb[j]) by {
                    lemma_normalized_elements_index(ignored, sb, sb.len(), j);
                    assert(sb.contains(sb[j]));
                    let q = choose|q: int| 0 <= q < b.len() && b[q] == sb[j];
                    assert(is_primitive(b[q]));
                    lemma_normalized_shape(ignored, sb[j]);
                }
                assert(c =~= sb);
                lemma_sort_sorted(sb);
            } else {
                let c = normalized_elements(ignored, b, b.len());
                if b.len() > 0 {
                    lemma_normalized_elements_index(ignored, b, b.len(), 0);
                } else {
                    assert(c =~= Seq::<JsonTree>::empty());
                }
                assert forall|j: int| 0 <= j < b.len() implies #[trigger] c[j] == b[j] by {
                    lemma_normalized_elements_index(ignored, b, b.len(), j);
                    lemma_normalized_elements_index(ignored, a, a.len(), j);
                    assert(decreases_to!(t => a));
                    law_normalized_is_stable(ignored, a[j]);
                }
                assert(c =~= b);
            }
        },
        _ => {},
    }
}


/// A member with its value normalised.
pub open spec fn normalized_member(ignored: Set<Seq<char>>) -> spec_fn((Seq<char>, JsonTree)) -> (Seq<char>, JsonTree) {
    |m: (Seq<char>, JsonTree)| (m.0, normalized(ignored, m.1))
}

proof fn lemma_map_then_filter<A, B>(s: Seq<A>, f: spec_fn(A) -> B, p: spec_fn(B) -> bool, q: spec_fn(A) -> bool)
    requires
        forall|i: int| 0 <= i < s.len() ==> p(f(#[trigger] s[i])) == q(s[i]),
    ensures
        s.map_values(f).filter(p) == s.filter(q).map_values(f),
    decreases s.len(),
{
    reveal(Seq::filter);
    if s.len() == 0 {
        assert(s.map_values(f) =~= Seq::<B>::empty());
        assert(s.map_values(f).filter(p) =~= Seq::<B>::empty());
        assert(s.filter(q).map_values(f) =~= Seq::<B>::empty());
    } else {
        let d = s.drop_last();
        assert forall|i: int| 0 <= i < d.len() implies p(f(#[trigger] d[i])) == q(d[i]) by {
            assert(d[i] == s[i]);
        }
        lemma_map_then_filter(d, f, p, q);
        assert(s.map_values(f).drop_last() =~= d.map_values(f));
        assert(s.map_values(f).last() == f(s.last()));
        assert(p(f(s[s.len() - 1])) == q(s[s.len() - 1]));
        if q(s.last()) {
            assert(d.filter(q).push(s.last()).map_values(f) =~= d.filter(q).map_values(f).push(f(s.last())));
        }
    }
}

/// The members an object keeps in normal form are its kept members, each
/// with its value normalised, in order.
proof fn lemma_normalized_object(ignored: Set<Seq<char>>, ms: Seq<(Seq<char>, JsonTree)>)
    ensures
        normalized(ignored, JsonTree::Object(ms)) == JsonTree::Object(
            ms.filter(kept_member(ignored)).map_values(normalized_member(ignored)),
        ),
{
    let nm = normalized_members(ignored, ms, ms.len());
    if ms.len() > 0 {
        lemma_normalized_members_index(ignored, ms, ms.len(), 0);
    }
    assert forall|j: int| 0 <= j < ms.len() implies #[trigger] nm[j] == normalized_member(ignored)(ms[j]) by {
        lemma_normalized_members_index(ignored, ms, ms.len(), j);
    }
    assert(nm =~= ms.map_values(normalized_member(ignored)));
    assert forall|i: int| 0 <= i < ms.len() implies kept_member(ignored)(normalized_member(ignored)(#[trigger] ms[i]))
        == kept_member(ignored)(ms[i]) by {
        lemma_kept_after_normalizing(ignored, ms[i].0, ms[i].1);
    }
    lemma_map_then_filter(ms, normalized_member(ignored), kept_member(ignored), kept_member(ignored));
}

/// Two objects that differ only in members that normalisation drops (ignored
/// names, string values that look like timestamps or UUIDs), wherever those
/// stand among the others, have the same normal form.
pub proof fn law_dropped_members_do_not_matter(
    ignored: Set<Seq<char>>,
    ms1: Seq<(Seq<char>, JsonTree)>,
    ms2: Seq<(Seq<char>, JsonTree)>,
)
    requires
        ms1.filter(kept_member(ignored)) == ms2.filter(kept_member(ignored)),
    ensures
        normalized(ignored, JsonTree::Object(ms1)) == normalized(ignored, JsonTree::Object(ms2)),
{
    lemma_normalized_object(ignored, ms1);
    lemma_normalized_object(ignored, ms2);
}

// ---------------------------------------------------------------------------
// Law: documents that differ only in noise have the same normal form
// ---------------------------------------------------------------------------

/// Two documents that differ only in what normalisation disregards: objects
/// may carry, at any depth and in any position, members that normalisation
/// drops (ignored names, string values that look like timestamps or UUIDs),
/// their other members being pairwise alike in order; arrays of primitives
/// may list their elements in another order (elements with the same text
/// keeping their order among themselves); other arrays are alike element
/// by element; everything else is equal.
pub open spec fn equal_up_to_noise(ignored: Set<Seq<char>>, t1: JsonTree, t2: JsonTree) -> bool
    decreases t1, 0nat,
{
    match (t1, t2) {
        (JsonTree::Object(x), JsonTree::Object(y)) => noise_equal_members(ignored, x, y, x.len(), y.len()),
        (JsonTree::Array(a), JsonTree::Array(b)) => {
            ||| (all_primitive(a) && all_primitive(b) && forall|k: Seq<char>|
                #[trigger] a.filter(has_text(k)) == b.filter(has_text(k)))
            ||| (a.len() == b.len() && noise_equal_elements(ignored, a, b, a.len()))
        },
        _ => t1 == t2,
    }
}

/// The first `n` members of `x` and the first `m` members of `y` are alike
/// once the members normalisation drops are set aside.
pub open spec fn noise_equal_members(
    ignored: Set<Seq<char>>,
    x: Seq<(Seq<char>, JsonTree)>,
    y: Seq<(Seq<char>, JsonTree)>,
    n: nat,
    m: nat,
) -> bool
    decreases x, n + m,
{
    if n > x.len() || m > y.len() {
        false
    } else if n > 0 && dropped_member(ignored)(x[n - 1]) {
        noise_equal_members(ignored, x, y, (n - 1) as nat, m)
    } else if m > 0 && dropped_member(ignored)(y[m - 1]) {
        noise_equal_members(ignored, x, y, n, (m - 1) as nat)
    } else if n == 0 || m == 0 {
        n == 0 && m == 0
    } else {
        proof {
            assert(decreases_to!(x => x[n - 1]));
        }
        &&& x[n - 1].0 == y[m - 1].0
        &&& equal_up_to_noise(ignored, x[n - 1].1, y[m - 1].1)
        &&& noise_equal_members(ignored, x, y, (n - 1) as nat, (m - 1) as nat)
    }
}

/// The first `n` elements of `a` and `b` are pairwise alike up to noise.
pub open spec fn noise_equal_elements(ignored: Set<Seq<char>>, a: Seq<JsonTree>, b: Seq<JsonTree>, n: nat) -> bool
    decreases a, n,
{
    if n == 0 {
        true
    } else if n > a.len() || n > b.len() {
        false
    } else {
        proof {
            assert(decreases_to!(a => a[n - 1]));
        }
        noise_equal_elements(ignored, a, b, (n - 1) as nat) && equal_up_to_noise(ignored, a[n - 1], b[n - 1])
    }
}

proof fn lemma_text_le_antisymmetric(a: Seq<char>, b: Seq<char>)
    requires
        text_le(a, b),
        text_le(b, a),
    ensures
        a == b,
    decreases a.len(),
{
    if a.len() > 0 && b.len() > 0 {
        if a[0] == b[0] {
            lemma_text_le_antisymmetric(a.drop_first(), b.drop_first());
            assert(a =~= seq![a[0]] + a.drop_first());
            assert(b =~= seq![b[0]] + b.drop_first());
        } else {
            vstd::utf8::char_u32_cast(a[0], a[0] as u32);
            vstd::utf8::char_u32_cast(b[0], b[0] as u32);
        }
    } else if a.len() == 0 && b.len() == 0 {
        assert(a =~= b);
    }
}

proof fn lemma_filter_of_push<A>(s: Seq<A>, x: A, p: spec_fn(A) -> bool)
    ensures
        s.push(x).filter(p) == if p(x) { s.filter(p).push(x) } else { s.filter(p) },
{
    s.lemma_filter_push(x, p);
}

/// An element of `s` with text `k` is in `s.filter(has_text(k))`.
proof fn lemma_in_own_text_filter(s: Seq<JsonTree>, i: int)
    requires
        0 <= i < s.len(),
    ensures
        s.filter(has_text(text_of(s[i]))).contains(s[i]),
{
    broadcast use vstd::seq_lib::group_filter_ensures;
    s.lemma_filter_contains(has_text(text_of(s[i])), i);
}

/// Two sequences sorted by text that hold, for every text, the same
/// elements with that text in the same order, are equal.
proof fn lemma_sorted_determined_by_text_filters(s1: Seq<JsonTree>, s2: Seq<JsonTree>)
    requires
        sorted_by_text(s1),
        sorted_by_text(s2),
        forall|k: Seq<char>| #[trigger] s1.filter(has_text(k)) == s2.filter(has_text(k)),
    ensures
        s1 == s2,
    decreases s1.len() + s2.len(),
{
    broadcast use vstd::seq_lib::group_filter_ensures;
    if s1.len() == 0 || s2.len() == 0 {
        if s1.len() > 0 {
            lemma_in_own_text_filter(s1, 0);
            assert(s2.filter(has_text(text_of(s1[0]))).contains(s1[0]));
            s2.lemma_filter_contains_rev(has_text(text_of(s1[0])), s1[0]);
        } else if s2.len() > 0 {
            lemma_in_own_text_filter(s2, 0);
            assert(s1.filter(has_text(text_of(s2[0]))).contains(s2[0]));
            s1.lemma_filter_contains_rev(has_text(text_of(s2[0])), s2[0]);
        } else {
            assert(s1 =~= s2);
        }
    } else {
        let x = s1.last();
        let y = s2.last();
        let d1 = s1.drop_last();
        let d2 = s2.drop_last();
        // The last texts are the largest of both sequences, hence equal.
        lemma_in_own_text_filter(s2, s2.len() - 1);
        assert(s1.filter(has_text(text_of(y))).contains(y));
        s1.lemma_filter_contains_rev(has_text(text_of(y)), y);
        let i = choose|i: int| 0 <= i < s1.len() && s1[i] == y;
        if i < s1.len() - 1 {
            assert(text_le(text_of(s1[i]), text_of(s1[s1.len() - 1])));
        } else {
            lemma_text_le_reflexive(text_of(x));
        }
        lemma_in_own_text_filter(s1, s1.len() - 1);
        assert(s2.filter(has_text(text_of(x))).contains(x));
        s2.lemma_filter_contains_rev(has_text(text_of(x)), x);
        let j = choose|j: int| 0 <= j < s2.len() && s2[j] == x;
        if j < s2.len() - 1 {
            assert(text_le(text_of(s2[j]), text_of(s2[s2.len() - 1])));
        } else {
            lemma_text_le_reflexive(text_of(y));
        }
        lemma_text_le_antisymmetric(text_of(x), text_of(y));
        let k = text_of(x);
        assert(d1.push(x) =~= s1);
        assert(d2.push(y) =~= s2);
        lemma_filter_of_push(d1, x, has_text(k));
        lemma_filter_of_push(d2, y, has_text(k));
        assert(s1.filter(has_text(k)) == s2.filter(has_text(k)));
        assert(x == s1.filter(has_text(k)).last());
        assert(y == s2.filter(has_text(k)).last());
        assert forall|k2: Seq<char>| #[trigger] d1.filter(has_text(k2)) == d2.filter(has_text(k2)) by {
            lemma_filter_of_push(d1, x, has_text(k2));
            lemma_filter_of_push(d2, y, has_text(k2));
            assert(s1.filter(has_text(k2)) == s2.filter(has_text(k2)));
            if k2 == k {
                assert(d1.filter(has_text(k2)) =~= s1.filter(has_text(k2)).drop_last());
                assert(d2.filter(has_text(k2)) =~= s2.filter(has_text(k2)).drop_last());
            }
        }
        assert(sorted_by_text(d1)) by {
            assert forall|a: int, b: int| 0 <= a < b < d1.len() implies text_le(text_of(#[trigger] d1[a]), text_of(#[trigger] d1[b])) by {
                assert(d1[a] == s1[a] && d1[b] == s1[b]);
            }
        }
        assert(sorted_by_text(d2)) by {
            assert forall|a: int, b: int| 0 <= a < b < d2.len() implies text_le(text_of(#[trigger] d2[a]), text_of(#[trigger] d2[b])) by {
                assert(d2[a] == s2[a] && d2[b] == s2[b]);
            }
        }
        lemma_sorted_determined_by_text_filters(d1, d2);
    }
}

/// The normal form of an array of primitives is the array sorted by text.
proof fn lemma_normalized_primitive_array(ignored: Set<Seq<char>>, a: Seq<JsonTree>)
    requires
        all_primitive(a),
    ensures
        normalized(ignored, JsonTree::Array(a)) == JsonTree::Array(sort_by_text(a)),
{
    let b = normalized_elements(ignored, a, a.len());
    if a.len() > 0 {
        lemma_normalized_elements_index(ignored, a, a.len(), 0);
    }
    assert forall|j: int| 0 <= j < a.len() implies #[trigger] b[j] == a[j] by {
        lemma_normalized_elements_index(ignored, a, a.len(), j);
        lemma_normalized_shape(ignored, a[j]);
    }
    assert(b =~= a);
}

proof fn lemma_noise_equal_elements(ignored: Set<Seq<char>>, a: Seq<JsonTree>, b: Seq<JsonTree>, n: nat)
    requires
        noise_equal_elements(ignored, a, b, n),
    ensures
        normalized_elements(ignored, a, n) == normalized_elements(ignored, b, n),
    decreases a, n,
{
    if n > 0 {
        assert(decreases_to!(a => a[n - 1]));
        lemma_noise_equal_elements(ignored, a, b, (n - 1) as nat);
        law_noise_does_not_matter(ignored, a[n - 1], b[n - 1]);
    }
}

proof fn lemma_noise_equal_members(
    ignored: Set<Seq<char>>,
    x: Seq<(Seq<char>, JsonTree)>,
    y: Seq<(Seq<char>, JsonTree)>,
    n: nat,
    m: nat,
)
    requires
        noise_equal_members(ignored, x, y, n, m),
    ensures
        x.take(n as int).filter(kept_member(ignored)).map_values(normalized_member(ignored)) == y.take(
            m as int,
        ).filter(kept_member(ignored)).map_values(normalized_member(ignored)),
    decreases x, n + m,
{
    let kept = kept_member(ignored);
    let nm = normalized_member(ignored);
    if n > 0 && dropped_member(ignored)(x[n - 1]) {
        lemma_noise_equal_members(ignored, x, y, (n - 1) as nat, m);
        assert(x.take(n as int) =~= x.take(n - 1).push(x[n - 1]));
        lemma_filter_of_push(x.take(n - 1), x[n - 1], kept);
    } else if m > 0 && dropped_member(ignored)(y[m - 1]) {
        lemma_noise_equal_members(ignored, x, y, n, (m - 1) as nat);
        assert(y.take(m as int) =~= y.take(m - 1).push(y[m - 1]));
        lemma_filter_of_push(y.take(m - 1), y[m - 1], kept);
    } else if n == 0 || m == 0 {
        assert(x.take(0) =~= Seq::<(Seq<char>, JsonTree)>::empty());
        assert(y.take(0) =~= Seq::<(Seq<char>, JsonTree)>::empty());
        reveal(Seq::filter);
        assert(x.take(0).filter(kept) =~= Seq::<(Seq<char>, JsonTree)>::empty());
        assert(y.take(0).filter(kept) =~= Seq::<(Seq<char>, JsonTree)>::empty());
    } else {
        assert(decreases_to!(x => x[n - 1]));
        lemma_noise_equal_members(ignored, x, y, (n - 1) as nat, (m - 1) as nat);
        law_noise_does_not_matter(ignored, x[n - 1].1, y[m - 1].1);
        assert(x.take(n as int) =~= x.take(n - 1).push(x[n - 1]));
        assert(y.take(m as int) =~= y.take(m - 1).push(y[m - 1]));
        lemma_filter_of_push(x.take(n - 1), x[n - 1], kept);
        lemma_filter_of_push(y.take(m - 1), y[m - 1], kept);
        let fx = x.take(n - 1).filter(kept);
        let fy = y.take(m - 1).filter(kept);
        assert(fx.push(x[n - 1]).map_values(nm) =~= fx.map_values(nm).push(nm(x[n - 1])));
        assert(fy.push(y[m - 1]).map_values(nm) =~= fy.map_values(nm).push(nm(y[m - 1])));
    }
}

/// Documents that differ only in noise (see `equal_up_to_noise`) have the
/// same normal form.
pub proof fn law_noise_does_not_matter(ignored: Set<Seq<char>>, t1: JsonTree, t2: JsonTree)
    requires
        equal_up_to_noise(ignored, t1, t2),
    ensures
        normalized(ignored, t1) == normalized(ignored, t2),
    decreases t1, 0nat,
{
    match (t1, t2) {
        (JsonTree::Object(x), JsonTree::Object(y)) => {
            lemma_noise_equal_members(ignored, x, y, x.len(), y.len());
            assert(x.take(x.len() as int) =~= x);
            assert(y.take(y.len() as int) =~= y);
            lemma_normalized_object(ignored, x);
            lemma_normalized_object(ignored, y);
        },
        (JsonTree::Array(a), JsonTree::Array(b)) => {
            if a.len() == b.len() && noise_equal_elements(ignored, a, b, a.len()) {
                lemma_noise_equal_elements(ignored, a, b, a.len());
            } else {
                lemma_normalized_primitive_array(ignored, a);
                lemma_normalized_primitive_array(ignored, b);
                law_sort_by_text(a);
                law_sort_by_text(b);
                assert forall|k: Seq<char>| #[trigger] sort_by_text(a).filter(has_text(k)) == sort_by_text(b).filter(
                    has_text(k),
                ) by {
                    assert(a.filter(has_text(k)) == b.filter(has_text(k)));
                }
                lemma_sorted_determined_by_text_filters(sort_by_text(a), sort_by_text(b));
            }
        },
        _ => {},
    }
}

/// A member holding an ISO-8601-like timestamp (a string at least 19 bytes
/// long with a `-`, a `T` and a `:`, whatever zone suffix it carries) is
/// noise: an object with such a member, wherever it stands, has the normal
/// form of the object without it.
pub proof fn law_timestamp_members_are_dropped(
    ignored: Set<Seq<char>>,
    ms1: Seq<(Seq<char>, JsonTree)>,
    name: Seq<char>,
    s: Seq<char>,
    ms2: Seq<(Seq<char>, JsonTree)>,
)
    requires
        encode_utf8(s).len() >= 19,
        s.contains('-'),
        s.contains('T'),
        s.contains(':'),
    ensures
        normalized(ignored, JsonTree::Object(ms1 + seq![(name, JsonTree::Str(s))] + ms2)) == normalized(
            ignored,
            JsonTree::Object(ms1 + ms2),
        ),
{
    let m = (name, JsonTree::Str(s));
    let kept = kept_member(ignored);
    assert(!kept(m));
    Seq::filter_distributes_over_add(ms1 + seq![m], ms2, kept);
    Seq::filter_distributes_over_add(ms1, seq![m], kept);
    Seq::filter_distributes_over_add(ms1, ms2, kept);
    reveal(Seq::filter);
    let e = Seq::<(Seq<char>, JsonTree)>::empty();
    assert(e.push(m) =~= seq![m]);
    lemma_filter_of_push(e, m, kept);
    assert(e.filter(kept) =~= e);
    assert(seq![m].filter(kept) =~= e);
    assert(ms1.filter(kept) + Seq::<(Seq<char>, JsonTree)>::empty() =~= ms1.filter(kept));
    law_dropped_members_do_not_matter(ignored, ms1 + seq![m] + ms2, ms1 + ms2);
}

} // verus!
