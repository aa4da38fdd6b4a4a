//! The watch configuration and the values derived from it.
use vstd::prelude::*;
use crate::text::{parse_usize, parse_usize_spec, trimmed, unicode_trim};

verus! {

/// What to watch: how traffic is obtained (`mode`), on which interface, the
/// two targets (`host:port`) and the JSON fields never compared.
#[derive(Debug, Clone)]
pub struct WatchConfig {
    pub mode: String,
    pub interface: String,
    pub target_a: String,
    pub target_b: String,
    pub ignore_fields: Vec<String>,
}

/// The whole configuration file.
#[derive(Debug, Clone)]
pub struct Config {
    pub watch: WatchConfig,
}

/// The mode used when the configuration names none: passive capture.
pub fn default_mode() -> (r: String)
    ensures
        r@ == "capture"@,
{
    "capture".to_string()
}

/// The text after the last `c` in `s` (all of `s` when it holds no `c`).
pub open spec fn after_last(s: Seq<char>, c: char) -> Seq<char>
    decreases s.len(),
{
    if s.len() == 0 {
        s
    } else if s.last() == c {
        Seq::empty()
    } else {
        after_last(s.drop_last(), c).push(s.last())
    }
}

/// What `str::parse::<u16>` yields.
pub open spec fn parse_u16_spec(s: Seq<char>) -> Option<u16> {
    match parse_usize_spec(s) {
        Some(v) => if v <= u16::MAX {
            Some(v as u16)
        } else {
            None
        },
        None => None,
    }
}

/// The port of a `host:port` target: the text after its last colon, parsed
/// as a `u16`; `None` when that text is not a port number.
pub fn target_port(target: &str) -> (r: Option<u16>)
    ensures
        r == parse_u16_spec(after_last(target@, ':')),
{
    let n = target.unicode_len();
    let mut k: usize = n;
    assert(target@.take(n as int) =~= target@);
    assert(target@.subrange(n as int, n as int) =~= Seq::<char>::empty());
    while k > 0 && target.get_char(k - 1) != ':'
        invariant
            k <= n,
            n == target@.len(),
            after_last(target@, ':') == after_last(target@.take(k as int), ':') + target@.subrange(k as int, n as int),
        decreases k,
    {
        proof {
            let t = target@.take(k as int);
            assert(t.drop_last() =~= target@.take(k - 1));
            assert(t.last() == target@[k - 1]);
            assert(target@.subrange(k - 1, n as int) =~= seq![target@[k - 1]] + target@.subrange(k as int, n as int));
            assert(after_last(t, ':') == after_last(target@.take(k - 1), ':').push(target@[k - 1]));
            assert(after_last(target@.take(k - 1), ':').push(target@[k - 1]) + target@.subrange(k as int, n as int)
                =~= after_last(target@.take(k - 1), ':') + target@.subrange(k - 1, n as int));
        }
        k = k - 1;
    }
    proof {
        if k > 0 {
            let t = target@.take(k as int);
            assert(t.last() == target@[k - 1]);
        }
        assert(after_last(target@.take(k as int), ':') =~= Seq::<char>::empty());
        assert(after_last(target@, ':') =~= target@.subrange(k as int, n as int));
    }
    let port_text = target.substring_char(k, n);
    match parse_usize(port_text) {
        Some(v) => if v <= 65535 {
            Some(v as u16)
        } else {
            None
        },
        None => None,
    }
}

/// The pieces of `s` between occurrences of `c` (all of `s` when it holds no
/// `c`), as `str::split` gives them.
pub open spec fn split_on(s: Seq<char>, c: char) -> Seq<Seq<char>>
    decreases s.len(),
{
    if s.len() == 0 {
        seq![Seq::empty()]
    } else {
        let p = split_on(s.drop_last(), c);
        if s.last() == c {
            p.push(Seq::empty())
        } else {
            p.update(p.len() - 1, p.last().push(s.last()))
        }
    }
}

pub open spec fn trim_piece() -> spec_fn(Seq<char>) -> Seq<char> {
    |p: Seq<char>| unicode_trim(p)
}

pub open spec fn non_empty() -> spec_fn(Seq<char>) -> bool {
    |p: Seq<char>| p.len() > 0
}

/// A comma-separated list of field names: each piece trimmed, empty pieces
/// left out.
pub open spec fn field_list(raw: Seq<char>) -> Seq<Seq<char>> {
    split_on(raw, ',').map_values(trim_piece()).filter(non_empty())
}

pub open spec fn texts(v: Seq<String>) -> Seq<Seq<char>> {
    v.map_values(|s: String| s@)
}

/// The field names in a comma-separated list (see `field_list`), as the
/// setup dialogue reads them.
pub fn parse_field_list(raw: &str) -> (r: Vec<String>)
    ensures
        texts(r@) == field_list(raw@),
{
    let n = raw.unicode_len();
    let mut out: Vec<String> = Vec::new();
    let mut start: usize = 0;
    let mut i: usize = 0;
    let ghost mut done: Seq<Seq<char>> = Seq::empty();
    assert(raw@.take(0) =~= Seq::<char>::empty());
    assert(raw@.subrange(0, 0) =~= Seq::<char>::empty());
    assert(split_on(Seq::<char>::empty(), ',') =~= done.push(Seq::empty()));
    assert(texts(out@) =~= done.map_values(trim_piece()).filter(non_empty()));
    while i < n
        invariant
            start <= i <= n,
            n == raw@.len(),
            split_on(raw@.take(i as int), ',') == done.push(raw@.subrange(start as int, i as int)),
            texts(out@) == done.map_values(trim_piece()).filter(non_empty()),
        decreases n - i,
    {
        let c = raw.get_char(i);
        let ghost t = raw@.take(i + 1);
        assert(t.drop_last() =~= raw@.take(i as int));
        assert(t.last() == c);
        if c == ',' {
            let piece = raw.substring_char(start, i);
            let tp = trimmed(piece);
            let ghost before = out@;
            if tp.unicode_len() > 0 {
                out.push(tp.to_string());
            }
            proof {
                let d2 = done.push(piece@);
                assert(d2.map_values(trim_piece()) =~= done.map_values(trim_piece()).push(unicode_trim(piece@)));
                done.map_values(trim_piece()).lemma_filter_push(unicode_trim(piece@), non_empty());
                if tp@.len() > 0 {
                    assert(out@.drop_last() =~= before);
                    assert(texts(out@) =~= texts(before).push(tp@));
                } else {
                    assert(out@ =~= before);
                }
                done = d2;
                assert(raw@.subrange((i + 1) as int, (i + 1) as int) =~= Seq::<char>::empty());
                assert(split_on(t, ',') =~= done.push(Seq::empty()));
            }
            start = i + 1;
        } else {
            proof {
                assert(raw@.subrange(start as int, (i + 1) as int) =~= raw@.subrange(start as int, i as int).push(c));
                assert(split_on(t, ',') =~= done.push(raw@.subrange(start as int, (i + 1) as int)));
            }
        }
        i = i + 1;
    }
    let piece = raw.substring_char(start, n);
    let tp = trimmed(piece);
    let ghost before = out@;
    if tp.unicode_len() > 0 {
        out.push(tp.to_string());
    }
    proof {
        assert(raw@.take(n as int) =~= raw@);
        let d2 = done.push(piece@);
        assert(d2.map_values(trim_piece()) =~= done.map_values(trim_piece()).push(unicode_trim(piece@)));
        done.map_values(trim_piece()).lemma_filter_push(unicode_trim(piece@), non_empty());
        if tp@.len() > 0 {
            assert(out@.drop_last() =~= before);
            assert(texts(out@) =~= texts(before).push(tp@));
        } else {
            assert(out@ =~= before);
        }
    }
    out
}

} // verus!
