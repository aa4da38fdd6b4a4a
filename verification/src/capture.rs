//! TCP stream reassembly: captured segments become complete HTTP messages.
use vstd::prelude::*;
use vstd::utf8::*;
use vstd::slice::{slice_subrange, slice_to_vec};
use std::collections::{BTreeMap, HashMap};
use crate::probe::{NetworkPacketEvent, TCP_FIN, TCP_RST};
use crate::http::{
    HeaderField, HttpMessage, MessageView, bytes_start_as_response, header_fields_view,
    httparse_request, httparse_response, parse_http_message_at, parsed_message, read_request_head,
    read_response_head, starts_as_response,
};
use crate::text::{
    contains_run, lowercase, occurs_at, parse_usize, parse_usize_spec, str_contains, str_eq,
    unicode_lowercase, utf8_str,
};

verus! {

// ---------------------------------------------------------------------------
// Message boundaries
// ---------------------------------------------------------------------------

/// The value of the first header whose lowercased name is `name`.
pub open spec fn first_header_value(fields: Seq<(Seq<char>, Seq<u8>)>, name: Seq<char>) -> Option<Seq<u8>>
    decreases fields.len(),
{
    if fields.len() == 0 {
        None
    } else if unicode_lowercase(fields[0].0) == name {
        Some(fields[0].1)
    } else {
        first_header_value(fields.drop_first(), name)
    }
}

/// The head at the start of a buffer: its length and its raw headers, read as
/// a response when the buffer starts with `HTTP/` and as a request otherwise.
pub open spec fn head_of(data: Seq<u8>) -> Option<(nat, Seq<(Seq<char>, Seq<u8>)>)> {
    if starts_as_response(data) {
        match httparse_response(data) {
            Some((len, _status, fields)) => Some((len, fields)),
            None => None,
        }
    } else {
        match httparse_request(data) {
            Some((len, _method, _path, fields)) => Some((len, fields)),
            None => None,
        }
    }
}

/// The declared body length: the first `content-length` header, when its
/// value is UTF-8 and parses as an unsigned number.
pub open spec fn framed_content_length(fields: Seq<(Seq<char>, Seq<u8>)>) -> Option<usize> {
    match first_header_value(fields, "content-length"@) {
        Some(v) => if valid_utf8(v) {
            parse_usize_spec(decode_utf8(v))
        } else {
            None
        },
        None => None,
    }
}

/// The body is chunked: the first `transfer-encoding` header is UTF-8 and,
/// lowercased, mentions `chunked`.
pub open spec fn is_chunked(fields: Seq<(Seq<char>, Seq<u8>)>) -> bool {
    match first_header_value(fields, "transfer-encoding"@) {
        Some(v) => valid_utf8(v) && contains_run(unicode_lowercase(decode_utf8(v)), "chunked"@),
        None => false,
    }
}

/// The last-chunk marker `0\r\n\r\n`.
pub open spec fn chunk_terminator() -> Seq<u8> {
    seq![0x30u8, 0x0du8, 0x0au8, 0x0du8, 0x0au8]
}

/// The position of the first occurrence of `needle` in `hay`.
#[verifier::opaque]
pub open spec fn first_occurrence(hay: Seq<u8>, needle: Seq<u8>) -> Option<int> {
    if contains_run(hay, needle) {
        Some(
            choose|i: int|
                occurs_at(hay, needle, i) && forall|j: int| 0 <= j < i ==> !occurs_at(hay, needle, j),
        )
    } else {
        None
    }
}

/// Where a chunked message whose head is `header_len` bytes long ends: just
/// after the first `0\r\n\r\n` of its body, when that has arrived.
#[verifier::opaque]
pub open spec fn chunked_end(data: Seq<u8>, header_len: nat) -> Option<nat> {
    match first_occurrence(data.skip(header_len as int), chunk_terminator()) {
        Some(p) => Some((header_len + p + 5) as nat),
        None => None,
    }
}

/// The length of the complete HTTP message at the start of `data`, if the
/// whole message has arrived: a chunked message ends after the first
/// `0\r\n\r\n` of its body, which starts after the head; otherwise the
/// message is the head plus its declared content length (or the head alone
/// when none is declared).
pub open spec fn message_length(data: Seq<u8>) -> Option<nat> {
    match head_of(data) {
        None => None,
        Some((header_len, fields)) => framed_length(data, header_len, fields),
    }
}

/// Where a message whose head is `header_len` bytes long with raw headers
/// `fields` ends, if all of it is in `data`: a chunked message after the
/// first `0\r\n\r\n` of its body, any other after its declared content
/// length, or right after the head when it declares none.
pub open spec fn framed_length(data: Seq<u8>, header_len: nat, fields: Seq<(Seq<char>, Seq<u8>)>) -> Option<nat> {
    if is_chunked(fields) {
        chunked_end(data, header_len)
    } else {
        match framed_content_length(fields) {
            Some(n) => if header_len + n <= data.len() {
                Some((header_len + n) as nat)
            } else {
                None
            },
            None => Some(header_len),
        }
    }
}

/// The index of the first header whose lowercased name is `name`.
fn find_first_header(fields: &Vec<HeaderField>, name: &str) -> (r: Option<usize>)
    ensures
        match r {
            Some(i) => i < fields.len() && first_header_value(header_fields_view(fields@), name@)
                == Some(fields@[i as int].value@),
            None => first_header_value(header_fields_view(fields@), name@) is None,
        },
{
    let ghost fs = header_fields_view(fields@);
    let mut i: usize = 0;
    assert(fs.skip(0) =~= fs);
    while i < fields.len()
        invariant
            i <= fields.len(),
            fs == header_fields_view(fields@),
            first_header_value(fs, name@) == first_header_value(fs.skip(i as int), name@),
        decreases fields.len() - i,
    {
        let ghost rest = fs.skip(i as int);
        assert(rest.drop_first() =~= fs.skip(i + 1));
        let lower = lowercase(fields[i].name.as_str());
        if str_eq(lower.as_str(), name) {
            return Some(i);
        }
        i = i + 1;
    }
    assert(fs.skip(i as int) =~= Seq::<(Seq<char>, Seq<u8>)>::empty());
    None
}

/// The position of the first `0\r\n\r\n` in `data`.
fn find_chunk_terminator(data: &[u8]) -> (r: Option<usize>)
    ensures
        match r {
            Some(p) => first_occurrence(data@, chunk_terminator()) == Some(p as int) && p + 5
                <= data.len(),
            None => first_occurrence(data@, chunk_terminator()) is None,
        },
{
    reveal(first_occurrence);
    let ghost t = chunk_terminator();
    if data.len() < 5 {
        assert forall|i: int| !occurs_at(data@, t, i) by {}
        return None;
    }
    let mut i: usize = 0;
    while i <= data.len() - 5
        invariant
            data.len() >= 5,
            i <= data.len() - 4,
            t == chunk_terminator(),
            forall|j: int| 0 <= j < i ==> !occurs_at(data@, t, j),
        decreases data.len() - 4 - i,
    {
        if data[i] == 0x30u8 && data[i + 1] == 0x0du8 && data[i + 2] == 0x0au8 && data[i + 3] == 0x0du8
            && data[i + 4] == 0x0au8 {
            assert(data@.subrange(i as int, i + 5) =~= t);
            assert(occurs_at(data@, t, i as int));
            proof {
                lemma_first_occurrence_at(data@, t, i as int);
            }
            return Some(i);
        }
        assert(!occurs_at(data@, t, i as int)) by {
            if occurs_at(data@, t, i as int) {
                assert(data@.subrange(i as int, i + 5)[0] == t[0]);
                assert(data@.subrange(i as int, i + 5)[1] == t[1]);
                assert(data@.subrange(i as int, i + 5)[2] == t[2]);
                assert(data@.subrange(i as int, i + 5)[3] == t[3]);
                assert(data@.subrange(i as int, i + 5)[4] == t[4]);
            }
        }
        i = i + 1;
    }
    assert forall|j: int| !occurs_at(data@, t, j) by {
        if j >= i {
            assert(j + 5 > data.len());
        }
    }
    None
}

/// The end of a chunked message whose head is `header_len` bytes long: just
/// after the first `0\r\n\r\n` of its body.
fn chunked_message_end(data: &[u8], header_len: usize) -> (r: Option<usize>)
    requires
        header_len <= data.len(),
    ensures
        match r {
            Some(n) => header_len < n <= data.len() && chunked_end(data@, header_len as nat) == Some(n as nat),
            None => chunked_end(data@, header_len as nat) is None,
        },
{
    reveal(chunked_end);
    let body = slice_subrange(data, header_len, data.len());
    assert(body@ =~= data@.skip(header_len as int));
    match find_chunk_terminator(body) {
        Some(p) => Some(header_len + p + 5),
        None => None,
    }
}

/// The length of the complete HTTP message at the start of `data`, if it has
/// fully arrived (see `message_length`). A returned length is never zero and
/// never exceeds the buffer.
pub fn try_extract_message(data: &[u8]) -> (r: Option<usize>)
    ensures
        match r {
            Some(n) => message_length(data@) == Some(n as nat) && 0 < n <= data.len(),
            None => message_length(data@) is None,
        },
{
    let (header_len, fields) = if bytes_start_as_response(data) {
        match read_response_head(data) {
            Some(h) => (h.header_len, h.headers),
            None => return None,
        }
    } else {
        match read_request_head(data) {
            Some(h) => (h.header_len, h.headers),
            None => return None,
        }
    };
    assert(head_of(data@) == Some((header_len as nat, header_fields_view(fields@))));
    framed_message_length(data, header_len, &fields)
}

/// Where the message that starts `data` ends (see `framed_length`), given
/// the length and raw headers of its head as httparse read them. A returned
/// length is never shorter than the head and never exceeds the buffer.
pub fn framed_message_length(data: &[u8], header_len: usize, fields: &Vec<HeaderField>) -> (r: Option<usize>)
    requires
        0 < header_len <= data.len(),
    ensures
        match r {
            Some(n) => framed_length(data@, header_len as nat, header_fields_view(fields@)) == Some(n as nat)
                && header_len <= n <= data.len(),
            None => framed_length(data@, header_len as nat, header_fields_view(fields@)) is None,
        },
{
    let content_length = match find_first_header(fields, "content-length") {
        Some(i) => match utf8_str(fields[i].value.as_slice()) {
            Some(v) => parse_usize(v),
            None => None,
        },
        None => None,
    };
    let chunked = match find_first_header(fields, "transfer-encoding") {
        Some(i) => match utf8_str(fields[i].value.as_slice()) {
            Some(v) => {
                let lower = lowercase(v);
                str_contains(lower.as_str(), "chunked")
            },
            None => false,
        },
        None => false,
    };
    if chunked {
        return chunked_message_end(data, header_len);
    }
    match content_length {
        Some(n) => if n <= data.len() - header_len {
            Some(header_len + n)
        } else {
            None
        },
        None => Some(header_len),
    }
}


// ---------------------------------------------------------------------------
// Streams
// ---------------------------------------------------------------------------

/// The addresses and ports that identify one direction of a TCP connection.
#[derive(Hash, Eq, PartialEq, Clone, Copy, Debug)]
pub struct StreamKey {
    pub src_ip: [u8; 4],
    pub dst_ip: [u8; 4],
    pub src_port: u16,
    pub dst_port: u16,
}

pub open spec fn ipv4_value(ip: [u8; 4]) -> int {
    ip@[0] * 0x100_0000 + ip@[1] * 0x1_0000 + ip@[2] * 0x100 + ip@[3]
}

/// A stream's number: source address, destination address, source port and
/// destination port laid side by side (96 bits).
pub open spec fn stream_id(k: StreamKey) -> int {
    ((ipv4_value(k.src_ip) * 0x1_0000_0000 + ipv4_value(k.dst_ip)) * 0x1_0000 + k.src_port) * 0x1_0000
        + k.dst_port
}

proof fn lemma_digit_split(q1: int, r1: int, q2: int, r2: int, m: int)
    requires
        m > 0,
        0 <= r1 < m,
        0 <= r2 < m,
        q1 * m + r1 == q2 * m + r2,
    ensures
        q1 == q2,
        r1 == r2,
{
    assert(q1 == q2) by (nonlinear_arith)
        requires
            m > 0,
            0 <= r1 < m,
            0 <= r2 < m,
            q1 * m + r1 == q2 * m + r2,
    ;
}

proof fn lemma_ipv4_value_injective(a: [u8; 4], b: [u8; 4])
    requires
        ipv4_value(a) == ipv4_value(b),
    ensures
        a@ == b@,
{
    lemma_digit_split(a@[0] * 0x1_0000 + a@[1] * 0x100 + a@[2], a@[3] as int, b@[0] * 0x1_0000 + b@[1] * 0x100 + b@[2], b@[3] as int, 0x100);
    lemma_digit_split(a@[0] * 0x100 + a@[1], a@[2] as int, b@[0] * 0x100 + b@[1], b@[2] as int, 0x100);
    lemma_digit_split(a@[0] as int, a@[1] as int, b@[0] as int, b@[1] as int, 0x100);
    assert(a@ =~= b@);
}

/// Distinct streams have distinct numbers, so each stream keeps its own buffer.
pub proof fn lemma_stream_id_injective(k1: StreamKey, k2: StreamKey)
    requires
        stream_id(k1) == stream_id(k2),
    ensures
        k1.src_ip@ == k2.src_ip@,
        k1.dst_ip@ == k2.dst_ip@,
        k1.src_port == k2.src_port,
        k1.dst_port == k2.dst_port,
{
    let a1 = ipv4_value(k1.src_ip);
    let a2 = ipv4_value(k2.src_ip);
    let b1 = ipv4_value(k1.dst_ip);
    let b2 = ipv4_value(k2.dst_ip);
    lemma_digit_split((a1 * 0x1_0000_0000 + b1) * 0x1_0000 + k1.src_port, k1.dst_port as int, (a2 * 0x1_0000_0000 + b2) * 0x1_0000 + k2.src_port, k2.dst_port as int, 0x1_0000);
    lemma_digit_split(a1 * 0x1_0000_0000 + b1, k1.src_port as int, a2 * 0x1_0000_0000 + b2, k2.src_port as int, 0x1_0000);
    lemma_digit_split(a1, b1, a2, b2, 0x1_0000_0000);
    lemma_ipv4_value_injective(k1.src_ip, k2.src_ip);
    lemma_ipv4_value_injective(k1.dst_ip, k2.dst_ip);
}

fn ipv4_number(ip: [u8; 4]) -> (r: u128)
    ensures
        r == ipv4_value(ip),
        r < 0x1_0000_0000,
{
    ip[0] as u128 * 0x100_0000 + ip[1] as u128 * 0x1_0000 + ip[2] as u128 * 0x100 + ip[3] as u128
}

impl StreamKey {
    /// The stream's number (see `stream_id`).
    pub fn id(&self) -> (r: u128)
        ensures
            r == stream_id(*self),
    {
        let a = ipv4_number(self.src_ip);
        let b = ipv4_number(self.dst_ip);
        ((a * 0x1_0000_0000 + b) * 0x1_0000 + self.src_port as u128) * 0x1_0000 + self.dst_port as u128
    }

    /// The other direction of the same connection.
    pub fn reversed(&self) -> (r: StreamKey)
        ensures
            r == reversed_stream(*self),
    {
        StreamKey { src_ip: self.dst_ip, dst_ip: self.src_ip, src_port: self.dst_port, dst_port: self.src_port }
    }

    /// The stream a captured segment belongs to.
    pub fn of_event(event: &NetworkPacketEvent) -> (r: StreamKey)
        ensures
            r == event_stream(*event),
    {
        StreamKey {
            src_ip: event.src_ip,
            dst_ip: event.dst_ip,
            src_port: event.src_port,
            dst_port: event.dst_port,
        }
    }
}

/// The other direction of a connection: addresses and ports swapped.
pub open spec fn reversed_stream(k: StreamKey) -> StreamKey {
    StreamKey { src_ip: k.dst_ip, dst_ip: k.src_ip, src_port: k.dst_port, dst_port: k.src_port }
}

pub open spec fn event_stream(e: NetworkPacketEvent) -> StreamKey {
    StreamKey { src_ip: e.src_ip, dst_ip: e.dst_ip, src_port: e.src_port, dst_port: e.dst_port }
}

/// The bytes received so far on one stream: out-of-order segments by sequence
/// number and how many bytes they hold, the next expected sequence number, and the contiguous data not yet
/// consumed as messages. Times: `captured_at` in microseconds, `last_seen_ms`
/// in milliseconds.
pub struct TrafficCaptureBuffer {
    pub segments: BTreeMap<u32, Vec<u8>>,
    /// The number of bytes in `segments`.
    pub held_bytes: usize,
    pub next_seq: u32,
    pub data: Vec<u8>,
    pub captured_at: u64,
    pub last_seen_ms: u64,
}

pub struct BufferView {
    pub segments: Map<u32, Seq<u8>>,
    pub next_seq: u32,
    pub data: Seq<u8>,
    pub captured_at: u64,
    pub last_seen_ms: u64,
}

impl View for TrafficCaptureBuffer {
    type V = BufferView;

    open spec fn view(&self) -> BufferView {
        BufferView {
            segments: self.segments@.map_values(|v: Vec<u8>| v@),
            next_seq: self.next_seq,
            data: self.data@,
            captured_at: self.captured_at,
            last_seen_ms: self.last_seen_ms,
        }
    }
}

impl TrafficCaptureBuffer {
    /// `held_bytes` counts the bytes of `segments`, and the stream holds at
    /// most `STREAM_LIMIT` bytes in all.
    pub open spec fn wf(&self) -> bool {
        &&& self@.segments.dom().finite()
        &&& self.held_bytes == held(self@.segments)
        &&& stream_bytes(self@) <= STREAM_LIMIT
    }
}

/// The number of bytes held in out-of-order segments.
pub open spec fn held(segs: Map<u32, Seq<u8>>) -> nat
    decreases segs.dom().len(),
    when segs.dom().finite()
{
    if segs.dom().len() == 0 {
        0
    } else {
        let k = segs.dom().choose();
        segs[k].len() + held(segs.remove(k))
    }
}

/// Every byte a stream holds: its contiguous data and its out-of-order
/// segments.
pub open spec fn stream_bytes(b: BufferView) -> nat {
    b.data.len() + held(b.segments)
}

/// Taking any one segment out of a finite map removes exactly its bytes.
pub proof fn lemma_held_remove(segs: Map<u32, Seq<u8>>, k: u32)
    requires
        segs.dom().finite(),
        segs.contains_key(k),
    ensures
        held(segs) == segs[k].len() + held(segs.remove(k)),
    decreases segs.dom().len(),
{
    let c = segs.dom().choose();
    assert(segs.dom().contains(c));
    if c != k {
        lemma_held_remove(segs.remove(c), k);
        lemma_held_remove(segs.remove(k), c);
        assert(segs.remove(c).remove(k) =~= segs.remove(k).remove(c));
    } else {
        assert(segs.remove(c) =~= segs.remove(k));
    }
}

/// Filing a segment under `k` adds its bytes and drops those of any segment
/// filed there before.
pub proof fn lemma_held_insert(segs: Map<u32, Seq<u8>>, k: u32, v: Seq<u8>)
    requires
        segs.dom().finite(),
    ensures
        held(segs.insert(k, v)) + (if segs.contains_key(k) { segs[k].len() } else { 0 }) == held(segs) + v.len(),
{
    let m = segs.insert(k, v);
    lemma_held_remove(m, k);
    if segs.contains_key(k) {
        lemma_held_remove(segs, k);
        assert(m.remove(k) =~= segs.remove(k));
    } else {
        assert(m.remove(k) =~= segs);
    }
}

pub proof fn lemma_held_empty()
    ensures
        held(Map::<u32, Seq<u8>>::empty()) == 0,
{
    assert(Map::<u32, Seq<u8>>::empty().dom() =~= Set::<u32>::empty());
}

/// Moves every segment that continues the contiguous data onto its end, in
/// sequence order (sequence numbers wrap at 2^32).
pub open spec fn reassembled(segs: Map<u32, Seq<u8>>, data: Seq<u8>, next: u32) -> (Map<u32, Seq<u8>>, Seq<u8>, u32)
    decreases segs.dom().len(),
    when segs.dom().finite()
{
    if segs.contains_key(next) {
        reassembled(
            segs.remove(next),
            data + segs[next],
            next.wrapping_add(segs[next].len() as u32),
        )
    } else {
        (segs, data, next)
    }
}


/// Moving segments onto the contiguous data neither adds nor loses a byte.
pub proof fn lemma_reassembled_keeps_bytes(segs: Map<u32, Seq<u8>>, data: Seq<u8>, next: u32)
    requires
        segs.dom().finite(),
    ensures
        reassembled(segs, data, next).0.dom().finite(),
        reassembled(segs, data, next).1.len() + held(reassembled(segs, data, next).0) == data.len() + held(segs),
    decreases segs.dom().len(),
{
    if segs.contains_key(next) {
        lemma_held_remove(segs, next);
        lemma_reassembled_keeps_bytes(segs.remove(next), data + segs[next], next.wrapping_add(segs[next].len() as u32));
    }
}

/// Cuts complete messages off the front of `data` while there are any: the
/// messages that parse (stamped with `t`), and what remains.
pub open spec fn extracted(data: Seq<u8>, t: u64) -> (Seq<MessageView>, Seq<u8>)
    decreases data.len(),
{
    if data.len() == 0 {
        (Seq::empty(), data)
    } else {
        match message_length(data) {
            Some(n) => if 0 < n <= data.len() {
                let rest = extracted(data.skip(n as int), t);
                match parsed_message(data.take(n as int), t) {
                    Some(m) => (seq![m] + rest.0, rest.1),
                    None => rest,
                }
            } else {
                (Seq::empty(), data)
            },
            None => (Seq::empty(), data),
        }
    }
}

fn reassemble(buf: &mut TrafficCaptureBuffer)
    requires
        old(buf).held_bytes == held(old(buf)@.segments),
    ensures
        final(buf).held_bytes == held(final(buf)@.segments),
        ({
            let r = reassembled(old(buf)@.segments, old(buf)@.data, old(buf)@.next_seq);
            &&& final(buf)@.segments == r.0
            &&& final(buf)@.data == r.1
            &&& final(buf)@.next_seq == r.2
        }),
        final(buf).captured_at == old(buf).captured_at,
        final(buf).last_seen_ms == old(buf).last_seen_ms,
{
    broadcast use vstd::std_specs::btree::group_btree_axioms;
    assert(buf@.segments.dom() =~= buf.segments@.dom());
    loop
        invariant
            reassembled(buf@.segments, buf@.data, buf@.next_seq) == reassembled(
                old(buf)@.segments,
                old(buf)@.data,
                old(buf)@.next_seq,
            ),
            buf.captured_at == old(buf).captured_at,
            buf.last_seen_ms == old(buf).last_seen_ms,
            buf.segments@.dom().finite(),
            buf@.segments.dom() == buf.segments@.dom(),
            buf.held_bytes == held(buf@.segments),
        decreases buf.segments@.dom().len(),
    {
        let next = buf.next_seq;
        let ghost before = buf@;
        let ghost before_dom = buf.segments@.dom();
        match buf.segments.remove(&next) {
            Some(mut p) => {
                proof {
                    assert(before.segments.contains_key(next));
                    assert(before.segments.dom().finite());
                    lemma_held_remove(before.segments, next);
                    assert(before.segments[next] == p@);
                }
                buf.held_bytes = buf.held_bytes - p.len();
                let len = p.len() as u32;
                buf.data.append(&mut p);
                buf.next_seq = next.wrapping_add(len);
                assert(buf@.segments =~= before.segments.remove(next));
                assert(before.segments.contains_key(next));
                assert(buf@.data =~= before.data + before.segments[next]);
                assert(buf@.segments.dom() =~= buf.segments@.dom());
                assert(buf.segments@.dom() =~= before_dom.remove(next));
            },
            None => {
                assert(!before.segments.contains_key(next));
                assert(buf@.segments =~= before.segments);
                return;
            },
        }
    }
}

fn extract_messages(data: Vec<u8>, t: u64, key: StreamKey) -> (r: (Vec<(StreamKey, HttpMessage)>, Vec<u8>))
    ensures
        r.0@.map_values(|p: (StreamKey, HttpMessage)| p.1@) == extracted(data@, t).0,
        forall|i: int| 0 <= i < r.0@.len() ==> (#[trigger] r.0@[i]).0 == key,
        r.1@ == extracted(data@, t).1,
    decreases data@.len(),
{
    if data.len() == 0 {
        let out: Vec<(StreamKey, HttpMessage)> = Vec::new();
        assert(out@.map_values(|p: (StreamKey, HttpMessage)| p.1@) =~= Seq::<MessageView>::empty());
        return (out, data);
    }
    match try_extract_message(data.as_slice()) {
        Some(n) => {
            let rest = slice_to_vec(slice_subrange(data.as_slice(), n, data.len()));
            assert(rest@ =~= data@.skip(n as int));
            let first = parse_http_message_at(slice_subrange(data.as_slice(), 0, n), t);
            assert(data@.subrange(0, n as int) =~= data@.take(n as int));
            let (mut later, remaining) = extract_messages(rest, t, key);
            match first {
                Some(m) => {
                    let mut out: Vec<(StreamKey, HttpMessage)> = Vec::new();
                    out.push((key, m));
                    out.append(&mut later);
                    proof {
                        assert(out@.map_values(|p: (StreamKey, HttpMessage)| p.1@) =~= seq![m@] + extracted(data@.skip(n as int), t).0);
                    }
                    (out, remaining)
                },
                None => (later, remaining),
            }
        },
        None => {
            let out: Vec<(StreamKey, HttpMessage)> = Vec::new();
            assert(out@.map_values(|p: (StreamKey, HttpMessage)| p.1@) =~= Seq::<MessageView>::empty());
            (out, data)
        },
    }
}

/// Per-stream buffers, keyed by stream number, and the idle time after which a
/// stream is forgotten.
pub struct Reassembler {
    pub streams: HashMap<u128, TrafficCaptureBuffer>,
    pub timeout_ms: u64,
}

/// A stream is dropped once the bytes it holds would pass 1 MiB.
pub const STREAM_LIMIT: usize = 1048576;

pub open spec fn event_payload(e: NetworkPacketEvent) -> Seq<u8> {
    e.payload@.take(e.payload_len as int)
}

/// The segment closes its stream (FIN or RST).
pub open spec fn closes_stream(e: NetworkPacketEvent) -> bool {
    (e.tcp_flags & TCP_FIN) != 0 || (e.tcp_flags & TCP_RST) != 0
}

pub open spec fn fresh_buffer(now_us: u64) -> BufferView {
    BufferView {
        segments: Map::empty(),
        next_seq: 0,
        data: Seq::empty(),
        captured_at: now_us,
        last_seen_ms: now_us / 1000,
    }
}

/// The payload would take the bytes the stream holds, contiguous or not,
/// past the limit.
pub open spec fn overflows_stream(b: BufferView, e: NetworkPacketEvent) -> bool {
    e.payload_len > 0 && stream_bytes(b) + e.payload_len > STREAM_LIMIT
}

/// The stream's buffer after taking in the segment, before any closing, and
/// the messages it completes: the first segment fixes the expected sequence
/// number, the payload is filed by its sequence number, contiguous segments
/// are appended, and complete messages are cut off the front.
pub open spec fn buffer_after(b: BufferView, e: NetworkPacketEvent, now_us: u64) -> (BufferView, Seq<MessageView>) {
    let next = if b.next_seq == 0 { e.seq } else { b.next_seq };
    let segs = if e.payload_len > 0 { b.segments.insert(e.seq, event_payload(e)) } else { b.segments };
    let r = reassembled(segs, b.data, next);
    let x = extracted(r.1, now_us);
    (
        BufferView {
            segments: r.0,
            next_seq: r.2,
            data: x.1,
            captured_at: b.captured_at,
            last_seen_ms: now_us / 1000,
        },
        x.0,
    )
}

pub open spec fn emitted_view(out: Seq<(StreamKey, HttpMessage)>) -> Seq<(StreamKey, MessageView)> {
    out.map_values(|p: (StreamKey, HttpMessage)| (p.0, p.1@))
}

/// One segment taken in at time `now_us`: `before` and `after` are the stream
/// buffers, `out` the messages emitted. A segment that would overflow its
/// stream drops the stream and emits nothing; otherwise the stream's buffer
/// becomes `buffer_after`, its completed messages are emitted under the
/// segment's stream, and a FIN or RST drops the stream.
pub open spec fn ingested(
    before: Map<u128, BufferView>,
    after: Map<u128, BufferView>,
    e: NetworkPacketEvent,
    now_us: u64,
    out: Seq<(StreamKey, MessageView)>,
) -> bool {
    let k = stream_id(event_stream(e)) as u128;
    let b = if before.contains_key(k) { before[k] } else { fresh_buffer(now_us) };
    let next = buffer_after(b, e, now_us);
    if overflows_stream(b, e) {
        after == before.remove(k) && out.len() == 0
    } else {
        &&& out.map_values(|p: (StreamKey, MessageView)| p.1) == next.1
        &&& forall|i: int| 0 <= i < out.len() ==> (#[trigger] out[i]).0 == event_stream(e)
        &&& closes_stream(e) ==> after == before.remove(k)
        &&& !closes_stream(e) ==> after == before.insert(k, next.0)
    }
}

impl Reassembler {
    pub open spec fn buffers(&self) -> Map<u128, BufferView> {
        self.streams@.map_values(|b: TrafficCaptureBuffer| b@)
    }

    /// Every stream buffer is well formed (see `TrafficCaptureBuffer::wf`).
    pub open spec fn wf(&self) -> bool {
        forall|k: u128| #[trigger] self.streams@.contains_key(k) ==> self.streams@[k].wf()
    }

    /// An empty reassembler whose streams expire after 5 seconds of silence.
    pub fn new() -> (r: Reassembler)
        ensures
            r.wf(),
            r.buffers() == Map::<u128, BufferView>::empty(),
            r.timeout_ms == 5000,
    {
        let r = Reassembler { streams: HashMap::new(), timeout_ms: 5000 };
        assert(r.buffers() =~= Map::<u128, BufferView>::empty());
        r
    }

    /// Takes in one captured segment at time `now_us` (microseconds) and
    /// returns the messages it completes on its stream, in order.
    pub fn process_incoming_payload_at(&mut self, event: &NetworkPacketEvent, now_us: u64) -> (r: Vec<(StreamKey, HttpMessage)>)
        requires
            old(self).wf(),
            event.payload_len as usize <= crate::probe::MAX_PAYLOAD,
        ensures
            final(self).wf(),
            final(self).timeout_ms == old(self).timeout_ms,
            ingested(old(self).buffers(), final(self).buffers(), *event, now_us, emitted_view(r@)),
    {
        broadcast use vstd::std_specs::hash::group_hash_axioms;
        broadcast use vstd::std_specs::btree::group_btree_axioms;
        let key = StreamKey::of_event(event);
        let id = key.id();
        let ghost old_buffers = self.buffers();
        let mut buf = match self.streams.remove(&id) {
            Some(b) => b,
            None => TrafficCaptureBuffer {
                segments: BTreeMap::new(),
                held_bytes: 0,
                next_seq: 0,
                data: Vec::new(),
                captured_at: now_us,
                last_seen_ms: now_us / 1000,
            },
        };
        let ghost b0 = buf@;
        proof {
            if !old_buffers.contains_key(id) {
                assert(b0.segments =~= Map::<u32, Seq<u8>>::empty());
                assert(b0.data =~= Seq::<u8>::empty());
                lemma_held_empty();
            }
            assert(buf.wf());
        }
        let ghost old_streams = self.streams@;
        assert(self.buffers() =~= old_buffers.remove(id));
        if buf.next_seq == 0 {
            buf.next_seq = event.seq;
        }
        let len = event.payload_len as usize;
        if len > 0 {
            if buf.data.len() + buf.held_bytes > STREAM_LIMIT - len {
                let none: Vec<(StreamKey, HttpMessage)> = Vec::new();
                assert(emitted_view(none@).len() == 0);
                return none;
            }
            let payload = slice_to_vec(slice_subrange(event.payload.as_slice(), 0, len));
            let ghost segs0 = buf@.segments;
            proof {
                lemma_held_insert(segs0, event.seq, payload@);
                if segs0.contains_key(event.seq) {
                    lemma_held_remove(segs0, event.seq);
                }
            }
            match buf.segments.insert(event.seq, payload) {
                Some(replaced) => {
                    assert(segs0[event.seq] == replaced@);
                    buf.held_bytes = buf.held_bytes - replaced.len() + len;
                },
                None => {
                    buf.held_bytes = buf.held_bytes + len;
                },
            }
            assert(buf@.segments =~= segs0.insert(event.seq, payload@));
        }
        assert(buf@.segments =~= (if event.payload_len > 0 { b0.segments.insert(event.seq, event_payload(*event)) } else { b0.segments }));
        let ghost segs1 = buf@.segments;
        let ghost next1 = buf@.next_seq;
        assert(b0 == (if old_buffers.contains_key(id) { old_buffers[id] } else { fresh_buffer(now_us) }));
        assert(!overflows_stream(b0, *event));
        proof {
            law_stream_bytes_capped(b0, *event, now_us);
        }
        reassemble(&mut buf);
        let ghost r = reassembled(segs1, b0.data, next1);
        assert(buf@.data == r.1);
        buf.last_seen_ms = now_us / 1000;
        let mut data: Vec<u8> = Vec::new();
        std::mem::swap(&mut data, &mut buf.data);
        let (out, rest) = extract_messages(data, now_us, key);
        buf.data = rest;
        let ghost after = buffer_after(b0, *event, now_us);
        assert(buf@ == after.0);
        assert(out@.map_values(|p: (StreamKey, HttpMessage)| p.1@) == after.1);
        assert(emitted_view(out@).map_values(|p: (StreamKey, MessageView)| p.1) =~= out@.map_values(|p: (StreamKey, HttpMessage)| p.1@));
        assert(buf.wf());
        if (event.tcp_flags & TCP_FIN) != 0 || (event.tcp_flags & TCP_RST) != 0 {
            return out;
        }
        self.streams.insert(id, buf);
        assert(self.buffers() =~= old_buffers.insert(id, buf@));
        out
    }

    /// Takes in one captured segment now and returns the messages it completes
    /// on its stream, in order.
    pub fn process_incoming_payload(&mut self, event: &NetworkPacketEvent) -> (r: Vec<(StreamKey, HttpMessage)>)
        requires
            old(self).wf(),
            event.payload_len as usize <= crate::probe::MAX_PAYLOAD,
        ensures
            final(self).wf(),
            final(self).timeout_ms == old(self).timeout_ms,
            exists|t: u64| ingested(old(self).buffers(), final(self).buffers(), *event, t, emitted_view(r@)),
    {
        let now = crate::clock::now_micros();
        self.process_incoming_payload_at(event, now)
    }

    /// Forgets every stream not seen during the last `timeout_ms`
    /// milliseconds before `now_ms`.
    pub fn collect_stale_connections_at(&mut self, now_ms: u64)
        requires
            old(self).wf(),
        ensures
            final(self).wf(),
            final(self).timeout_ms == old(self).timeout_ms,
            final(self).buffers() == old(self).buffers().restrict(
                old(self).buffers().dom().filter(
                    |k: u128| old(self).buffers()[k].last_seen_ms > stale_cutoff(now_ms, old(self).timeout_ms),
                ),
            ),
    {
        broadcast use vstd::std_specs::hash::group_hash_axioms;
        let cutoff = if now_ms >= self.timeout_ms { now_ms - self.timeout_ms } else { 0 };
        let ghost old_buffers = self.buffers();
        let mut stale: Vec<u128> = Vec::new();
        for k in it: self.streams.keys()
            invariant
                old_buffers == self.buffers(),
                self.timeout_ms == old(self).timeout_ms,
                cutoff == stale_cutoff(now_ms, self.timeout_ms),
                forall|x: u128| stale@.contains(x) <==> (exists|j: int| 0 <= j < it.index() && #[trigger] it.seq()[j] == &x)
                    && old_buffers[x].last_seen_ms <= cutoff,
        {
            let ghost before = stale@;
            if self.streams.get(k).unwrap().last_seen_ms <= cutoff {
                stale.push(*k);
            }
            proof {
                broadcast use vstd::seq_lib::lemma_seq_contains_after_push;
                assert forall|x: u128| stale@.contains(x) <==> (exists|j: int| 0 <= j < it.index() + 1 && #[trigger] it.seq()[j] == &x)
                    && old_buffers[x].last_seen_ms <= cutoff by {
                    if exists|j: int| 0 <= j < it.index() + 1 && #[trigger] it.seq()[j] == &x {
                        let j = choose|j: int| 0 <= j < it.index() + 1 && #[trigger] it.seq()[j] == &x;
                        if j < it.index() {
                            assert(exists|j: int| 0 <= j < it.index() && #[trigger] it.seq()[j] == &x);
                        }
                    }
                    if exists|j: int| 0 <= j < it.index() && #[trigger] it.seq()[j] == &x {
                        let j = choose|j: int| 0 <= j < it.index() && #[trigger] it.seq()[j] == &x;
                        assert(it.seq()[j] == &x);
                    }
                }
            }
        }
        let mut i: usize = 0;
        while i < stale.len()
            invariant
                i <= stale.len(),
                self.wf(),
                self.timeout_ms == old(self).timeout_ms,
                forall|x: u128| #[trigger] self.buffers().contains_key(x) <==> old_buffers.contains_key(x)
                    && !stale@.take(i as int).contains(x),
                forall|x: u128| #[trigger] self.buffers().contains_key(x) ==> self.buffers()[x] == old_buffers[x],
            decreases stale.len() - i,
        {
            let x = stale[i];
            let ghost prev = self.buffers();
            let ghost prev_streams = self.streams@;
            self.streams.remove(&x);
            assert(self.buffers() =~= prev.remove(x));
            assert(self.streams@ =~= prev_streams.remove(x));
            assert(stale@.take(i + 1) =~= stale@.take(i as int).push(x));
            proof {
                broadcast use vstd::seq_lib::lemma_seq_contains_after_push;
            }
            i = i + 1;
        }
        proof {
            assert(stale@.take(stale.len() as int) =~= stale@);
        }
        assert(self.buffers() =~= old_buffers.restrict(
            old_buffers.dom().filter(|k: u128| old_buffers[k].last_seen_ms > cutoff),
        ));
    }

    /// Forgets every stream not seen during the last `timeout_ms` milliseconds.
    pub fn collect_stale_connections(&mut self)
        requires
            old(self).wf(),
        ensures
            final(self).wf(),
            final(self).timeout_ms == old(self).timeout_ms,
            exists|now_ms: u64| #![trigger stale_cutoff(now_ms, old(self).timeout_ms)]
                final(self).buffers() == old(self).buffers().restrict(
                    old(self).buffers().dom().filter(
                        |k: u128| old(self).buffers()[k].last_seen_ms > stale_cutoff(now_ms, old(self).timeout_ms),
                    ),
                ),
    {
        let now_ms = crate::clock::now_micros() / 1000;
        self.collect_stale_connections_at(now_ms);
    }
}

/// The last-seen time at or before which a stream counts as stale.
pub open spec fn stale_cutoff(now_ms: u64, timeout_ms: u64) -> u64 {
    if now_ms >= timeout_ms { (now_ms - timeout_ms) as u64 } else { 0 }
}

// ---------------------------------------------------------------------------
// Law: the 1 MiB cap of a stream
// ---------------------------------------------------------------------------

proof fn lemma_extracted_shrinks(data: Seq<u8>, t: u64)
    ensures
        extracted(data, t).1.len() <= data.len(),
    decreases data.len(),
{
    if data.len() > 0 {
        match message_length(data) {
            Some(n) => if 0 < n <= data.len() {
                lemma_extracted_shrinks(data.skip(n as int), t);
            },
            None => {},
        }
    }
}

/// A stream holding at most 1 MiB, counting its contiguous data and its
/// out-of-order segments, still holds at most 1 MiB after taking in a
/// segment that does not overflow it (one that would is dropped with its
/// stream).
pub proof fn law_stream_bytes_capped(b: BufferView, e: NetworkPacketEvent, now_us: u64)
    requires
        b.segments.dom().finite(),
        stream_bytes(b) <= STREAM_LIMIT,
        e.payload_len <= crate::probe::MAX_PAYLOAD,
        !overflows_stream(b, e),
    ensures
        buffer_after(b, e, now_us).0.segments.dom().finite(),
        stream_bytes(buffer_after(b, e, now_us).0) <= STREAM_LIMIT,
{
    let next = if b.next_seq == 0 { e.seq } else { b.next_seq };
    let segs = if e.payload_len > 0 { b.segments.insert(e.seq, event_payload(e)) } else { b.segments };
    assert(e.payload@.len() == 9000);
    assert(event_payload(e).len() == e.payload_len);
    if e.payload_len > 0 {
        lemma_held_insert(b.segments, e.seq, event_payload(e));
    }
    assert(held(segs) <= held(b.segments) + e.payload_len);
    lemma_reassembled_keeps_bytes(segs, b.data, next);
    let r = reassembled(segs, b.data, next);
    lemma_extracted_shrinks(r.1, now_us);
}

// ---------------------------------------------------------------------------
// Law: a run of in-order segments
// ---------------------------------------------------------------------------

/// Reading a head depends only on the bytes up to its end: a head read from
/// a buffer is read the same from any longer buffer that starts with it.
/// (httparse decides that a head is complete at its closing empty line and
/// reads nothing after it; a complete head holds an `HTTP/1.x` version, so
/// it is never shorter than the `HTTP/` that tells a response apart.)
pub open spec fn heads_prefix_stable() -> bool {
    forall|x: Seq<u8>, y: Seq<u8>| #[trigger] head_of(x + y) == head_of(x) || head_of(x) is None
}

/// One stream's buffer after taking in the segments `es` one by one, and the
/// messages they complete, in order.
pub open spec fn run_after(b: BufferView, es: Seq<NetworkPacketEvent>, now_us: u64) -> (BufferView, Seq<MessageView>)
    decreases es.len(),
{
    if es.len() == 0 {
        (b, Seq::empty())
    } else {
        let p = run_after(b, es.drop_last(), now_us);
        let q = buffer_after(p.0, es.last(), now_us);
        (q.0, p.1 + q.1)
    }
}

/// Each segment starts where the one before it ended.
pub open spec fn in_order(es: Seq<NetworkPacketEvent>) -> bool {
    forall|i: int|
        0 <= i < es.len() - 1 ==> (#[trigger] es[i + 1]).seq == es[i].seq.wrapping_add(es[i].payload_len as u32)
}

/// The payloads of `es`, one after the other.
pub open spec fn all_payloads(es: Seq<NetworkPacketEvent>) -> Seq<u8>
    decreases es.len(),
{
    if es.len() == 0 {
        Seq::empty()
    } else {
        all_payloads(es.drop_last()) + event_payload(es.last())
    }
}

proof fn lemma_occurs_in_extension(x: Seq<u8>, y: Seq<u8>, t: Seq<u8>, i: int)
    requires
        0 <= i,
        i + t.len() <= x.len(),
    ensures
        occurs_at(x + y, t, i) == occurs_at(x, t, i),
{
    assert((x + y).subrange(i, i + t.len()) =~= x.subrange(i, i + t.len()));
}

proof fn lemma_first_occurrence_at(hay: Seq<u8>, needle: Seq<u8>, p: int)
    requires
        occurs_at(hay, needle, p),
        forall|j: int| 0 <= j < p ==> !occurs_at(hay, needle, j),
    ensures
        first_occurrence(hay, needle) == Some(p),
{
    reveal(first_occurrence);
    let c = choose|i: int| occurs_at(hay, needle, i) && forall|j: int| 0 <= j < i ==> !occurs_at(hay, needle, j);
    assert(c == p);
}

/// The first occurrence of `t` in `body` is still the first once more bytes
/// follow.
proof fn lemma_first_occurrence_extends(body: Seq<u8>, y: Seq<u8>, t: Seq<u8>, p: int)
    requires
        occurs_at(body, t, p),
        forall|j: int| 0 <= j < p ==> !occurs_at(body, t, j),
    ensures
        first_occurrence(body + y, t) == Some(p),
{
    lemma_occurs_in_extension(body, y, t, p);
    assert forall|j: int| 0 <= j < p implies !occurs_at(body + y, t, j) by {
        lemma_occurs_in_extension(body, y, t, j);
    }
    lemma_first_occurrence_at(body + y, t, p);
}

proof fn lemma_minimal_occurrence_exists(hay: Seq<u8>, t: Seq<u8>, i: int)
    requires
        occurs_at(hay, t, i),
    ensures
        exists|k: int| occurs_at(hay, t, k) && forall|j: int| 0 <= j < k ==> !occurs_at(hay, t, j),
    decreases i,
{
    if exists|j: int| 0 <= j < i && occurs_at(hay, t, j) {
        let j = choose|j: int| 0 <= j < i && occurs_at(hay, t, j);
        lemma_minimal_occurrence_exists(hay, t, j);
    } else {
        assert(occurs_at(hay, t, i) && forall|j: int| 0 <= j < i ==> !occurs_at(hay, t, j));
    }
}

proof fn lemma_first_occurrence_minimal(hay: Seq<u8>, t: Seq<u8>)
    requires
        first_occurrence(hay, t) is Some,
    ensures
        occurs_at(hay, t, first_occurrence(hay, t)->0),
        forall|j: int| 0 <= j < first_occurrence(hay, t)->0 ==> !occurs_at(hay, t, j),
{
    reveal(first_occurrence);
    let i = choose|i: int| occurs_at(hay, t, i);
    lemma_minimal_occurrence_exists(hay, t, i);
}

/// A complete message stays complete, with the same length, when more bytes
/// arrive after it.
proof fn lemma_chunked_end_extends(x: Seq<u8>, y: Seq<u8>, hl: nat, n: nat)
    requires
        chunked_end(x, hl) == Some(n),
        n <= x.len(),
    ensures
        chunked_end(x + y, hl) == Some(n),
{
    reveal(chunked_end);
    let body = x.skip(hl as int);
    let t = chunk_terminator();
    assert(first_occurrence(body, t) is Some);
    let p = first_occurrence(body, t)->0;
    lemma_first_occurrence_minimal(body, t);
    assert(hl + p + 5 == n);
    assert(hl <= x.len());
    lemma_first_occurrence_extends(body, y, t, p);
    let body2 = (x + y).skip(hl as int);
    assert(body2 =~= body + y);
    assert(first_occurrence(body2, t) == Some(p));
}

proof fn lemma_message_length_extends(x: Seq<u8>, y: Seq<u8>, n: nat)
    requires
        heads_prefix_stable(),
        message_length(x) == Some(n),
        0 < n <= x.len(),
    ensures
        message_length(x + y) == Some(n),
{
    assert(head_of(x + y) == head_of(x) || head_of(x) is None);
    let (hl, fields) = head_of(x)->0;
    if is_chunked(fields) {
        lemma_chunked_end_extends(x, y, hl, n);
    }
}

/// Cutting messages off a buffer that grows: what one pass over the whole
/// buffer yields is what a pass over the first part yields, followed by a
/// pass over its remainder with the rest appended.
pub proof fn lemma_extracted_append(x: Seq<u8>, y: Seq<u8>, t: u64)
    requires
        heads_prefix_stable(),
    ensures
        extracted(x + y, t) == (
            extracted(x, t).0 + extracted(extracted(x, t).1 + y, t).0,
            extracted(extracted(x, t).1 + y, t).1,
        ),
    decreases x.len(),
{
    if x.len() == 0 {
        assert(x + y =~= y);
        assert(extracted(x, t).0 + extracted(x + y, t).0 =~= extracted(x + y, t).0);
    } else {
        match message_length(x) {
            Some(n) => if 0 < n <= x.len() {
                lemma_message_length_extends(x, y, n);
                assert((x + y).skip(n as int) =~= x.skip(n as int) + y);
                assert((x + y).take(n as int) =~= x.take(n as int));
                lemma_extracted_append(x.skip(n as int), y, t);
                let r = extracted(x.skip(n as int), t);
                let tail = extracted(r.1 + y, t);
                match parsed_message(x.take(n as int), t) {
                    Some(m) => {
                        assert(seq![m] + (r.0 + tail.0) =~= (seq![m] + r.0) + tail.0);
                    },
                    None => {},
                }
            } else {
                assert(extracted(x, t).0 + extracted(x + y, t).0 =~= extracted(x + y, t).0);
            },
            None => {
                assert(extracted(x, t).0 + extracted(x + y, t).0 =~= extracted(x + y, t).0);
            },
        }
    }
}

/// Segments that arrive in order, each starting where the last one ended,
/// are never held back: a fresh stream buffer that takes them in one after
/// the other (`buffer_after`, the step `process_incoming_payload_at` takes
/// for a segment that neither overflows nor closes its stream) holds no
/// out-of-order segment, expects the byte after the last one, and has
/// emitted exactly the messages that one pass over all their payloads,
/// joined, would cut off, keeping what that pass leaves. This rests on heads
/// being read from their own bytes alone (`heads_prefix_stable`).
pub proof fn law_in_order_segments_reassemble(es: Seq<NetworkPacketEvent>, now_us: u64)
    requires
        heads_prefix_stable(),
        es.len() > 0,
        in_order(es),
        forall|i: int| 0 <= i < es.len() ==> (#[trigger] es[i]).payload_len <= crate::probe::MAX_PAYLOAD,
    ensures
        ({
            let r = run_after(fresh_buffer(now_us), es, now_us);
            &&& r.0.segments == Map::<u32, Seq<u8>>::empty()
            &&& r.0.next_seq == es.last().seq.wrapping_add(es.last().payload_len as u32)
            &&& r.1 == extracted(all_payloads(es), now_us).0
            &&& r.0.data == extracted(all_payloads(es), now_us).1
        }),
    decreases es.len(),
{
    let d = es.drop_last();
    let e = es.last();
    let prev = run_after(fresh_buffer(now_us), d, now_us);
    let b = prev.0;
    if d.len() > 0 {
        assert(in_order(d)) by {
            assert forall|i: int| 0 <= i < d.len() - 1 implies (#[trigger] d[i + 1]).seq == d[i].seq.wrapping_add(
                d[i].payload_len as u32,
            ) by {
                assert(d[i] == es[i] && d[i + 1] == es[i + 1]);
            }
        }
        assert forall|i: int| 0 <= i < d.len() implies (#[trigger] d[i]).payload_len <= crate::probe::MAX_PAYLOAD by {
            assert(d[i] == es[i]);
        }
        law_in_order_segments_reassemble(d, now_us);
        let i = d.len() - 1;
        assert(es[i + 1].seq == es[i].seq.wrapping_add(es[i].payload_len as u32));
        assert(es[i + 1] == e && es[i] == d.last());
    } else {
        assert(b == fresh_buffer(now_us));
        assert(all_payloads(d) =~= Seq::<u8>::empty());
        assert(extracted(Seq::<u8>::empty(), now_us) == (Seq::<MessageView>::empty(), Seq::<u8>::empty()));
    }
    assert(b.segments =~= Map::<u32, Seq<u8>>::empty());
    let next = if b.next_seq == 0 { e.seq } else { b.next_seq };
    assert(next == e.seq);
    let p = event_payload(e);
    assert(e.payload@.len() == 9000);
    assert(p.len() == e.payload_len);
    let segs = if e.payload_len > 0 { b.segments.insert(e.seq, p) } else { b.segments };
    assert(segs.dom().finite()) by {
        assert(Map::<u32, Seq<u8>>::empty().dom() =~= Set::<u32>::empty());
    }
    let r = reassembled(segs, b.data, next);
    if e.payload_len > 0 {
        let rest = segs.remove(next);
        assert(rest =~= Map::<u32, Seq<u8>>::empty());
        assert(rest.dom() =~= Set::<u32>::empty());
        let n2 = next.wrapping_add(p.len() as u32);
        assert(reassembled(rest, b.data + p, n2) == (rest, b.data + p, n2));
        assert(r == (rest, b.data + p, n2));
    } else {
        assert(r == (segs, b.data, next));
        assert(b.data + p =~= b.data);
        assert(e.seq.wrapping_add(0u32) == e.seq);
    }
    assert(r.1 == b.data + p);
    assert(all_payloads(es) == all_payloads(d) + p);
    lemma_extracted_append(all_payloads(d), p, now_us);
}

} // verus!
