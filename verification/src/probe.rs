//! The record the kernel probe hands to user space for each captured TCP segment.
use vstd::prelude::*;

verus! {

/// Largest payload the probe copies out of one segment.
pub const MAX_PAYLOAD: usize = 9000;

/// TCP flag bits as they appear in `tcp_flags`.
pub const TCP_FIN: u16 = 0x001;
pub const TCP_RST: u16 = 0x004;

/// One captured TCP segment: addresses, ports, sequence numbers, flags and
/// the first `payload_len` bytes of `payload`.
#[derive(Clone, Copy)]
pub struct NetworkPacketEvent {
    pub src_ip: [u8; 4],
    pub dst_ip: [u8; 4],
    pub src_port: u16,
    pub dst_port: u16,
    pub seq: u32,
    pub ack: u32,
    pub tcp_flags: u16,
    pub payload_len: u16,
    pub payload: [u8; 9000],
}

/// The length of an Ethernet header.
pub const ETH_HEADER_LEN: usize = 14;

/// The length of an IPv4 header without options, and of a TCP header
/// without options.
pub const BASE_HEADER_LEN: usize = 20;

/// The big-endian 16-bit number at `at`.
pub open spec fn be16(f: Seq<u8>, at: int) -> int {
    f[at] as int * 0x100 + f[at + 1] as int
}

/// The big-endian 32-bit number at `at`.
pub open spec fn be32(f: Seq<u8>, at: int) -> int {
    f[at] as int * 0x100_0000 + f[at + 1] as int * 0x1_0000 + f[at + 2] as int * 0x100 + f[at + 3] as int
}

/// Where the TCP header starts: after the Ethernet header and the IPv4
/// header, whose length (options included) is its IHL field, the low four
/// bits of its first byte, in 32-bit words.
pub open spec fn tcp_offset(f: Seq<u8>) -> int {
    ETH_HEADER_LEN + (f[ETH_HEADER_LEN as int] as int % 16) * 4
}

/// The frame holds an IPv4 header and, where that header says the TCP
/// header starts, a whole TCP header.
pub open spec fn headers_present(f: Seq<u8>) -> bool {
    f.len() >= ETH_HEADER_LEN + BASE_HEADER_LEN && f.len() >= tcp_offset(f) + BASE_HEADER_LEN
}

/// The TCP flag bits: the low 12 bits of the 16-bit word at offset 12 of the
/// TCP header.
pub open spec fn frame_flags(f: Seq<u8>) -> int {
    (f[tcp_offset(f) + 12] as int % 16) * 0x100 + f[tcp_offset(f) + 13] as int
}

/// Where the payload starts: the TCP header's data offset counts 32-bit words.
pub open spec fn payload_start(f: Seq<u8>) -> int {
    tcp_offset(f) + (f[tcp_offset(f) + 12] as int / 16) * 4
}

/// How many payload bytes are captured: what follows the headers, at most
/// `MAX_PAYLOAD`.
pub open spec fn captured_len(f: Seq<u8>) -> int {
    let rest = if f.len() > payload_start(f) { f.len() - payload_start(f) } else { 0 };
    if rest > MAX_PAYLOAD { MAX_PAYLOAD as int } else { rest }
}

/// The captured payload bytes.
pub open spec fn captured_payload(f: Seq<u8>) -> Seq<u8> {
    if captured_len(f) > 0 {
        f.subrange(payload_start(f), payload_start(f) + captured_len(f))
    } else {
        Seq::empty()
    }
}

/// A frame the probe reports: an IPv4 TCP segment to or from a watched port
/// that carries payload or closes or resets the connection.
pub open spec fn reported(f: Seq<u8>, watched: Seq<u16>) -> bool {
    &&& headers_present(f)
    &&& f[12] == 0x08 && f[13] == 0x00
    &&& f[23] == 6
    &&& (watched.contains(be16(f, tcp_offset(f)) as u16) || watched.contains(be16(f, tcp_offset(f) + 2) as u16))
    &&& (captured_len(f) > 0 || frame_flags(f) % 2 == 1 || (frame_flags(f) / 4) % 2 == 1)
}

/// The record the probe hands to user space for a frame, if it reports it
/// (see `reported`): addresses from the IPv4 header; ports, sequence and
/// acknowledgement numbers and flags from the TCP header, wherever the IPv4
/// header's length puts it; and the captured payload.
pub fn evaluate_network_packet(frame: &[u8], watched_ports: &[u16]) -> (r: Option<NetworkPacketEvent>)
    ensures
        r is Some <==> reported(frame@, watched_ports@),
        r matches Some(e) ==> {
            let t = tcp_offset(frame@);
            &&& e.src_ip@ == frame@.subrange(26, 30)
            &&& e.dst_ip@ == frame@.subrange(30, 34)
            &&& e.src_port == be16(frame@, t)
            &&& e.dst_port == be16(frame@, t + 2)
            &&& e.seq == be32(frame@, t + 4)
            &&& e.ack == be32(frame@, t + 8)
            &&& e.tcp_flags == frame_flags(frame@)
            &&& e.payload_len == captured_len(frame@)
            &&& e.payload@.take(e.payload_len as int) == captured_payload(frame@)
        },
{
    if frame.len() < ETH_HEADER_LEN + BASE_HEADER_LEN {
        return None;
    }
    let t: usize = ETH_HEADER_LEN + ((frame[ETH_HEADER_LEN] % 16) as usize) * 4;
    if frame.len() < t + BASE_HEADER_LEN {
        return None;
    }
    if frame[12] != 0x08 || frame[13] != 0x00 || frame[23] != 6 {
        return None;
    }
    let src_port: u16 = (frame[t] as u16) * 0x100 + frame[t + 1] as u16;
    let dst_port: u16 = (frame[t + 2] as u16) * 0x100 + frame[t + 3] as u16;
    if !has_port(watched_ports, src_port) && !has_port(watched_ports, dst_port) {
        return None;
    }
    let flags: u16 = ((frame[t + 12] % 16) as u16) * 0x100 + frame[t + 13] as u16;
    let start: usize = t + ((frame[t + 12] / 16) as usize) * 4;
    let rest: usize = if frame.len() > start { frame.len() - start } else { 0 };
    let len: usize = if rest > MAX_PAYLOAD { MAX_PAYLOAD } else { rest };
    let closing = flags % 2 == 1 || (flags / 4) % 2 == 1;
    if len == 0 && !closing {
        return None;
    }
    let mut payload = [0u8; 9000];
    let mut i: usize = 0;
    while i < len
        invariant
            i <= len,
            len <= MAX_PAYLOAD,
            len > 0 ==> start + len <= frame.len(),
            payload@.len() == 9000,
            forall|j: int| 0 <= j < i ==> #[trigger] payload@[j] == frame@[start + j],
        decreases len - i,
    {
        payload[i] = frame[start + i];
        i = i + 1;
    }
    let e = NetworkPacketEvent {
        src_ip: [frame[26], frame[27], frame[28], frame[29]],
        dst_ip: [frame[30], frame[31], frame[32], frame[33]],
        src_port,
        dst_port,
        seq: (frame[t + 4] as u32) * 0x100_0000 + (frame[t + 5] as u32) * 0x1_0000 + (frame[t + 6] as u32) * 0x100
            + frame[t + 7] as u32,
        ack: (frame[t + 8] as u32) * 0x100_0000 + (frame[t + 9] as u32) * 0x1_0000 + (frame[t + 10] as u32) * 0x100
            + frame[t + 11] as u32,
        tcp_flags: flags,
        payload_len: len as u16,
        payload,
    };
    assert(e.src_ip@ =~= frame@.subrange(26, 30));
    assert(e.dst_ip@ =~= frame@.subrange(30, 34));
    if len > 0 {
        assert(e.payload@.take(len as int) =~= frame@.subrange(start as int, start + len));
    } else {
        assert(e.payload@.take(len as int) =~= Seq::<u8>::empty());
    }
    Some(e)
}

/// The length of the record the probe writes for a segment: the fields of
/// `NetworkPacketEvent` in order, in C layout, then the payload buffer.
pub const RECORD_LEN: usize = 9024;

/// The little-endian 16-bit number at `at`.
pub open spec fn le16(b: Seq<u8>, at: int) -> int {
    b[at] as int + b[at + 1] as int * 0x100
}

/// The little-endian 32-bit number at `at`.
pub open spec fn le32(b: Seq<u8>, at: int) -> int {
    b[at] as int + b[at + 1] as int * 0x100 + b[at + 2] as int * 0x1_0000 + b[at + 3] as int * 0x100_0000
}

/// Reads a record as the probe lays it out in the ring buffer: the two
/// addresses at 0 and 4, the ports at 8 and 10, sequence and acknowledgement
/// numbers at 12 and 16, flags at 20, the payload length at 22 and the
/// payload buffer from 24, numbers in the probe's little-endian byte order.
/// A buffer shorter than a record holds none.
pub fn event_from_record(b: &[u8]) -> (r: Option<NetworkPacketEvent>)
    ensures
        r is Some <==> b.len() >= RECORD_LEN,
        r matches Some(e) ==> {
            &&& e.src_ip@ == b@.subrange(0, 4)
            &&& e.dst_ip@ == b@.subrange(4, 8)
            &&& e.src_port == le16(b@, 8)
            &&& e.dst_port == le16(b@, 10)
            &&& e.seq == le32(b@, 12)
            &&& e.ack == le32(b@, 16)
            &&& e.tcp_flags == le16(b@, 20)
            &&& e.payload_len == le16(b@, 22)
            &&& e.payload@ == b@.subrange(24, RECORD_LEN as int)
        },
{
    if b.len() < RECORD_LEN {
        return None;
    }
    let mut payload = [0u8; 9000];
    let mut i: usize = 0;
    while i < MAX_PAYLOAD
        invariant
            i <= MAX_PAYLOAD,
            b.len() >= RECORD_LEN,
            payload@.len() == 9000,
            forall|j: int| 0 <= j < i ==> #[trigger] payload@[j] == b@[24 + j],
        decreases MAX_PAYLOAD - i,
    {
        payload[i] = b[24 + i];
        i = i + 1;
    }
    let e = NetworkPacketEvent {
        src_ip: [b[0], b[1], b[2], b[3]],
        dst_ip: [b[4], b[5], b[6], b[7]],
        src_port: b[8] as u16 + (b[9] as u16) * 0x100,
        dst_port: b[10] as u16 + (b[11] as u16) * 0x100,
        seq: b[12] as u32 + (b[13] as u32) * 0x100 + (b[14] as u32) * 0x1_0000 + (b[15] as u32) * 0x100_0000,
        ack: b[16] as u32 + (b[17] as u32) * 0x100 + (b[18] as u32) * 0x1_0000 + (b[19] as u32) * 0x100_0000,
        tcp_flags: b[20] as u16 + (b[21] as u16) * 0x100,
        payload_len: b[22] as u16 + (b[23] as u16) * 0x100,
        payload,
    };
    assert(e.src_ip@ =~= b@.subrange(0, 4));
    assert(e.dst_ip@ =~= b@.subrange(4, 8));
    assert(e.payload@ =~= b@.subrange(24, RECORD_LEN as int));
    Some(e)
}

/// Whether `port` is among `ports`.
fn has_port(ports: &[u16], port: u16) -> (r: bool)
    ensures
        r == ports@.contains(port),
{
    let mut i: usize = 0;
    while i < ports.len()
        invariant
            i <= ports.len(),
            forall|j: int| 0 <= j < i ==> ports@[j] != port,
        decreases ports.len() - i,
    {
        if ports[i] == port {
            assert(ports@[i as int] == port);
            return true;
        }
        i = i + 1;
    }
    false
}

} // verus!
