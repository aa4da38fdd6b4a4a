use driftmap::capture::framed_message_length;
use driftmap::http::HeaderField;
use driftmap::capture::{try_extract_message, Reassembler, StreamKey};
use driftmap::http::HttpMessage;
use driftmap::probe::{evaluate_network_packet, event_from_record, NetworkPacketEvent, MAX_PAYLOAD, RECORD_LEN, TCP_FIN};

#[test]
fn extracts_message_with_content_length() {
    let raw = b"HTTP/1.1 200 OK\r\nContent-Length: 3\r\n\r\nabcNEXT";
    assert_eq!(try_extract_message(raw), Some(raw.len() - 4));
    assert_eq!(try_extract_message(b"HTTP/1.1 200 OK\r\nContent-Length: 3\r\n\r\nab"), None);
}

#[test]
fn extracts_message_without_body() {
    let raw = b"GET / HTTP/1.1\r\nHost: x\r\n\r\nGET /2";
    assert_eq!(try_extract_message(raw), Some(raw.len() - 6));
}

#[test]
fn incomplete_head_is_not_a_message() {
    assert_eq!(try_extract_message(b"GET / HTTP/1.1\r\nHost: x\r\n"), None);
    assert_eq!(try_extract_message(b""), None);
}

#[test]
fn extracts_chunked_message() {
    let raw = b"HTTP/1.1 200 OK\r\nTransfer-Encoding: chunked\r\n\r\n3\r\nabc\r\n0\r\n\r\nrest";
    assert_eq!(try_extract_message(raw), Some(raw.len() - 4));
    assert_eq!(try_extract_message(b"HTTP/1.1 200 OK\r\nTransfer-Encoding: chunked\r\n\r\n3\r\nabc\r\n"), None);
    // A header line ending in "0" is not the end of the chunks.
    assert_eq!(try_extract_message(b"HTTP/1.1 200 OK\r\nTransfer-Encoding: chunked\r\nX: 0\r\n\r\n5\r\nhel"), None);
    let raw = b"HTTP/1.1 200 OK\r\nTransfer-Encoding: chunked\r\nX: 0\r\n\r\n0\r\n\r\n";
    assert_eq!(try_extract_message(raw), Some(raw.len()));
}

fn event(seq: u32, flags: u16, payload: &[u8]) -> NetworkPacketEvent {
    let mut buf = [0u8; 9000];
    buf[..payload.len()].copy_from_slice(payload);
    NetworkPacketEvent {
        src_ip: [10, 0, 0, 1],
        dst_ip: [10, 0, 0, 2],
        src_port: 40000,
        dst_port: 8080,
        seq,
        ack: 0,
        tcp_flags: flags,
        payload_len: payload.len() as u16,
        payload: buf,
    }
}

#[test]
fn reassembles_segments_in_order_and_out_of_order() {
    let mut r = Reassembler::new();
    assert_eq!(r.timeout_ms, 5000);
    let first = b"GET /users/1 HTTP/1.1\r\nHo";
    let second = b"st: x\r\n\r\n";
    let out = r.process_incoming_payload_at(&event(100, 0, first), 1_000);
    assert!(out.is_empty());
    let out = r.process_incoming_payload_at(&event(100 + first.len() as u32, 0, second), 2_000);
    assert_eq!(out.len(), 1);
    match &out[0].1 {
        HttpMessage::Request(req) => {
            assert_eq!(req.path_template, "/users/:id");
            assert_eq!(req.captured_at, 2_000);
        }
        _ => panic!("expected a request"),
    }
    assert_eq!(out[0].0.dst_port, 8080);

    let mut r = Reassembler::new();
    let a = b"GET /a HTTP/1.1\r\n";
    let b = b"\r\n";
    assert!(r.process_incoming_payload_at(&event(10, 0, a), 0).is_empty());
    assert!(r.process_incoming_payload_at(&event(10 + a.len() as u32 + 2, 0, b"XX"), 0).is_empty());
    let out = r.process_incoming_payload_at(&event(10 + a.len() as u32, 0, b), 0);
    assert_eq!(out.len(), 1);
}

#[test]
fn fin_closes_the_stream() {
    let mut r = Reassembler::new();
    assert!(r.process_incoming_payload_at(&event(1, 0, b"GET / HTTP/1.1\r\n"), 0).is_empty());
    assert_eq!(r.streams.len(), 1);
    let out = r.process_incoming_payload_at(&event(17, TCP_FIN, b"\r\n"), 0);
    assert_eq!(out.len(), 1);
    assert_eq!(r.streams.len(), 0);
}

#[test]
fn stale_streams_are_forgotten() {
    let mut r = Reassembler::new();
    assert!(r.process_incoming_payload_at(&event(1, 0, b"GET"), 1_000_000).is_empty());
    r.collect_stale_connections_at(3_000);
    assert_eq!(r.streams.len(), 1);
    r.collect_stale_connections_at(6_000);
    assert_eq!(r.streams.len(), 0);
}

#[test]
fn stream_keys_are_distinct_per_direction() {
    let a = StreamKey { src_ip: [1, 2, 3, 4], dst_ip: [5, 6, 7, 8], src_port: 1, dst_port: 2 };
    let b = StreamKey { src_ip: [5, 6, 7, 8], dst_ip: [1, 2, 3, 4], src_port: 2, dst_port: 1 };
    assert_ne!(a.id(), b.id());
    assert_eq!(a.id(), a.id());
}

fn frame_with_ihl(ether: [u8; 2], proto: u8, ihl: u8, src_port: u16, dst_port: u16, flags: u16, doff: u8, payload: &[u8]) -> Vec<u8> {
    let t = 14 + 4 * ihl as usize;
    let mut f = vec![0u8; t + 20];
    f[12] = ether[0];
    f[13] = ether[1];
    f[14] = 0x40 | ihl;
    f[23] = proto;
    f[26..30].copy_from_slice(&[192, 168, 0, 1]);
    f[30..34].copy_from_slice(&[192, 168, 0, 2]);
    for b in f[34..t].iter_mut() {
        *b = 0xee;
    }
    f[t..t + 2].copy_from_slice(&src_port.to_be_bytes());
    f[t + 2..t + 4].copy_from_slice(&dst_port.to_be_bytes());
    f[t + 4..t + 8].copy_from_slice(&7u32.to_be_bytes());
    f[t + 8..t + 12].copy_from_slice(&9u32.to_be_bytes());
    f[t + 12] = (doff << 4) | ((flags >> 8) as u8 & 0x0f);
    f[t + 13] = flags as u8;
    f.extend_from_slice(payload);
    f
}

fn frame(ether: [u8; 2], proto: u8, src_port: u16, dst_port: u16, flags: u16, doff: u8, payload: &[u8]) -> Vec<u8> {
    frame_with_ihl(ether, proto, 5, src_port, dst_port, flags, doff, payload)
}

#[test]
fn probe_reads_the_tcp_header_after_ip_options() {
    let f = frame_with_ihl([0x08, 0x00], 6, 7, 40000, 8080, 0x018, 5, b"hello");
    let e = evaluate_network_packet(&f, &[8080]).unwrap();
    assert_eq!((e.src_port, e.dst_port), (40000, 8080));
    assert_eq!((e.seq, e.ack), (7, 9));
    assert_eq!(e.tcp_flags, 0x018);
    assert_eq!(e.payload_len, 5);
    assert_eq!(&e.payload[..5], b"hello");
    // A TCP header cut short by the end of the frame is not read.
    let mut short = frame_with_ihl([0x08, 0x00], 6, 15, 40000, 8080, 0x018, 5, b"");
    short.truncate(14 + 60 + 10);
    assert!(evaluate_network_packet(&short, &[8080]).is_none());
}

#[test]
fn probe_records_are_read_field_by_field() {
    let mut b = vec![0u8; RECORD_LEN];
    b[0..4].copy_from_slice(&[10, 0, 0, 1]);
    b[4..8].copy_from_slice(&[10, 0, 0, 2]);
    b[8..10].copy_from_slice(&40000u16.to_le_bytes());
    b[10..12].copy_from_slice(&8080u16.to_le_bytes());
    b[12..16].copy_from_slice(&0x01020304u32.to_le_bytes());
    b[16..20].copy_from_slice(&0x0a0b0c0du32.to_le_bytes());
    b[20..22].copy_from_slice(&0x011u16.to_le_bytes());
    b[22..24].copy_from_slice(&3u16.to_le_bytes());
    b[24..27].copy_from_slice(b"abc");
    let e = event_from_record(&b).unwrap();
    assert_eq!((e.src_ip, e.dst_ip), ([10, 0, 0, 1], [10, 0, 0, 2]));
    assert_eq!((e.src_port, e.dst_port), (40000, 8080));
    assert_eq!((e.seq, e.ack), (0x01020304, 0x0a0b0c0d));
    assert_eq!((e.tcp_flags, e.payload_len), (0x011, 3));
    assert_eq!(&e.payload[..3], b"abc");
    assert!(event_from_record(&b[..RECORD_LEN - 1]).is_none());
}

#[test]
fn probe_reports_watched_tcp_segments_with_payload() {
    let f = frame([0x08, 0x00], 6, 40000, 8080, 0x018, 5, b"hello");
    let e = evaluate_network_packet(&f, &[8080]).unwrap();
    assert_eq!(e.src_ip, [192, 168, 0, 1]);
    assert_eq!(e.dst_ip, [192, 168, 0, 2]);
    assert_eq!((e.src_port, e.dst_port), (40000, 8080));
    assert_eq!((e.seq, e.ack), (7, 9));
    assert_eq!(e.tcp_flags, 0x018);
    assert_eq!(e.payload_len, 5);
    assert_eq!(&e.payload[..5], b"hello");
}

#[test]
fn probe_ignores_other_traffic() {
    let payload = b"x";
    assert!(evaluate_network_packet(&frame([0x86, 0xdd], 6, 1, 8080, 0, 5, payload), &[8080]).is_none());
    assert!(evaluate_network_packet(&frame([0x08, 0x00], 17, 1, 8080, 0, 5, payload), &[8080]).is_none());
    assert!(evaluate_network_packet(&frame([0x08, 0x00], 6, 1, 2, 0, 5, payload), &[8080]).is_none());
    assert!(evaluate_network_packet(&frame([0x08, 0x00], 6, 1, 8080, 0x010, 5, b""), &[8080]).is_none());
    assert!(evaluate_network_packet(&[0u8; 20], &[8080]).is_none());
}

#[test]
fn probe_reports_closing_segments_and_honours_data_offset() {
    let e = evaluate_network_packet(&frame([0x08, 0x00], 6, 8080, 1, TCP_FIN, 5, b""), &[8080]).unwrap();
    assert_eq!(e.payload_len, 0);
    let f = frame([0x08, 0x00], 6, 8080, 1, 0, 6, b"OPTSdata");
    let e = evaluate_network_packet(&f, &[8080]).unwrap();
    assert_eq!(e.payload_len, 4);
    assert_eq!(&e.payload[..4], b"data");
    let big = vec![b'z'; MAX_PAYLOAD + 10];
    let e = evaluate_network_packet(&frame([0x08, 0x00], 6, 8080, 1, 0, 5, &big), &[8080]).unwrap();
    assert_eq!(e.payload_len as usize, MAX_PAYLOAD);
}

#[test]
fn process_and_collect_at_the_current_time() {
    let mut r = Reassembler::new();
    let out = r.process_incoming_payload(&event(1, 0, b"HTTP/1.1 204 No Content\r\n\r\n"));
    assert_eq!(out.len(), 1);
    match &out[0].1 {
        HttpMessage::Response(res) => {
            assert_eq!(res.status, 204);
            assert!(res.captured_at > 0);
        }
        _ => panic!("expected a response"),
    }
    r.collect_stale_connections();
    assert_eq!(r.streams.len(), 1);
}

#[test]
fn streams_are_dropped_past_one_mebibyte() {
    let mut r = Reassembler::new();
    let chunk = vec![b'x'; MAX_PAYLOAD];
    let mut seq: u32 = 1;
    for _ in 0..116 {
        assert!(r.process_incoming_payload_at(&event(seq, 0, &chunk), 0).is_empty());
        seq += MAX_PAYLOAD as u32;
    }
    assert_eq!(r.streams.len(), 1);
    let key = StreamKey { src_ip: [10, 0, 0, 1], dst_ip: [10, 0, 0, 2], src_port: 40000, dst_port: 8080 };
    assert_eq!(r.streams.get(&key.id()).unwrap().data.len(), 116 * MAX_PAYLOAD);
    assert!(r.process_incoming_payload_at(&event(seq, 0, &chunk), 0).is_empty());
    assert_eq!(r.streams.len(), 0);
}

#[test]
fn held_out_of_order_segments_count_toward_the_cap() {
    let mut r = Reassembler::new();
    let chunk = vec![b'x'; MAX_PAYLOAD];
    let step = MAX_PAYLOAD as u32 + 1;
    for i in 0..116u32 {
        assert!(r.process_incoming_payload_at(&event(1 + i * step, 0, &chunk), 0).is_empty());
    }
    let key = StreamKey { src_ip: [10, 0, 0, 1], dst_ip: [10, 0, 0, 2], src_port: 40000, dst_port: 8080 };
    let b = r.streams.get(&key.id()).unwrap();
    assert_eq!(b.data.len(), MAX_PAYLOAD);
    assert_eq!(b.segments.len(), 115);
    assert_eq!(b.held_bytes, 115 * MAX_PAYLOAD);
    assert!(r.process_incoming_payload_at(&event(1 + 116 * step, 0, &chunk), 0).is_empty());
    assert_eq!(r.streams.len(), 0);
}

#[test]
fn in_order_segments_yield_what_one_pass_over_their_bytes_yields() {
    let whole: &[u8] = b"GET /a HTTP/1.1\r\n\r\nGET /b HTTP/1.1\r\nContent-Length: 2\r\n\r\nokGE";
    let cuts = [7usize, 25, 44, 60];
    let mut r = Reassembler::new();
    let mut seq: u32 = 5000;
    let mut start = 0usize;
    let mut paths = Vec::new();
    for &end in cuts.iter().chain(std::iter::once(&whole.len())) {
        let piece = &whole[start..end];
        for (_, m) in r.process_incoming_payload_at(&event(seq, 0, piece), 0) {
            match m {
                HttpMessage::Request(req) => paths.push(req.path),
                _ => panic!("expected a request"),
            }
        }
        seq = seq.wrapping_add(piece.len() as u32);
        start = end;
    }
    assert_eq!(paths, vec!["/a".to_string(), "/b".to_string()]);
    let key = StreamKey { src_ip: [10, 0, 0, 1], dst_ip: [10, 0, 0, 2], src_port: 40000, dst_port: 8080 };
    let b = r.streams.get(&key.id()).unwrap();
    assert_eq!(b.data, b"GE".to_vec());
    assert!(b.segments.is_empty());
    assert_eq!(b.next_seq, seq);
}

#[test]
fn messages_end_where_their_heads_say() {
    let field = |n: &str, v: &str| HeaderField { name: n.to_string(), value: v.as_bytes().to_vec() };
    let data = b"0123456789abcdef";
    assert_eq!(framed_message_length(data, 4, &vec![field("Content-Length", "5")]), Some(9));
    assert_eq!(framed_message_length(data, 4, &vec![field("Content-Length", "50")]), None);
    assert_eq!(framed_message_length(data, 4, &vec![]), Some(4));
    let chunked = b"HEAD0\r\n\r\nrest";
    assert_eq!(framed_message_length(chunked, 4, &vec![field("Transfer-Encoding", "Chunked")]), Some(9));
    assert_eq!(framed_message_length(chunked, 5, &vec![field("Transfer-Encoding", "chunked")]), None);
}
