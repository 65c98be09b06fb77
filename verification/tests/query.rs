use dns_fastpath::parse_quick;

fn query_header(qd: u16, an: u16, ns: u16, ar: u16) -> Vec<u8> {
    let mut p = vec![0u8; 12];
    p[0] = 0x12;
    p[1] = 0x34;
    p[4..6].copy_from_slice(&qd.to_be_bytes());
    p[6..8].copy_from_slice(&an.to_be_bytes());
    p[8..10].copy_from_slice(&ns.to_be_bytes());
    p[10..12].copy_from_slice(&ar.to_be_bytes());
    p
}

#[test]
fn test_parse_quick_basic() {
    let mut packet = query_header(1, 0, 0, 0);
    packet.extend_from_slice(b"\x07example\x03com\x00\x00\x01\x00\x01");

    let mut buf = vec![0u8; 256];
    let q = parse_quick(&packet, &mut buf).expect("well-formed query");
    assert_eq!(q.tx_id, 0x1234);
    assert_eq!(q.qname, "example.com");
    assert_eq!(q.qtype, 1);
    assert_eq!(q.qclass, 1);
    assert!(!q.edns_present);
}

#[test]
fn test_parse_quick_lowercases_mixed_case() {
    let mut upper = query_header(1, 0, 0, 0);
    upper.extend_from_slice(b"\x07ExAmPlE\x03CoM\x00\x00\x01\x00\x01");
    let mut lower = query_header(1, 0, 0, 0);
    lower.extend_from_slice(b"\x07example\x03com\x00\x00\x01\x00\x01");

    let mut buf1 = vec![0u8; 256];
    let mut buf2 = vec![0u8; 256];
    let q1 = parse_quick(&upper, &mut buf1).expect("well-formed query");
    let q2 = parse_quick(&lower, &mut buf2).expect("well-formed query");
    assert_eq!(q1.qname, "example.com");
    assert_eq!(q1.qname, q2.qname);
}

#[test]
fn test_parse_quick_follows_compression_pointer() {
    // Name at 12: "www" then a pointer to the "example.com" stored at 22.
    let mut packet = query_header(1, 0, 0, 0);
    packet.extend_from_slice(b"\x03www\xc0\x16"); // 12..18
    packet.extend_from_slice(b"\x00\x01\x00\x01"); // qtype/qclass at 18..22
    packet.extend_from_slice(b"\x07example\x03com\x00"); // 22..35

    let mut buf = vec![0u8; 256];
    let q = parse_quick(&packet, &mut buf).expect("single pointer jump is allowed");
    assert_eq!(q.qname, "www.example.com");
    assert_eq!(q.qtype, 1);
    assert_eq!(q.qclass, 1);
}

fn pointer_chain_packet(extra_hops: usize) -> Vec<u8> {
    // The query name at 12 is a pointer that reaches the real name "a" after
    // `extra_hops + 1` jumps in total.
    let mut packet = query_header(1, 0, 0, 0);
    packet.extend_from_slice(&[0xc0, 0]); // name at 12: pointer, patched below
    packet.extend_from_slice(b"\x00\x01\x00\x01"); // qtype/qclass at 14..18
    let mut hops = Vec::new();
    for _ in 0..extra_hops {
        hops.push(packet.len() as u8);
        packet.extend_from_slice(&[0xc0, 0]);
    }
    let name_at = packet.len() as u8;
    packet.extend_from_slice(b"\x01a\x00");
    // Wire the chain: 12 -> hops[0] -> ... -> hops[last] -> name.
    let mut next = name_at;
    for &h in hops.iter().rev() {
        packet[h as usize + 1] = next;
        next = h;
    }
    packet[13] = next;
    packet
}

#[test]
fn test_parse_quick_four_jumps_succeed() {
    let packet = pointer_chain_packet(3);
    let mut buf = vec![0u8; 256];
    let q = parse_quick(&packet, &mut buf).expect("four jumps are within the budget");
    assert_eq!(q.qname, "a");
}

#[test]
fn test_parse_quick_five_jumps_exhaust_budget() {
    let packet = pointer_chain_packet(4);
    let mut buf = vec![0u8; 256];
    assert!(parse_quick(&packet, &mut buf).is_none());
}

#[test]
fn test_parse_quick_self_pointer_fails() {
    // The name at 12 is a pointer to offset 12: a one-record cycle.
    let mut packet = query_header(1, 0, 0, 0);
    packet.extend_from_slice(b"\xc0\x0c\x00\x01\x00\x01");

    let mut buf = vec![0u8; 256];
    assert!(parse_quick(&packet, &mut buf).is_none());
}

#[test]
fn test_parse_quick_zero_qdcount_fails() {
    let mut packet = query_header(0, 0, 0, 0);
    packet.extend_from_slice(b"\x07example\x03com\x00\x00\x01\x00\x01");

    let mut buf = vec![0u8; 256];
    assert!(parse_quick(&packet, &mut buf).is_none());
}

#[test]
fn test_parse_quick_label_overrun_fails() {
    // Label claims 63 bytes but only a handful remain.
    let mut packet = query_header(1, 0, 0, 0);
    packet.extend_from_slice(b"\x3fabc");

    let mut buf = vec![0u8; 256];
    assert!(parse_quick(&packet, &mut buf).is_none());
}

#[test]
fn test_parse_quick_missing_qtype_fails() {
    // Name is complete but only two of the four type/class bytes follow.
    let mut packet = query_header(1, 0, 0, 0);
    packet.extend_from_slice(b"\x07example\x03com\x00\x00\x01");

    let mut buf = vec![0u8; 256];
    assert!(parse_quick(&packet, &mut buf).is_none());
}

#[test]
fn test_parse_quick_buffer_exhaustion() {
    let mut packet = query_header(1, 0, 0, 0);
    packet.extend_from_slice(b"\x07example\x03com\x00\x00\x01\x00\x01");

    // "example.com" needs 11 bytes of output: 10 is one too few.
    let mut small = vec![0u8; 10];
    assert!(parse_quick(&packet, &mut small).is_none());
    let mut exact = vec![0u8; 11];
    assert!(parse_quick(&packet, &mut exact).is_some());
}

#[test]
fn test_parse_quick_replaces_invalid_utf8() {
    let mut packet = query_header(1, 0, 0, 0);
    packet.extend_from_slice(b"\x02\xff\xfe\x03com\x00\x00\x01\x00\x01");

    let mut buf = vec![0u8; 256];
    let q = parse_quick(&packet, &mut buf).expect("octets are replaced, not rejected");
    assert_eq!(q.qname, "\u{FFFD}\u{FFFD}.com");
}

#[test]
fn test_parse_quick_root_name() {
    // A root query name: empty string, nothing written to the buffer.
    let mut packet = query_header(1, 0, 0, 0);
    packet.extend_from_slice(b"\x00\x00\x02\x00\x01");

    let mut buf = vec![0u8; 256];
    let q = parse_quick(&packet, &mut buf).expect("root name is valid");
    assert_eq!(q.qname, "");
    assert_eq!(q.qtype, 2);
}

#[test]
fn test_edns_detected_on_first_additional() {
    let mut packet = query_header(1, 0, 0, 1);
    packet.extend_from_slice(b"\x07example\x03com\x00\x00\x01\x00\x01");
    // OPT pseudo-record: root name, TYPE=41, CLASS=4096, TTL=0, RDLEN=0.
    packet.extend_from_slice(b"\x00\x00\x29\x10\x00\x00\x00\x00\x00\x00\x00");

    let mut buf = vec![0u8; 256];
    let q = parse_quick(&packet, &mut buf).expect("well-formed query");
    assert!(q.edns_present);
}

#[test]
fn test_edns_detected_on_second_additional() {
    let mut packet = query_header(1, 0, 0, 2);
    packet.extend_from_slice(b"\x07example\x03com\x00\x00\x01\x00\x01");
    // First additional: name pointing at the question, TYPE=1, RDLEN=4.
    packet.extend_from_slice(b"\xc0\x0c\x00\x01\x00\x01\x00\x00\x00\x3c\x00\x04\x01\x02\x03\x04");
    // Second additional: the OPT record.
    packet.extend_from_slice(b"\x00\x00\x29\x10\x00\x00\x00\x00\x00\x00\x00");

    let mut buf = vec![0u8; 256];
    let q = parse_quick(&packet, &mut buf).expect("well-formed query");
    assert!(q.edns_present);
}

#[test]
fn test_edns_absent_when_no_opt_record() {
    let mut packet = query_header(1, 0, 0, 1);
    packet.extend_from_slice(b"\x07example\x03com\x00\x00\x01\x00\x01");
    packet.extend_from_slice(b"\xc0\x0c\x00\x01\x00\x01\x00\x00\x00\x3c\x00\x04\x01\x02\x03\x04");

    let mut buf = vec![0u8; 256];
    let q = parse_quick(&packet, &mut buf).expect("well-formed query");
    assert!(!q.edns_present);
}

#[test]
fn test_edns_not_scanned_with_answers_present() {
    // ANCOUNT != 0 is not the standard query shape: the scan is skipped even
    // though an OPT record sits in the additional section.
    let mut packet = query_header(1, 1, 0, 1);
    packet.extend_from_slice(b"\x07example\x03com\x00\x00\x01\x00\x01");
    packet.extend_from_slice(b"\xc0\x0c\x00\x01\x00\x01\x00\x00\x00\x3c\x00\x04\x01\x02\x03\x04");
    packet.extend_from_slice(b"\x00\x00\x29\x10\x00\x00\x00\x00\x00\x00\x00");

    let mut buf = vec![0u8; 256];
    let q = parse_quick(&packet, &mut buf).expect("well-formed query");
    assert!(!q.edns_present);
}

#[test]
fn test_edns_scan_failure_does_not_fail_parse() {
    // The additional record is truncated: EDNS detection gives up, but the
    // query parse itself still succeeds.
    let mut packet = query_header(1, 0, 0, 1);
    packet.extend_from_slice(b"\x07example\x03com\x00\x00\x01\x00\x01");
    packet.extend_from_slice(b"\x00\x00\x29"); // cut off mid-header

    let mut buf = vec![0u8; 256];
    let q = parse_quick(&packet, &mut buf).expect("EDNS scan is best-effort");
    assert!(!q.edns_present);
}
