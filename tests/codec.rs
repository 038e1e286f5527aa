use dns_server_example::{
    BytePacketBuffer, DnsError, Header, Packet, QueryType, Question, Record, ResponseCode,
};

fn buffer_with(bytes: &[u8]) -> BytePacketBuffer {
    let mut b = BytePacketBuffer::new();
    b.buffer[..bytes.len()].copy_from_slice(bytes);
    b
}

fn written(b: &BytePacketBuffer) -> Vec<u8> {
    b.buffer[..b.position].to_vec()
}

#[test]
fn new_buffer_is_zeroed_at_start() {
    let b = BytePacketBuffer::new();
    assert_eq!(b.position, 0);
    assert!(b.buffer.iter().all(|x| *x == 0));
}

#[test]
fn reads_integers_big_endian() {
    let mut b = buffer_with(&[0x12, 0x34, 0xDE, 0xAD, 0xBE, 0xEF]);
    assert_eq!(b.read_u16(), Ok(0x1234));
    assert_eq!(b.read_u32(), Ok(0xDEADBEEF));
    assert_eq!(b.position, 6);
}

#[test]
fn read_past_end_overruns() {
    let mut b = BytePacketBuffer::new();
    b.seek(511).unwrap();
    assert_eq!(b.read_u16(), Err(DnsError::BufferOverrun));
    b.seek(508).unwrap();
    assert_eq!(b.read_u32(), Ok(0));
    assert_eq!(b.read(), Err(DnsError::BufferOverrun));
    assert_eq!(b.get(512), Err(DnsError::BufferOverrun));
    assert_eq!(b.get(511), Ok(0));
}

#[test]
fn get_range_rejects_a_range_reaching_the_last_byte() {
    let b = buffer_with(&[1, 2, 3, 4]);
    assert_eq!(b.get_range(1, 2), Ok(&[2u8, 3u8][..]));
    assert!(b.get_range(500, 11).is_ok());
    assert_eq!(b.get_range(500, 12), Err(DnsError::BufferOverrun));
    assert_eq!(b.get_range(0, 512), Err(DnsError::BufferOverrun));
}

#[test]
fn writes_integers_big_endian() {
    let mut b = BytePacketBuffer::new();
    b.write_u8(0xAB).unwrap();
    b.write_u16(0x1234).unwrap();
    b.write_u32(0xDEADBEEF).unwrap();
    assert_eq!(written(&b), vec![0xAB, 0x12, 0x34, 0xDE, 0xAD, 0xBE, 0xEF]);
}

#[test]
fn write_past_end_overruns() {
    let mut b = BytePacketBuffer::new();
    b.seek(511).unwrap();
    assert_eq!(b.write_u16(7), Err(DnsError::BufferOverrun));
    b.seek(512).unwrap();
    assert_eq!(b.write_u8(7), Err(DnsError::BufferOverrun));
    b.seek(508).unwrap();
    assert_eq!(b.write_u32(7), Ok(()));
    assert_eq!(b.position, 512);
}

#[test]
fn step_and_set_u16_backpatch() {
    let mut b = BytePacketBuffer::new();
    b.step(3).unwrap();
    assert_eq!(b.position, 3);
    b.set_u16(1, 0xBEEF).unwrap();
    assert_eq!(b.position, 3);
    assert_eq!(&b.buffer[..4], &[0, 0xBE, 0xEF, 0]);
}

#[test]
fn writes_a_name_label_by_label() {
    let mut b = BytePacketBuffer::new();
    b.write_query_name("www.google.com").unwrap();
    let mut expected = vec![3u8];
    expected.extend_from_slice(b"www");
    expected.push(6);
    expected.extend_from_slice(b"google");
    expected.push(3);
    expected.extend_from_slice(b"com");
    expected.push(0);
    assert_eq!(written(&b), expected);
}

#[test]
fn writes_the_empty_name_as_an_empty_label_and_the_end() {
    let mut b = BytePacketBuffer::new();
    b.write_query_name("").unwrap();
    assert_eq!(written(&b), vec![0, 0]);
}

#[test]
fn label_of_64_bytes_is_too_long() {
    let name = format!("{}.com", "a".repeat(64));
    let mut b = BytePacketBuffer::new();
    assert_eq!(b.write_query_name(&name), Err(DnsError::LabelTooLong));
}

#[test]
fn label_of_63_bytes_is_written() {
    let name = format!("{}.com", "a".repeat(63));
    let mut b = BytePacketBuffer::new();
    assert_eq!(b.write_query_name(&name), Ok(()));
    assert_eq!(b.position, 1 + 63 + 1 + 3 + 1);
    b.seek(0).unwrap();
    let mut out = String::new();
    b.read_query_name(&mut out).unwrap();
    assert_eq!(out, name);
}

#[test]
fn long_label_after_a_full_buffer_overruns_first() {
    let name = format!("abc.{}", "a".repeat(64));
    let mut b = BytePacketBuffer::new();
    b.seek(510).unwrap();
    assert_eq!(b.write_query_name(&name), Err(DnsError::BufferOverrun));
    b.seek(400).unwrap();
    assert_eq!(b.write_query_name(&name), Err(DnsError::LabelTooLong));
}

#[test]
fn name_that_does_not_fit_overruns() {
    let mut b = BytePacketBuffer::new();
    b.seek(505).unwrap();
    assert_eq!(b.write_query_name("example.com"), Err(DnsError::BufferOverrun));
}

#[test]
fn reads_a_name_in_lower_case() {
    let mut b = buffer_with(b"\x03WwW\x07Example\x03COM\x00\xFF");
    let mut out = String::new();
    b.read_query_name(&mut out).unwrap();
    assert_eq!(out, "www.example.com");
    assert_eq!(b.position, 17);
}

#[test]
fn read_name_appends_to_what_is_there() {
    let mut b = buffer_with(b"\x03com\x00");
    let mut out = String::from("x:");
    b.read_query_name(&mut out).unwrap();
    assert_eq!(out, "x:com");
}

#[test]
fn bytes_that_are_not_utf8_read_as_replacement_characters() {
    let mut b = buffer_with(&[2, b'a', 0xFF, 0]);
    let mut out = String::new();
    b.read_query_name(&mut out).unwrap();
    assert_eq!(out, "a\u{FFFD}");
}

#[test]
fn compressed_name_reads_as_the_name_written_in_full() {
    // "example.com" at 0, then "www" followed by a pointer to it at 13.
    let mut compressed = b"\x07example\x03com\x00".to_vec();
    compressed.extend_from_slice(b"\x03www\xC0\x00");
    let mut b = buffer_with(&compressed);
    b.seek(13).unwrap();
    let mut out = String::new();
    b.read_query_name(&mut out).unwrap();
    // The cursor rests just past the pointer.
    assert_eq!(b.position, 19);

    let mut full = b"\x07example\x03com\x00".to_vec();
    full.extend_from_slice(b"\x03www\x07example\x03com\x00");
    let mut b2 = buffer_with(&full);
    b2.seek(13).unwrap();
    let mut out2 = String::new();
    b2.read_query_name(&mut out2).unwrap();
    assert_eq!(out, out2);
    assert_eq!(out, "www.example.com");
}

/// A name "a" at 0, then two-byte pointers at 10, 12, ..., each to the one
/// before it (the first to 0).
fn pointer_chain(hops: usize) -> (BytePacketBuffer, usize) {
    let mut bytes = vec![0u8; 10 + 2 * hops];
    bytes[0] = 1;
    bytes[1] = b'a';
    bytes[2] = 0;
    let mut target = 0usize;
    for i in 0..hops {
        let at = 10 + 2 * i;
        bytes[at] = 0xC0 | (target >> 8) as u8;
        bytes[at + 1] = (target & 0xFF) as u8;
        target = at;
    }
    (buffer_with(&bytes), target)
}

#[test]
fn chain_of_five_pointers_is_followed() {
    let (mut b, start) = pointer_chain(5);
    b.seek(start).unwrap();
    let mut out = String::new();
    assert_eq!(b.read_query_name(&mut out), Ok(()));
    assert_eq!(out, "a");
    assert_eq!(b.position, start + 2);
}

#[test]
fn chain_of_six_pointers_is_a_loop() {
    let (mut b, start) = pointer_chain(6);
    b.seek(start).unwrap();
    let mut out = String::new();
    assert_eq!(b.read_query_name(&mut out), Err(DnsError::CompressionLoop));
}

#[test]
fn chain_of_seven_pointers_is_a_loop() {
    let (mut b, start) = pointer_chain(7);
    b.seek(start).unwrap();
    let mut out = String::new();
    assert_eq!(b.read_query_name(&mut out), Err(DnsError::CompressionLoop));
}

#[test]
fn pointer_to_itself_is_a_loop() {
    let mut b = buffer_with(&[0xC0, 0x00]);
    let mut out = String::new();
    assert_eq!(b.read_query_name(&mut out), Err(DnsError::CompressionLoop));
}

#[test]
fn name_running_off_the_buffer_overruns() {
    let mut b = BytePacketBuffer::new();
    b.buffer[505] = 10;
    b.seek(505).unwrap();
    let mut out = String::new();
    assert_eq!(b.read_query_name(&mut out), Err(DnsError::BufferOverrun));
}

#[test]
fn response_code_numbers() {
    assert_eq!(ResponseCode::from(0), ResponseCode::NOERROR);
    assert_eq!(ResponseCode::from(1), ResponseCode::FORMERR);
    assert_eq!(ResponseCode::from(2), ResponseCode::SERVFAIL);
    assert_eq!(ResponseCode::from(3), ResponseCode::NXDOMAIN);
    assert_eq!(ResponseCode::from(4), ResponseCode::NOTIMP);
    assert_eq!(ResponseCode::from(5), ResponseCode::REFUSED);
    assert_eq!(ResponseCode::from(9), ResponseCode::NOERROR);
    assert_eq!(ResponseCode::NXDOMAIN.to_num(), 3);
}

#[test]
fn query_type_numbers() {
    assert_eq!(QueryType::from(1), QueryType::A);
    assert_eq!(QueryType::from(2), QueryType::NS);
    assert_eq!(QueryType::from(5), QueryType::CNAME);
    assert_eq!(QueryType::from(15), QueryType::MX);
    assert_eq!(QueryType::from(28), QueryType::AAAA);
    assert_eq!(QueryType::from(99), QueryType::UNKNOWN(99));
    let n: u16 = QueryType::AAAA.into();
    assert_eq!(n, 28);
    assert_eq!(u16::from(QueryType::UNKNOWN(77)), 77);
}

#[test]
fn header_flag_layout() {
    let mut h = Header::new();
    h.id = 0xBEEF;
    h.rd = true;
    h.opcode = 2;
    h.response = true;
    h.rcode = ResponseCode::NXDOMAIN;
    h.ra = true;
    h.qdcount = 1;
    h.arcount = 0x0102;
    let mut b = BytePacketBuffer::new();
    h.write(&mut b).unwrap();
    assert_eq!(
        written(&b),
        vec![0xBE, 0xEF, 0b1001_0001, 0b1000_0011, 0, 1, 0, 0, 0, 0, 1, 2]
    );
}

#[test]
fn header_round_trips_for_every_flag_combination() {
    let codes = [
        ResponseCode::NOERROR,
        ResponseCode::FORMERR,
        ResponseCode::SERVFAIL,
        ResponseCode::NXDOMAIN,
        ResponseCode::NOTIMP,
        ResponseCode::REFUSED,
    ];
    for flags in 0u32..512 {
        for opcode in 0u8..16 {
            for rcode in codes {
                let mut h = Header::new();
                h.id = 0x1234;
                h.rd = flags & 1 != 0;
                h.tc = flags & 2 != 0;
                h.aa = flags & 4 != 0;
                h.response = flags & 8 != 0;
                h.cd = flags & 16 != 0;
                h.ad = flags & 32 != 0;
                h.z = flags & 64 != 0;
                h.ra = flags & 128 != 0;
                h.qdcount = (flags & 256) as u16;
                h.ancount = 3;
                h.nscount = 4;
                h.arcount = 5;
                h.opcode = opcode;
                h.rcode = rcode;
                let mut b = BytePacketBuffer::new();
                h.write(&mut b).unwrap();
                b.seek(0).unwrap();
                let mut back = Header::new();
                back.read(&mut b).unwrap();
                assert_eq!(back, h);
                assert_eq!(b.position, 12);
            }
        }
    }
}

#[test]
fn header_read_short_buffer_overruns() {
    let mut b = BytePacketBuffer::new();
    b.seek(501).unwrap();
    let mut h = Header::new();
    assert_eq!(h.read(&mut b), Err(DnsError::BufferOverrun));
}

#[test]
fn question_round_trip() {
    let q = Question::new("mail.example.org".to_string(), QueryType::MX);
    let mut b = BytePacketBuffer::new();
    q.write(&mut b).unwrap();
    let end = b.position;
    assert_eq!(&b.buffer[end - 4..end], &[0, 15, 0, 1]);
    b.seek(0).unwrap();
    let mut back = Question::new(String::new(), QueryType::UNKNOWN(0));
    back.read(&mut b).unwrap();
    assert_eq!(back, q);
    assert_eq!(b.position, end);
}

fn round_trip(r: &Record) -> (Record, usize, usize) {
    let mut b = BytePacketBuffer::new();
    let n = r.write(&mut b).unwrap();
    let end = b.position;
    b.seek(0).unwrap();
    let back = Record::read(&mut b).unwrap();
    assert_eq!(b.position, end);
    (back, n, end)
}

#[test]
fn a_record_round_trip() {
    let r = Record::A { domain: "example.com".to_string(), address: [93, 184, 216, 34], ttl: 3600 };
    let (back, n, end) = round_trip(&r);
    assert_eq!(back, r);
    assert_eq!(n, 13 + 10 + 4);
    assert_eq!(end, n);
}

#[test]
fn a_record_wire_form() {
    let r = Record::A { domain: "a.b".to_string(), address: [10, 0, 0, 1], ttl: 0x01020304 };
    let mut b = BytePacketBuffer::new();
    r.write(&mut b).unwrap();
    assert_eq!(
        written(&b),
        vec![1, b'a', 1, b'b', 0, 0, 1, 0, 1, 1, 2, 3, 4, 0, 4, 10, 0, 0, 1]
    );
}

#[test]
fn ns_record_round_trip() {
    let r = Record::NS {
        domain: "example.com".to_string(),
        host: "ns1.example.com".to_string(),
        ttl: 172800,
    };
    let (back, _, _) = round_trip(&r);
    assert_eq!(back, r);
}

#[test]
fn ns_record_length_is_patched_in() {
    let r = Record::NS { domain: "a".to_string(), host: "ns.a".to_string(), ttl: 1 };
    let mut b = BytePacketBuffer::new();
    r.write(&mut b).unwrap();
    // owner (3) + type, class, ttl (8): the length field follows.
    assert_eq!(&b.buffer[11..13], &[0, 6]);
    assert_eq!(b.position, 13 + 6);
}

#[test]
fn cname_record_round_trip() {
    let r = Record::CNAME {
        domain: "www.example.com".to_string(),
        host: "example.com".to_string(),
        ttl: 60,
    };
    let (back, _, _) = round_trip(&r);
    assert_eq!(back, r);
}

#[test]
fn mx_record_round_trip() {
    let r = Record::MX {
        domain: "example.com".to_string(),
        priority: 10,
        host: "mail.example.com".to_string(),
        ttl: 300,
    };
    let (back, _, _) = round_trip(&r);
    assert_eq!(back, r);
    let mut b = BytePacketBuffer::new();
    r.write(&mut b).unwrap();
    // priority and host: 2 + 18 bytes of data
    assert_eq!(&b.buffer[21..23], &[0, 20]);
}

#[test]
fn aaaa_record_round_trip() {
    let r = Record::AAAA {
        domain: "example.com".to_string(),
        address: [0x2606, 0x2800, 0x0220, 0x0001, 0x0248, 0x1893, 0x25c8, 0x1946],
        ttl: 86400,
    };
    let (back, n, _) = round_trip(&r);
    assert_eq!(back, r);
    assert_eq!(n, 13 + 10 + 16);
}

#[test]
fn aaaa_record_type_number_is_28() {
    let r = Record::AAAA { domain: "x".to_string(), address: [1, 2, 3, 4, 5, 6, 7, 8], ttl: 1 };
    let mut b = BytePacketBuffer::new();
    r.write(&mut b).unwrap();
    assert_eq!(&b.buffer[3..5], &[0, 28]);
}

#[test]
fn unknown_record_is_not_written() {
    let r = Record::UNKNOWN { domain: "example.com".to_string(), qtype: 99, len: 4, ttl: 5 };
    let mut b = BytePacketBuffer::new();
    assert_eq!(r.write(&mut b), Ok(0));
    assert_eq!(b.position, 0);
}

#[test]
fn unknown_record_data_is_skipped() {
    let mut bytes = b"\x01x\x00".to_vec();
    bytes.extend_from_slice(&[0, 99, 0, 1, 0, 0, 0, 7, 0, 3, 0xAA, 0xBB, 0xCC]);
    let mut b = buffer_with(&bytes);
    let r = Record::read(&mut b).unwrap();
    assert_eq!(r, Record::UNKNOWN { domain: "x".to_string(), qtype: 99, len: 3, ttl: 7 });
    assert_eq!(b.position, bytes.len());
}

#[test]
fn record_too_long_for_the_buffer_overruns() {
    let r = Record::A { domain: "example.com".to_string(), address: [1, 2, 3, 4], ttl: 1 };
    let mut b = BytePacketBuffer::new();
    b.seek(490).unwrap();
    assert_eq!(r.write(&mut b), Err(DnsError::BufferOverrun));
}

#[test]
fn record_with_long_label_fails() {
    let r = Record::NS { domain: "a".to_string(), host: format!("{}.b", "n".repeat(70)), ttl: 1 };
    let mut b = BytePacketBuffer::new();
    assert_eq!(r.write(&mut b), Err(DnsError::LabelTooLong));
}

#[test]
fn packet_round_trip_syncs_counts() {
    let mut p = Packet::new();
    p.header.id = 42;
    p.header.response = true;
    p.header.qdcount = 9;
    p.questions.push(Question::new("example.com".to_string(), QueryType::A));
    p.answers.push(Record::A { domain: "example.com".to_string(), address: [1, 2, 3, 4], ttl: 5 });
    p.authorities.push(Record::NS {
        domain: "example.com".to_string(),
        host: "ns.example.com".to_string(),
        ttl: 6,
    });
    p.additions.push(Record::A { domain: "ns.example.com".to_string(), address: [5, 6, 7, 8], ttl: 7 });
    let mut b = BytePacketBuffer::new();
    p.write(&mut b).unwrap();
    assert_eq!(p.header.qdcount, 1);
    assert_eq!(p.header.ancount, 1);
    assert_eq!(p.header.nscount, 1);
    assert_eq!(p.header.arcount, 1);
    b.seek(0).unwrap();
    let back = Packet::from_buffer(&mut b).unwrap();
    assert_eq!(back, p);
}

#[test]
fn packet_decode_follows_pointers_into_earlier_names() {
    let mut bytes = vec![0, 7, 0x81, 0x80, 0, 1, 0, 1, 0, 0, 0, 0];
    bytes.extend_from_slice(b"\x06google\x03com\x00\x00\x01\x00\x01");
    bytes.extend_from_slice(&[0xC0, 12, 0, 1, 0, 1, 0, 0, 1, 0, 0, 4, 142, 250, 1, 2]);
    let mut b = buffer_with(&bytes);
    let p = Packet::from_buffer(&mut b).unwrap();
    assert_eq!(p.header.id, 7);
    assert!(p.header.response);
    assert!(p.header.rd);
    assert!(p.header.ra);
    assert_eq!(p.questions, vec![Question::new("google.com".to_string(), QueryType::A)]);
    assert_eq!(
        p.answers,
        vec![Record::A { domain: "google.com".to_string(), address: [142, 250, 1, 2], ttl: 256 }]
    );
}

#[test]
fn packet_decode_of_truncated_message_fails() {
    let bytes = vec![0, 7, 0x81, 0x80, 0, 1, 0, 1, 0, 0, 0, 0];
    let mut b = buffer_with(&bytes);
    b.buffer[12] = 0xC0;
    b.buffer[13] = 12;
    assert_eq!(Packet::from_buffer(&mut b), Err(DnsError::CompressionLoop));
}
