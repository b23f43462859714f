//! Wire-format tests: buffer primitives, names with and without
//! compression, headers, records and whole packets.

use dns::buffer::BytePacketBuffer;
use dns::errors::DnsError;
use dns::header::{Header, ResultCode};
use dns::packet::Packet;
use dns::records::{Ipv4Addr, Ipv6Addr, Question, QueryType, Record};

fn full_header() -> Header {
    Header {
        id: 999,
        recursion_desired: true,
        truncated_message: false,
        authoritative_answer: true,
        opcode: 7,
        response: true,
        rescode: ResultCode::SERVFAIL,
        checking_disabled: true,
        authed_data: false,
        z: true,
        recursion_available: true,
        questions: 3,
        answers: 2,
        authoritative_entries: 1,
        resource_entries: 4,
    }
}

#[test]
fn header_round_trip() {
    let mut h = full_header();
    let mut buffer = BytePacketBuffer::new();
    h.write(&mut buffer).expect("header write");
    assert_eq!(buffer.pos(), 12);

    buffer.seek(0).unwrap();
    let mut parsed = Header::new();
    parsed.read(&mut buffer).expect("header read");
    assert_eq!(parsed, full_header());
    assert_eq!(buffer.pos(), 12);
}

#[test]
fn rescode_unknown_values_decode_to_noerror() {
    assert_eq!(ResultCode::from_num(0), ResultCode::NOERROR);
    assert_eq!(ResultCode::from_num(1), ResultCode::FORMERR);
    assert_eq!(ResultCode::from_num(2), ResultCode::SERVFAIL);
    assert_eq!(ResultCode::from_num(3), ResultCode::NXDOMAIN);
    assert_eq!(ResultCode::from_num(4), ResultCode::NOTIMP);
    assert_eq!(ResultCode::from_num(5), ResultCode::REFUSED);
    assert_eq!(ResultCode::from_num(77), ResultCode::NOERROR);
}

#[test]
fn name_round_trip_uncompressed() {
    let mut buffer = BytePacketBuffer::new();
    buffer.write_qname("wiki.archlinux.org").expect("write name");
    let end = buffer.pos();
    // one length byte per label, the labels, and the closing zero
    assert_eq!(end, 1 + 4 + 1 + 9 + 1 + 3 + 1);

    buffer.seek(0).unwrap();
    let mut out = String::new();
    buffer.read_qname(&mut out).expect("read name");
    assert_eq!(out, "wiki.archlinux.org");
    assert_eq!(buffer.pos(), end);
}

#[test]
fn name_round_trip_is_lowercased() {
    let mut buffer = BytePacketBuffer::new();
    buffer.write_qname("WiKi.ArchLinux.ORG").expect("write name");
    buffer.seek(0).unwrap();
    let mut out = String::new();
    buffer.read_qname(&mut out).expect("read name");
    assert_eq!(out, "wiki.archlinux.org");
}

#[test]
fn label_longer_than_63_bytes_is_rejected() {
    let mut buffer = BytePacketBuffer::new();
    let label63 = "a".repeat(63);
    assert!(buffer.write_qname(&format!("{}.org", label63)).is_ok());

    let mut buffer = BytePacketBuffer::new();
    let label64 = "a".repeat(64);
    assert_eq!(
        buffer.write_qname(&format!("{}.org", label64)),
        Err(DnsError::LabelTooLong)
    );
}

#[test]
fn compressed_name_decodes_like_uncompressed() {
    let mut buffer = BytePacketBuffer::new();
    buffer.write_qname("example.com").expect("write name");

    // A pointer at offset 40 back to the name at offset 0.
    buffer.seek(40).unwrap();
    buffer.write_u8(0xC0).unwrap();
    buffer.write_u8(0x00).unwrap();

    let mut direct = String::new();
    buffer.seek(0).unwrap();
    buffer.read_qname(&mut direct).expect("read direct");

    let mut jumped = String::new();
    buffer.seek(40).unwrap();
    buffer.read_qname(&mut jumped).expect("read via pointer");

    assert_eq!(direct, "example.com");
    assert_eq!(jumped, direct);
    // The cursor moves past the pointer only, not past the target.
    assert_eq!(buffer.pos(), 42);
}

#[test]
fn pointer_cycle_is_rejected_without_hanging() {
    let mut buffer = BytePacketBuffer::new();
    // A pointer at offset 0 that points at itself.
    buffer.write_u8(0xC0).unwrap();
    buffer.write_u8(0x00).unwrap();
    buffer.seek(0).unwrap();
    let mut out = String::new();
    assert_eq!(buffer.read_qname(&mut out), Err(DnsError::JumpsExceeded));
}

#[test]
fn packet_with_compressed_names_parses_like_uncompressed() {
    // A response with one question and one answer whose owner name is a
    // two-byte pointer back to the question's name.
    let mut buffer = BytePacketBuffer::new();
    let mut header = Header::new();
    header.id = 999;
    header.response = true;
    header.questions = 1;
    header.answers = 1;
    header.write(&mut buffer).unwrap();

    let question = Question::new("example.com".to_string(), QueryType::A);
    question.write(&mut buffer).unwrap();

    // The answer: a pointer to offset 12 (the question's name), then
    // type A, class 1, TTL, RDLENGTH 4 and the address bytes.
    buffer.write_u8(0xC0).unwrap();
    buffer.write_u8(12).unwrap();
    buffer.write_u16(1).unwrap();
    buffer.write_u16(1).unwrap();
    buffer.write_u32(300).unwrap();
    buffer.write_u16(4).unwrap();
    buffer.write_u8(93).unwrap();
    buffer.write_u8(184).unwrap();
    buffer.write_u8(216).unwrap();
    buffer.write_u8(34).unwrap();

    buffer.seek(0).unwrap();
    let parsed = Packet::from_buffer(&mut buffer).expect("packet parse");
    assert_eq!(parsed.questions[0].qname, "example.com");
    assert_eq!(
        parsed.answers[0],
        Record::A {
            domain: "example.com".to_string(),
            addr: Ipv4Addr::new(93, 184, 216, 34),
            ttl: 300,
        }
    );
}

#[test]
fn reads_are_big_endian_and_bounded() {
    let mut buffer = BytePacketBuffer::new();
    buffer.write_u16(0x1234).unwrap();
    buffer.write_u32(0xDEADBEEF).unwrap();
    buffer.seek(0).unwrap();
    assert_eq!(buffer.read_u16().unwrap(), 0x1234);
    assert_eq!(buffer.read_u32().unwrap(), 0xDEADBEEF);

    buffer.seek(511).unwrap();
    assert!(buffer.read_u8().is_ok());
    assert_eq!(buffer.read_u8(), Err(DnsError::EndOfBuffer));
    buffer.seek(511).unwrap();
    assert_eq!(buffer.read_u16(), Err(DnsError::EndOfBuffer));
}

#[test]
fn get_range_rejects_the_last_byte() {
    let buffer = BytePacketBuffer::new();
    // A range that would end exactly at the 512th byte is refused.
    assert!(buffer.get_range(0, 511).is_ok());
    assert_eq!(buffer.get_range(0, 512), Err(DnsError::EndOfBuffer));
    assert_eq!(buffer.get_range(510, 2), Err(DnsError::EndOfBuffer));
}

#[test]
fn a_record_round_trip() {
    let rec = Record::A {
        domain: "wiki.archlinux.org".to_string(),
        addr: Ipv4Addr::new(95, 217, 163, 246),
        ttl: 300,
    };
    let mut buffer = BytePacketBuffer::new();
    let written = rec.write(&mut buffer).expect("record write");
    assert_eq!(written, buffer.pos());

    buffer.seek(0).unwrap();
    let parsed = Record::read(&mut buffer).expect("record read");
    assert_eq!(parsed, rec);
}

#[test]
fn ns_mx_aaaa_record_round_trips() {
    let records = vec![
        Record::NS {
            domain: "org".to_string(),
            host: "b0.org.afilias-nst.org".to_string(),
            ttl: 3600,
        },
        Record::CNAME {
            domain: "www.example.org".to_string(),
            host: "example.org".to_string(),
            ttl: 60,
        },
        Record::MX {
            domain: "example.org".to_string(),
            priority: 10,
            host: "mail.example.org".to_string(),
            ttl: 600,
        },
        Record::AAAA {
            domain: "example.org".to_string(),
            addr: Ipv6Addr::new(0x2001, 0xdb8, 0, 0, 0, 8, 0x800, 0x200c),
            ttl: 120,
        },
    ];
    for rec in records {
        let mut buffer = BytePacketBuffer::new();
        rec.write(&mut buffer).expect("record write");
        buffer.seek(0).unwrap();
        let parsed = Record::read(&mut buffer).expect("record read");
        assert_eq!(parsed, rec);
    }
}

#[test]
fn unknown_record_is_skipped_on_write() {
    let rec = Record::UNKNOWN {
        domain: "example.org".to_string(),
        qtype: 41,
        data_len: 12,
        ttl: 0,
    };
    let mut buffer = BytePacketBuffer::new();
    let written = rec.write(&mut buffer).expect("record write");
    assert_eq!(written, 0);
    assert_eq!(buffer.pos(), 0);
}

#[test]
fn question_round_trip() {
    let q = Question::new("wiki.archlinux.org".to_string(), QueryType::A);
    let mut buffer = BytePacketBuffer::new();
    q.write(&mut buffer).expect("question write");
    buffer.seek(0).unwrap();
    let mut parsed = Question::new(String::new(), QueryType::UNKNOWN(0));
    parsed.read(&mut buffer).expect("question read");
    assert_eq!(parsed.qname, "wiki.archlinux.org");
    assert_eq!(parsed.qtype, QueryType::A);
}

#[test]
fn query_type_numbers_round_trip() {
    for (qt, num) in [
        (QueryType::A, 1),
        (QueryType::NS, 2),
        (QueryType::CNAME, 5),
        (QueryType::MX, 15),
        (QueryType::AAAA, 28),
        (QueryType::UNKNOWN(41), 41),
    ] {
        assert_eq!(qt.to_num(), num);
        assert_eq!(QueryType::from_num(num), qt);
    }
}

#[test]
fn packet_round_trip_and_counts_match_sections() {
    let mut packet = Packet::new();
    packet.header.id = 999;
    packet.header.recursion_desired = true;
    packet
        .questions
        .push(Question::new("wiki.archlinux.org".to_string(), QueryType::A));
    packet.answers.push(Record::A {
        domain: "wiki.archlinux.org".to_string(),
        addr: Ipv4Addr::new(95, 217, 163, 246),
        ttl: 300,
    });
    packet.answers.push(Record::NS {
        domain: "archlinux.org".to_string(),
        host: "ns1.archlinux.org".to_string(),
        ttl: 3600,
    });
    packet.resources.push(Record::A {
        domain: "ns1.archlinux.org".to_string(),
        addr: Ipv4Addr::new(192, 0, 2, 1),
        ttl: 3600,
    });
    // The counts are deliberately wrong before serialization; the
    // serializer overwrites them from the sections.
    packet.header.questions = 9;
    packet.header.answers = 9;

    let mut buffer = BytePacketBuffer::new();
    packet.write(&mut buffer).expect("packet write");

    assert_eq!(packet.header.questions, 1);
    assert_eq!(packet.header.answers, 2);
    assert_eq!(packet.header.authoritative_entries, 0);
    assert_eq!(packet.header.resource_entries, 1);

    buffer.seek(0).unwrap();
    let parsed = Packet::from_buffer(&mut buffer).expect("packet parse");
    assert_eq!(parsed.header, packet.header);
    assert_eq!(parsed.questions.len(), 1);
    assert_eq!(parsed.questions[0].qname, "wiki.archlinux.org");
    assert_eq!(parsed.answers, packet.answers);
    assert_eq!(parsed.authorities, packet.authorities);
    assert_eq!(parsed.resources, packet.resources);
}

#[test]
fn error_packet_needs_an_error_code() {
    assert!(Packet::error_packet(ResultCode::NOERROR, 7).is_err());
    let p = Packet::error_packet(ResultCode::FORMERR, 7).expect("error packet");
    assert_eq!(p.header.id, 7);
    assert!(p.header.response);
    assert_eq!(p.header.rescode, ResultCode::FORMERR);
}

#[test]
fn new_error_packet_serializes_a_header() {
    let buffer = BytePacketBuffer::new_error_packet(ResultCode::SERVFAIL, 999).expect("buffer");
    assert_eq!(buffer.pos(), 12);
    let mut reread = buffer;
    reread.seek(0).unwrap();
    let parsed = Packet::from_buffer(&mut reread).expect("parse");
    assert_eq!(parsed.header.id, 999);
    assert!(parsed.header.response);
    assert_eq!(parsed.header.rescode, ResultCode::SERVFAIL);
}

#[test]
fn zero_filled_datagram_parses_to_a_questionless_query() {
    // A datagram of zero bytes, as an undersized or oversized datagram
    // leaves the receive buffer, parses as a query with no questions.
    let mut buffer = BytePacketBuffer::new();
    let parsed = Packet::from_buffer(&mut buffer).expect("parse");
    assert_eq!(parsed.header.id, 0);
    assert!(!parsed.header.response);
    assert_eq!(parsed.questions.len(), 0);
}
