use dns_wire::buffer::Buffer;
use dns_wire::error::DnsError;
use dns_wire::packet::{Packet, QueryType, Question};

fn put(b: &mut Buffer, at: usize, bytes: &[u8]) {
    for (k, v) in bytes.iter().enumerate() {
        b.buf[at + k] = *v;
    }
}

#[test]
fn u16_round_trip() {
    let mut b = Buffer::new();
    b.write_u16(0xABCD).unwrap();
    assert_eq!(b.buf[0], 0xAB);
    assert_eq!(b.buf[1], 0xCD);
    b.pos = 0;
    assert_eq!(b.read_u16().unwrap(), 0xABCD);
    assert_eq!(b.pos, 2);
}

#[test]
fn u32_round_trip() {
    let mut b = Buffer::new();
    b.pos = 17;
    b.write_u32(0xDEADBEEF).unwrap();
    assert_eq!(&b.buf[17..21], &[0xDE, 0xAD, 0xBE, 0xEF]);
    b.pos = 17;
    assert_eq!(b.read_u32().unwrap(), 0xDEADBEEF);
    assert_eq!(b.pos, 21);
}

#[test]
fn u16_round_trip_extremes() {
    for v in [0u16, 1, 255, 256, 0x7FFF, 0xFFFF] {
        let mut b = Buffer::new();
        b.write_u16(v).unwrap();
        b.pos = 0;
        assert_eq!(b.read_u16().unwrap(), v);
    }
}

#[test]
fn read_byte_bounds() {
    let mut b = Buffer::new();
    b.pos = 512;
    assert_eq!(b.read_u8().unwrap_err(), DnsError::OutOfBounds);
    assert_eq!(b.pos, 512);
    b.pos = 511;
    assert!(b.read_u8().is_ok());
    assert_eq!(b.pos, 512);
}

#[test]
fn write_byte_bounds() {
    let mut b = Buffer::new();
    b.pos = 512;
    assert_eq!(b.write_u8(7).unwrap_err(), DnsError::OutOfBounds);
    b.pos = 511;
    assert!(b.write_u8(7).is_ok());
    assert_eq!(b.pos, 512);
    assert_eq!(b.buf[511], 7);
}

#[test]
fn scalar_read_past_end() {
    let mut b = Buffer::new();
    b.pos = 511;
    assert_eq!(b.read_u16().unwrap_err(), DnsError::OutOfBounds);
    b.pos = 509;
    assert_eq!(b.read_u32().unwrap_err(), DnsError::OutOfBounds);
}

#[test]
fn name_round_trip_lowercases() {
    let mut b = Buffer::new();
    b.set_domain_name("Example.COM").unwrap();
    assert_eq!(b.pos, 13);
    b.pos = 0;
    let mut name = String::new();
    b.get_domain_name(&mut name).unwrap();
    assert_eq!(name, "example.com");
    assert_eq!(b.pos, 13);
}

#[test]
fn name_encoding_layout() {
    let mut b = Buffer::new();
    b.set_domain_name("ab.c").unwrap();
    assert_eq!(&b.buf[0..6], &[2, b'a', b'b', 1, b'c', 0]);
    assert_eq!(b.pos, 6);
}

#[test]
fn empty_name() {
    let mut b = Buffer::new();
    b.set_domain_name("").unwrap();
    assert_eq!(b.pos, 2);
    assert_eq!(&b.buf[0..2], &[0, 0]);
    b.pos = 0;
    let mut name = String::new();
    b.get_domain_name(&mut name).unwrap();
    assert_eq!(name, "");
    assert_eq!(b.pos, 1);
}

#[test]
fn label_length_limit() {
    let long = "a".repeat(64);
    let mut b = Buffer::new();
    assert_eq!(b.set_domain_name(&long).unwrap_err(), DnsError::LabelTooLong);
    assert_eq!(b.pos, 0);

    let edge = "b".repeat(63);
    let mut b2 = Buffer::new();
    assert!(b2.set_domain_name(&edge).is_ok());
    assert_eq!(b2.pos, 65);
    assert_eq!(b2.buf[0], 63);
}

#[test]
fn label_length_limit_second_label() {
    let name = format!("ok.{}", "x".repeat(64));
    let mut b = Buffer::new();
    assert_eq!(b.set_domain_name(&name).unwrap_err(), DnsError::LabelTooLong);
    assert_eq!(b.pos, 0);
}

#[test]
fn name_does_not_fit() {
    let mut b = Buffer::new();
    b.pos = 505;
    let name = "tenletters";
    assert_eq!(b.set_domain_name(name).unwrap_err(), DnsError::OutOfBounds);
    assert_eq!(b.pos, 505);
    b.pos = 500;
    assert!(b.set_domain_name(name).is_ok());
    assert_eq!(b.pos, 512);
}

#[test]
fn compression_pointer() {
    let mut b = Buffer::new();
    // offset 0: the full label sequence for "example.com"
    b.set_domain_name("example.com").unwrap();
    // offset 50: a pointer back to offset 0, then other fields
    put(&mut b, 50, &[0xC0, 0x00, 9, 9]);
    b.pos = 50;
    let mut name = String::new();
    b.get_domain_name(&mut name).unwrap();
    assert_eq!(name, "example.com");
    assert_eq!(b.pos, 52);
}

#[test]
fn compression_pointer_mid_name() {
    let mut b = Buffer::new();
    b.set_domain_name("tail.end").unwrap();
    // offset 30: one label "www", then a pointer to offset 0
    put(&mut b, 30, &[3, b'w', b'w', b'w', 0xC0, 0x00]);
    b.pos = 30;
    let mut name = String::new();
    b.get_domain_name(&mut name).unwrap();
    assert_eq!(name, "www.tail.end");
    assert_eq!(b.pos, 36);
}

#[test]
fn multi_jump_chain() {
    let mut b = Buffer::new();
    b.set_domain_name("deep.chain").unwrap();
    // offset 100: a pointer to offset 0
    put(&mut b, 100, &[0xC0, 100 - 100]);
    // offset 200: a pointer to the pointer at offset 100
    put(&mut b, 200, &[0xC0, 100]);
    b.pos = 200;
    let mut name = String::new();
    b.get_domain_name(&mut name).unwrap();
    assert_eq!(name, "deep.chain");
    // the cursor rests right after the first pointer met, not after the chain
    assert_eq!(b.pos, 202);
}

#[test]
fn pointer_cycle_detected() {
    let mut b = Buffer::new();
    // a pointer that points at itself
    put(&mut b, 10, &[0xC0, 10]);
    b.pos = 10;
    let mut name = String::new();
    assert_eq!(b.get_domain_name(&mut name).unwrap_err(), DnsError::PointerLoop);
    assert_eq!(b.pos, 10);
    assert_eq!(name, "");
}

#[test]
fn name_read_out_of_bounds() {
    let mut b = Buffer::new();
    // a label that claims to run past the end of the datagram
    put(&mut b, 509, &[60, b'x', b'y']);
    b.pos = 509;
    let mut name = String::new();
    assert_eq!(b.get_domain_name(&mut name).unwrap_err(), DnsError::OutOfBounds);
    assert_eq!(b.pos, 509);
}

fn well_formed_question(b: &mut Buffer, name: &str, qtype: u16) {
    b.set_domain_name(name).unwrap();
    b.write_u16(qtype).unwrap();
    b.write_u16(1).unwrap();
}

#[test]
fn count_driven_assembly() {
    let mut b = Buffer::new();
    // header: id, flags, questions=2, answers=1, authorities=0, resources=0
    b.write_u16(0x1234).unwrap();
    b.write_u16(0).unwrap();
    b.write_u16(2).unwrap();
    b.write_u16(1).unwrap();
    b.write_u16(0).unwrap();
    b.write_u16(0).unwrap();
    well_formed_question(&mut b, "first.test", 1);
    well_formed_question(&mut b, "second.test", 5);
    // one record: name, type, class, ttl, length, payload
    b.set_domain_name("first.test").unwrap();
    b.write_u16(1).unwrap();
    b.write_u16(1).unwrap();
    b.write_u32(3600).unwrap();
    b.write_u16(4).unwrap();
    b.write_u32(0x7F000001).unwrap();

    b.pos = 0;
    let p = Packet::from_buffer(&mut b).unwrap();
    assert_eq!(p.header.id, 0x1234);
    assert_eq!(p.questions.len(), 2);
    assert_eq!(p.answers.len(), 1);
    assert_eq!(p.authorities.len(), 0);
    assert_eq!(p.resources.len(), 0);
    assert_eq!(p.questions[0].name, "first.test");
    assert_eq!(p.questions[0].qtype, QueryType::A);
    assert_eq!(p.questions[1].name, "second.test");
    assert_eq!(p.questions[1].qtype, QueryType::UNKNOWN(5));
    assert_eq!(p.answers[0].name, "first.test");
    assert_eq!(p.answers[0].ttl, 3600);
    assert_eq!(p.answers[0].data, vec![0x7F, 0, 0, 1]);
}

#[test]
fn fail_atomic_decode() {
    let mut d = Buffer::new();
    // the header asks for two questions, but only one well-formed question
    // follows; the second is malformed
    d.write_u16(1).unwrap();
    d.write_u16(0).unwrap();
    d.write_u16(2).unwrap();
    d.write_u16(0).unwrap();
    d.write_u16(0).unwrap();
    d.write_u16(0).unwrap();
    well_formed_question(&mut d, "good.one", 1);
    // second question: a pointer to offset 511, where a label claims five
    // bytes that run past the end of the datagram
    let at = d.pos;
    put(&mut d, at, &[0xC1, 0xFF]);
    d.buf[511] = 5;
    d.pos = 0;
    let err = Packet::from_buffer(&mut d).unwrap_err();
    assert_eq!(err, DnsError::OutOfBounds);
}

#[test]
fn question_new_and_read() {
    let mut b = Buffer::new();
    well_formed_question(&mut b, "ask.me", 1);
    b.pos = 0;
    let mut q = Question::new(String::new(), QueryType::UNKNOWN(0));
    q.read(&mut b).unwrap();
    assert_eq!(q.name, "ask.me");
    assert_eq!(q.qtype, QueryType::A);
    assert_eq!(b.pos, 12);
}

#[test]
fn packet_new_is_empty() {
    let p = Packet::new();
    assert_eq!(p.header.questions, 0);
    assert_eq!(p.header.answers, 0);
    assert!(p.questions.is_empty());
    assert!(p.answers.is_empty());
    assert!(p.authorities.is_empty());
    assert!(p.resources.is_empty());
}

#[test]
fn fresh_buffer_is_zeroed() {
    let b = Buffer::new();
    assert_eq!(b.pos, 0);
    assert_eq!(b.buf.len(), 512);
    assert!(b.buf.iter().all(|x| *x == 0));
}

use dns_wire::packet::{Header, Record};

#[test]
fn header_write_read_round_trip() {
    let mut b = Buffer::new();
    let h = Header {
        id: 0xBEEF,
        flags: 0x8180,
        questions: 3,
        answers: 2,
        authoritative_entries: 1,
        resource_entries: 9,
    };
    h.write(&mut b).unwrap();
    assert_eq!(b.pos, 12);
    assert_eq!(&b.buf[0..4], &[0xBE, 0xEF, 0x81, 0x80]);
    b.pos = 0;
    let mut h2 = Header::new();
    h2.read(&mut b).unwrap();
    assert_eq!(h2, h);
    assert_eq!(b.pos, 12);
}

#[test]
fn question_write_read_round_trip() {
    let mut b = Buffer::new();
    let q = Question::new(String::from("ask.example"), QueryType::A);
    q.write(&mut b).unwrap();
    assert_eq!(b.pos, 11 + 2 + 4);
    b.pos = 0;
    let mut q2 = Question::new(String::new(), QueryType::UNKNOWN(0));
    q2.read(&mut b).unwrap();
    assert_eq!(q2.name, "ask.example");
    assert_eq!(q2.qtype, QueryType::A);
}

#[test]
fn record_write_read_round_trip() {
    let mut b = Buffer::new();
    let rec = Record {
        name: String::from("host.example"),
        qtype: QueryType::A,
        class: 1,
        ttl: 7200,
        data: vec![10, 0, 0, 42],
    };
    rec.write(&mut b).unwrap();
    assert_eq!(b.pos, 12 + 2 + 10 + 4);
    b.pos = 0;
    let rec2 = Record::read(&mut b).unwrap();
    assert_eq!(rec2.name, "host.example");
    assert_eq!(rec2.qtype, QueryType::A);
    assert_eq!(rec2.class, 1);
    assert_eq!(rec2.ttl, 7200);
    assert_eq!(rec2.data, vec![10, 0, 0, 42]);
}

#[test]
fn record_write_label_too_long() {
    let mut b = Buffer::new();
    let rec = Record {
        name: "c".repeat(64),
        qtype: QueryType::A,
        class: 1,
        ttl: 0,
        data: vec![],
    };
    assert_eq!(rec.write(&mut b).unwrap_err(), DnsError::LabelTooLong);
    assert_eq!(b.pos, 0);
}

#[test]
fn record_write_does_not_fit() {
    let mut b = Buffer::new();
    b.pos = 505;
    let rec = Record {
        name: String::from("x"),
        qtype: QueryType::A,
        class: 1,
        ttl: 0,
        data: vec![1, 2, 3],
    };
    assert_eq!(rec.write(&mut b).unwrap_err(), DnsError::OutOfBounds);
    assert_eq!(b.pos, 505);
}

#[test]
fn packet_write_read_round_trip() {
    let mut p = Packet::new();
    p.header.id = 77;
    p.header.questions = 1;
    p.header.answers = 1;
    p.questions.push(Question::new(String::from("a.b"), QueryType::A));
    p.answers.push(Record {
        name: String::from("a.b"),
        qtype: QueryType::A,
        class: 1,
        ttl: 60,
        data: vec![127, 0, 0, 1],
    });
    let mut b = Buffer::new();
    p.write(&mut b).unwrap();
    b.pos = 0;
    let p2 = Packet::from_buffer(&mut b).unwrap();
    assert_eq!(p2.header.id, 77);
    assert_eq!(p2.questions.len(), 1);
    assert_eq!(p2.answers.len(), 1);
    assert_eq!(p2.questions[0].name, "a.b");
    assert_eq!(p2.answers[0].data, vec![127, 0, 0, 1]);
    assert_eq!(p2.answers[0].ttl, 60);
}
