use smart_hosts::error::DnsError;
use smart_hosts::header::DnsHeader;
use smart_hosts::message::{
    questions_read, questions_write, records_read, records_write, DnsClass, DnsPacket,
    DnsQuestion, DnsRData, DnsRecord, DnsType, Ipv4Addr,
};
use smart_hosts::name::{qname_read, qname_write, Label, LabelSeq, NameTable};

fn hexdump_to_bytes(hexdump: &str) -> Vec<u8> {
    hexdump
        .split_whitespace()
        .map(|x| u8::from_str_radix(x, 16).unwrap())
        .collect()
}

const QUERY: &str = r#"
        29 7e 01 20 00 01 00 00  00 00 00 00 06 67 6f 6f
        67 6c 65 03 63 6f 6d 00  00 01 00 01
        "#;

const RESPONSE: &str = r#"
        29 7e 81 80 00 01 00 01  00 00 00 00 06 67 6f 6f
        67 6c 65 03 63 6f 6d 00  00 01 00 01 c0 0c 00 01
        00 01 00 00 00 53 00 04  7f 00 00 01
        "#;

fn header(qd: u16, an: u16, ns: u16, ar: u16) -> DnsHeader {
    DnsHeader {
        id: 0x297e,
        qr: true,
        opcode: 0,
        aa: false,
        tc: false,
        rd: true,
        ra: true,
        z: 0,
        rcode: 0,
        qdcount: qd,
        ancount: an,
        nscount: ns,
        arcount: ar,
    }
}

fn record(name: &str, ttl: u32, ips: Vec<Ipv4Addr>) -> DnsRecord {
    let n = ips.len() as u16;
    DnsRecord {
        name: name.to_string(),
        typ: DnsType::A,
        class: DnsClass::In,
        ttl,
        len: 4 * n,
        data: ips.into_iter().map(DnsRData::IP).collect(),
    }
}

fn question(name: &str) -> DnsQuestion {
    DnsQuestion { name: name.to_string(), typ: DnsType::A, class: DnsClass::In }
}

fn response_packet() -> DnsPacket {
    DnsPacket {
        header: header(1, 1, 0, 0),
        questions: vec![question("google.com.")],
        answers: vec![record("google.com.", 0x53, vec![Ipv4Addr::new(127, 0, 0, 1)])],
        authorities: vec![],
        additional: vec![],
    }
}

fn assert_same_record(a: &DnsRecord, b: &DnsRecord) {
    assert_eq!(a.name, b.name);
    assert_eq!(a.typ, b.typ);
    assert_eq!(a.class, b.class);
    assert_eq!(a.ttl, b.ttl);
    assert_eq!(a.len, b.len);
    assert_eq!(a.data, b.data);
}

fn assert_same_packet(a: &DnsPacket, b: &DnsPacket) {
    assert_eq!(a.header, b.header);
    assert_eq!(a.questions.len(), b.questions.len());
    for (x, y) in a.questions.iter().zip(b.questions.iter()) {
        assert_eq!(x.name, y.name);
        assert_eq!(x.typ, y.typ);
        assert_eq!(x.class, y.class);
    }
    for (xs, ys) in [
        (&a.answers, &b.answers),
        (&a.authorities, &b.authorities),
        (&a.additional, &b.additional),
    ] {
        assert_eq!(xs.len(), ys.len());
        for (x, y) in xs.iter().zip(ys.iter()) {
            assert_same_record(x, y);
        }
    }
}

#[test]
fn label() {
    let data = vec![3, 119, 119, 119];
    let (label, _n) = Label::from_bytes(&data).unwrap();
    assert_eq!(String::from_utf8(label.data), Ok("www".to_string()));

    let data = vec![0];
    let (label, _n) = Label::from_bytes(&data).unwrap();
    assert_eq!(label.len, 0);
}

#[test]
fn label_sequences() {
    let data: Vec<u8> = vec![
        3, 119, 119, 119, 6, 103, 111, 111, 103, 108, 101, 3, 99, 111, 109, 0,
    ];
    let seq = LabelSeq::from_bytes(data.as_slice()).unwrap();

    match seq {
        LabelSeq::Jump(_) => unreachable!(),
        LabelSeq::Lables(lables) => {
            let names: Vec<String> = lables
                .0
                .into_iter()
                .map(|l| String::from_utf8(l.data).unwrap())
                .collect();
            assert_eq!(names, vec!["www", "google", "com", ""]);
        }
    }
}

#[test]
fn label_sequences_converting() {
    let target: LabelSeq = LabelSeq::parse("www.google.com.").unwrap();
    assert_eq!(target.into_name().unwrap(), "www.google.com.".to_string());
}

#[test]
fn label_sequences_jump() {
    let data: Vec<u8> = vec![192, 12];
    let seq = LabelSeq::from_bytes(data.as_slice()).unwrap();
    match seq {
        LabelSeq::Jump(offset) => assert_eq!(offset, 12),
        LabelSeq::Lables(_) => unreachable!(),
    }
}

#[test]
fn dns_cls() {
    let raw = hexdump_to_bytes("00 01");
    let cls = DnsClass::from_bytes(&raw).unwrap();
    assert_eq!(cls, DnsClass::In);
}

#[test]
fn question_section() {
    let raw: Vec<u8> = vec![3, 119, 119, 119, 0, 0, 1, 0, 1];
    let (q, _end) = DnsQuestion::decode(&raw, 0).unwrap();
    println!("{:?}", q);
}

#[test]
fn answer_section() {
    let raw: Vec<u8> = vec![
        3, 119, 119, 119, 6, 103, 111, 111, 103, 108, 101, 3, 99, 111, 109, 0, // name
        0x00, 0x01, // type
        0x00, 0x01, // class
        0x00, 0x00, 0x01, 0x25, // ttl
        0x00, 0x04, // len
        0x8e, 0xfa, 0x45, 0xce, // address
    ];
    let (a, _end) = DnsRecord::decode(&raw, 0).unwrap();
    println!("{:?}", a);
}

#[test]
fn parse_query() {
    let raw = hexdump_to_bytes(QUERY);
    let (header, _) = DnsHeader::decode(&raw, 0).unwrap();
    println!("{:?}", header);

    let packet = DnsPacket::decode(&raw).unwrap();
    println!("{:?}", packet);
}

#[test]
fn parse_response() {
    let raw = hexdump_to_bytes(RESPONSE);
    let (header, _) = DnsHeader::decode(&raw, 0).unwrap();
    println!("{:?}", header);

    let packet = DnsPacket::decode(&raw).unwrap();
    println!("{:?}", packet);
}

#[test]
fn response() {
    let packet = response_packet();
    let bytes = packet.encode().unwrap();
    assert_eq!(bytes.as_slice(), hexdump_to_bytes(RESPONSE));
}

#[test]
fn question_decode_literal() {
    let raw: Vec<u8> = vec![0x03, 0x77, 0x77, 0x77, 0x00, 0x00, 0x01, 0x00, 0x01];
    let (q, end) = DnsQuestion::decode(&raw, 0).unwrap();
    assert_eq!(q.name, "www.");
    assert_eq!(q.typ, DnsType::A);
    assert_eq!(q.class, DnsClass::In);
    assert_eq!(end, 9);
}

#[test]
fn header_flags_literal() {
    let raw = hexdump_to_bytes("29 7e 81 80 00 00 00 00 00 00 00 00");
    let (h, end) = DnsHeader::decode(&raw, 0).unwrap();
    assert_eq!(end, 12);
    assert_eq!(h.id, 0x297e);
    assert!(h.qr);
    assert_eq!(h.opcode, 0);
    assert!(!h.aa);
    assert!(!h.tc);
    assert!(h.rd);
    assert!(h.ra);
    assert_eq!(h.z, 0);
    assert_eq!(h.rcode, 0);
}

#[test]
fn header_fields_all_set() {
    let h = DnsHeader {
        id: 0xabcd,
        qr: false,
        opcode: 0xf,
        aa: true,
        tc: true,
        rd: false,
        ra: false,
        z: 5,
        rcode: 0xa,
        qdcount: 0x0102,
        ancount: 0x0304,
        nscount: 0x0506,
        arcount: 0x0708,
    };
    let mut out = Vec::new();
    h.encode(&mut out).unwrap();
    assert_eq!(out, vec![0xab, 0xcd, 0x7e, 0x5a, 1, 2, 3, 4, 5, 6, 7, 8]);
    let (back, _) = DnsHeader::decode(&out, 0).unwrap();
    assert_eq!(back, h);
}

#[test]
fn header_field_out_of_range() {
    let mut h = header(0, 0, 0, 0);
    h.opcode = 16;
    let mut out = Vec::new();
    assert_eq!(h.encode(&mut out), Err(DnsError::FieldOutOfRange));
    assert!(out.is_empty());
}

#[test]
fn header_truncated() {
    let raw = hexdump_to_bytes("29 7e 81 80 00 01 00 01 00 00 00");
    assert_eq!(DnsHeader::decode(&raw, 0).unwrap_err(), DnsError::TruncatedInput);
    assert_eq!(DnsPacket::decode(&raw).unwrap_err(), DnsError::TruncatedInput);
}

#[test]
fn response_round_trip_and_pointer() {
    let raw = hexdump_to_bytes(RESPONSE);
    let packet = DnsPacket::decode(&raw).unwrap();
    assert_eq!(packet.questions[0].name, "google.com.");
    assert_eq!(packet.answers[0].name, "google.com.");
    assert_eq!(packet.answers[0].ttl, 0x53);
    assert_eq!(packet.answers[0].len, 4);
    assert_eq!(packet.answers[0].data, vec![DnsRData::IP(Ipv4Addr::new(127, 0, 0, 1))]);
    assert_eq!(Ipv4Addr::new(127, 0, 0, 1).octets(), [127, 0, 0, 1]);
    assert_same_packet(&packet, &response_packet());
    // the answer's name is the pointer c0 0c back to the question's name
    let bytes = packet.encode().unwrap();
    assert_eq!(&bytes[28..30], &[0xc0, 0x0c]);
    assert_eq!(bytes, raw);
}

#[test]
fn round_trip_all_sections() {
    let packet = DnsPacket {
        header: DnsHeader { opcode: 2, z: 3, rcode: 5, aa: true, tc: true, ..header(2, 2, 1, 1) },
        questions: vec![question("example.org."), question("")],
        answers: vec![
            record("example.org.", 1, vec![Ipv4Addr::new(10, 0, 0, 1)]),
            record("mail.example.org.", 7, vec![Ipv4Addr::new(10, 0, 0, 2), Ipv4Addr::new(10, 0, 0, 3)]),
        ],
        authorities: vec![record("", 0xffff_ffff, vec![Ipv4Addr::new(1, 2, 3, 4)])],
        additional: vec![record("bücher.de.", 9, vec![Ipv4Addr::new(255, 255, 255, 255)])],
    };
    let bytes = packet.encode().unwrap();
    let back = DnsPacket::decode(&bytes).unwrap();
    assert_same_packet(&packet, &back);
}

#[test]
fn decode_ignores_trailing_bytes() {
    let mut raw = hexdump_to_bytes(QUERY);
    raw.extend_from_slice(&[0xde, 0xad, 0xbe, 0xef]);
    let packet = DnsPacket::decode(&raw).unwrap();
    assert_eq!(packet.questions.len(), 1);
    assert_eq!(packet.questions[0].name, "google.com.");
    assert!(packet.answers.is_empty());
}

#[test]
fn repeated_name_is_shorter() {
    let packet = DnsPacket {
        header: header(0, 2, 0, 0),
        questions: vec![],
        answers: vec![
            record("a.example.", 1, vec![Ipv4Addr::new(1, 1, 1, 1)]),
            record("a.example.", 2, vec![Ipv4Addr::new(2, 2, 2, 2)]),
        ],
        authorities: vec![],
        additional: vec![],
    };
    let bytes = packet.encode().unwrap();
    // first name in full: 1 a 7 example 0 = 11 bytes; record tail = 14 bytes
    let second = 12 + 11 + 14;
    assert_eq!(bytes.len(), second + 2 + 14);
    assert_eq!(&bytes[second..second + 2], &[0xc0, 12]);
}

#[test]
fn name_table_records_offsets() {
    let mut out = vec![0u8; 12];
    let mut names = NameTable::new();
    qname_write(&mut out, &"www.".to_string(), &mut names).unwrap();
    assert_eq!(out.len(), 12 + 5);
    assert_eq!(names.lookup(&"www.".to_string()), Some(12));
    qname_write(&mut out, &"www.".to_string(), &mut names).unwrap();
    assert_eq!(&out[17..], &[0xc0, 12]);
    // the root name is short already and is not recorded
    qname_write(&mut out, &"".to_string(), &mut names).unwrap();
    assert_eq!(names.lookup(&"".to_string()), None);
    assert_eq!(out.last(), Some(&0));
}

#[test]
fn pointer_chain_resolves() {
    // 0: www. in full; 5: pointer to 0; 7: pointer to 5
    let raw: Vec<u8> = vec![3, b'w', b'w', b'w', 0, 0xc0, 0, 0xc0, 5];
    let (name, end) = qname_read(&raw, 7).unwrap();
    assert_eq!(name, "www.");
    assert_eq!(end, 9);
    let (name, end) = qname_read(&raw, 5).unwrap();
    assert_eq!(name, "www.");
    assert_eq!(end, 7);
}

#[test]
fn pointer_cycle_is_malformed() {
    let raw: Vec<u8> = vec![0xc0, 0];
    assert_eq!(qname_read(&raw, 0), Err(DnsError::MalformedName));
    let raw: Vec<u8> = vec![0xc0, 2, 0xc0, 0];
    assert_eq!(qname_read(&raw, 0), Err(DnsError::MalformedName));
}

fn chain(depth: usize) -> (Vec<u8>, usize) {
    // literal "a." at 0, then pointers each to the one before
    let mut raw: Vec<u8> = vec![1, b'a', 0];
    let mut prev = 0usize;
    for _ in 0..depth {
        let here = raw.len();
        raw.push(0xc0 | (prev >> 8) as u8);
        raw.push((prev & 0xff) as u8);
        prev = here;
    }
    (raw, prev)
}

#[test]
fn pointer_chain_bound() {
    let (raw, start) = chain(32);
    assert_eq!(qname_read(&raw, start), Ok(("a.".to_string(), start + 2)));
    let (raw, start) = chain(33);
    assert_eq!(qname_read(&raw, start), Err(DnsError::MalformedName));
}

#[test]
fn wide_pointer_offset() {
    let mut raw = vec![0u8; 300];
    raw.extend_from_slice(&[2, b'h', b'i', 0]);
    raw.extend_from_slice(&[0xc1, 0x2c]);
    assert_eq!(qname_read(&raw, 304), Ok(("hi.".to_string(), 306)));
}

#[test]
fn pointer_inside_labels_is_malformed() {
    let raw: Vec<u8> = vec![1, b'a', 0xc0, 0];
    assert_eq!(qname_read(&raw, 0), Err(DnsError::MalformedName));
}

#[test]
fn invalid_utf8_is_malformed() {
    let raw: Vec<u8> = vec![1, 0xff, 0];
    assert_eq!(qname_read(&raw, 0), Err(DnsError::MalformedName));
}

#[test]
fn label_past_end_is_truncated() {
    let raw: Vec<u8> = vec![5, b'a', b'b'];
    assert_eq!(qname_read(&raw, 0), Err(DnsError::TruncatedInput));
    assert_eq!(qname_read(&raw, 3), Err(DnsError::TruncatedInput));
}

#[test]
fn malformed_names_are_rejected_on_encode() {
    let mut out = Vec::new();
    let mut names = NameTable::new();
    for bad in [".", "a..b.", ".a.", "a..b", "a.b.."] {
        assert_eq!(
            qname_write(&mut out, &bad.to_string(), &mut names),
            Err(DnsError::MalformedName)
        );
    }
    let long = format!("{}.", "x".repeat(192));
    assert_eq!(qname_write(&mut out, &long, &mut names), Err(DnsError::MalformedName));
    let ok = format!("{}.", "x".repeat(191));
    assert_eq!(qname_write(&mut out, &ok, &mut names), Ok(()));
    assert_eq!(out.len(), 193);
}

#[test]
fn unsupported_type_and_class() {
    let raw: Vec<u8> = vec![0, 0, 28, 0, 1];
    assert_eq!(DnsQuestion::decode(&raw, 0).unwrap_err(), DnsError::UnsupportedRecordType);
    let raw: Vec<u8> = vec![0, 0, 1, 0, 3];
    assert_eq!(DnsQuestion::decode(&raw, 0).unwrap_err(), DnsError::UnsupportedClass);
    assert_eq!(DnsClass::from_bytes(&[0, 2]), Err(DnsError::UnsupportedClass));
    assert_eq!(DnsType::from_code(1), Some(DnsType::A));
    assert_eq!(DnsType::from_code(5), None);
    assert_eq!(DnsType::A.code(), 1);
    assert_eq!(DnsClass::In.code(), 1);
}

#[test]
fn zero_length_address_is_inconsistent() {
    let raw: Vec<u8> = vec![0, 0, 1, 0, 1, 0, 0, 0, 1, 0, 0];
    assert_eq!(DnsRecord::decode(&raw, 0).unwrap_err(), DnsError::InconsistentLength);
}

#[test]
fn odd_length_address_is_inconsistent() {
    let raw: Vec<u8> = vec![0, 0, 1, 0, 1, 0, 0, 0, 1, 0, 3, 1, 2, 3];
    assert_eq!(DnsRecord::decode(&raw, 0).unwrap_err(), DnsError::InconsistentLength);
}

#[test]
fn two_addresses_in_one_record() {
    let raw: Vec<u8> = vec![0, 0, 1, 0, 1, 0, 0, 0, 9, 0, 8, 1, 2, 3, 4, 5, 6, 7, 8];
    let (r, end) = DnsRecord::decode(&raw, 0).unwrap();
    assert_eq!(end, raw.len());
    assert_eq!(r.ttl, 9);
    assert_eq!(r.len, 8);
    assert_eq!(
        r.data,
        vec![DnsRData::IP(Ipv4Addr::new(1, 2, 3, 4)), DnsRData::IP(Ipv4Addr::new(5, 6, 7, 8))]
    );
}

#[test]
fn payload_past_end_is_truncated() {
    let raw: Vec<u8> = vec![0, 0, 1, 0, 1, 0, 0, 0, 1, 0, 4, 1, 2];
    assert_eq!(DnsRecord::decode(&raw, 0).unwrap_err(), DnsError::TruncatedInput);
}

#[test]
fn empty_payload_is_inconsistent_on_encode() {
    let mut out = Vec::new();
    let mut names = NameTable::new();
    let r = record("a.", 1, vec![]);
    assert_eq!(r.encode(&mut out, &mut names), Err(DnsError::InconsistentLength));
}

#[test]
fn encode_writes_actual_length() {
    let mut r = record("a.", 1, vec![Ipv4Addr::new(9, 9, 9, 9)]);
    r.len = 77;
    let mut out = Vec::new();
    let mut names = NameTable::new();
    r.encode(&mut out, &mut names).unwrap();
    assert_eq!(out, vec![1, b'a', 0, 0, 1, 0, 1, 0, 0, 0, 1, 0, 4, 9, 9, 9, 9]);
}

#[test]
fn counts_must_match_sections() {
    let mut packet = response_packet();
    packet.header.qdcount = 2;
    assert_eq!(packet.encode().unwrap_err(), DnsError::InconsistentCount);
}

#[test]
fn missing_question_is_truncated() {
    let raw = hexdump_to_bytes("29 7e 01 20 00 01 00 00 00 00 00 00");
    assert_eq!(DnsPacket::decode(&raw).unwrap_err(), DnsError::TruncatedInput);
}

#[test]
fn jump_label_seq_encodes() {
    let mut out = Vec::new();
    LabelSeq::Jump(0x123).encode(&mut out).unwrap();
    assert_eq!(out, vec![0xc1, 0x23]);
    assert_eq!(LabelSeq::Jump(0x4000).encode(&mut out), Err(DnsError::MalformedName));
    assert_eq!(LabelSeq::Jump(5).into_name(), Err(DnsError::MalformedName));
}

#[test]
fn name_without_trailing_dot_gets_terminator() {
    let mut out = Vec::new();
    let mut names = NameTable::new();
    qname_write(&mut out, &"a.b".to_string(), &mut names).unwrap();
    assert_eq!(out, vec![0x01, 0x61, 0x01, 0x62, 0x00]);
    assert_eq!(qname_read(&out, 0), Ok(("a.b.".to_string(), 5)));
    let mut out = Vec::new();
    qname_write(&mut out, &"www".to_string(), &mut NameTable::new()).unwrap();
    assert_eq!(out, vec![3, b'w', b'w', b'w', 0]);
    let seq = LabelSeq::parse("www.google.com").unwrap();
    assert_eq!(seq.into_name().unwrap(), "www.google.com.");
}

#[test]
fn round_trip_adds_trailing_dot() {
    let packet = DnsPacket {
        header: header(1, 1, 0, 0),
        questions: vec![question("google.com")],
        answers: vec![record("google.com", 5, vec![Ipv4Addr::new(8, 8, 8, 8)])],
        authorities: vec![],
        additional: vec![],
    };
    let bytes = packet.encode().unwrap();
    let back = DnsPacket::decode(&bytes).unwrap();
    assert_eq!(back.questions[0].name, "google.com.");
    assert_eq!(back.answers[0].name, "google.com.");
    assert_eq!(back.answers[0].data, packet.answers[0].data);
    // the repeated name is still a pointer to the first copy
    assert_eq!(&bytes[28..30], &[0xc0, 12]);
}

#[test]
fn section_round_trip_at_offset() {
    let qs = vec![question("a.example."), question("b.example"), question("a.example.")];
    let mut out = vec![0xaa; 7];
    let mut names = NameTable::new();
    questions_write(&mut out, &qs, &mut names).unwrap();
    let (back, end) = questions_read(&out, 7, 3).unwrap();
    assert_eq!(end, out.len());
    let got: Vec<&str> = back.iter().map(|q| q.name.as_str()).collect();
    assert_eq!(got, vec!["a.example.", "b.example.", "a.example."]);

    let rs = vec![
        record("x.", 1, vec![Ipv4Addr::new(1, 2, 3, 4)]),
        record("x.", 2, vec![Ipv4Addr::new(5, 6, 7, 8)]),
    ];
    let mut out = Vec::new();
    let mut names = NameTable::new();
    records_write(&mut out, &rs, &mut names).unwrap();
    let (back, end) = records_read(&out, 0, 2).unwrap();
    assert_eq!(end, out.len());
    for (x, y) in rs.iter().zip(back.iter()) {
        assert_same_record(x, y);
    }
}

#[test]
fn failed_questions_write_leaves_nothing() {
    let long = format!("{}.", "x".repeat(192));
    let qs = vec![question("ok.example."), question(&long)];
    let mut out = vec![1, 2, 3];
    let mut names = NameTable::new();
    assert_eq!(questions_write(&mut out, &qs, &mut names), Err(DnsError::MalformedName));
    assert_eq!(out, vec![1, 2, 3]);
    assert_eq!(names.len(), 0);
    assert_eq!(names.lookup(&"ok.example.".to_string()), None);
}

#[test]
fn failed_records_write_leaves_nothing() {
    let rs = vec![
        record("ok.example.", 1, vec![Ipv4Addr::new(1, 1, 1, 1)]),
        record("ok.example.", 1, vec![]),
    ];
    let mut out = Vec::new();
    let mut names = NameTable::new();
    assert_eq!(records_write(&mut out, &rs, &mut names), Err(DnsError::InconsistentLength));
    assert!(out.is_empty());
    assert_eq!(names.len(), 0);
}

#[test]
fn failed_record_encode_leaves_nothing() {
    let mut out = vec![9];
    let mut names = NameTable::new();
    let r = record("fresh.example.", 1, vec![]);
    assert_eq!(r.encode(&mut out, &mut names), Err(DnsError::InconsistentLength));
    assert_eq!(out, vec![9]);
    assert_eq!(names.lookup(&"fresh.example.".to_string()), None);
    let q = question("a..b");
    assert_eq!(q.encode(&mut out, &mut names), Err(DnsError::MalformedName));
    assert_eq!(out, vec![9]);
}
