use dnssector::compress::Compress;
use dnssector::constants::{Class, EdnsOption, Opcode, Rcode, Section, Type};
use dnssector::dns_sector::DNSSector;
use dnssector::errors::DSError;
use dnssector::parsed_packet::ParsedPacket;
use dnssector::synth::gen::{self, RRHeader, RR, A, AAAA, CNAME, DS, MX, NS, PTR, SOA, TXT};

fn parse(data: Vec<u8>) -> Result<ParsedPacket, DSError> {
    DNSSector::new(data).unwrap().parse()
}

fn response(body: &[u8], an: u8, ns: u8, ar: u8) -> Vec<u8> {
    let mut m: Vec<u8> = vec![0, 1, 0x80, 0, 0, 1, 0, an, 0, ns, 0, ar];
    m.extend_from_slice(b"\x07example\x03com\x00\x00\x01\x00\x01");
    m.extend_from_slice(body);
    m
}

#[test]
fn unsupported_class() {
    let mut m = response(&[], 0, 0, 0);
    m[28] = 3;
    assert_eq!(parse(m).err(), Some(DSError::UnsupportedClass(3)));
}

#[test]
fn queries_hold_nothing_but_a_question() {
    for (k, text) in [
        (7, "A question shouldn't also contain answers"),
        (9, "A question shouldn't also contain name servers"),
        (11, "A question shouldn't also contain additional records"),
    ] {
        let mut m = response(&[0xc0, 12, 0, 1, 0, 1, 0, 0, 0, 5, 0, 4, 1, 1, 1, 1], 0, 0, 0);
        m[2] = 0;
        m[k] = 1;
        assert_eq!(parse(m.clone()).err(), Some(DSError::InvalidPacket(text)));
        // as a message under construction it is taken
        assert!(DNSSector::new(m).unwrap().scan(false).is_ok());
    }
}

#[test]
fn data_of_records_is_checked() {
    let rr = |rr_type: u8, rdata: &[u8]| {
        let mut body = vec![0xc0, 12, 0, rr_type, 0, 1, 0, 0, 0, 5, 0, rdata.len() as u8];
        body.extend_from_slice(rdata);
        response(&body, 1, 0, 0)
    };
    assert!(parse(rr(1, &[1, 2, 3, 4])).is_ok());
    assert_eq!(
        parse(rr(1, &[1, 2, 3])).err(),
        Some(DSError::InvalidPacket(
            "A record doesn't include a 4 bytes IP address"
        ))
    );
    assert!(parse(rr(28, &[0; 16])).is_ok());
    assert_eq!(
        parse(rr(28, &[0; 4])).err(),
        Some(DSError::InvalidPacket(
            "AAAA record doesn't include a 16 bytes IP address"
        ))
    );
    for t in [2u8, 5, 12] {
        assert!(parse(rr(t, &[2, 110, 115, 0xc0, 12])).is_ok());
        assert_eq!(
            parse(rr(t, &[2, 110, 115, 0xc0, 12, 0])).err(),
            Some(DSError::InvalidPacket("Unexpected data after name in rdata"))
        );
        assert_eq!(parse(rr(t, &[])).err(), Some(DSError::PacketTooSmall));
    }
    assert!(parse(rr(15, &[0, 10, 2, 109, 120, 0xc0, 12])).is_ok());
    assert_eq!(
        parse(rr(15, &[0, 10, 2, 109, 120, 0xc0, 12, 1])).err(),
        Some(DSError::InvalidPacket(
            "Unexpected data after name in MX rdata"
        ))
    );
    assert_eq!(parse(rr(15, &[0, 10])).err(), Some(DSError::PacketTooSmall));
    let mut soa = vec![2, 110, 115, 0xc0, 12, 0xc0, 12];
    soa.extend_from_slice(&[0; 20]);
    assert!(parse(rr(6, &soa)).is_ok());
    soa.push(0);
    assert_eq!(
        parse(rr(6, &soa)).err(),
        Some(DSError::InvalidPacket(
            "Unexpected data after name in SOA rdata"
        ))
    );
    assert_eq!(parse(rr(6, &[0; 21])).err(), Some(DSError::PacketTooSmall));
    assert!(parse(rr(39, &[2, 110, 115, 0])).is_ok());
    assert_eq!(
        parse(rr(39, &[2, 110, 115, 0xc0, 12])).err(),
        Some(DSError::InvalidName("Unexpected compression"))
    );
    assert_eq!(
        parse(rr(39, &[2, 110, 115, 0, 0])).err(),
        Some(DSError::InvalidPacket(
            "Unexpected data after name in DNAME rdata"
        ))
    );
    // any other type: the data is not looked at
    assert!(parse(rr(99, &[0xc0, 0xff, 0xff])).is_ok());
}

#[test]
fn truncated_and_overlong_messages_are_refused() {
    let m = response(&[0xc0, 12, 0, 1, 0, 1, 0, 0, 0, 5, 0, 4, 1, 1, 1, 1], 1, 0, 0);
    assert!(parse(m.clone()).is_ok());
    let mut long = m.clone();
    long.push(0);
    assert_eq!(
        parse(long).err(),
        Some(DSError::InvalidPacket(
            "Extra data found after the last record"
        ))
    );
    let mut short = m.clone();
    short.pop();
    assert_eq!(parse(short).err(), Some(DSError::PacketTooSmall));
    assert_eq!(
        parse(m[..31].to_vec()).err(),
        Some(DSError::InternalError(
            "Setting offset past the end of the packet"
        ))
    );
    assert_eq!(parse(m[..35].to_vec()).err(), Some(DSError::PacketTooSmall));
    assert_eq!(
        parse(m[..29].to_vec()).err(),
        Some(DSError::InternalError("Offset outside packet boundaries"))
    );
    let mut counted = m.clone();
    counted[7] = 2;
    assert_eq!(
        parse(counted).err(),
        Some(DSError::InternalError("Offset outside packet boundaries"))
    );
}

#[test]
fn validator_state_is_moved() {
    let m = response(&[0xc0, 12, 0, 1, 0, 1, 0, 0, 0, 5, 0, 4, 1, 1, 1, 1], 1, 0, 0);
    let mut sector = DNSSector::new(m.clone()).unwrap();
    assert_eq!(sector.offset, 0);
    assert_eq!(sector.max_payload, 512);
    assert_eq!(
        sector.set_offset(m.len()),
        Err(DSError::InternalError(
            "Setting offset past the end of the packet"
        ))
    );
    assert_eq!(sector.set_offset(31), Ok(0));
    assert_eq!(sector.rr_rdlen(), Ok(4));
    assert_eq!(sector.increment_offset(10), Ok(31));
    assert_eq!(sector.offset, 41);
    assert_eq!(sector.rr_rdlen(), Err(DSError::PacketTooSmall));
    assert_eq!(sector.increment_offset(5), Err(DSError::PacketTooSmall));
    assert_eq!(sector.increment_offset(4), Ok(41));
    assert_eq!(sector.edns_rr_rdlen(), Err(DSError::PacketTooSmall));
    sector.set_offset(29).unwrap();
    sector.edns_end = Some(40);
    assert_eq!(sector.edns_rr_rdlen(), Ok(1));
    assert_eq!(sector.into_packet(), m);
    let mut bytes = m.clone();
    assert!(DNSSector::is_response(&bytes));
    DNSSector::set_response(&mut bytes, false);
    assert!(!DNSSector::is_response(&bytes));
    assert_eq!(bytes[2], 0);
    DNSSector::set_response(&mut bytes, true);
    assert_eq!(bytes, m);
    DNSSector::set_qdcount(&mut bytes, 0x0102);
    DNSSector::set_ancount(&mut bytes, 0x0304);
    DNSSector::set_nscount(&mut bytes, 0x0506);
    DNSSector::set_arcount(&mut bytes, 0x0708);
    assert_eq!(&bytes[4..12], &[1, 2, 3, 4, 5, 6, 7, 8]);
    assert_eq!(DNSSector::qdcount(&bytes), 0x0102);
    assert_eq!(DNSSector::ancount(&bytes), 0x0304);
    assert_eq!(DNSSector::nscount(&bytes), 0x0506);
    assert_eq!(DNSSector::arcount(&bytes), 0x0708);
}

#[test]
fn mnemonics() {
    assert_eq!(Type::from_string("a"), Ok(Type::A));
    assert_eq!(Type::from_string("CnAmE"), Ok(Type::CNAME));
    assert_eq!(Type::from_string("NSAP_PTR"), Ok(Type::NSAP_PTR));
    assert_eq!(Type::from_string("dlv"), Ok(Type::DLV));
    assert_eq!(Type::from_string("https"), Ok(Type::HTTPS));
    assert_eq!(
        Type::from_string("BOGUS"),
        Err(DSError::UnsupportedRRType("BOGUS".to_string()))
    );
    assert_eq!(
        Type::from_string(""),
        Err(DSError::UnsupportedRRType("".to_string()))
    );
    assert_eq!(Class::from_string("in"), Ok(Class::IN));
    assert_eq!(Class::from_string("Any"), Ok(Class::ANY));
    assert_eq!(
        Class::from_string("INN"),
        Err(DSError::UnsupportedRRClass("INN".to_string()))
    );
    assert_eq!(u16::from(Type::A), 1);
    assert_eq!(u16::from(Type::OPT), 41);
    assert_eq!(u16::from(Type::HIP), 55);
    assert_eq!(u16::from(Type::CAA), 257);
    assert_eq!(u16::from(Type::TA), 32768);
    assert_eq!(u16::from(Type::DLV), 32769);
    assert_eq!(Type::SPF.to_u16(), 99);
    assert_eq!(u16::from(Class::IN), 1);
    assert_eq!(u16::from(Class::CH), 3);
    assert_eq!(u16::from(Class::NONE), 254);
    assert_eq!(u16::from(EdnsOption::LLQ), 1);
    assert_eq!(u16::from(EdnsOption::PADDING), 12);
    assert_eq!(u8::from(Rcode::NOERROR), 0);
    assert_eq!(u8::from(Rcode::NOTZONE), 10);
    assert_eq!(u8::from(Opcode::NOTIFY), 4);
    assert_eq!(u8::from(Opcode::UPDATE), 5);
    assert_eq!(u8::from(Section::Question), 0);
    assert_eq!(u8::from(Section::Edns), 4);
}

#[test]
fn records_are_built() {
    let header = |rr_type: Type| RRHeader {
        name: b"a.b".to_vec(),
        ttl: 0x01020304,
        class: Class::IN,
        rr_type,
    };
    let start = |rr_type: u8, rdlen: u8| {
        vec![1, 97, 1, 98, 0, 0, rr_type, 0, 1, 1, 2, 3, 4, 0, rdlen]
    };
    let rr = A::build(header(Type::A), [9, 8, 7, 6]).unwrap();
    let mut expected = start(1, 4);
    expected.extend_from_slice(&[9, 8, 7, 6]);
    assert_eq!(rr.packet, expected);
    assert_eq!(rr.rdata(), &[9, 8, 7, 6]);
    let rr = AAAA::build(header(Type::AAAA), [5; 16]).unwrap();
    assert_eq!(rr.rdata(), &[5; 16]);
    assert_eq!(&rr.packet[..15], &start(28, 16)[..]);
    for (t, rr) in [
        (2, NS::build(header(Type::NS), b"c.d.".to_vec()).unwrap()),
        (5, CNAME::build(header(Type::CNAME), b"c.d".to_vec()).unwrap()),
        (12, PTR::build(header(Type::PTR), b"c.d".to_vec()).unwrap()),
    ] {
        assert_eq!(&rr.packet[..15], &start(t, 5)[..]);
        assert_eq!(rr.rdata(), &[1, 99, 1, 100, 0]);
    }
    let rr = MX::build(header(Type::MX), 0x0a0b, b"c".to_vec()).unwrap();
    assert_eq!(&rr.packet[..15], &start(15, 5)[..]);
    assert_eq!(rr.rdata(), &[0x0a, 0x0b, 1, 99, 0]);
    let rr = SOA::build(header(Type::SOA), b"c".to_vec(), b"d.e".to_vec(), 1, 2, 3, 4, 0x05060708)
        .unwrap();
    assert_eq!(&rr.packet[..15], &start(6, 28)[..]);
    assert_eq!(
        rr.rdata(),
        &[1, 99, 0, 1, 100, 1, 101, 0, 0, 0, 0, 1, 0, 0, 0, 2, 0, 0, 0, 3, 0, 0, 0, 4, 5, 6, 7, 8]
    );
    let rr = DS::build(header(Type::DS), 0x0102, 3, 4, vec![5, 6]).unwrap();
    assert_eq!(rr.rdata(), &[1, 2, 3, 4, 5, 6]);
    let rr = TXT::build(header(Type::TXT), b"hi".to_vec()).unwrap();
    assert_eq!(rr.rdata(), &[2, 104, 105]);
    let rr = TXT::build(header(Type::TXT), vec![120; 256]).unwrap();
    assert_eq!(rr.rdata().len(), 258);
    assert_eq!(rr.rdata()[0], 255);
    assert_eq!(rr.rdata()[256], 1);
    assert_eq!(TXT::build(header(Type::TXT), vec![120; 3825]).unwrap().rdata().len(), 3840);
    assert_eq!(
        TXT::build(header(Type::TXT), vec![120; 3826]).err(),
        Some(DSError::InvalidPacket("Text too long"))
    );
    assert_eq!(
        RR::new(header(Type::NULL), &vec![0; 0x10000]).err(),
        Some(DSError::InvalidPacket("RDATA too long"))
    );
    assert_eq!(RR::new(header(Type::NULL), &vec![0; 0xffff]).unwrap().packet.len(), 15 + 0xffff);
    assert_eq!(
        NS::build(header(Type::NS), b"c..d".to_vec()).err(),
        Some(DSError::InvalidName("Spurious dot in a label"))
    );
    let q = RR::new_question(b"a.b", Type::MX, Class::CH).unwrap();
    assert_eq!(q.packet, vec![1, 97, 1, 98, 0, 0, 15, 0, 3]);
    assert_eq!(q.rdata(), &[] as &[u8]);
}

#[test]
fn records_are_read_from_text() {
    let rr = RR::from_string("  a.b \t 258  in   a  1.2.3.255  ").unwrap();
    assert_eq!(
        rr.packet,
        vec![1, 97, 1, 98, 0, 0, 1, 0, 1, 0, 0, 1, 2, 0, 4, 1, 2, 3, 255]
    );
    let rr = RR::from_string("a.b 1 IN AAAA 2001:db8::ff00:42:8329").unwrap();
    assert_eq!(
        rr.rdata(),
        &[0x20, 0x01, 0x0d, 0xb8, 0, 0, 0, 0, 0, 0, 0xff, 0, 0, 0x42, 0x83, 0x29]
    );
    let rr = RR::from_string("a.b 1 IN AAAA ::").unwrap();
    assert_eq!(rr.rdata(), &[0; 16]);
    let rr = RR::from_string("a.b 1 IN AAAA 1::").unwrap();
    assert_eq!(rr.rdata()[..2], [0, 1]);
    let rr = RR::from_string("a.b 1 IN AAAA 1:2:3:4:5:6:7:8").unwrap();
    assert_eq!(rr.rdata(), &[0, 1, 0, 2, 0, 3, 0, 4, 0, 5, 0, 6, 0, 7, 0, 8]);
    let rr = RR::from_string("a.b 1 IN AAAA 1:2:3:4:5:6:7::").unwrap();
    assert_eq!(rr.rdata(), &[0, 1, 0, 2, 0, 3, 0, 4, 0, 5, 0, 6, 0, 7, 0, 0]);
    for bad in [
        "a.b 1 IN AAAA 1:2:3:4:5:6:7:8:9",
        "a.b 1 IN AAAA 1:2:3:4:5:6:7",
        "a.b 1 IN AAAA 12345::",
        "a.b 1 IN AAAA 1::2::3",
        "a.b 1 IN AAAA :1",
        "a.b 1 IN AAAA 1:",
        "a.b 1 IN AAAA 1:2:3:4:5:6:7:8::",
    ] {
        assert_eq!(RR::from_string(bad).err(), Some(DSError::ParseError), "{}", bad);
    }
    let rr = RR::from_string("a.b 1 IN TXT \"a\\065\\255 b\"").unwrap();
    assert_eq!(rr.rdata(), &[5, 97, 65, 255, 32, 98]);
    for bad in [
        "a.b 1 IN TXT \"a\\256\"",
        "a.b 1 IN TXT \"a\\25\"",
        "a.b 1 IN TXT \"a",
        "a.b 1 IN TXT \"a\" b",
        "a.b 1 IN TXT \"a\tb\"",
    ] {
        assert_eq!(RR::from_string(bad).err(), Some(DSError::ParseError), "{}", bad);
    }
    let rr = RR::from_string("a.b 1 IN MX 65535 _c-1.d").unwrap();
    assert_eq!(rr.rdata(), &[255, 255, 4, 95, 99, 45, 49, 1, 100, 0]);
    assert_eq!(
        RR::from_string("a.b 1 IN MX 65536 c").err(),
        Some(DSError::ParseError)
    );
    let rr = RR::from_string("a.b 1 IN SOA c d (1\n2\r\n3 4   4294967295 )").unwrap();
    assert_eq!(
        rr.rdata(),
        &[1, 99, 0, 1, 100, 0, 0, 0, 0, 1, 0, 0, 0, 2, 0, 0, 0, 3, 0, 0, 0, 4, 255, 255, 255, 255]
    );
    for bad in [
        "a.b 1 IN SOA c d (1 2 3 4 4294967296)",
        "a.b 1 IN SOA c d (1 2 3 4)",
        "a.b 1 IN SOA c d 1 2 3 4 5",
        "a.b 1 IN SOA c d (1 2 3 4 5",
        "a.b 1 IN SOA c (1 2 3 4 5)",
    ] {
        assert_eq!(RR::from_string(bad).err(), Some(DSError::ParseError), "{}", bad);
    }
    let rr = RR::from_string("a.b 1 IN DS 1 2 3 0aFf").unwrap();
    assert_eq!(rr.rdata(), &[0, 1, 2, 3, 0x0a, 0xff]);
    assert_eq!(
        RR::from_string("a.b 1 IN DS 1 2 3 0aF").err(),
        Some(DSError::ParseError)
    );
    assert_eq!(
        RR::from_string("a.b 1 IN DS 1 256 3 0a").err(),
        Some(DSError::ParseError)
    );
    for bad in [
        "",
        "garbage",
        "a.b 1 CH A 1.2.3.4",
        "a.b 1 IN SRV 1.2.3.4",
        "a.b 1 IN A1.2.3.4",
        "a.b 1IN A 1.2.3.4",
        "a.b 4294967296 IN A 1.2.3.4",
        "a.b IN A 1.2.3.4",
        "a..b 1 IN A 1.2.3.4",
        "a.-b 1 IN A 1.2.3.4",
        "a.b_ 1 IN A 1.2.3.4",
        "a.b 1 IN A 1.2.3.4 5",
        "a.b 1 IN A 1.2.3.4\n",
    ] {
        assert_eq!(RR::from_string(bad).err(), Some(DSError::ParseError), "{}", bad);
    }
    // a record that is read but cannot be built
    let long = format!("{} 1 IN A 1.2.3.4", "a.".repeat(127));
    assert_eq!(
        RR::from_string(&long).err(),
        Some(DSError::InvalidName("Name too long"))
    );
    assert!(RR::from_string(&format!("{} 1 IN A 1.2.3.4", "a.".repeat(126))).is_ok());
    let label = "a".repeat(64);
    assert_eq!(
        RR::from_string(&format!("{} 1 IN A 1.2.3.4", label)).err(),
        Some(DSError::ParseError)
    );
    assert!(RR::from_string(&format!("{} 1 IN A 1.2.3.4", &label[1..])).is_ok());
}

#[test]
fn packet_does_not_grow_past_its_limit() {
    let mut p = gen::query(b"example.com.", Type::TXT, Class::IN).unwrap();
    p.set_response(true);
    let text = "x".repeat(3800);
    let line = format!("example.com. 60 IN TXT \"{}\"", text);
    p.insert_rr_from_string(Section::Answer, &line).unwrap();
    p.insert_rr_from_string(Section::Answer, &line).unwrap();
    let len = p.packet().len();
    assert_eq!(
        p.insert_rr_from_string(Section::Answer, &line),
        Err(DSError::PacketTooLarge)
    );
    assert_eq!(p.packet().len(), len);
    assert_eq!(DNSSector::ancount(p.packet()), 2);
    // a second question is not taken
    assert_eq!(
        p.insert_rr(
            Section::Question,
            RR::new_question(b"a", Type::A, Class::IN).unwrap()
        ),
        Err(DSError::InvalidPacket(
            "A DNS packet can only contain up to one question"
        ))
    );
    // nor a record that is none
    assert_eq!(
        p.insert_rr(
            Section::Answer,
            RR::new_question(b"a", Type::A, Class::IN).unwrap()
        ),
        Err(DSError::PacketTooSmall)
    );
    assert_eq!(
        p.insert_rr(
            Section::Answer,
            A::build(
                RRHeader {
                    name: b"a".to_vec(),
                    ttl: 1,
                    class: Class::IN,
                    rr_type: Type::AAAA
                },
                [1, 2, 3, 4]
            )
            .unwrap()
        ),
        Err(DSError::InvalidPacket(
            "AAAA record doesn't include a 16 bytes IP address"
        ))
    );
    assert_eq!(p.packet().len(), len);
    assert_eq!(
        p.insert_rr_from_string(Section::Answer, "nonsense"),
        Err(DSError::ParseError)
    );
}

#[test]
fn names_are_replaced_or_not() {
    let mut p = gen::query(b"example.com.", Type::A, Class::IN).unwrap();
    let before = p.packet().to_vec();
    assert_eq!(
        p.rename_with_raw_names(b"", b"\x03com\x00", true),
        Err(DSError::InvalidName("Empty name"))
    );
    assert_eq!(
        p.rename_with_raw_names(b"\x03net\x00", b"", true),
        Err(DSError::InvalidName("Empty name"))
    );
    assert_eq!(
        p.rename_with_raw_names(&[1; 256], b"\x03com\x00", true),
        Err(DSError::InvalidName("Name too long"))
    );
    assert_eq!(
        p.rename_with_raw_names(b"\x03net", b"\x03com\x00", true),
        Err(DSError::InvalidName("Truncated name"))
    );
    assert_eq!(
        p.rename_with_raw_names(b"\x03net\x00\x00", b"\x03com\x00", true),
        Err(DSError::InvalidName("Inconsistent encoding"))
    );
    assert_eq!(p.packet(), &before[..]);
    // only whole names
    p.rename_with_raw_names(b"\x03net\x00", b"\x03com\x00", false)
        .unwrap();
    assert_eq!(p.packet(), &before[..]);
    p.rename_with_raw_names(b"\x03net\x00", b"\x07EXAMPLE\x03com\x00", false)
        .unwrap();
    assert_eq!(&p.packet()[12..], b"\x03net\x00\x00\x01\x00\x01");
    assert!(p.maybe_compressed);
    assert_eq!(p.question(), Some((b"net".to_vec(), 1, 1)));
}

#[test]
fn compression_needs_a_valid_message() {
    assert_eq!(Compress::compress(&[]), Err(DSError::PacketTooSmall));
    assert_eq!(Compress::uncompress(&[0; 11]), Err(DSError::PacketTooSmall));
    assert_eq!(
        Compress::uncompress(&[0; 12]),
        Err(DSError::InvalidPacket(
            "A DNS packet should contain a question"
        ))
    );
    let m = response(&[0xc0, 12, 0, 1, 0, 1, 0, 0, 0, 5, 0, 4, 1, 1, 1, 1], 1, 0, 0);
    assert_eq!(
        Compress::uncompress_with_previous_offset(&m, 30),
        Err(DSError::InternalError(
            "Previous offset not found at a record boundary"
        ))
    );
    let (u, at) = Compress::uncompress_with_previous_offset(&m, 29).unwrap();
    assert_eq!(at, 29);
    assert_eq!(u.len(), m.len() + 11);
    assert_eq!(
        Compress::uncompress_with_previous_offset(&m, 12).unwrap().1,
        12
    );
    assert_eq!(
        Compress::uncompress_with_previous_offset(&m, m.len()).unwrap().1,
        u.len()
    );
}
