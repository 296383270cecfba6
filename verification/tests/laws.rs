use dnssector::compress::Compress;
use dnssector::constants::{Class, Section, Type};
use dnssector::dns_sector::DNSSector;
use dnssector::parsed_packet::ParsedPacket;
use dnssector::synth::gen;

fn real_response() -> Vec<u8> {
    vec![
        38, 44, 129, 160, 0, 1, 0, 2, 0, 0, 0, 1, 3, 99, 57, 120, 3, 111, 114, 71, 0, 0, 1, 0, 1,
        192, 12, 0, 1, 0, 1, 0, 0, 167, 29, 0, 4, 78, 194, 219, 1, 192, 12, 0, 46, 0, 1, 0, 0, 167,
        29, 0, 91, 0, 1, 13, 2, 0, 0, 168, 192, 89, 56, 71, 147, 89, 16, 186, 147, 82, 60, 3, 99,
        57, 120, 3, 111, 114, 103, 0, 153, 235, 139, 49, 43, 255, 159, 252, 196, 189, 29, 77, 88,
        132, 233, 31, 133, 88, 104, 42, 139, 12, 101, 158, 121, 95, 105, 180, 59, 216, 202, 174,
        113, 201, 121, 23, 4, 26, 241, 134, 233, 52, 104, 120, 80, 237, 252, 215, 146, 44, 120,
        229, 63, 16, 95, 19, 209, 103, 165, 196, 195, 151, 222, 52, 0, 0, 41, 2, 0, 0, 0, 128, 0,
        0, 0,
    ]
}

fn sample() -> Vec<u8> {
    let mut p = gen::query(b"example.com.", Type::A, Class::IN).unwrap();
    p.set_response(true);
    for (section, line) in [
        (Section::Answer, "example.com. 60 IN CNAME www.example.com."),
        (Section::Answer, "www.example.com. 61 IN A 1.2.3.4"),
        (Section::NameServers, "example.com. 62 IN NS ns.example.com."),
        (
            Section::NameServers,
            "example.com. 62 IN SOA ns.example.com. root.example.com. (1 2 3 4 5)",
        ),
        (Section::Additional, "example.com. 64 IN MX 10 mail.example.com."),
        (Section::Additional, "ns.example.com. 63 IN TXT \"hello\""),
    ] {
        p.insert_rr_from_string(section, line).unwrap();
    }
    p.into_packet()
}

fn parse(data: Vec<u8>) -> ParsedPacket {
    DNSSector::new(data).unwrap().parse().unwrap()
}

#[test]
fn parsing_gives_the_bytes_back() {
    for bytes in [real_response(), sample()] {
        assert_eq!(parse(bytes.clone()).into_packet(), bytes);
    }
}

#[test]
fn uncompressing_twice_is_uncompressing_once() {
    let plain = sample();
    for bytes in [real_response(), plain.clone(), Compress::compress(&plain).unwrap()] {
        let once = Compress::uncompress(&bytes).unwrap();
        let twice = Compress::uncompress(&once).unwrap();
        assert_eq!(once, twice);
    }
    assert_eq!(Compress::uncompress(&real_response()).unwrap().len(), real_response().len() + 14);
    assert_eq!(Compress::uncompress(&plain).unwrap(), plain);
}

#[test]
fn compression_loses_nothing() {
    for bytes in [real_response(), sample()] {
        let plain = Compress::uncompress(&bytes).unwrap();
        let compressed = Compress::compress(&plain).unwrap();
        assert!(compressed.len() <= plain.len());
        assert_eq!(Compress::uncompress(&compressed).unwrap(), plain);
    }
    let plain = sample();
    assert_eq!(plain.len(), 291);
    let compressed = Compress::compress(&plain).unwrap();
    assert_eq!(compressed.len(), 160);
}

#[test]
fn renaming_a_name_to_itself_changes_no_name() {
    for (bytes, name) in [
        (real_response(), &b"\x03orG\x00"[..]),
        (sample(), &b"\x07example\x03com\x00"[..]),
        (sample(), &b"\x03com\x00"[..]),
        (sample(), &b"\x05other\x00"[..]),
    ] {
        let mut p = parse(bytes.clone());
        p.rename_with_raw_names(name, name, true).unwrap();
        let renamed = p.into_packet();
        assert_eq!(
            Compress::uncompress(&renamed).unwrap(),
            Compress::uncompress(&bytes).unwrap()
        );
    }
}

#[test]
fn offsets_are_ordered_and_counts_are_right() {
    let check = |p: &ParsedPacket| {
        let packet = p.packet();
        let counts = [
            DNSSector::qdcount(packet),
            DNSSector::ancount(packet),
            DNSSector::nscount(packet),
            DNSSector::arcount(packet),
        ];
        let offsets = [
            p.offset_question,
            p.offset_answers,
            p.offset_nameservers,
            p.offset_additional,
        ];
        assert!(counts[0] <= 1);
        let mut last = 0usize;
        for k in 0..4 {
            assert_eq!(counts[k] == 0, offsets[k].is_none());
            if let Some(o) = offsets[k] {
                assert!(o > last);
                last = o;
            }
        }
        if let Some(o) = p.offset_edns {
            assert!(o > last);
            assert!(o <= packet.len());
        }
        // the validator finds the same
        let again = DNSSector::new(packet.to_vec()).unwrap().scan(false).unwrap();
        assert_eq!(again.offset_question, p.offset_question);
        assert_eq!(again.offset_answers, p.offset_answers);
        assert_eq!(again.offset_nameservers, p.offset_nameservers);
        assert_eq!(again.offset_additional, p.offset_additional);
        assert_eq!(again.offset_edns, p.offset_edns);
    };
    let mut p = ParsedPacket::empty();
    check(&p);
    p.insert_rr_from_string(Section::Additional, "a. 1 IN A 1.2.3.4").unwrap();
    check(&p);
    p.insert_rr_from_string(Section::Answer, "b. 1 IN A 1.2.3.4").unwrap();
    check(&p);
    p.insert_rr(Section::Question, gen::RR::new_question(b"q", Type::A, Class::CH).unwrap())
        .unwrap();
    check(&p);
    p.insert_rr_from_string(Section::NameServers, "c. 1 IN NS d.").unwrap();
    check(&p);
    p.insert_rr_from_string(Section::Answer, "e. 1 IN A 1.2.3.4").unwrap();
    check(&p);
    assert_eq!(p.offset_question, Some(12));
    assert_eq!(p.offset_answers, Some(19));
    assert_eq!(p.offset_nameservers, Some(19 + 17 + 17));
    assert_eq!(p.offset_additional, Some(19 + 17 + 17 + 16));
    let mut real = parse(real_response());
    check(&real);
    real.rename_with_raw_names(b"\x07example\x00", b"\x03org\x00", true).unwrap();
    check(&real);
    real.insert_rr_from_string(Section::NameServers, "c. 1 IN NS d.").unwrap();
    check(&real);
    assert_eq!(real.edns_count, 0);
    assert_eq!(real.ext_flags, Some(0x8000));
}

fn response_with(question: &[u8], lines: &[&str]) -> Vec<u8> {
    let mut p = gen::query(question, Type::A, Class::IN).unwrap();
    p.set_response(true);
    for line in lines {
        p.insert_rr_from_string(Section::Answer, line).unwrap();
    }
    p.into_packet()
}

#[test]
fn compression_keeps_lower_case_names_exactly() {
    let plain = response_with(
        b"example.com.",
        &[
            "example.com. 60 IN CNAME www.example.com.",
            "www.example.com. 61 IN A 1.2.3.4",
            "mail.example.com. 62 IN A 1.2.3.5",
        ],
    );
    assert_eq!(Compress::uncompress(&plain).unwrap(), plain);
    let compressed = Compress::compress(&plain).unwrap();
    assert!(compressed.len() < plain.len());
    assert_eq!(Compress::uncompress(&compressed).unwrap(), plain);
}

#[test]
fn compression_keeps_names_up_to_case() {
    let plain = response_with(b"example.COM.", &["EXAMPLE.com. 60 IN A 1.2.3.4"]);
    assert_eq!(Compress::uncompress(&plain).unwrap(), plain);
    let compressed = Compress::compress(&plain).unwrap();
    // The name of the answer is found in the dictionary in another case:
    // a pointer to the name of the question stands for it.
    assert_eq!(compressed.len(), plain.len() - 11);
    assert_eq!(&compressed[29..31], &[0xc0, 12]);
    let back = Compress::uncompress(&compressed).unwrap();
    assert_eq!(back.len(), plain.len());
    assert_ne!(back, plain);
    assert!(back.eq_ignore_ascii_case(&plain));
    assert_eq!(&back[12..25], b"\x07example\x03COM\x00");
    assert_eq!(&back[29..42], b"\x07example\x03COM\x00");
    assert_eq!(&plain[29..42], b"\x07EXAMPLE\x03com\x00");
}

#[test]
fn renaming_keeps_names_up_to_case() {
    let bytes = response_with(b"example.COM.", &["www.example.com. 60 IN A 1.2.3.4"]);
    let mut p = parse(bytes.clone());
    let name = &b"\x03com\x00"[..];
    p.rename_with_raw_names(name, name, true).unwrap();
    let back = Compress::uncompress(&p.into_packet()).unwrap();
    assert_ne!(back, bytes);
    assert!(back.eq_ignore_ascii_case(&bytes));
    assert_eq!(&back[12..25], b"\x07example\x03com\x00");
}

#[test]
fn renaming_puts_the_opt_record_last() {
    // A response with two additional records: an OPT record, then an address.
    let mut bytes: Vec<u8> = vec![0, 1, 0x80, 0, 0, 1, 0, 0, 0, 0, 0, 2];
    bytes.extend_from_slice(b"\x07example\x03com\x00\x00\x01\x00\x01");
    bytes.extend_from_slice(&[0, 0, 41, 0x10, 0, 0, 0, 0, 0, 0, 0]);
    bytes.extend_from_slice(b"\x07example\x03com\x00");
    bytes.extend_from_slice(&[0, 1, 0, 1, 0, 0, 0, 6, 0, 4, 2, 2, 2, 2]);
    assert_eq!(Compress::uncompress(&bytes).unwrap(), bytes);
    let mut p = parse(bytes.clone());
    let name = &b"\x03com\x00"[..];
    p.rename_with_raw_names(name, name, true).unwrap();
    let back = Compress::uncompress(&p.into_packet()).unwrap();
    assert_eq!(back.len(), bytes.len());
    assert_ne!(back, bytes);
    assert_eq!(&back[..29], &bytes[..29]);
    assert_eq!(&back[29..56], &bytes[40..]);
    assert_eq!(&back[56..], &bytes[29..40]);
    // With the OPT record last, nothing moves.
    let mut last = bytes[..29].to_vec();
    last.extend_from_slice(&bytes[40..]);
    last.extend_from_slice(&bytes[29..40]);
    let mut p = parse(last.clone());
    p.rename_with_raw_names(name, name, true).unwrap();
    assert_eq!(Compress::uncompress(&p.into_packet()).unwrap(), last);
}

#[test]
fn deep_chains_of_suffixes_are_not_read_back() {
    let mut lines: Vec<String> = Vec::new();
    let mut name = String::from("b.");
    for i in 0..20 {
        name = format!("x{}.{}", i % 10, name);
        lines.push(format!("{} 60 IN A 1.2.3.4", name));
    }
    let refs: Vec<&str> = lines.iter().map(|s| s.as_str()).collect();
    let plain = response_with(b"a.b.", &refs);
    let compressed = Compress::compress(&plain).unwrap();
    assert!(compressed.len() < plain.len());
    assert!(Compress::uncompress(&compressed).is_err());
    let shallow = response_with(b"a.b.", &refs[..10]);
    let compressed = Compress::compress(&shallow).unwrap();
    assert_eq!(Compress::uncompress(&compressed).unwrap(), shallow);
}
