use dnssector::compress::Compress;
use dnssector::constants::{Class, Section, Type};
use dnssector::dns_sector::DNSSector;
use dnssector::errors::DSError;
use dnssector::iterable::{DNSIterable, RdataIterable, TypedIterable};
use dnssector::parsed_packet::ParsedPacket;
use dnssector::rr_iterator::IpAddr;
use dnssector::synth::gen;
use dnssector::synth::parser::{rr_type_parser, string_nocase};

fn real_response() -> Vec<u8> {
    vec![
        38, 44, 129, 160, 0, 1, 0, 2, 0, 0, 0, 1, 3, 99, 57, 120, 3, 111, 114, 71, 0, 0, 1, 0, 1,
        192, 12, 0, 1, 0, 1, 0, 0, 167, 29, 0, 4, 78, 194, 219, 1, 192, 12, 0, 46, 0, 1, 0, 0, 167,
        29, 0, 91, 0, 1, 13, 2, 0, 0, 168, 192, 89, 56, 71, 147, 89, 16, 186, 147, 82, 60, 3, 99,
        57, 120, 3, 111, 114, 103, 0, 153, 235, 139, 49, 43, 255, 159, 252, 196, 189, 29, 77, 88,
        132, 233, 31, 133, 88, 104, 42, 139, 12, 101, 158, 121, 95, 105, 180, 59, 216, 202, 174,
        113, 201, 121, 23, 4, 26, 241, 134, 233, 52, 104, 120, 80, 237, 252, 215, 146, 44, 120,
        229, 63, 16, 95, 19, 209, 103, 165, 196, 195, 151, 222, 52, 0, 0, 41, 2, 0, 0, 0, 128, 0,
        0, 0,
    ]
}

fn parse(data: Vec<u8>) -> Result<ParsedPacket, DSError> {
    DNSSector::new(data).unwrap().parse()
}

#[test]
fn empty_input_is_too_small() {
    assert_eq!(parse(vec![]).err(), Some(DSError::PacketTooSmall));
}

#[test]
fn header_of_zeros_is_refused() {
    assert_eq!(
        parse(vec![0; 12]).err(),
        Some(DSError::InvalidPacket("A DNS packet should contain a question"))
    );
}

#[test]
fn two_questions_are_refused() {
    assert_eq!(
        parse(vec![0, 0, 0, 0, 0, 2, 0, 0, 0, 0, 0, 0]).err(),
        Some(DSError::InvalidPacket(
            "A DNS packet cannot contain more than one question"
        ))
    );
}

#[test]
fn label_of_64_bytes_is_refused() {
    let mut data: Vec<u8> = vec![0, 0, 0, 0, 0, 1, 0, 0, 0, 0, 0, 0];
    data.push(64);
    data.extend_from_slice(&[97; 64]);
    data.push(0);
    data.extend_from_slice(&[0, 1, 0, 1]);
    assert_eq!(
        parse(data).err(),
        Some(DSError::InvalidName("Label length too long"))
    );
}

#[test]
fn compression_cycle_is_refused() {
    // Question name at 12: a label, then a pointer to 18; at 18: a label,
    // then a pointer back to 12.
    let data: Vec<u8> = vec![
        0, 0, 0, 0, 0, 1, 0, 0, 0, 0, 0, 0, 1, 97, 0xc0, 18, 0, 0, 1, 98, 0xc0, 12, 0, 1, 0, 1,
    ];
    let err = parse(data).err();
    assert!(
        err == Some(DSError::InvalidName("Forward/self reference"))
            || err == Some(DSError::InvalidName("Cycle")),
        "type: {:?}",
        err
    );
}

#[test]
fn pointer_to_itself_is_refused() {
    let data: Vec<u8> = vec![0, 0, 0, 0, 0, 1, 0, 0, 0, 0, 0, 0, 0xc0, 12, 0, 1, 0, 1];
    assert_eq!(
        parse(data).err(),
        Some(DSError::InvalidName("Forward/self reference"))
    );
}

#[test]
fn real_response_is_read() {
    let mut parsed = parse(real_response()).unwrap();
    assert_eq!(parsed.flags(), 0x800081a0);
    assert_eq!(parsed.tid(), 0x262c);
    assert_eq!(parsed.rcode(), 0);
    assert_eq!(parsed.opcode(), 0);
    assert!(parsed.is_response());
    assert!(parsed.dnssec());
    assert_eq!(parsed.max_payload(), 512);
    assert_eq!(parsed.offset_question, Some(12));
    assert_eq!(parsed.offset_answers, Some(25));
    assert_eq!(parsed.offset_nameservers, None);
    assert_eq!(parsed.offset_additional, Some(144));
    assert_eq!(parsed.offset_edns, Some(155));
    assert_eq!(parsed.edns_count, 0);
    assert_eq!(parsed.ext_flags, Some(0x8000));
    assert_eq!(
        parsed.question(),
        Some((b"c9x.org".to_vec(), 1u16, 1u16))
    );
    assert_eq!(parsed.qtype_qclass(), Some((1, 1)));
    assert_eq!(
        parsed.question_raw0(),
        Some((vec![3, 99, 57, 120, 3, 111, 114, 71, 0], 1u16, 1u16))
    );
    assert_eq!(
        parsed.question_raw(),
        Some((vec![3, 99, 57, 120, 3, 111, 114, 71], 1u16, 1u16))
    );
    let mut count = 0;
    {
        let mut it = parsed.into_iter_answer();
        while let Some(item) = it {
            if count == 0 {
                assert_eq!(item.rr_type(), 1);
                assert_eq!(item.rr_class(), 1);
                assert_eq!(item.rr_ttl(), 42781);
                assert_eq!(item.rr_rdlen(), 4);
                assert_eq!(item.name(), b"c9x.org".to_vec());
                assert_eq!(item.rr_ip(), Ok(IpAddr::V4([78, 194, 219, 1])));
                assert_eq!(item.current_section(), Ok(Section::Answer));
                assert_eq!(item.offset(), Some(25));
                assert!(!item.is_tombstone());
            } else {
                assert_eq!(item.rr_type(), 46);
                assert_eq!(item.rr_ip(), Err(DSError::PropertyNotFound));
                assert_eq!(item.rr_txt(), Err(DSError::PropertyNotFound));
            }
            count += 1;
            it = item.next();
        }
    }
    assert_eq!(count, 2);
    assert!(parsed.into_iter_nameservers().is_none());
    assert!(parsed.into_iter_additional().is_none());
    assert!(parsed.into_iter_edns().is_none());
    {
        let opt = parsed.into_iter_additional_including_opt().unwrap();
        assert_eq!(opt.rr_type(), 41);
        assert!(opt.next_including_opt().is_none());
    }
    {
        let q = parsed.into_iter_question().unwrap();
        assert_eq!(q.rr_type(), 1);
        assert_eq!(q.rr_class(), 1);
        assert_eq!(q.name(), b"c9x.org".to_vec());
        let mut raw = Vec::new();
        assert_eq!(q.copy_raw_name(&mut raw), 9);
        assert_eq!(raw, vec![3, 99, 57, 120, 3, 111, 114, 71, 0]);
        assert!(q.next().is_none());
    }
    assert_eq!(parsed.into_packet(), real_response());
}

#[test]
fn insert_a_record_into_answer() {
    let mut parsed = gen::query(b"example.com.", Type::A, Class::IN).unwrap();
    let query_len = parsed.packet().len();
    assert_eq!(query_len, 12 + 13 + 4);
    parsed
        .insert_rr_from_string(Section::Answer, "example.com. 60 IN A 1.2.3.4")
        .unwrap();
    assert_eq!(DNSSector::ancount(parsed.packet()), 1);
    assert_eq!(parsed.packet().len(), query_len + 27);
    assert_eq!(parsed.offset_answers, Some(query_len));
    {
        let item = parsed.into_iter_answer().unwrap();
        assert_eq!(item.name(), b"example.com".to_vec());
        assert_eq!(item.rr_ttl(), 60);
        assert_eq!(item.rr_ip(), Ok(IpAddr::V4([1, 2, 3, 4])));
        assert!(item.next().is_none());
    }
    // As a response the message goes through the validator, and through
    // compression and back.
    parsed.set_response(true);
    let bytes = parsed.into_packet();
    let again = parse(bytes.clone()).unwrap();
    assert_eq!(again.packet(), &bytes[..]);
    let compressed = Compress::compress(&bytes).unwrap();
    assert_eq!(compressed.len(), query_len + 16);
    assert_eq!(Compress::uncompress(&compressed).unwrap(), bytes);
}

#[test]
fn rename_fr_to_net() {
    let mut parsed = gen::query(b"example.fr.", Type::NS, Class::IN).unwrap();
    parsed.set_response(true);
    parsed
        .insert_rr_from_string(Section::Answer, "example.fr. 3600 IN NS ns1.example.fr.")
        .unwrap();
    parsed
        .insert_rr_from_string(Section::Answer, "example.fr. 3600 IN NS ns2.example.fr.")
        .unwrap();
    parsed
        .insert_rr_from_string(Section::NameServers, "other.org. 3600 IN NS ns.other.org.")
        .unwrap();
    let uncompressed_in = parsed.packet().to_vec();
    let compressed_in = Compress::compress(&uncompressed_in).unwrap();
    assert!(compressed_in.len() < uncompressed_in.len());
    assert_eq!(Compress::uncompress(&compressed_in).unwrap(), uncompressed_in);

    let mut packet = parse(compressed_in).unwrap();
    packet
        .rename_with_raw_names(b"\x03net\x00", b"\x02fr\x00", true)
        .unwrap();
    assert!(packet.maybe_compressed);
    let renamed = packet.into_packet();
    let mut out = parse(renamed.clone()).unwrap();
    {
        let q = out.into_iter_question().unwrap();
        assert_eq!(q.name(), b"example.net".to_vec());
    }
    let mut seen = 0;
    {
        let mut it = out.into_iter_answer();
        while let Some(item) = it {
            assert_eq!(item.name(), b"example.net".to_vec());
            assert_eq!(item.rr_type(), 2);
            seen += 1;
            it = item.next();
        }
    }
    assert_eq!(seen, 2);
    {
        let item = out.into_iter_nameservers().unwrap();
        assert_eq!(item.name(), b"other.org".to_vec());
    }
    // Without compression the output is the input with `fr` replaced by
    // `net` byte by byte; each name grows by one byte.
    let mut expected = Vec::new();
    let mut i = 0;
    while i < uncompressed_in.len() {
        if uncompressed_in[i..].starts_with(b"\x02fr\x00") {
            expected.extend_from_slice(b"\x03net\x00");
            i += 4;
        } else {
            expected.push(uncompressed_in[i]);
            i += 1;
        }
    }
    // The lengths of the data of the two answers grow by one as well.
    let uncompressed_out = Compress::uncompress(&renamed).unwrap();
    assert_eq!(uncompressed_out.len(), expected.len());
    let mut differences = 0;
    for k in 0..expected.len() {
        if expected[k] != uncompressed_out[k] {
            assert_eq!(expected[k] + 1, uncompressed_out[k]);
            differences += 1;
        }
    }
    assert_eq!(differences, 2);
}

#[test]
fn words_are_read_in_any_case() {
    assert_eq!(string_nocase(b"  in A", 2, b"IN"), Some(4));
    assert_eq!(string_nocase(b"In", 0, b"IN"), Some(2));
    assert_eq!(string_nocase(b"I", 0, b"IN"), None);
    assert_eq!(string_nocase(b"ON", 0, b"IN"), None);
    assert_eq!(string_nocase(b"abc", 3, b""), Some(3));
    assert_eq!(string_nocase(b"abc", 4, b""), None);
}

#[test]
fn type_mnemonics_are_read() {
    assert_eq!(rr_type_parser(b"IN aaaa ::1", 3), Some((Type::AAAA, 7)));
    assert_eq!(rr_type_parser(b"TXT", 0), Some((Type::TXT, 3)));
    assert_eq!(rr_type_parser(b"TXT2 x", 0), None);
    assert_eq!(rr_type_parser(b" A", 0), None);
    assert_eq!(rr_type_parser(b"OPT", 0), None);
    assert_eq!(rr_type_parser(b"A", 1), None);
}

#[test]
fn header_is_kept_where_a_name_reads_it() {
    // The name of the question is a pointer to the start of the message:
    // it reads its one label, `a`, from the transaction id and its final
    // zero from the flags.
    let bytes: Vec<u8> = vec![1, 0x61, 0, 0, 0, 1, 0, 0, 0, 0, 0, 0, 0xc0, 0, 0, 1, 0, 1];
    let mut p = DNSSector::new(bytes.clone()).unwrap().parse().unwrap();
    assert_eq!(p.tid(), 0x0161);
    assert_eq!(p.question().unwrap().0, b"a".to_vec());
    // another label of one byte is taken
    p.set_tid(0x0162);
    assert_eq!(p.tid(), 0x0162);
    assert_eq!(p.question().unwrap().0, b"b".to_vec());
    // an id that would make the name a name with a label of 64 bytes is not
    p.set_tid(0x4062);
    assert_eq!(p.tid(), 0x0162);
    // nor flags that would take the final zero of the name away
    p.set_response(true);
    assert!(!p.is_response());
    assert_eq!(p.packet()[2..], bytes[2..]);
    // in a message without compression every id and flag is taken
    let mut q = gen::query(b"example.com.", Type::A, Class::IN).unwrap();
    q.set_tid(0x4062);
    assert_eq!(q.tid(), 0x4062);
    q.set_response(true);
    assert!(q.is_response());
}
