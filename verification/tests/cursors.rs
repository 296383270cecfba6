use dnssector::compress::Compress;
use dnssector::constants::{Class, Section, Type};
use dnssector::dns_sector::DNSSector;
use dnssector::errors::DSError;
use dnssector::iterable::{DNSIterable, RdataIterable, TypedIterable};
use dnssector::parsed_packet::ParsedPacket;
use dnssector::rr_iterator::{IpAddr, RRIterator};
use dnssector::synth::gen;

fn sample() -> ParsedPacket {
    let mut p = gen::query(b"example.com.", Type::A, Class::IN).unwrap();
    p.set_response(true);
    p.insert_rr_from_string(Section::Answer, "example.com. 60 IN A 1.2.3.4")
        .unwrap();
    p.insert_rr_from_string(Section::Answer, "www.example.com. 61 IN AAAA ::1")
        .unwrap();
    p.insert_rr_from_string(Section::NameServers, "example.com. 62 IN NS ns.example.com.")
        .unwrap();
    p.insert_rr_from_string(Section::Additional, "ns.example.com. 63 IN TXT \"hello\"")
        .unwrap();
    p.insert_rr_from_string(
        Section::Additional,
        "example.com. 64 IN MX 10 mail.example.com.",
    )
    .unwrap();
    p
}

fn counts(p: &ParsedPacket) -> (u16, u16, u16, u16) {
    (
        DNSSector::qdcount(p.packet()),
        DNSSector::ancount(p.packet()),
        DNSSector::nscount(p.packet()),
        DNSSector::arcount(p.packet()),
    )
}

fn names(p: &mut ParsedPacket) -> Vec<Vec<u8>> {
    let mut all = Vec::new();
    {
        let mut it = p.into_iter_question();
        while let Some(item) = it {
            all.push(item.name());
            it = item.next();
        }
    }
    {
        let mut it = p.into_iter_answer();
        while let Some(item) = it {
            all.push(item.name());
            it = item.next();
        }
    }
    {
        let mut it = p.into_iter_nameservers();
        while let Some(item) = it {
            all.push(item.name());
            it = item.next();
        }
    }
    {
        let mut it = p.into_iter_additional();
        while let Some(item) = it {
            all.push(item.name());
            it = item.next();
        }
    }
    all
}

#[test]
fn sample_layout() {
    let mut p = sample();
    assert_eq!(counts(&p), (1, 2, 1, 2));
    assert_eq!(p.offset_question, Some(12));
    assert_eq!(p.offset_answers, Some(29));
    assert_eq!(p.offset_nameservers, Some(29 + 27 + 43));
    assert_eq!(p.offset_additional, Some(29 + 27 + 43 + 39));
    assert_eq!(p.offset_edns, None);
    assert_eq!(p.packet().len(), 29 + 27 + 43 + 39 + 32 + 43);
    assert!(!p.maybe_compressed);
    assert_eq!(
        names(&mut p),
        vec![
            b"example.com".to_vec(),
            b"example.com".to_vec(),
            b"www.example.com".to_vec(),
            b"example.com".to_vec(),
            b"ns.example.com".to_vec(),
            b"example.com".to_vec(),
        ]
    );
    let bytes = p.packet().to_vec();
    assert!(DNSSector::new(bytes).unwrap().parse().is_ok());
}

#[test]
fn ttl_is_set() {
    let mut p = sample();
    {
        let mut item = p.into_iter_answer().unwrap();
        assert_eq!(item.rr_ttl(), 60);
        item.set_rr_ttl(0x01020304).unwrap();
        assert_eq!(item.rr_ttl(), 0x01020304);
        let item = item.next().unwrap();
        assert_eq!(item.rr_ttl(), 61);
    }
    assert_eq!(&p.packet()[29 + 13 + 4..29 + 13 + 8], &[1, 2, 3, 4]);
    assert_eq!(counts(&p), (1, 2, 1, 2));
}

#[test]
fn address_is_set() {
    let mut p = sample();
    {
        let mut item = p.into_iter_answer().unwrap();
        assert_eq!(item.rr_ip(), Ok(IpAddr::V4([1, 2, 3, 4])));
        assert_eq!(
            item.set_rr_ip(&IpAddr::V6([0; 16])),
            Err(DSError::WrongAddressFamily)
        );
        item.set_rr_ip(&IpAddr::V4([9, 8, 7, 6])).unwrap();
        assert_eq!(item.rr_ip(), Ok(IpAddr::V4([9, 8, 7, 6])));
        let mut item = item.next().unwrap();
        let mut one = [0u8; 16];
        one[15] = 1;
        assert_eq!(item.rr_ip(), Ok(IpAddr::V6(one)));
        assert_eq!(
            item.set_rr_ip(&IpAddr::V4([1, 1, 1, 1])),
            Err(DSError::WrongAddressFamily)
        );
        let mut two = [0xffu8; 16];
        two[0] = 0x20;
        item.set_rr_ip(&IpAddr::V6(two)).unwrap();
        assert_eq!(item.rr_ip(), Ok(IpAddr::V6(two)));
        assert!(item.next().is_none());
    }
    {
        let mut item = p.into_iter_nameservers().unwrap();
        assert_eq!(item.rr_ip(), Err(DSError::PropertyNotFound));
        assert_eq!(
            item.set_rr_ip(&IpAddr::V4([1, 1, 1, 1])),
            Err(DSError::PropertyNotFound)
        );
    }
    assert_eq!(&p.packet()[29 + 23..29 + 27], &[9, 8, 7, 6]);
}

#[test]
fn text_is_read() {
    let mut p = sample();
    let item = p.into_iter_additional().unwrap();
    assert_eq!(item.rr_type(), 16);
    assert_eq!(item.rr_txt(), Ok(b"hello".to_vec()));
    assert_eq!(item.rr_rdlen(), 6);
    let item = item.next().unwrap();
    assert_eq!(item.rr_type(), 15);
    assert_eq!(item.rr_txt(), Err(DSError::PropertyNotFound));
    assert_eq!(item.rdata_slice()[10..12], [0, 10]);
    assert_eq!(item.name_slice(), b"\x07example\x03com\x00");
}

#[test]
fn text_in_chunks_is_read() {
    let mut text = String::new();
    for k in 0..600 {
        text.push((b'a' + (k % 26) as u8) as char);
    }
    let mut p = gen::query(b"example.com.", Type::TXT, Class::IN).unwrap();
    p.set_response(true);
    p.insert_rr_from_string(
        Section::Answer,
        &format!("example.com. 60 IN TXT \"{}\"", text),
    )
    .unwrap();
    let item = p.into_iter_answer().unwrap();
    assert_eq!(item.rr_rdlen(), 603);
    assert_eq!(item.rdata_slice()[10], 255);
    assert_eq!(item.rdata_slice()[10 + 256], 255);
    assert_eq!(item.rdata_slice()[10 + 512], 90);
    assert_eq!(item.rr_txt(), Ok(text.into_bytes()));
}

#[test]
fn name_is_set() {
    let mut p = sample();
    let before = p.packet().to_vec();
    {
        let item = p.into_iter_answer().unwrap();
        let mut item = item.next().unwrap();
        assert_eq!(item.name(), b"www.example.com".to_vec());
        // what follows the final zero of the name does not count
        item.set_raw_name(b"\x01a\x00\x05").unwrap();
        assert_eq!(item.name(), b"a".to_vec());
        assert_eq!(item.rr_ttl(), 61);
        assert_eq!(item.offset(), Some(29 + 27));
        assert_eq!(item.offset_next(), 29 + 27 + 43 - 14);
        assert!(item.next().is_none());
    }
    assert_eq!(p.packet().len(), before.len() - 14);
    assert_eq!(p.offset_answers, Some(29));
    assert_eq!(p.offset_nameservers, Some(29 + 27 + 43 - 14));
    assert_eq!(p.offset_additional, Some(29 + 27 + 43 + 39 - 14));
    assert_eq!(counts(&p), (1, 2, 1, 2));
    {
        let mut item = p.into_iter_question().unwrap();
        item.set_raw_name(b"\x08longname\x07example\x03com\x00")
            .unwrap();
        assert_eq!(item.name(), b"longname.example.com".to_vec());
        assert_eq!(item.rr_type(), 1);
    }
    assert_eq!(p.packet().len(), before.len() - 14 + 9);
    assert_eq!(p.offset_answers, Some(29 + 9));
    assert_eq!(
        names(&mut p),
        vec![
            b"longname.example.com".to_vec(),
            b"example.com".to_vec(),
            b"a".to_vec(),
            b"example.com".to_vec(),
            b"ns.example.com".to_vec(),
            b"example.com".to_vec(),
        ]
    );
    {
        let mut item = p.into_iter_answer().unwrap();
        assert_eq!(
            item.set_raw_name(b"\x01a"),
            Err(DSError::InvalidName("Truncated name"))
        );
        assert_eq!(
            item.set_raw_name(b"\xc0\x0c"),
            Err(DSError::InvalidName("Unexpected compression"))
        );
        assert_eq!(item.name(), b"example.com".to_vec());
    }
}

#[test]
fn record_is_deleted() {
    let mut p = sample();
    let len = p.packet().len();
    {
        let mut item = p.into_iter_answer().unwrap();
        item.delete().unwrap();
        assert!(item.is_tombstone());
        assert_eq!(item.offset(), None);
        assert_eq!(item.offset_next(), 29);
        assert_eq!(item.delete(), Err(DSError::VoidRecord));
        assert_eq!(item.set_raw_name(b"\x00"), Err(DSError::VoidRecord));
        // the iterator goes on with the record behind the one that is gone
        let mut item = item.next().unwrap();
        assert_eq!(item.name(), b"www.example.com".to_vec());
        assert_eq!(item.offset(), Some(29));
        item.delete().unwrap();
        assert!(item.next().is_none());
    }
    assert_eq!(counts(&p), (1, 0, 1, 2));
    assert_eq!(p.offset_answers, None);
    assert_eq!(p.offset_nameservers, Some(29));
    assert_eq!(p.offset_additional, Some(29 + 39));
    assert_eq!(p.packet().len(), len - 27 - 43);
    assert!(p.into_iter_answer().is_none());
    {
        let item = p.into_iter_additional().unwrap();
        let mut item = item.next().unwrap();
        item.delete().unwrap();
        assert!(item.next().is_none());
    }
    assert_eq!(counts(&p), (1, 0, 1, 1));
    assert_eq!(p.packet().len(), len - 27 - 43 - 43);
    {
        let mut item = p.into_iter_question().unwrap();
        item.delete().unwrap();
    }
    assert_eq!(counts(&p), (0, 0, 1, 1));
    assert_eq!(p.offset_question, None);
    assert_eq!(p.offset_nameservers, Some(12));
    assert_eq!(
        names(&mut p),
        vec![b"example.com".to_vec(), b"ns.example.com".to_vec()]
    );
}

#[test]
fn compressed_packet_is_edited() {
    let plain = sample().into_packet();
    let compressed = Compress::compress(&plain).unwrap();
    assert!(compressed.len() < plain.len());
    let mut p = DNSSector::new(compressed.clone()).unwrap().parse().unwrap();
    assert!(p.maybe_compressed);
    {
        let item = p.into_iter_answer().unwrap();
        let mut item = item.next().unwrap();
        assert_eq!(item.name(), b"www.example.com".to_vec());
        // the TTL is set in place, the packet stays compressed
        item.set_rr_ttl(7).unwrap();
        assert_eq!(item.rr_ttl(), 7);
    }
    assert!(p.maybe_compressed);
    assert_eq!(p.packet().len(), compressed.len());
    {
        let item = p.into_iter_answer().unwrap();
        let mut item = item.next().unwrap();
        item.delete().unwrap();
        assert_eq!(item.offset_next(), 29 + 27);
    }
    assert!(!p.maybe_compressed);
    assert_eq!(p.packet().len(), plain.len() - 43);
    assert_eq!(counts(&p), (1, 1, 1, 2));
    assert_eq!(
        names(&mut p),
        vec![
            b"example.com".to_vec(),
            b"example.com".to_vec(),
            b"example.com".to_vec(),
            b"ns.example.com".to_vec(),
            b"example.com".to_vec(),
        ]
    );
    // a name is set in a compressed packet
    let mut p = DNSSector::new(compressed.clone()).unwrap().parse().unwrap();
    {
        let mut item = p.into_iter_nameservers().unwrap();
        item.set_raw_name(b"\x03net\x00").unwrap();
        assert_eq!(item.name(), b"net".to_vec());
        assert_eq!(item.offset(), Some(29 + 27 + 43));
    }
    assert!(!p.maybe_compressed);
    assert_eq!(p.packet().len(), plain.len() - 8);
    // the whole packet is uncompressed through an iterator
    let mut p = DNSSector::new(compressed).unwrap().parse().unwrap();
    {
        let item = p.into_iter_answer().unwrap();
        let mut item = item.next().unwrap();
        item.uncompress().unwrap();
        assert_eq!(item.offset(), Some(29 + 27));
        assert_eq!(item.name(), b"www.example.com".to_vec());
    }
    assert!(!p.maybe_compressed);
    assert_eq!(p.packet(), &plain[..]);
}

#[test]
fn header_is_set() {
    let mut p = sample();
    p.set_tid(0xabcd);
    assert_eq!(p.tid(), 0xabcd);
    assert_eq!(&p.packet()[..2], &[0xab, 0xcd]);
    assert_eq!(p.flags(), 0x8100);
    p.set_flags(0xffff_ffff);
    // the opcode and the return code are not touched, nor shown
    assert_eq!(p.flags(), 0x87f0);
    assert_eq!(p.opcode(), 0);
    assert_eq!(p.rcode(), 0);
    p.set_rcode(0x13);
    assert_eq!(p.rcode(), 3);
    p.set_opcode(0x15);
    assert_eq!(p.opcode(), 5);
    assert_eq!(&p.packet()[2..4], &[0x87 | 0x28, 0xf3]);
    assert_eq!(p.flags(), 0x87f0);
    p.set_flags(0);
    assert_eq!(p.flags(), 0);
    assert_eq!(p.opcode(), 5);
    assert_eq!(p.rcode(), 3);
    assert!(!p.is_response());
    assert!(!p.dnssec());
    p.set_response(true);
    assert!(p.is_response());
    p.set_flags(0x8020);
    assert!(p.dnssec());
    assert_eq!(counts(&p), (1, 2, 1, 2));
}

#[test]
fn section_counts_are_changed() {
    let mut p = ParsedPacket::empty();
    assert_eq!(p.packet().len(), 12);
    assert_eq!(&p.packet()[2..], &[1, 0, 0, 0, 0, 0, 0, 0, 0, 0]);
    assert_eq!(p.max_payload(), 8192);
    assert_eq!(p.rrcount_inc(Section::Question), Ok(1));
    assert_eq!(
        p.rrcount_inc(Section::Question),
        Err(DSError::InvalidPacket(
            "A DNS packet can only contain up to one question"
        ))
    );
    assert_eq!(p.rrcount_inc(Section::Answer), Ok(1));
    assert_eq!(p.rrcount_inc(Section::Answer), Ok(2));
    assert_eq!(p.rrcount_inc(Section::NameServers), Ok(1));
    assert_eq!(p.rrcount_inc(Section::Additional), Ok(1));
    assert_eq!(&p.packet()[4..], &[0, 1, 0, 2, 0, 1, 0, 1]);
    assert_eq!(p.rrcount_dec(Section::Answer), Ok(1));
    assert_eq!(p.rrcount_dec(Section::Question), Ok(0));
    assert_eq!(&p.packet()[4..], &[0, 0, 0, 1, 0, 1, 0, 1]);
    p.packet_mut()[6] = 0xff;
    p.packet_mut()[7] = 0xff;
    assert_eq!(
        p.rrcount_inc(Section::Answer),
        Err(DSError::InvalidPacket(
            "Too many records in the same question"
        ))
    );
}

#[test]
fn buffer_is_resized() {
    let mut v = vec![1u8, 2, 3, 4, 5];
    RRIterator::resize_rr(&mut v, 2, 3).unwrap();
    assert_eq!(v, vec![1, 2, 0, 0, 0, 3, 4, 5]);
    RRIterator::resize_rr(&mut v, 1, -4).unwrap();
    assert_eq!(v, vec![1, 3, 4, 5]);
    RRIterator::resize_rr(&mut v, 4, 0).unwrap();
    assert_eq!(v, vec![1, 3, 4, 5]);
    let mut big = vec![0u8; 8000];
    assert_eq!(
        RRIterator::resize_rr(&mut big, 10, 193),
        Err(DSError::PacketTooLarge)
    );
    assert_eq!(big.len(), 8000);
    RRIterator::resize_rr(&mut big, 10, 192).unwrap();
    assert_eq!(big.len(), 8192);
}

#[test]
fn offsets_are_skipped() {
    let p = sample().into_packet();
    assert_eq!(RRIterator::skip_name(&p, 12), 25);
    assert_eq!(RRIterator::skip_rdata(&p, 29 + 13), 29 + 27);
    assert_eq!(RRIterator::skip_rr(&p, 29), 29 + 27);
    assert_eq!(RRIterator::edns_skip_rr(&[0, 8, 0, 4, 1, 2, 3, 4, 9], 0), 8);
}

#[test]
fn record_information_is_read_again() {
    let mut p = sample();
    let item = p.into_iter_answer().unwrap();
    let mut item = item.next().unwrap();
    let offset = item.offset();
    let offset_next = item.offset_next();
    let name_end = item.rr_iterator.name_end;
    assert_eq!(offset, Some(29 + 27));
    assert!(offset.unwrap() < name_end && name_end + 10 <= offset_next);
    // an iterator that knows its record stays as it is
    item.recompute_rr();
    assert_eq!(item.offset(), offset);
    assert_eq!(item.offset_next(), offset_next);
    assert_eq!(item.rr_iterator.name_end, name_end);
    // one that has lost what it knew finds it again
    item.rr_iterator.name_end = 0;
    item.rr_iterator.offset_next = 12;
    item.recompute_rr();
    assert_eq!(item.offset(), offset);
    assert_eq!(item.offset_next(), offset_next);
    assert_eq!(item.rr_iterator.name_end, name_end);
    assert_eq!(item.name(), b"www.example.com".to_vec());
    assert_eq!(item.rr_ttl(), 61);
}

// A response for example.com with one answer, whose name is a pointer to
// the name of the question.
fn with_pointer() -> Vec<u8> {
    let mut m: Vec<u8> = vec![0, 1, 0x80, 0, 0, 1, 0, 1, 0, 0, 0, 0];
    m.extend_from_slice(b"\x07example\x03com\x00\x00\x01\x00\x01");
    m.extend_from_slice(&[0xc0, 12, 0, 1, 0, 1, 0, 0, 0, 5, 0, 4, 1, 1, 1, 1]);
    m
}

#[test]
fn packet_is_marked_by_what_it_holds() {
    // what was parsed may hold compressed names, and does
    let mut p = DNSSector::new(with_pointer()).unwrap().parse().unwrap();
    assert!(p.maybe_compressed);
    assert!(!p.is_uncompressed());
    p.recompute().unwrap();
    assert!(p.maybe_compressed);
    assert_eq!(p.packet(), &with_pointer()[..]);
    // the same message without compression is marked so once it is looked at
    let plain = Compress::uncompress(&with_pointer()).unwrap();
    let mut p = DNSSector::new(plain.clone()).unwrap().parse().unwrap();
    assert!(p.maybe_compressed);
    assert!(p.is_uncompressed());
    p.recompute().unwrap();
    assert!(!p.maybe_compressed);
    assert_eq!(p.packet(), &plain[..]);
    // a record that holds a pointer leaves the mark on the packet
    let mut p = gen::query(b"example.com.", Type::A, Class::IN).unwrap();
    p.set_response(true);
    assert!(!p.maybe_compressed);
    p.insert_rr_from_string(Section::Answer, "example.com. 60 IN A 1.2.3.4")
        .unwrap();
    assert!(!p.maybe_compressed);
    let pointed = gen::RR {
        packet: vec![0xc0, 12, 0, 1, 0, 1, 0, 0, 0, 5, 0, 4, 1, 1, 1, 1],
        rdata_offset: 12,
    };
    p.insert_rr(Section::Answer, pointed).unwrap();
    assert!(p.maybe_compressed);
    assert_eq!(counts(&p), (1, 2, 0, 0));
    // and the next edit writes the message without compression
    p.insert_rr_from_string(Section::Answer, "example.com. 61 IN A 1.2.3.5")
        .unwrap();
    assert!(!p.maybe_compressed);
    assert!(p.is_uncompressed());
    assert_eq!(counts(&p), (1, 3, 0, 0));
}

#[test]
fn cursor_inside_a_record_edits_nothing() {
    // One answer, a TXT record whose text is, byte for byte, an address
    // record with the root as its name.
    let inner: [u8; 15] = [0, 0, 1, 0, 1, 0, 0, 0, 9, 0, 4, 1, 2, 3, 4];
    let mut m: Vec<u8> = vec![0, 1, 0x80, 0, 0, 1, 0, 1, 0, 0, 0, 0];
    m.extend_from_slice(b"\x07example\x03com\x00\x00\x01\x00\x01");
    m.extend_from_slice(b"\x07example\x03com\x00");
    m.extend_from_slice(&[0, 16, 0, 1, 0, 0, 0, 5, 0, 16, 15]);
    m.extend_from_slice(&inner);
    let mut p = DNSSector::new(m.clone()).unwrap().parse().unwrap();
    {
        let mut item = p.into_iter_answer().unwrap();
        assert_eq!(item.offset(), Some(29));
        assert_eq!(item.rr_ttl(), 5);
        // the cursor is put on the record that the text spells
        item.rr_iterator.offset = Some(29 + 13 + 10 + 1);
        item.recompute_rr();
        assert_eq!(item.rr_type(), 1);
        assert_eq!(item.rr_ttl(), 9);
        assert_eq!(item.offset_next(), m.len());
        // no record of the section leads there: nothing is changed
        assert!(item.set_rr_ttl(7).is_err());
        assert!(item.delete().is_err());
        assert!(item.set_raw_name(b"\x01a\x00").is_err());
    }
    assert_eq!(p.packet(), &m[..]);
    {
        let mut item = p.into_iter_answer().unwrap();
        item.set_rr_ttl(7).unwrap();
        assert_eq!(item.rr_ttl(), 7);
        item.delete().unwrap();
    }
    assert_eq!(counts(&p), (1, 0, 0, 0));
}
