use dnssector::dns_sector::DNSSector;
use dnssector::errors::DSError;
use dnssector::iterable::{DNSIterable, RdataIterable, TypedIterable};
use dnssector::parsed_packet::ParsedPacket;

// A response for example.com with three additional records: an address,
// an OPT record with two options, and another address.
fn with_opt() -> Vec<u8> {
    let mut m: Vec<u8> = vec![0, 1, 0x80, 0, 0, 1, 0, 0, 0, 0, 0, 3];
    m.extend_from_slice(b"\x07example\x03com\x00\x00\x01\x00\x01");
    m.extend_from_slice(&[0xc0, 12, 0, 1, 0, 1, 0, 0, 0, 5, 0, 4, 1, 1, 1, 1]);
    m.extend_from_slice(&[0, 0, 41, 0x10, 0, 3, 1, 0x80, 0, 0, 12]);
    m.extend_from_slice(&[0, 3, 0, 0, 0, 8, 0, 4, 1, 2, 3, 4]);
    m.extend_from_slice(&[0xc0, 12, 0, 1, 0, 1, 0, 0, 0, 6, 0, 4, 2, 2, 2, 2]);
    m
}

fn parse(data: Vec<u8>) -> Result<ParsedPacket, DSError> {
    DNSSector::new(data).unwrap().parse()
}

#[test]
fn opt_record_is_read() {
    let mut p = parse(with_opt()).unwrap();
    assert_eq!(p.offset_additional, Some(29));
    assert_eq!(p.offset_edns, Some(29 + 16 + 11));
    assert_eq!(p.edns_count, 2);
    assert_eq!(p.ext_rcode, Some(3));
    assert_eq!(p.edns_version, Some(1));
    assert_eq!(p.ext_flags, Some(0x8000));
    assert_eq!(p.max_payload(), 4096);
    assert_eq!(p.flags(), 0x8000_8000);
    {
        let item = p.into_iter_edns().unwrap();
        assert_eq!(item.it().rr_type(), 3);
        assert_eq!(item.it().rr_class(), 0);
        assert_eq!(item.offset(), Some(56));
        assert_eq!(item.offset_next(), 60);
        let item = item.next().unwrap();
        assert_eq!(item.it().rr_type(), 8);
        assert_eq!(item.it().rr_class(), 4);
        assert_eq!(item.rdata_slice()[4..8], [1, 2, 3, 4]);
        assert_eq!(item.it().name(), Vec::<u8>::new());
        assert!(item.next().is_none());
    }
    // the OPT record is passed over
    {
        let item = p.into_iter_additional().unwrap();
        assert_eq!(item.rr_ttl(), 5);
        let item = item.next().unwrap();
        assert_eq!(item.rr_ttl(), 6);
        assert!(item.next().is_none());
    }
    // or not
    {
        let item = p.into_iter_additional_including_opt().unwrap();
        let item = item.next_including_opt().unwrap();
        assert_eq!(item.rr_type(), 41);
        let item = item.next_including_opt().unwrap();
        assert_eq!(item.rr_ttl(), 6);
        assert!(item.next_including_opt().is_none());
    }
    let mut raw = vec![9u8];
    assert_eq!(p.copy_raw_edns_section(&mut raw), 23);
    assert_eq!(&raw[1..], &with_opt()[45..68]);
    let mut header = Vec::new();
    p.copy_header(&mut header);
    assert_eq!(header, with_opt()[..12].to_vec());
}

#[test]
fn opt_record_goes_last_when_names_are_replaced() {
    let mut p = parse(with_opt()).unwrap();
    p.rename_with_raw_names(b"\x03org\x00", b"\x03com\x00", true)
        .unwrap();
    assert_eq!(p.edns_count, 2);
    assert_eq!(p.offset_edns, Some(29 + 16 + 16 + 11));
    let mut expected = with_opt();
    expected[21..24].copy_from_slice(b"org");
    let opt: Vec<u8> = expected.drain(45..68).collect();
    expected.extend_from_slice(&opt);
    assert_eq!(p.packet(), &expected[..]);
}

#[test]
fn malformed_opt_records_are_refused() {
    // in the answer section
    let mut m = with_opt();
    m[7] = 3;
    m[11] = 0;
    assert_eq!(
        parse(m).err(),
        Some(DSError::InvalidPacket(
            "OPT RRs must be in the additional section"
        ))
    );
    // two of them
    let mut m = with_opt();
    m[11] = 4;
    m.extend_from_slice(&[0, 0, 41, 0x10, 0, 0, 0, 0, 0, 0, 0]);
    assert_eq!(
        parse(m).err(),
        Some(DSError::InvalidPacket("Only one OPT record is allowed"))
    );
    // with a name
    let mut m: Vec<u8> = vec![0, 1, 0x80, 0, 0, 1, 0, 0, 0, 0, 0, 1];
    m.extend_from_slice(b"\x07example\x03com\x00\x00\x01\x00\x01");
    m.extend_from_slice(&[0xc0, 12, 0, 41, 0x10, 0, 0, 0, 0, 0, 0, 0]);
    assert_eq!(
        parse(m).err(),
        Some(DSError::InvalidPacket(
            "OPT RRs must have the root domain as the domain name"
        ))
    );
    // an option that runs past the data
    let mut m = with_opt();
    m[63] = 5;
    assert_eq!(parse(m).err(), Some(DSError::PacketTooSmall));
    // an option header cut short
    let mut m = with_opt();
    m[55] = 14;
    m.truncate(70);
    m[11] = 2;
    assert_eq!(parse(m).err(), Some(DSError::PacketTooSmall));
}
