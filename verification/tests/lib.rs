use dnssector::dns_sector::DNSSector;
use dnssector::errors::DSError;

#[test]
fn test_empty_packet() {
    let data: Vec<u8> = vec![];
    let dns_sector = DNSSector::new(data).unwrap();
    assert!(dns_sector.parse().is_err());
}

#[test]
fn test_packet_too_small() {
    let data_small: Vec<u8> = vec![1; 11];
    let dns_sector = DNSSector::new(data_small).unwrap();
    let ret = dns_sector.parse();
    assert!(ret.is_err());
    match ret.err() {
        Some(DSError::PacketTooSmall) => {
            assert!(true)
        }
        _ => {
            assert!(false)
        }
    }
}

#[test]
fn test_packet_has_two_questions() {
    let data_small: Vec<u8> = vec![0, 0, 0, 0, 0, 2, 0, 0, 0, 0, 0, 0];
    let dns_sector = DNSSector::new(data_small).unwrap();
    let ret = dns_sector.parse();
    assert!(ret.is_err());
    match ret.err() {
        Some(DSError::InvalidPacket(_)) => {
            assert!(true)
        }
        a => {
            assert!(false, "type: {:?}", a)
        }
    }
}

#[test]
fn test_packet_advertises_one_question_but_is_missing_section() {
    let data_small: Vec<u8> = vec![0, 0, 0, 0, 0, 1, 0, 0, 0, 0, 0, 0];
    let dns_sector = DNSSector::new(data_small).unwrap();
    let ret = dns_sector.parse();
    assert!(ret.is_err());
    match ret.err() {
        Some(DSError::InternalError(_)) => {
            assert!(true)
        }
        a => {
            assert!(false, "type: {:?}", a)
        }
    }
}

#[test]
fn test_packet_has_empty_name() {
    let data_small: Vec<u8> = vec![0, 0, 0, 0, 0, 1, 0, 0, 0, 0, 0, 0, 0, 0, 0, 0, 1];
    let dns_sector = DNSSector::new(data_small).unwrap();
    let ret = dns_sector.parse();
    assert!(ret.is_ok());
}

#[test]
fn test_packet_name_does_not_end() {
    let data_small: Vec<u8> = vec![0, 0, 0, 0, 0, 1, 0, 0, 0, 0, 0, 0, 1, 'a' as u8, 0, 0, 0, 1];
    let dns_sector = DNSSector::new(data_small).unwrap();
    let ret = dns_sector.parse();
    assert!(ret.is_err());
    match ret.err() {
        Some(DSError::PacketTooSmall) => {
            assert!(true)
        }
        a => {
            assert!(false, "type: {:?}", a)
        }
    }
}

#[test]
fn test_packet_label_too_long() {
    let mut data_small: Vec<u8> = vec![0, 0, 0, 0, 0, 1, 0, 0, 0, 0, 0, 0];
    data_small.push(64);
    data_small.extend_from_slice(&[97; 64]);
    data_small.push(0);
    data_small.extend_from_slice(&[0, 0, 0, 1]);
    let dns_sector = DNSSector::new(data_small).unwrap();
    let ret = dns_sector.parse();
    assert!(ret.is_err());
    match ret.err() {
        Some(DSError::InvalidName(_)) => {
            assert!(true)
        }
        a => {
            assert!(false, "type: {:?}", a)
        }
    }
}

#[test]
fn test_packet_name_too_long() {
    let mut data_small: Vec<u8> = vec![0, 0, 0, 0, 0, 1, 0, 0, 0, 0, 0, 0];
    for _ in 0..4 {
        data_small.push(63);
        data_small.extend_from_slice(&[97; 63]);
    }
    data_small.push(0);
    data_small.extend_from_slice(&[0, 0, 0, 1]);
    let dns_sector = DNSSector::new(data_small).unwrap();
    let ret = dns_sector.parse();
    assert!(ret.is_err());
    match ret.err() {
        Some(DSError::InvalidName(_)) => {
            assert!(true)
        }
        a => {
            assert!(false, "type: {:?}", a)
        }
    }
}

fn long_names_with_compression(flags_hi: u8, rr_type: u8) -> Vec<u8> {
    let mut data: Vec<u8> = vec![0, 0, flags_hi, 0, 0, 1, 0, 3, 0, 0, 0, 0];
    /* query */
    data.push(63);
    data.extend_from_slice(&[97; 63]);
    data.push(0);
    data.extend_from_slice(&[0, 1, 0, 1]);
    /* three answers, each a label in front of a pointer to the name before */
    for pointer in [0x0cu8, 0x51, 0x9d] {
        data.push(63);
        data.extend_from_slice(&[97; 63]);
        data.extend_from_slice(&[0xc0, pointer]);
        data.extend_from_slice(&[0, rr_type, 0, 1, 0, 0, 0, 0, 0, 0]);
    }
    data
}

#[test]
fn test_packet_name_too_long_with_compression() {
    // A message that says it is a query is turned down for its answers
    // before any of them is looked at.
    let dns_sector = DNSSector::new(long_names_with_compression(0, 1)).unwrap();
    let ret = dns_sector.parse();
    assert!(ret.is_err());
    match ret.err() {
        Some(DSError::InvalidPacket("A question shouldn't also contain answers")) => {
            assert!(true)
        }
        a => {
            assert!(false, "type: {:?}", a)
        }
    }
    // As a response it is turned down for its first answer, an address
    // record without an address.
    let dns_sector = DNSSector::new(long_names_with_compression(0x80, 1)).unwrap();
    match dns_sector.parse().err() {
        Some(DSError::InvalidPacket("A record doesn't include a 4 bytes IP address")) => {
            assert!(true)
        }
        a => {
            assert!(false, "type: {:?}", a)
        }
    }
    // With text records in the place of the address records, the names are
    // looked at: the third answer spells a name of 257 bytes.
    let dns_sector = DNSSector::new(long_names_with_compression(0x80, 16)).unwrap();
    let ret = dns_sector.parse();
    assert!(ret.is_err());
    match ret.err() {
        Some(DSError::InvalidName("Name too long")) => {
            assert!(true)
        }
        a => {
            assert!(false, "type: {:?}", a)
        }
    }
}

#[test]
fn test_packet_valid_response_1() {
    let data = vec![
        38, 44, 129, 160, 0, 1, 0, 2, 0, 0, 0, 1, 3, 99, 57, 120, 3, 111, 114, 71, 0, 0, 1, 0, 1,
        192, 12, 0, 1, 0, 1, 0, 0, 167, 29, 0, 4, 78, 194, 219, 1, 192, 12, 0, 46, 0, 1, 0, 0, 167,
        29, 0, 91, 0, 1, 13, 2, 0, 0, 168, 192, 89, 56, 71, 147, 89, 16, 186, 147, 82, 60, 3, 99,
        57, 120, 3, 111, 114, 103, 0, 153, 235, 139, 49, 43, 255, 159, 252, 196, 189, 29, 77, 88,
        132, 233, 31, 133, 88, 104, 42, 139, 12, 101, 158, 121, 95, 105, 180, 59, 216, 202, 174,
        113, 201, 121, 23, 4, 26, 241, 134, 233, 52, 104, 120, 80, 237, 252, 215, 146, 44, 120,
        229, 63, 16, 95, 19, 209, 103, 165, 196, 195, 151, 222, 52, 0, 0, 41, 2, 0, 0, 0, 128, 0,
        0, 0,
    ];
    let dns_sector = DNSSector::new(data).unwrap();
    let ret = dns_sector.parse().expect("Valid packet couldn't be parsed");
    let flags = ret.flags();
    assert_eq!(flags, 0x800081a0);
}
