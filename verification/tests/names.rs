use dnssector::compress::{Compress, SuffixDict};
use dnssector::dns_sector::DNSSector;
use dnssector::errors::DSError;
use dnssector::renamer::Renamer;
use dnssector::synth::gen::{copy_raw_name_from_str, raw_name_from_str};

fn message_with_pointer() -> Vec<u8> {
    // header, a question for c9x.orG, then a name that is a pointer to it
    vec![
        0, 0, 0x80, 0, 0, 1, 0, 0, 0, 0, 0, 0, 3, 99, 57, 120, 3, 111, 114, 71, 0, 0, 1, 0, 1, 3,
        119, 119, 119, 192, 12, 0, 0,
    ]
}

#[test]
fn compressed_name_is_checked() {
    let m = message_with_pointer();
    assert_eq!(Compress::check_compressed_name(&m, 12), Ok(21));
    assert_eq!(Compress::check_compressed_name(&m, 25), Ok(31));
    assert_eq!(Compress::check_compressed_name(&m, 29), Ok(31));
    assert_eq!(
        Compress::check_compressed_name(&m, 100),
        Err(DSError::InternalError("Offset outside packet boundaries"))
    );
    // a label that runs past the end
    assert_eq!(
        Compress::check_compressed_name(&[5, 97, 98], 0),
        Err(DSError::InvalidName("Out-of-bounds name"))
    );
    // labels that end with the buffer, without a final zero
    assert_eq!(
        Compress::check_compressed_name(&[1, 97, 1, 98], 2),
        Err(DSError::InvalidName("Truncated name"))
    );
    assert_eq!(
        Compress::check_compressed_name(&[1, 97], 0),
        Err(DSError::InvalidName("Truncated name"))
    );
    // a pointer to labels that run into the place the pointer came from
    assert_eq!(
        Compress::check_compressed_name(&[1, 97, 1, 98, 0xc0, 0], 4),
        Err(DSError::InvalidName("Cycle"))
    );
    // a pointer cut in two
    assert_eq!(
        Compress::check_compressed_name(&[0, 0xc0], 1),
        Err(DSError::InvalidName("Invalid internal offset"))
    );
    // a pointer forward
    assert_eq!(
        Compress::check_compressed_name(&[0xc0, 2, 0], 0),
        Err(DSError::InvalidName("Forward/self reference"))
    );
    // a reserved length
    assert_eq!(
        Compress::check_compressed_name(&[0x80, 0], 0),
        Err(DSError::InvalidName("Label length too long"))
    );
}

#[test]
fn chain_of_pointers_is_bounded() {
    // 18 names, each a pointer to the one before; the first is the root.
    let mut m: Vec<u8> = vec![0];
    for k in 0..18u8 {
        let target = if k == 0 { 0 } else { 1 + 2 * (k - 1) };
        m.extend_from_slice(&[0xc0, target]);
    }
    // 16 pointers are followed
    assert_eq!(Compress::check_compressed_name(&m, 1 + 2 * 15), Ok(1 + 2 * 15 + 2));
    // 17 are not
    assert_eq!(
        Compress::check_compressed_name(&m, 1 + 2 * 16),
        Err(DSError::InvalidName("Too many indirections"))
    );
}

#[test]
fn name_is_copied_without_compression() {
    let m = message_with_pointer();
    let mut name = vec![7u8];
    let r = Compress::copy_uncompressed_name(&mut name, &m, 25);
    assert_eq!(name, vec![7, 3, 119, 119, 119, 3, 99, 57, 120, 3, 111, 114, 71, 0]);
    assert_eq!(r.name_len, 13);
    assert_eq!(r.final_offset, 31);
    let mut name = Vec::new();
    let r = Compress::copy_uncompressed_name(&mut name, &m, 12);
    assert_eq!(name, vec![3, 99, 57, 120, 3, 111, 114, 71, 0]);
    assert_eq!(r.name_len, 9);
    assert_eq!(r.final_offset, 21);
    assert_eq!(Compress::pointer_at(&m, 29), 12);
}

#[test]
fn longest_name_is_255_bytes() {
    // three labels of 63 bytes and one of 61: 255 bytes with the final zero
    let mut m: Vec<u8> = Vec::new();
    for len in [63u8, 63, 63, 61] {
        m.push(len);
        m.extend_from_slice(&vec![97; len as usize]);
    }
    m.push(0);
    assert_eq!(m.len(), 255);
    assert_eq!(Compress::check_compressed_name(&m, 0), Ok(255));
    assert_eq!(DNSSector::check_uncompressed_name(&m, 0), Ok(255));
    let mut name = Vec::new();
    let r = Compress::copy_uncompressed_name(&mut name, &m, 0);
    assert_eq!(r.name_len, 255);
    assert_eq!(name, m);
    // one byte more is too much
    let mut m: Vec<u8> = Vec::new();
    for len in [63u8, 63, 63, 62] {
        m.push(len);
        m.extend_from_slice(&vec![97; len as usize]);
    }
    m.push(0);
    assert_eq!(
        Compress::check_compressed_name(&m, 0),
        Err(DSError::InvalidName("Name too long"))
    );
    assert_eq!(
        DNSSector::check_uncompressed_name(&m, 0),
        Err(DSError::InvalidName("Name too long"))
    );
}

#[test]
fn uncompressed_name_is_checked() {
    let m = message_with_pointer();
    assert_eq!(DNSSector::check_uncompressed_name(&m, 12), Ok(21));
    assert_eq!(
        DNSSector::check_uncompressed_name(&m, 25),
        Err(DSError::InvalidName("Unexpected compression"))
    );
    assert_eq!(
        DNSSector::check_uncompressed_name(&m, 33),
        Err(DSError::InternalError("Offset outside packet boundaries"))
    );
    assert_eq!(
        DNSSector::check_uncompressed_name(&[64, 0], 0),
        Err(DSError::InvalidName("Label length too long"))
    );
    assert_eq!(
        DNSSector::check_uncompressed_name(&[1, 97], 0),
        Err(DSError::InvalidName("Truncated name"))
    );
    assert_eq!(
        DNSSector::check_uncompressed_name(&[2, 97], 0),
        Err(DSError::InvalidName("Out-of-bounds name"))
    );
}

#[test]
fn raw_name_length() {
    assert_eq!(Compress::raw_name_len(&[3, 119, 119, 119, 0, 9, 9]), 5);
    assert_eq!(Compress::raw_name_len(&[0]), 1);
    assert_eq!(Compress::raw_name_len(&[1, 97, 2, 98, 99, 0]), 6);
}

#[test]
fn name_in_presentation_form() {
    let m = message_with_pointer();
    assert_eq!(Compress::raw_name_to_str(&m, 12), b"c9x.org".to_vec());
    assert_eq!(Compress::raw_name_to_str(&m, 25), b"www.c9x.org".to_vec());
    assert_eq!(Compress::raw_name_to_str(&m, 31), Vec::<u8>::new());
    assert_eq!(
        Compress::raw_name_to_str(&[2, 65, 90, 1, 64, 1, 91, 0], 0),
        b"az.@.[".to_vec()
    );
}

#[test]
fn names_equal_up_to_case() {
    assert!(SuffixDict::raw_names_eq_ignore_case(
        &[3, 99, 111, 109, 0],
        &[3, 67, 79, 77, 0]
    ));
    assert!(SuffixDict::raw_names_eq_ignore_case(
        &[3, 99, 111, 109, 0, 1, 2],
        &[3, 67, 79, 77, 0, 3]
    ));
    assert!(!SuffixDict::raw_names_eq_ignore_case(
        &[3, 99, 111, 109, 0],
        &[3, 99, 111, 110, 0]
    ));
    assert!(!SuffixDict::raw_names_eq_ignore_case(
        &[3, 99, 111, 109, 0],
        &[3, 99, 111, 109]
    ));
    assert!(!SuffixDict::raw_names_eq_ignore_case(&[3, 99, 111, 109], &[3, 99, 111, 109]));
    assert!(SuffixDict::raw_names_eq_ignore_case(&[0], &[0]));
}

#[test]
fn dictionary_finds_suffixes() {
    let mut dict = SuffixDict::new();
    let name = b"\x07example\x03com\x00";
    assert_eq!(dict.insert(name, 12), None);
    assert_eq!(dict.insert(name, 40), Some(12));
    assert_eq!(dict.insert(b"\x07EXAMPLE\x03COM\x00", 40), Some(12));
    // too short to be worth a pointer
    assert_eq!(dict.insert(b"\x00", 50), None);
    assert_eq!(dict.insert(b"\x00", 60), None);
    assert_eq!(dict.insert(b"\x00\x00", 50), None);
    assert_eq!(dict.insert(b"\x00\x00", 60), None);
    // three bytes are enough
    assert_eq!(dict.insert(b"\x01a\x00", 50), None);
    assert_eq!(dict.insert(b"\x01A\x00", 60), Some(50));
    // an offset that no pointer can hold
    assert_eq!(dict.insert(b"\x03org\x00", 0x4000), None);
    assert_eq!(dict.insert(b"\x03org\x00", 0x3fff), None);
    assert_eq!(dict.insert(b"\x03org\x00", 70), Some(0x3fff));
    // too long
    let mut long = Vec::new();
    long.push(63);
    long.extend_from_slice(&[97; 63]);
    long.push(63);
    long.extend_from_slice(&[97; 63]);
    long.push(0);
    assert_eq!(long.len(), 129);
    assert_eq!(dict.insert(&long, 80), None);
    assert_eq!(dict.insert(&long, 90), None);
}

#[test]
fn dictionary_keeps_its_first_entry() {
    let mut dict = SuffixDict::new();
    let label = |k: u8| vec![3, 97 + k / 26, 97 + k % 26, 97, 0];
    for k in 0..32u8 {
        assert_eq!(dict.insert(&label(k), 100 + k as usize), None);
    }
    // all 32 are there
    for k in 0..32u8 {
        assert_eq!(dict.insert(&label(k), 0), Some(100 + k as usize));
    }
    // the next one takes slot 1
    assert_eq!(dict.insert(&label(32), 200), None);
    assert_eq!(dict.insert(&label(0), 0), Some(100));
    assert_eq!(dict.insert(&label(2), 0), Some(102));
    assert_eq!(dict.insert(&label(32), 0), Some(200));
    // the one that was in slot 1 is gone, and goes to slot 2 when it comes again
    assert_eq!(dict.insert(&label(1), 300), None);
    assert_eq!(dict.insert(&label(1), 0), Some(300));
    assert_eq!(dict.insert(&label(2), 400), None);
}

#[test]
fn name_is_written_with_compression() {
    let mut dict = SuffixDict::new();
    let mut out = vec![0u8; 12];
    let packet = b"\x03www\x07example\x03com\x00\x07EXAMPLE\x03com\x00\x03ftp\x07example\x03com\x00";
    let r = Compress::copy_compressed_name(&mut dict, &mut out, packet, 0);
    assert_eq!(r.name_len, 17);
    assert_eq!(r.final_offset, 17);
    assert_eq!(&out[12..], &packet[..17]);
    let r = Compress::copy_compressed_name(&mut dict, &mut out, packet, 17);
    assert_eq!(r.name_len, 2);
    assert_eq!(r.final_offset, 30);
    assert_eq!(&out[29..], &[0xc0, 16]);
    let r = Compress::copy_compressed_name(&mut dict, &mut out, packet, 30);
    assert_eq!(r.name_len, 6);
    assert_eq!(r.final_offset, 47);
    assert_eq!(&out[31..], &[3, 102, 116, 112, 0xc0, 16]);
    // with a base offset of its own
    let mut dict = SuffixDict::new();
    let mut out = Vec::new();
    let r = Compress::copy_compressed_name_with_base_offset(&mut dict, &mut out, packet, 4, 0x123);
    assert_eq!(r.name_len, 13);
    let r = Compress::copy_compressed_name_with_base_offset(&mut dict, &mut out, packet, 17, 0x200);
    assert_eq!(r.name_len, 2);
    assert_eq!(&out[13..], &[0xc1, 0x23]);
    assert_eq!(Compress::pointer_at(&out, 13), 0x123);
}

#[test]
fn raw_name_from_text() {
    assert_eq!(
        raw_name_from_str(b"example.com", None),
        Ok(b"\x07example\x03com\x00".to_vec())
    );
    assert_eq!(
        raw_name_from_str(b"example.com.", None),
        Ok(b"\x07example\x03com\x00".to_vec())
    );
    assert_eq!(
        raw_name_from_str(b"www", Some(b"\x07example\x03com\x00")),
        Ok(b"\x03www\x07example\x03com\x00".to_vec())
    );
    assert_eq!(
        raw_name_from_str(b"www.", Some(b"\x07example\x03com\x00")),
        Ok(b"\x03www\x00".to_vec())
    );
    assert_eq!(raw_name_from_str(b".", None), Ok(vec![0]));
    assert_eq!(raw_name_from_str(b"", None), Ok(vec![0]));
    assert_eq!(
        raw_name_from_str(b"a..b", None),
        Err(DSError::InvalidName("Spurious dot in a label"))
    );
    assert_eq!(
        raw_name_from_str(b".a", None),
        Err(DSError::InvalidName("Spurious dot in a label"))
    );
    let mut label63 = vec![97u8; 63];
    let mut expected = vec![63u8];
    expected.extend_from_slice(&label63);
    expected.push(0);
    assert_eq!(raw_name_from_str(&label63, None), Ok(expected));
    label63.push(97);
    assert_eq!(
        raw_name_from_str(&label63, None),
        Err(DSError::InvalidName("Label too long"))
    );
    assert_eq!(
        raw_name_from_str(&[97, 0x80], None),
        Err(DSError::InvalidName("Non-ASCII character in a label"))
    );
    assert_eq!(raw_name_from_str(&[97, 0x7f], None), Ok(vec![2, 97, 0x7f, 0]));
    // 253 bytes of text are taken, 254 are not
    let mut text = Vec::new();
    for _ in 0..3 {
        text.extend_from_slice(&[97; 63]);
        text.push(b'.');
    }
    text.extend_from_slice(&[97; 61]);
    assert_eq!(text.len(), 253);
    assert_eq!(raw_name_from_str(&text, None).map(|n| n.len()), Ok(255));
    text.push(97);
    assert_eq!(
        raw_name_from_str(&text, None),
        Err(DSError::InvalidName("Name too long"))
    );
    // a zone that makes the name too long
    let zone = vec![1u8; 250];
    assert_eq!(
        raw_name_from_str(b"abcdef", Some(&zone)),
        Err(DSError::InvalidName("Name too long"))
    );
    // nothing is appended where the name is refused
    let mut out = vec![1u8, 2];
    assert!(copy_raw_name_from_str(&mut out, b"a..b", None).is_err());
    assert_eq!(out, vec![1, 2]);
    assert!(copy_raw_name_from_str(&mut out, b"a.b", None).is_ok());
    assert_eq!(out, vec![1, 2, 1, 97, 1, 98, 0]);
}

#[test]
fn suffix_is_replaced() {
    let name = b"\x07example\x02fr\x00";
    assert_eq!(
        Renamer::replace_raw(name, b"\x03net\x00", b"\x02fr\x00", true),
        Ok(Some(b"\x07example\x03net\x00".to_vec()))
    );
    assert_eq!(
        Renamer::replace_raw(name, b"\x03net\x00", b"\x02FR\x00", true),
        Ok(Some(b"\x07example\x03net\x00".to_vec()))
    );
    assert_eq!(
        Renamer::replace_raw(name, b"\x03net\x00", b"\x02fr\x00", false),
        Ok(None)
    );
    assert_eq!(
        Renamer::replace_raw(name, b"\x03net\x00", name, false),
        Ok(Some(b"\x03net\x00".to_vec()))
    );
    assert_eq!(
        Renamer::replace_raw(name, b"\x03net\x00", b"\x02de\x00", true),
        Ok(None)
    );
    // the source is longer than the name
    assert_eq!(
        Renamer::replace_raw(b"\x02fr\x00", b"\x03net\x00", name, true),
        Ok(None)
    );
    // the source would start inside a label
    assert_eq!(
        Renamer::replace_raw(b"\x03xfr\x00", b"\x03net\x00", b"\x02fr\x00", true),
        Ok(None)
    );
    assert_eq!(
        Renamer::replace_raw(name, b"", b"\x02fr\x00", true),
        Err(DSError::InvalidName("Empty name"))
    );
    assert_eq!(
        Renamer::replace_raw(name, b"\x03net\x00", b"", true),
        Err(DSError::InvalidName("Empty name"))
    );
    // an empty source or target is an error whatever the lengths are
    assert_eq!(
        Renamer::replace_raw(b"\x00", b"\x01a\x00", b"", false),
        Err(DSError::InvalidName("Empty name"))
    );
    assert_eq!(
        Renamer::replace_raw(name, b"\x03net\x00", b"", false),
        Err(DSError::InvalidName("Empty name"))
    );
    assert_eq!(
        Renamer::replace_raw(b"\x00", b"", b"\x02fr\x00", true),
        Err(DSError::InvalidName("Empty name"))
    );
    assert_eq!(
        Renamer::replace_raw(name, b"", b"\x02fr\x00", false),
        Err(DSError::InvalidName("Empty name"))
    );
    assert_eq!(
        Renamer::replace_raw(name, b"\x00", b"\x02fr\x00", true),
        Err(DSError::InvalidName(
            "A non-empty name cannot start with a NUL byte"
        ))
    );
    let mut long_target = Vec::new();
    for _ in 0..4 {
        long_target.push(62);
        long_target.extend_from_slice(&[97; 62]);
    }
    long_target.push(0);
    assert_eq!(long_target.len(), 253);
    assert_eq!(
        Renamer::replace_raw(name, &long_target, b"\x02fr\x00", true),
        Err(DSError::InvalidName("Name too long"))
    );
    assert_eq!(
        Renamer::replace_raw(b"\x01a\x02fr\x00", &long_target, b"\x02fr\x00", true).map(|n| n.map(|n| n.len())),
        Ok(Some(255))
    );
}
