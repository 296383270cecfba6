//! Builders of resource records in wire format.

use crate::compress::lemma_plain_walk;
use crate::compress::lemma_walk_plain_end;
use crate::compress::lemma_walk_plain_shift;
use crate::compress::walk_plain;
use crate::constants::DNS_MAX_HOSTNAME_INDIRECTIONS;
use crate::dns_sector::message_scan;
use crate::parsed_packet::spliced;
use crate::wire::be16;
use crate::constants::Class;
use crate::constants::Section;
use crate::constants::Type;
use crate::constants::DNS_HEADER_SIZE;
use crate::constants::DNS_MAX_HOSTNAME_LEN;
use crate::constants::DNS_RR_CLASS_OFFSET;
use crate::constants::DNS_RR_HEADER_SIZE;
use crate::constants::DNS_RR_QUESTION_HEADER_SIZE;
use crate::constants::DNS_RR_RDLEN_OFFSET;
use crate::constants::DNS_RR_TTL_OFFSET;
use crate::constants::DNS_RR_TYPE_OFFSET;
use crate::errors::DSError;
use crate::parsed_packet::ParsedPacket;
use crate::wire::extend_from_range;
use crate::wire::put_be16;
use crate::wire::write_be16;
use crate::wire::write_be32;
use vstd::prelude::*;
use vstd::string::StringSliceAdditionalSpecFns;

verus! {

/// The longest name in text that is turned into a raw name.
pub const MAX_NAME_TEXT_LEN: usize = 253;

/// The longest label.
pub const MAX_LABEL_LEN: usize = 63;

/// The longest text of a TXT record.
pub const MAX_TXT_LEN: usize = 3825;

/// What a record starts with: its name in text, and what its fixed header holds.
#[derive(Clone, Debug)]
pub struct RRHeader {
    pub name: Vec<u8>,
    pub ttl: u32,
    pub class: Class,
    pub rr_type: Type,
}

/// `v` as two bytes, the most significant first.
pub open spec fn be16_bytes(v: int) -> Seq<u8> {
    seq![(v / 256) as u8, (v % 256) as u8]
}

/// `v` as four bytes, the most significant first.
pub open spec fn be32_bytes(v: int) -> Seq<u8> {
    be16_bytes(v / 65536) + be16_bytes(v % 65536)
}

/// The raw form of the labels of `name` from `i` on, where the label that
/// is being read starts at `label_start`. Labels are parted by dots. The
/// last label is followed by `tail`; a name that ends with a dot, and the
/// empty name, end with a zero instead.
///
/// A dot where a label should start is an error unless the name is a
/// single dot; so are a label of more than 63 bytes and a byte that is not
/// ASCII.
pub open spec fn encode_labels(name: Seq<u8>, i: int, label_start: int, tail: Seq<u8>) -> Result<
    Seq<u8>,
    DSError,
>
    decreases name.len() - i,
{
    let label_len = i - label_start;
    if i >= name.len() {
        if label_len == 0 {
            Ok(seq![0u8])
        } else {
            Ok(seq![label_len as u8] + name.subrange(label_start, i) + tail)
        }
    } else if name[i] == 0x2e {
        if label_len == 0 {
            if name.len() != 1 {
                Err(DSError::InvalidName("Spurious dot in a label"))
            } else {
                encode_labels(name, i + 1, i + 1, tail)
            }
        } else {
            match encode_labels(name, i + 1, i + 1, tail) {
                Ok(rest) => Ok(seq![label_len as u8] + name.subrange(label_start, i) + rest),
                Err(e) => Err(e),
            }
        }
    } else if label_len >= MAX_LABEL_LEN {
        Err(DSError::InvalidName("Label too long"))
    } else if name[i] > 127 {
        Err(DSError::InvalidName("Non-ASCII character in a label"))
    } else {
        encode_labels(name, i + 1, label_start, tail)
    }
}

/// What follows the last label of a name: the raw default zone, or the
/// final zero where there is none.
pub open spec fn name_tail(raw_zone: Option<Seq<u8>>) -> Seq<u8> {
    match raw_zone {
        Some(zone) => zone,
        None => seq![0u8],
    }
}

/// The raw name for the name `name` in text, with the raw default zone
/// `raw_zone` behind it unless `name` ends with a dot. A name of more than
/// 253 bytes in text and one of more than 255 bytes in raw form are errors.
pub open spec fn raw_from_str(name: Seq<u8>, raw_zone: Option<Seq<u8>>) -> Result<
    Seq<u8>,
    DSError,
> {
    if name.len() > MAX_NAME_TEXT_LEN {
        Err(DSError::InvalidName("Name too long"))
    } else {
        match encode_labels(name, 0, 0, name_tail(raw_zone)) {
            Err(e) => Err(e),
            Ok(raw) => if raw.len() > DNS_MAX_HOSTNAME_LEN {
                Err(DSError::InvalidName("Name too long"))
            } else {
                Ok(raw)
            },
        }
    }
}

/// The view of an optional slice.
pub open spec fn opt_seq(o: Option<&[u8]>) -> Option<Seq<u8>> {
    match o {
        Some(s) => Some(s@),
        None => None,
    }
}

/// Compute a raw (encoded, binary) name from a string, and
/// appends it to the given mutable vector, along with an
/// optional default zone. Nothing is appended where the name is refused.
pub fn copy_raw_name_from_str(raw_name: &mut Vec<u8>, name: &[u8], raw_zone: Option<&[u8]>) -> (r:
    Result<(), DSError>)
    ensures
        match raw_from_str(name@, opt_seq(raw_zone)) {
            Err(e) => r == Err::<(), DSError>(e) && final(raw_name)@ == old(raw_name)@,
            Ok(raw) => r is Ok && final(raw_name)@ == old(raw_name)@ + raw,
        },
{
    let ghost tail = name_tail(opt_seq(raw_zone));
    let mut label_len: usize = 0;
    let mut label_start: usize = 0;
    if name.len() > MAX_NAME_TEXT_LEN {
        return Err(DSError::InvalidName("Name too long"));
    }
    let mut raw: Vec<u8> = Vec::with_capacity(name.len() + 2);
    let mut i: usize = 0;
    while i < name.len()
        invariant
            i <= name@.len(),
            name@.len() <= MAX_NAME_TEXT_LEN,
            tail == name_tail(opt_seq(raw_zone)),
            raw_name@ == old(raw_name)@,
            label_start + label_len == i,
            label_len <= MAX_LABEL_LEN,
            encode_labels(name@, 0, 0, tail) == match encode_labels(
                name@,
                i as int,
                label_start as int,
                tail,
            ) {
                Ok(rest) => Ok::<Seq<u8>, DSError>(raw@ + rest),
                Err(e) => Err::<Seq<u8>, DSError>(e),
            },
        decreases name@.len() - i,
    {
        let c: u8 = name[i];
        if c == 0x2e {
            if label_len == 0 {
                if name.len() != 1 {
                    return Err(DSError::InvalidName("Spurious dot in a label"));
                }
            } else {
                let ghost before = raw@;
                raw.push(label_len as u8);
                extend_from_range(&mut raw, name, label_start, i);
                proof {
                    let rest = encode_labels(name@, i + 1, i + 1, tail);
                    if rest is Ok {
                        assert(before + (seq![label_len as u8] + name@.subrange(
                            label_start as int,
                            i as int,
                        ) + rest->Ok_0) =~= raw@ + rest->Ok_0);
                    }
                }
                label_len = 0;
            }
            label_start = i + 1;
        } else if label_len >= MAX_LABEL_LEN {
            return Err(DSError::InvalidName("Label too long"));
        } else if c > 127 {
            return Err(DSError::InvalidName("Non-ASCII character in a label"));
        } else {
            label_len += 1;
        }
        i += 1;
    }
    let ghost before = raw@;
    if label_len == 0 {
        raw.push(0);
        assert(raw@ =~= before + seq![0u8]);
    } else {
        raw.push(label_len as u8);
        extend_from_range(&mut raw, name, label_start, name.len());
        match raw_zone {
            None => {
                raw.push(0);
            },
            Some(raw_zone) => {
                extend_from_range(&mut raw, raw_zone, 0, raw_zone.len());
                assert(raw_zone@.subrange(0, raw_zone@.len() as int) =~= raw_zone@);
            },
        }
        assert(raw@ =~= before + (seq![label_len as u8] + name@.subrange(
            label_start as int,
            name@.len() as int,
        ) + tail));
    }
    if raw.len() > DNS_MAX_HOSTNAME_LEN {
        return Err(DSError::InvalidName("Name too long"));
    }
    extend_from_range(raw_name, raw.as_slice(), 0, raw.len());
    assert(raw@.subrange(0, raw@.len() as int) =~= raw@);
    Ok(())
}

/// Get the raw (binary, encoded) name for a name given as a string, and
/// an optional default zone.
pub fn raw_name_from_str(name: &[u8], raw_zone: Option<&[u8]>) -> (r: Result<Vec<u8>, DSError>)
    ensures
        match raw_from_str(name@, opt_seq(raw_zone)) {
            Err(e) => r == Err::<Vec<u8>, DSError>(e),
            Ok(raw) => r is Ok && r->Ok_0@ == raw,
        },
{
    let mut raw_name: Vec<u8> = Vec::new();
    copy_raw_name_from_str(&mut raw_name, name, raw_zone)?;
    Ok(raw_name)
}

/// The fixed header of a resource record.
pub open spec fn fixed_header(rr_type: Type, class: Class, ttl: u32, rdlen: int) -> Seq<u8> {
    be16_bytes(rr_type.code() as int) + be16_bytes(class.code() as int) + be32_bytes(ttl as int)
        + be16_bytes(rdlen)
}

/// The record for the name `name` in text, with the data `rdata`, in wire
/// format: the raw name, the fixed header and the data.
pub open spec fn rr_bytes_of(
    name: Seq<u8>,
    rr_type: Type,
    class: Class,
    ttl: u32,
    rdata: Seq<u8>,
) -> Result<Seq<u8>, DSError> {
    if rdata.len() > 0xffff {
        Err(DSError::InvalidPacket("RDATA too long"))
    } else {
        match raw_from_str(name, None) {
            Err(e) => Err(e),
            Ok(raw) => Ok(raw + fixed_header(rr_type, class, ttl, rdata.len() as int) + rdata),
        }
    }
}

/// The record with the header `rr_header` and the data `rdata`, in wire format.
pub open spec fn rr_bytes(rr_header: RRHeader, rdata: Seq<u8>) -> Result<Seq<u8>, DSError> {
    rr_bytes_of(rr_header.name@, rr_header.rr_type, rr_header.class, rr_header.ttl, rdata)
}

/// The question for the name `name` in text, in wire format: the raw name,
/// the type and the class.
pub open spec fn question_bytes(name: Seq<u8>, rr_type: Type, class: Class) -> Result<
    Seq<u8>,
    DSError,
> {
    match raw_from_str(name, None) {
        Err(e) => Err(e),
        Ok(raw) => Ok(raw + be16_bytes(rr_type.code() as int) + be16_bytes(class.code() as int)),
    }
}

/// The raw name for a name in text checks as an uncompressed name: each of
/// its labels is at most 63 bytes long, and it ends with a zero.
pub proof fn lemma_encoded_plain(name: Seq<u8>, i: int, label_start: int, name_len: int)
    requires
        0 <= label_start <= i <= name.len(),
        i - label_start <= MAX_LABEL_LEN,
        0 <= name_len,
        encode_labels(name, i, label_start, seq![0u8]) is Ok,
        name_len + encode_labels(name, i, label_start, seq![0u8])->Ok_0.len()
            <= DNS_MAX_HOSTNAME_LEN,
    ensures
        walk_plain(encode_labels(name, i, label_start, seq![0u8])->Ok_0, 0, name_len) == Ok::<
            int,
            DSError,
        >(encode_labels(name, i, label_start, seq![0u8])->Ok_0.len() as int),
    decreases name.len() - i,
{
    let tail = seq![0u8];
    let out = encode_labels(name, i, label_start, tail)->Ok_0;
    let label_len = i - label_start;
    if i >= name.len() {
        if label_len != 0 {
            let label = name.subrange(label_start, i);
            assert(out[0] == label_len as u8);
            assert(out[label_len + 1] == 0);
            assert(walk_plain(out, label_len + 1, name_len + label_len + 1) == Ok::<int, DSError>(
                label_len + 2,
            ));
        } else {
            assert(out[0] == 0);
        }
    } else if name[i] == 0x2e {
        if label_len == 0 {
            lemma_encoded_plain(name, i + 1, i + 1, name_len);
        } else {
            let rest = encode_labels(name, i + 1, i + 1, tail)->Ok_0;
            lemma_encoded_plain(name, i + 1, i + 1, name_len + label_len + 1);
            assert(out[0] == label_len as u8);
            assert(out.subrange(label_len + 1, label_len + 1 + rest.len()) =~= rest.subrange(
                0,
                rest.len() as int,
            ));
            lemma_walk_plain_end(rest, 0, name_len + label_len + 1);
            lemma_walk_plain_shift(rest, 0, out, label_len + 1, name_len + label_len + 1);
        }
    } else {
        lemma_encoded_plain(name, i + 1, label_start, name_len);
    }
}

/// The message that `query` builds: a header with the transaction ID
/// `tid`, the flag that asks for recursion and one question, and the
/// question `question`.
pub open spec fn query_bytes(tid: int, question: Seq<u8>) -> Seq<u8> {
    be16_bytes(tid) + seq![1u8, 0u8, 0u8, 1u8, 0u8, 0u8, 0u8, 0u8, 0u8, 0u8] + question
}

/// A header and a question for a name in text make a well-formed message.
pub proof fn lemma_query_scan(b: Seq<u8>, name: Seq<u8>, rr_type: Type, class: Class)
    requires
        question_bytes(name, rr_type, class) is Ok,
        b.len() == DNS_HEADER_SIZE + question_bytes(name, rr_type, class)->Ok_0.len(),
        b.subrange(4, 12) == seq![0u8, 1u8, 0u8, 0u8, 0u8, 0u8, 0u8, 0u8],
        b.subrange(12, b.len() as int) == question_bytes(name, rr_type, class)->Ok_0,
    ensures
        message_scan(b, false) is Ok,
        crate::plain::is_plain(b),
{
    let raw = raw_from_str(name, None)->Ok_0;
    let q = question_bytes(name, rr_type, class)->Ok_0;
    let counts = b.subrange(4, 12);
    assert(b[4] == counts[0] && b[5] == counts[1] && b[6] == counts[2] && b[7] == counts[3]
        && b[8] == counts[4] && b[9] == counts[5] && b[10] == counts[6] && b[11] == counts[7]);
    lemma_encoded_plain(name, 0, 0, 0);
    lemma_walk_plain_end(raw, 0, 0);
    assert(b.subrange(12, 12 + raw.len() as int) =~= raw.subrange(0, raw.len() as int)) by {
        assert forall|k: int| 0 <= k < raw.len() implies b.subrange(12, 12 + raw.len() as int)[k]
            == raw[k] by {
            assert(b.subrange(12, b.len() as int)[k] == q[k]);
        }
    }
    lemma_walk_plain_shift(raw, 0, b, 12, 0);
    lemma_plain_walk(b, 12, 12, DNS_MAX_HOSTNAME_INDIRECTIONS as int, 0);
    crate::plain::lemma_question_only(b);
}

/// Create a query from a string
pub fn query(name: &[u8], rr_type: Type, class: Class) -> (r: Result<ParsedPacket, DSError>)
    ensures
        match question_bytes(name@, rr_type, class) {
            Err(e) => r == Err::<ParsedPacket, DSError>(e),
            Ok(question) => {
                &&& r is Ok
                &&& r->Ok_0.wf()
                &&& !r->Ok_0.maybe_compressed
                &&& exists|tid: int|
                    0 <= tid <= 0xffff && #[trigger] query_bytes(tid, question) == r->Ok_0.bytes()
            },
        },
{
    let mut parsed_packet = ParsedPacket::empty();
    let ghost fresh = parsed_packet.bytes();
    parsed_packet.set_response(false);
    proof {
        let flags = fresh.subrange(2, 12);
        assert(fresh[2] == flags[0]);
        assert(1u8 & 0x7f == 1u8) by (bit_vector);
        assert(fresh.update(2, fresh[2] & 0x7f) =~= fresh);
    }
    let rr = RR::new_question(name, rr_type, class)?;
    let ghost before = parsed_packet.bytes();
    assert(before == fresh);
    let ghost question = rr.packet@;
    proof {
        crate::dns_sector::lemma_layout(before);
        reveal(spliced);
        let b = spliced(before, Section::Question, question);
        assert(before[2] & 0x7f == before[2]) by {
            let flags = before.subrange(2, 12);
            assert(before[2] == flags[0]);
            assert(1u8 & 0x7f == 1u8) by (bit_vector);
        }
        assert(b.subrange(12, b.len() as int) =~= question);
        assert(b.subrange(4, 12) =~= seq![0u8, 1u8, 0u8, 0u8, 0u8, 0u8, 0u8, 0u8]) by {
            let flags = before.subrange(2, 12);
            assert(before[6] == flags[4] && before[7] == flags[5] && before[8] == flags[6]
                && before[9] == flags[7] && before[10] == flags[8] && before[11] == flags[9]);
        }
        lemma_query_scan(b, name@, rr_type, class);
        let tid = be16(before, 0);
        let flags = before.subrange(2, 12);
        assert(before[2] == flags[0] && before[3] == flags[1] && before[4] == flags[2]
            && before[5] == flags[3]);
        assert(crate::dns_sector::qd_count(before) == 0);
        assert(crate::dns_sector::section_end(before, Section::Question) == 12);
        assert(tid / 256 == before[0] as int && tid % 256 == before[1] as int);
        let expected = query_bytes(tid, question);
        assert(expected.len() == b.len());
        let mid = seq![1u8, 0u8, 0u8, 1u8, 0u8, 0u8, 0u8, 0u8, 0u8, 0u8];
        let joined = before.subrange(0, 12) + question + before.subrange(12, before.len() as int);
        assert(b == put_be16(joined, 4, 1));
        assert(flags =~= seq![1u8, 0u8, 0u8, 0u8, 0u8, 0u8, 0u8, 0u8, 0u8, 0u8]);
        assert forall|k: int| 0 <= k < b.len() implies expected[k] == b[k] by {
            if k < 2 {
                assert(expected[k] == be16_bytes(tid)[k]);
                assert(joined[k] == before[k]);
            } else if k < 12 {
                assert(expected[k] == mid[k - 2]);
                assert(joined[k] == before[k]);
                assert(before[k] == flags[k - 2]);
            } else {
                assert(expected[k] == question[k - 12]);
                assert(joined[k] == question[k - 12]);
            }
        }
        assert(expected =~= b);
    }
    match parsed_packet.insert_rr(Section::Question, rr) {
        Ok(_) => {},
        Err(e) => return Err(e),
    }
    Ok(parsed_packet)
}

/// A resource record, or a question, in wire format.
#[derive(Clone, Debug)]
pub struct RR {
    /// The record: its name, its fixed header and its data.
    pub packet: Vec<u8>,
    /// Where the data starts in `packet`.
    pub rdata_offset: u16,
}

/// Whether `r` holds the record `bytes`, whose data is `rdata_len` bytes long.
pub open spec fn holds(r: Result<RR, DSError>, bytes: Result<Seq<u8>, DSError>, rdata_len: int) -> bool {
    match bytes {
        Err(e) => r == Err::<RR, DSError>(e),
        Ok(b) => r is Ok && r->Ok_0.packet@ == b && r->Ok_0.rdata_offset == b.len() - rdata_len,
    }
}

impl RR {
    /// The record with the header `rr_header` and the data `rdata`.
    pub fn new(rr_header: RRHeader, rdata: &[u8]) -> (r: Result<Self, DSError>)
        ensures
            holds(r, rr_bytes(rr_header, rdata@), rdata@.len() as int),
    {
        let rdlen: usize = rdata.len();
        if rdlen > 0xffff {
            return Err(DSError::InvalidPacket("RDATA too long"));
        }
        let mut packet: Vec<u8> = Vec::new();
        copy_raw_name_from_str(&mut packet, rr_header.name.as_slice(), None)?;
        let ghost name = packet@;
        let mut header: Vec<u8> = vec![0u8; 10];
        write_be32(header.as_mut_slice(), DNS_RR_TTL_OFFSET, rr_header.ttl);
        write_be16(header.as_mut_slice(), DNS_RR_CLASS_OFFSET, rr_header.class.to_u16());
        write_be16(header.as_mut_slice(), DNS_RR_TYPE_OFFSET, rr_header.rr_type.to_u16());
        write_be16(header.as_mut_slice(), DNS_RR_RDLEN_OFFSET, rdlen as u16);
        assert(header@ =~= fixed_header(
            rr_header.rr_type,
            rr_header.class,
            rr_header.ttl,
            rdlen as int,
        ));
        extend_from_range(&mut packet, header.as_slice(), 0, DNS_RR_HEADER_SIZE);
        assert(header@.subrange(0, 10) =~= header@);
        let rdata_offset: u16 = packet.len() as u16;
        extend_from_range(&mut packet, rdata, 0, rdlen);
        assert(rdata@.subrange(0, rdlen as int) =~= rdata@);
        Ok(RR { packet, rdata_offset })
    }

    /// The question for `name`, a name in text.
    pub fn new_question(name: &[u8], rr_type: Type, class: Class) -> (r: Result<Self, DSError>)
        ensures
            holds(r, question_bytes(name@, rr_type, class), 0),
    {
        let mut packet: Vec<u8> = Vec::new();
        copy_raw_name_from_str(&mut packet, name, None)?;
        let mut header: Vec<u8> = vec![0u8; 4];
        write_be16(header.as_mut_slice(), DNS_RR_TYPE_OFFSET, rr_type.to_u16());
        write_be16(header.as_mut_slice(), DNS_RR_CLASS_OFFSET, class.to_u16());
        assert(header@ =~= be16_bytes(rr_type.code() as int) + be16_bytes(class.code() as int));
        extend_from_range(&mut packet, header.as_slice(), 0, DNS_RR_QUESTION_HEADER_SIZE);
        assert(header@.subrange(0, 4) =~= header@);
        assert(packet@.len() <= DNS_MAX_HOSTNAME_LEN + DNS_RR_QUESTION_HEADER_SIZE);
        assert(packet@ =~= raw_from_str(name@, None)->Ok_0 + be16_bytes(rr_type.code() as int)
            + be16_bytes(class.code() as int));
        let rdata_offset: u16 = packet.len() as u16;
        Ok(RR { packet, rdata_offset })
    }

    /// Builds the record that one line of text spells: a name, a TTL, the
    /// class `IN`, a type and the data in the form that the type asks for.
    pub fn from_string(s: &str) -> (r: Result<RR, DSError>)
        ensures
            crate::synth::parser::is_built(r, crate::synth::parser::rr_from_text(s.spec_bytes())),
    {
        crate::synth::parser::rr_parser(s.as_bytes())
    }

    /// The data of the record.
    pub fn rdata(&self) -> (r: &[u8])
        requires
            self.rdata_offset <= self.packet@.len(),
        ensures
            r@ == self.packet@.subrange(self.rdata_offset as int, self.packet@.len() as int),
    {
        vstd::slice::slice_subrange(
            self.packet.as_slice(),
            self.rdata_offset as usize,
            self.packet.len(),
        )
    }
}

/// Builder of address records.
pub struct A;

impl A {
    pub fn build(rr_header: RRHeader, ip: [u8; 4]) -> (r: Result<RR, DSError>)
        ensures
            holds(r, rr_bytes(rr_header, ip@), 4),
    {
        RR::new(rr_header, ip.as_slice())
    }
}

/// Builder of IPv6 address records.
pub struct AAAA;

impl AAAA {
    pub fn build(rr_header: RRHeader, ip: [u8; 16]) -> (r: Result<RR, DSError>)
        ensures
            holds(r, rr_bytes(rr_header, ip@), 16),
    {
        RR::new(rr_header, ip.as_slice())
    }
}

/// The record with the header `rr_header` whose data is the raw name for `name`.
pub open spec fn name_rr_bytes(rr_header: RRHeader, name: Seq<u8>) -> Result<Seq<u8>, DSError> {
    match raw_from_str(name, None) {
        Err(e) => Err(e),
        Ok(raw) => rr_bytes(rr_header, raw),
    }
}

/// The length of the raw name for `name`, and zero where there is none.
pub open spec fn raw_len(name: Seq<u8>) -> int {
    match raw_from_str(name, None) {
        Err(e) => 0,
        Ok(raw) => raw.len() as int,
    }
}

/// Builder of name server records.
pub struct NS;

impl NS {
    pub fn build(rr_header: RRHeader, name: Vec<u8>) -> (r: Result<RR, DSError>)
        ensures
            holds(r, name_rr_bytes(rr_header, name@), raw_len(name@)),
    {
        let rdata: Vec<u8> = raw_name_from_str(name.as_slice(), None)?;
        RR::new(rr_header, rdata.as_slice())
    }
}

/// Builder of alias records.
pub struct CNAME;

impl CNAME {
    pub fn build(rr_header: RRHeader, name: Vec<u8>) -> (r: Result<RR, DSError>)
        ensures
            holds(r, name_rr_bytes(rr_header, name@), raw_len(name@)),
    {
        let rdata: Vec<u8> = raw_name_from_str(name.as_slice(), None)?;
        RR::new(rr_header, rdata.as_slice())
    }
}

/// Builder of pointer records.
pub struct PTR;

impl PTR {
    pub fn build(rr_header: RRHeader, name: Vec<u8>) -> (r: Result<RR, DSError>)
        ensures
            holds(r, name_rr_bytes(rr_header, name@), raw_len(name@)),
    {
        let rdata: Vec<u8> = raw_name_from_str(name.as_slice(), None)?;
        RR::new(rr_header, rdata.as_slice())
    }
}

/// `txt` in chunks of at most 255 bytes, each with its length in front.
pub open spec fn txt_chunks(txt: Seq<u8>) -> Seq<u8>
    decreases txt.len(),
{
    if txt.len() == 0 {
        Seq::<u8>::empty()
    } else if txt.len() <= 255 {
        seq![txt.len() as u8] + txt
    } else {
        seq![255u8] + txt.subrange(0, 255) + txt_chunks(txt.subrange(255, txt.len() as int))
    }
}

/// The TXT record with the header `rr_header` and the text `txt`.
pub open spec fn txt_rr_bytes(rr_header: RRHeader, txt: Seq<u8>) -> Result<Seq<u8>, DSError> {
    if txt.len() > MAX_TXT_LEN {
        Err(DSError::InvalidPacket("Text too long"))
    } else {
        rr_bytes(rr_header, txt_chunks(txt))
    }
}

/// Builder of text records.
pub struct TXT;

impl TXT {
    pub fn build(rr_header: RRHeader, txt: Vec<u8>) -> (r: Result<RR, DSError>)
        ensures
            holds(r, txt_rr_bytes(rr_header, txt@), txt_chunks(txt@).len() as int),
    {
        if txt.len() > MAX_TXT_LEN {
            return Err(DSError::InvalidPacket("Text too long"));
        }
        let mut rdata: Vec<u8> = Vec::with_capacity(1 + txt.len());
        let mut i: usize = 0;
        assert(txt@.subrange(0, txt@.len() as int) =~= txt@);
        assert(Seq::<u8>::empty() + txt_chunks(txt@) =~= txt_chunks(txt@));
        while i < txt.len()
            invariant
                i <= txt@.len(),
                txt_chunks(txt@) == rdata@ + txt_chunks(txt@.subrange(i as int, txt@.len() as int)),
            decreases txt@.len() - i,
        {
            let ghost rest = txt@.subrange(i as int, txt@.len() as int);
            let ghost before = rdata@;
            let left: usize = txt.len() - i;
            let chunk: usize = if left > 255 {
                255
            } else {
                left
            };
            rdata.push(chunk as u8);
            extend_from_range(&mut rdata, txt.as_slice(), i, i + chunk);
            proof {
                assert(rest.subrange(0, chunk as int) =~= txt@.subrange(i as int, i + chunk));
                if left > 255 {
                    assert(rest.subrange(255, rest.len() as int) =~= txt@.subrange(
                        i + 255,
                        txt@.len() as int,
                    ));
                    assert(before + (seq![255u8] + rest.subrange(0, 255) + txt_chunks(
                        txt@.subrange(i + 255, txt@.len() as int),
                    )) =~= rdata@ + txt_chunks(txt@.subrange(i + 255, txt@.len() as int)));
                } else {
                    assert(rest.subrange(0, chunk as int) =~= rest);
                    assert(txt@.subrange(i + chunk, txt@.len() as int) =~= Seq::<u8>::empty());
                    assert(before + (seq![left as u8] + rest) =~= rdata@ + Seq::<u8>::empty());
                }
            }
            i += chunk;
        }
        proof {
            assert(txt@.subrange(txt@.len() as int, txt@.len() as int) =~= Seq::<u8>::empty());
            assert(rdata@ + Seq::<u8>::empty() =~= rdata@);
            assert(txt@.subrange(0, txt@.len() as int) =~= txt@);
        }
        RR::new(rr_header, rdata.as_slice())
    }
}

/// The MX record with the header `rr_header`.
pub open spec fn mx_rr_bytes(rr_header: RRHeader, preference: u16, mxhost: Seq<u8>) -> Result<
    Seq<u8>,
    DSError,
> {
    match raw_from_str(mxhost, None) {
        Err(e) => Err(e),
        Ok(raw) => rr_bytes(rr_header, be16_bytes(preference as int) + raw),
    }
}

/// Builder of mail exchanger records.
pub struct MX;

impl MX {
    pub fn build(rr_header: RRHeader, preference: u16, mxhost: Vec<u8>) -> (r: Result<RR, DSError>)
        ensures
            holds(r, mx_rr_bytes(rr_header, preference, mxhost@), 2 + raw_len(mxhost@)),
    {
        let mut rdata: Vec<u8> = Vec::new();
        rdata.push(0);
        rdata.push(0);
        write_be16(rdata.as_mut_slice(), 0, preference);
        assert(rdata@ =~= be16_bytes(preference as int));
        copy_raw_name_from_str(&mut rdata, mxhost.as_slice(), None)?;
        RR::new(rr_header, rdata.as_slice())
    }
}

/// The five numbers of an SOA record.
pub open spec fn soa_numbers(
    ts: u32,
    refresh_ttl: u32,
    retry_ttl: u32,
    auth_ttl: u32,
    neg_ttl: u32,
) -> Seq<u8> {
    be32_bytes(ts as int) + be32_bytes(refresh_ttl as int) + be32_bytes(retry_ttl as int)
        + be32_bytes(auth_ttl as int) + be32_bytes(neg_ttl as int)
}

/// The SOA record with the header `rr_header`.
pub open spec fn soa_rr_bytes(
    rr_header: RRHeader,
    primary_ns: Seq<u8>,
    contact: Seq<u8>,
    numbers: Seq<u8>,
) -> Result<Seq<u8>, DSError> {
    match raw_from_str(primary_ns, None) {
        Err(e) => Err(e),
        Ok(raw1) => match raw_from_str(contact, None) {
            Err(e) => Err(e),
            Ok(raw2) => rr_bytes(rr_header, raw1 + raw2 + numbers),
        },
    }
}

/// Builder of start-of-authority records.
pub struct SOA;

impl SOA {
    pub fn build(
        rr_header: RRHeader,
        primary_ns: Vec<u8>,
        contact: Vec<u8>,
        ts: u32,
        refresh_ttl: u32,
        retry_ttl: u32,
        auth_ttl: u32,
        neg_ttl: u32,
    ) -> (r: Result<RR, DSError>)
        ensures
            holds(
                r,
                soa_rr_bytes(
                    rr_header,
                    primary_ns@,
                    contact@,
                    soa_numbers(ts, refresh_ttl, retry_ttl, auth_ttl, neg_ttl),
                ),
                raw_len(primary_ns@) + raw_len(contact@) + 20,
            ),
    {
        let mut rdata: Vec<u8> = Vec::new();
        let mut meta: Vec<u8> = vec![0u8; 20];
        copy_raw_name_from_str(&mut rdata, primary_ns.as_slice(), None)?;
        copy_raw_name_from_str(&mut rdata, contact.as_slice(), None)?;
        write_be32(meta.as_mut_slice(), 0, ts);
        write_be32(meta.as_mut_slice(), 4, refresh_ttl);
        write_be32(meta.as_mut_slice(), 8, retry_ttl);
        write_be32(meta.as_mut_slice(), 12, auth_ttl);
        write_be32(meta.as_mut_slice(), 16, neg_ttl);
        assert(meta@ =~= soa_numbers(ts, refresh_ttl, retry_ttl, auth_ttl, neg_ttl));
        extend_from_range(&mut rdata, meta.as_slice(), 0, 20);
        assert(meta@.subrange(0, 20) =~= meta@);
        RR::new(rr_header, rdata.as_slice())
    }
}

/// The data of a DS record.
pub open spec fn ds_rdata(key_tag: u16, algorithm: u8, digest_type: u8, digest: Seq<u8>) -> Seq<u8> {
    be16_bytes(key_tag as int) + seq![algorithm, digest_type] + digest
}

/// Builder of delegation signer records.
pub struct DS;

impl DS {
    pub fn build(
        rr_header: RRHeader,
        key_tag: u16,
        algorithm: u8,
        digest_type: u8,
        digest: Vec<u8>,
    ) -> (r: Result<RR, DSError>)
        ensures
            holds(
                r,
                rr_bytes(rr_header, ds_rdata(key_tag, algorithm, digest_type, digest@)),
                (4 + digest@.len()) as int,
            ),
    {
        let mut rdata: Vec<u8> = Vec::new();
        rdata.push(0);
        rdata.push(0);
        write_be16(rdata.as_mut_slice(), 0, key_tag);
        rdata.push(algorithm);
        rdata.push(digest_type);
        extend_from_range(&mut rdata, digest.as_slice(), 0, digest.len());
        assert(rdata@ =~= ds_rdata(key_tag, algorithm, digest_type, digest@));
        RR::new(rr_header, rdata.as_slice())
    }
}

} // verus!
