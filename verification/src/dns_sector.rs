//! The validator: one forward pass over an untrusted message that checks
//! every record and finds where each section starts.

use crate::compress::check_plain;
use crate::compress::name_at;
use crate::compress::walk_name;
use crate::compress::walk_plain;
use crate::compress::Compress;
use crate::constants::Class;
use crate::constants::Section;
use crate::constants::Type;
use crate::constants::DNS_EDNS_RR_CODE_OFFSET;
use crate::constants::DNS_EDNS_RR_HEADER_SIZE;
use crate::constants::DNS_EDNS_RR_RDLEN_OFFSET;
use crate::constants::DNS_FLAGS_OFFSET;
use crate::constants::DNS_FLAG_QR;
use crate::constants::DNS_HEADER_SIZE;
use crate::constants::DNS_MAX_HOSTNAME_LEN;
use crate::constants::DNS_OPT_RR_EDNS_EXT_FLAGS_OFFSET;
use crate::constants::DNS_OPT_RR_EDNS_VERSION_OFFSET;
use crate::constants::DNS_OPT_RR_EXT_RCODE_OFFSET;
use crate::constants::DNS_OPT_RR_HEADER_SIZE;
use crate::constants::DNS_OPT_RR_MAX_PAYLOAD_OFFSET;
use crate::constants::DNS_OPT_RR_RDLEN_OFFSET;
use crate::constants::DNS_QUESTION_OFFSET;
use crate::constants::DNS_RR_CLASS_OFFSET;
use crate::constants::DNS_RR_HEADER_SIZE;
use crate::constants::DNS_RR_QUESTION_HEADER_SIZE;
use crate::constants::DNS_RR_RDLEN_OFFSET;
use crate::constants::DNS_RR_TTL_OFFSET;
use crate::constants::DNS_RR_TYPE_OFFSET;
use crate::errors::DSError;
use crate::parsed_packet::ParsedPacket;
use crate::wire::be16;
use crate::wire::be32;
use crate::wire::put_be16;
use crate::wire::read_be16;
use crate::wire::read_be32;
use crate::wire::write_be16;
use vstd::prelude::*;

verus! {

/// What an OPT record holds.
pub struct EdnsInfo {
    /// Where its options start.
    pub start: int,
    /// Where its options end.
    pub end: int,
    /// The number of its options.
    pub count: int,
    pub ext_rcode: u8,
    pub version: u8,
    pub ext_flags: u16,
    pub max_payload: int,
}

/// What the scan of one record finds.
pub struct RRScan {
    /// The offset right after the record.
    pub next: int,
    /// What the record holds, where it is an OPT record.
    pub opt: Option<EdnsInfo>,
}

/// How far a scan has come.
pub struct Scan {
    /// The offset of the next record.
    pub offset: int,
    /// The OPT record found so far.
    pub edns: Option<EdnsInfo>,
}

/// Where the sections of a message start, and what its OPT record holds.
/// A section without records has no offset.
pub struct Sections {
    pub question: Option<int>,
    pub answers: Option<int>,
    pub nameservers: Option<int>,
    pub additional: Option<int>,
    pub edns: Option<EdnsInfo>,
}

/// Whether the QR bit of the header of `b` is set.
pub open spec fn response_bit(b: Seq<u8>) -> bool {
    b[2] >= 0x80
}

/// The number of questions that the header of `b` announces.
pub open spec fn qd_count(b: Seq<u8>) -> int {
    be16(b, 4)
}

/// The number of answers that the header of `b` announces.
pub open spec fn an_count(b: Seq<u8>) -> int {
    be16(b, 6)
}

/// The number of name servers that the header of `b` announces.
pub open spec fn ns_count(b: Seq<u8>) -> int {
    be16(b, 8)
}

/// The number of additional records that the header of `b` announces.
pub open spec fn ar_count(b: Seq<u8>) -> int {
    be16(b, 10)
}

/// The number of options in the option area of `b` from `offset` to `end`,
/// added to `count`; an error where an option does not fit.
pub open spec fn options_scan(b: Seq<u8>, offset: int, end: int, count: int) -> Result<
    int,
    DSError,
>
    decreases end - offset,
{
    if end - offset <= 0 {
        Ok(count)
    } else if end - offset < DNS_EDNS_RR_HEADER_SIZE {
        Err(DSError::PacketTooSmall)
    } else if end - offset < DNS_EDNS_RR_HEADER_SIZE + be16(b, offset + 2) {
        Err(DSError::PacketTooSmall)
    } else {
        options_scan(b, offset + DNS_EDNS_RR_HEADER_SIZE + be16(b, offset + 2), end, count + 1)
    }
}

/// The scan of the OPT record of `b` whose fixed header starts at `p`.
pub open spec fn opt_scan(b: Seq<u8>, p: int, opt_seen: bool) -> Result<RRScan, DSError> {
    let start = p + DNS_OPT_RR_HEADER_SIZE;
    let end = start + be16(b, p + 8);
    if opt_seen {
        Err(DSError::InvalidPacket("Only one OPT record is allowed"))
    } else if b.len() - start < be16(b, p + 8) {
        Err(DSError::PacketTooSmall)
    } else {
        match options_scan(b, start, end, 0) {
            Err(e) => Err(e),
            Ok(count) => Ok(
                RRScan {
                    next: end,
                    opt: Some(
                        EdnsInfo {
                            start,
                            end,
                            count,
                            ext_rcode: b[p + 4],
                            version: b[p + 5],
                            ext_flags: be16(b, p + 6) as u16,
                            max_payload: be16(b, p + 2),
                        },
                    ),
                },
            ),
        }
    }
}

/// The record at `next` without an OPT record.
pub open spec fn plain_rr(next: int) -> Result<RRScan, DSError> {
    Ok(RRScan { next, opt: None })
}

/// The scan of the data of the record of `b` whose name starts at `offset`
/// and whose fixed header starts at `p`.
#[verifier::opaque]
pub open spec fn rdata_scan(
    b: Seq<u8>,
    offset: int,
    p: int,
    section: Section,
    opt_seen: bool,
) -> Result<RRScan, DSError> {
    let rr_type = be16(b, p);
    let rdlen = be16(b, p + 8);
    let d = p + DNS_RR_HEADER_SIZE;
    if rr_type == Type::OPT.code() {
        if section != Section::Additional {
            Err(DSError::InvalidPacket("OPT RRs must be in the additional section"))
        } else if p - offset != 1 {
            Err(DSError::InvalidPacket("OPT RRs must have the root domain as the domain name"))
        } else {
            opt_scan(b, p, opt_seen)
        }
    } else if rr_type == Type::NS.code() || rr_type == Type::CNAME.code() || rr_type
        == Type::PTR.code() {
        if rdlen <= 0 {
            Err(DSError::PacketTooSmall)
        } else {
            match walk_name(b, d) {
                Err(e) => Err(e),
                Ok(n) => if n.end - d != rdlen {
                    Err(DSError::InvalidPacket("Unexpected data after name in rdata"))
                } else {
                    plain_rr(d + rdlen)
                },
            }
        }
    } else if rr_type == Type::MX.code() {
        if rdlen <= 2 {
            Err(DSError::PacketTooSmall)
        } else {
            match walk_name(b, d + 2) {
                Err(e) => Err(e),
                Ok(n) => if n.end - d != rdlen {
                    Err(DSError::InvalidPacket("Unexpected data after name in MX rdata"))
                } else {
                    plain_rr(d + rdlen)
                },
            }
        }
    } else if rr_type == Type::SOA.code() {
        if rdlen <= 1 + 20 {
            Err(DSError::PacketTooSmall)
        } else {
            match walk_name(b, d) {
                Err(e) => Err(e),
                Ok(n1) => match walk_name(b, n1.end) {
                    Err(e) => Err(e),
                    Ok(n2) => if n2.end - d != rdlen - 20 {
                        Err(DSError::InvalidPacket("Unexpected data after name in SOA rdata"))
                    } else if b.len() - d < rdlen {
                        Err(DSError::PacketTooSmall)
                    } else {
                        plain_rr(d + rdlen)
                    },
                },
            }
        }
    } else if rr_type == Type::DNAME.code() {
        if rdlen <= 0 {
            Err(DSError::PacketTooSmall)
        } else {
            match check_plain(b, d) {
                Err(e) => Err(e),
                Ok(end) => if end - d != rdlen {
                    Err(DSError::InvalidPacket("Unexpected data after name in DNAME rdata"))
                } else {
                    plain_rr(d + rdlen)
                },
            }
        }
    } else if rr_type == Type::A.code() && rdlen != 4 {
        Err(DSError::InvalidPacket("A record doesn't include a 4 bytes IP address"))
    } else if rr_type == Type::AAAA.code() && rdlen != 16 {
        Err(DSError::InvalidPacket("AAAA record doesn't include a 16 bytes IP address"))
    } else if b.len() - p < DNS_RR_HEADER_SIZE + rdlen {
        Err(DSError::PacketTooSmall)
    } else {
        plain_rr(d + rdlen)
    }
}

/// The scan of the record of `b` that starts at `offset`, in `section`, an
/// OPT record having been seen before or not: where the record ends and what
/// it holds if it is an OPT record, or why it is refused.
pub open spec fn rr_scan(b: Seq<u8>, offset: int, section: Section, opt_seen: bool) -> Result<
    RRScan,
    DSError,
> {
    match walk_name(b, offset) {
        Err(e) => Err(e),
        Ok(w) => if w.end >= b.len() {
            Err(DSError::InternalError("Setting offset past the end of the packet"))
        } else if b.len() - w.end < DNS_RR_HEADER_SIZE {
            Err(DSError::PacketTooSmall)
        } else {
            rdata_scan(b, offset, w.end, section, opt_seen)
        },
    }
}

/// The scan of `count` records of `section`, from `st` on.
pub open spec fn section_scan(b: Seq<u8>, st: Scan, count: int, section: Section) -> Result<
    Scan,
    DSError,
>
    decreases count,
{
    if count <= 0 {
        Ok(st)
    } else {
        match rr_scan(b, st.offset, section, st.edns is Some) {
            Err(e) => Err(e),
            Ok(r) => section_scan(
                b,
                Scan {
                    offset: r.next,
                    edns: if r.opt is Some {
                        r.opt
                    } else {
                        st.edns
                    },
                },
                count - 1,
                section,
            ),
        }
    }
}

/// The scan of the question of `b` that starts at `offset`: the offset right
/// after it. With `strict`, a class other than `IN` is refused.
pub open spec fn question_scan(b: Seq<u8>, offset: int, strict: bool) -> Result<int, DSError> {
    match walk_name(b, offset) {
        Err(e) => Err(e),
        Ok(w) => if w.end >= b.len() {
            Err(DSError::InternalError("Setting offset past the end of the packet"))
        } else if b.len() - w.end < DNS_RR_QUESTION_HEADER_SIZE {
            Err(DSError::PacketTooSmall)
        } else if strict && be16(b, w.end + 2) != Class::IN.code() {
            Err(DSError::UnsupportedClass(be16(b, w.end + 2) as u16))
        } else {
            Ok(w.end + DNS_RR_QUESTION_HEADER_SIZE)
        },
    }
}

/// The offset of a section that starts at `offset` and holds `count` records.
pub open spec fn section_offset(count: int, offset: int) -> Option<int> {
    if count > 0 {
        Some(offset)
    } else {
        None
    }
}

/// The scan of the records of `b`, the header having been accepted.
pub open spec fn body_scan(b: Seq<u8>, strict: bool) -> Result<Sections, DSError> {
    let question = if qd_count(b) > 0 {
        question_scan(b, DNS_QUESTION_OFFSET as int, strict)
    } else {
        Ok(DNS_QUESTION_OFFSET as int)
    };
    match question {
        Err(e) => Err(e),
        Ok(q_end) => match section_scan(
            b,
            Scan { offset: q_end, edns: None },
            an_count(b),
            Section::Answer,
        ) {
            Err(e) => Err(e),
            Ok(an) => match section_scan(b, an, ns_count(b), Section::NameServers) {
                Err(e) => Err(e),
                Ok(ns) => match section_scan(b, ns, ar_count(b), Section::Additional) {
                    Err(e) => Err(e),
                    Ok(ar) => if ar.offset != b.len() {
                        Err(DSError::InvalidPacket("Extra data found after the last record"))
                    } else {
                        Ok(
                            Sections {
                                question: section_offset(qd_count(b), DNS_QUESTION_OFFSET as int),
                                answers: section_offset(an_count(b), q_end),
                                nameservers: section_offset(ns_count(b), an.offset),
                                additional: section_offset(ar_count(b), ns.offset),
                                edns: ar.edns,
                            },
                        )
                    },
                },
            },
        }
    }
}

/// The scan of the whole message `b`: where its sections start and what its
/// OPT record holds, or why the message is refused.
///
/// With `strict` the message must be one that a peer may send: it holds
/// exactly one question, of class `IN`, and no record besides it unless it
/// is a response. Without it, the question may be missing or of another
/// class and a query may hold records, which is what a message under
/// construction looks like.
pub open spec fn message_scan(b: Seq<u8>, strict: bool) -> Result<Sections, DSError> {
    if b.len() < DNS_HEADER_SIZE {
        Err(DSError::PacketTooSmall)
    } else if strict && qd_count(b) == 0 {
        Err(DSError::InvalidPacket("A DNS packet should contain a question"))
    } else if qd_count(b) > 1 {
        Err(DSError::InvalidPacket("A DNS packet cannot contain more than one question"))
    } else if strict && !response_bit(b) && an_count(b) > 0 {
        Err(DSError::InvalidPacket("A question shouldn't also contain answers"))
    } else if strict && !response_bit(b) && ns_count(b) > 0 {
        Err(DSError::InvalidPacket("A question shouldn't also contain name servers"))
    } else if strict && !response_bit(b) && ar_count(b) > 0 {
        Err(DSError::InvalidPacket("A question shouldn't also contain additional records"))
    } else if strict && b.len() <= DNS_QUESTION_OFFSET {
        Err(DSError::InternalError("Setting offset past the end of the packet"))
    } else {
        body_scan(b, strict)
    }
}

/// A `DNSSector` object summarizes the structure of a DNS packet,
/// so that individual sections can be accessed quickly.
///
/// The functions implemented here assume an untrusted input packet.
#[derive(Clone, Debug)]
pub struct DNSSector {
    pub packet: Vec<u8>,
    pub offset: usize,
    pub edns_start: Option<usize>,
    pub edns_end: Option<usize>,
    pub edns_count: u16,
    pub ext_rcode: Option<u8>,
    pub edns_version: Option<u8>,
    pub ext_flags: Option<u16>,
    pub max_payload: usize,
}

impl DNSSector {
    /// The offset being parsed lies inside the packet or at its end.
    pub open spec fn wf(&self) -> bool {
        &&& self.offset <= self.packet.len()
        &&& self.edns_end matches Some(end) ==> {
            &&& end <= self.packet.len()
            &&& self.edns_start is Some
            &&& self.ext_rcode is Some
            &&& self.edns_version is Some
            &&& self.ext_flags is Some
        }
    }

    /// The number of bytes from the offset being parsed to the end of the packet.
    pub open spec fn remaining(&self) -> int {
        self.packet.len() - self.offset
    }

    /// The number of bytes from the offset being parsed to the end of the
    /// option area, and zero where there is no such area ahead.
    pub open spec fn edns_remaining(&self) -> int {
        match self.edns_end {
            Some(end) if end >= self.offset => end - self.offset,
            _ => 0,
        }
    }

    /// What the fields say of the OPT record that was parsed, if one was.
    pub open spec fn edns_info(&self) -> Option<EdnsInfo> {
        match self.edns_end {
            Some(end) => Some(
                EdnsInfo {
                    start: self.edns_start->Some_0 as int,
                    end: end as int,
                    count: self.edns_count as int,
                    ext_rcode: self.ext_rcode->Some_0,
                    version: self.edns_version->Some_0,
                    ext_flags: self.ext_flags->Some_0,
                    max_payload: self.max_payload as int,
                },
            ),
            None => None,
        }
    }

    /// The fields that an OPT record fills.
    pub open spec fn edns_fields(&self) -> (
        Option<usize>,
        Option<usize>,
        u16,
        Option<u8>,
        Option<u8>,
        Option<u16>,
        usize,
    ) {
        (
            self.edns_start,
            self.edns_end,
            self.edns_count,
            self.ext_rcode,
            self.edns_version,
            self.ext_flags,
            self.max_payload,
        )
    }

    /// How far the parser has come: its offset, and the OPT record that it has parsed.
    pub open spec fn state(&self) -> Scan {
        Scan { offset: self.offset as int, edns: self.edns_info() }
    }

    /// Consumes the parser and returns the packet
    pub fn into_packet(self) -> (r: Vec<u8>)
        ensures
            r == self.packet,
    {
        self.packet
    }

    /// Check if this is a response
    pub fn is_response(packet: &[u8]) -> (r: bool)
        requires
            packet@.len() >= DNS_HEADER_SIZE,
        ensures
            r == response_bit(packet@),
    {
        let flags: u16 = read_be16(packet, DNS_FLAGS_OFFSET);
        let hi: u8 = packet[2];
        let lo: u8 = packet[3];
        assert((flags & 0x8000 == 0x8000) <==> hi >= 0x80) by (bit_vector)
            requires
                flags == hi as u16 * 256 + lo as u16,
        ;
        flags & (DNS_FLAG_QR as u16) == DNS_FLAG_QR as u16
    }

    /// Set the response bit
    pub fn set_response(packet: &mut [u8], is_response: bool)
        requires
            old(packet)@.len() >= DNS_HEADER_SIZE,
        ensures
            final(packet)@ == old(packet)@.update(
                2,
                if is_response {
                    old(packet)@[2] | 0x80
                } else {
                    old(packet)@[2] & 0x7f
                },
            ),
            response_bit(final(packet)@) == is_response,
    {
        let mut oll: u16 = read_be16(packet, DNS_FLAGS_OFFSET);
        let ghost before: u16 = oll;
        let ghost hi: u8 = packet@[2];
        let ghost lo: u8 = packet@[3];
        if is_response {
            oll |= DNS_FLAG_QR as u16
        } else {
            oll &= !(DNS_FLAG_QR as u16)
        }
        assert(oll / 256 == (if is_response {
            hi | 0x80
        } else {
            hi & 0x7f
        }) && oll % 256 == lo) by (bit_vector)
            requires
                before == hi as u16 * 256 + lo as u16,
                oll == (if is_response {
                    before | 0x8000
                } else {
                    before & !0x8000u16
                }),
        ;
        assert((hi | 0x80) >= 0x80 && (hi & 0x7f) < 0x80) by (bit_vector);
        write_be16(packet, DNS_FLAGS_OFFSET, oll);
        assert(packet@ =~= old(packet)@.update(
            2,
            if is_response {
                hi | 0x80
            } else {
                hi & 0x7f
            },
        ));
    }

    /// Returns the number of records in the question section.
    pub fn qdcount(packet: &[u8]) -> (r: u16)
        requires
            packet@.len() >= DNS_HEADER_SIZE,
        ensures
            r as int == qd_count(packet@),
    {
        read_be16(packet, 4)
    }

    /// Changes the number of questions.
    pub fn set_qdcount(packet: &mut [u8], value: u16)
        requires
            old(packet)@.len() >= DNS_HEADER_SIZE,
        ensures
            final(packet)@ == put_be16(old(packet)@, 4, value as int),
            qd_count(final(packet)@) == value,
    {
        write_be16(packet, 4, value)
    }

    /// Returns the numbers of records in the answer section.
    pub fn ancount(packet: &[u8]) -> (r: u16)
        requires
            packet@.len() >= DNS_HEADER_SIZE,
        ensures
            r as int == an_count(packet@),
    {
        read_be16(packet, 6)
    }

    /// Changes the number of records in the answer section.
    pub fn set_ancount(packet: &mut [u8], value: u16)
        requires
            old(packet)@.len() >= DNS_HEADER_SIZE,
        ensures
            final(packet)@ == put_be16(old(packet)@, 6, value as int),
            an_count(final(packet)@) == value,
    {
        write_be16(packet, 6, value)
    }

    /// Returns the number of records in the nameservers section.
    pub fn nscount(packet: &[u8]) -> (r: u16)
        requires
            packet@.len() >= DNS_HEADER_SIZE,
        ensures
            r as int == ns_count(packet@),
    {
        read_be16(packet, 8)
    }

    /// Changes the number of records in the nameservers section.
    pub fn set_nscount(packet: &mut [u8], value: u16)
        requires
            old(packet)@.len() >= DNS_HEADER_SIZE,
        ensures
            final(packet)@ == put_be16(old(packet)@, 8, value as int),
            ns_count(final(packet)@) == value,
    {
        write_be16(packet, 8, value)
    }

    /// Returns the number of records in the additional section.
    pub fn arcount(packet: &[u8]) -> (r: u16)
        requires
            packet@.len() >= DNS_HEADER_SIZE,
        ensures
            r as int == ar_count(packet@),
    {
        read_be16(packet, 10)
    }

    /// Changes the number of records in the additional section.
    pub fn set_arcount(packet: &mut [u8], value: u16)
        requires
            old(packet)@.len() >= DNS_HEADER_SIZE,
        ensures
            final(packet)@ == put_be16(old(packet)@, 10, value as int),
            ar_count(final(packet)@) == value,
    {
        write_be16(packet, 10, value)
    }

    /// Returns the number of yet unparsed bytes.
    fn remaining_len(&self) -> (r: usize)
        requires
            self.wf(),
        ensures
            r as int == self.remaining(),
    {
        self.packet.len() - self.offset
    }

    /// Makes sure that at least `len` bytes remain to be parsed.
    fn ensure_remaining_len(&self, len: usize) -> (r: Result<(), DSError>)
        requires
            self.wf(),
        ensures
            r == (if self.remaining() < len {
                Err::<(), DSError>(DSError::PacketTooSmall)
            } else {
                Ok::<(), DSError>(())
            }),
    {
        if self.remaining_len() < len {
            return Err(DSError::PacketTooSmall);
        }
        Ok(())
    }

    /// Sets the internal offset to the data to be parsed to an arbitrary location
    pub fn set_offset(&mut self, offset: usize) -> (r: Result<usize, DSError>)
        ensures
            final(self).packet == old(self).packet,
            final(self).edns_start == old(self).edns_start,
            final(self).edns_end == old(self).edns_end,
            final(self).edns_count == old(self).edns_count,
            final(self).ext_rcode == old(self).ext_rcode,
            final(self).edns_version == old(self).edns_version,
            final(self).ext_flags == old(self).ext_flags,
            final(self).max_payload == old(self).max_payload,
            offset >= old(self).packet@.len() ==> r == Err::<usize, DSError>(
                DSError::InternalError("Setting offset past the end of the packet"),
            ) && final(self).offset == old(self).offset,
            offset < old(self).packet@.len() ==> r == Ok::<usize, DSError>(old(self).offset)
                && final(self).offset == offset,
    {
        if offset >= self.packet.len() {
            return Err(DSError::InternalError("Setting offset past the end of the packet"));
        }
        let previous: usize = self.offset;
        self.offset = offset;
        Ok(previous)
    }

    /// Increments the internal offset
    pub fn increment_offset(&mut self, n: usize) -> (r: Result<usize, DSError>)
        requires
            old(self).wf(),
        ensures
            final(self).packet == old(self).packet,
            final(self).edns_start == old(self).edns_start,
            final(self).edns_end == old(self).edns_end,
            final(self).edns_count == old(self).edns_count,
            final(self).ext_rcode == old(self).ext_rcode,
            final(self).edns_version == old(self).edns_version,
            final(self).ext_flags == old(self).ext_flags,
            final(self).max_payload == old(self).max_payload,
            final(self).wf(),
            old(self).remaining() < n ==> r == Err::<usize, DSError>(DSError::PacketTooSmall)
                && final(self).offset == old(self).offset,
            old(self).remaining() >= n ==> r == Ok::<usize, DSError>(old(self).offset)
                && final(self).offset == old(self).offset + n,
    {
        self.ensure_remaining_len(n)?;
        let previous: usize = self.offset;
        self.offset = previous + n;
        Ok(previous)
    }

    fn u8_load(&self, rr_offset: usize) -> (r: Result<u8, DSError>)
        requires
            self.wf(),
            rr_offset < 0x10000,
        ensures
            r == (if self.remaining() < rr_offset + 1 {
                Err::<u8, DSError>(DSError::PacketTooSmall)
            } else {
                Ok::<u8, DSError>(self.packet@[self.offset + rr_offset])
            }),
    {
        self.ensure_remaining_len(rr_offset + 1)?;
        let offset: usize = self.offset + rr_offset;
        Ok(self.packet[offset])
    }

    fn be16_load(&self, rr_offset: usize) -> (r: Result<u16, DSError>)
        requires
            self.wf(),
            rr_offset < 0x10000,
        ensures
            r == (if self.remaining() < rr_offset + 2 {
                Err::<u16, DSError>(DSError::PacketTooSmall)
            } else {
                Ok::<u16, DSError>(be16(self.packet@, self.offset + rr_offset) as u16)
            }),
    {
        self.ensure_remaining_len(rr_offset + 2)?;
        let offset: usize = self.offset + rr_offset;
        Ok(read_be16(self.packet.as_slice(), offset))
    }

    fn be32_load(&self, rr_offset: usize) -> (r: Result<u32, DSError>)
        requires
            self.wf(),
            rr_offset < 0x10000,
        ensures
            r == (if self.remaining() < rr_offset + 4 {
                Err::<u32, DSError>(DSError::PacketTooSmall)
            } else {
                Ok::<u32, DSError>(be32(self.packet@, self.offset + rr_offset) as u32)
            }),
    {
        self.ensure_remaining_len(rr_offset + 4)?;
        let offset: usize = self.offset + rr_offset;
        Ok(read_be32(self.packet.as_slice(), offset))
    }

    /// Checks that an encoded DNS name is valid. This includes following indirections for
    /// compressed names, checks for label lengths, checks for truncated names and checks for
    /// cycles.
    fn check_compressed_name(&self, offset: usize) -> (r: Result<usize, DSError>)
        ensures
            match walk_name(self.packet@, offset as int) {
                Ok(w) => r is Ok && r->Ok_0 == w.end && offset < w.end <= self.packet@.len(),
                Err(e) => r == Err::<usize, DSError>(e),
            },
    {
        Compress::check_compressed_name(self.packet.as_slice(), offset)
    }

    /// Verifies that a name has been properly encoded, and sets the internal
    /// offset to the location right after than name.
    fn skip_name(&mut self) -> (r: Result<(), DSError>)
        requires
            old(self).wf(),
        ensures
            final(self).packet == old(self).packet,
            final(self).edns_start == old(self).edns_start,
            final(self).edns_end == old(self).edns_end,
            final(self).edns_count == old(self).edns_count,
            final(self).ext_rcode == old(self).ext_rcode,
            final(self).edns_version == old(self).edns_version,
            final(self).ext_flags == old(self).ext_flags,
            final(self).max_payload == old(self).max_payload,
            match walk_name(old(self).packet@, old(self).offset as int) {
                Err(e) => r == Err::<(), DSError>(e),
                Ok(w) => if w.end >= old(self).packet@.len() {
                    r == Err::<(), DSError>(
                        DSError::InternalError("Setting offset past the end of the packet"),
                    )
                } else {
                    r == Ok::<(), DSError>(()) && final(self).offset == w.end && final(self).wf()
                        && old(self).offset < w.end
                },
            },
    {
        let offset: usize = self.check_compressed_name(self.offset)?;
        self.set_offset(offset)?;
        Ok(())
    }

    /// Returns the type of the record currently being parsed.
    fn rr_type(&self) -> (r: Result<u16, DSError>)
        requires
            self.wf(),
        ensures
            r == (if self.remaining() < 2 {
                Err::<u16, DSError>(DSError::PacketTooSmall)
            } else {
                Ok::<u16, DSError>(be16(self.packet@, self.offset as int) as u16)
            }),
    {
        self.be16_load(DNS_RR_TYPE_OFFSET)
    }

    /// Returns the class of the record currently being parsed.
    fn rr_class(&self) -> (r: Result<u16, DSError>)
        requires
            self.wf(),
        ensures
            r == (if self.remaining() < 4 {
                Err::<u16, DSError>(DSError::PacketTooSmall)
            } else {
                Ok::<u16, DSError>(be16(self.packet@, self.offset + 2) as u16)
            }),
    {
        self.be16_load(DNS_RR_CLASS_OFFSET)
    }

    /// Returns the TTL of the record currently being parsed.
    fn rr_ttl(&self) -> (r: Result<u32, DSError>)
        requires
            self.wf(),
        ensures
            r == (if self.remaining() < 8 {
                Err::<u32, DSError>(DSError::PacketTooSmall)
            } else {
                Ok::<u32, DSError>(be32(self.packet@, self.offset + 4) as u32)
            }),
    {
        self.be32_load(DNS_RR_TTL_OFFSET)
    }

    /// Returns the length of the data for the record currently being parsed.
    pub fn rr_rdlen(&self) -> (r: Result<usize, DSError>)
        requires
            self.wf(),
        ensures
            r == (if self.remaining() < 10 {
                Err::<usize, DSError>(DSError::PacketTooSmall)
            } else {
                Ok::<usize, DSError>(be16(self.packet@, self.offset + 8) as usize)
            }),
    {
        match self.be16_load(DNS_RR_RDLEN_OFFSET) {
            Ok(x) => Ok(x as usize),
            Err(e) => Err(e),
        }
    }

    /// Ensure that the record currently being parsed has the `IN` class.
    fn ensure_in_class(&self) -> (r: Result<(), DSError>)
        requires
            self.wf(),
        ensures
            r == (if self.remaining() < 4 {
                Err::<(), DSError>(DSError::PacketTooSmall)
            } else if be16(self.packet@, self.offset + 2) != Class::IN.code() {
                Err::<(), DSError>(
                    DSError::UnsupportedClass(be16(self.packet@, self.offset + 2) as u16),
                )
            } else {
                Ok::<(), DSError>(())
            }),
    {
        let class: u16 = self.rr_class()?;
        if class != Class::IN.to_u16() {
            return Err(DSError::UnsupportedClass(class));
        }
        Ok(())
    }

    /// Builds a `DNSSector` structure for a given untrusted DNS packet.
    pub fn new(packet: Vec<u8>) -> (r: Result<Self, DSError>)
        ensures
            r is Ok,
            r->Ok_0.packet == packet,
            r->Ok_0.offset == 0,
            r->Ok_0.edns_start is None,
            r->Ok_0.edns_end is None,
            r->Ok_0.edns_count == 0,
            r->Ok_0.ext_rcode is None,
            r->Ok_0.edns_version is None,
            r->Ok_0.ext_flags is None,
            r->Ok_0.max_payload == 512,
            r->Ok_0.wf(),
    {
        let dns_sector = DNSSector {
            packet,
            offset: 0,
            edns_start: None,
            edns_end: None,
            edns_count: 0,
            ext_rcode: None,
            edns_version: None,
            ext_flags: None,
            max_payload: 512,
        };
        Ok(dns_sector)
    }

    /// Parses and validates all records from all sections of an untrusted DNS packet.
    /// If the validation succeeds, a `ParsedPacket` structure containing information
    /// to quickly access (extended) flags and individual sections is returned.
    pub fn parse(self) -> (r: Result<ParsedPacket, DSError>)
        ensures
            match message_scan(self.packet@, true) {
                Err(e) => r == Err::<ParsedPacket, DSError>(e),
                Ok(s) => {
                    &&& r is Ok
                    &&& r->Ok_0.wf()
                    &&& r->Ok_0.bytes() == self.packet@
                    &&& r->Ok_0.has_sections(s)
                    &&& r->Ok_0.maybe_compressed
                    &&& r->Ok_0.cached is None
                    &&& r->Ok_0.max_payload == match s.edns {
                        Some(e) => e.max_payload,
                        None => 512,
                    }
                },
            },
    {
        proof {
            lemma_strict_scan(self.packet@);
        }
        self.scan(true)
    }

    /// Validates the packet as `parse` does or, without `strict`, as a
    /// message under construction: the question may then be missing or of
    /// another class than `IN`, and a query may hold records.
    pub fn scan(self, strict: bool) -> (r: Result<ParsedPacket, DSError>)
        ensures
            match message_scan(self.packet@, strict) {
                Err(e) => r == Err::<ParsedPacket, DSError>(e),
                Ok(s) => {
                    &&& r is Ok
                    &&& !strict ==> r->Ok_0.wf()
                    &&& r->Ok_0.packet is Some
                    &&& r->Ok_0.bytes() == self.packet@
                    &&& r->Ok_0.has_sections(s)
                    &&& r->Ok_0.maybe_compressed
                    &&& r->Ok_0.cached is None
                    &&& r->Ok_0.max_payload == match s.edns {
                        Some(e) => e.max_payload,
                        None => 512,
                    }
                },
            },
    {
        let mut this = self;
        this.offset = 0;
        this.edns_start = None;
        this.edns_end = None;
        this.edns_count = 0;
        this.ext_rcode = None;
        this.edns_version = None;
        this.ext_flags = None;
        this.max_payload = 512;
        let packet_len: usize = this.packet.len();
        if packet_len < DNS_HEADER_SIZE {
            return Err(DSError::PacketTooSmall);
        }
        let is_response: bool = Self::is_response(this.packet.as_slice());
        let qdcount: u16 = Self::qdcount(this.packet.as_slice());
        let ancount: u16 = Self::ancount(this.packet.as_slice());
        let nscount: u16 = Self::nscount(this.packet.as_slice());
        let arcount: u16 = Self::arcount(this.packet.as_slice());
        if strict && qdcount == 0 {
            return Err(DSError::InvalidPacket("A DNS packet should contain a question"));
        }
        if qdcount > 1 {
            return Err(
                DSError::InvalidPacket("A DNS packet cannot contain more than one question"),
            );
        }
        if strict && !is_response && ancount > 0 {
            return Err(DSError::InvalidPacket("A question shouldn't also contain answers"));
        }
        if strict && !is_response && nscount > 0 {
            return Err(DSError::InvalidPacket("A question shouldn't also contain name servers"));
        }
        if strict && !is_response && arcount > 0 {
            return Err(
                DSError::InvalidPacket("A question shouldn't also contain additional records"),
            );
        }
        if strict {
            this.set_offset(DNS_QUESTION_OFFSET)?;
        } else {
            this.offset = DNS_QUESTION_OFFSET;
        }
        this.scan_body(strict, qdcount, ancount, nscount, arcount)
    }

    /// Validates the records of a packet whose header has been accepted.
    fn scan_body(self, strict: bool, qdcount: u16, ancount: u16, nscount: u16, arcount: u16) -> (r:
        Result<ParsedPacket, DSError>)
        requires
            self.wf(),
            self.packet@.len() >= DNS_HEADER_SIZE,
            self.offset == DNS_QUESTION_OFFSET,
            self.edns_start is None,
            self.edns_end is None,
            self.edns_count == 0,
            self.ext_rcode is None,
            self.edns_version is None,
            self.ext_flags is None,
            self.max_payload == 512,
            qdcount == qd_count(self.packet@),
            ancount == an_count(self.packet@),
            nscount == ns_count(self.packet@),
            arcount == ar_count(self.packet@),
        ensures
            match body_scan(self.packet@, strict) {
                Err(e) => r == Err::<ParsedPacket, DSError>(e),
                Ok(s) => {
                    &&& r is Ok
                    &&& r->Ok_0.packet is Some
                    &&& r->Ok_0.bytes() == self.packet@
                    &&& r->Ok_0.has_sections(s)
                    &&& r->Ok_0.maybe_compressed
                    &&& r->Ok_0.cached is None
                    &&& r->Ok_0.max_payload == match s.edns {
                        Some(e) => e.max_payload,
                        None => 512,
                    }
                },
            },
    {
        let mut this = self;
        let ghost b = self.packet@;
        let offset_question: Option<usize> = if qdcount > 0 {
            Some(this.offset)
        } else {
            None
        };
        if qdcount != 0 {
            this.parse_question(strict)?;
        }
        let ghost q_end: int = this.offset as int;
        assert(this.state() == Scan { offset: q_end, edns: None });
        let offset_answers: Option<usize> = if ancount > 0 {
            Some(this.offset)
        } else {
            None
        };
        this.parse_section(ancount, Section::Answer)?;
        let ghost an = this.state();
        let offset_nameservers: Option<usize> = if nscount > 0 {
            Some(this.offset)
        } else {
            None
        };
        this.parse_section(nscount, Section::NameServers)?;
        let ghost ns = this.state();
        let offset_additional: Option<usize> = if arcount > 0 {
            Some(this.offset)
        } else {
            None
        };
        this.parse_section(arcount, Section::Additional)?;
        let ghost ar = this.state();
        if this.remaining_len() > 0 {
            return Err(DSError::InvalidPacket("Extra data found after the last record"));
        }
        let edns_start: Option<usize> = this.edns_start;
        let ext_rcode: Option<u8> = this.ext_rcode;
        let edns_version: Option<u8> = this.edns_version;
        let ext_flags: Option<u16> = this.ext_flags;
        let edns_count: u16 = if this.edns_end.is_some() {
            this.edns_count
        } else {
            0
        };
        let max_payload: usize = this.max_payload;
        let parsed_packet = ParsedPacket {
            packet: Some(this.packet),
            offset_question,
            offset_answers,
            offset_nameservers,
            offset_additional,
            offset_edns: edns_start,
            ext_rcode,
            edns_version,
            ext_flags,
            edns_count,
            maybe_compressed: true,
            max_payload,
            cached: None,
        };
        Ok(parsed_packet)
    }

    /// Parses `count` records of `section`.
    pub fn parse_section(&mut self, count: u16, section: Section) -> (r: Result<(), DSError>)
        requires
            old(self).wf(),
        ensures
            final(self).packet == old(self).packet,
            match section_scan(old(self).packet@, old(self).state(), count as int, section) {
                Err(e) => r == Err::<(), DSError>(e),
                Ok(st) => r == Ok::<(), DSError>(()) && final(self).wf() && final(self).state()
                    == st && (st.edns is None ==> final(self).edns_fields() == old(self).edns_fields()),
            },
    {
        let mut i: u16 = 0;
        while i < count
            invariant
                i <= count,
                self.wf(),
                self.packet == old(self).packet,
                self.edns_end is None ==> self.edns_fields() == old(self).edns_fields(),
                section_scan(old(self).packet@, old(self).state(), count as int, section)
                    == section_scan(self.packet@, self.state(), count - i, section),
            decreases count - i,
        {
            self.parse_rr(section)?;
            i += 1;
        }
        Ok(())
    }

    /// Parses a question RR. With `strict` its class has to be `IN`.
    pub fn parse_question(&mut self, strict: bool) -> (r: Result<(), DSError>)
        requires
            old(self).wf(),
        ensures
            final(self).packet == old(self).packet,
            final(self).edns_start == old(self).edns_start,
            final(self).edns_end == old(self).edns_end,
            final(self).edns_count == old(self).edns_count,
            final(self).ext_rcode == old(self).ext_rcode,
            final(self).edns_version == old(self).edns_version,
            final(self).ext_flags == old(self).ext_flags,
            final(self).max_payload == old(self).max_payload,
            match question_scan(old(self).packet@, old(self).offset as int, strict) {
                Err(e) => r == Err::<(), DSError>(e),
                Ok(end) => r == Ok::<(), DSError>(()) && final(self).offset == end && final(self).wf(),
            },
    {
        self.skip_name()?;
        if strict {
            self.ensure_in_class()?;
        }
        self.increment_offset(DNS_RR_QUESTION_HEADER_SIZE)?;
        Ok(())
    }

    /// Parses a RR from the answer, nameservers or additional sections.
    fn parse_rr(&mut self, section: Section) -> (r: Result<(), DSError>)
        requires
            old(self).wf(),
        ensures
            final(self).packet == old(self).packet,
            match rr_scan(
                old(self).packet@,
                old(self).offset as int,
                section,
                old(self).edns_end is Some,
            ) {
                Err(e) => r == Err::<(), DSError>(e),
                Ok(rec) => {
                    &&& r == Ok::<(), DSError>(())
                    &&& final(self).wf()
                    &&& final(self).offset == rec.next
                    &&& final(self).edns_info() == (if rec.opt is Some {
                        rec.opt
                    } else {
                        old(self).edns_info()
                    })
                    &&& rec.opt is None ==> final(self).edns_fields() == old(self).edns_fields()
                },
            },
    {
        reveal(rdata_scan);
        let rr_start_offset: usize = self.offset;
        self.skip_name()?;
        let rr_type: u16 = self.rr_type()?;
        let rr_rdlen: usize = self.rr_rdlen()?;
        if rr_type == Type::OPT.to_u16() {
            if section != Section::Additional {
                return Err(DSError::InvalidPacket("OPT RRs must be in the additional section"));
            }
            if self.offset - rr_start_offset != 1 {
                return Err(
                    DSError::InvalidPacket("OPT RRs must have the root domain as the domain name"),
                );
            }
            return self.parse_opt();
        } else if rr_type == Type::NS.to_u16() || rr_type == Type::CNAME.to_u16() || rr_type
            == Type::PTR.to_u16() {
            if rr_rdlen == 0 {
                return Err(DSError::PacketTooSmall);
            }
            self.increment_offset(DNS_RR_HEADER_SIZE)?;
            let final_offset: usize = Compress::check_compressed_name(
                self.packet.as_slice(),
                self.offset,
            )?;
            if final_offset - self.offset != rr_rdlen {
                return Err(DSError::InvalidPacket("Unexpected data after name in rdata"));
            }
            self.increment_offset(rr_rdlen)?;
        } else if rr_type == Type::MX.to_u16() {
            if rr_rdlen <= 2 {
                return Err(DSError::PacketTooSmall);
            }
            self.increment_offset(DNS_RR_HEADER_SIZE)?;
            if self.remaining_len() < 2 {
                return Err(DSError::InternalError("Offset outside packet boundaries"));
            }
            let final_offset: usize = Compress::check_compressed_name(
                self.packet.as_slice(),
                self.offset + 2,
            )?;
            if final_offset - self.offset != rr_rdlen {
                return Err(DSError::InvalidPacket("Unexpected data after name in MX rdata"));
            }
            self.increment_offset(rr_rdlen)?;
        } else if rr_type == Type::SOA.to_u16() {
            if rr_rdlen <= 1 + 20 {
                return Err(DSError::PacketTooSmall);
            }
            self.increment_offset(DNS_RR_HEADER_SIZE)?;
            let final_offset_1: usize = Compress::check_compressed_name(
                self.packet.as_slice(),
                self.offset,
            )?;
            let final_offset_2: usize = Compress::check_compressed_name(
                self.packet.as_slice(),
                final_offset_1,
            )?;
            if final_offset_2 - self.offset != rr_rdlen - 20 {
                return Err(DSError::InvalidPacket("Unexpected data after name in SOA rdata"));
            }
            self.increment_offset(rr_rdlen)?;
        } else if rr_type == Type::DNAME.to_u16() {
            if rr_rdlen == 0 {
                return Err(DSError::PacketTooSmall);
            }
            self.increment_offset(DNS_RR_HEADER_SIZE)?;
            let final_offset: usize = Self::check_uncompressed_name(
                self.packet.as_slice(),
                self.offset,
            )?;
            if final_offset - self.offset != rr_rdlen {
                return Err(DSError::InvalidPacket("Unexpected data after name in DNAME rdata"));
            }
            self.increment_offset(rr_rdlen)?;
        } else if rr_type == Type::A.to_u16() {
            if rr_rdlen != 4 {
                return Err(
                    DSError::InvalidPacket("A record doesn't include a 4 bytes IP address"),
                );
            }
            self.increment_offset(DNS_RR_HEADER_SIZE + rr_rdlen)?;
        } else if rr_type == Type::AAAA.to_u16() {
            if rr_rdlen != 16 {
                return Err(
                    DSError::InvalidPacket("AAAA record doesn't include a 16 bytes IP address"),
                );
            }
            self.increment_offset(DNS_RR_HEADER_SIZE + rr_rdlen)?;
        } else {
            self.increment_offset(DNS_RR_HEADER_SIZE + rr_rdlen)?;
        }
        Ok(())
    }

    /// Returns the number of unparsed bytes from the edns pseudo-section.
    fn edns_remaining_len(&self) -> (r: usize)
        ensures
            r as int == self.edns_remaining(),
    {
        match self.edns_end {
            None => 0,
            Some(edns_end) => if edns_end >= self.offset {
                edns_end - self.offset
            } else {
                0
            },
        }
    }

    /// Makes sure that at least `len` bytes remain to be parsed in the edns pseudo-section.
    fn edns_ensure_remaining_len(&self, len: usize) -> (r: Result<(), DSError>)
        ensures
            r == (if self.edns_remaining() < len {
                Err::<(), DSError>(DSError::PacketTooSmall)
            } else {
                Ok::<(), DSError>(())
            }),
    {
        if self.edns_remaining_len() < len {
            return Err(DSError::PacketTooSmall);
        }
        Ok(())
    }

    /// Increments the internal offset of the edns pseudo-section.
    fn edns_increment_offset(&mut self, n: usize) -> (r: Result<usize, DSError>)
        requires
            old(self).wf(),
        ensures
            final(self).packet == old(self).packet,
            final(self).edns_start == old(self).edns_start,
            final(self).edns_end == old(self).edns_end,
            final(self).edns_count == old(self).edns_count,
            final(self).ext_rcode == old(self).ext_rcode,
            final(self).edns_version == old(self).edns_version,
            final(self).ext_flags == old(self).ext_flags,
            final(self).max_payload == old(self).max_payload,
            final(self).wf(),
            old(self).edns_remaining() < n ==> r == Err::<usize, DSError>(
                DSError::PacketTooSmall,
            ) && final(self).offset == old(self).offset,
            old(self).edns_remaining() >= n ==> r == Ok::<usize, DSError>(old(self).offset)
                && final(self).offset == old(self).offset + n,
    {
        self.edns_ensure_remaining_len(n)?;
        if n == 0 {
            return Ok(self.offset);
        }
        let previous: usize = self.offset;
        self.offset = previous + n;
        Ok(previous)
    }

    fn edns_be16_load(&self, rr_offset: usize) -> (r: Result<u16, DSError>)
        requires
            self.wf(),
            rr_offset < 0x10000,
        ensures
            r == (if self.edns_remaining() < rr_offset + 2 {
                Err::<u16, DSError>(DSError::PacketTooSmall)
            } else {
                Ok::<u16, DSError>(be16(self.packet@, self.offset + rr_offset) as u16)
            }),
    {
        self.edns_ensure_remaining_len(rr_offset + 2)?;
        let offset: usize = self.offset + rr_offset;
        Ok(read_be16(self.packet.as_slice(), offset))
    }

    #[allow(dead_code)]
    fn edns_be32_load(&self, rr_offset: usize) -> (r: Result<u32, DSError>)
        requires
            self.wf(),
            rr_offset < 0x10000,
        ensures
            r == (if self.edns_remaining() < rr_offset + 4 {
                Err::<u32, DSError>(DSError::PacketTooSmall)
            } else {
                Ok::<u32, DSError>(be32(self.packet@, self.offset + rr_offset) as u32)
            }),
    {
        self.edns_ensure_remaining_len(rr_offset + 4)?;
        let offset: usize = self.offset + rr_offset;
        Ok(read_be32(self.packet.as_slice(), offset))
    }

    /// Returns the extended code of a record within the edns pseudo-section.
    #[allow(dead_code)]
    fn edns_rr_code(&self) -> (r: Result<u16, DSError>)
        requires
            self.wf(),
        ensures
            r == (if self.edns_remaining() < 2 {
                Err::<u16, DSError>(DSError::PacketTooSmall)
            } else {
                Ok::<u16, DSError>(be16(self.packet@, self.offset as int) as u16)
            }),
    {
        self.edns_be16_load(DNS_EDNS_RR_CODE_OFFSET)
    }

    /// Returns the record length of a record within the edns pseudo-section.
    pub fn edns_rr_rdlen(&self) -> (r: Result<usize, DSError>)
        requires
            self.wf(),
        ensures
            r == (if self.edns_remaining() < 4 {
                Err::<usize, DSError>(DSError::PacketTooSmall)
            } else {
                Ok::<usize, DSError>(be16(self.packet@, self.offset + 2) as usize)
            }),
    {
        match self.edns_be16_load(DNS_EDNS_RR_RDLEN_OFFSET) {
            Ok(x) => Ok(x as usize),
            Err(e) => Err(e),
        }
    }

    /// Skips over a record of the edns pseudo-section.
    fn edns_skip_rr(&mut self) -> (r: Result<(), DSError>)
        requires
            old(self).wf(),
        ensures
            final(self).packet == old(self).packet,
            final(self).edns_start == old(self).edns_start,
            final(self).edns_end == old(self).edns_end,
            final(self).edns_count == old(self).edns_count,
            final(self).ext_rcode == old(self).ext_rcode,
            final(self).edns_version == old(self).edns_version,
            final(self).ext_flags == old(self).ext_flags,
            final(self).max_payload == old(self).max_payload,
            final(self).wf(),
            r == (if old(self).edns_remaining() < DNS_EDNS_RR_HEADER_SIZE || old(self).edns_remaining() < DNS_EDNS_RR_HEADER_SIZE + be16(
                old(self).packet@,
                old(self).offset + 2,
            ) {
                Err::<(), DSError>(DSError::PacketTooSmall)
            } else {
                Ok::<(), DSError>(())
            }),
            r is Ok ==> final(self).offset == old(self).offset + DNS_EDNS_RR_HEADER_SIZE + be16(
                old(self).packet@,
                old(self).offset + 2,
            ),
    {
        let inc: usize = DNS_EDNS_RR_HEADER_SIZE + self.edns_rr_rdlen()?;
        self.edns_increment_offset(inc)?;
        Ok(())
    }

    /// Returns the maximum payload size for UDP packets, from an optional `OPT` record.
    fn opt_rr_max_payload(&self) -> (r: Result<usize, DSError>)
        requires
            self.wf(),
        ensures
            r == (if self.remaining() < 4 {
                Err::<usize, DSError>(DSError::PacketTooSmall)
            } else {
                Ok::<usize, DSError>(be16(self.packet@, self.offset + 2) as usize)
            }),
    {
        match self.be16_load(DNS_OPT_RR_MAX_PAYLOAD_OFFSET) {
            Ok(x) => Ok(x as usize),
            Err(e) => Err(e),
        }
    }

    /// Returns the extended return code, from an optional `OPT` record.
    fn opt_rr_ext_rcode(&self) -> (r: Result<u8, DSError>)
        requires
            self.wf(),
        ensures
            r == (if self.remaining() < 5 {
                Err::<u8, DSError>(DSError::PacketTooSmall)
            } else {
                Ok::<u8, DSError>(self.packet@[self.offset + 4])
            }),
    {
        self.u8_load(DNS_OPT_RR_EXT_RCODE_OFFSET)
    }

    /// Returns the edns version, from an optional `OPT` record.
    fn opt_rr_edns_version(&self) -> (r: Result<u8, DSError>)
        requires
            self.wf(),
        ensures
            r == (if self.remaining() < 6 {
                Err::<u8, DSError>(DSError::PacketTooSmall)
            } else {
                Ok::<u8, DSError>(self.packet@[self.offset + 5])
            }),
    {
        self.u8_load(DNS_OPT_RR_EDNS_VERSION_OFFSET)
    }

    /// Returns the edns extended flags, from an optional `OPT` record.
    fn opt_rr_edns_ext_flags(&self) -> (r: Result<u16, DSError>)
        requires
            self.wf(),
        ensures
            r == (if self.remaining() < 8 {
                Err::<u16, DSError>(DSError::PacketTooSmall)
            } else {
                Ok::<u16, DSError>(be16(self.packet@, self.offset + 6) as u16)
            }),
    {
        self.be16_load(DNS_OPT_RR_EDNS_EXT_FLAGS_OFFSET)
    }

    /// Returns the length of the data contained within an `OPT` record.
    fn opt_rr_rdlen(&self) -> (r: Result<usize, DSError>)
        requires
            self.wf(),
        ensures
            r == (if self.remaining() < 10 {
                Err::<usize, DSError>(DSError::PacketTooSmall)
            } else {
                Ok::<usize, DSError>(be16(self.packet@, self.offset + 8) as usize)
            }),
    {
        match self.be16_load(DNS_OPT_RR_RDLEN_OFFSET) {
            Ok(x) => Ok(x as usize),
            Err(e) => Err(e),
        }
    }

    /// Parses and validates an `OPT` section.
    fn parse_opt(&mut self) -> (r: Result<(), DSError>)
        requires
            old(self).wf(),
            old(self).remaining() >= DNS_OPT_RR_HEADER_SIZE,
        ensures
            final(self).packet == old(self).packet,
            match opt_scan(old(self).packet@, old(self).offset as int, old(self).edns_end is Some) {
                Err(e) => r == Err::<(), DSError>(e),
                Ok(rec) => {
                    &&& r == Ok::<(), DSError>(())
                    &&& final(self).wf()
                    &&& final(self).offset == rec.next
                    &&& final(self).edns_info() == rec.opt
                },
            },
    {
        if self.edns_end.is_some() {
            return Err(DSError::InvalidPacket("Only one OPT record is allowed"));
        }
        self.ext_rcode = Some(self.opt_rr_ext_rcode()?);
        self.edns_version = Some(self.opt_rr_edns_version()?);
        self.max_payload = self.opt_rr_max_payload()?;
        self.ext_flags = Some(self.opt_rr_edns_ext_flags()?);
        let edns_len: usize = self.opt_rr_rdlen()?;
        self.increment_offset(DNS_OPT_RR_HEADER_SIZE)?;
        self.edns_start = Some(self.offset);
        self.ensure_remaining_len(edns_len)?;
        let edns_end: usize = self.offset + edns_len;
        self.edns_end = Some(edns_end);
        self.edns_count = 0;
        let ghost start: int = self.offset as int;
        while self.edns_remaining_len() > 0
            invariant
                self.wf(),
                self.packet == old(self).packet,
                self.edns_end == Some(edns_end),
                self.edns_start is Some,
                self.edns_start->Some_0 == start,
                old(self).edns_end is None,
                start == old(self).offset + DNS_OPT_RR_HEADER_SIZE,
                edns_end == start + be16(old(self).packet@, old(self).offset + 8),
                start <= self.offset <= edns_end,
                edns_end - start <= 0xffff,
                self.edns_count * 4 <= self.offset - start,
                self.ext_rcode == Some(old(self).packet@[old(self).offset + 4]),
                self.edns_version == Some(old(self).packet@[old(self).offset + 5]),
                self.ext_flags == Some(be16(old(self).packet@, old(self).offset + 6) as u16),
                self.max_payload == be16(old(self).packet@, old(self).offset + 2),
                options_scan(self.packet@, start, edns_end as int, 0) == options_scan(
                    self.packet@,
                    self.offset as int,
                    edns_end as int,
                    self.edns_count as int,
                ),
            decreases edns_end - self.offset,
        {
            self.edns_skip_rr()?;
            self.edns_count += 1;
        }
        Ok(())
    }

    /// Checks that an untrusted encoded DNS name is valid and does not contain any indirections.
    /// Returns the location right after the name.
    pub fn check_uncompressed_name(packet: &[u8], offset: usize) -> (r: Result<usize, DSError>)
        ensures
            match check_plain(packet@, offset as int) {
                Ok(end) => r is Ok && r->Ok_0 == end && offset < end <= packet@.len(),
                Err(e) => r == Err::<usize, DSError>(e),
            },
    {
        let packet_len: usize = packet.len();
        let mut pos: usize = offset;
        let mut name_len: usize = 0;
        if offset >= packet_len {
            return Err(DSError::InternalError("Offset outside packet boundaries"));
        }
        loop
            invariant_except_break
                check_plain(packet@, offset as int) == walk_plain(
                    packet@,
                    pos as int,
                    name_len as int,
                ),
            invariant
                packet_len == packet@.len(),
                offset < packet_len,
                offset <= pos,
                name_len <= DNS_MAX_HOSTNAME_LEN,
            ensures
                offset < pos <= packet_len,
                check_plain(packet@, offset as int) == Ok::<int, DSError>(pos as int),
            decreases packet_len - pos,
        {
            if pos >= packet_len {
                return Err(DSError::InvalidName("Truncated name"));
            }
            let len: u8 = packet[pos];
            if len >= 0xc0 {
                return Err(DSError::InvalidName("Unexpected compression"));
            }
            if len > 0x3f {
                return Err(DSError::InvalidName("Label length too long"));
            }
            let label_len: usize = len as usize;
            if label_len >= packet_len - pos {
                return Err(DSError::InvalidName("Out-of-bounds name"));
            }
            name_len += label_len + 1;
            if name_len > DNS_MAX_HOSTNAME_LEN {
                return Err(DSError::InvalidName("Name too long"));
            }
            pos += label_len + 1;
            if label_len == 0 {
                break ;
            }
        }
        Ok(pos)
    }
}

/// A message that is accepted as one that a peer may send is accepted as a
/// message under construction too, with the same sections.
pub proof fn lemma_strict_scan(b: Seq<u8>)
    ensures
        message_scan(b, true) matches Ok(s) ==> message_scan(b, false) == Ok::<Sections, DSError>(
            s,
        ),
{
}

/// `count` records of `section` stand in `b` one after another, the first
/// at `offset`, and the last ends at `end`.
pub open spec fn records_at(b: Seq<u8>, offset: int, count: int, section: Section, end: int) -> bool
    decreases count,
{
    if count <= 0 {
        offset == end
    } else {
        &&& rr_scan(b, offset, section, false) is Ok
        &&& records_at(b, rr_scan(b, offset, section, false)->Ok_0.next, count - 1, section, end)
    }
}

/// `count` options stand in `b` one after another, the first at `offset`,
/// and the last ends at `end`.
pub open spec fn options_at(b: Seq<u8>, offset: int, count: int, end: int) -> bool {
    &&& offset <= end
    &&& options_scan(b, offset, end, 0) == Ok::<int, DSError>(count)
}

/// The offset right after the question section of `b`.
pub open spec fn questions_end(b: Seq<u8>) -> int {
    if qd_count(b) > 0 {
        question_scan(b, DNS_QUESTION_OFFSET as int, false)->Ok_0
    } else {
        DNS_QUESTION_OFFSET as int
    }
}

/// The scan of `b` after its answer section.
pub open spec fn answers_scan(b: Seq<u8>) -> Scan {
    section_scan(
        b,
        Scan { offset: questions_end(b), edns: None },
        an_count(b),
        Section::Answer,
    )->Ok_0
}

/// The scan of `b` after its name server section.
pub open spec fn nameservers_scan(b: Seq<u8>) -> Scan {
    section_scan(b, answers_scan(b), ns_count(b), Section::NameServers)->Ok_0
}

/// The scan of `b` after its additional section.
pub open spec fn additional_scan(b: Seq<u8>) -> Scan {
    section_scan(b, nameservers_scan(b), ar_count(b), Section::Additional)->Ok_0
}

/// Where `section` starts in the well-formed message `b`.
pub open spec fn section_start(b: Seq<u8>, section: Section) -> int {
    match section {
        Section::Question => DNS_QUESTION_OFFSET as int,
        Section::Answer => questions_end(b),
        Section::NameServers => answers_scan(b).offset,
        Section::Additional => nameservers_scan(b).offset,
        Section::Edns => additional_scan(b).edns->Some_0.start,
    }
}

/// Where `section` ends in the well-formed message `b`.
pub open spec fn section_end(b: Seq<u8>, section: Section) -> int {
    match section {
        Section::Question => questions_end(b),
        Section::Answer => answers_scan(b).offset,
        Section::NameServers => nameservers_scan(b).offset,
        Section::Additional => b.len() as int,
        Section::Edns => additional_scan(b).edns->Some_0.end,
    }
}

/// The number of records of `section` in the well-formed message `b`.
pub open spec fn section_count(b: Seq<u8>, section: Section) -> int {
    match section {
        Section::Question => qd_count(b),
        Section::Answer => an_count(b),
        Section::NameServers => ns_count(b),
        Section::Additional => ar_count(b),
        Section::Edns => match additional_scan(b).edns {
            Some(e) => e.count,
            None => 0,
        },
    }
}

/// A record that is accepted after an OPT record is accepted before one too.
pub proof fn lemma_rr_scan_seen(b: Seq<u8>, offset: int, section: Section)
    ensures
        rr_scan(b, offset, section, true) matches Ok(r) ==> rr_scan(b, offset, section, false)
            == Ok::<RRScan, DSError>(r),
{
    reveal(rdata_scan);
}

/// The shape of a record that is accepted: its name is a valid name, its
/// fixed header and its data lie inside the buffer, and the record ends
/// where the length of its data says.
pub proof fn lemma_rr_shape(b: Seq<u8>, offset: int, section: Section)
    requires
        0 <= offset,
        rr_scan(b, offset, section, false) is Ok,
    ensures
        walk_name(b, offset) is Ok,
        offset < name_at(b, offset).end,
        name_at(b, offset).end + DNS_RR_HEADER_SIZE <= rr_scan(b, offset, section, false)->Ok_0.next
            <= b.len(),
        rr_scan(b, offset, section, false)->Ok_0.next == name_at(b, offset).end
            + DNS_RR_HEADER_SIZE + be16(b, name_at(b, offset).end + 8),
{
    reveal(rdata_scan);
    crate::compress::lemma_walk_from_ok(
        b,
        offset,
        b.len() as int,
        offset,
        crate::constants::DNS_MAX_HOSTNAME_INDIRECTIONS as int,
        0,
    );
    let p = name_at(b, offset).end;
    let d = p + DNS_RR_HEADER_SIZE;
    let rr_type = be16(b, p);
    if rr_type == Type::NS.code() || rr_type == Type::CNAME.code() || rr_type == Type::PTR.code()
        || rr_type == Type::SOA.code() {
        crate::compress::lemma_walk_from_ok(
            b,
            d,
            b.len() as int,
            d,
            crate::constants::DNS_MAX_HOSTNAME_INDIRECTIONS as int,
            0,
        );
    } else if rr_type == Type::MX.code() {
        crate::compress::lemma_walk_from_ok(
            b,
            d + 2,
            b.len() as int,
            d + 2,
            crate::constants::DNS_MAX_HOSTNAME_INDIRECTIONS as int,
            0,
        );
    } else if rr_type == Type::DNAME.code() {
        crate::compress::lemma_walk_plain_end(b, d, 0);
    }
}

/// The records that a scan of a section accepts stand one after another.
pub proof fn lemma_section_records(b: Seq<u8>, st: Scan, count: int, section: Section)
    requires
        section_scan(b, st, count, section) is Ok,
    ensures
        records_at(b, st.offset, count, section, section_scan(b, st, count, section)->Ok_0.offset),
    decreases count,
{
    if count > 0 {
        lemma_rr_scan_seen(b, st.offset, section);
        let r = rr_scan(b, st.offset, section, st.edns is Some)->Ok_0;
        lemma_section_records(
            b,
            Scan {
                offset: r.next,
                edns: if r.opt is Some {
                    r.opt
                } else {
                    st.edns
                },
            },
            count - 1,
            section,
        );
    }
}

/// Records that stand one after another do so in ascending order, inside the buffer.
pub proof fn lemma_records_bounds(b: Seq<u8>, offset: int, count: int, section: Section, end: int)
    requires
        0 <= offset <= b.len(),
        records_at(b, offset, count, section, end),
    ensures
        offset <= end <= b.len(),
        count > 0 ==> offset < end,
    decreases count,
{
    if count > 0 {
        lemma_rr_shape(b, offset, section);
        lemma_records_bounds(
            b,
            rr_scan(b, offset, section, false)->Ok_0.next,
            count - 1,
            section,
            end,
        );
    }
}

/// The shape of a question that is accepted.
pub proof fn lemma_question_shape(b: Seq<u8>, offset: int, strict: bool)
    requires
        0 <= offset,
        question_scan(b, offset, strict) is Ok,
    ensures
        walk_name(b, offset) is Ok,
        offset < name_at(b, offset).end,
        question_scan(b, offset, strict)->Ok_0 == name_at(b, offset).end
            + DNS_RR_QUESTION_HEADER_SIZE,
        question_scan(b, offset, strict)->Ok_0 <= b.len(),
{
    crate::compress::lemma_walk_from_ok(
        b,
        offset,
        b.len() as int,
        offset,
        crate::constants::DNS_MAX_HOSTNAME_INDIRECTIONS as int,
        0,
    );
}

/// The layout of a well-formed message: its sections follow each other in
/// the order question, answers, name servers, additional records, each
/// holds as many records as the header announces, the last one ends with
/// the buffer, and a section has an offset if and only if it is not empty.
pub proof fn lemma_layout(b: Seq<u8>)
    requires
        message_scan(b, false) is Ok,
    ensures
        qd_count(b) <= 1,
        qd_count(b) == 1 ==> question_scan(b, DNS_QUESTION_OFFSET as int, false) is Ok,
        DNS_QUESTION_OFFSET <= questions_end(b) <= answers_scan(b).offset <= nameservers_scan(b).offset <= b.len(),
        qd_count(b) > 0 ==> DNS_QUESTION_OFFSET < questions_end(b),
        an_count(b) > 0 ==> questions_end(b) < answers_scan(b).offset,
        ns_count(b) > 0 ==> answers_scan(b).offset < nameservers_scan(b).offset,
        ar_count(b) > 0 ==> nameservers_scan(b).offset < b.len(),
        records_at(b, questions_end(b), an_count(b), Section::Answer, answers_scan(b).offset),
        records_at(
            b,
            answers_scan(b).offset,
            ns_count(b),
            Section::NameServers,
            nameservers_scan(b).offset,
        ),
        records_at(
            b,
            nameservers_scan(b).offset,
            ar_count(b),
            Section::Additional,
            b.len() as int,
        ),
        message_scan(b, false)->Ok_0 == (Sections {
            question: section_offset(qd_count(b), DNS_QUESTION_OFFSET as int),
            answers: section_offset(an_count(b), questions_end(b)),
            nameservers: section_offset(ns_count(b), answers_scan(b).offset),
            additional: section_offset(ar_count(b), nameservers_scan(b).offset),
            edns: additional_scan(b).edns,
        }),
{
    let q = Scan { offset: questions_end(b), edns: None };
    if qd_count(b) > 0 {
        lemma_question_shape(b, DNS_QUESTION_OFFSET as int, false);
    }
    lemma_section_records(b, q, an_count(b), Section::Answer);
    lemma_section_records(b, answers_scan(b), ns_count(b), Section::NameServers);
    lemma_section_records(b, nameservers_scan(b), ar_count(b), Section::Additional);
    lemma_records_bounds(b, questions_end(b), an_count(b), Section::Answer, answers_scan(b).offset);
    lemma_records_bounds(
        b,
        answers_scan(b).offset,
        ns_count(b),
        Section::NameServers,
        nameservers_scan(b).offset,
    );
    lemma_records_bounds(
        b,
        nameservers_scan(b).offset,
        ar_count(b),
        Section::Additional,
        b.len() as int,
    );
}

/// What holds of the OPT record of a well-formed message: its options lie
/// inside the buffer, behind its fixed header, and stand one after another.
pub open spec fn edns_ok(b: Seq<u8>, e: EdnsInfo) -> bool {
    &&& DNS_HEADER_SIZE + 1 + DNS_RR_HEADER_SIZE <= e.start <= e.end <= b.len()
    &&& e.end - e.start <= 0xffff
    &&& options_at(b, e.start, e.count, e.end)
    &&& 0 <= e.count <= 0xffff
}

/// The count that a scan of options starts with is added to what it finds.
pub proof fn lemma_options_shift(b: Seq<u8>, offset: int, end: int, c1: int, c2: int)
    requires
        options_scan(b, offset, end, c1) is Ok,
    ensures
        options_scan(b, offset, end, c2) == Ok::<int, DSError>(
            options_scan(b, offset, end, c1)->Ok_0 - c1 + c2,
        ),
    decreases end - offset,
{
    if end - offset > 0 {
        let next = offset + DNS_EDNS_RR_HEADER_SIZE + be16(b, offset + 2);
        lemma_options_shift(b, next, end, c1 + 1, c2 + 1);
    }
}

/// The number of options in an option area is at most a quarter of its length.
pub proof fn lemma_options_count(b: Seq<u8>, offset: int, end: int, count: int)
    requires
        options_scan(b, offset, end, count) is Ok,
        offset <= end,
    ensures
        count <= options_scan(b, offset, end, count)->Ok_0,
        (options_scan(b, offset, end, count)->Ok_0 - count) * 4 <= end - offset,
    decreases end - offset,
{
    if end - offset > 0 {
        let next = offset + DNS_EDNS_RR_HEADER_SIZE + be16(b, offset + 2);
        lemma_options_count(b, next, end, count + 1);
    }
}

/// The OPT record that a scan of a section has found is well formed.
pub proof fn lemma_section_edns(b: Seq<u8>, st: Scan, count: int, section: Section)
    requires
        DNS_HEADER_SIZE <= st.offset,
        st.edns matches Some(e) ==> edns_ok(b, e),
        section_scan(b, st, count, section) is Ok,
    ensures
        section_scan(b, st, count, section)->Ok_0.edns matches Some(e) ==> edns_ok(b, e),
        st.edns is Some ==> section_scan(b, st, count, section)->Ok_0.edns == st.edns,
        section != Section::Additional ==> section_scan(b, st, count, section)->Ok_0.edns
            == st.edns,
    decreases count,
{
    reveal(rdata_scan);
    if count > 0 {
        lemma_rr_scan_seen(b, st.offset, section);
        lemma_rr_shape(b, st.offset, section);
        let r = rr_scan(b, st.offset, section, st.edns is Some)->Ok_0;
        if r.opt is Some {
            let e = r.opt->Some_0;
            lemma_options_count(b, e.start, e.end, 0);
        }
        lemma_section_edns(
            b,
            Scan {
                offset: r.next,
                edns: if r.opt is Some {
                    r.opt
                } else {
                    st.edns
                },
            },
            count - 1,
            section,
        );
    }
}

/// The OPT record of a well-formed message is well formed.
pub proof fn lemma_layout_edns(b: Seq<u8>)
    requires
        message_scan(b, false) is Ok,
    ensures
        message_scan(b, false)->Ok_0.edns matches Some(e) ==> edns_ok(b, e),
        answers_scan(b).edns is None,
        nameservers_scan(b).edns is None,
{
    lemma_layout(b);
    let q = Scan { offset: questions_end(b), edns: None };
    lemma_section_edns(b, q, an_count(b), Section::Answer);
    lemma_section_edns(b, answers_scan(b), ns_count(b), Section::NameServers);
    lemma_section_edns(b, nameservers_scan(b), ar_count(b), Section::Additional);
}

/// An address record that is accepted holds an address: four bytes for
/// the type A, sixteen for the type AAAA.
pub proof fn lemma_address_rdata(b: Seq<u8>, offset: int, section: Section)
    requires
        0 <= offset,
        rr_scan(b, offset, section, false) is Ok,
    ensures
        be16(b, name_at(b, offset).end) == Type::A.code() ==> be16(b, name_at(b, offset).end + 8)
            == 4,
        be16(b, name_at(b, offset).end) == Type::AAAA.code() ==> be16(
            b,
            name_at(b, offset).end + 8,
        ) == 16,
{
    reveal(rdata_scan);
}


/// The OPT record that a scan of a section has found lies behind the
/// offset at which the scan started.
pub proof fn lemma_section_edns_start(b: Seq<u8>, st: Scan, count: int, section: Section)
    requires
        DNS_HEADER_SIZE <= st.offset,
        st.edns is None,
        section_scan(b, st, count, section) is Ok,
    ensures
        section_scan(b, st, count, section)->Ok_0.edns matches Some(e) ==> count > 0 && st.offset
            + 1 + DNS_RR_HEADER_SIZE <= e.start,
    decreases count,
{
    reveal(rdata_scan);
    if count > 0 {
        lemma_rr_shape_seen(b, st.offset, section, false);
        let r = rr_scan(b, st.offset, section, false)->Ok_0;
        let next = Scan {
            offset: r.next,
            edns: if r.opt is Some {
                r.opt
            } else {
                st.edns
            },
        };
        if r.opt is Some {
            lemma_rr_shape(b, st.offset, section);
            lemma_section_edns_kept(b, next, count - 1, section);
        } else {
            lemma_section_edns_start(b, next, count - 1, section);
        }
    }
}

/// An OPT record that was found before a scan of a section is the one
/// that the scan ends with.
pub proof fn lemma_section_edns_kept(b: Seq<u8>, st: Scan, count: int, section: Section)
    requires
        st.edns is Some,
        section_scan(b, st, count, section) is Ok,
    ensures
        section_scan(b, st, count, section)->Ok_0.edns == st.edns,
    decreases count,
{
    reveal(rdata_scan);
    if count > 0 {
        let r = rr_scan(b, st.offset, section, true)->Ok_0;
        lemma_section_edns_kept(b, Scan { offset: r.next, edns: st.edns }, count - 1, section);
    }
}

/// The shape of a record that is accepted, behind an OPT record or not.
pub proof fn lemma_rr_shape_seen(b: Seq<u8>, offset: int, section: Section, opt_seen: bool)
    requires
        0 <= offset,
        rr_scan(b, offset, section, opt_seen) is Ok,
    ensures
        offset < rr_scan(b, offset, section, opt_seen)->Ok_0.next,
{
    lemma_rr_scan_seen(b, offset, section);
    lemma_rr_shape(b, offset, section);
}

/// The options of the OPT record of a well-formed message lie in its
/// additional section.
pub proof fn lemma_edns_in_additional(b: Seq<u8>)
    requires
        message_scan(b, false) is Ok,
    ensures
        message_scan(b, false)->Ok_0.edns matches Some(e) ==> ar_count(b) > 0 && nameservers_scan(b).offset + 1 + DNS_RR_HEADER_SIZE <= e.start,
{
    lemma_layout(b);
    lemma_layout_edns(b);
    lemma_section_edns_start(b, nameservers_scan(b), ar_count(b), Section::Additional);
}

} // verus!
