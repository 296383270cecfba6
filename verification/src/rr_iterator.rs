//! The cursor over the records of one section of a parsed packet.

use crate::compress::name_at;
use crate::compress::presentation;
use crate::compress::walk_name;
use crate::compress::Compress;
use crate::constants::Section;
use crate::constants::Type;
use crate::constants::DNS_EDNS_RR_HEADER_SIZE;
use crate::constants::DNS_EDNS_RR_RDLEN_OFFSET;
use crate::constants::DNS_HEADER_SIZE;
use crate::constants::DNS_MAX_HOSTNAME_LEN;
use crate::constants::DNS_RR_CLASS_OFFSET;
use crate::constants::DNS_RR_HEADER_SIZE;
use crate::constants::DNS_RR_QUESTION_HEADER_SIZE;
use crate::constants::DNS_RR_RDLEN_OFFSET;
use crate::constants::DNS_RR_TTL_OFFSET;
use crate::constants::DNS_RR_TYPE_OFFSET;
use crate::compress::check_plain;
use crate::compress::moved_offset;
use crate::compress::uncompressed;
use crate::constants::DNS_MAX_UNCOMPRESSED_SIZE;
use crate::dns_sector::lemma_section_records;
use crate::dns_sector::message_scan;
use crate::dns_sector::section_scan;
use crate::dns_sector::Scan;
use crate::parsed_packet::count_offset;
use crate::wire::put_be16;
use crate::wire::put_be32;
use crate::wire::write_be32;
use crate::dns_sector::lemma_layout;
use crate::dns_sector::lemma_layout_edns;
use crate::dns_sector::lemma_options_shift;
use crate::dns_sector::lemma_question_shape;
use crate::dns_sector::lemma_records_bounds;
use crate::dns_sector::lemma_rr_shape;
use crate::dns_sector::options_at;
use crate::dns_sector::question_scan;
use crate::dns_sector::questions_end;
use crate::dns_sector::records_at;
use crate::dns_sector::rr_scan;
use crate::dns_sector::section_count;
use crate::dns_sector::section_end;
use crate::dns_sector::section_start;
use crate::dns_sector::DNSSector;
use crate::errors::DSError;
use crate::parsed_packet::ParsedPacket;
use crate::plain::is_plain;
use crate::plain::record_at;
use crate::plain::section_state;
use crate::wire::be16;
use crate::wire::be32;
use crate::wire::extend_from_range;
use crate::wire::read_be16;
use crate::wire::read_be32;
use vstd::prelude::*;

verus! {

/// Accessor to the raw packet data.
/// `offset` is the offset to the current RR.
/// `name_end` is the offset to the data right after the name.
#[derive(Copy, Clone, Debug)]
pub struct RRRaw<'t> {
    pub packet: &'t [u8],
    pub offset: usize,
    pub name_end: usize,
}

/// Mutable accessor to the raw packet data.
/// `offset` is the offset to the current RR.
/// `name_end` is the offset to the data right after the name.
pub struct RRRawMut<'t> {
    pub packet: &'t mut [u8],
    pub offset: usize,
    pub name_end: usize,
}

/// An address, as the bytes that a record holds.
#[derive(Copy, Clone, Debug, PartialEq, Eq)]
pub enum IpAddr {
    /// An IPv4 address.
    V4([u8; 4]),
    /// An IPv6 address.
    V6([u8; 16]),
}

/// The text that the data of a TXT record holds: its chunks, each with its
/// length in front, one behind the other. `None` where a chunk runs past
/// the end of the data.
pub open spec fn txt_text(rdata: Seq<u8>) -> Option<Seq<u8>>
    decreases rdata.len(),
{
    if rdata.len() == 0 {
        Some(Seq::<u8>::empty())
    } else if 1 + rdata[0] > rdata.len() {
        None
    } else {
        match txt_text(rdata.subrange(1 + rdata[0], rdata.len() as int)) {
            Some(rest) => Some(rdata.subrange(1, 1 + rdata[0]) + rest),
            None => None,
        }
    }
}

/// The bytes of an address.
pub open spec fn ip_bytes(ip: IpAddr) -> Seq<u8> {
    match ip {
        IpAddr::V4(a) => a@,
        IpAddr::V6(a) => a@,
    }
}

/// Whether `at` is where the records of `section` that stand before the
/// last `count` end in the well-formed message `b`: the start of the
/// question for a question, and for records where the scan of as many
/// records as stand before comes to.
pub open spec fn reached(b: Seq<u8>, section: Section, at: int, count: int) -> bool {
    match section {
        Section::Question => count == 1 ==> at == DNS_HEADER_SIZE,
        Section::Edns => true,
        _ => section_scan(
            b,
            section_state(b, section),
            section_count(b, section) - count,
            section,
        ) is Ok && record_at(b, section_state(b, section), section_count(b, section) - count, section)
            == at,
    }
}

/// The records of a section lead from its start to its start, if none is
/// counted, and from one record to the next.
pub proof fn lemma_reached(b: Seq<u8>, section: Section, at: int, count: int)
    requires
        message_scan(b, false) is Ok,
        is_response_section(section),
    ensures
        reached(b, section, section_start(b, section), section_count(b, section)),
        reached(b, section, at, count) && 1 <= count <= section_count(b, section) ==> reached(
            b,
            section,
            record_next(b, section, at),
            count - 1,
        ),
{
    lemma_layout(b);
    let st = section_state(b, section);
    let total = section_count(b, section);
    assert(section_scan(b, st, 0, section) == Ok::<Scan, DSError>(st));
    assert(section_scan(b, st, total, section) is Ok);
    if reached(b, section, at, count) && 1 <= count <= total {
        let k = total - count;
        crate::plain::lemma_section_split(b, st, k + 1, count - 1, section);
        crate::plain::lemma_section_split(b, st, k, 1, section);
        let m = section_scan(b, st, k, section)->Ok_0;
        assert(m.offset == at);
        crate::dns_sector::lemma_rr_scan_seen(b, at, section);
        lemma_rr_shape(b, at, section);
        let after = crate::plain::scan_after(m, b, section);
        assert(section_scan(b, after, 0, section) == Ok::<Scan, DSError>(after));
        assert(section_scan(b, m, 1, section) == Ok::<Scan, DSError>(after));
        assert(after.offset == record_next(b, section, at));
    }
}

/// Whether an iterator over `section` can stand at `at` in the well-formed
/// message `b` with `count` records from there on: `at` lies in the
/// section, the records of the section before the last `count` end
/// there, and from `at` on `count` records of the section are accepted
/// one after another, the last of which ends where the section ends. No
/// iterator over the options of an OPT record is put anywhere.
pub open spec fn stands(b: Seq<u8>, section: Section, at: int, count: int) -> bool {
    &&& section_start(b, section) <= at
    &&& 0 <= count <= section_count(b, section)
    &&& reached(b, section, at, count)
    &&& match section {
        Section::Question => if count == 0 {
            at == questions_end(b)
        } else {
            count == 1 && question_scan(b, at, false) == Ok::<int, DSError>(questions_end(b))
        },
        Section::Edns => false,
        _ => section_scan(b, Scan { offset: at, edns: None }, count, section) is Ok
            && section_scan(b, Scan { offset: at, edns: None }, count, section)->Ok_0.offset
            == section_end(b, section),
    }
}

/// `b` with `gap` zero bytes put in at `offset`.
pub open spec fn grown(b: Seq<u8>, offset: int, gap: int) -> Seq<u8> {
    b.subrange(0, offset) + Seq::new(gap as nat, |i: int| 0u8) + b.subrange(
        offset,
        b.len() as int,
    )
}

/// `b` without the `gap` bytes from `offset` on.
pub open spec fn shrunk(b: Seq<u8>, offset: int, gap: int) -> Seq<u8> {
    b.subrange(0, offset) + b.subrange(offset + gap, b.len() as int)
}

/// `b` with the bytes from `offset` on replaced by `bytes`.
pub open spec fn overwritten(b: Seq<u8>, offset: int, bytes: Seq<u8>) -> Seq<u8> {
    b.subrange(0, offset) + bytes + b.subrange(offset + bytes.len(), b.len() as int)
}

/// What an edit through an iterator starts from: the bytes of the packet
/// and the offset of the iterator in them. A packet that may be compressed
/// is written without compression first, and the offset is moved to where
/// its record then stands; `None` where no record stands at the offset.
pub open spec fn edit_base(b: Seq<u8>, maybe_compressed: bool, at: int) -> Option<(Seq<u8>, int)> {
    if maybe_compressed {
        match moved_offset(b, at) {
            Some(moved) => Some((uncompressed(b), moved)),
            None => None,
        }
    } else {
        Some((b, at))
    }
}

/// Whether `section` holds resource records: a name, a fixed header of ten
/// bytes and data.
pub open spec fn is_response_section(section: Section) -> bool {
    section == Section::Answer || section == Section::NameServers || section
        == Section::Additional
}

/// The offset right after the name of the record of `section` at `o`. An
/// EDNS option has no name.
pub open spec fn record_name_end(b: Seq<u8>, section: Section, o: int) -> int {
    match section {
        Section::Edns => o,
        _ => name_at(b, o).end,
    }
}

/// The offset right after the record of `section` at `o`.
pub open spec fn record_next(b: Seq<u8>, section: Section, o: int) -> int {
    match section {
        Section::Question => name_at(b, o).end + DNS_RR_QUESTION_HEADER_SIZE,
        Section::Edns => o + DNS_EDNS_RR_HEADER_SIZE + be16(b, o + 2),
        _ => name_at(b, o).end + DNS_RR_HEADER_SIZE + be16(b, name_at(b, o).end + 8),
    }
}

/// `count` records of `section` stand in the well-formed message `b` one
/// after another, the first at `o`, and the last ends where the section ends.
pub open spec fn chain(b: Seq<u8>, section: Section, o: int, count: int) -> bool {
    match section {
        Section::Question => if count == 1 {
            question_scan(b, o, false) == Ok::<int, DSError>(questions_end(b))
        } else {
            count == 0 && o == questions_end(b)
        },
        Section::Edns => options_at(b, o, count, section_end(b, section)),
        _ => records_at(b, o, count, section, section_end(b, section)),
    }
}

/// An `RRIterator` structure is a generic way to iterate over the records
/// of a pre-parsed DNS packet. The packet has been validated, and the
/// invariant of the iterator says where it stands among the records, so the
/// functions provided here read the records without checks.
#[derive(Debug)]
pub struct RRIterator<'t> {
    pub parsed_packet: &'t mut ParsedPacket,
    pub section: Section,
    pub offset: Option<usize>,
    pub offset_next: usize,
    pub name_end: usize,
    pub rrs_left: u16,
}

impl<'t> RRIterator<'t> {
    /// The packet that the iterator borrows, as it is now.
    pub open spec fn pp(&self) -> ParsedPacket {
        *self.parsed_packet
    }

    /// The bytes of the packet that the iterator borrows.
    pub open spec fn bytes(&self) -> Seq<u8> {
        self.pp().bytes()
    }

    /// Whether the iterator has not been advanced yet.
    pub open spec fn unstarted(&self) -> bool {
        self.offset is None && self.offset_next == 0
    }

    /// Whether the iterator stands on a record.
    pub open spec fn live(&self) -> bool {
        self.offset is Some
    }

    /// The offset of the record that the iterator stands on.
    pub open spec fn at(&self) -> int {
        self.offset->Some_0 as int
    }

    /// Where the next record starts, and how many records are left from there on.
    pub open spec fn pending(&self) -> (int, int) {
        if self.unstarted() {
            (section_start(self.bytes(), self.section), section_count(self.bytes(), self.section))
        } else {
            (self.offset_next as int, self.rrs_left as int)
        }
    }

    /// The invariant of an iterator: the packet is well formed; an iterator
    /// on a record stands at the start of a record of its section, which
    /// the records before it lead to, knows where the name of that record
    /// and the record itself end, and as many records follow as it counts;
    /// an iterator whose record was deleted stands where the next record
    /// starts.
    pub open spec fn inv(&self) -> bool {
        &&& self.pp().wf()
        &&& match self.offset {
            Some(o) => {
                &&& section_start(self.bytes(), self.section) <= o
                &&& chain(self.bytes(), self.section, o as int, self.rrs_left + 1)
                &&& reached(self.bytes(), self.section, o as int, self.rrs_left + 1)
                &&& self.rrs_left < section_count(self.bytes(), self.section)
                &&& self.name_end == record_name_end(self.bytes(), self.section, o as int)
                &&& self.offset_next == record_next(self.bytes(), self.section, o as int)
            },
            None => self.offset_next != 0 ==> {
                &&& section_start(self.bytes(), self.section) <= self.offset_next
                &&& chain(self.bytes(), self.section, self.offset_next as int, self.rrs_left as int)
                &&& reached(
                    self.bytes(),
                    self.section,
                    self.offset_next as int,
                    self.rrs_left as int,
                )
                &&& self.rrs_left <= section_count(self.bytes(), self.section)
            },
        }
    }

    /// Whether the iterator and its packet are what `other` and its packet are.
    pub open spec fn same_as(&self, other: &RRIterator) -> bool {
        &&& self.pp() == other.pp()
        &&& self.section == other.section
        &&& self.offset == other.offset
        &&& self.offset_next == other.offset_next
        &&& self.name_end == other.name_end
        &&& self.rrs_left == other.rrs_left
    }

    /// What an iterator on a record knows of the buffer: the record lies
    /// inside the buffer, its name is a valid name, and its fixed header
    /// follows its name.
    pub proof fn lemma_live(&self)
        requires
            self.inv(),
            self.live(),
        ensures
            DNS_HEADER_SIZE <= self.at() <= self.name_end <= self.offset_next <= self.bytes().len(),
            self.offset_next <= section_end(self.bytes(), self.section) <= self.bytes().len(),
            self.at() < self.offset_next,
            self.section != Section::Edns ==> walk_name(self.bytes(), self.at()) is Ok
                && self.at() < self.name_end,
            self.section == Section::Question ==> self.offset_next == self.name_end
                + DNS_RR_QUESTION_HEADER_SIZE,
            is_response_section(self.section) ==> rr_scan(
                self.bytes(),
                self.at(),
                self.section,
                false,
            ) is Ok && self.offset_next == self.name_end + DNS_RR_HEADER_SIZE + be16(
                self.bytes(),
                self.name_end + 8,
            ),
            self.section == Section::Edns ==> self.offset_next == self.at()
                + DNS_EDNS_RR_HEADER_SIZE + be16(self.bytes(), self.at() + 2),
            chain(self.bytes(), self.section, self.offset_next as int, self.rrs_left as int),
    {
        let b = self.bytes();
        lemma_layout(b);
        lemma_layout_edns(b);
        match self.section {
            Section::Question => {
                lemma_question_shape(b, self.at(), false);
            },
            Section::Edns => {
                let end = section_end(b, self.section);
                lemma_options_shift(
                    b,
                    self.at() + DNS_EDNS_RR_HEADER_SIZE + be16(b, self.at() + 2),
                    end,
                    1,
                    0,
                );
            },
            _ => {
                lemma_rr_shape(b, self.at(), self.section);
                lemma_records_bounds(
                    b,
                    self.offset_next as int,
                    self.rrs_left as int,
                    self.section,
                    section_end(b, self.section),
                );
            },
        }
    }

    /// Creates a new iterator over a pre-parsed packet, for the given `section`.
    pub fn new(parsed_packet: &'t mut ParsedPacket, section: Section) -> (r: Self)
        ensures
            r.pp() == *old(parsed_packet),
            *final(r.parsed_packet) == *final(parsed_packet),
            r.section == section,
            r.offset is None,
            r.offset_next == 0,
            r.name_end == 0,
            r.rrs_left == 0,
    {
        RRIterator { parsed_packet, section, offset: None, offset_next: 0, name_end: 0, rrs_left: 0 }
    }

    /// Quickly skips over a DNS name, without validation/decompression.
    /// Returns the location right after the name.
    pub fn skip_name(packet: &[u8], offset: usize) -> (r: usize)
        requires
            walk_name(packet@, offset as int) is Ok,
        ensures
            r == name_at(packet@, offset as int).end,
            offset < r <= packet@.len(),
    {
        match Compress::check_compressed_name(packet, offset) {
            Ok(end) => end,
            Err(_) => offset,
        }
    }

    fn rr_rdlen_at(packet: &[u8], offset: usize) -> (r: usize)
        requires
            offset + DNS_RR_HEADER_SIZE <= packet.len(),
        ensures
            r == be16(packet@, offset + 8),
    {
        read_be16(packet, offset + DNS_RR_RDLEN_OFFSET) as usize
    }

    /// The offset right after the data of the record whose fixed header starts at `offset`.
    pub fn skip_rdata(packet: &[u8], offset: usize) -> (r: usize)
        requires
            offset + DNS_RR_HEADER_SIZE + be16(packet@, offset + 8) <= packet.len(),
        ensures
            r == offset + DNS_RR_HEADER_SIZE + be16(packet@, offset + 8),
    {
        offset + DNS_RR_HEADER_SIZE + Self::rr_rdlen_at(packet, offset)
    }

    /// The offset right after the record that starts at `offset`.
    pub fn skip_rr(packet: &[u8], offset: usize) -> (r: usize)
        requires
            walk_name(packet@, offset as int) is Ok,
            name_at(packet@, offset as int).end + DNS_RR_HEADER_SIZE + be16(
                packet@,
                name_at(packet@, offset as int).end + 8,
            ) <= packet.len(),
        ensures
            r == record_next(packet@, Section::Answer, offset as int),
    {
        Self::skip_rdata(packet, Self::skip_name(packet, offset))
    }

    fn edns_rr_rdlen_at(packet: &[u8], offset: usize) -> (r: usize)
        requires
            offset + DNS_EDNS_RR_HEADER_SIZE <= packet.len(),
        ensures
            r == be16(packet@, offset + 2),
    {
        read_be16(packet, offset + DNS_EDNS_RR_RDLEN_OFFSET) as usize
    }

    /// The offset right after the EDNS option that starts at `offset`.
    pub fn edns_skip_rr(packet: &[u8], offset: usize) -> (r: usize)
        requires
            offset + DNS_EDNS_RR_HEADER_SIZE + be16(packet@, offset + 2) <= packet.len(),
        ensures
            r == record_next(packet@, Section::Edns, offset as int),
    {
        offset + DNS_EDNS_RR_HEADER_SIZE + Self::edns_rr_rdlen_at(packet, offset)
    }

    /// Moves to the next record of the section, if there is one, and says
    /// whether there was. In the additional section the OPT record counts.
    pub fn advance(&mut self) -> (more: bool)
        requires
            old(self).inv(),
        ensures
            final(self).inv(),
            final(self).pp() == old(self).pp(),
            *final(final(self).parsed_packet) == *final(old(self).parsed_packet),
            final(self).section == old(self).section,
            more == (old(self).pending().1 > 0),
            more ==> final(self).offset == Some(old(self).pending().0 as usize) && final(self).rrs_left == old(self).pending().1 - 1,
            !more ==> final(self).offset == old(self).offset && final(self).offset_next == old(self).offset_next && final(self).rrs_left == old(self).rrs_left && final(self).name_end
                == old(self).name_end,
    {
        proof {
            lemma_layout(self.bytes());
            lemma_layout_edns(self.bytes());
            if self.live() {
                self.lemma_live();
            }
            if is_response_section(self.section) {
                lemma_reached(
                    self.bytes(),
                    self.section,
                    if self.live() {
                        self.at()
                    } else {
                        0
                    },
                    self.rrs_left + 1,
                );
            }
        }
        if self.offset.is_none() && self.offset_next == 0 {
            let (count, offset): (u16, Option<usize>) = match self.section {
                Section::Question => (
                    DNSSector::qdcount(self.parsed_packet.packet()),
                    self.parsed_packet.offset_question,
                ),
                Section::Answer => (
                    DNSSector::ancount(self.parsed_packet.packet()),
                    self.parsed_packet.offset_answers,
                ),
                Section::NameServers => (
                    DNSSector::nscount(self.parsed_packet.packet()),
                    self.parsed_packet.offset_nameservers,
                ),
                Section::Additional => (
                    DNSSector::arcount(self.parsed_packet.packet()),
                    self.parsed_packet.offset_additional,
                ),
                Section::Edns => (self.parsed_packet.edns_count, self.parsed_packet.offset_edns),
            };
            if count == 0 {
                return false;
            }
            self.rrs_left = count;
            self.offset_next = offset.unwrap();
        }
        if self.rrs_left == 0 {
            return false;
        }
        let offset: usize = self.offset_next;
        proof {
            let b = self.bytes();
            match self.section {
                Section::Question => {
                    lemma_question_shape(b, offset as int, false);
                },
                Section::Edns => {
                    lemma_options_shift(
                        b,
                        offset + DNS_EDNS_RR_HEADER_SIZE + be16(b, offset + 2),
                        section_end(b, self.section),
                        1,
                        0,
                    );
                },
                _ => {
                    lemma_rr_shape(b, offset as int, self.section);
                },
            }
        }
        self.rrs_left -= 1;
        self.offset = Some(offset);
        let packet = self.parsed_packet.packet();
        match self.section {
            Section::Question => {
                let name_end: usize = Self::skip_name(packet, offset);
                assert(name_end + DNS_RR_QUESTION_HEADER_SIZE <= packet.len());
                self.name_end = name_end;
                self.offset_next = name_end + DNS_RR_QUESTION_HEADER_SIZE;
            },
            Section::Edns => {
                let next: usize = Self::edns_skip_rr(packet, offset);
                self.name_end = offset;
                self.offset_next = next;
            },
            _ => {
                let name_end: usize = Self::skip_name(packet, offset);
                let next: usize = Self::skip_rdata(packet, name_end);
                self.name_end = name_end;
                self.offset_next = next;
            },
        }
        true
    }

    /// Returns the offset of the current RR, or `None` if we haven't started iterating yet
    /// or if the current record has been deleted.
    pub fn offset(&self) -> (r: Option<usize>)
        ensures
            r == self.offset,
    {
        self.offset
    }

    /// Returns the offset right after the current RR.
    pub fn offset_next(&self) -> (r: usize)
        ensures
            r == self.offset_next,
    {
        self.offset_next
    }

    /// Returns `true` if the record has been invalidated by a previous call to `delete()`
    pub fn is_tombstone(&self) -> (r: bool)
        ensures
            r == (self.offset is None),
    {
        self.offset.is_none()
    }

    /// Accesses the raw packet data.
    pub fn raw(&self) -> (r: RRRaw<'_>)
        requires
            self.pp().packet is Some,
            self.live(),
        ensures
            r.packet@ == self.bytes(),
            r.offset == self.at(),
            r.name_end == self.name_end,
    {
        RRRaw {
            packet: self.parsed_packet.packet(),
            offset: self.offset.unwrap(),
            name_end: self.name_end,
        }
    }

    /// Accesses the mutable raw packet data. Whoever writes to it has to
    /// leave a well-formed message with the same records in the buffer.
    pub fn raw_mut(&mut self) -> (r: RRRawMut<'_>)
        requires
            old(self).pp().packet is Some,
            old(self).live(),
        ensures
            r.packet@ == old(self).bytes(),
            r.offset == old(self).at(),
            r.name_end == old(self).name_end,
            final(self).bytes() == final(r.packet)@,
            final(self).section == old(self).section,
            final(self).offset == old(self).offset,
            final(self).offset_next == old(self).offset_next,
            final(self).name_end == old(self).name_end,
            final(self).rrs_left == old(self).rrs_left,
    {
        let offset: usize = self.offset.unwrap();
        let name_end: usize = self.name_end;
        RRRawMut { packet: self.parsed_packet.packet_mut().as_mut_slice(), offset, name_end }
    }

    /// Raw packet data.
    pub fn packet(&self) -> (r: &[u8])
        requires
            self.pp().packet is Some,
        ensures
            r@ == self.bytes(),
    {
        self.parsed_packet.packet()
    }

    /// Accesses the raw packet data, starting from the name.
    pub fn name_slice(&self) -> (r: &[u8])
        requires
            self.inv(),
            self.live(),
        ensures
            r@ == self.bytes().subrange(self.at(), self.name_end as int),
    {
        proof {
            self.lemma_live();
        }
        vstd::slice::slice_subrange(
            self.parsed_packet.packet(),
            self.offset.unwrap(),
            self.name_end,
        )
    }

    /// Access the raw packet data, starting from right after the name.
    pub fn rdata_slice(&self) -> (r: &[u8])
        requires
            self.inv(),
            self.live(),
        ensures
            r@ == self.bytes().subrange(self.name_end as int, self.bytes().len() as int),
    {
        proof {
            self.lemma_live();
        }
        let packet = self.parsed_packet.packet();
        vstd::slice::slice_subrange(packet, self.name_end, packet.len())
    }

    /// Returns the RR name (labels are dot-delimited), as a byte vector. The name is not supposed to be valid UTF-8. It will be converted to lower-case, though, using traditional DNS conversion rules
    pub fn name(&self) -> (r: Vec<u8>)
        requires
            self.inv(),
            self.live(),
        ensures
            r@ == (if self.section == Section::Edns {
                Seq::<u8>::empty()
            } else {
                presentation(name_at(self.bytes(), self.at()).name)
            }),
    {
        proof {
            self.lemma_live();
        }
        let offset: usize = self.offset.unwrap();
        if self.name_end <= offset {
            return Vec::new();
        }
        Compress::raw_name_to_str(self.parsed_packet.packet(), offset)
    }

    /// Appends the uncompressed RR name (raw format, with labels prefixed by their length) to the given vector.
    /// Returns the length of the uncompressed name.
    pub fn copy_raw_name(&self, name: &mut Vec<u8>) -> (r: usize)
        requires
            self.inv(),
            self.live(),
        ensures
            self.section == Section::Edns ==> r == 0 && final(name)@ == old(name)@,
            self.section != Section::Edns ==> final(name)@ == old(name)@ + name_at(
                self.bytes(),
                self.at(),
            ).name && r == name_at(self.bytes(), self.at()).name.len() && 1 <= r
                <= DNS_MAX_HOSTNAME_LEN,
    {
        proof {
            self.lemma_live();
        }
        let offset: usize = self.offset.unwrap();
        if self.name_end <= offset {
            return 0;
        }
        Compress::copy_uncompressed_name(name, self.parsed_packet.packet(), offset).name_len
    }

    /// Returns the section the current record belongs to.
    pub fn current_section(&self) -> (r: Result<Section, DSError>)
        requires
            self.inv(),
            self.live(),
            self.section != Section::Edns,
        ensures
            r == Ok::<Section, DSError>(self.section),
    {
        proof {
            self.lemma_live();
            lemma_layout(self.bytes());
        }
        let offset: usize = self.offset.unwrap();
        if let Some(question) = self.parsed_packet.offset_question {
            if offset < question {
                return Err(DSError::InternalError("name before the question section"));
            }
        }
        let mut section = Section::Question;
        if let Some(answers) = self.parsed_packet.offset_answers {
            if offset >= answers {
                section = Section::Answer;
            }
        }
        if let Some(nameservers) = self.parsed_packet.offset_nameservers {
            if offset >= nameservers {
                section = Section::NameServers;
            }
        }
        if let Some(additional) = self.parsed_packet.offset_additional {
            if offset >= additional {
                section = Section::Additional;
            }
        }
        Ok(section)
    }

    /// Returns the query type for the current RR. For an EDNS option this
    /// is the code of the option.
    pub fn rr_type(&self) -> (r: u16)
        requires
            self.inv(),
            self.live(),
        ensures
            r == be16(self.bytes(), self.name_end as int),
    {
        proof {
            self.lemma_live();
        }
        read_be16(self.parsed_packet.packet(), self.name_end + DNS_RR_TYPE_OFFSET)
    }

    /// Returns the query class for the current RR. For an EDNS option this
    /// is the length of the option.
    pub fn rr_class(&self) -> (r: u16)
        requires
            self.inv(),
            self.live(),
        ensures
            r == be16(self.bytes(), self.name_end + 2),
    {
        proof {
            self.lemma_live();
        }
        read_be16(self.parsed_packet.packet(), self.name_end + DNS_RR_CLASS_OFFSET)
    }

    /// Returns the TTL for the current RR.
    pub fn rr_ttl(&self) -> (r: u32)
        requires
            self.inv(),
            self.live(),
            is_response_section(self.section),
        ensures
            r == be32(self.bytes(), self.name_end + 4),
    {
        proof {
            self.lemma_live();
        }
        read_be32(self.parsed_packet.packet(), self.name_end + DNS_RR_TTL_OFFSET)
    }

    /// Returns the record length for the current RR.
    pub fn rr_rdlen(&self) -> (r: usize)
        requires
            self.inv(),
            self.live(),
            is_response_section(self.section),
        ensures
            r == be16(self.bytes(), self.name_end + 8),
            self.name_end + DNS_RR_HEADER_SIZE + r == self.offset_next,
    {
        proof {
            self.lemma_live();
        }
        read_be16(self.parsed_packet.packet(), self.name_end + DNS_RR_RDLEN_OFFSET) as usize
    }

    /// Retrieves the string of an `TXT` record: its chunks, one behind the
    /// other. A record of another type, one without data and one with a
    /// chunk that runs past its data have no such string.
    pub fn rr_txt(&self) -> (r: Result<Vec<u8>, DSError>)
        requires
            self.inv(),
            self.live(),
            is_response_section(self.section),
        ensures
            ({
                let b = self.bytes();
                let d = self.name_end + DNS_RR_HEADER_SIZE;
                let text = txt_text(b.subrange(d, self.offset_next as int));
                if be16(b, self.name_end as int) == Type::TXT.code() && d < self.offset_next
                    && text is Some {
                    r is Ok && r->Ok_0@ == text->Some_0
                } else {
                    r == Err::<Vec<u8>, DSError>(DSError::PropertyNotFound)
                }
            }),
    {
        proof {
            self.lemma_live();
        }
        if self.rr_type() != Type::TXT.to_u16() {
            return Err(DSError::PropertyNotFound);
        }
        let packet = self.parsed_packet.packet();
        let start: usize = self.name_end + DNS_RR_HEADER_SIZE;
        let end: usize = self.offset_next;
        let ghost rdata = packet@.subrange(start as int, end as int);
        let mut text: Vec<u8> = Vec::new();
        let mut i: usize = start;
        while i < end
            invariant
                start <= i <= end <= packet@.len(),
                packet@ == self.bytes(),
                start == self.name_end + DNS_RR_HEADER_SIZE,
                end == self.offset_next,
                be16(packet@, self.name_end as int) == Type::TXT.code(),
                rdata == packet@.subrange(start as int, end as int),
                txt_text(rdata) == match txt_text(packet@.subrange(i as int, end as int)) {
                    Some(rest) => Some(text@ + rest),
                    None => None,
                },
            decreases end - i,
        {
            let ghost tail = packet@.subrange(i as int, end as int);
            let ghost before = text@;
            let chunklen: usize = packet[i] as usize;
            assert(tail[0] == packet@[i as int]);
            i = i + 1;
            if chunklen > end - i {
                return Err(DSError::PropertyNotFound);
            }
            extend_from_range(&mut text, packet, i, i + chunklen);
            i += chunklen;
            proof {
                assert(tail.subrange(1, 1 + chunklen) =~= packet@.subrange(
                    i - chunklen,
                    i as int,
                ));
                assert(tail.subrange(1 + chunklen, tail.len() as int) =~= packet@.subrange(
                    i as int,
                    end as int,
                ));
                let rest = txt_text(packet@.subrange(i as int, end as int));
                if rest is Some {
                    assert(before + (tail.subrange(1, 1 + chunklen) + rest->Some_0) =~= text@
                        + rest->Some_0);
                }
            }
        }
        proof {
            assert(packet@.subrange(end as int, end as int) =~= Seq::<u8>::empty());
            assert(text@ + Seq::<u8>::empty() =~= text@);
        }
        if i > start {
            Ok(text)
        } else {
            Err(DSError::PropertyNotFound)
        }
    }

    /// Retrieves the IP address of an `A` or `AAAA` record.
    pub fn rr_ip(&self) -> (r: Result<IpAddr, DSError>)
        requires
            self.inv(),
            self.live(),
            is_response_section(self.section),
        ensures
            ({
                let b = self.bytes();
                let d = self.name_end + DNS_RR_HEADER_SIZE;
                if be16(b, self.name_end as int) == Type::A.code() {
                    r is Ok && r->Ok_0 is V4 && ip_bytes(r->Ok_0) == b.subrange(d, d + 4)
                } else if be16(b, self.name_end as int) == Type::AAAA.code() {
                    r is Ok && r->Ok_0 is V6 && ip_bytes(r->Ok_0) == b.subrange(d, d + 16)
                } else {
                    r == Err::<IpAddr, DSError>(DSError::PropertyNotFound)
                }
            }),
    {
        proof {
            self.lemma_live();
            crate::dns_sector::lemma_address_rdata(self.bytes(), self.at(), self.section);
        }
        let rr_type: u16 = self.rr_type();
        let packet = self.parsed_packet.packet();
        let d: usize = self.name_end + DNS_RR_HEADER_SIZE;
        if rr_type == Type::A.to_u16() {
            let ip: [u8; 4] = [packet[d], packet[d + 1], packet[d + 2], packet[d + 3]];
            assert(ip@ =~= packet@.subrange(d as int, d + 4));
            Ok(IpAddr::V4(ip))
        } else if rr_type == Type::AAAA.to_u16() {
            let ip: [u8; 16] = [
                packet[d],
                packet[d + 1],
                packet[d + 2],
                packet[d + 3],
                packet[d + 4],
                packet[d + 5],
                packet[d + 6],
                packet[d + 7],
                packet[d + 8],
                packet[d + 9],
                packet[d + 10],
                packet[d + 11],
                packet[d + 12],
                packet[d + 13],
                packet[d + 14],
                packet[d + 15],
            ];
            assert(ip@ =~= packet@.subrange(d as int, d + 16));
            Ok(IpAddr::V6(ip))
        } else {
            Err(DSError::PropertyNotFound)
        }
    }

    /// Accesses the parsed packet structure.
    pub fn parsed_packet(&self) -> (r: &ParsedPacket)
        ensures
            *r == self.pp(),
    {
        &*self.parsed_packet
    }

    /// Accesses the parsed packet structure, to change it. Whoever changes
    /// it has to leave a well-formed packet with the same records.
    pub fn parsed_packet_mut(&mut self) -> (r: &mut ParsedPacket)
        ensures
            *r == old(self).pp(),
            final(self).pp() == *final(r),
            final(self).section == old(self).section,
            final(self).offset == old(self).offset,
            final(self).offset_next == old(self).offset_next,
            final(self).name_end == old(self).name_end,
            final(self).rrs_left == old(self).rrs_left,
    {
        &mut *self.parsed_packet
    }

    /// Sets the offset of the current RR. The fields that say where the
    /// name and the record end stay as they are: `recompute` sets them.
    pub fn set_offset(&mut self, offset: usize)
        ensures
            final(self).offset == Some(offset),
            final(self).pp() == old(self).pp(),
            *final(final(self).parsed_packet) == *final(old(self).parsed_packet),
            final(self).section == old(self).section,
            final(self).offset_next == old(self).offset_next,
            final(self).name_end == old(self).name_end,
            final(self).rrs_left == old(self).rrs_left,
    {
        self.offset = Some(offset);
    }

    /// Sets the offset of the next RR.
    pub fn set_offset_next(&mut self, offset: usize)
        ensures
            final(self).offset_next == offset,
            final(self).pp() == old(self).pp(),
            *final(final(self).parsed_packet) == *final(old(self).parsed_packet),
            final(self).section == old(self).section,
            final(self).offset == old(self).offset,
            final(self).name_end == old(self).name_end,
            final(self).rrs_left == old(self).rrs_left,
    {
        self.offset_next = offset;
    }

    /// Prevents access to the current record.
    /// This is useful after a delete operation: from a user perspective, the current
    /// iterator doesn't point to a valid RR any more.
    pub fn invalidate(&mut self)
        ensures
            final(self).offset is None,
            final(self).pp() == old(self).pp(),
            *final(final(self).parsed_packet) == *final(old(self).parsed_packet),
            final(self).section == old(self).section,
            final(self).offset_next == old(self).offset_next,
            final(self).name_end == old(self).name_end,
            final(self).rrs_left == old(self).rrs_left,
    {
        self.offset = None;
    }

    /// Updates the precomputed RR information: where the name of the
    /// current record ends, and where the record itself does.
    pub fn recompute(&mut self)
        requires
            old(self).pp().wf(),
            old(self).live(),
            old(self).section != Section::Edns,
            old(self).section == Section::Question ==> question_scan(
                old(self).bytes(),
                old(self).at(),
                false,
            ) is Ok,
            is_response_section(old(self).section) ==> rr_scan(
                old(self).bytes(),
                old(self).at(),
                old(self).section,
                false,
            ) is Ok,
        ensures
            final(self).pp() == old(self).pp(),
            *final(final(self).parsed_packet) == *final(old(self).parsed_packet),
            final(self).section == old(self).section,
            final(self).offset == old(self).offset,
            final(self).rrs_left == old(self).rrs_left,
            final(self).name_end == record_name_end(
                old(self).bytes(),
                old(self).section,
                old(self).at(),
            ),
            final(self).offset_next == record_next(
                old(self).bytes(),
                old(self).section,
                old(self).at(),
            ),
    {
        let offset: usize = self.offset.unwrap();
        let packet = self.parsed_packet.packet();
        match self.section {
            Section::Question => {
                proof {
                    lemma_question_shape(packet@, offset as int, false);
                }
                let name_end: usize = Self::skip_name(packet, offset);
                assert(name_end + DNS_RR_QUESTION_HEADER_SIZE <= packet.len());
                self.name_end = name_end;
                self.offset_next = name_end + DNS_RR_QUESTION_HEADER_SIZE;
            },
            _ => {
                proof {
                    lemma_rr_shape(packet@, offset as int, self.section);
                }
                let name_end: usize = Self::skip_name(packet, offset);
                let offset_next: usize = Self::skip_rdata(packet, name_end);
                self.name_end = name_end;
                self.offset_next = offset_next;
            },
        }
    }

    /// Updates the precomputed offsets of each section, by validating the
    /// packet again, and notes that it holds no compressed name any more if
    /// the message is in uncompressed form.
    pub fn recompute_sections(&mut self)
        requires
            old(self).inv(),
        ensures
            final(self).inv(),
            *final(final(self).parsed_packet) == *final(old(self).parsed_packet),
            final(self).bytes() == old(self).bytes(),
            final(self).pp().maybe_compressed == !is_plain(old(self).bytes()),
            final(self).section == old(self).section,
            final(self).offset == old(self).offset,
            final(self).offset_next == old(self).offset_next,
            final(self).name_end == old(self).name_end,
            final(self).rrs_left == old(self).rrs_left,
    {
        let _ = self.parsed_packet.recompute();
    }

    /// Updates the precomputed RR information: where the name of the
    /// current record ends, and where the record itself does, are read
    /// again from the record that stands at the offset of the iterator. An
    /// iterator that knew both stays as it is.
    pub fn recompute_rr(&mut self)
        requires
            old(self).pp().wf(),
            old(self).live(),
            old(self).section != Section::Edns,
            old(self).section == Section::Question ==> question_scan(
                old(self).bytes(),
                old(self).at(),
                false,
            ) is Ok,
            is_response_section(old(self).section) ==> rr_scan(
                old(self).bytes(),
                old(self).at(),
                old(self).section,
                false,
            ) is Ok,
        ensures
            final(self).pp() == old(self).pp(),
            *final(final(self).parsed_packet) == *final(old(self).parsed_packet),
            final(self).section == old(self).section,
            final(self).offset == old(self).offset,
            final(self).rrs_left == old(self).rrs_left,
            final(self).name_end == record_name_end(
                old(self).bytes(),
                old(self).section,
                old(self).at(),
            ),
            final(self).offset_next == record_next(
                old(self).bytes(),
                old(self).section,
                old(self).at(),
            ),
            old(self).inv() ==> final(self).same_as(old(self)),
    {
        self.recompute();
    }

    /// Says whether an iterator over `section` can stand at `at` in
    /// `packet` with `count` records from there on.
    pub fn stands_at(packet: &mut ParsedPacket, section: Section, at: usize, count: u16) -> (r:
        bool)
        requires
            old(packet).wf(),
        ensures
            *final(packet) == *old(packet),
            r == stands(old(packet).bytes(), section, at as int, count as int),
    {
        let ghost b = packet.bytes();
        proof {
            lemma_layout(b);
        }
        if section == Section::Edns {
            return false;
        }
        let end: usize = match packet.insertion_offset(section) {
            Ok(end) => end,
            Err(_) => return false,
        };
        let (total, start): (u16, usize) = match section {
            Section::Question => (DNSSector::qdcount(packet.packet()), DNS_HEADER_SIZE),
            Section::Answer => (
                DNSSector::ancount(packet.packet()),
                match packet.offset_answers {
                    Some(o) => o,
                    None => end,
                },
            ),
            Section::NameServers => (
                DNSSector::nscount(packet.packet()),
                match packet.offset_nameservers {
                    Some(o) => o,
                    None => end,
                },
            ),
            _ => (
                DNSSector::arcount(packet.packet()),
                match packet.offset_additional {
                    Some(o) => o,
                    None => end,
                },
            ),
        };
        if at < start || count > total {
            return false;
        }
        if at > packet.packet().len() {
            return false;
        }
        let buffer: Vec<u8> = packet.packet.take().unwrap();
        let buffer: Vec<u8> = match section {
            Section::Question => {
                if count == 1 && at != DNS_HEADER_SIZE {
                    packet.packet = Some(buffer);
                    return false;
                }
                buffer
            },
            _ => {
                proof {
                    crate::plain::lemma_section_no_opt(
                        b,
                        Scan { offset: questions_end(b), edns: None },
                        crate::dns_sector::an_count(b),
                        Section::Answer,
                    );
                    crate::plain::lemma_section_no_opt(
                        b,
                        crate::dns_sector::answers_scan(b),
                        crate::dns_sector::ns_count(b),
                        Section::NameServers,
                    );
                }
                let mut before = match DNSSector::new(buffer) {
                    Ok(before) => before,
                    Err(_) => return false,
                };
                before.offset = start;
                let led: bool = before.parse_section(total - count, section).is_ok();
                let came_to: usize = before.offset;
                let buffer: Vec<u8> = before.into_packet();
                if !(led && came_to == at) {
                    packet.packet = Some(buffer);
                    return false;
                }
                buffer
            },
        };
        if count == 0 {
            packet.packet = Some(buffer);
            return at == end;
        }
        let mut dns_sector = match DNSSector::new(buffer) {
            Ok(dns_sector) => dns_sector,
            Err(_) => return false,
        };
        dns_sector.offset = at;
        let accepted: bool = match section {
            Section::Question => count == 1 && dns_sector.parse_question(false).is_ok(),
            _ => dns_sector.parse_section(count, section).is_ok(),
        };
        let reached: usize = dns_sector.offset;
        packet.packet = Some(dns_sector.into_packet());
        assert(packet.packet->Some_0@ == b);
        accepted && reached == end
    }

    /// Replaces the buffer of the packet by `candidate` and puts the
    /// iterator at `at`, on a record if `live` is set and as one whose
    /// record was deleted if not, with `rrs_left` records behind it. Nothing
    /// changes where `candidate` is not a well-formed message or the
    /// iterator cannot stand there. The packet is marked as holding no
    /// compressed name if `candidate` is in uncompressed form, and either
    /// `uncompressed` is set or the packet was marked so before.
    pub fn reinstall(
        &mut self,
        candidate: Vec<u8>,
        at: usize,
        live: bool,
        rrs_left: u16,
        uncompressed: bool,
    ) -> (r: Result<(), DSError>)
        requires
            old(self).pp().wf(),
            live ==> rrs_left < 0xffff,
        ensures
            *final(final(self).parsed_packet) == *final(old(self).parsed_packet),
            final(self).section == old(self).section,
            match reinstalled(candidate@, old(self).section, at as int, live, rrs_left as int) {
                Err(e) => r == Err::<(), DSError>(e) && final(self).same_as(old(self)),
                Ok(_) => {
                    &&& r is Ok
                    &&& final(self).inv()
                    &&& final(self).bytes() == candidate@
                    &&& final(self).pp().cached is None
                    &&& final(self).pp().maybe_compressed == ((old(self).pp().maybe_compressed
                        && !uncompressed) || !is_plain(candidate@))
                    &&& final(self).rrs_left == rrs_left
                    &&& live ==> final(self).offset == Some(at)
                    &&& !live ==> final(self).offset is None && final(self).offset_next == at
                },
            },
    {
        let dns_sector = match DNSSector::new(candidate) {
            Ok(dns_sector) => dns_sector,
            Err(e) => return Err(e),
        };
        let mut parsed: ParsedPacket = dns_sector.scan(false)?;
        let count: u16 = if live {
            rrs_left + 1
        } else {
            rrs_left
        };
        if !Self::stands_at(&mut parsed, self.section, at, count) {
            return Err(
                DSError::InternalError("Previous offset not found at a record boundary"),
            );
        }
        let ghost b = parsed.bytes();
        proof {
            lemma_layout(b);
            if is_response_section(self.section) {
                lemma_section_records(
                    b,
                    Scan { offset: at as int, edns: None },
                    count as int,
                    self.section,
                );
            }
        }
        if uncompressed || !self.parsed_packet.maybe_compressed {
            let plain: bool = parsed.is_uncompressed();
            self.parsed_packet.maybe_compressed = !plain;
        }
        self.parsed_packet.packet = parsed.packet;
        self.parsed_packet.offset_question = parsed.offset_question;
        self.parsed_packet.offset_answers = parsed.offset_answers;
        self.parsed_packet.offset_nameservers = parsed.offset_nameservers;
        self.parsed_packet.offset_additional = parsed.offset_additional;
        if parsed.offset_edns.is_some() {
            self.parsed_packet.max_payload = parsed.max_payload;
        }
        self.parsed_packet.offset_edns = parsed.offset_edns;
        self.parsed_packet.edns_count = parsed.edns_count;
        self.parsed_packet.ext_rcode = parsed.ext_rcode;
        self.parsed_packet.edns_version = parsed.edns_version;
        self.parsed_packet.ext_flags = parsed.ext_flags;
        self.parsed_packet.cached = None;
        self.rrs_left = rrs_left;
        if live {
            self.offset = Some(at);
            self.recompute();
        } else {
            self.offset = None;
            self.offset_next = at;
        }
        Ok(())
    }

    /// Grows the record at `offset` by `shift` bytes, or shrinks it with a
    /// negative value: zero bytes are put in at `offset`, or the bytes from
    /// `offset` on are taken out, and what stands behind moves.
    pub fn resize_rr(packet: &mut Vec<u8>, offset: usize, shift: isize) -> (r: Result<(), DSError>)
        requires
            offset <= old(packet)@.len(),
            shift < 0 ==> offset - shift <= old(packet)@.len(),
        ensures
            if shift > 0 && (old(packet)@.len() > DNS_MAX_UNCOMPRESSED_SIZE || shift
                > DNS_MAX_UNCOMPRESSED_SIZE - old(packet)@.len()) {
                r == Err::<(), DSError>(DSError::PacketTooLarge) && final(packet)@ == old(packet)@
            } else {
                r is Ok && final(packet)@ == (if shift >= 0 {
                    grown(old(packet)@, offset as int, shift as int)
                } else {
                    shrunk(old(packet)@, offset as int, -shift)
                })
            },
    {
        if shift == 0 {
            assert(packet@ =~= grown(packet@, offset as int, 0));
            return Ok(());
        }
        let packet_len: usize = packet.len();
        let mut resized: Vec<u8> = Vec::new();
        if shift > 0 {
            if packet_len > DNS_MAX_UNCOMPRESSED_SIZE || shift as usize > DNS_MAX_UNCOMPRESSED_SIZE
                - packet_len {
                return Err(DSError::PacketTooLarge);
            }
            extend_from_range(&mut resized, packet.as_slice(), 0, offset);
            let gap: usize = shift as usize;
            let mut i: usize = 0;
            while i < gap
                invariant
                    i <= gap,
                    resized@ == packet@.subrange(0, offset as int) + Seq::new(
                        i as nat,
                        |k: int| 0u8,
                    ),
                decreases gap - i,
            {
                resized.push(0);
                i += 1;
                assert(resized@ =~= packet@.subrange(0, offset as int) + Seq::new(
                    i as nat,
                    |k: int| 0u8,
                ));
            }
            extend_from_range(&mut resized, packet.as_slice(), offset, packet_len);
        } else {
            let gap: usize = (-(shift + 1)) as usize + 1;
            extend_from_range(&mut resized, packet.as_slice(), 0, offset);
            extend_from_range(&mut resized, packet.as_slice(), offset + gap, packet_len);
        }
        *packet = resized;
        Ok(())
    }

    /// The bytes of the packet and the offset of the iterator, after the
    /// packet has been written without compression if it may be compressed.
    fn base_for_edit(&self, at: usize) -> (r: Option<(Vec<u8>, usize)>)
        requires
            self.pp().wf(),
        ensures
            match edit_base(self.bytes(), self.pp().maybe_compressed, at as int) {
                Some((bytes, moved)) => r is Some && r->Some_0.0@ == bytes && r->Some_0.1 == moved,
                None => r is None,
            },
    {
        proof {
            crate::plain::lemma_uncompressed_scan(self.bytes(), false);
        }
        if self.parsed_packet.maybe_compressed {
            let (uncompressed, moved) = Compress::uncompress_parsed(self.parsed_packet(), at);
            let moved: usize = match moved {
                Some(moved) => moved,
                None => return None,
            };
            let mut copy: Vec<u8> = Vec::with_capacity(uncompressed.len());
            extend_from_range(&mut copy, uncompressed.as_slice(), 0, uncompressed.len());
            assert(copy@ =~= uncompressed@);
            let dns_sector = match DNSSector::new(copy) {
                Ok(dns_sector) => dns_sector,
                Err(_) => return None,
            };
            if dns_sector.scan(false).is_err() {
                return None;
            }
            Some((uncompressed, moved))
        } else {
            Some((self.parsed_packet.to_vec(), at))
        }
    }

    /// Decompresses the whole packet while keeping the iterator available.
    pub fn uncompress(&mut self) -> (r: Result<(), DSError>)
        requires
            old(self).inv(),
            !old(self).unstarted(),
            old(self).section != Section::Edns,
        ensures
            final(self).inv(),
            *final(final(self).parsed_packet) == *final(old(self).parsed_packet),
            final(self).section == old(self).section,
            match uncompress_spec(old(self)) {
                Err(e) => r == Err::<(), DSError>(e) && final(self).same_as(old(self)),
                Ok((bytes, at)) => {
                    &&& r is Ok
                    &&& old(self).pp().maybe_compressed ==> final(self).bytes() == bytes
                        && final(self).pp().cached is None && (if old(self).live() {
                        final(self).offset == Some(at as usize)
                    } else {
                        final(self).offset is None && final(self).offset_next == at
                    })
                    &&& !old(self).pp().maybe_compressed ==> final(self).same_as(old(self))
                    &&& !final(self).pp().maybe_compressed
                    &&& final(self).rrs_left == old(self).rrs_left
                },
            },
    {
        if !self.parsed_packet.maybe_compressed {
            return Ok(());
        }
        proof {
            crate::plain::law_uncompressed_is_plain(self.bytes());
        }
        let live: bool = self.offset.is_some();
        let at: usize = match self.offset {
            Some(offset) => offset,
            None => self.offset_next,
        };
        proof {
            lemma_layout(self.bytes());
        }
        let (uncompressed, moved) = match self.base_for_edit(at) {
            Some(base) => base,
            None => return Err(
                DSError::InternalError("Previous offset not found at a record boundary"),
            ),
        };
        let rrs_left: u16 = self.rrs_left;
        self.reinstall(uncompressed, moved, live, rrs_left, true)
    }

    /// Changes the TTL of a record. Nothing changes where the message would
    /// not be well formed with the new value, which can only be where a
    /// name reads its labels from the place of the TTL.
    pub fn set_rr_ttl(&mut self, ttl: u32) -> (r: Result<(), DSError>)
        requires
            old(self).inv(),
            old(self).live(),
            is_response_section(old(self).section),
        ensures
            final(self).inv(),
            *final(final(self).parsed_packet) == *final(old(self).parsed_packet),
            final(self).section == old(self).section,
            match reinstalled(
                put_be32(old(self).bytes(), old(self).name_end + 4, ttl as int),
                old(self).section,
                old(self).at(),
                true,
                old(self).rrs_left as int,
            ) {
                Err(e) => r == Err::<(), DSError>(e) && final(self).same_as(old(self)),
                Ok(_) => {
                    &&& r is Ok
                    &&& final(self).bytes() == put_be32(
                        old(self).bytes(),
                        old(self).name_end + 4,
                        ttl as int,
                    )
                    &&& final(self).offset == old(self).offset
                    &&& final(self).rrs_left == old(self).rrs_left
                    &&& final(self).pp().maybe_compressed == (old(self).pp().maybe_compressed
                        || !is_plain(final(self).bytes()))
                },
            },
    {
        proof {
            self.lemma_live();
            lemma_layout(self.bytes());
        }
        let mut candidate: Vec<u8> = self.parsed_packet.to_vec();
        write_be32(candidate.as_mut_slice(), self.name_end + DNS_RR_TTL_OFFSET, ttl);
        let at: usize = self.offset.unwrap();
        let rrs_left: u16 = self.rrs_left;
        self.reinstall(candidate, at, true, rrs_left, false)
    }

    /// Changes the IP address of an `A` or `AAAA` record. Nothing changes
    /// where the message would not be well formed with the new value, which
    /// can only be where a name reads its labels from the place of the address.
    #[verifier::rlimit(40)]
    pub fn set_rr_ip(&mut self, ip: &IpAddr) -> (r: Result<(), DSError>)
        requires
            old(self).inv(),
            old(self).live(),
            is_response_section(old(self).section),
        ensures
            final(self).inv(),
            *final(final(self).parsed_packet) == *final(old(self).parsed_packet),
            final(self).section == old(self).section,
            match set_ip_spec(old(self), *ip) {
                Err(e) => r == Err::<(), DSError>(e) && final(self).same_as(old(self)),
                Ok(bytes) => {
                    &&& r is Ok
                    &&& final(self).bytes() == bytes
                    &&& final(self).offset == old(self).offset
                    &&& final(self).rrs_left == old(self).rrs_left
                    &&& final(self).pp().maybe_compressed == (old(self).pp().maybe_compressed
                        || !is_plain(final(self).bytes()))
                },
            },
    {
        proof {
            self.lemma_live();
            lemma_layout(self.bytes());
            crate::dns_sector::lemma_address_rdata(self.bytes(), self.at(), self.section);
        }
        let rr_type: u16 = self.rr_type();
        let d: usize = self.name_end + DNS_RR_HEADER_SIZE;
        let mut candidate: Vec<u8> = self.parsed_packet.to_vec();
        if rr_type == Type::A.to_u16() {
            match ip {
                IpAddr::V4(bytes) => {
                    let mut i: usize = 0;
                    while i < 4
                        invariant
                            i <= 4,
                            d + 4 <= candidate.len(),
                            candidate@.len() == self.bytes().len(),
                            candidate@ == overwritten(
                                self.bytes(),
                                d as int,
                                bytes@.subrange(0, i as int),
                            ),
                        decreases 4 - i,
                    {
                        candidate[d + i] = bytes[i];
                        i += 1;
                        assert(candidate@ =~= overwritten(
                            self.bytes(),
                            d as int,
                            bytes@.subrange(0, i as int),
                        ));
                    }
                    assert(bytes@.subrange(0, 4) =~= bytes@);
                },
                _ => return Err(DSError::WrongAddressFamily),
            }
        } else if rr_type == Type::AAAA.to_u16() {
            match ip {
                IpAddr::V6(bytes) => {
                    let mut i: usize = 0;
                    while i < 16
                        invariant
                            i <= 16,
                            d + 16 <= candidate.len(),
                            candidate@.len() == self.bytes().len(),
                            candidate@ == overwritten(
                                self.bytes(),
                                d as int,
                                bytes@.subrange(0, i as int),
                            ),
                        decreases 16 - i,
                    {
                        candidate[d + i] = bytes[i];
                        i += 1;
                        assert(candidate@ =~= overwritten(
                            self.bytes(),
                            d as int,
                            bytes@.subrange(0, i as int),
                        ));
                    }
                    assert(bytes@.subrange(0, 16) =~= bytes@);
                },
                _ => return Err(DSError::WrongAddressFamily),
            }
        } else {
            return Err(DSError::PropertyNotFound);
        }
        let at: usize = self.offset.unwrap();
        let rrs_left: u16 = self.rrs_left;
        self.reinstall(candidate, at, true, rrs_left, false)
    }

    /// The buffer `base` with the name of the record at `at` replaced by
    /// the first `new_name_len` bytes of `name`.
    fn with_name(base: Vec<u8>, at: usize, name: &[u8], new_name_len: usize) -> (r: Result<
        Vec<u8>,
        DSError,
    >)
        requires
            new_name_len <= name@.len(),
            new_name_len <= DNS_MAX_HOSTNAME_LEN,
        ensures
            match renamed_bytes(base@, at as int, name@.subrange(0, new_name_len as int)) {
                Err(e) => r == Err::<Vec<u8>, DSError>(e),
                Ok(bytes) => r is Ok && r->Ok_0@ == bytes,
            },
    {
        let mut candidate: Vec<u8> = base;
        proof {
            if crate::compress::walk_name(candidate@, at as int) is Ok {
                lemma_walk_bound(candidate@, at as int);
            }
        }
        let current_name_len: usize = match Compress::check_compressed_name(
            candidate.as_slice(),
            at,
        ) {
            Ok(end) => end - at,
            Err(e) => return Err(e),
        };
        if new_name_len >= current_name_len {
            let grow: usize = new_name_len - current_name_len;
            Self::resize_rr(&mut candidate, at, grow as isize)?;
        } else {
            let cut: usize = current_name_len - new_name_len;
            Self::resize_rr(&mut candidate, at, -(cut as isize))?;
        }
        let ghost resized = candidate@;
        let mut i: usize = 0;
        while i < new_name_len
            invariant
                i <= new_name_len <= name@.len(),
                at + new_name_len <= candidate.len(),
                candidate@.len() == resized.len(),
                candidate@ == overwritten(resized, at as int, name@.subrange(0, i as int)),
            decreases new_name_len - i,
        {
            candidate[at + i] = name[i];
            i += 1;
            assert(candidate@ =~= overwritten(resized, at as int, name@.subrange(0, i as int)));
        }
        assert(candidate@ =~= base@.subrange(0, at as int) + name@.subrange(
            0,
            new_name_len as int,
        ) + base@.subrange(at + current_name_len, base@.len() as int));
        Ok(candidate)
    }

    /// Changes the name (raw format, untrusted content). A packet that may
    /// be compressed is written without compression first. Nothing changes
    /// where the name cannot be set.
    pub fn set_raw_name(&mut self, name: &[u8]) -> (r: Result<(), DSError>)
        requires
            old(self).inv(),
            !old(self).unstarted(),
            old(self).section != Section::Edns,
        ensures
            final(self).inv(),
            *final(final(self).parsed_packet) == *final(old(self).parsed_packet),
            final(self).section == old(self).section,
            match set_name_spec(old(self), name@) {
                Err(e) => r == Err::<(), DSError>(e) && final(self).same_as(old(self)),
                Ok((bytes, at)) => {
                    &&& r is Ok
                    &&& final(self).bytes() == bytes
                    &&& final(self).offset == Some(at as usize)
                    &&& final(self).rrs_left == old(self).rrs_left
                    &&& final(self).pp().maybe_compressed == !is_plain(final(self).bytes())
                },
            },
    {
        proof {
            if check_plain(name@, 0) is Ok {
                crate::compress::lemma_walk_plain_end(name@, 0, 0);
            }
        }
        let new_name_len: usize = DNSSector::check_uncompressed_name(name, 0)?;
        let offset: usize = match self.offset {
            Some(offset) => offset,
            None => return Err(DSError::VoidRecord),
        };
        proof {
            self.lemma_live();
            lemma_layout(self.bytes());
        }
        let (base, at) = match self.base_for_edit(offset) {
            Some(base) => base,
            None => return Err(
                DSError::InternalError("Previous offset not found at a record boundary"),
            ),
        };
        let candidate: Vec<u8> = Self::with_name(base, at, name, new_name_len)?;
        let rrs_left: u16 = self.rrs_left;
        self.reinstall(candidate, at, true, rrs_left, true)
    }

    /// The buffer `base` without the record of `section` at `at`, and with
    /// one record less counted in the header.
    fn without_record(base: Vec<u8>, section: Section, at: usize) -> (r: Option<Vec<u8>>)
        requires
            base@.len() >= DNS_HEADER_SIZE,
            section != Section::Edns,
        ensures
            match removed_bytes(base@, section, at as int) {
                None => r is None,
                Some(bytes) => r is Some && r->Some_0@ == bytes,
            },
    {
        reveal(removed_bytes);
        let mut candidate: Vec<u8> = base;
        let next: usize = match record_end(candidate.as_slice(), section, at) {
            Some(next) => next,
            None => return None,
        };
        let rr_len: usize = next - at;
        let rrcount: u16 = read_be16(
            candidate.as_slice(),
            match section {
                Section::Question => 4,
                Section::Answer => 6,
                Section::NameServers => 8,
                _ => 10,
            },
        );
        if rrcount == 0 {
            return None;
        }
        match Self::resize_rr(&mut candidate, at, -(rr_len as isize)) {
            Ok(_) => {},
            Err(_) => return None,
        }
        if candidate.len() < DNS_HEADER_SIZE {
            return None;
        }
        match section {
            Section::Question => DNSSector::set_qdcount(candidate.as_mut_slice(), rrcount - 1),
            Section::Answer => DNSSector::set_ancount(candidate.as_mut_slice(), rrcount - 1),
            Section::NameServers => DNSSector::set_nscount(candidate.as_mut_slice(), rrcount - 1),
            _ => DNSSector::set_arcount(candidate.as_mut_slice(), rrcount - 1),
        }
        Some(candidate)
    }

    /// Deletes the record. A packet that may be compressed is written
    /// without compression first. Nothing changes where the record cannot
    /// be deleted.
    pub fn delete(&mut self) -> (r: Result<(), DSError>)
        requires
            old(self).inv(),
            !old(self).unstarted(),
            old(self).section != Section::Edns,
        ensures
            final(self).inv(),
            *final(final(self).parsed_packet) == *final(old(self).parsed_packet),
            final(self).section == old(self).section,
            match delete_spec(old(self)) {
                Err(e) => r == Err::<(), DSError>(e) && final(self).same_as(old(self)),
                Ok((bytes, at)) => {
                    &&& r is Ok
                    &&& final(self).bytes() == bytes
                    &&& final(self).offset is None
                    &&& final(self).offset_next == at
                    &&& final(self).rrs_left == old(self).rrs_left
                    &&& final(self).pp().maybe_compressed == !is_plain(final(self).bytes())
                },
            },
    {
        let offset: usize = match self.offset {
            Some(offset) => offset,
            None => return Err(DSError::VoidRecord),
        };
        proof {
            self.lemma_live();
            lemma_layout(self.bytes());
        }
        let section: Section = self.section;
        let (base, at) = match self.base_for_edit(offset) {
            Some(base) => base,
            None => return Err(
                DSError::InternalError("Previous offset not found at a record boundary"),
            ),
        };
        if base.len() < DNS_HEADER_SIZE {
            return Err(
                DSError::InternalError("Previous offset not found at a record boundary"),
            );
        }
        let candidate: Vec<u8> = match Self::without_record(base, section, at) {
            Some(candidate) => candidate,
            None => return Err(
                DSError::InternalError("Previous offset not found at a record boundary"),
            ),
        };
        let rrs_left: u16 = self.rrs_left;
        self.reinstall(candidate, at, false, rrs_left, true)
    }
}

/// The name of `b` at `at`, where it is a valid name, is at most 255 bytes
/// long as it stands in `b`.
pub proof fn lemma_walk_bound(b: Seq<u8>, at: int)
    requires
        0 <= at,
        crate::compress::walk_name(b, at) is Ok,
    ensures
        at < name_at(b, at).end <= b.len(),
        name_at(b, at).end - at <= DNS_MAX_HOSTNAME_LEN + 1,
{
    crate::compress::lemma_walk_from_ok(
        b,
        at,
        b.len() as int,
        at,
        crate::constants::DNS_MAX_HOSTNAME_INDIRECTIONS as int,
        0,
    );
}

/// Where the record of `section` that starts at `at` ends, if its name is
/// a valid name and the record lies inside `packet`.
pub fn record_end(packet: &[u8], section: Section, at: usize) -> (r: Option<usize>)
    ensures
        r == record_end_spec(packet@, section, at as int),
        r matches Some(end) ==> at < end <= packet@.len() && end - at <= 0x10200,
{
    proof {
        if crate::compress::walk_name(packet@, at as int) is Ok {
            lemma_walk_bound(packet@, at as int);
        }
    }
    let name_end: usize = match Compress::check_compressed_name(packet, at) {
        Ok(end) => end,
        Err(_) => return None,
    };
    let len: usize = packet.len();
    match section {
        Section::Question => {
            if len - name_end < DNS_RR_QUESTION_HEADER_SIZE {
                return None;
            }
            Some(name_end + DNS_RR_QUESTION_HEADER_SIZE)
        },
        _ => {
            if len - name_end < DNS_RR_HEADER_SIZE {
                return None;
            }
            let rdlen: usize = read_be16(packet, name_end + DNS_RR_RDLEN_OFFSET) as usize;
            if len - name_end - DNS_RR_HEADER_SIZE < rdlen {
                return None;
            }
            Some(name_end + DNS_RR_HEADER_SIZE + rdlen)
        },
    }
}

/// Where the record of `section` that starts at `at` in `b` ends: behind
/// its name and its fixed header, and behind its data where it is not a
/// question. `None` where its name is not a valid name or the record does
/// not lie inside `b`.
pub open spec fn record_end_spec(b: Seq<u8>, section: Section, at: int) -> Option<usize> {
    match crate::compress::walk_name(b, at) {
        Err(_) => None,
        Ok(w) => if section == Section::Question {
            if b.len() - w.end < DNS_RR_QUESTION_HEADER_SIZE {
                None
            } else {
                Some((w.end + DNS_RR_QUESTION_HEADER_SIZE) as usize)
            }
        } else if b.len() - w.end < DNS_RR_HEADER_SIZE || b.len() - w.end - DNS_RR_HEADER_SIZE
            < be16(b, w.end + 8) {
            None
        } else {
            Some((w.end + DNS_RR_HEADER_SIZE + be16(b, w.end + 8)) as usize)
        },
    }
}

/// What `reinstall` answers for the buffer `candidate`: an error where
/// `candidate` is not a well-formed message, and where an iterator over
/// `section` cannot stand at `at` in it.
pub open spec fn reinstalled(
    candidate: Seq<u8>,
    section: Section,
    at: int,
    live: bool,
    rrs_left: int,
) -> Result<(), DSError> {
    match message_scan(candidate, false) {
        Err(e) => Err(e),
        Ok(_) => if stands(
            candidate,
            section,
            at,
            if live {
                rrs_left + 1
            } else {
                rrs_left
            },
        ) {
            Ok(())
        } else {
            Err(DSError::InternalError("Previous offset not found at a record boundary"))
        },
    }
}

/// What `uncompress` makes of the packet of the iterator `it`: the
/// uncompressed bytes and the offset of the iterator in them.
pub open spec fn uncompress_spec(it: &RRIterator) -> Result<(Seq<u8>, int), DSError> {
    let at = if it.live() {
        it.at()
    } else {
        it.offset_next as int
    };
    if !it.pp().maybe_compressed {
        Ok((it.bytes(), at))
    } else {
        match edit_base(it.bytes(), true, at) {
            None => Err(DSError::InternalError("Previous offset not found at a record boundary")),
            Some((bytes, moved)) => match reinstalled(
                bytes,
                it.section,
                moved,
                it.live(),
                it.rrs_left as int,
            ) {
                Err(e) => Err(e),
                Ok(_) => Ok((bytes, moved)),
            },
        }
    }
}

/// What `set_rr_ip` makes of the packet of the iterator `it`: the bytes
/// with the address of the record replaced by `ip`, for a record of the
/// type and an address of the family that go together.
pub open spec fn set_ip_spec(it: &RRIterator, ip: IpAddr) -> Result<Seq<u8>, DSError> {
    let b = it.bytes();
    let rr_type = be16(b, it.name_end as int);
    if rr_type != Type::A.code() && rr_type != Type::AAAA.code() {
        Err(DSError::PropertyNotFound)
    } else if (rr_type == Type::A.code()) != (ip is V4) {
        Err(DSError::WrongAddressFamily)
    } else {
        let candidate = overwritten(b, it.name_end + DNS_RR_HEADER_SIZE, ip_bytes(ip));
        match reinstalled(candidate, it.section, it.at(), true, it.rrs_left as int) {
            Err(e) => Err(e),
            Ok(_) => Ok(candidate),
        }
    }
}

/// `base` with the name of the record at `at` replaced by `name`: an
/// error where no valid name stands at `at`, and where the buffer would
/// grow past 8192 bytes.
pub open spec fn renamed_bytes(base: Seq<u8>, at: int, name: Seq<u8>) -> Result<Seq<u8>, DSError> {
    match crate::compress::walk_name(base, at) {
        Err(e) => Err(e),
        Ok(w) => {
            let cur_len = w.end - at;
            if name.len() > cur_len && (base.len() > DNS_MAX_UNCOMPRESSED_SIZE || name.len()
                - cur_len > DNS_MAX_UNCOMPRESSED_SIZE - base.len()) {
                Err(DSError::PacketTooLarge)
            } else {
                Ok(base.subrange(0, at) + name + base.subrange(w.end, base.len() as int))
            }
        },
    }
}

/// `base` without the record of `section` at `at`, and with one record
/// less counted in the header. `None` where no record stands at `at`, and
/// where the header counts no record in the section.
#[verifier::opaque]
pub open spec fn removed_bytes(base: Seq<u8>, section: Section, at: int) -> Option<Seq<u8>> {
    match record_end_spec(base, section, at) {
        None => None,
        Some(next) => if be16(base, count_offset(section)) == 0 || base.len() - (next - at)
            < DNS_HEADER_SIZE {
            None
        } else {
            Some(
                put_be16(
                    shrunk(base, at, next - at),
                    count_offset(section),
                    be16(base, count_offset(section)) - 1,
                ),
            )
        },
    }
}

/// What `set_raw_name` makes of the packet of the iterator `it`: the
/// bytes, without compression where the packet may be compressed, with the
/// name of the record replaced by the uncompressed name at the start of
/// `name`; and the offset of the record in them.
pub open spec fn set_name_spec(it: &RRIterator, name: Seq<u8>) -> Result<(Seq<u8>, int), DSError> {
    match check_plain(name, 0) {
        Err(e) => Err(e),
        Ok(new_len) => if !it.live() {
            Err(DSError::VoidRecord)
        } else {
            match edit_base(it.bytes(), it.pp().maybe_compressed, it.at()) {
                None => Err(
                    DSError::InternalError("Previous offset not found at a record boundary"),
                ),
                Some((base, at)) => match renamed_bytes(base, at, name.subrange(0, new_len)) {
                    Err(e) => Err(e),
                    Ok(candidate) => match reinstalled(
                        candidate,
                        it.section,
                        at,
                        true,
                        it.rrs_left as int,
                    ) {
                        Err(e) => Err(e),
                        Ok(_) => Ok((candidate, at)),
                    },
                },
            }
        },
    }
}

/// What `delete` makes of the packet of the iterator `it`: the bytes,
/// without compression where the packet may be compressed, without the
/// record of the iterator and with one record less counted in the header;
/// and the offset at which the record stood in them.
pub open spec fn delete_spec(it: &RRIterator) -> Result<(Seq<u8>, int), DSError> {
    if !it.live() {
        Err(DSError::VoidRecord)
    } else {
        match edit_base(it.bytes(), it.pp().maybe_compressed, it.at()) {
            None => Err(DSError::InternalError("Previous offset not found at a record boundary")),
            Some((base, at)) => match removed_bytes(base, it.section, at) {
                None => Err(
                    DSError::InternalError("Previous offset not found at a record boundary"),
                ),
                Some(candidate) => match reinstalled(
                    candidate,
                    it.section,
                    at,
                    false,
                    it.rrs_left as int,
                ) {
                    Err(e) => Err(e),
                    Ok(_) => Ok((candidate, at)),
                },
            },
        }
    }
}

} // verus!
