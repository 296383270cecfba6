//! A validated DNS message: its bytes and the cached place of each section.

use crate::compress::lemma_name_stands_alone;
use crate::compress::name_at;
use crate::compress::presentation;
use crate::compress::uncompressed;
use crate::compress::Compress;
use crate::constants::Section;
use crate::constants::DNS_FLAGS_OFFSET;
use crate::constants::DNS_FLAG_AD;
use crate::constants::DNS_FLAG_DO;
use crate::constants::DNS_FLAG_QR;
use crate::constants::DNS_FLAG_RD;
use crate::constants::DNS_HEADER_SIZE;
use crate::constants::DNS_MAX_UNCOMPRESSED_SIZE;
use crate::constants::DNS_MAX_HOSTNAME_LEN;
use crate::constants::DNS_RR_CLASS_OFFSET;
use crate::constants::DNS_RR_HEADER_SIZE;
use crate::constants::DNS_RR_TYPE_OFFSET;
use crate::constants::DNS_TID_OFFSET;
use crate::dns_sector::lemma_layout;
use crate::dns_sector::lemma_question_shape;
use crate::dns_sector::message_scan;
use crate::dns_sector::qd_count;
use crate::dns_sector::section_count;
use crate::dns_sector::section_end;
use crate::dns_sector::DNSSector;
use crate::dns_sector::Sections;
use crate::edns_iterator::EdnsIterator;
use crate::errors::DSError;
use crate::iterable::DNSIterable;
use crate::plain::is_plain;
use crate::question_iterator::QuestionIterator;
use crate::renamer::rename_spec;
use crate::response_iterator::skip_opts;
use crate::response_iterator::AdditionalIterator;
use crate::response_iterator::AnswerIterator;
use crate::response_iterator::NameServersIterator;
use crate::response_iterator::ResponseIterator;
use crate::rr_iterator::RRIterator;
use crate::dns_sector::section_start;
use crate::renamer::Renamer;
use crate::synth::gen::RR;
use crate::wire::be16;
use crate::wire::extend_from_range;
use crate::wire::put_be16;
use crate::wire::read_be16;
use crate::wire::same_bytes;
use crate::wire::write_be16;
use rand::Rng;
use vstd::prelude::*;
use vstd::string::StringSliceAdditionalSpecFns;

verus! {

/// A `ParsedPacket` structure contains information about a successfully parsed
/// DNS packet, that allows quick access to (extended) flags and to individual sections.
#[derive(Debug)]
pub struct ParsedPacket {
    pub packet: Option<Vec<u8>>,
    pub offset_question: Option<usize>,
    pub offset_answers: Option<usize>,
    pub offset_nameservers: Option<usize>,
    pub offset_additional: Option<usize>,
    pub offset_edns: Option<usize>,
    pub edns_count: u16,
    pub ext_rcode: Option<u8>,
    pub edns_version: Option<u8>,
    pub ext_flags: Option<u16>,
    pub maybe_compressed: bool,
    pub max_payload: usize,
    pub cached: Option<(Vec<u8>, u16, u16)>,
}

/// An optional offset as a mathematical integer.
pub open spec fn opt_int(o: Option<usize>) -> Option<int> {
    match o {
        Some(v) => Some(v as int),
        None => None,
    }
}

/// The flag word of a message: the low 16 bits are the flags of the header
/// `word` with the opcode and the return code masked out, the high 16 bits
/// the extended flags of the OPT record, zero where there is none.
pub open spec fn flags_word(word: u16, ext_flags: Option<u16>) -> u32 {
    ((match ext_flags {
        Some(f) => f,
        None => 0u16,
    }) as u32) << 16 | ((word & !0x7800u16 & !0x000fu16) as u32)
}

/// The header word `word` with the flags of `flags`: the opcode and the
/// return code of `word` stay, every other bit comes from the low 16 bits of
/// `flags`.
pub open spec fn with_flags(word: u16, flags: u32) -> u16 {
    (word & 0x7800u16) | (word & 0x000fu16) | (((flags & 0xffff) as u16) & !0x7800u16 & !0x000fu16)
}

/// The question of the well-formed message `b`: its name without
/// compression, its type and its class.
pub open spec fn question_of(b: Seq<u8>) -> (Seq<u8>, u16, u16) {
    let w = name_at(b, DNS_HEADER_SIZE as int);
    (w.name, be16(b, w.end) as u16, be16(b, w.end + 2) as u16)
}

/// The offset of the count of `section` in the header.
pub open spec fn count_offset(section: Section) -> int {
    match section {
        Section::Question => 4,
        Section::Answer => 6,
        Section::NameServers => 8,
        _ => 10,
    }
}

/// `base` with the record `rr` put at the end of `section`, and the count of
/// `section` in the header raised by one.
#[verifier::opaque]
pub open spec fn spliced(base: Seq<u8>, section: Section, rr: Seq<u8>) -> Seq<u8> {
    let at = section_end(base, section);
    put_be16(
        base.subrange(0, at) + rr + base.subrange(at, base.len() as int),
        count_offset(section),
        section_count(base, section) + 1,
    )
}

/// The message that `insert_rr` installs, or the error that it answers
/// with, for a packet with the bytes `b` that may be compressed or not.
///
/// A packet that may be compressed is written without compression first.
/// The record `rr` is then put at the end of `section`. What comes out has
/// to be a well-formed message of at most 8192 bytes, with at most one
/// question and at most 65535 records in `section`.
pub open spec fn insert_spec(
    b: Seq<u8>,
    maybe_compressed: bool,
    section: Section,
    rr: Seq<u8>,
) -> Result<Seq<u8>, DSError> {
    let base = if maybe_compressed {
        uncompressed(b)
    } else {
        b
    };
    if base.len() > DNS_MAX_UNCOMPRESSED_SIZE || DNS_MAX_UNCOMPRESSED_SIZE - base.len()
        < rr.len() {
        Err(DSError::PacketTooLarge)
    } else if section == Section::Question && qd_count(base) >= 1 {
        Err(DSError::InvalidPacket("A DNS packet can only contain up to one question"))
    } else if section_count(base, section) >= 0xffff {
        Err(DSError::InvalidPacket("Too many records in the same question"))
    } else {
        match message_scan(spliced(base, section, rr), false) {
            Err(e) => Err(e),
            Ok(_) => Ok(spliced(base, section, rr)),
        }
    }
}

/// Calls `rand::thread_rng` and `rand::Rng::gen` for a `u16`. Nothing is
/// promised of the number that comes back.
#[verifier::external_body]
fn random_u16() -> u16 {
    rand::thread_rng().gen()
}

impl ParsedPacket {
    /// The bytes of the message.
    pub open spec fn bytes(&self) -> Seq<u8> {
        match self.packet {
            Some(v) => v@,
            None => Seq::<u8>::empty(),
        }
    }

    /// Whether the cached offsets and EDNS fields are those of `s`.
    pub open spec fn has_sections(&self, s: Sections) -> bool {
        &&& opt_int(self.offset_question) == s.question
        &&& opt_int(self.offset_answers) == s.answers
        &&& opt_int(self.offset_nameservers) == s.nameservers
        &&& opt_int(self.offset_additional) == s.additional
        &&& match s.edns {
            Some(e) => {
                &&& self.offset_edns is Some
                &&& self.offset_edns->Some_0 == e.start
                &&& self.edns_count as int == e.count
                &&& self.ext_rcode == Some(e.ext_rcode)
                &&& self.edns_version == Some(e.version)
                &&& self.ext_flags == Some(e.ext_flags)
            },
            None => {
                &&& self.offset_edns is None
                &&& self.edns_count == 0
                &&& self.ext_rcode is None
                &&& self.edns_version is None
                &&& self.ext_flags is None
            },
        }
    }

    /// The sections of the message.
    pub open spec fn sections(&self) -> Sections {
        message_scan(self.bytes(), false)->Ok_0
    }

    /// The invariant of a parsed packet: what a scan of the buffer has
    /// found is what the packet knows, and a packet that is marked as
    /// holding no compressed name holds a message in uncompressed form.
    pub open spec fn wf(&self) -> bool {
        &&& self.scanned()
        &&& !self.maybe_compressed ==> is_plain(self.bytes())
    }

    /// Whether the packet knows what a scan of its buffer finds: it holds
    /// a buffer, the buffer is a well-formed message, and the cached
    /// offsets and EDNS fields are the ones that a scan of the buffer finds.
    pub open spec fn scanned(&self) -> bool {
        &&& self.packet is Some
        &&& self.bytes().len() >= DNS_HEADER_SIZE
        &&& message_scan(self.bytes(), false) is Ok
        &&& self.has_sections(self.sections())
        &&& self.cached matches Some(c) ==> qd_count(self.bytes()) > 0 && question_of(self.bytes()) == (c.0@, c.1, c.2)
    }

    /// What the packet is after its buffer has been replaced by `candidate`,
    /// where `candidate` is a well-formed message: the offsets and EDNS fields
    /// are those of `candidate`, the cached question is dropped, and the
    /// largest payload is that of the OPT record where there is one. The
    /// packet is marked as one that may hold compressed names if it was, or
    /// if `candidate` is not in uncompressed form.
    pub open spec fn installed(&self, old: &ParsedPacket, candidate: Seq<u8>) -> bool {
        &&& self.wf()
        &&& self.bytes() == candidate
        &&& self.maybe_compressed == (old.maybe_compressed || !is_plain(candidate))
        &&& self.cached is None
        &&& self.max_payload == match message_scan(candidate, false)->Ok_0.edns {
            Some(e) => e.max_payload as usize,
            None => old.max_payload,
        }
    }

    /// Creates an empty parsed_packet
    pub fn empty() -> (r: Self)
        ensures
            r.wf(),
            r.bytes().len() == DNS_HEADER_SIZE,
            r.bytes().subrange(2, 12) == seq![1u8, 0u8, 0u8, 0u8, 0u8, 0u8, 0u8, 0u8, 0u8, 0u8],
            !r.maybe_compressed,
            r.max_payload == DNS_MAX_UNCOMPRESSED_SIZE,
            r.cached is None,
    {
        let mut packet: Vec<u8> = vec![0u8; 12];
        let tid: u16 = random_u16();
        write_be16(packet.as_mut_slice(), DNS_TID_OFFSET, tid);
        write_be16(packet.as_mut_slice(), DNS_FLAGS_OFFSET, DNS_FLAG_RD as u16);
        DNSSector::set_response(packet.as_mut_slice(), false);
        assert(1u8 & 0x7f == 1u8) by (bit_vector);
        assert(packet@.subrange(2, 12) =~= seq![1u8, 0u8, 0u8, 0u8, 0u8, 0u8, 0u8, 0u8, 0u8, 0u8]);
        assert(packet@[4] == 0 && packet@[5] == 0 && packet@[6] == 0 && packet@[7] == 0
            && packet@[8] == 0 && packet@[9] == 0 && packet@[10] == 0 && packet@[11] == 0) by {
            let t = packet@.subrange(2, 12);
            assert(packet@[4] == t[2] && packet@[5] == t[3] && packet@[6] == t[4] && packet@[7]
                == t[5] && packet@[8] == t[6] && packet@[9] == t[7] && packet@[10] == t[8]
                && packet@[11] == t[9]);
        }
        proof {
            crate::plain::lemma_question_only(packet@);
        }
        ParsedPacket {
            packet: Some(packet),
            offset_question: None,
            offset_answers: None,
            offset_nameservers: None,
            offset_additional: None,
            offset_edns: None,
            edns_count: 0,
            ext_rcode: None,
            edns_version: None,
            ext_flags: None,
            maybe_compressed: false,
            max_payload: DNS_MAX_UNCOMPRESSED_SIZE,
            cached: None,
        }
    }

    /// Converts a `ParsedPacket` back into a raw packet.
    pub fn into_packet(self) -> (r: Vec<u8>)
        requires
            self.packet is Some,
        ensures
            r@ == self.bytes(),
    {
        self.packet.unwrap()
    }

    /// Returns a reference to the packet
    pub fn packet(&self) -> (r: &[u8])
        requires
            self.packet is Some,
        ensures
            r@ == self.bytes(),
    {
        self.packet.as_ref().unwrap().as_slice()
    }

    /// Says whether the message is in uncompressed form: written without
    /// compression, it stays as it is.
    pub fn is_uncompressed(&self) -> (r: bool)
        requires
            self.scanned(),
        ensures
            r == is_plain(self.bytes()),
    {
        let (plain, _) = Compress::uncompress_parsed(self, 0);
        proof {
            reveal(is_plain);
        }
        same_bytes(plain.as_slice(), self.packet())
    }

    /// Replaces the buffer by `candidate` if `candidate` is a well-formed
    /// message, and leaves the packet as it is if not. A packet that was
    /// marked as holding no compressed name is marked as one that may hold
    /// some if `candidate` is not in uncompressed form.
    pub fn install(&mut self, candidate: Vec<u8>) -> (r: Result<(), DSError>)
        requires
            old(self).wf(),
        ensures
            match message_scan(candidate@, false) {
                Ok(s) => r is Ok && final(self).installed(old(self), candidate@),
                Err(e) => r == Err::<(), DSError>(e) && *final(self) == *old(self),
            },
    {
        let dns_sector = match DNSSector::new(candidate) {
            Ok(dns_sector) => dns_sector,
            Err(e) => return Err(e),
        };
        let parsed = dns_sector.scan(false)?;
        if !self.maybe_compressed {
            let plain: bool = parsed.is_uncompressed();
            self.maybe_compressed = !plain;
        }
        self.packet = parsed.packet;
        self.offset_question = parsed.offset_question;
        self.offset_answers = parsed.offset_answers;
        self.offset_nameservers = parsed.offset_nameservers;
        self.offset_additional = parsed.offset_additional;
        if parsed.offset_edns.is_some() {
            self.max_payload = parsed.max_payload;
        }
        self.offset_edns = parsed.offset_edns;
        self.edns_count = parsed.edns_count;
        self.ext_rcode = parsed.ext_rcode;
        self.edns_version = parsed.edns_version;
        self.ext_flags = parsed.ext_flags;
        self.cached = None;
        Ok(())
    }

    /// A copy of the buffer.
    pub fn to_vec(&self) -> (r: Vec<u8>)
        requires
            self.packet is Some,
        ensures
            r@ == self.bytes(),
    {
        let packet = self.packet();
        let mut copy: Vec<u8> = Vec::with_capacity(packet.len());
        extend_from_range(&mut copy, packet, 0, packet.len());
        assert(copy@ =~= self.bytes());
        copy
    }

    /// Iterates over the question section.
    pub fn into_iter_question(&mut self) -> (r: Option<QuestionIterator<'_>>)
        requires
            old(self).wf(),
        ensures
            r is Some == ((section_start(old(self).bytes(), Section::Question), section_count(old(self).bytes(), Section::Question)).1 > 0),
            match r {
                Some(it) => {
                    &&& it.rr_iterator.inv()
                    &&& it.rr_iterator.section == Section::Question
                    &&& it.rr_iterator.pp() == *old(self)
                    &&& *final(it.rr_iterator.parsed_packet) == *final(self)
                    &&& it.rr_iterator.offset == Some((section_start(old(self).bytes(), Section::Question), section_count(old(self).bytes(), Section::Question)).0 as usize)
                    &&& it.rr_iterator.rrs_left == (section_start(old(self).bytes(), Section::Question), section_count(old(self).bytes(), Section::Question)).1 - 1
                },
                None => *final(self) == *old(self),
            },
    {
        QuestionIterator::new(RRIterator::new(self, Section::Question)).next()
    }

    /// Iterates over the answer section.
    pub fn into_iter_answer(&mut self) -> (r: Option<AnswerIterator<'_>>)
        requires
            old(self).wf(),
        ensures
            r is Some == (skip_opts(old(self).bytes(), section_start(old(self).bytes(), Section::Answer), section_count(old(self).bytes(), Section::Answer)).1 > 0),
            match r {
                Some(it) => {
                    &&& it.rr_iterator.inv()
                    &&& it.rr_iterator.section == Section::Answer
                    &&& it.rr_iterator.pp() == *old(self)
                    &&& *final(it.rr_iterator.parsed_packet) == *final(self)
                    &&& it.rr_iterator.offset == Some(skip_opts(old(self).bytes(), section_start(old(self).bytes(), Section::Answer), section_count(old(self).bytes(), Section::Answer)).0 as usize)
                    &&& it.rr_iterator.rrs_left == skip_opts(old(self).bytes(), section_start(old(self).bytes(), Section::Answer), section_count(old(self).bytes(), Section::Answer)).1 - 1
                },
                None => *final(self) == *old(self),
            },
    {
        ResponseIterator::new(RRIterator::new(self, Section::Answer)).next()
    }

    /// Iterates over the list of name servers.
    pub fn into_iter_nameservers(&mut self) -> (r: Option<NameServersIterator<'_>>)
        requires
            old(self).wf(),
        ensures
            r is Some == (skip_opts(old(self).bytes(), section_start(old(self).bytes(), Section::NameServers), section_count(old(self).bytes(), Section::NameServers)).1 > 0),
            match r {
                Some(it) => {
                    &&& it.rr_iterator.inv()
                    &&& it.rr_iterator.section == Section::NameServers
                    &&& it.rr_iterator.pp() == *old(self)
                    &&& *final(it.rr_iterator.parsed_packet) == *final(self)
                    &&& it.rr_iterator.offset == Some(skip_opts(old(self).bytes(), section_start(old(self).bytes(), Section::NameServers), section_count(old(self).bytes(), Section::NameServers)).0 as usize)
                    &&& it.rr_iterator.rrs_left == skip_opts(old(self).bytes(), section_start(old(self).bytes(), Section::NameServers), section_count(old(self).bytes(), Section::NameServers)).1 - 1
                },
                None => *final(self) == *old(self),
            },
    {
        ResponseIterator::new(RRIterator::new(self, Section::NameServers)).next()
    }

    /// Iterates over the additional section - OPT RRs are skipped.
    pub fn into_iter_additional(&mut self) -> (r: Option<AdditionalIterator<'_>>)
        requires
            old(self).wf(),
        ensures
            r is Some == (skip_opts(old(self).bytes(), section_start(old(self).bytes(), Section::Additional), section_count(old(self).bytes(), Section::Additional)).1 > 0),
            match r {
                Some(it) => {
                    &&& it.rr_iterator.inv()
                    &&& it.rr_iterator.section == Section::Additional
                    &&& it.rr_iterator.pp() == *old(self)
                    &&& *final(it.rr_iterator.parsed_packet) == *final(self)
                    &&& it.rr_iterator.offset == Some(skip_opts(old(self).bytes(), section_start(old(self).bytes(), Section::Additional), section_count(old(self).bytes(), Section::Additional)).0 as usize)
                    &&& it.rr_iterator.rrs_left == skip_opts(old(self).bytes(), section_start(old(self).bytes(), Section::Additional), section_count(old(self).bytes(), Section::Additional)).1 - 1
                },
                None => *final(self) == *old(self),
            },
    {
        ResponseIterator::new(RRIterator::new(self, Section::Additional)).next()
    }

    /// Iterates over the additional section - OPT RRs are included.
    pub fn into_iter_additional_including_opt(&mut self) -> (r: Option<AdditionalIterator<'_>>)
        requires
            old(self).wf(),
        ensures
            r is Some == ((section_start(old(self).bytes(), Section::Additional), section_count(old(self).bytes(), Section::Additional)).1 > 0),
            match r {
                Some(it) => {
                    &&& it.rr_iterator.inv()
                    &&& it.rr_iterator.section == Section::Additional
                    &&& it.rr_iterator.pp() == *old(self)
                    &&& *final(it.rr_iterator.parsed_packet) == *final(self)
                    &&& it.rr_iterator.offset == Some((section_start(old(self).bytes(), Section::Additional), section_count(old(self).bytes(), Section::Additional)).0 as usize)
                    &&& it.rr_iterator.rrs_left == (section_start(old(self).bytes(), Section::Additional), section_count(old(self).bytes(), Section::Additional)).1 - 1
                },
                None => *final(self) == *old(self),
            },
    {
        ResponseIterator::new(RRIterator::new(self, Section::Additional)).next_including_opt()
    }

    /// Iterates over the records from the optional edns pseudo-section.
    pub fn into_iter_edns(&mut self) -> (r: Option<EdnsIterator<'_>>)
        requires
            old(self).wf(),
        ensures
            r is Some == ((section_start(old(self).bytes(), Section::Edns), section_count(old(self).bytes(), Section::Edns)).1 > 0),
            match r {
                Some(it) => {
                    &&& it.rr_iterator.inv()
                    &&& it.rr_iterator.section == Section::Edns
                    &&& it.rr_iterator.pp() == *old(self)
                    &&& *final(it.rr_iterator.parsed_packet) == *final(self)
                    &&& it.rr_iterator.offset == Some((section_start(old(self).bytes(), Section::Edns), section_count(old(self).bytes(), Section::Edns)).0 as usize)
                    &&& it.rr_iterator.rrs_left == (section_start(old(self).bytes(), Section::Edns), section_count(old(self).bytes(), Section::Edns)).1 - 1
                },
                None => *final(self) == *old(self),
            },
    {
        EdnsIterator::new(RRIterator::new(self, Section::Edns)).next()
    }

    /// Copy the packet header
    pub fn copy_header(&self, header: &mut Vec<u8>)
        requires
            self.packet is Some,
            self.bytes().len() >= DNS_HEADER_SIZE,
        ensures
            final(header)@ == old(header)@ + self.bytes().subrange(0, DNS_HEADER_SIZE as int),
    {
        extend_from_range(header, self.packet(), 0, DNS_HEADER_SIZE);
    }

    /// Copy the EDNS section: the OPT record, from its name to the last of its options.
    pub fn copy_raw_edns_section(&self, raw_edns: &mut Vec<u8>) -> (r: usize)
        requires
            self.packet is Some,
        ensures
            match self.offset_edns {
                Some(offset_edns) if 1 + DNS_RR_HEADER_SIZE <= offset_edns && offset_edns + be16(
                    self.bytes(),
                    offset_edns - 2,
                ) <= self.bytes().len() => {
                    &&& final(raw_edns)@ == old(raw_edns)@ + self.bytes().subrange(
                        offset_edns - (1 + DNS_RR_HEADER_SIZE),
                        offset_edns + be16(self.bytes(), offset_edns - 2),
                    )
                    &&& r == 1 + DNS_RR_HEADER_SIZE + be16(self.bytes(), offset_edns - 2)
                },
                _ => final(raw_edns)@ == old(raw_edns)@ && r == 0,
            },
    {
        let offset_edns: usize = match self.offset_edns {
            None => return 0,
            Some(offset_edns) => offset_edns,
        };
        let packet = self.packet();
        if offset_edns < 1 + DNS_RR_HEADER_SIZE || offset_edns > packet.len() {
            return 0;
        }
        let offset_edns_header: usize = offset_edns - (1 + DNS_RR_HEADER_SIZE);
        let edns_len: usize = read_be16(packet, offset_edns - 2) as usize;
        if edns_len > packet.len() - offset_edns {
            return 0;
        }
        extend_from_range(raw_edns, packet, offset_edns_header, offset_edns + edns_len);
        1 + DNS_RR_HEADER_SIZE + edns_len
    }

    /// Returns the transaction ID.
    pub fn tid(&self) -> (r: u16)
        requires
            self.wf(),
        ensures
            r == be16(self.bytes(), 0),
    {
        read_be16(self.packet(), DNS_TID_OFFSET)
    }

    /// Changes the transaction ID. The message stays as it is where it would
    /// not be well formed with the new value, which can only be where a name
    /// reads its labels from the header.
    pub fn set_tid(&mut self, tid: u16)
        requires
            old(self).wf(),
        ensures
            final(self).wf(),
            match message_scan(put_be16(old(self).bytes(), 0, tid as int), false) {
                Ok(s) => final(self).installed(
                    old(self),
                    put_be16(old(self).bytes(), 0, tid as int),
                ),
                Err(e) => *final(self) == *old(self),
            },
    {
        let mut candidate: Vec<u8> = self.to_vec();
        write_be16(candidate.as_mut_slice(), DNS_TID_OFFSET, tid);
        let _ = self.install(candidate);
    }

    /// Returns the flags, including extended flags.
    /// The extended flags optionally obtained using edns are exposed as the highest 16 bits,
    /// instead of having distinct sets of flags.
    /// The opcode and rcode are intentionally masked in order to prevent misuse:
    /// these bits are never supposed to be accessed individually.
    pub fn flags(&self) -> (r: u32)
        requires
            self.wf(),
        ensures
            r == flags_word(be16(self.bytes(), 2) as u16, self.ext_flags),
    {
        let mut rflags: u16 = read_be16(self.packet(), DNS_FLAGS_OFFSET);
        rflags &= !0x7800;  // mask opcode
        rflags &= !0x000f;  // mask rcode
        let ext: u16 = match self.ext_flags {
            Some(f) => f,
            None => 0,
        };
        (ext as u32) << 16 | (rflags as u32)
    }

    /// Changes the flags.
    /// Extended flags from the OPT section are currently ignored.
    /// The message stays as it is where it would not be well formed with the
    /// new value, which can only be where a name reads its labels from the
    /// header.
    pub fn set_flags(&mut self, flags: u32)
        requires
            old(self).wf(),
        ensures
            final(self).wf(),
            ({
                let word = with_flags(be16(old(self).bytes(), 2) as u16, flags);
                match message_scan(put_be16(old(self).bytes(), 2, word as int), false) {
                    Ok(s) => final(self).installed(
                        old(self),
                        put_be16(old(self).bytes(), 2, word as int),
                    ),
                    Err(e) => *final(self) == *old(self),
                }
            }),
    {
        let mut rflags: u16 = (flags & 0xffff) as u16;
        rflags &= !0x7800;  // mask opcode
        rflags &= !0x000f;  // mask rcode
        let mut candidate: Vec<u8> = self.to_vec();
        let mut v: u16 = read_be16(candidate.as_slice(), DNS_FLAGS_OFFSET);
        let ghost word: u16 = v;
        v = (v & 0x7800) | (v & 0x000f) | rflags;
        write_be16(candidate.as_mut_slice(), DNS_FLAGS_OFFSET, v);
        let _ = self.install(candidate);
    }

    /// Check if this is a question with the DO bit, or a response with the AD bit
    pub fn dnssec(&self) -> (r: bool)
        requires
            self.wf(),
        ensures
            r == ({
                let flags = flags_word(be16(self.bytes(), 2) as u16, self.ext_flags);
                if flags & DNS_FLAG_QR == 0 {
                    (flags & DNS_FLAG_DO) != 0
                } else {
                    (flags & DNS_FLAG_AD) != 0
                }
            }),
    {
        let flags: u32 = self.flags();
        if flags & DNS_FLAG_QR == 0 {
            (flags & DNS_FLAG_DO) != 0
        } else {
            (flags & DNS_FLAG_AD) != 0
        }
    }

    /// Check if this is a response
    pub fn is_response(&self) -> (r: bool)
        requires
            self.wf(),
        ensures
            r == crate::dns_sector::response_bit(self.bytes()),
    {
        DNSSector::is_response(self.packet())
    }

    /// Set the response bit. The message stays as it is where it would not
    /// be well formed with the new value, which can only be where a name
    /// reads its labels from the header.
    pub fn set_response(&mut self, is_response: bool)
        requires
            old(self).wf(),
        ensures
            final(self).wf(),
            ({
                let byte = if is_response {
                    old(self).bytes()[2] | 0x80
                } else {
                    old(self).bytes()[2] & 0x7f
                };
                match message_scan(old(self).bytes().update(2, byte), false) {
                    Ok(s) => final(self).installed(old(self), old(self).bytes().update(2, byte)),
                    Err(e) => *final(self) == *old(self),
                }
            }),
    {
        let mut candidate: Vec<u8> = self.to_vec();
        DNSSector::set_response(candidate.as_mut_slice(), is_response);
        let _ = self.install(candidate);
    }

    /// Returns the return code.
    pub fn rcode(&self) -> (r: u8)
        requires
            self.wf(),
        ensures
            r == self.bytes()[3] & 0x0f,
    {
        let rflags: u8 = self.packet()[DNS_FLAGS_OFFSET + 1];
        rflags & 0x0f
    }

    /// Changes the return code. The message stays as it is where it would
    /// not be well formed with the new value, which can only be where a name
    /// reads its labels from the header.
    pub fn set_rcode(&mut self, rcode: u8)
        requires
            old(self).wf(),
        ensures
            final(self).wf(),
            ({
                let byte = (old(self).bytes()[3] & !0x0fu8) | (rcode & 0x0f);
                match message_scan(old(self).bytes().update(3, byte), false) {
                    Ok(s) => final(self).installed(old(self), old(self).bytes().update(3, byte)),
                    Err(e) => *final(self) == *old(self),
                }
            }),
    {
        let mut candidate: Vec<u8> = self.to_vec();
        let p: u8 = candidate[DNS_FLAGS_OFFSET + 1];
        candidate[DNS_FLAGS_OFFSET + 1] = (p & !0x0f) | (rcode & 0x0f);
        let _ = self.install(candidate);
    }

    /// Returns the opcode.
    pub fn opcode(&self) -> (r: u8)
        requires
            self.wf(),
        ensures
            r == (self.bytes()[2] & 0x78) >> 3,
    {
        let rflags: u8 = self.packet()[DNS_FLAGS_OFFSET];
        (rflags & 0x78) >> 3
    }

    /// Changes the operation code. The message stays as it is where it would
    /// not be well formed with the new value, which can only be where a name
    /// reads its labels from the header.
    pub fn set_opcode(&mut self, opcode: u8)
        requires
            old(self).wf(),
        ensures
            final(self).wf(),
            ({
                let byte = (old(self).bytes()[2] & !0x78u8) | ((opcode << 3) & 0x78);
                match message_scan(old(self).bytes().update(2, byte), false) {
                    Ok(s) => final(self).installed(old(self), old(self).bytes().update(2, byte)),
                    Err(e) => *final(self) == *old(self),
                }
            }),
    {
        let mut candidate: Vec<u8> = self.to_vec();
        let p: u8 = candidate[DNS_FLAGS_OFFSET];
        candidate[DNS_FLAGS_OFFSET] = (p & !0x78) | ((opcode << 3) & 0x78);
        let _ = self.install(candidate);
    }

    /// Gives access to the buffer. Whoever changes the buffer has to leave
    /// a well-formed message with the same sections in it.
    pub fn packet_mut(&mut self) -> (r: &mut Vec<u8>)
        requires
            old(self).packet is Some,
        ensures
            *r == old(self).packet->Some_0,
            final(self).packet == Some(*final(r)),
            final(self).offset_question == old(self).offset_question,
            final(self).offset_answers == old(self).offset_answers,
            final(self).offset_nameservers == old(self).offset_nameservers,
            final(self).offset_additional == old(self).offset_additional,
            final(self).offset_edns == old(self).offset_edns,
            final(self).edns_count == old(self).edns_count,
            final(self).ext_rcode == old(self).ext_rcode,
            final(self).edns_version == old(self).edns_version,
            final(self).ext_flags == old(self).ext_flags,
            final(self).maybe_compressed == old(self).maybe_compressed,
            final(self).max_payload == old(self).max_payload,
            final(self).cached == old(self).cached,
    {
        self.packet.as_mut().unwrap()
    }

    /// Increments the number of records in a given section. The record
    /// itself is for the caller to add: until then the packet does not
    /// hold what its header announces.
    pub fn rrcount_inc(&mut self, section: Section) -> (r: Result<u16, DSError>)
        requires
            old(self).packet is Some,
            old(self).bytes().len() >= DNS_HEADER_SIZE,
            section != Section::Edns,
        ensures
            final(self).packet is Some,
            ({
                let count = be16(old(self).bytes(), count_offset(section));
                if section == Section::Question && count >= 1 {
                    r == Err::<u16, DSError>(
                        DSError::InvalidPacket("A DNS packet can only contain up to one question"),
                    ) && *final(self) == *old(self)
                } else if count >= 0xffff {
                    r == Err::<u16, DSError>(
                        DSError::InvalidPacket("Too many records in the same question"),
                    ) && *final(self) == *old(self)
                } else {
                    &&& r == Ok::<u16, DSError>((count + 1) as u16)
                    &&& final(self).bytes() == put_be16(
                        old(self).bytes(),
                        count_offset(section),
                        count + 1,
                    )
                    &&& *final(self) == (ParsedPacket { packet: final(self).packet, ..*old(self) })
                }
            }),
    {
        let mut packet: Vec<u8> = self.packet.take().unwrap();
        let rrcount: u16 = match section {
            Section::Question => DNSSector::qdcount(packet.as_slice()),
            Section::Answer => DNSSector::ancount(packet.as_slice()),
            Section::NameServers => DNSSector::nscount(packet.as_slice()),
            _ => DNSSector::arcount(packet.as_slice()),
        };
        if (section == Section::Question && rrcount >= 1) || rrcount >= 0xffff {
            self.packet = Some(packet);
            if section == Section::Question && rrcount >= 1 {
                return Err(
                    DSError::InvalidPacket("A DNS packet can only contain up to one question"),
                );
            }
            return Err(DSError::InvalidPacket("Too many records in the same question"));
        }
        let rrcount: u16 = rrcount + 1;
        match section {
            Section::Question => DNSSector::set_qdcount(packet.as_mut_slice(), rrcount),
            Section::Answer => DNSSector::set_ancount(packet.as_mut_slice(), rrcount),
            Section::NameServers => DNSSector::set_nscount(packet.as_mut_slice(), rrcount),
            _ => DNSSector::set_arcount(packet.as_mut_slice(), rrcount),
        }
        self.packet = Some(packet);
        Ok(rrcount)
    }

    /// Decrements the number of records in a given section. The record
    /// itself is for the caller to take out: until then the packet does not
    /// hold what its header announces.
    pub fn rrcount_dec(&mut self, section: Section) -> (r: Result<u16, DSError>)
        requires
            old(self).packet is Some,
            old(self).bytes().len() >= DNS_HEADER_SIZE,
            section != Section::Edns,
            be16(old(self).bytes(), count_offset(section)) > 0,
        ensures
            final(self).packet is Some,
            r == Ok::<u16, DSError>((be16(old(self).bytes(), count_offset(section)) - 1) as u16),
            final(self).bytes() == put_be16(
                old(self).bytes(),
                count_offset(section),
                be16(old(self).bytes(), count_offset(section)) - 1,
            ),
            *final(self) == (ParsedPacket { packet: final(self).packet, ..*old(self) }),
    {
        let mut packet: Vec<u8> = self.packet.take().unwrap();
        let rrcount: u16 = match section {
            Section::Question => DNSSector::qdcount(packet.as_slice()),
            Section::Answer => DNSSector::ancount(packet.as_slice()),
            Section::NameServers => DNSSector::nscount(packet.as_slice()),
            _ => DNSSector::arcount(packet.as_slice()),
        };
        let rrcount: u16 = rrcount - 1;
        match section {
            Section::Question => DNSSector::set_qdcount(packet.as_mut_slice(), rrcount),
            Section::Answer => DNSSector::set_ancount(packet.as_mut_slice(), rrcount),
            Section::NameServers => DNSSector::set_nscount(packet.as_mut_slice(), rrcount),
            _ => DNSSector::set_arcount(packet.as_mut_slice(), rrcount),
        }
        self.packet = Some(packet);
        Ok(rrcount)
    }

    /// Where a record that is added to `section` goes: the end of the
    /// section, which is where the next section that is not empty starts,
    /// or the end of the packet.
    pub fn insertion_offset(&self, section: Section) -> (r: Result<usize, DSError>)
        requires
            self.wf(),
            section != Section::Edns,
        ensures
            r is Ok,
            r->Ok_0 == section_end(self.bytes(), section),
            DNS_HEADER_SIZE <= r->Ok_0 <= self.bytes().len(),
    {
        proof {
            lemma_layout(self.bytes());
        }
        let len: usize = self.packet().len();
        let offset: usize = match section {
            Section::Question => match self.offset_answers {
                Some(o) => o,
                None => match self.offset_nameservers {
                    Some(o) => o,
                    None => match self.offset_additional {
                        Some(o) => o,
                        None => len,
                    },
                },
            },
            Section::Answer => match self.offset_nameservers {
                Some(o) => o,
                None => match self.offset_additional {
                    Some(o) => o,
                    None => len,
                },
            },
            Section::NameServers => match self.offset_additional {
                Some(o) => o,
                None => len,
            },
            _ => len,
        };
        Ok(offset)
    }

    /// The buffer with `rr` put at the end of `section` and counted in the header.
    fn splice(&self, section: Section, rr: &[u8]) -> (r: Result<Vec<u8>, DSError>)
        requires
            self.wf(),
            section != Section::Edns,
        ensures
            ({
                let base = self.bytes();
                if base.len() > DNS_MAX_UNCOMPRESSED_SIZE || DNS_MAX_UNCOMPRESSED_SIZE
                    - base.len() < rr@.len() {
                    r == Err::<Vec<u8>, DSError>(DSError::PacketTooLarge)
                } else if section == Section::Question && qd_count(base) >= 1 {
                    r == Err::<Vec<u8>, DSError>(
                        DSError::InvalidPacket("A DNS packet can only contain up to one question"),
                    )
                } else if section_count(base, section) >= 0xffff {
                    r == Err::<Vec<u8>, DSError>(
                        DSError::InvalidPacket("Too many records in the same question"),
                    )
                } else {
                    r is Ok && r->Ok_0@ == spliced(base, section, rr@)
                }
            }),
    {
        reveal(spliced);
        let packet = self.packet();
        let rr_len: usize = rr.len();
        if packet.len() > DNS_MAX_UNCOMPRESSED_SIZE || DNS_MAX_UNCOMPRESSED_SIZE - packet.len()
            < rr_len {
            return Err(DSError::PacketTooLarge);
        }
        let rrcount: u16 = match section {
            Section::Question => DNSSector::qdcount(packet),
            Section::Answer => DNSSector::ancount(packet),
            Section::NameServers => DNSSector::nscount(packet),
            _ => DNSSector::arcount(packet),
        };
        if section == Section::Question && rrcount >= 1 {
            return Err(DSError::InvalidPacket("A DNS packet can only contain up to one question"));
        }
        if rrcount >= 0xffff {
            return Err(DSError::InvalidPacket("Too many records in the same question"));
        }
        let insertion_offset: usize = self.insertion_offset(section)?;
        let mut candidate: Vec<u8> = Vec::with_capacity(packet.len() + rr_len);
        extend_from_range(&mut candidate, packet, 0, insertion_offset);
        extend_from_range(&mut candidate, rr, 0, rr_len);
        extend_from_range(&mut candidate, packet, insertion_offset, packet.len());
        assert(rr@.subrange(0, rr_len as int) =~= rr@);
        match section {
            Section::Question => DNSSector::set_qdcount(candidate.as_mut_slice(), rrcount + 1),
            Section::Answer => DNSSector::set_ancount(candidate.as_mut_slice(), rrcount + 1),
            Section::NameServers => DNSSector::set_nscount(candidate.as_mut_slice(), rrcount + 1),
            _ => DNSSector::set_arcount(candidate.as_mut_slice(), rrcount + 1),
        }
        Ok(candidate)
    }

    /// Adds the record `rr` at the end of `section`. A packet that may be
    /// compressed is written without compression first. The packet stays as
    /// it is where the record cannot be added.
    pub fn insert_rr(&mut self, section: Section, rr: RR) -> (r: Result<(), DSError>)
        requires
            old(self).wf(),
            section != Section::Edns,
        ensures
            final(self).wf(),
            match insert_spec(old(self).bytes(), old(self).maybe_compressed, section, rr.packet@) {
                Err(e) => r == Err::<(), DSError>(e) && *final(self) == *old(self),
                Ok(candidate) => {
                    &&& r is Ok
                    &&& final(self).bytes() == candidate
                    &&& final(self).maybe_compressed == !is_plain(candidate)
                    &&& final(self).cached is None
                },
            },
    {
        proof {
            crate::plain::lemma_uncompressed_scan(self.bytes(), false);
        }
        let candidate: Vec<u8> = if self.maybe_compressed {
            let (uncompressed, _) = Compress::uncompress_parsed(self, 0);
            let dns_sector = match DNSSector::new(uncompressed) {
                Ok(dns_sector) => dns_sector,
                Err(e) => return Err(e),
            };
            let base = dns_sector.scan(false)?;
            base.splice(section, rr.packet.as_slice())?
        } else {
            self.splice(section, rr.packet.as_slice())?
        };
        self.install(candidate)?;
        if self.maybe_compressed {
            let plain: bool = self.is_uncompressed();
            self.maybe_compressed = !plain;
        }
        Ok(())
    }

    /// Adds the record that the line of text `rr_str` spells at the end of `section`.
    pub fn insert_rr_from_string(&mut self, section: Section, rr_str: &str) -> (r: Result<
        (),
        DSError,
    >)
        requires
            old(self).wf(),
            section != Section::Edns,
        ensures
            final(self).wf(),
            match crate::synth::parser::rr_from_text(rr_str.spec_bytes()) {
                Err(e) => r == Err::<(), DSError>(e) && *final(self) == *old(self),
                Ok((rr, _)) => match insert_spec(
                    old(self).bytes(),
                    old(self).maybe_compressed,
                    section,
                    rr,
                ) {
                    Err(e) => r == Err::<(), DSError>(e) && *final(self) == *old(self),
                    Ok(candidate) => {
                        &&& r is Ok
                        &&& final(self).bytes() == candidate
                        &&& final(self).maybe_compressed == !is_plain(candidate)
                        &&& final(self).cached is None
                    },
                },
            },
    {
        let rr = RR::from_string(rr_str)?;
        self.insert_rr(section, rr)
    }

    /// Recomputes all section offsets after an in-place decompression of the packet,
    /// by validating the packet again, and notes that the packet holds no
    /// compressed name any more if the message is in uncompressed form.
    pub fn recompute(&mut self) -> (r: Result<(), DSError>)
        requires
            old(self).wf(),
        ensures
            r is Ok,
            final(self).wf(),
            final(self).bytes() == old(self).bytes(),
            final(self).maybe_compressed == !is_plain(old(self).bytes()),
            old(self).maybe_compressed ==> final(self).cached is None,
            !old(self).maybe_compressed ==> *final(self) == *old(self),
    {
        if !self.maybe_compressed {
            return Ok(());
        }
        let candidate: Vec<u8> = self.to_vec();
        self.install(candidate)?;
        let plain: bool = self.is_uncompressed();
        self.maybe_compressed = !plain;
        Ok(())
    }

    /// Returns the question as a raw vector, without case conversion, as well as the query type and class
    /// Names include a trailing `0`
    pub fn question_raw0(&mut self) -> (r: Option<(Vec<u8>, u16, u16)>)
        requires
            old(self).wf(),
        ensures
            final(self).wf(),
            final(self).bytes() == old(self).bytes(),
            *final(self) == (ParsedPacket { cached: final(self).cached, ..*old(self) }),
            if qd_count(old(self).bytes()) > 0 {
                &&& r is Some
                &&& (r->Some_0.0@, r->Some_0.1, r->Some_0.2) == question_of(old(self).bytes())
                &&& final(self).cached is Some
            } else {
                r is None && final(self).cached is None
            },
    {
        proof {
            lemma_layout(self.bytes());
        }
        if let Some(cached) = &self.cached {
            let mut name: Vec<u8> = Vec::with_capacity(cached.0.len());
            extend_from_range(&mut name, cached.0.as_slice(), 0, cached.0.len());
            assert(name@ =~= cached.0@);
            return Some((name, cached.1, cached.2));
        }
        let offset: usize = match self.offset_question {
            None => return None,
            Some(offset) => offset,
        };
        proof {
            lemma_question_shape(self.bytes(), offset as int, false);
        }
        let mut name: Vec<u8> = Vec::with_capacity(DNS_MAX_HOSTNAME_LEN);
        let uncompressed_name_result = Compress::copy_uncompressed_name(
            &mut name,
            self.packet(),
            offset,
        );
        let offset: usize = uncompressed_name_result.final_offset;
        let packet = self.packet();
        assert(offset + 4 <= packet.len());
        let rr_type: u16 = read_be16(packet, offset + DNS_RR_TYPE_OFFSET);
        let rr_class: u16 = read_be16(packet, offset + DNS_RR_CLASS_OFFSET);
        let mut copy: Vec<u8> = Vec::with_capacity(name.len());
        extend_from_range(&mut copy, name.as_slice(), 0, name.len());
        assert(copy@ =~= name@);
        self.cached = Some((name, rr_type, rr_class));
        Some((copy, rr_type, rr_class))
    }

    /// Returns the question as a raw vector, without case conversion, as well as the query type and class
    /// Names do not include trailing `0`
    pub fn question_raw(&mut self) -> (r: Option<(Vec<u8>, u16, u16)>)
        requires
            old(self).wf(),
        ensures
            final(self).wf(),
            final(self).bytes() == old(self).bytes(),
            *final(self) == (ParsedPacket { cached: final(self).cached, ..*old(self) }),
            if qd_count(old(self).bytes()) > 0 {
                &&& r is Some
                &&& (r->Some_0.0@ + seq![0u8], r->Some_0.1, r->Some_0.2) == question_of(
                    old(self).bytes(),
                )
                &&& final(self).cached is Some
            } else {
                r is None && final(self).cached is None
            },
    {
        proof {
            lemma_layout(self.bytes());
            if qd_count(self.bytes()) > 0 {
                lemma_question_shape(self.bytes(), DNS_HEADER_SIZE as int, false);
                lemma_name_stands_alone(self.bytes(), DNS_HEADER_SIZE as int);
                crate::compress::lemma_raw_name_last(
                    name_at(self.bytes(), DNS_HEADER_SIZE as int).name,
                    0,
                );
            }
        }
        match self.question_raw0() {
            Some((name, rr_type, rr_class)) => {
                let mut name = name;
                let last: Option<u8> = name.pop();
                assert(name@ + seq![0u8] =~= question_of(old(self).bytes()).0);
                Some((name, rr_type, rr_class))
            },
            None => None,
        }
    }

    /// Returns the question as a string, in lower case, as well as the query type and class
    pub fn question(&mut self) -> (r: Option<(Vec<u8>, u16, u16)>)
        requires
            old(self).wf(),
        ensures
            *final(self) == *old(self),
            if qd_count(old(self).bytes()) > 0 {
                &&& r is Some
                &&& r->Some_0.0@ == presentation(question_of(old(self).bytes()).0)
                &&& r->Some_0.1 == question_of(old(self).bytes()).1
                &&& r->Some_0.2 == question_of(old(self).bytes()).2
            } else {
                r is None
            },
    {
        proof {
            lemma_layout(self.bytes());
        }
        if let Some(cached) = &self.cached {
            proof {
                lemma_question_shape(self.bytes(), DNS_HEADER_SIZE as int, false);
                lemma_name_stands_alone(self.bytes(), DNS_HEADER_SIZE as int);
            }
            let name_str: Vec<u8> = Compress::raw_name_to_str(cached.0.as_slice(), 0);
            return Some((name_str, cached.1, cached.2));
        }
        let offset: usize = match self.offset_question {
            None => return None,
            Some(offset) => offset,
        };
        proof {
            lemma_question_shape(self.bytes(), offset as int, false);
        }
        let name_str: Vec<u8> = Compress::raw_name_to_str(self.packet(), offset);
        let offset: usize = crate::rr_iterator::RRIterator::skip_name(self.packet(), offset);
        let packet = self.packet();
        assert(offset + 4 <= packet.len());
        let rr_type: u16 = read_be16(packet, offset + DNS_RR_TYPE_OFFSET);
        let rr_class: u16 = read_be16(packet, offset + DNS_RR_CLASS_OFFSET);
        Some((name_str, rr_type, rr_class))
    }

    /// Return the query type and class
    pub fn qtype_qclass(&self) -> (r: Option<(u16, u16)>)
        requires
            self.wf(),
        ensures
            if qd_count(self.bytes()) > 0 {
                r == Some((question_of(self.bytes()).1, question_of(self.bytes()).2))
            } else {
                r is None
            },
    {
        proof {
            lemma_layout(self.bytes());
        }
        if let Some(cached) = &self.cached {
            return Some((cached.1, cached.2));
        }
        let offset: usize = match self.offset_question {
            None => return None,
            Some(offset) => offset,
        };
        proof {
            lemma_question_shape(self.bytes(), offset as int, false);
        }
        let offset: usize = crate::rr_iterator::RRIterator::skip_name(self.packet(), offset);
        let packet = self.packet();
        assert(offset + 4 <= packet.len());
        let rr_type: u16 = read_be16(packet, offset + DNS_RR_TYPE_OFFSET);
        let rr_class: u16 = read_be16(packet, offset + DNS_RR_CLASS_OFFSET);
        Some((rr_type, rr_class))
    }

    /// Replaces `source_name` with `target_name` in all names, in all records.
    /// If `match_suffix` is `true`, do suffix matching instead of exact matching
    /// This allows renaming `*.example.com` into `*.example.net`.
    /// The packet stays as it is where the names cannot be replaced.
    pub fn rename_with_raw_names(
        &mut self,
        target_name: &[u8],
        source_name: &[u8],
        match_suffix: bool,
    ) -> (r: Result<(), DSError>)
        requires
            old(self).wf(),
        ensures
            final(self).wf(),
            match rename_spec(
                old(self).bytes(),
                old(self).offset_edns,
                target_name@,
                source_name@,
                match_suffix,
            ) {
                Err(e) => r == Err::<(), DSError>(e) && *final(self) == *old(self),
                Ok(renamed) => match message_scan(renamed, false) {
                    Err(e) => r == Err::<(), DSError>(e) && *final(self) == *old(self),
                    Ok(_) => {
                        &&& r is Ok
                        &&& final(self).bytes() == renamed
                        &&& final(self).maybe_compressed
                        &&& final(self).cached is None
                    },
                },
            },
    {
        let packet: Vec<u8> = Renamer::rename_with_raw_names(
            self,
            target_name,
            source_name,
            match_suffix,
        )?;
        self.install(packet)?;
        self.maybe_compressed = true;
        Ok(())
    }

    /// Maximum payload size when using UDP
    pub fn max_payload(&self) -> (r: usize)
        ensures
            r == self.max_payload,
    {
        self.max_payload
    }
}

} // verus!
