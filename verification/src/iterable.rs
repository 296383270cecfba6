//! What the iterators over the sections of a packet have in common.

use crate::compress::name_at;
use crate::compress::presentation;
use crate::constants::Section;
use crate::constants::Type;
use crate::constants::DNS_MAX_HOSTNAME_LEN;
use crate::constants::DNS_RR_HEADER_SIZE;
use crate::dns_sector::question_scan;
use crate::dns_sector::rr_scan;
use crate::errors::DSError;
use crate::parsed_packet::ParsedPacket;
use crate::plain::is_plain;
use crate::rr_iterator::delete_spec;
use crate::rr_iterator::ip_bytes;
use crate::rr_iterator::is_response_section;
use crate::rr_iterator::record_name_end;
use crate::rr_iterator::record_next;
use crate::rr_iterator::reinstalled;
use crate::rr_iterator::set_ip_spec;
use crate::rr_iterator::set_name_spec;
use crate::rr_iterator::txt_text;
use crate::rr_iterator::uncompress_spec;
use crate::rr_iterator::IpAddr;
use crate::rr_iterator::RRIterator;
use crate::rr_iterator::RRRaw;
use crate::rr_iterator::RRRawMut;
use crate::wire::be16;
use crate::wire::be32;
use crate::wire::put_be32;
use vstd::prelude::*;

verus! {

/// The `DNSIterable` trait represents a set of records that can be iterated over.
pub trait DNSIterable<'t>: Sized {
    /// The iterator over the records that stands behind this one.
    spec fn inner(&self) -> RRIterator<'t>;

    /// Gives the iterator over the records that stands behind this one.
    fn it(&self) -> (r: &RRIterator<'t>)
        ensures
            *r == self.inner(),
    ;

    /// Gives the iterator over the records that stands behind this one, to change it.
    fn it_mut(&mut self) -> (r: &mut RRIterator<'t>)
        ensures
            *r == old(self).inner(),
            final(self).inner() == *final(r),
    ;

    /// Where the record that `next` gives starts, and how many records
    /// there are from there on: none where `next` gives nothing.
    spec fn upcoming(&self) -> (int, int);

    /// Whether the iterator is over a section that this kind of iterator is for.
    spec fn section_ok(&self) -> bool;

    /// Returns the next record, or `None` if there aren't any left.
    fn next(self) -> (r: Option<Self>)
        requires
            self.inner().inv(),
            self.section_ok(),
        ensures
            r is Some == (self.upcoming().1 > 0),
            match r {
                Some(next) => {
                    &&& next.inner().inv()
                    &&& next.section_ok()
                    &&& next.inner().pp() == self.inner().pp()
                    &&& next.inner().section == self.inner().section
                    &&& *final(next.inner().parsed_packet) == *final(self.inner().parsed_packet)
                    &&& next.inner().offset == Some(self.upcoming().0 as usize)
                    &&& next.inner().rrs_left == self.upcoming().1 - 1
                },
                None => *final(self.inner().parsed_packet) == self.inner().pp(),
            },
    ;

    /// Returns the offset of the current RR, or `None` if we haven't started iterating yet
    /// or if the current record has been deleted.
    fn offset(&self) -> (r: Option<usize>)
        ensures
            r == self.inner().offset,
    {
        self.it().offset()
    }

    /// Returns the offset right after the current RR.
    fn offset_next(&self) -> (r: usize)
        ensures
            r == self.inner().offset_next,
    {
        self.it().offset_next()
    }

    /// Sets the offset of the current RR. The fields that say where the
    /// name and the record end stay as they are: `recompute` sets them.
    fn set_offset(&mut self, offset: usize)
        ensures
            final(self).inner().offset == Some(offset),
            final(self).inner().pp() == old(self).inner().pp(),
            *final(final(self).inner().parsed_packet) == *final(old(self).inner().parsed_packet),
            final(self).inner().section == old(self).inner().section,
            final(self).inner().offset_next == old(self).inner().offset_next,
            final(self).inner().name_end == old(self).inner().name_end,
            final(self).inner().rrs_left == old(self).inner().rrs_left,
    {
        self.it_mut().set_offset(offset)
    }

    /// Sets the offset of the next RR.
    fn set_offset_next(&mut self, offset: usize)
        ensures
            final(self).inner().offset_next == offset,
            final(self).inner().pp() == old(self).inner().pp(),
            *final(final(self).inner().parsed_packet) == *final(old(self).inner().parsed_packet),
            final(self).inner().section == old(self).inner().section,
            final(self).inner().offset == old(self).inner().offset,
            final(self).inner().name_end == old(self).inner().name_end,
            final(self).inner().rrs_left == old(self).inner().rrs_left,
    {
        self.it_mut().set_offset_next(offset)
    }

    /// Prevents access to the current record.
    /// This is useful after a delete operation: from a user perspective, the current
    /// iterator doesn't point to a valid RR any more.
    fn invalidate(&mut self)
        ensures
            final(self).inner().offset is None,
            final(self).inner().pp() == old(self).inner().pp(),
            *final(final(self).inner().parsed_packet) == *final(old(self).inner().parsed_packet),
            final(self).inner().section == old(self).inner().section,
            final(self).inner().offset_next == old(self).inner().offset_next,
            final(self).inner().name_end == old(self).inner().name_end,
            final(self).inner().rrs_left == old(self).inner().rrs_left,
    {
        self.it_mut().invalidate()
    }

    /// Returns `true` if the record has been invalidated by a previous call to `delete()`
    fn is_tombstone(&self) -> (r: bool)
        ensures
            r == (self.inner().offset is None),
    {
        self.it().is_tombstone()
    }

    /// Updates the precomputed RR information: where the name of the
    /// current record ends, and where the record itself does, are read
    /// again from the record that stands at the offset of the iterator. An
    /// iterator that knew both stays as it is.
    fn recompute_rr(&mut self)
        requires
            old(self).inner().pp().wf(),
            old(self).inner().live(),
            old(self).inner().section != Section::Edns,
            old(self).inner().section == Section::Question ==> question_scan(
                old(self).inner().bytes(),
                old(self).inner().at(),
                false,
            ) is Ok,
            is_response_section(old(self).inner().section) ==> rr_scan(
                old(self).inner().bytes(),
                old(self).inner().at(),
                old(self).inner().section,
                false,
            ) is Ok,
        ensures
            final(self).inner().pp() == old(self).inner().pp(),
            *final(final(self).inner().parsed_packet) == *final(old(self).inner().parsed_packet),
            final(self).inner().section == old(self).inner().section,
            final(self).inner().offset == old(self).inner().offset,
            final(self).inner().rrs_left == old(self).inner().rrs_left,
            final(self).inner().name_end == record_name_end(
                old(self).inner().bytes(),
                old(self).inner().section,
                old(self).inner().at(),
            ),
            final(self).inner().offset_next == record_next(
                old(self).inner().bytes(),
                old(self).inner().section,
                old(self).inner().at(),
            ),
            old(self).inner().inv() ==> final(self).inner().same_as(&old(self).inner()),
    {
        self.it_mut().recompute_rr()
    }

    /// Updates the precomputed offsets of each section, by validating the
    /// packet again, and notes that it holds no compressed name any more if
    /// the message is in uncompressed form.
    fn recompute_sections(&mut self)
        requires
            old(self).inner().inv(),
        ensures
            final(self).inner().inv(),
            *final(final(self).inner().parsed_packet) == *final(old(self).inner().parsed_packet),
            final(self).inner().bytes() == old(self).inner().bytes(),
            final(self).inner().pp().maybe_compressed == !is_plain(old(self).inner().bytes()),
            final(self).inner().section == old(self).inner().section,
            final(self).inner().offset == old(self).inner().offset,
            final(self).inner().offset_next == old(self).inner().offset_next,
            final(self).inner().name_end == old(self).inner().name_end,
            final(self).inner().rrs_left == old(self).inner().rrs_left,
    {
        self.it_mut().recompute_sections()
    }

    /// Accesses the raw packet data.
    fn raw<'a>(&'a self) -> (r: RRRaw<'a>)
        where
            't: 'a,
        requires
            self.inner().pp().packet is Some,
            self.inner().live(),
        ensures
            r.packet@ == self.inner().bytes(),
            r.offset == self.inner().at(),
            r.name_end == self.inner().name_end,
    {
        self.it().raw()
    }

    /// Accesses the mutable raw packet data. Whoever writes to it has to
    /// leave a well-formed message with the same records in the buffer.
    fn raw_mut<'a>(&'a mut self) -> (r: RRRawMut<'a>)
        where
            't: 'a,
        requires
            old(self).inner().pp().packet is Some,
            old(self).inner().live(),
        ensures
            r.packet@ == old(self).inner().bytes(),
            r.offset == old(self).inner().at(),
            r.name_end == old(self).inner().name_end,
            final(self).inner().bytes() == final(r.packet)@,
            final(self).inner().section == old(self).inner().section,
            final(self).inner().offset == old(self).inner().offset,
            final(self).inner().offset_next == old(self).inner().offset_next,
            final(self).inner().name_end == old(self).inner().name_end,
            final(self).inner().rrs_left == old(self).inner().rrs_left,
    {
        self.it_mut().raw_mut()
    }

    /// Accesses the parsed packet structure.
    fn parsed_packet<'a>(&'a self) -> (r: &'a ParsedPacket)
        where
            't: 'a,
        ensures
            *r == self.inner().pp(),
    {
        self.it().parsed_packet()
    }

    /// Accesses the parsed packet structure, to change it. Whoever changes
    /// it has to leave a well-formed packet with the same records.
    fn parsed_packet_mut<'a>(&'a mut self) -> (r: &'a mut ParsedPacket)
        where
            't: 'a,
        ensures
            *r == old(self).inner().pp(),
            final(self).inner().pp() == *final(r),
            final(self).inner().section == old(self).inner().section,
            final(self).inner().offset == old(self).inner().offset,
            final(self).inner().offset_next == old(self).inner().offset_next,
            final(self).inner().name_end == old(self).inner().name_end,
            final(self).inner().rrs_left == old(self).inner().rrs_left,
    {
        self.it_mut().parsed_packet_mut()
    }

    /// Raw packet data.
    fn packet<'a>(&'a self) -> (r: &'a [u8])
        where
            't: 'a,
        requires
            self.inner().pp().packet is Some,
        ensures
            r@ == self.inner().bytes(),
    {
        self.it().packet()
    }

    /// Accesses the raw packet data, starting from the name.
    fn name_slice<'a>(&'a self) -> (r: &'a [u8])
        where
            't: 'a,
        requires
            self.inner().inv(),
            self.inner().live(),
        ensures
            r@ == self.inner().bytes().subrange(self.inner().at(), self.inner().name_end as int),
    {
        self.it().name_slice()
    }

    /// Access the raw packet data, starting from right after the name.
    fn rdata_slice<'a>(&'a self) -> (r: &'a [u8])
        where
            't: 'a,
        requires
            self.inner().inv(),
            self.inner().live(),
        ensures
            r@ == self.inner().bytes().subrange(self.inner().name_end as int, self.inner().bytes().len() as int),
    {
        self.it().rdata_slice()
    }

    /// Decompresses the whole packet while keeping the iterator available.
    fn uncompress(&mut self) -> (r: Result<(), DSError>)
        requires
            old(self).inner().inv(),
            !old(self).inner().unstarted(),
            old(self).inner().section != Section::Edns,
        ensures
            final(self).inner().inv(),
            *final(final(self).inner().parsed_packet) == *final(old(self).inner().parsed_packet),
            final(self).inner().section == old(self).inner().section,
            match uncompress_spec(&old(self).inner()) {
                Err(e) => r == Err::<(), DSError>(e) && final(self).inner().same_as(&old(self).inner()),
                Ok((bytes, at)) => {
                    &&& r is Ok
                    &&& old(self).inner().pp().maybe_compressed ==> final(self).inner().bytes() == bytes
                        && final(self).inner().pp().cached is None && (if old(self).inner().live() {
                        final(self).inner().offset == Some(at as usize)
                    } else {
                        final(self).inner().offset is None && final(self).inner().offset_next == at
                    })
                    &&& !old(self).inner().pp().maybe_compressed ==> final(self).inner().same_as(&old(self).inner())
                    &&& !final(self).inner().pp().maybe_compressed
                    &&& final(self).inner().rrs_left == old(self).inner().rrs_left
                },
            },
    {
        self.it_mut().uncompress()
    }
}

/// What the iterators over questions and over resource records have in common.
pub trait TypedIterable<'t>: DNSIterable<'t> {
    /// Returns the RR name (labels are dot-delimited), as a byte vector. The name is not supposed to be valid UTF-8. It will be converted to lower-case, though, using traditional DNS conversion rules
    fn name(&self) -> (r: Vec<u8>)
        requires
            self.inner().inv(),
            self.inner().live(),
        ensures
            r@ == (if self.inner().section == Section::Edns {
                Seq::<u8>::empty()
            } else {
                presentation(name_at(self.inner().bytes(), self.inner().at()).name)
            }),
    {
        self.it().name()
    }

    /// Appends the uncompressed RR name (raw format, with labels prefixed by their length) to the given vector.
    /// Returns the length of the uncompressed name.
    fn copy_raw_name(&self, name: &mut Vec<u8>) -> (r: usize)
        requires
            self.inner().inv(),
            self.inner().live(),
        ensures
            self.inner().section == Section::Edns ==> r == 0 && final(name)@ == old(name)@,
            self.inner().section != Section::Edns ==> final(name)@ == old(name)@ + name_at(
                self.inner().bytes(),
                self.inner().at(),
            ).name && r == name_at(self.inner().bytes(), self.inner().at()).name.len() && 1 <= r
                <= DNS_MAX_HOSTNAME_LEN,
    {
        self.it().copy_raw_name(name)
    }

    /// Returns the section the current record belongs to.
    fn current_section(&self) -> (r: Result<Section, DSError>)
        requires
            self.inner().inv(),
            self.inner().live(),
            self.inner().section != Section::Edns,
        ensures
            r == Ok::<Section, DSError>(self.inner().section),
    {
        self.it().current_section()
    }

    /// Changes the name (raw format, untrusted content). A packet that may
    /// be compressed is written without compression first. Nothing changes
    /// where the name cannot be set.
    fn set_raw_name(&mut self, name: &[u8]) -> (r: Result<(), DSError>)
        requires
            old(self).inner().inv(),
            !old(self).inner().unstarted(),
            old(self).inner().section != Section::Edns,
        ensures
            final(self).inner().inv(),
            *final(final(self).inner().parsed_packet) == *final(old(self).inner().parsed_packet),
            final(self).inner().section == old(self).inner().section,
            match set_name_spec(&old(self).inner(), name@) {
                Err(e) => r == Err::<(), DSError>(e) && final(self).inner().same_as(&old(self).inner()),
                Ok((bytes, at)) => {
                    &&& r is Ok
                    &&& final(self).inner().bytes() == bytes
                    &&& final(self).inner().offset == Some(at as usize)
                    &&& final(self).inner().rrs_left == old(self).inner().rrs_left
                    &&& final(self).inner().pp().maybe_compressed == !is_plain(final(self).inner().bytes())
                },
            },
    {
        self.it_mut().set_raw_name(name)
    }

    /// Deletes the record. A packet that may be compressed is written
    /// without compression first. Nothing changes where the record cannot
    /// be deleted.
    fn delete(&mut self) -> (r: Result<(), DSError>)
        requires
            old(self).inner().inv(),
            !old(self).inner().unstarted(),
            old(self).inner().section != Section::Edns,
        ensures
            final(self).inner().inv(),
            *final(final(self).inner().parsed_packet) == *final(old(self).inner().parsed_packet),
            final(self).inner().section == old(self).inner().section,
            match delete_spec(&old(self).inner()) {
                Err(e) => r == Err::<(), DSError>(e) && final(self).inner().same_as(&old(self).inner()),
                Ok((bytes, at)) => {
                    &&& r is Ok
                    &&& final(self).inner().bytes() == bytes
                    &&& final(self).inner().offset is None
                    &&& final(self).inner().offset_next == at
                    &&& final(self).inner().rrs_left == old(self).inner().rrs_left
                    &&& final(self).inner().pp().maybe_compressed == !is_plain(final(self).inner().bytes())
                },
            },
    {
        self.it_mut().delete()
    }

    /// Returns the query type for the current RR. For an EDNS option this
    /// is the code of the option.
    fn rr_type(&self) -> (r: u16)
        requires
            self.inner().inv(),
            self.inner().live(),
        ensures
            r == be16(self.inner().bytes(), self.inner().name_end as int),
    {
        self.it().rr_type()
    }

    /// Returns the query class for the current RR. For an EDNS option this
    /// is the length of the option.
    fn rr_class(&self) -> (r: u16)
        requires
            self.inner().inv(),
            self.inner().live(),
        ensures
            r == be16(self.inner().bytes(), self.inner().name_end + 2),
    {
        self.it().rr_class()
    }
}

/// What only the iterators over resource records have: the fixed header
/// with a TTL and a length, and data.
pub trait RdataIterable<'t>: TypedIterable<'t> {
    /// Returns the TTL for the current RR.
    fn rr_ttl(&self) -> (r: u32)
        requires
            self.inner().inv(),
            self.inner().live(),
            is_response_section(self.inner().section),
        ensures
            r == be32(self.inner().bytes(), self.inner().name_end + 4),
    {
        self.it().rr_ttl()
    }

    /// Changes the TTL of a record. Nothing changes where the message would
    /// not be well formed with the new value, which can only be where a
    /// name reads its labels from the place of the TTL.
    fn set_rr_ttl(&mut self, ttl: u32) -> (r: Result<(), DSError>)
        requires
            old(self).inner().inv(),
            old(self).inner().live(),
            is_response_section(old(self).inner().section),
        ensures
            final(self).inner().inv(),
            *final(final(self).inner().parsed_packet) == *final(old(self).inner().parsed_packet),
            final(self).inner().section == old(self).inner().section,
            match reinstalled(
                put_be32(old(self).inner().bytes(), old(self).inner().name_end + 4, ttl as int),
                old(self).inner().section,
                old(self).inner().at(),
                true,
                old(self).inner().rrs_left as int,
            ) {
                Err(e) => r == Err::<(), DSError>(e) && final(self).inner().same_as(&old(self).inner()),
                Ok(_) => {
                    &&& r is Ok
                    &&& final(self).inner().bytes() == put_be32(
                        old(self).inner().bytes(),
                        old(self).inner().name_end + 4,
                        ttl as int,
                    )
                    &&& final(self).inner().offset == old(self).inner().offset
                    &&& final(self).inner().rrs_left == old(self).inner().rrs_left
                    &&& final(self).inner().pp().maybe_compressed == (old(self).inner().pp().maybe_compressed
                        || !is_plain(final(self).inner().bytes()))
                },
            },
    {
        self.it_mut().set_rr_ttl(ttl)
    }

    /// Returns the record length for the current RR.
    fn rr_rdlen(&self) -> (r: usize)
        requires
            self.inner().inv(),
            self.inner().live(),
            is_response_section(self.inner().section),
        ensures
            r == be16(self.inner().bytes(), self.inner().name_end + 8),
            self.inner().name_end + DNS_RR_HEADER_SIZE + r == self.inner().offset_next,
    {
        self.it().rr_rdlen()
    }

    /// Retrieves the string of an `TXT` record: its chunks, one behind the
    /// other. A record of another type, one without data and one with a
    /// chunk that runs past its data have no such string.
    fn rr_txt(&self) -> (r: Result<Vec<u8>, DSError>)
        requires
            self.inner().inv(),
            self.inner().live(),
            is_response_section(self.inner().section),
        ensures
            ({
                let b = self.inner().bytes();
                let d = self.inner().name_end + DNS_RR_HEADER_SIZE;
                let text = txt_text(b.subrange(d, self.inner().offset_next as int));
                if be16(b, self.inner().name_end as int) == Type::TXT.code() && d < self.inner().offset_next
                    && text is Some {
                    r is Ok && r->Ok_0@ == text->Some_0
                } else {
                    r == Err::<Vec<u8>, DSError>(DSError::PropertyNotFound)
                }
            }),
    {
        self.it().rr_txt()
    }

    /// Retrieves the IP address of an `A` or `AAAA` record.
    fn rr_ip(&self) -> (r: Result<IpAddr, DSError>)
        requires
            self.inner().inv(),
            self.inner().live(),
            is_response_section(self.inner().section),
        ensures
            ({
                let b = self.inner().bytes();
                let d = self.inner().name_end + DNS_RR_HEADER_SIZE;
                if be16(b, self.inner().name_end as int) == Type::A.code() {
                    r is Ok && r->Ok_0 is V4 && ip_bytes(r->Ok_0) == b.subrange(d, d + 4)
                } else if be16(b, self.inner().name_end as int) == Type::AAAA.code() {
                    r is Ok && r->Ok_0 is V6 && ip_bytes(r->Ok_0) == b.subrange(d, d + 16)
                } else {
                    r == Err::<IpAddr, DSError>(DSError::PropertyNotFound)
                }
            }),
    {
        self.it().rr_ip()
    }

    /// Changes the IP address of an `A` or `AAAA` record. Nothing changes
    /// where the message would not be well formed with the new value, which
    /// can only be where a name reads its labels from the place of the address.
    fn set_rr_ip(&mut self, ip: &IpAddr) -> (r: Result<(), DSError>)
        requires
            old(self).inner().inv(),
            old(self).inner().live(),
            is_response_section(old(self).inner().section),
        ensures
            final(self).inner().inv(),
            *final(final(self).inner().parsed_packet) == *final(old(self).inner().parsed_packet),
            final(self).inner().section == old(self).inner().section,
            match set_ip_spec(&old(self).inner(), *ip) {
                Err(e) => r == Err::<(), DSError>(e) && final(self).inner().same_as(&old(self).inner()),
                Ok(bytes) => {
                    &&& r is Ok
                    &&& final(self).inner().bytes() == bytes
                    &&& final(self).inner().offset == old(self).inner().offset
                    &&& final(self).inner().rrs_left == old(self).inner().rrs_left
                    &&& final(self).inner().pp().maybe_compressed == (old(self).inner().pp().maybe_compressed
                        || !is_plain(final(self).inner().bytes()))
                },
            },
    {
        self.it_mut().set_rr_ip(ip)
    }
}

} // verus!
