//! The iterator over the answer, name server and additional sections.

use crate::compress::name_at;
use crate::compress::rr_next;
use crate::constants::Type;
use crate::iterable::DNSIterable;
use crate::iterable::RdataIterable;
use crate::iterable::TypedIterable;
use crate::rr_iterator::is_response_section;
use crate::rr_iterator::RRIterator;
use crate::wire::be16;
use vstd::prelude::*;

verus! {

/// An iterator over a section of resource records.
#[derive(Debug)]
pub struct ResponseIterator<'t> {
    pub rr_iterator: RRIterator<'t>,
}

pub type AnswerIterator<'t> = ResponseIterator<'t>;

pub type NameServersIterator<'t> = ResponseIterator<'t>;

pub type AdditionalIterator<'t> = ResponseIterator<'t>;

/// Where the first record that is no OPT record starts among the `count`
/// records of `b` from `o` on, and how many records there are from there on.
pub open spec fn skip_opts(b: Seq<u8>, o: int, count: int) -> (int, int)
    decreases count,
{
    if count > 0 && be16(b, name_at(b, o).end) == Type::OPT.code() {
        skip_opts(b, rr_next(b, o), count - 1)
    } else {
        (o, count)
    }
}

impl<'t> TypedIterable<'t> for ResponseIterator<'t> {

}

impl<'t> RdataIterable<'t> for ResponseIterator<'t> {

}

impl<'t> DNSIterable<'t> for ResponseIterator<'t> {
    open spec fn inner(&self) -> RRIterator<'t> {
        self.rr_iterator
    }

    open spec fn upcoming(&self) -> (int, int) {
        skip_opts(
            self.rr_iterator.bytes(),
            self.rr_iterator.pending().0,
            self.rr_iterator.pending().1,
        )
    }

    open spec fn section_ok(&self) -> bool {
        is_response_section(self.rr_iterator.section)
    }

    fn it(&self) -> (r: &RRIterator<'t>) {
        &self.rr_iterator
    }

    fn it_mut(&mut self) -> (r: &mut RRIterator<'t>) {
        &mut self.rr_iterator
    }

    fn next(self) -> (r: Option<Self>) {
        let mut this = self;
        let ghost b = self.rr_iterator.bytes();
        let mut more: bool = this.rr_iterator.advance();
        while more && this.rr_iterator.rr_type() == Type::OPT.to_u16()
            invariant
                this.rr_iterator.inv(),
                is_response_section(this.rr_iterator.section),
                this.rr_iterator.section == self.rr_iterator.section,
                this.rr_iterator.pp() == self.rr_iterator.pp(),
                b == self.rr_iterator.bytes(),
                *final(this.rr_iterator.parsed_packet) == *final(self.rr_iterator.parsed_packet),
                more ==> this.rr_iterator.live() && skip_opts(
                    b,
                    self.rr_iterator.pending().0,
                    self.rr_iterator.pending().1,
                ) == skip_opts(b, this.rr_iterator.at(), this.rr_iterator.rrs_left + 1),
                !more ==> skip_opts(
                    b,
                    self.rr_iterator.pending().0,
                    self.rr_iterator.pending().1,
                ).1 == 0,
            decreases
                    (if more {
                        this.rr_iterator.rrs_left + 1
                    } else {
                        0
                    }),
        {
            proof {
                this.rr_iterator.lemma_live();
                assert(skip_opts(b, this.rr_iterator.at(), this.rr_iterator.rrs_left + 1)
                    == skip_opts(
                    b,
                    rr_next(b, this.rr_iterator.at()),
                    this.rr_iterator.rrs_left as int,
                ));
                assert(rr_next(b, this.rr_iterator.at()) == this.rr_iterator.offset_next);
            }
            more = this.rr_iterator.advance();
        }
        if more {
            Some(this)
        } else {
            None
        }
    }
}

impl<'t> ResponseIterator<'t> {
    pub fn new(rr_iterator: RRIterator<'t>) -> (r: Self)
        ensures
            r.rr_iterator == rr_iterator,
    {
        ResponseIterator { rr_iterator }
    }

    /// Returns the next record, or `None` if there aren't any left. An OPT
    /// record is not passed over.
    pub fn next_including_opt(self) -> (r: Option<Self>)
        requires
            self.rr_iterator.inv(),
            is_response_section(self.rr_iterator.section),
        ensures
            r is Some == (self.rr_iterator.pending().1 > 0),
            match r {
                Some(next) => {
                    &&& next.rr_iterator.inv()
                    &&& next.rr_iterator.pp() == self.rr_iterator.pp()
                    &&& next.rr_iterator.section == self.rr_iterator.section
                    &&& *final(next.rr_iterator.parsed_packet)
                        == *final(self.rr_iterator.parsed_packet)
                    &&& next.rr_iterator.offset == Some(self.rr_iterator.pending().0 as usize)
                    &&& next.rr_iterator.rrs_left == self.rr_iterator.pending().1 - 1
                },
                None => *final(self.rr_iterator.parsed_packet) == self.rr_iterator.pp(),
            },
    {
        let mut this = self;
        if this.rr_iterator.advance() {
            Some(this)
        } else {
            None
        }
    }
}

} // verus!
