//! The iterator over the options of the OPT record.

use crate::constants::Section;
use crate::iterable::DNSIterable;
use crate::rr_iterator::RRIterator;
use vstd::prelude::*;

verus! {

/// An iterator over the options of the OPT record of a packet.
#[derive(Debug)]
pub struct EdnsIterator<'t> {
    pub rr_iterator: RRIterator<'t>,
}

impl<'t> DNSIterable<'t> for EdnsIterator<'t> {
    open spec fn inner(&self) -> RRIterator<'t> {
        self.rr_iterator
    }

    open spec fn upcoming(&self) -> (int, int) {
        self.rr_iterator.pending()
    }

    open spec fn section_ok(&self) -> bool {
        self.rr_iterator.section == Section::Edns
    }

    fn it(&self) -> (r: &RRIterator<'t>) {
        &self.rr_iterator
    }

    fn it_mut(&mut self) -> (r: &mut RRIterator<'t>) {
        &mut self.rr_iterator
    }

    fn next(self) -> (r: Option<Self>) {
        let mut this = self;
        if this.rr_iterator.advance() {
            Some(this)
        } else {
            None
        }
    }
}

impl<'t> EdnsIterator<'t> {
    pub fn new(rr_iterator: RRIterator<'t>) -> (r: Self)
        ensures
            r.rr_iterator == rr_iterator,
    {
        EdnsIterator { rr_iterator }
    }
}

} // verus!
