//! What holds of every message that the validator accepts, and of every
//! parsed packet.

use crate::compress::is_pointer;
use crate::compress::lemma_name_stands_alone;
use crate::compress::name_at;
use crate::compress::pointer_target;
use crate::compress::walk_from;
use crate::compress::walk_name;
use crate::constants::Section;
use crate::constants::DNS_HEADER_SIZE;
use crate::constants::DNS_MAX_HOSTNAME_INDIRECTIONS;
use crate::constants::DNS_MAX_HOSTNAME_LEN;
use crate::constants::DNS_RR_HEADER_SIZE;
use crate::dns_sector::an_count;
use crate::dns_sector::answers_scan;
use crate::dns_sector::ar_count;
use crate::dns_sector::lemma_layout;
use crate::dns_sector::lemma_layout_edns;
use crate::dns_sector::lemma_strict_scan;
use crate::dns_sector::message_scan;
use crate::dns_sector::nameservers_scan;
use crate::dns_sector::ns_count;
use crate::dns_sector::options_at;
use crate::dns_sector::qd_count;
use crate::dns_sector::question_scan;
use crate::dns_sector::questions_end;
use crate::dns_sector::records_at;
use crate::dns_sector::rr_scan;
use crate::parsed_packet::ParsedPacket;
use vstd::prelude::*;

verus! {

/// Whether the name of `b` at `offset` comes to its final zero through at
/// most `hops` compression pointers, each of which lies inside `b` and
/// refers to an offset before its own, and through labels of at most 63
/// bytes that lie inside `b`.
pub open spec fn ends_backward(b: Seq<u8>, offset: int, hops: int) -> bool
    decreases hops, b.len() - offset,
{
    if offset < 0 || offset >= b.len() || hops < 0 {
        false
    } else if is_pointer(b[offset]) {
        &&& hops > 0
        &&& offset + 1 < b.len()
        &&& 0 <= pointer_target(b[offset], b[offset + 1]) < offset
        &&& ends_backward(b, pointer_target(b[offset], b[offset + 1]), hops - 1)
    } else if b[offset] == 0 {
        true
    } else {
        &&& b[offset] <= 63
        &&& offset + b[offset] + 1 < b.len()
        &&& ends_backward(b, offset + b[offset] + 1, hops)
    }
}

/// A walk that succeeds goes backward at every pointer.
pub proof fn lemma_walk_backward(
    b: Seq<u8>,
    offset: int,
    barrier: int,
    lowest: int,
    refs: int,
    name_len: int,
)
    requires
        0 <= lowest <= offset,
        barrier <= b.len(),
        0 <= refs,
        walk_from(b, offset, barrier, lowest, refs, name_len) is Ok,
    ensures
        ends_backward(b, offset, refs),
    decreases refs, (if offset < barrier {
        barrier - offset
    } else {
        0
    }),
{
    let len = b[offset];
    if is_pointer(len) {
        let target = pointer_target(len, b[offset + 1]);
        lemma_walk_backward(b, target, lowest, target, refs - 1, name_len);
    } else if len != 0 {
        lemma_walk_backward(b, offset + len + 1, barrier, lowest, refs, name_len + len + 1);
    }
}

/// No name that is accepted holds a pointer that refers forward or to
/// itself, and none is read through more than 16 pointers.
pub proof fn law_pointers_go_backward(b: Seq<u8>, offset: int)
    requires
        0 <= offset,
        walk_name(b, offset) is Ok,
    ensures
        ends_backward(b, offset, DNS_MAX_HOSTNAME_INDIRECTIONS as int),
{
    lemma_walk_backward(
        b,
        offset,
        b.len() as int,
        offset,
        DNS_MAX_HOSTNAME_INDIRECTIONS as int,
        0,
    );
}

/// The name of every record that is accepted, in whatever section and
/// behind an OPT record or not, has its pointers go backward.
pub proof fn law_record_names_go_backward(
    b: Seq<u8>,
    offset: int,
    section: Section,
    opt_seen: bool,
)
    requires
        0 <= offset,
        rr_scan(b, offset, section, opt_seen) is Ok,
    ensures
        ends_backward(b, offset, DNS_MAX_HOSTNAME_INDIRECTIONS as int),
{
    law_pointers_go_backward(b, offset);
}

/// No name that is read from a message is longer than 255 bytes, the
/// lengths of its labels and its final zero counted.
pub proof fn law_name_length(b: Seq<u8>, offset: int)
    requires
        0 <= offset,
        walk_name(b, offset) is Ok,
    ensures
        1 <= name_at(b, offset).name.len() <= DNS_MAX_HOSTNAME_LEN,
{
    lemma_name_stands_alone(b, offset);
}

/// A message that the validator accepts is a well-formed message, with
/// the same sections.
pub proof fn law_accepted_is_well_formed(b: Seq<u8>)
    requires
        message_scan(b, true) is Ok,
    ensures
        message_scan(b, false) == message_scan(b, true),
        qd_count(b) == 1,
{
    lemma_strict_scan(b);
}

/// In a parsed packet the header counts the records that each section
/// holds: there is at most one question, and the records of the answer,
/// name server and additional sections stand one after another, as many
/// as the header says, from the end of the section before to the start of
/// the section behind, the last of them up to the end of the buffer.
pub proof fn law_section_counts(p: ParsedPacket)
    requires
        p.wf(),
    ensures
        qd_count(p.bytes()) <= 1,
        qd_count(p.bytes()) == 1 ==> question_scan(p.bytes(), DNS_HEADER_SIZE as int, false)
            == Ok::<int, crate::errors::DSError>(questions_end(p.bytes())),
        qd_count(p.bytes()) == 0 ==> questions_end(p.bytes()) == DNS_HEADER_SIZE,
        records_at(
            p.bytes(),
            questions_end(p.bytes()),
            an_count(p.bytes()),
            Section::Answer,
            answers_scan(p.bytes()).offset,
        ),
        records_at(
            p.bytes(),
            answers_scan(p.bytes()).offset,
            ns_count(p.bytes()),
            Section::NameServers,
            nameservers_scan(p.bytes()).offset,
        ),
        records_at(
            p.bytes(),
            nameservers_scan(p.bytes()).offset,
            ar_count(p.bytes()),
            Section::Additional,
            p.bytes().len() as int,
        ),
        p.sections().edns matches Some(e) ==> options_at(p.bytes(), e.start, e.count, e.end)
            && p.edns_count == e.count,
{
    lemma_layout(p.bytes());
    lemma_layout_edns(p.bytes());
}

/// In a parsed packet a section has an offset if and only if it holds a
/// record, the offset is where its first record starts, and the offsets
/// that are there ascend in the order question, answers, name servers,
/// additional records, options of the OPT record, inside the buffer.
pub proof fn law_offset_order(p: ParsedPacket)
    requires
        p.wf(),
    ensures
        p.offset_question is Some <==> qd_count(p.bytes()) > 0,
        p.offset_answers is Some <==> an_count(p.bytes()) > 0,
        p.offset_nameservers is Some <==> ns_count(p.bytes()) > 0,
        p.offset_additional is Some <==> ar_count(p.bytes()) > 0,
        p.offset_question matches Some(q) ==> q == DNS_HEADER_SIZE,
        p.offset_answers matches Some(a) ==> a == questions_end(p.bytes()),
        p.offset_nameservers matches Some(n) ==> n == answers_scan(p.bytes()).offset,
        p.offset_additional matches Some(a) ==> a == nameservers_scan(p.bytes()).offset,
        DNS_HEADER_SIZE <= questions_end(p.bytes()) <= answers_scan(p.bytes()).offset
            <= nameservers_scan(p.bytes()).offset <= p.bytes().len(),
        p.offset_question is Some ==> DNS_HEADER_SIZE < questions_end(p.bytes()),
        p.offset_answers is Some ==> questions_end(p.bytes()) < answers_scan(p.bytes()).offset,
        p.offset_nameservers is Some ==> answers_scan(p.bytes()).offset < nameservers_scan(p.bytes()).offset,
        p.offset_additional is Some ==> nameservers_scan(p.bytes()).offset < p.bytes().len(),
        p.offset_edns matches Some(e) ==> p.offset_additional is Some && nameservers_scan(p.bytes()).offset + 1 + DNS_RR_HEADER_SIZE <= e <= p.bytes().len(),
{
    lemma_layout(p.bytes());
    lemma_layout_edns(p.bytes());
    crate::dns_sector::lemma_edns_in_additional(p.bytes());
}

} // verus!
