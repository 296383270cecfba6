//! The edits through a cursor succeed: what `delete`, `set_raw_name` and
//! `uncompress` answer for a cursor that meets its invariant.

use crate::compress::moved_in_records;
use crate::compress::moved_offset;
use crate::compress::rr_next;
use crate::compress::uncompressed;
use crate::compress::uncompressed_records;
use crate::compress::uncompressed_rr;
use crate::compress::check_plain;
use crate::compress::name_at;
use crate::constants::Section;
use crate::constants::Type;
use crate::constants::DNS_MAX_UNCOMPRESSED_SIZE;
use crate::in_place::law_rename_shifts_sections;
use crate::in_place::renamed_at;
use crate::plain::insert_base;
use crate::plain::lemma_plain_rr;
use crate::recompress::lemma_opt_record;
use crate::rr_iterator::renamed_bytes;
use crate::rr_iterator::set_name_spec;
use crate::wire::be16;
use crate::dns_sector::lemma_rr_scan_seen;
use crate::dns_sector::lemma_rr_shape;
use crate::plain::law_uncompressed_is_plain;
use crate::plain::lemma_part_of_part;
use crate::plain::lemma_plain_section;
use crate::plain::lemma_uncompressed_parts;
use crate::plain::lemma_uncompressed_scan;
use crate::plain::plain_additional;
use crate::plain::plain_answers;
use crate::plain::plain_nameservers;
use crate::plain::scan_after;
use crate::rr_iterator::delete_spec;
use crate::rr_iterator::edit_base;
use crate::rr_iterator::uncompress_spec;
use crate::rr_iterator::RRIterator;
use crate::constants::DNS_HEADER_SIZE;
use crate::dns_sector::an_count;
use crate::dns_sector::answers_scan;
use crate::dns_sector::lemma_layout;
use crate::dns_sector::message_scan;
use crate::dns_sector::ns_count;
use crate::dns_sector::questions_end;
use crate::dns_sector::section_count;
use crate::dns_sector::section_end;
use crate::dns_sector::section_scan;
use crate::dns_sector::section_start;
use crate::dns_sector::Scan;
use crate::errors::DSError;
use crate::plain::deleted;
use crate::plain::is_plain;
use crate::plain::lemma_delete_additional;
use crate::plain::lemma_delete_answer;
use crate::plain::lemma_delete_nameservers;
use crate::plain::lemma_plain_prefix;
use crate::plain::lemma_plain_sections;
use crate::plain::lemma_record_end;
use crate::plain::lemma_removed_parts;
use crate::plain::lemma_section_kept;
use crate::plain::lemma_section_no_opt;
use crate::plain::lemma_section_split;
use crate::plain::lemma_section_unseen;
use crate::plain::lemma_window;
use crate::plain::record_at;
use crate::plain::section_state;
use crate::rr_iterator::is_response_section;
use crate::rr_iterator::reinstalled;
use crate::rr_iterator::removed_bytes;
use crate::rr_iterator::stands;
use vstd::prelude::*;

verus! {

/// The scan of a well-formed message comes to each of the answer, name
/// server and additional sections without having seen an OPT record.
pub proof fn lemma_section_states(b: Seq<u8>, section: Section)
    requires
        message_scan(b, false) is Ok,
        is_response_section(section),
    ensures
        section_state(b, section) == (Scan { offset: section_start(b, section), edns: None }),
        section_scan(b, section_state(b, section), section_count(b, section), section) is Ok,
        section_scan(
            b,
            section_state(b, section),
            section_count(b, section),
            section,
        )->Ok_0.offset == section_end(b, section),
        DNS_HEADER_SIZE <= section_start(b, section) <= section_end(b, section) <= b.len(),
{
    lemma_layout(b);
    lemma_section_no_opt(
        b,
        Scan { offset: questions_end(b), edns: None },
        an_count(b),
        Section::Answer,
    );
    lemma_section_no_opt(b, answers_scan(b), ns_count(b), Section::NameServers);
}

/// A cursor can stand wherever a record of a well-formed message starts,
/// and where the last record of a section ends: behind the first `k`
/// records of a section, with the other records of the section before it.
pub proof fn lemma_place(b: Seq<u8>, section: Section, k: int)
    requires
        message_scan(b, false) is Ok,
        is_response_section(section),
        0 <= k <= section_count(b, section),
    ensures
        section_scan(b, section_state(b, section), k, section) is Ok,
        stands(
            b,
            section,
            record_at(b, section_state(b, section), k, section),
            section_count(b, section) - k,
        ),
{
    lemma_section_states(b, section);
    let st = section_state(b, section);
    let total = section_count(b, section);
    lemma_section_split(b, st, k, total - k, section);
    let m = section_scan(b, st, k, section)->Ok_0;
    if m.edns is Some {
        lemma_section_unseen(b, m, total - k, section);
    } else {
        assert(m == Scan { offset: m.offset, edns: None });
    }
}

/// Without the record behind the first `k` records of a section, the
/// message in uncompressed form `b` is one in which a cursor can stand
/// where the record stood, with the records that stood behind it before
/// it.
#[verifier::spinoff_prover]
#[verifier::rlimit(80)]
pub proof fn lemma_deleted_place(b: Seq<u8>, section: Section, k: int)
    requires
        message_scan(b, false) is Ok,
        is_plain(b),
        is_response_section(section),
        0 <= k < section_count(b, section),
        b.len() <= usize::MAX,
    ensures
        removed_bytes(b, section, record_at(b, section_state(b, section), k, section)) is Some,
        message_scan(deleted(b, section, k), false) is Ok,
        is_plain(deleted(b, section, k)),
        section_count(deleted(b, section, k), section) == section_count(b, section) - 1,
        stands(
            deleted(b, section, k),
            section,
            record_at(b, section_state(b, section), k, section),
            section_count(b, section) - k - 1,
        ),
        reinstalled(
            deleted(b, section, k),
            section,
            record_at(b, section_state(b, section), k, section),
            false,
            section_count(b, section) - k - 1,
        ) is Ok,
{
    lemma_section_states(b, section);
    lemma_plain_sections(b);
    let st = section_state(b, section);
    let total = section_count(b, section);
    let end = section_end(b, section);
    lemma_section_split(b, st, k + 1, total - k - 1, section);
    lemma_record_end(b, st, k, section);
    let at = record_at(b, st, k, section);
    let next = record_at(b, st, k + 1, section);
    lemma_removed_parts(b, section, at, next);
    match section {
        Section::Answer => {
            lemma_delete_answer(b, k);
        },
        Section::NameServers => {
            lemma_delete_nameservers(b, k);
        },
        _ => {
            lemma_delete_additional(b, k);
        },
    }
    let c = deleted(b, section, k);
    lemma_section_states(c, section);
    let st_c = section_state(c, section);
    assert(st_c.offset == st.offset);
    let h = DNS_HEADER_SIZE as int;
    lemma_window(c, h, b, h, at - h, st.offset - h, at - h);
    lemma_plain_prefix(b, st, k, total - k, section, end);
    lemma_section_kept(b, st, k, section, at, c, st_c);
    lemma_place(c, section, k);
}


/// The record behind the first `k` records of a scan is found among
/// the records when it is looked for, as many bytes behind the start as
/// the records before it take without compression.
pub proof fn lemma_moved_found(
    b: Seq<u8>,
    st: Scan,
    count: int,
    k: int,
    out_len: int,
    section: Section,
)
    requires
        0 <= st.offset,
        0 <= k < count,
        section_scan(b, st, count, section) is Ok,
    ensures
        section_scan(b, st, k, section) is Ok,
        moved_in_records(b, st.offset, count, record_at(b, st, k, section), out_len) == Some(
            out_len + uncompressed_records(b, st.offset, k).len(),
        ),
    decreases k,
{
    let o = st.offset;
    lemma_section_split(b, st, k, count - k, section);
    if k == 0 {
        assert(uncompressed_records(b, o, 0).len() == 0);
    } else {
        lemma_rr_scan_seen(b, o, section);
        lemma_rr_shape(b, o, section);
        let next = scan_after(st, b, section);
        assert(section_scan(b, st, k, section) == section_scan(b, next, k - 1, section));
        lemma_section_split(b, next, k - 1, count - k, section);
        lemma_moved_found(b, next, count - 1, k - 1, out_len + uncompressed_rr(b, o).len(), section);
        assert(uncompressed_records(b, o, k) == uncompressed_rr(b, o) + uncompressed_records(
            b,
            rr_next(b, o),
            k - 1,
        ));
    }
}

/// What stands at or behind the end of the records of a scan is not
/// found among them.
pub proof fn lemma_moved_missed(
    b: Seq<u8>,
    st: Scan,
    count: int,
    target: int,
    out_len: int,
    section: Section,
)
    requires
        0 <= st.offset,
        section_scan(b, st, count, section) is Ok,
        section_scan(b, st, count, section)->Ok_0.offset <= target,
    ensures
        moved_in_records(b, st.offset, count, target, out_len) is None,
    decreases count,
{
    if count > 0 {
        let o = st.offset;
        lemma_rr_scan_seen(b, o, section);
        lemma_rr_shape(b, o, section);
        let next = scan_after(st, b, section);
        lemma_section_split(b, next, count - 1, 0, section);
        lemma_moved_missed(
            b,
            next,
            count - 1,
            target,
            out_len + uncompressed_rr(b, o).len(),
            section,
        );
    }
}

/// Where the records of a section start in the uncompressed form of `b`.
pub open spec fn plain_start(b: Seq<u8>, section: Section) -> int {
    match section {
        Section::Answer => plain_answers(b),
        Section::NameServers => plain_nameservers(b),
        _ => plain_additional(b),
    }
}

/// The record behind the first `k` records of a section of a well-formed
/// message stands, once the message is written without compression,
/// behind the first `k` records of the section, and is found there.
#[verifier::spinoff_prover]
#[verifier::rlimit(80)]
pub proof fn lemma_moved_offset(b: Seq<u8>, section: Section, k: int)
    requires
        message_scan(b, false) is Ok,
        is_response_section(section),
        0 <= k < section_count(b, section),
    ensures
        message_scan(uncompressed(b), false) is Ok,
        is_plain(uncompressed(b)),
        section_count(uncompressed(b), section) == section_count(b, section),
        section_scan(b, section_state(b, section), k, section) is Ok,
        section_scan(uncompressed(b), section_state(uncompressed(b), section), k, section) is Ok,
        moved_offset(b, record_at(b, section_state(b, section), k, section)) == Some(
            record_at(uncompressed(b), section_state(uncompressed(b), section), k, section),
        ),
        edit_base(b, true, record_at(b, section_state(b, section), k, section)) == Some(
            (
                uncompressed(b),
                record_at(uncompressed(b), section_state(uncompressed(b), section), k, section),
            ),
        ),
{
    let u = uncompressed(b);
    lemma_section_states(b, section);
    lemma_uncompressed_scan(b, false);
    law_uncompressed_is_plain(b);
    lemma_uncompressed_parts(b);
    lemma_section_states(u, section);
    lemma_layout(b);
    let st = section_state(b, section);
    let st_u = section_state(u, section);
    let total = section_count(b, section);
    let target = record_at(b, st, k, section);
    lemma_section_split(b, st, k, total - k, section);
    lemma_section_split(b, st, k + 1, total - k - 1, section);
    lemma_moved_found(b, st, total, k, plain_start(b, section), section);
    let first = uncompressed_records(b, st.offset, k);
    let all = uncompressed_records(b, st.offset, total);
    assert(all.subrange(0, first.len() as int) =~= first);
    lemma_part_of_part(u, plain_start(b, section), all, 0, first.len() as int);
    assert(st_u.offset == plain_start(b, section));
    lemma_plain_section(b, st, k, section, u, st_u);
    let m = section_scan(b, st, k, section)->Ok_0;
    lemma_rr_scan_seen(b, m.offset, section);
    lemma_rr_shape(b, m.offset, section);
    let q = Scan { offset: questions_end(b), edns: None };
    match section {
        Section::Answer => {},
        Section::NameServers => {
            lemma_moved_missed(b, q, an_count(b), target, plain_answers(b), Section::Answer);
        },
        _ => {
            lemma_moved_missed(b, q, an_count(b), target, plain_answers(b), Section::Answer);
            lemma_moved_missed(
                b,
                answers_scan(b),
                ns_count(b),
                target,
                plain_nameservers(b),
                Section::NameServers,
            );
        },
    }
}

/// Decompression through a cursor on a record succeeds: for a cursor that
/// meets its invariant and stands on a record of the answer, name server
/// or additional section, `uncompress_spec` gives a message, which is
/// well formed and in uncompressed form.
pub proof fn law_uncompress_succeeds(it: &RRIterator)
    requires
        it.inv(),
        it.live(),
        is_response_section(it.section),
    ensures
        uncompress_spec(it) is Ok,
        message_scan(uncompress_spec(it)->Ok_0.0, false) is Ok,
        is_plain(uncompress_spec(it)->Ok_0.0),
        stands(
            uncompress_spec(it)->Ok_0.0,
            it.section,
            uncompress_spec(it)->Ok_0.1,
            it.rrs_left + 1,
        ),
{
    let b = it.bytes();
    let section = it.section;
    let total = section_count(b, section);
    let k = total - (it.rrs_left + 1);
    lemma_section_states(b, section);
    if it.pp().maybe_compressed {
        lemma_moved_offset(b, section, k);
        lemma_place(uncompressed(b), section, k);
    } else {
        lemma_place(b, section, k);
    }
}

/// Deleting the record of a cursor succeeds: for a cursor that meets its
/// invariant and stands on a record of the answer, name server or
/// additional section, `delete_spec` gives a message, which is well
/// formed and in uncompressed form and holds one record less in the
/// section; a cursor can stand in it where the record stood.
pub proof fn law_delete_succeeds(it: &RRIterator)
    requires
        it.inv(),
        it.live(),
        is_response_section(it.section),
        uncompressed(it.bytes()).len() <= usize::MAX,
        it.bytes().len() <= usize::MAX,
    ensures
        delete_spec(it) is Ok,
        message_scan(delete_spec(it)->Ok_0.0, false) is Ok,
        is_plain(delete_spec(it)->Ok_0.0),
        section_count(delete_spec(it)->Ok_0.0, it.section) == section_count(
            it.bytes(),
            it.section,
        ) - 1,
        stands(delete_spec(it)->Ok_0.0, it.section, delete_spec(it)->Ok_0.1, it.rrs_left as int),
{
    let b = it.bytes();
    let section = it.section;
    let total = section_count(b, section);
    let k = total - (it.rrs_left + 1);
    lemma_section_states(b, section);
    if it.pp().maybe_compressed {
        lemma_moved_offset(b, section, k);
        lemma_deleted_place(uncompressed(b), section, k);
    } else {
        lemma_deleted_place(b, section, k);
    }
}


/// With another valid name for the record behind the first `k` records
/// of a section, the message in uncompressed form `b` is one in which a
/// cursor can stand on the record, where it stood.
#[verifier::spinoff_prover]
#[verifier::rlimit(80)]
pub proof fn lemma_renamed_place(b: Seq<u8>, section: Section, k: int, name: Seq<u8>)
    requires
        message_scan(b, false) is Ok,
        is_plain(b),
        is_response_section(section),
        0 <= k < section_count(b, section),
        check_plain(name, 0) == Ok::<int, DSError>(name.len() as int),
        be16(b, name_at(b, record_at(b, section_state(b, section), k, section)).end)
            != Type::OPT.code(),
        renamed_bytes(b, record_at(b, section_state(b, section), k, section), name) is Ok,
    ensures
        message_scan(renamed_at(b, section, k, name), false) is Ok,
        is_plain(renamed_at(b, section, k, name)),
        section_count(renamed_at(b, section, k, name), section) == section_count(b, section),
        reinstalled(
            renamed_at(b, section, k, name),
            section,
            record_at(b, section_state(b, section), k, section),
            true,
            section_count(b, section) - k - 1,
        ) is Ok,
{
    lemma_section_states(b, section);
    lemma_plain_sections(b);
    lemma_layout(b);
    law_rename_shifts_sections(b, section, k, name);
    let c = renamed_at(b, section, k, name);
    lemma_section_states(c, section);
    lemma_layout(c);
    let st = section_state(b, section);
    let st_c = section_state(c, section);
    let total = section_count(b, section);
    let end = section_end(b, section);
    lemma_section_split(b, st, k, total - k, section);
    let at = record_at(b, st, k, section);
    assert(st_c.offset == st.offset);
    assert(c.subrange(st.offset, st.offset + (at - st.offset)) =~= b.subrange(st.offset, at));
    lemma_plain_prefix(b, st, k, total - k, section, end);
    lemma_section_kept(b, st, k, section, at, c, st_c);
    lemma_place(c, section, k);
}

/// The record behind the first `k` records of a section is of the same
/// type in the message written without compression.
#[verifier::spinoff_prover]
#[verifier::rlimit(80)]
pub proof fn lemma_moved_type(b: Seq<u8>, section: Section, k: int)
    requires
        message_scan(b, false) is Ok,
        is_response_section(section),
        0 <= k < section_count(b, section),
    ensures
        (be16(b, name_at(b, record_at(b, section_state(b, section), k, section)).end)
            == Type::OPT.code()) == (be16(
            uncompressed(b),
            name_at(
                uncompressed(b),
                record_at(uncompressed(b), section_state(uncompressed(b), section), k, section),
            ).end,
        ) == Type::OPT.code()),
{
    let u = uncompressed(b);
    lemma_moved_offset(b, section, k);
    lemma_section_states(b, section);
    lemma_section_states(u, section);
    lemma_uncompressed_scan(b, false);
    lemma_uncompressed_parts(b);
    let st = section_state(b, section);
    let st_u = section_state(u, section);
    let total = section_count(b, section);
    lemma_section_split(b, st, k, total - k, section);
    lemma_section_split(b, st, k + 1, total - k - 1, section);
    let at = record_at(b, st, k, section);
    let m = section_scan(b, st, k, section)->Ok_0;
    lemma_rr_scan_seen(b, at, section);
    lemma_rr_shape(b, at, section);
    let first = uncompressed_records(b, st.offset, k);
    let more = uncompressed_records(b, st.offset, k + 1);
    let all = uncompressed_records(b, st.offset, total);
    let rr = uncompressed_rr(b, at);
    lemma_section_split(b, st, k, 1, section);
    assert(uncompressed_records(b, at, 1) =~= rr) by {
        assert(uncompressed_records(b, rr_next(b, at), 0) =~= Seq::<u8>::empty());
    }
    assert(more == first + rr);
    assert(all.subrange(first.len() as int, (first.len() + rr.len()) as int) =~= rr);
    assert(all.subrange(0, first.len() as int) =~= first);
    lemma_part_of_part(u, st_u.offset, all, first.len() as int, (first.len() + rr.len()) as int);
    lemma_part_of_part(u, st_u.offset, all, 0, first.len() as int);
    lemma_plain_section(b, st, k, section, u, st_u);
    let at_u = record_at(u, st_u, k, section);
    assert(at_u == st_u.offset + first.len());
    lemma_plain_rr(b, at, section, false, u, at_u);
    lemma_opt_record(b, at, section);
    lemma_opt_record(u, at_u, section);
}

/// Giving the record of a cursor another name succeeds: for a cursor
/// that meets its invariant and stands on a record of the answer, name
/// server or additional section that is no OPT record, a valid name that
/// holds no compression pointer, and a message that stays within 8192
/// bytes, `set_name_spec` gives a message, which is well formed and in
/// uncompressed form.
pub proof fn law_set_name_succeeds(it: &RRIterator, name: Seq<u8>)
    requires
        it.inv(),
        it.live(),
        is_response_section(it.section),
        check_plain(name, 0) is Ok,
        be16(it.bytes(), it.name_end as int) != Type::OPT.code(),
        insert_base(it.bytes(), it.pp().maybe_compressed).len() + name.len()
            <= DNS_MAX_UNCOMPRESSED_SIZE,
    ensures
        set_name_spec(it, name) is Ok,
        message_scan(set_name_spec(it, name)->Ok_0.0, false) is Ok,
        is_plain(set_name_spec(it, name)->Ok_0.0),
        section_count(set_name_spec(it, name)->Ok_0.0, it.section) == section_count(
            it.bytes(),
            it.section,
        ),
{
    let b = it.bytes();
    let section = it.section;
    let total = section_count(b, section);
    let k = total - (it.rrs_left + 1);
    let new_len = check_plain(name, 0)->Ok_0;
    let n = name.subrange(0, new_len);
    crate::compress::lemma_walk_plain_end(name, 0, 0);
    assert(n.subrange(0, new_len) =~= n);
    crate::compress::lemma_walk_plain_shift(name, 0, n, 0, 0);
    lemma_section_states(b, section);
    let base = insert_base(b, it.pp().maybe_compressed);
    if it.pp().maybe_compressed {
        lemma_moved_offset(b, section, k);
        lemma_moved_type(b, section, k);
    }
    lemma_section_states(base, section);
    let st = section_state(base, section);
    lemma_section_split(base, st, k + 1, total - k - 1, section);
    lemma_section_split(base, st, k, 1, section);
    let at = record_at(base, st, k, section);
    lemma_rr_scan_seen(base, at, section);
    lemma_rr_shape(base, at, section);
    lemma_renamed_place(base, section, k, n);
}

} // verus!
