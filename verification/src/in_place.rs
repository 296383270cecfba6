//! Edits in place of a message in uncompressed form: what the validator
//! makes of the message when a record gets another name, another time
//! to live or another address, or the header another id or other flags.

use crate::compress::check_plain;
use crate::compress::header_with_rdlen;
use crate::compress::lemma_plain_walk;
use crate::compress::lemma_walk_plain_end;
use crate::compress::lemma_walk_plain_shift;
use crate::compress::name_at;
use crate::compress::rr_next;
use crate::compress::uncompressed_rdata;
use crate::compress::uncompressed_records;
use crate::compress::uncompressed_rr;
use crate::compress::walk_name;
use crate::constants::Section;
use crate::constants::Type;
use crate::constants::DNS_HEADER_SIZE;
use crate::constants::DNS_MAX_HOSTNAME_INDIRECTIONS;
use crate::constants::DNS_RR_HEADER_SIZE;
use crate::dns_sector::an_count;
use crate::dns_sector::answers_scan;
use crate::dns_sector::ar_count;
use crate::dns_sector::lemma_layout;
use crate::dns_sector::lemma_layout_edns;
use crate::dns_sector::lemma_rr_scan_seen;
use crate::dns_sector::lemma_rr_shape;
use crate::dns_sector::message_scan;
use crate::dns_sector::nameservers_scan;
use crate::dns_sector::ns_count;
use crate::dns_sector::qd_count;
use crate::dns_sector::questions_end;
use crate::dns_sector::rdata_scan;
use crate::dns_sector::rr_scan;
use crate::dns_sector::section_count;
use crate::dns_sector::section_end;
use crate::dns_sector::section_scan;
use crate::dns_sector::Scan;
use crate::errors::DSError;
use crate::plain::is_plain;
use crate::plain::lemma_assembled;
use crate::plain::lemma_options_move;
use crate::plain::lemma_part_of_part;
use crate::plain::lemma_plain_name_at;
use crate::plain::lemma_plain_prefix;
use crate::plain::lemma_plain_rdata;
use crate::plain::lemma_plain_rr;
use crate::plain::lemma_plain_sections;
use crate::plain::lemma_question_kept;
use crate::plain::lemma_section_grown;
use crate::plain::lemma_section_join;
use crate::plain::lemma_section_kept;
use crate::plain::lemma_section_split;
use crate::plain::lemma_window;
use crate::plain::plain_record;
use crate::plain::record_at;
use crate::plain::record_len;
use crate::plain::scan_after;
use crate::plain::section_state;
use crate::plain::shifted;
use crate::rr_iterator::is_response_section;
use crate::rr_iterator::overwritten;
use crate::rr_iterator::renamed_bytes;
use crate::wire::be16;
use crate::wire::put_be16;
use crate::wire::put_be32;
use vstd::prelude::*;

verus! {

/// Whether an OPT record has been seen when the scan of the well-formed
/// message `b` comes to the record behind the first `k` records of
/// `section`.
pub open spec fn record_seen(b: Seq<u8>, section: Section, k: int) -> bool {
    section_scan(b, section_state(b, section), k, section)->Ok_0.edns is Some
}

/// The well-formed message `b` with the bytes `rr` in the place of the
/// record behind the first `k` records of `section`.
pub open spec fn replaced(b: Seq<u8>, section: Section, k: int, rr: Seq<u8>) -> Seq<u8> {
    b.subrange(0, record_at(b, section_state(b, section), k, section)) + rr + b.subrange(
        record_at(b, section_state(b, section), k + 1, section),
        b.len() as int,
    )
}

/// The record of `b` at `o` with `name` in the place of its name.
pub open spec fn renamed_record(b: Seq<u8>, o: int, name: Seq<u8>) -> Seq<u8> {
    name + b.subrange(name_at(b, o).end, rr_next(b, o))
}

/// A record in uncompressed form that is no OPT record is one with any
/// valid name in the place of its name.
pub proof fn lemma_named_record(b: Seq<u8>, o: int, section: Section, seen: bool, name: Seq<u8>)
    requires
        0 <= o,
        rr_scan(b, o, section, seen) is Ok,
        rr_next(b, o) <= b.len(),
        uncompressed_rr(b, o) == b.subrange(o, rr_next(b, o)),
        check_plain(name, 0) == Ok::<int, DSError>(name.len() as int),
        be16(b, name_at(b, o).end) != Type::OPT.code(),
    ensures
        plain_record(renamed_record(b, o, name), section, seen),
        rr_scan(renamed_record(b, o, name), 0, section, seen)->Ok_0.opt is None,
        name_at(b, o).end == o + name_at(b, o).name.len(),
        o < name_at(b, o).end <= rr_next(b, o),
        renamed_record(b, o, name).len() == name.len() + (rr_next(b, o) - name_at(b, o).end),
{
    lemma_rr_scan_seen(b, o, section);
    lemma_rr_shape(b, o, section);
    let old_name = name_at(b, o).name;
    let next = rr_next(b, o);
    let whole = b.subrange(o, next);
    let xr = uncompressed_rdata(b, name_at(b, o).end);
    assert(whole == old_name + xr);
    assert(whole.len() == next - o);
    assert(whole.len() == old_name.len() + xr.len());
    assert(whole.subrange(0, old_name.len() as int) =~= old_name);
    lemma_part_of_part(b, o, whole, 0, old_name.len() as int);
    lemma_plain_name_at(b, o, b, o);
    let p = name_at(b, o).end;
    assert(p == o + old_name.len());
    assert(b.subrange(p, next) =~= xr) by {
        assert(whole.subrange(old_name.len() as int, whole.len() as int) =~= xr);
        lemma_part_of_part(b, o, whole, old_name.len() as int, whole.len() as int);
    }
    let rr = renamed_record(b, o, name);
    let q = name.len() as int;
    assert(rr.subrange(0, q) =~= name);
    assert(name.subrange(0, q) =~= name);
    lemma_walk_plain_shift(name, 0, rr, 0, 0);
    lemma_plain_walk(rr, 0, 0, DNS_MAX_HOSTNAME_INDIRECTIONS as int, 0);
    assert(rr.subrange(q, q + xr.len()) =~= xr);
    assert(rdata_scan(b, o, p, section, seen) is Ok);
    lemma_plain_rdata(b, o, p, section, seen, rr, 0, q);
    assert(rdata_scan(rr, 0, q, section, seen)->Ok_0.opt is None) by {
        reveal(rdata_scan);
    }
    assert(uncompressed_rr(rr, 0) =~= rr);
}

/// The record behind the first `k` records of a section in uncompressed
/// form is accepted, is in uncompressed form, and ends where the next
/// record starts.
pub proof fn lemma_record_plain(b: Seq<u8>, st: Scan, k: int, n: int, section: Section, end: int)
    requires
        0 <= k,
        0 <= n,
        0 <= st.offset <= end <= b.len(),
        section_scan(b, st, k + 1 + n, section) is Ok,
        section_scan(b, st, k + 1 + n, section)->Ok_0.offset == end,
        b.subrange(st.offset, end) == uncompressed_records(b, st.offset, k + 1 + n),
    ensures
        st.offset <= record_at(b, st, k, section) < record_at(b, st, k + 1, section) <= end,
        record_at(b, st, k + 1, section) == rr_next(b, record_at(b, st, k, section)),
        rr_scan(b, record_at(b, st, k, section), section, false) is Ok,
        rr_scan(
            b,
            record_at(b, st, k, section),
            section,
            section_scan(b, st, k, section)->Ok_0.edns is Some,
        ) is Ok,
        section_scan(b, st, k, section) is Ok,
        uncompressed_rr(b, record_at(b, st, k, section)) == b.subrange(
            record_at(b, st, k, section),
            record_at(b, st, k + 1, section),
        ),
        record_at(b, st, k, section) < name_at(b, record_at(b, st, k, section)).end
            <= record_at(b, st, k + 1, section),
        crate::compress::walk_name(b, record_at(b, st, k, section)) is Ok,
{
    lemma_plain_prefix(b, st, k, 1 + n, section, end);
    let m_k = section_scan(b, st, k, section)->Ok_0;
    let o_k = m_k.offset;
    lemma_plain_prefix(b, m_k, 1, n, section, end);
    lemma_section_join(b, st, k, 1, section);
    let m_k1 = section_scan(b, m_k, 1, section)->Ok_0;
    assert(m_k1 == section_scan(b, st, k + 1, section)->Ok_0);
    assert(rr_scan(b, o_k, section, m_k.edns is Some) is Ok);
    lemma_rr_scan_seen(b, o_k, section);
    lemma_rr_shape(b, o_k, section);
    assert(section_scan(b, scan_after(m_k, b, section), 0, section) == Ok::<Scan, DSError>(
        scan_after(m_k, b, section),
    ));
    assert(m_k1 == scan_after(m_k, b, section));
    assert(uncompressed_records(b, o_k, 1) =~= uncompressed_rr(b, o_k)) by {
        assert(uncompressed_records(b, rr_next(b, o_k), 0) =~= Seq::<u8>::empty());
    }
}


/// The records of a section in uncompressed form, with a record in
/// uncompressed form in the place of one of them, are accepted, and stay
/// as they are, wherever their bytes stand. The record is an OPT record
/// if and only if the one whose place it takes is.
pub proof fn lemma_section_replaced(
    b: Seq<u8>,
    st: Scan,
    k: int,
    n: int,
    section: Section,
    end: int,
    rr: Seq<u8>,
    c: Seq<u8>,
    st2: Scan,
)
    requires
        0 <= k,
        0 <= n,
        0 <= st.offset <= end <= b.len(),
        0 <= st2.offset,
        st.edns is Some == st2.edns is Some,
        section_scan(b, st, k + 1 + n, section) is Ok,
        section_scan(b, st, k + 1 + n, section)->Ok_0.offset == end,
        b.subrange(st.offset, end) == uncompressed_records(b, st.offset, k + 1 + n),
        plain_record(rr, section, section_scan(b, st, k, section)->Ok_0.edns is Some),
        rr_scan(rr, 0, section, false)->Ok_0.opt is Some == rr_scan(
            b,
            record_at(b, st, k, section),
            section,
            false,
        )->Ok_0.opt is Some,
        st2.offset + (record_at(b, st, k, section) - st.offset) + rr.len() + (end - record_at(
            b,
            st,
            k + 1,
            section,
        )) <= c.len(),
        c.subrange(st2.offset, st2.offset + (record_at(b, st, k, section) - st.offset))
            == b.subrange(st.offset, record_at(b, st, k, section)),
        c.subrange(
            st2.offset + (record_at(b, st, k, section) - st.offset),
            st2.offset + (record_at(b, st, k, section) - st.offset) + rr.len(),
        ) == rr,
        c.subrange(
            st2.offset + (record_at(b, st, k, section) - st.offset) + rr.len(),
            st2.offset + (record_at(b, st, k, section) - st.offset) + rr.len() + (end - record_at(
                b,
                st,
                k + 1,
                section,
            )),
        ) == b.subrange(record_at(b, st, k + 1, section), end),
    ensures
        section_scan(c, st2, k + 1 + n, section) is Ok,
        section_scan(c, st2, k + 1 + n, section)->Ok_0.offset == st2.offset + (record_at(
            b,
            st,
            k,
            section,
        ) - st.offset) + rr.len() + (end - record_at(b, st, k + 1, section)),
        section_scan(c, st2, k + 1 + n, section)->Ok_0.edns is Some == section_scan(
            b,
            st,
            k + 1 + n,
            section,
        )->Ok_0.edns is Some,
        uncompressed_records(c, st2.offset, k + 1 + n) == c.subrange(
            st2.offset,
            st2.offset + (record_at(b, st, k, section) - st.offset) + rr.len() + (end - record_at(
                b,
                st,
                k + 1,
                section,
            )),
        ),
{
    lemma_plain_prefix(b, st, k, 1 + n, section, end);
    let m_k = section_scan(b, st, k, section)->Ok_0;
    let o_k = m_k.offset;
    lemma_plain_prefix(b, m_k, 1, n, section, end);
    lemma_section_join(b, st, k, 1, section);
    let m_k1 = section_scan(b, m_k, 1, section)->Ok_0;
    assert(m_k1 == section_scan(b, st, k + 1, section)->Ok_0);
    let o_k1 = m_k1.offset;
    let seen = m_k.edns is Some;
    assert(rr_scan(b, o_k, section, seen) is Ok);
    lemma_rr_scan_seen(b, o_k, section);
    lemma_rr_scan_seen(rr, 0, section);
    assert(section_scan(b, scan_after(m_k, b, section), 0, section) == Ok::<Scan, DSError>(
        scan_after(m_k, b, section),
    ));
    assert(m_k1 == scan_after(m_k, b, section));
    lemma_section_grown(b, st, k, section, o_k, rr, c, st2);
    let m2 = section_scan(c, st2, k + 1, section)->Ok_0;
    lemma_section_kept(b, m_k1, n, section, end, c, m2);
    lemma_section_join(c, st2, k + 1, n, section);
    lemma_section_split(c, st2, k + 1, n, section);
    let len_k = o_k - st.offset + rr.len();
    let len_n = end - o_k1;
    assert(c.subrange(st2.offset, st2.offset + len_k) + c.subrange(
        st2.offset + len_k,
        st2.offset + len_k + len_n,
    ) =~= c.subrange(st2.offset, st2.offset + len_k + len_n));
}

/// Putting a record in uncompressed form in the place of an answer of a
/// message in uncompressed form gives a well-formed message in
/// uncompressed form, in which the sections behind start as many bytes
/// later as the record is longer.
#[verifier::spinoff_prover]
#[verifier::rlimit(60)]
pub proof fn lemma_replace_answer(b: Seq<u8>, k: int, rr: Seq<u8>)
    requires
        message_scan(b, false) is Ok,
        is_plain(b),
        0 <= k < an_count(b),
        plain_record(rr, Section::Answer, record_seen(b, Section::Answer, k)),
        rr_scan(rr, 0, Section::Answer, false)->Ok_0.opt is Some == rr_scan(
            b,
            record_at(b, section_state(b, Section::Answer), k, Section::Answer),
            Section::Answer,
            false,
        )->Ok_0.opt is Some,
    ensures
        replaced(b, Section::Answer, k, rr).len() == b.len() + rr.len() - record_len(b, Section::Answer, k),
        message_scan(replaced(b, Section::Answer, k, rr), false) is Ok,
        is_plain(replaced(b, Section::Answer, k, rr)),
        questions_end(replaced(b, Section::Answer, k, rr)) == questions_end(b),
        answers_scan(replaced(b, Section::Answer, k, rr)).offset == answers_scan(b).offset + (rr.len() - record_len(b, Section::Answer, k)),
        nameservers_scan(replaced(b, Section::Answer, k, rr)).offset == nameservers_scan(b).offset + (rr.len() - record_len(b, Section::Answer, k)),
        qd_count(replaced(b, Section::Answer, k, rr)) == qd_count(b),
        an_count(replaced(b, Section::Answer, k, rr)) == an_count(b),
        ns_count(replaced(b, Section::Answer, k, rr)) == ns_count(b),
        ar_count(replaced(b, Section::Answer, k, rr)) == ar_count(b),
{
    lemma_layout(b);
    lemma_layout_edns(b);
    lemma_plain_sections(b);
    let st = section_state(b, Section::Answer);
    let q_end = questions_end(b);
    let an_end = answers_scan(b).offset;
    let ns_end = nameservers_scan(b).offset;
    let end = section_end(b, Section::Answer);
    let n = an_count(b) - k - 1;
    let h = DNS_HEADER_SIZE as int;
    lemma_record_plain(b, st, k, n, Section::Answer, end);
    let at = record_at(b, st, k, Section::Answer);
    let next = record_at(b, st, k + 1, Section::Answer);
    let c = replaced(b, Section::Answer, k, rr);
    let moved = at + rr.len();
    assert forall|i: int| 0 <= i < 12 implies c[i] == b[i] by {}
    assert(c.subrange(h, at) =~= b.subrange(h, at));
    assert(c.subrange(at, moved) =~= rr);
    assert(c.subrange(moved, moved + (b.len() - next)) =~= b.subrange(next, b.len() as int));
    lemma_window(c, h, b, h, at - h, 0, q_end - h);
    lemma_question_kept(b, c);
    let st_q = Scan { offset: q_end, edns: None };
    lemma_window(c, h, b, h, at - h, q_end - h, at - h);
    lemma_window(c, moved, b, next, b.len() - next, 0, an_end - next);
    lemma_section_replaced(b, st_q, k, n, Section::Answer, an_end, rr, c, st_q);
    let st_a = answers_scan(c);
    lemma_window(c, moved, b, next, b.len() - next, an_end - next, ns_end - next);
    lemma_section_kept(b, answers_scan(b), ns_count(b), Section::NameServers, ns_end, c, st_a);
    let st_n = nameservers_scan(c);
    lemma_window(c, moved, b, next, b.len() - next, ns_end - next, b.len() - next);
    lemma_section_kept(
        b,
        nameservers_scan(b),
        ar_count(b),
        Section::Additional,
        b.len() as int,
        c,
        st_n,
    );
    lemma_assembled(c);
}

/// Putting a record in uncompressed form in the place of a name server record of a
/// message in uncompressed form gives a well-formed message in
/// uncompressed form, in which the sections behind start as many bytes
/// later as the record is longer.
#[verifier::spinoff_prover]
#[verifier::rlimit(60)]
pub proof fn lemma_replace_nameservers(b: Seq<u8>, k: int, rr: Seq<u8>)
    requires
        message_scan(b, false) is Ok,
        is_plain(b),
        0 <= k < ns_count(b),
        plain_record(rr, Section::NameServers, record_seen(b, Section::NameServers, k)),
        rr_scan(rr, 0, Section::NameServers, false)->Ok_0.opt is Some == rr_scan(
            b,
            record_at(b, section_state(b, Section::NameServers), k, Section::NameServers),
            Section::NameServers,
            false,
        )->Ok_0.opt is Some,
    ensures
        replaced(b, Section::NameServers, k, rr).len() == b.len() + rr.len() - record_len(b, Section::NameServers, k),
        message_scan(replaced(b, Section::NameServers, k, rr), false) is Ok,
        is_plain(replaced(b, Section::NameServers, k, rr)),
        questions_end(replaced(b, Section::NameServers, k, rr)) == questions_end(b),
        answers_scan(replaced(b, Section::NameServers, k, rr)).offset == answers_scan(b).offset + 0,
        nameservers_scan(replaced(b, Section::NameServers, k, rr)).offset == nameservers_scan(b).offset + (rr.len() - record_len(b, Section::NameServers, k)),
        qd_count(replaced(b, Section::NameServers, k, rr)) == qd_count(b),
        an_count(replaced(b, Section::NameServers, k, rr)) == an_count(b),
        ns_count(replaced(b, Section::NameServers, k, rr)) == ns_count(b),
        ar_count(replaced(b, Section::NameServers, k, rr)) == ar_count(b),
{
    lemma_layout(b);
    lemma_layout_edns(b);
    lemma_plain_sections(b);
    let st = section_state(b, Section::NameServers);
    let q_end = questions_end(b);
    let an_end = answers_scan(b).offset;
    let ns_end = nameservers_scan(b).offset;
    let end = section_end(b, Section::NameServers);
    let n = ns_count(b) - k - 1;
    let h = DNS_HEADER_SIZE as int;
    lemma_record_plain(b, st, k, n, Section::NameServers, end);
    let at = record_at(b, st, k, Section::NameServers);
    let next = record_at(b, st, k + 1, Section::NameServers);
    let c = replaced(b, Section::NameServers, k, rr);
    let moved = at + rr.len();
    assert forall|i: int| 0 <= i < 12 implies c[i] == b[i] by {}
    assert(c.subrange(h, at) =~= b.subrange(h, at));
    assert(c.subrange(at, moved) =~= rr);
    assert(c.subrange(moved, moved + (b.len() - next)) =~= b.subrange(next, b.len() as int));
    lemma_window(c, h, b, h, at - h, 0, q_end - h);
    lemma_question_kept(b, c);
    let st_q = Scan { offset: q_end, edns: None };
    lemma_window(c, h, b, h, at - h, q_end - h, an_end - h);
    lemma_section_kept(b, st_q, an_count(b), Section::Answer, an_end, c, st_q);
    let st_a = answers_scan(c);
    lemma_window(c, h, b, h, at - h, an_end - h, at - h);
    lemma_window(c, moved, b, next, b.len() - next, 0, ns_end - next);
    lemma_section_replaced(
        b,
        answers_scan(b),
        k,
        n,
        Section::NameServers,
        ns_end,
        rr,
        c,
        st_a,
    );
    let st_n = nameservers_scan(c);
    lemma_window(c, moved, b, next, b.len() - next, ns_end - next, b.len() - next);
    lemma_section_kept(
        b,
        nameservers_scan(b),
        ar_count(b),
        Section::Additional,
        b.len() as int,
        c,
        st_n,
    );
    lemma_assembled(c);
}

/// Putting a record in uncompressed form in the place of an additional record of a
/// message in uncompressed form gives a well-formed message in
/// uncompressed form, in which the sections behind start as many bytes
/// later as the record is longer.
#[verifier::spinoff_prover]
#[verifier::rlimit(60)]
pub proof fn lemma_replace_additional(b: Seq<u8>, k: int, rr: Seq<u8>)
    requires
        message_scan(b, false) is Ok,
        is_plain(b),
        0 <= k < ar_count(b),
        plain_record(rr, Section::Additional, record_seen(b, Section::Additional, k)),
        rr_scan(rr, 0, Section::Additional, false)->Ok_0.opt is Some == rr_scan(
            b,
            record_at(b, section_state(b, Section::Additional), k, Section::Additional),
            Section::Additional,
            false,
        )->Ok_0.opt is Some,
    ensures
        replaced(b, Section::Additional, k, rr).len() == b.len() + rr.len() - record_len(b, Section::Additional, k),
        message_scan(replaced(b, Section::Additional, k, rr), false) is Ok,
        is_plain(replaced(b, Section::Additional, k, rr)),
        questions_end(replaced(b, Section::Additional, k, rr)) == questions_end(b),
        answers_scan(replaced(b, Section::Additional, k, rr)).offset == answers_scan(b).offset + 0,
        nameservers_scan(replaced(b, Section::Additional, k, rr)).offset == nameservers_scan(b).offset + 0,
        qd_count(replaced(b, Section::Additional, k, rr)) == qd_count(b),
        an_count(replaced(b, Section::Additional, k, rr)) == an_count(b),
        ns_count(replaced(b, Section::Additional, k, rr)) == ns_count(b),
        ar_count(replaced(b, Section::Additional, k, rr)) == ar_count(b),
{
    lemma_layout(b);
    lemma_layout_edns(b);
    lemma_plain_sections(b);
    let st = section_state(b, Section::Additional);
    let q_end = questions_end(b);
    let an_end = answers_scan(b).offset;
    let ns_end = nameservers_scan(b).offset;
    let end = section_end(b, Section::Additional);
    let n = ar_count(b) - k - 1;
    let h = DNS_HEADER_SIZE as int;
    lemma_record_plain(b, st, k, n, Section::Additional, end);
    let at = record_at(b, st, k, Section::Additional);
    let next = record_at(b, st, k + 1, Section::Additional);
    let c = replaced(b, Section::Additional, k, rr);
    let moved = at + rr.len();
    assert forall|i: int| 0 <= i < 12 implies c[i] == b[i] by {}
    assert(c.subrange(h, at) =~= b.subrange(h, at));
    assert(c.subrange(at, moved) =~= rr);
    assert(c.subrange(moved, moved + (b.len() - next)) =~= b.subrange(next, b.len() as int));
    lemma_window(c, h, b, h, at - h, 0, q_end - h);
    lemma_question_kept(b, c);
    let st_q = Scan { offset: q_end, edns: None };
    lemma_window(c, h, b, h, at - h, q_end - h, an_end - h);
    lemma_section_kept(b, st_q, an_count(b), Section::Answer, an_end, c, st_q);
    let st_a = answers_scan(c);
    lemma_window(c, h, b, h, at - h, an_end - h, ns_end - h);
    lemma_section_kept(b, answers_scan(b), ns_count(b), Section::NameServers, ns_end, c, st_a);
    let st_n = nameservers_scan(c);
    lemma_window(c, h, b, h, at - h, ns_end - h, at - h);
    lemma_window(c, moved, b, next, b.len() - next, 0, b.len() - next);
    lemma_section_replaced(
        b,
        nameservers_scan(b),
        k,
        n,
        Section::Additional,
        b.len() as int,
        rr,
        c,
        st_n,
    );
    lemma_assembled(c);
}

/// Putting a record in uncompressed form in the place of a record of the
/// answer, name server or additional section of a message in uncompressed
/// form gives a well-formed message in uncompressed form, with as many
/// records in each section. Every section starts where it did, but for
/// the sections behind the section of the record, which start as many
/// bytes later as the record is longer.
#[verifier::spinoff_prover]
#[verifier::rlimit(80)]
pub proof fn lemma_replaced(b: Seq<u8>, section: Section, k: int, rr: Seq<u8>)
    requires
        message_scan(b, false) is Ok,
        is_plain(b),
        is_response_section(section),
        0 <= k < section_count(b, section),
        plain_record(rr, section, record_seen(b, section, k)),
        rr_scan(rr, 0, section, false)->Ok_0.opt is Some == rr_scan(
            b,
            record_at(b, section_state(b, section), k, section),
            section,
            false,
        )->Ok_0.opt is Some,
    ensures
        message_scan(replaced(b, section, k, rr), false) is Ok,
        is_plain(replaced(b, section, k, rr)),
        replaced(b, section, k, rr).len() == b.len() + rr.len() - record_len(b, section, k),
        qd_count(replaced(b, section, k, rr)) == qd_count(b),
        an_count(replaced(b, section, k, rr)) == an_count(b),
        ns_count(replaced(b, section, k, rr)) == ns_count(b),
        ar_count(replaced(b, section, k, rr)) == ar_count(b),
        message_scan(replaced(b, section, k, rr), false)->Ok_0.question == message_scan(
            b,
            false,
        )->Ok_0.question,
        message_scan(replaced(b, section, k, rr), false)->Ok_0.answers == message_scan(
            b,
            false,
        )->Ok_0.answers,
        message_scan(replaced(b, section, k, rr), false)->Ok_0.nameservers == (match section {
            Section::Answer => shifted(
                message_scan(b, false)->Ok_0.nameservers,
                rr.len() - record_len(b, section, k),
            ),
            _ => message_scan(b, false)->Ok_0.nameservers,
        }),
        message_scan(replaced(b, section, k, rr), false)->Ok_0.additional == (match section {
            Section::Additional => message_scan(b, false)->Ok_0.additional,
            _ => shifted(
                message_scan(b, false)->Ok_0.additional,
                rr.len() - record_len(b, section, k),
            ),
        }),
{
    lemma_layout(b);
    match section {
        Section::Answer => {
            lemma_replace_answer(b, k, rr);
        },
        Section::NameServers => {
            lemma_replace_nameservers(b, k, rr);
        },
        _ => {
            lemma_replace_additional(b, k, rr);
        },
    }
    lemma_layout(replaced(b, section, k, rr));
}

/// The well-formed message `b` with `name` in the place of the name of
/// the record behind the first `k` records of `section`.
pub open spec fn renamed_at(b: Seq<u8>, section: Section, k: int, name: Seq<u8>) -> Seq<u8> {
    renamed_bytes(b, record_at(b, section_state(b, section), k, section), name)->Ok_0
}

/// By how much the record behind the first `k` records of `section` grows
/// when `name` takes the place of its name.
pub open spec fn name_shift(b: Seq<u8>, section: Section, k: int, name: Seq<u8>) -> int {
    name.len() - (name_at(b, record_at(b, section_state(b, section), k, section)).end - record_at(
        b,
        section_state(b, section),
        k,
        section,
    ))
}

/// Giving a record of the answer, name server or additional section of a
/// message in uncompressed form another valid name gives a well-formed
/// message in uncompressed form, with as many records in each section.
/// Every section starts where it did, but for the sections behind the
/// section of the record, which start as many bytes later as the name is
/// longer. The record is no OPT record, whose name is the root, and the
/// message does not grow past 8192 bytes.
#[verifier::spinoff_prover]
#[verifier::rlimit(80)]
pub proof fn law_rename_shifts_sections(b: Seq<u8>, section: Section, k: int, name: Seq<u8>)
    requires
        message_scan(b, false) is Ok,
        is_plain(b),
        is_response_section(section),
        0 <= k < section_count(b, section),
        check_plain(name, 0) == Ok::<int, DSError>(name.len() as int),
        be16(b, name_at(b, record_at(b, section_state(b, section), k, section)).end)
            != Type::OPT.code(),
        renamed_bytes(b, record_at(b, section_state(b, section), k, section), name) is Ok,
    ensures
        message_scan(renamed_at(b, section, k, name), false) is Ok,
        is_plain(renamed_at(b, section, k, name)),
        renamed_at(b, section, k, name).len() == b.len() + name_shift(b, section, k, name),
        qd_count(renamed_at(b, section, k, name)) == qd_count(b),
        an_count(renamed_at(b, section, k, name)) == an_count(b),
        ns_count(renamed_at(b, section, k, name)) == ns_count(b),
        ar_count(renamed_at(b, section, k, name)) == ar_count(b),
        message_scan(renamed_at(b, section, k, name), false)->Ok_0.question == message_scan(
            b,
            false,
        )->Ok_0.question,
        message_scan(renamed_at(b, section, k, name), false)->Ok_0.answers == message_scan(
            b,
            false,
        )->Ok_0.answers,
        message_scan(renamed_at(b, section, k, name), false)->Ok_0.nameservers == (match section {
            Section::Answer => shifted(
                message_scan(b, false)->Ok_0.nameservers,
                name_shift(b, section, k, name),
            ),
            _ => message_scan(b, false)->Ok_0.nameservers,
        }),
        message_scan(renamed_at(b, section, k, name), false)->Ok_0.additional == (match section {
            Section::Additional => message_scan(b, false)->Ok_0.additional,
            _ => shifted(message_scan(b, false)->Ok_0.additional, name_shift(b, section, k, name)),
        }),
{
    lemma_layout(b);
    lemma_plain_sections(b);
    let st = section_state(b, section);
    let n = section_count(b, section) - k - 1;
    lemma_record_plain(b, st, k, n, section, section_end(b, section));
    let at = record_at(b, st, k, section);
    lemma_named_record(b, at, section, record_seen(b, section, k), name);
    let rr = renamed_record(b, at, name);
    lemma_rr_scan_seen(rr, 0, section);
    lemma_rr_scan_seen(b, at, section);
    assert(rr_scan(b, at, section, false)->Ok_0.opt is None) by {
        reveal(rdata_scan);
    }
    assert(renamed_at(b, section, k, name) =~= replaced(b, section, k, rr));
    lemma_replaced(b, section, k, rr);
}


/// Whether `rr_type` is the type of a record whose data is an address.
pub open spec fn is_address(rr_type: int) -> bool {
    rr_type == Type::A.code() || rr_type == Type::AAAA.code()
}

/// Whether `c` holds, in the place of the fixed header and the data of
/// the record of `b` whose fixed header starts at `p`, the same bytes but
/// for the time to live and, in the record of an address, the data.
pub open spec fn rdata_touched(b: Seq<u8>, c: Seq<u8>, p: int) -> bool {
    &&& c.len() == b.len()
    &&& forall|i: int|
        p <= i < p + DNS_RR_HEADER_SIZE + be16(b, p + 8) && !(p + 4 <= i < p + 8) && !(is_address(
            be16(b, p),
        ) && p + DNS_RR_HEADER_SIZE <= i) ==> #[trigger] c[i] == b[i]
}

/// What the lemmas on touched data take for granted: the data of the
/// record of `b` is accepted and in uncompressed form, and `c` holds
/// the same bytes but for the time to live and the address.
pub open spec fn touched_given(
    b: Seq<u8>,
    c: Seq<u8>,
    o: int,
    p: int,
    section: Section,
    seen: bool,
) -> bool {
    &&& 0 <= o < p
    &&& p + DNS_RR_HEADER_SIZE + be16(b, p + 8) <= b.len()
    &&& rdata_scan(b, o, p, section, seen) is Ok
    &&& uncompressed_rdata(b, p) == b.subrange(p, p + DNS_RR_HEADER_SIZE + be16(b, p + 8))
    &&& rdata_touched(b, c, p)
}

/// What the lemmas on touched data show: the data of the record of `c`
/// is accepted as that of `b` is, and in uncompressed form.
pub open spec fn touched_shown(
    b: Seq<u8>,
    c: Seq<u8>,
    o: int,
    p: int,
    section: Section,
    seen: bool,
) -> bool {
    &&& rdata_scan(c, o, p, section, seen) is Ok
    &&& rdata_scan(c, o, p, section, seen)->Ok_0.next == p + DNS_RR_HEADER_SIZE + be16(b, p + 8)
    &&& rdata_scan(c, o, p, section, seen)->Ok_0.opt is Some == rdata_scan(
        b,
        o,
        p,
        section,
        seen,
    )->Ok_0.opt is Some
    &&& uncompressed_rdata(c, p) == c.subrange(p, p + DNS_RR_HEADER_SIZE + be16(b, p + 8))
    &&& be16(c, p) == be16(b, p)
    &&& be16(c, p + 8) == be16(b, p + 8)
}

/// The fixed header of a record with the length of its data written to
/// it once more is the fixed header.
pub proof fn lemma_header_same(c: Seq<u8>, p: int)
    requires
        0 <= p,
        p + DNS_RR_HEADER_SIZE <= c.len(),
    ensures
        header_with_rdlen(c, p, be16(c, p + 8)) == c.subrange(p, p + DNS_RR_HEADER_SIZE),
{
    let h = c.subrange(p, p + DNS_RR_HEADER_SIZE);
    assert(h[8] == c[p + 8] && h[9] == c[p + 9]);
    assert(put_be16(h, 8, be16(c, p + 8)) =~= h);
}

/// Touched data that holds one name: that of an NS, CNAME or PTR record.
pub proof fn lemma_touched_name(
    b: Seq<u8>,
    c: Seq<u8>,
    o: int,
    p: int,
    section: Section,
    seen: bool,
)
    requires
        touched_given(b, c, o, p, section, seen),
        be16(b, p) == Type::NS.code() || be16(b, p) == Type::CNAME.code() || be16(b, p)
            == Type::PTR.code(),
    ensures
        touched_shown(b, c, o, p, section, seen),
{
    reveal(rdata_scan);
    let d = p + DNS_RR_HEADER_SIZE;
    let rdlen = be16(b, p + 8);
    let next = d + rdlen;
    let whole = b.subrange(p, next);
    let nb = name_at(b, d).name;
    let len = nb.len() as int;
    crate::compress::lemma_name_stands_alone(b, d);
    crate::plain::lemma_header(b, p, len);
    assert(whole == header_with_rdlen(b, p, len) + nb);
    assert(whole.len() == DNS_RR_HEADER_SIZE + rdlen);
    assert(len == rdlen);
    assert(whole.subrange(DNS_RR_HEADER_SIZE as int, DNS_RR_HEADER_SIZE + len) =~= nb);
    lemma_part_of_part(b, p, whole, DNS_RR_HEADER_SIZE as int, DNS_RR_HEADER_SIZE + len);
    assert(c.subrange(d, d + len) =~= b.subrange(d, d + len));
    lemma_plain_name_at(b, d, c, d);
    assert(c[p] == b[p] && c[p + 1] == b[p + 1] && c[p + 8] == b[p + 8] && c[p + 9] == b[p + 9]);
    lemma_header_same(c, p);
    assert(c.subrange(p, d) + nb =~= c.subrange(p, next));
}

/// Touched data that holds a number and a name: that of an MX record.
pub proof fn lemma_touched_mx(b: Seq<u8>, c: Seq<u8>, o: int, p: int, section: Section, seen: bool)
    requires
        touched_given(b, c, o, p, section, seen),
        be16(b, p) == Type::MX.code(),
    ensures
        touched_shown(b, c, o, p, section, seen),
{
    reveal(rdata_scan);
    let d = p + DNS_RR_HEADER_SIZE;
    let rdlen = be16(b, p + 8);
    let next = d + rdlen;
    let whole = b.subrange(p, next);
    let nb = name_at(b, d + 2).name;
    let len = nb.len() as int;
    crate::compress::lemma_name_stands_alone(b, d + 2);
    crate::plain::lemma_header(b, p, 2 + len);
    assert(whole == header_with_rdlen(b, p, 2 + len) + b.subrange(d, d + 2) + nb);
    assert(whole.len() == DNS_RR_HEADER_SIZE + rdlen);
    assert(2 + len == rdlen);
    assert(whole.subrange(DNS_RR_HEADER_SIZE + 2, DNS_RR_HEADER_SIZE + 2 + len) =~= nb);
    lemma_part_of_part(b, p, whole, DNS_RR_HEADER_SIZE + 2, DNS_RR_HEADER_SIZE + 2 + len);
    assert(c.subrange(d + 2, d + 2 + len) =~= b.subrange(d + 2, d + 2 + len));
    lemma_plain_name_at(b, d + 2, c, d + 2);
    assert(c[p] == b[p] && c[p + 1] == b[p + 1] && c[p + 8] == b[p + 8] && c[p + 9] == b[p + 9]);
    lemma_header_same(c, p);
    assert(c.subrange(p, d) + c.subrange(d, d + 2) + nb =~= c.subrange(p, next));
}

/// Touched data that holds two names and five numbers: that of an SOA
/// record.
pub proof fn lemma_touched_soa(
    b: Seq<u8>,
    c: Seq<u8>,
    o: int,
    p: int,
    section: Section,
    seen: bool,
)
    requires
        touched_given(b, c, o, p, section, seen),
        be16(b, p) == Type::SOA.code(),
    ensures
        touched_shown(b, c, o, p, section, seen),
{
    reveal(rdata_scan);
    let d = p + DNS_RR_HEADER_SIZE;
    let rdlen = be16(b, p + 8);
    let next = d + rdlen;
    let whole = b.subrange(p, next);
    let n1 = name_at(b, d).name;
    let len1 = n1.len() as int;
    let m = name_at(b, d).end;
    let n2 = name_at(b, m).name;
    let len2 = n2.len() as int;
    let tail_at = name_at(b, m).end;
    let tail = b.subrange(tail_at, tail_at + 20);
    crate::compress::lemma_name_stands_alone(b, d);
    crate::compress::lemma_walk_from_ok(
        b,
        d,
        b.len() as int,
        d,
        DNS_MAX_HOSTNAME_INDIRECTIONS as int,
        0,
    );
    crate::compress::lemma_name_stands_alone(b, m);
    crate::compress::lemma_walk_from_ok(
        b,
        m,
        b.len() as int,
        m,
        DNS_MAX_HOSTNAME_INDIRECTIONS as int,
        0,
    );
    crate::plain::lemma_header(b, p, len1 + len2 + 20);
    assert(tail.len() == 20);
    assert(whole == header_with_rdlen(b, p, len1 + len2 + 20) + n1 + n2 + tail);
    assert(whole.len() == DNS_RR_HEADER_SIZE + rdlen);
    assert(len1 + len2 + 20 == rdlen);
    assert(whole.subrange(DNS_RR_HEADER_SIZE as int, DNS_RR_HEADER_SIZE + len1) =~= n1);
    lemma_part_of_part(b, p, whole, DNS_RR_HEADER_SIZE as int, DNS_RR_HEADER_SIZE + len1);
    lemma_plain_name_at(b, d, b, d);
    assert(m == d + len1);
    assert(whole.subrange(DNS_RR_HEADER_SIZE + len1, DNS_RR_HEADER_SIZE + len1 + len2) =~= n2);
    lemma_part_of_part(
        b,
        p,
        whole,
        DNS_RR_HEADER_SIZE + len1,
        DNS_RR_HEADER_SIZE + len1 + len2,
    );
    lemma_plain_name_at(b, m, b, m);
    assert(tail_at == m + len2);
    assert(c.subrange(d, d + len1) =~= b.subrange(d, d + len1));
    assert(c.subrange(m, m + len2) =~= b.subrange(m, m + len2));
    lemma_plain_name_at(b, d, c, d);
    lemma_plain_name_at(b, m, c, m);
    assert(c[p] == b[p] && c[p + 1] == b[p + 1] && c[p + 8] == b[p + 8] && c[p + 9] == b[p + 9]);
    lemma_header_same(c, p);
    assert(c.subrange(tail_at, tail_at + 20) =~= tail);
    assert(c.subrange(p, d) + n1 + n2 + c.subrange(tail_at, tail_at + 20) =~= c.subrange(
        p,
        next,
    ));
}

/// Touched data that holds no name that is read with compression.
pub proof fn lemma_touched_raw(
    b: Seq<u8>,
    c: Seq<u8>,
    o: int,
    p: int,
    section: Section,
    seen: bool,
)
    requires
        touched_given(b, c, o, p, section, seen),
        be16(b, p) != Type::NS.code(),
        be16(b, p) != Type::CNAME.code(),
        be16(b, p) != Type::PTR.code(),
        be16(b, p) != Type::MX.code(),
        be16(b, p) != Type::SOA.code(),
    ensures
        touched_shown(b, c, o, p, section, seen),
{
    reveal(rdata_scan);
    let d = p + DNS_RR_HEADER_SIZE;
    let rdlen = be16(b, p + 8);
    let next = d + rdlen;
    assert(c[p] == b[p] && c[p + 1] == b[p + 1] && c[p + 8] == b[p + 8] && c[p + 9] == b[p + 9]);
    if be16(b, p) == Type::OPT.code() {
        assert(c.subrange(d, d + (next - d)) =~= b.subrange(d, next));
        lemma_options_move(b, d, next, c, d, 0);
    } else if be16(b, p) == Type::DNAME.code() {
        lemma_walk_plain_end(b, d, 0);
        assert(c.subrange(d, d + (next - d)) =~= b.subrange(d, next));
        lemma_walk_plain_shift(b, d, c, d, 0);
    }
}

/// The fixed header and the data of a record in uncompressed form are
/// accepted, and in uncompressed form, with another time to live and,
/// in the record of an address, with other data of the same length.
pub proof fn lemma_touched(b: Seq<u8>, c: Seq<u8>, o: int, p: int, section: Section, seen: bool)
    requires
        touched_given(b, c, o, p, section, seen),
    ensures
        touched_shown(b, c, o, p, section, seen),
{
    let t = be16(b, p);
    if t == Type::NS.code() || t == Type::CNAME.code() || t == Type::PTR.code() {
        lemma_touched_name(b, c, o, p, section, seen);
    } else if t == Type::MX.code() {
        lemma_touched_mx(b, c, o, p, section, seen);
    } else if t == Type::SOA.code() {
        lemma_touched_soa(b, c, o, p, section, seen);
    } else {
        lemma_touched_raw(b, c, o, p, section, seen);
    }
}


/// A record in uncompressed form is accepted, and in uncompressed form,
/// with another time to live and, if it is the record of an address,
/// with other data of the same length.
pub proof fn lemma_record_touched(b: Seq<u8>, c: Seq<u8>, o: int, section: Section, seen: bool)
    requires
        0 <= o,
        rr_scan(b, o, section, seen) is Ok,
        rr_next(b, o) <= b.len(),
        uncompressed_rr(b, o) == b.subrange(o, rr_next(b, o)),
        forall|i: int| o <= i < name_at(b, o).end ==> #[trigger] c[i] == b[i],
        rdata_touched(b, c, name_at(b, o).end),
    ensures
        rr_scan(c, o, section, seen) is Ok,
        rr_scan(c, o, section, seen)->Ok_0.next == rr_next(b, o),
        rr_scan(c, o, section, seen)->Ok_0.opt is Some == rr_scan(b, o, section, seen)->Ok_0.opt
            is Some,
        rr_next(c, o) == rr_next(b, o),
        uncompressed_rr(c, o) == c.subrange(o, rr_next(b, o)),
{
    lemma_rr_scan_seen(b, o, section);
    lemma_rr_shape(b, o, section);
    let old_name = name_at(b, o).name;
    let next = rr_next(b, o);
    let whole = b.subrange(o, next);
    let xr = uncompressed_rdata(b, name_at(b, o).end);
    assert(whole == old_name + xr);
    assert(whole.len() == next - o);
    assert(whole.len() == old_name.len() + xr.len());
    assert(whole.subrange(0, old_name.len() as int) =~= old_name);
    lemma_part_of_part(b, o, whole, 0, old_name.len() as int);
    lemma_plain_name_at(b, o, b, o);
    let p = name_at(b, o).end;
    assert(p == o + old_name.len());
    assert(b.subrange(p, next) =~= xr) by {
        assert(whole.subrange(old_name.len() as int, whole.len() as int) =~= xr);
        lemma_part_of_part(b, o, whole, old_name.len() as int, whole.len() as int);
    }
    assert(c.subrange(o, p) =~= b.subrange(o, p));
    lemma_plain_name_at(b, o, c, o);
    assert(rdata_scan(b, o, p, section, seen) is Ok);
    lemma_touched(b, c, o, p, section, seen);
    assert(old_name + c.subrange(p, next) =~= c.subrange(o, next));
}

/// A message in uncompressed form in which a record of the answer, name
/// server or additional section has another time to live or, if it is
/// the record of an address, other data of the same length, is a
/// well-formed message in uncompressed form, with the same sections.
#[verifier::spinoff_prover]
#[verifier::rlimit(80)]
pub proof fn lemma_touched_message(b: Seq<u8>, c: Seq<u8>, section: Section, k: int)
    requires
        message_scan(b, false) is Ok,
        is_plain(b),
        is_response_section(section),
        0 <= k < section_count(b, section),
        c.len() == b.len(),
        forall|i: int|
            0 <= i < b.len() && !(name_at(
                b,
                record_at(b, section_state(b, section), k, section),
            ).end <= i < record_at(b, section_state(b, section), k + 1, section)) ==> #[trigger] c[i]
                == b[i],
        rdata_touched(b, c, name_at(b, record_at(b, section_state(b, section), k, section)).end),
    ensures
        message_scan(c, false) is Ok,
        is_plain(c),
        message_scan(c, false)->Ok_0.question == message_scan(b, false)->Ok_0.question,
        message_scan(c, false)->Ok_0.answers == message_scan(b, false)->Ok_0.answers,
        message_scan(c, false)->Ok_0.nameservers == message_scan(b, false)->Ok_0.nameservers,
        message_scan(c, false)->Ok_0.additional == message_scan(b, false)->Ok_0.additional,
{
    lemma_layout(b);
    lemma_plain_sections(b);
    let st = section_state(b, section);
    let n = section_count(b, section) - k - 1;
    lemma_record_plain(b, st, k, n, section, section_end(b, section));
    let at = record_at(b, st, k, section);
    let next = record_at(b, st, k + 1, section);
    let seen = record_seen(b, section, k);
    lemma_record_touched(b, c, at, section, seen);
    let rr = c.subrange(at, next);
    assert(rr.subrange(0, rr.len() as int) =~= rr);
    lemma_plain_rr(c, at, section, seen, rr, 0);
    lemma_rr_scan_seen(rr, 0, section);
    lemma_rr_scan_seen(b, at, section);
    lemma_rr_scan_seen(c, at, section);
    assert(c =~= replaced(b, section, k, rr));
    lemma_replaced(b, section, k, rr);
}

/// Another time to live for a record of the answer, name server or
/// additional section of a message in uncompressed form gives a
/// well-formed message in uncompressed form, with the same sections.
pub proof fn law_ttl_keeps_sections(b: Seq<u8>, section: Section, k: int, ttl: int)
    requires
        message_scan(b, false) is Ok,
        is_plain(b),
        is_response_section(section),
        0 <= k < section_count(b, section),
        0 <= ttl < 0x1_0000_0000,
    ensures
        ({
            let p = name_at(b, record_at(b, section_state(b, section), k, section)).end;
            let c = put_be32(b, p + 4, ttl);
            &&& message_scan(c, false) is Ok
            &&& is_plain(c)
            &&& message_scan(c, false)->Ok_0.question == message_scan(b, false)->Ok_0.question
            &&& message_scan(c, false)->Ok_0.answers == message_scan(b, false)->Ok_0.answers
            &&& message_scan(c, false)->Ok_0.nameservers == message_scan(
                b,
                false,
            )->Ok_0.nameservers
            &&& message_scan(c, false)->Ok_0.additional == message_scan(b, false)->Ok_0.additional
        }),
{
    lemma_layout(b);
    lemma_plain_sections(b);
    let st = section_state(b, section);
    let n = section_count(b, section) - k - 1;
    lemma_record_plain(b, st, k, n, section, section_end(b, section));
    let at = record_at(b, st, k, section);
    lemma_rr_shape(b, at, section);
    let p = name_at(b, at).end;
    let c = put_be32(b, p + 4, ttl);
    assert(c.len() == b.len());
    assert forall|i: int| 0 <= i < b.len() && !(p + 4 <= i < p + 8) implies #[trigger] c[i]
        == b[i] by {}
    lemma_touched_message(b, c, section, k);
}

/// Another address of the same family for the record of an address in
/// the answer, name server or additional section of a message in
/// uncompressed form gives a well-formed message in uncompressed form,
/// with the same sections.
pub proof fn law_address_keeps_sections(b: Seq<u8>, section: Section, k: int, address: Seq<u8>)
    requires
        message_scan(b, false) is Ok,
        is_plain(b),
        is_response_section(section),
        0 <= k < section_count(b, section),
        ({
            let p = name_at(b, record_at(b, section_state(b, section), k, section)).end;
            ||| be16(b, p) == Type::A.code() && address.len() == 4
            ||| be16(b, p) == Type::AAAA.code() && address.len() == 16
        }),
    ensures
        ({
            let p = name_at(b, record_at(b, section_state(b, section), k, section)).end;
            let c = overwritten(b, p + DNS_RR_HEADER_SIZE, address);
            &&& message_scan(c, false) is Ok
            &&& is_plain(c)
            &&& message_scan(c, false)->Ok_0.question == message_scan(b, false)->Ok_0.question
            &&& message_scan(c, false)->Ok_0.answers == message_scan(b, false)->Ok_0.answers
            &&& message_scan(c, false)->Ok_0.nameservers == message_scan(
                b,
                false,
            )->Ok_0.nameservers
            &&& message_scan(c, false)->Ok_0.additional == message_scan(b, false)->Ok_0.additional
        }),
{
    lemma_layout(b);
    lemma_plain_sections(b);
    let st = section_state(b, section);
    let n = section_count(b, section) - k - 1;
    lemma_record_plain(b, st, k, n, section, section_end(b, section));
    let at = record_at(b, st, k, section);
    lemma_rr_shape(b, at, section);
    let p = name_at(b, at).end;
    let d = p + DNS_RR_HEADER_SIZE;
    assert(be16(b, p + 8) == address.len()) by {
        reveal(rdata_scan);
    }
    let c = overwritten(b, d, address);
    assert(c.len() == b.len());
    assert forall|i: int| 0 <= i < b.len() && !(d <= i < d + address.len()) implies #[trigger] c[i]
        == b[i] by {}
    lemma_touched_message(b, c, section, k);
}


/// Other bytes in the place of the first four bytes of a message in
/// uncompressed form, which hold the transaction id and the flags, give a
/// well-formed message in uncompressed form, with the same sections. In
/// a message that holds compression pointers a name may read its labels
/// from these bytes, which is why the setters of the header look at the
/// message again before they change it.
pub proof fn law_header_keeps_sections(b: Seq<u8>, c: Seq<u8>)
    requires
        message_scan(b, false) is Ok,
        is_plain(b),
        c.len() == b.len(),
        forall|i: int| 4 <= i < b.len() ==> #[trigger] c[i] == b[i],
    ensures
        message_scan(c, false) is Ok,
        is_plain(c),
        message_scan(c, false)->Ok_0.question == message_scan(b, false)->Ok_0.question,
        message_scan(c, false)->Ok_0.answers == message_scan(b, false)->Ok_0.answers,
        message_scan(c, false)->Ok_0.nameservers == message_scan(b, false)->Ok_0.nameservers,
        message_scan(c, false)->Ok_0.additional == message_scan(b, false)->Ok_0.additional,
{
    lemma_layout(b);
    lemma_layout_edns(b);
    lemma_plain_sections(b);
    let h = DNS_HEADER_SIZE as int;
    let q_end = questions_end(b);
    let an_end = answers_scan(b).offset;
    let ns_end = nameservers_scan(b).offset;
    let len = b.len() as int;
    assert(c.subrange(h, h + (len - h)) =~= b.subrange(h, h + (len - h)));
    lemma_window(c, h, b, h, len - h, 0, q_end - h);
    lemma_question_kept(b, c);
    let st_q = Scan { offset: q_end, edns: None };
    lemma_window(c, h, b, h, len - h, q_end - h, an_end - h);
    lemma_section_kept(b, st_q, an_count(b), Section::Answer, an_end, c, st_q);
    let st_a = answers_scan(c);
    lemma_window(c, h, b, h, len - h, an_end - h, ns_end - h);
    lemma_section_kept(b, answers_scan(b), ns_count(b), Section::NameServers, ns_end, c, st_a);
    let st_n = nameservers_scan(c);
    lemma_window(c, h, b, h, len - h, ns_end - h, len - h);
    lemma_section_kept(b, nameservers_scan(b), ar_count(b), Section::Additional, len, c, st_n);
    lemma_assembled(c);
    lemma_layout(c);
}

} // verus!
