//! Messages without compression: what the validator makes of the message
//! that decompression writes.

use crate::compress::check_plain;
use crate::compress::header_with_rdlen;
use crate::compress::lemma_name_stands_alone;
use crate::compress::lemma_plain_walk;
use crate::compress::lemma_walk_plain_end;
use crate::compress::lemma_walk_plain_shift;
use crate::compress::name_at;
use crate::compress::rr_next;
use crate::compress::uncompressed;
use crate::compress::uncompressed_question;
use crate::compress::uncompressed_questions;
use crate::compress::uncompressed_rdata;
use crate::compress::uncompressed_records;
use crate::compress::uncompressed_rr;
use crate::compress::walk_name;
use crate::compress::NameWalk;
use crate::constants::Section;
use crate::constants::Type;
use crate::constants::DNS_EDNS_RR_HEADER_SIZE;
use crate::constants::DNS_HEADER_SIZE;
use crate::constants::DNS_MAX_HOSTNAME_INDIRECTIONS;
use crate::constants::DNS_MAX_HOSTNAME_LEN;
use crate::constants::DNS_RR_HEADER_SIZE;
use crate::constants::DNS_RR_QUESTION_HEADER_SIZE;
use crate::dns_sector::additional_scan;
use crate::dns_sector::an_count;
use crate::dns_sector::answers_scan;
use crate::dns_sector::ar_count;
use crate::dns_sector::body_scan;
use crate::dns_sector::lemma_layout;
use crate::dns_sector::lemma_question_shape;
use crate::dns_sector::lemma_rr_scan_seen;
use crate::dns_sector::lemma_rr_shape;
use crate::dns_sector::lemma_strict_scan;
use crate::dns_sector::message_scan;
use crate::dns_sector::nameservers_scan;
use crate::dns_sector::ns_count;
use crate::dns_sector::options_scan;
use crate::dns_sector::qd_count;
use crate::dns_sector::question_scan;
use crate::dns_sector::questions_end;
use crate::dns_sector::rdata_scan;
use crate::dns_sector::response_bit;
use crate::dns_sector::rr_scan;
use crate::dns_sector::section_scan;
use crate::dns_sector::Scan;
use crate::dns_sector::section_count;
use crate::dns_sector::section_end;
use crate::errors::DSError;
use crate::constants::DNS_MAX_UNCOMPRESSED_SIZE;
use crate::parsed_packet::count_offset;
use crate::parsed_packet::insert_spec;
use crate::parsed_packet::spliced;
use crate::rr_iterator::is_response_section;
use crate::rr_iterator::record_end_spec;
use crate::rr_iterator::removed_bytes;
use crate::rr_iterator::shrunk;
use crate::wire::be16;
use crate::wire::put_be16;
use vstd::prelude::*;

verus! {

/// A name that was read from one buffer is read the same from any buffer
/// in which it stands without compression.
pub proof fn lemma_plain_name_at(b: Seq<u8>, o: int, u: Seq<u8>, o2: int)
    requires
        0 <= o,
        0 <= o2,
        walk_name(b, o) is Ok,
        o2 + name_at(b, o).name.len() <= u.len(),
        u.subrange(o2, o2 + name_at(b, o).name.len()) == name_at(b, o).name,
    ensures
        walk_name(u, o2) == Ok::<NameWalk, DSError>(
            NameWalk { end: o2 + name_at(b, o).name.len(), name: name_at(b, o).name },
        ),
        check_plain(u, o2) == Ok::<int, DSError>(o2 + name_at(b, o).name.len()),
        1 <= name_at(b, o).name.len() <= DNS_MAX_HOSTNAME_LEN,
{
    let n = name_at(b, o).name;
    lemma_name_stands_alone(b, o);
    assert(n.subrange(0, n.len() as int) =~= n);
    lemma_walk_plain_shift(n, 0, u, o2, 0);
    lemma_plain_walk(u, o2, o2, DNS_MAX_HOSTNAME_INDIRECTIONS as int, 0);
}

/// Two bytes that were written as one number are read as that number.
pub proof fn lemma_be16_put(x: Seq<u8>, i: int, v: int)
    requires
        0 <= i,
        i + 1 < x.len(),
        0 <= v < 0x10000,
    ensures
        be16(put_be16(x, i, v), i) == v,
        put_be16(x, i, v).len() == x.len(),
        forall|k: int| 0 <= k < x.len() && k != i && k != i + 1 ==> put_be16(x, i, v)[k] == x[k],
{
}

/// The bytes of a buffer that stand where a part of it was copied from.
pub proof fn lemma_part(u: Seq<u8>, from: int, part: Seq<u8>, k: int)
    requires
        0 <= from,
        from + part.len() <= u.len(),
        u.subrange(from, from + part.len()) == part,
        0 <= k < part.len(),
    ensures
        u[from + k] == part[k],
{
    assert(u.subrange(from, from + part.len())[k] == u[from + k]);
}

/// A part of a part of a buffer is a part of the buffer.
pub proof fn lemma_part_of_part(u: Seq<u8>, from: int, part: Seq<u8>, i: int, j: int)
    requires
        0 <= from,
        from + part.len() <= u.len(),
        u.subrange(from, from + part.len()) == part,
        0 <= i <= j <= part.len(),
    ensures
        u.subrange(from + i, from + j) == part.subrange(i, j),
{
    assert(u.subrange(from + i, from + j) =~= part.subrange(i, j)) by {
        assert forall|k: int| 0 <= k < j - i implies u.subrange(from + i, from + j)[k]
            == part.subrange(i, j)[k] by {
            lemma_part(u, from, part, i + k);
        }
    }
}


/// The scan of options finds the same wherever the options stand.
pub proof fn lemma_options_move(b: Seq<u8>, start: int, end: int, u: Seq<u8>, start2: int, count: int)
    requires
        0 <= start <= end <= b.len(),
        0 <= start2,
        start2 + (end - start) <= u.len(),
        u.subrange(start2, start2 + (end - start)) == b.subrange(start, end),
    ensures
        options_scan(u, start2, start2 + (end - start), count) == options_scan(
            b,
            start,
            end,
            count,
        ),
    decreases end - start,
{
    let part = b.subrange(start, end);
    if end - start >= DNS_EDNS_RR_HEADER_SIZE {
        lemma_part(u, start2, part, 2);
        lemma_part(u, start2, part, 3);
        assert(part[2] == b[start + 2] && part[3] == b[start + 3]);
        let step = DNS_EDNS_RR_HEADER_SIZE + be16(b, start + 2);
        if end - start >= step {
            lemma_part_of_part(u, start2, part, step, end - start);
            assert(part.subrange(step, end - start) =~= b.subrange(start + step, end));
            lemma_options_move(b, start + step, end, u, start2 + step, count + 1);
        }
    }
}

/// A name that takes one byte is the root.
pub proof fn lemma_root_name(b: Seq<u8>, o: int)
    requires
        0 <= o,
        walk_name(b, o) is Ok,
        name_at(b, o).end - o == 1,
    ensures
        name_at(b, o).name == seq![0u8],
{
    let len = b[o];
    if !crate::compress::is_pointer(len) && len != 0 {
        crate::compress::lemma_walk_from_ok(
            b,
            o + len + 1,
            b.len() as int,
            o,
            DNS_MAX_HOSTNAME_INDIRECTIONS as int,
            len + 1,
        );
    }
}

/// What the fixed header of a record holds once the length of the data
/// has been written to it.
pub proof fn lemma_header(b: Seq<u8>, p: int, v: int)
    requires
        0 <= p,
        p + DNS_RR_HEADER_SIZE <= b.len(),
        0 <= v < 0x10000,
    ensures
        header_with_rdlen(b, p, v).len() == DNS_RR_HEADER_SIZE,
        be16(header_with_rdlen(b, p, v), 8) == v,
        forall|k: int| 0 <= k < 8 ==> header_with_rdlen(b, p, v)[k] == b[p + k],
        put_be16(header_with_rdlen(b, p, v), 8, v) == header_with_rdlen(b, p, v),
{
    let h = b.subrange(p, p + DNS_RR_HEADER_SIZE);
    lemma_be16_put(h, 8, v);
    assert(put_be16(header_with_rdlen(b, p, v), 8, v) =~= header_with_rdlen(b, p, v));
}

/// The data of a record that holds no name that is looked at stands in the
/// uncompressed message as it stood, and is accepted there as it was.
pub proof fn lemma_plain_rdata_raw(
    b: Seq<u8>,
    o: int,
    p: int,
    section: Section,
    seen: bool,
    u: Seq<u8>,
    o2: int,
    q: int,
)
    requires
        0 <= o < p,
        0 <= o2 < q,
        p + DNS_RR_HEADER_SIZE <= b.len(),
        be16(b, p) == Type::OPT.code() ==> q - o2 == 1,
        rdata_scan(b, o, p, section, seen) is Ok,
        be16(b, p) != Type::NS.code(),
        be16(b, p) != Type::CNAME.code(),
        be16(b, p) != Type::PTR.code(),
        be16(b, p) != Type::MX.code(),
        be16(b, p) != Type::SOA.code(),
        q + uncompressed_rdata(b, p).len() <= u.len(),
        u.subrange(q, q + uncompressed_rdata(b, p).len()) == uncompressed_rdata(b, p),
    ensures
        rdata_scan(u, o2, q, section, seen) is Ok,
        rdata_scan(u, o2, q, section, seen)->Ok_0.next == q + uncompressed_rdata(b, p).len(),
        rdata_scan(u, o2, q, section, seen)->Ok_0.opt is Some == rdata_scan(
            b,
            o,
            p,
            section,
            seen,
        )->Ok_0.opt is Some,
        uncompressed_rdata(u, q) == uncompressed_rdata(b, p),
        uncompressed_rdata(b, p).len() == DNS_RR_HEADER_SIZE + be16(u, q + 8),
{
    reveal(rdata_scan);
    let rdlen = be16(b, p + 8);
    let d = p + DNS_RR_HEADER_SIZE;
    let xr = uncompressed_rdata(b, p);
    assert(xr == b.subrange(p, d + rdlen));
    if be16(b, p) == Type::DNAME.code() {
        lemma_walk_plain_end(b, d, 0);
    }
    assert(d + rdlen <= b.len());
    lemma_part(u, q, xr, 0);
    lemma_part(u, q, xr, 1);
    lemma_part(u, q, xr, 2);
    lemma_part(u, q, xr, 3);
    lemma_part(u, q, xr, 4);
    lemma_part(u, q, xr, 5);
    lemma_part(u, q, xr, 6);
    lemma_part(u, q, xr, 7);
    lemma_part(u, q, xr, 8);
    lemma_part(u, q, xr, 9);
    assert(u[q + 0] == b[p + 0] && u[q + 1] == b[p + 1] && u[q + 8] == b[p + 8] && u[q + 9]
        == b[p + 9]);
    assert(u[q + 2] == b[p + 2] && u[q + 3] == b[p + 3] && u[q + 4] == b[p + 4] && u[q + 5]
        == b[p + 5] && u[q + 6] == b[p + 6] && u[q + 7] == b[p + 7]);
    let d2 = q + DNS_RR_HEADER_SIZE;
    lemma_part_of_part(u, q, xr, DNS_RR_HEADER_SIZE as int, xr.len() as int);
    assert(xr.subrange(DNS_RR_HEADER_SIZE as int, xr.len() as int) =~= b.subrange(d, d + rdlen));
    if be16(b, p) == Type::OPT.code() {
        lemma_options_move(b, d, d + rdlen, u, d2, 0);
    } else if be16(b, p) == Type::DNAME.code() {
        lemma_walk_plain_shift(b, d, u, d2, 0);
    }
    assert(uncompressed_rdata(u, q) =~= xr);
}


/// The fixed header of the record at `q` in `u` is the header `h`, which
/// was copied there.
pub proof fn lemma_header_copied(b: Seq<u8>, p: int, v: int, u: Seq<u8>, q: int, xr: Seq<u8>)
    requires
        0 <= p,
        0 <= q,
        p + DNS_RR_HEADER_SIZE <= b.len(),
        0 <= v < 0x10000,
        xr.len() >= DNS_RR_HEADER_SIZE,
        xr.subrange(0, DNS_RR_HEADER_SIZE as int) == header_with_rdlen(b, p, v),
        q + xr.len() <= u.len(),
        u.subrange(q, q + xr.len()) == xr,
    ensures
        be16(u, q) == be16(b, p),
        be16(u, q + 8) == v,
        header_with_rdlen(u, q, v) == header_with_rdlen(b, p, v),
{
    let h = header_with_rdlen(b, p, v);
    lemma_header(b, p, v);
    lemma_part_of_part(u, q, xr, 0, DNS_RR_HEADER_SIZE as int);
    let hu = u.subrange(q, q + DNS_RR_HEADER_SIZE);
    assert(hu == h);
    assert(hu[0] == u[q + 0] && hu[1] == u[q + 1] && hu[8] == u[q + 8] && hu[9] == u[q + 9]);
    assert(h[0] == b[p + 0] && h[1] == b[p + 1]);
    assert(header_with_rdlen(u, q, v) == put_be16(hu, 8, v));
}

/// The data of an NS, CNAME or PTR record stands in the uncompressed
/// message with its name written out, and is accepted there.
pub proof fn lemma_plain_rdata_name(
    b: Seq<u8>,
    o: int,
    p: int,
    section: Section,
    seen: bool,
    u: Seq<u8>,
    o2: int,
    q: int,
)
    requires
        0 <= o < p,
        0 <= o2 < q,
        p + DNS_RR_HEADER_SIZE <= b.len(),
        rdata_scan(b, o, p, section, seen) is Ok,
        be16(b, p) == Type::NS.code() || be16(b, p) == Type::CNAME.code() || be16(b, p)
            == Type::PTR.code(),
        q + uncompressed_rdata(b, p).len() <= u.len(),
        u.subrange(q, q + uncompressed_rdata(b, p).len()) == uncompressed_rdata(b, p),
    ensures
        rdata_scan(u, o2, q, section, seen) is Ok,
        rdata_scan(u, o2, q, section, seen)->Ok_0.next == q + uncompressed_rdata(b, p).len(),
        rdata_scan(u, o2, q, section, seen)->Ok_0.opt is None,
        rdata_scan(b, o, p, section, seen)->Ok_0.opt is None,
        uncompressed_rdata(u, q) == uncompressed_rdata(b, p),
        uncompressed_rdata(b, p).len() == DNS_RR_HEADER_SIZE + be16(u, q + 8),
{
    reveal(rdata_scan);
    let d = p + DNS_RR_HEADER_SIZE;
    let d2 = q + DNS_RR_HEADER_SIZE;
    let xr = uncompressed_rdata(b, p);
    let n = name_at(b, d).name;
    lemma_name_stands_alone(b, d);
    let h = header_with_rdlen(b, p, n.len() as int);
    lemma_header(b, p, n.len() as int);
    assert(xr == h + n);
    assert(xr.subrange(0, DNS_RR_HEADER_SIZE as int) =~= h);
    assert(xr.subrange(DNS_RR_HEADER_SIZE as int, xr.len() as int) =~= n);
    lemma_header_copied(b, p, n.len() as int, u, q, xr);
    lemma_part_of_part(u, q, xr, DNS_RR_HEADER_SIZE as int, xr.len() as int);
    lemma_plain_name_at(b, d, u, d2);
}

/// The data of an MX record stands in the uncompressed message with its
/// name written out, and is accepted there.
pub proof fn lemma_plain_rdata_mx(
    b: Seq<u8>,
    o: int,
    p: int,
    section: Section,
    seen: bool,
    u: Seq<u8>,
    o2: int,
    q: int,
)
    requires
        0 <= o < p,
        0 <= o2 < q,
        p + DNS_RR_HEADER_SIZE <= b.len(),
        rdata_scan(b, o, p, section, seen) is Ok,
        be16(b, p) == Type::MX.code(),
        q + uncompressed_rdata(b, p).len() <= u.len(),
        u.subrange(q, q + uncompressed_rdata(b, p).len()) == uncompressed_rdata(b, p),
    ensures
        rdata_scan(u, o2, q, section, seen) is Ok,
        rdata_scan(u, o2, q, section, seen)->Ok_0.next == q + uncompressed_rdata(b, p).len(),
        rdata_scan(u, o2, q, section, seen)->Ok_0.opt is None,
        rdata_scan(b, o, p, section, seen)->Ok_0.opt is None,
        uncompressed_rdata(u, q) == uncompressed_rdata(b, p),
        uncompressed_rdata(b, p).len() == DNS_RR_HEADER_SIZE + be16(u, q + 8),
{
    reveal(rdata_scan);
    let d = p + DNS_RR_HEADER_SIZE;
    let d2 = q + DNS_RR_HEADER_SIZE;
    let xr = uncompressed_rdata(b, p);
    let n = name_at(b, d + 2).name;
    lemma_name_stands_alone(b, d + 2);
    crate::compress::lemma_walk_from_ok(
        b,
        d + 2,
        b.len() as int,
        d + 2,
        DNS_MAX_HOSTNAME_INDIRECTIONS as int,
        0,
    );
    let v = (2 + n.len()) as int;
    let h = header_with_rdlen(b, p, v);
    lemma_header(b, p, v);
    let pref = b.subrange(d, d + 2);
    assert(xr == h + pref + n);
    assert(xr.subrange(0, DNS_RR_HEADER_SIZE as int) =~= h);
    assert(xr.subrange(DNS_RR_HEADER_SIZE as int, DNS_RR_HEADER_SIZE + 2) =~= pref);
    assert(xr.subrange(DNS_RR_HEADER_SIZE + 2, xr.len() as int) =~= n);
    lemma_header_copied(b, p, v, u, q, xr);
    lemma_part_of_part(u, q, xr, DNS_RR_HEADER_SIZE as int, DNS_RR_HEADER_SIZE + 2);
    lemma_part_of_part(u, q, xr, DNS_RR_HEADER_SIZE + 2, xr.len() as int);
    lemma_plain_name_at(b, d + 2, u, d2 + 2);
    assert(uncompressed_rdata(u, q) == header_with_rdlen(u, q, v) + u.subrange(d2, d2 + 2) + n);
}

/// The data of an SOA record stands in the uncompressed message with its
/// names written out, and is accepted there.
pub proof fn lemma_plain_rdata_soa(
    b: Seq<u8>,
    o: int,
    p: int,
    section: Section,
    seen: bool,
    u: Seq<u8>,
    o2: int,
    q: int,
)
    requires
        0 <= o < p,
        0 <= o2 < q,
        p + DNS_RR_HEADER_SIZE <= b.len(),
        rdata_scan(b, o, p, section, seen) is Ok,
        be16(b, p) == Type::SOA.code(),
        q + uncompressed_rdata(b, p).len() <= u.len(),
        u.subrange(q, q + uncompressed_rdata(b, p).len()) == uncompressed_rdata(b, p),
    ensures
        rdata_scan(u, o2, q, section, seen) is Ok,
        rdata_scan(u, o2, q, section, seen)->Ok_0.next == q + uncompressed_rdata(b, p).len(),
        rdata_scan(u, o2, q, section, seen)->Ok_0.opt is None,
        rdata_scan(b, o, p, section, seen)->Ok_0.opt is None,
        uncompressed_rdata(u, q) == uncompressed_rdata(b, p),
        uncompressed_rdata(b, p).len() == DNS_RR_HEADER_SIZE + be16(u, q + 8),
{
    reveal(rdata_scan);
    let d = p + DNS_RR_HEADER_SIZE;
    let d2 = q + DNS_RR_HEADER_SIZE;
    let xr = uncompressed_rdata(b, p);
    let w1 = name_at(b, d);
    let w2 = name_at(b, w1.end);
    let n1 = w1.name;
    let n2 = w2.name;
    crate::compress::lemma_walk_from_ok(
        b,
        d,
        b.len() as int,
        d,
        DNS_MAX_HOSTNAME_INDIRECTIONS as int,
        0,
    );
    crate::compress::lemma_walk_from_ok(
        b,
        w1.end,
        b.len() as int,
        w1.end,
        DNS_MAX_HOSTNAME_INDIRECTIONS as int,
        0,
    );
    lemma_name_stands_alone(b, d);
    lemma_name_stands_alone(b, w1.end);
    let v = (n1.len() + n2.len() + 20) as int;
    let h = header_with_rdlen(b, p, v);
    lemma_header(b, p, v);
    let numbers = b.subrange(w2.end, w2.end + 20);
    assert(xr == h + n1 + n2 + numbers);
    let a1 = DNS_RR_HEADER_SIZE as int;
    let a2 = a1 + n1.len();
    let a3 = a2 + n2.len();
    assert(xr.len() == a3 + 20);
    assert(xr.subrange(0, a1) =~= h);
    assert(xr.subrange(a1, a2) =~= n1);
    assert(xr.subrange(a2, a3) =~= n2);
    assert(xr.subrange(a3, a3 + 20) =~= numbers);
    lemma_header_copied(b, p, v, u, q, xr);
    lemma_part_of_part(u, q, xr, a1, a2);
    lemma_part_of_part(u, q, xr, a2, a3);
    lemma_part_of_part(u, q, xr, a3, a3 + 20);
    lemma_plain_name_at(b, d, u, d2);
    lemma_plain_name_at(b, w1.end, u, d2 + n1.len());
    assert(name_at(u, d2).end == d2 + n1.len());
    assert(name_at(u, name_at(u, d2).end).end == q + a3);
    assert(uncompressed_rdata(u, q) == header_with_rdlen(u, q, v) + n1 + n2 + u.subrange(
        q + a3,
        q + a3 + 20,
    ));
}

/// The data of a record that is accepted stands in the uncompressed
/// message in its uncompressed form, and is accepted there.
pub proof fn lemma_plain_rdata(
    b: Seq<u8>,
    o: int,
    p: int,
    section: Section,
    seen: bool,
    u: Seq<u8>,
    o2: int,
    q: int,
)
    requires
        0 <= o < p,
        0 <= o2 < q,
        p + DNS_RR_HEADER_SIZE <= b.len(),
        be16(b, p) == Type::OPT.code() ==> q - o2 == 1,
        rdata_scan(b, o, p, section, seen) is Ok,
        q + uncompressed_rdata(b, p).len() <= u.len(),
        u.subrange(q, q + uncompressed_rdata(b, p).len()) == uncompressed_rdata(b, p),
    ensures
        rdata_scan(u, o2, q, section, seen) is Ok,
        rdata_scan(u, o2, q, section, seen)->Ok_0.next == q + uncompressed_rdata(b, p).len(),
        rdata_scan(u, o2, q, section, seen)->Ok_0.opt is Some == rdata_scan(
            b,
            o,
            p,
            section,
            seen,
        )->Ok_0.opt is Some,
        uncompressed_rdata(u, q) == uncompressed_rdata(b, p),
        uncompressed_rdata(b, p).len() == DNS_RR_HEADER_SIZE + be16(u, q + 8),
{
    let t = be16(b, p);
    if t == Type::NS.code() || t == Type::CNAME.code() || t == Type::PTR.code() {
        lemma_plain_rdata_name(b, o, p, section, seen, u, o2, q);
    } else if t == Type::MX.code() {
        lemma_plain_rdata_mx(b, o, p, section, seen, u, o2, q);
    } else if t == Type::SOA.code() {
        lemma_plain_rdata_soa(b, o, p, section, seen, u, o2, q);
    } else {
        lemma_plain_rdata_raw(b, o, p, section, seen, u, o2, q);
    }
}


/// A record that is accepted stands in the uncompressed message in its
/// uncompressed form, and is accepted there; written without compression
/// once more, it stays as it is.
pub proof fn lemma_plain_rr(b: Seq<u8>, o: int, section: Section, seen: bool, u: Seq<u8>, o2: int)
    requires
        0 <= o,
        0 <= o2,
        rr_scan(b, o, section, seen) is Ok,
        o2 + uncompressed_rr(b, o).len() <= u.len(),
        u.subrange(o2, o2 + uncompressed_rr(b, o).len()) == uncompressed_rr(b, o),
    ensures
        rr_scan(u, o2, section, seen) is Ok,
        rr_scan(u, o2, section, seen)->Ok_0.next == o2 + uncompressed_rr(b, o).len(),
        rr_scan(u, o2, section, seen)->Ok_0.opt is Some == rr_scan(b, o, section, seen)->Ok_0.opt
            is Some,
        uncompressed_rr(u, o2) == uncompressed_rr(b, o),
        rr_next(u, o2) == o2 + uncompressed_rr(b, o).len(),
        rr_next(b, o) == rr_scan(b, o, section, seen)->Ok_0.next,
        o < rr_next(b, o),
        uncompressed_rr(b, o).len() > 0,
{
    lemma_rr_scan_seen(b, o, section);
    lemma_rr_shape(b, o, section);
    let w = name_at(b, o);
    let n = w.name;
    let p = w.end;
    let xr = uncompressed_rdata(b, p);
    let x = uncompressed_rr(b, o);
    assert(x == n + xr);
    lemma_name_stands_alone(b, o);
    assert(x.subrange(0, n.len() as int) =~= n);
    assert(x.subrange(n.len() as int, x.len() as int) =~= xr);
    lemma_part_of_part(u, o2, x, 0, n.len() as int);
    lemma_part_of_part(u, o2, x, n.len() as int, x.len() as int);
    lemma_plain_name_at(b, o, u, o2);
    let q = o2 + n.len();
    assert(rdata_scan(b, o, p, section, seen) is Ok);
    if be16(b, p) == Type::OPT.code() {
        assert(p - o == 1) by {
            reveal(rdata_scan);
        }
        lemma_root_name(b, o);
    }
    lemma_plain_rdata(b, o, p, section, seen, u, o2, q);
}

/// The records of a section that are accepted stand in the uncompressed
/// message in their uncompressed form, and are accepted there; written
/// without compression once more, they stay as they are.
pub proof fn lemma_plain_section(
    b: Seq<u8>,
    st: Scan,
    count: int,
    section: Section,
    u: Seq<u8>,
    st2: Scan,
)
    requires
        0 <= st.offset,
        0 <= st2.offset,
        section_scan(b, st, count, section) is Ok,
        st.edns is Some == st2.edns is Some,
        st2.offset + uncompressed_records(b, st.offset, count).len() <= u.len(),
        u.subrange(st2.offset, st2.offset + uncompressed_records(b, st.offset, count).len())
            == uncompressed_records(b, st.offset, count),
    ensures
        section_scan(u, st2, count, section) is Ok,
        section_scan(u, st2, count, section)->Ok_0.offset == st2.offset + uncompressed_records(
            b,
            st.offset,
            count,
        ).len(),
        section_scan(u, st2, count, section)->Ok_0.edns is Some == section_scan(
            b,
            st,
            count,
            section,
        )->Ok_0.edns is Some,
        uncompressed_records(u, st2.offset, count) == uncompressed_records(b, st.offset, count),
    decreases count,
{
    if count > 0 {
        let o = st.offset;
        let o2 = st2.offset;
        let seen = st.edns is Some;
        let x = uncompressed_records(b, o, count);
        let x1 = uncompressed_rr(b, o);
        let rest = uncompressed_records(b, rr_next(b, o), count - 1);
        assert(x == x1 + rest);
        assert(x.subrange(0, x1.len() as int) =~= x1);
        assert(x.subrange(x1.len() as int, x.len() as int) =~= rest);
        lemma_part_of_part(u, o2, x, 0, x1.len() as int);
        lemma_part_of_part(u, o2, x, x1.len() as int, x.len() as int);
        lemma_plain_rr(b, o, section, seen, u, o2);
        let r = rr_scan(b, o, section, seen)->Ok_0;
        let r2 = rr_scan(u, o2, section, seen)->Ok_0;
        let next = Scan {
            offset: r.next,
            edns: if r.opt is Some {
                r.opt
            } else {
                st.edns
            },
        };
        let next2 = Scan {
            offset: r2.next,
            edns: if r2.opt is Some {
                r2.opt
            } else {
                st2.edns
            },
        };
        lemma_plain_section(b, next, count - 1, section, u, next2);
        assert(uncompressed_records(u, o2, count) == uncompressed_rr(u, o2)
            + uncompressed_records(u, rr_next(u, o2), count - 1));
    } else {
        assert(uncompressed_records(b, st.offset, count).len() == 0);
    }
}


/// Where the answers start in the uncompressed form of `b`.
pub open spec fn plain_answers(b: Seq<u8>) -> int {
    DNS_HEADER_SIZE + uncompressed_questions(b).len()
}

/// Where the name servers start in the uncompressed form of `b`.
pub open spec fn plain_nameservers(b: Seq<u8>) -> int {
    plain_answers(b) + uncompressed_records(b, questions_end(b), an_count(b)).len()
}

/// Where the additional records start in the uncompressed form of `b`.
pub open spec fn plain_additional(b: Seq<u8>) -> int {
    plain_nameservers(b) + uncompressed_records(b, answers_scan(b).offset, ns_count(b)).len()
}

/// The parts that the uncompressed form of a message is made of, and the
/// header that it shares with the message.
pub proof fn lemma_uncompressed_parts(b: Seq<u8>)
    requires
        b.len() >= DNS_HEADER_SIZE,
    ensures
        uncompressed(b).len() == plain_additional(b) + uncompressed_records(
            b,
            nameservers_scan(b).offset,
            ar_count(b),
        ).len(),
        uncompressed(b).subrange(0, DNS_HEADER_SIZE as int) == b.subrange(
            0,
            DNS_HEADER_SIZE as int,
        ),
        uncompressed(b).subrange(DNS_HEADER_SIZE as int, plain_answers(b))
            == uncompressed_questions(b),
        uncompressed(b).subrange(plain_answers(b), plain_nameservers(b)) == uncompressed_records(
            b,
            questions_end(b),
            an_count(b),
        ),
        uncompressed(b).subrange(plain_nameservers(b), plain_additional(b))
            == uncompressed_records(b, answers_scan(b).offset, ns_count(b)),
        uncompressed(b).subrange(plain_additional(b), uncompressed(b).len() as int)
            == uncompressed_records(b, nameservers_scan(b).offset, ar_count(b)),
        qd_count(uncompressed(b)) == qd_count(b),
        an_count(uncompressed(b)) == an_count(b),
        ns_count(uncompressed(b)) == ns_count(b),
        ar_count(uncompressed(b)) == ar_count(b),
        response_bit(uncompressed(b)) == response_bit(b),
{
    let u = uncompressed(b);
    let h = b.subrange(0, DNS_HEADER_SIZE as int);
    let q = uncompressed_questions(b);
    let a = uncompressed_records(b, questions_end(b), an_count(b));
    let n = uncompressed_records(b, answers_scan(b).offset, ns_count(b));
    let r = uncompressed_records(b, nameservers_scan(b).offset, ar_count(b));
    assert(u == h + q + a + n + r);
    let o_q = DNS_HEADER_SIZE as int;
    let o_a = o_q + q.len();
    let o_n = o_a + a.len();
    let o_r = o_n + n.len();
    assert(u.subrange(0, o_q) =~= h);
    assert(u.subrange(o_q, o_a) =~= q);
    assert(u.subrange(o_a, o_n) =~= a);
    assert(u.subrange(o_n, o_r) =~= n);
    assert(u.subrange(o_r, o_r + r.len()) =~= r);
    assert forall|k: int| 0 <= k < 12 implies #[trigger] u[k] == b[k] by {
        assert(u.subrange(0, o_q)[k] == u[k]);
        assert(h[k] == b[k]);
    }
}

/// The question of a message that is accepted stands in the uncompressed
/// message with its name written out, and is accepted there.
pub proof fn lemma_plain_question(b: Seq<u8>, u: Seq<u8>, strict: bool)
    requires
        b.len() >= DNS_HEADER_SIZE,
        qd_count(b) > 0,
        question_scan(b, DNS_HEADER_SIZE as int, strict) is Ok,
        DNS_HEADER_SIZE + uncompressed_questions(b).len() <= u.len(),
        u.subrange(DNS_HEADER_SIZE as int, DNS_HEADER_SIZE + uncompressed_questions(b).len())
            == uncompressed_questions(b),
    ensures
        question_scan(u, DNS_HEADER_SIZE as int, strict) == Ok::<int, DSError>(
            DNS_HEADER_SIZE + uncompressed_questions(b).len(),
        ),
        question_scan(u, DNS_HEADER_SIZE as int, false) == Ok::<int, DSError>(
            DNS_HEADER_SIZE + uncompressed_questions(b).len(),
        ),
        uncompressed_question(u, DNS_HEADER_SIZE as int) == uncompressed_questions(b),
        question_scan(b, DNS_HEADER_SIZE as int, false) == question_scan(
            b,
            DNS_HEADER_SIZE as int,
            strict,
        ),
{
    let o_q = DNS_HEADER_SIZE as int;
    let q = uncompressed_questions(b);
    lemma_question_shape(b, o_q, strict);
    let w = name_at(b, o_q);
    let tail = b.subrange(w.end, w.end + DNS_RR_QUESTION_HEADER_SIZE);
    assert(q == w.name + tail);
    lemma_name_stands_alone(b, o_q);
    assert(q.subrange(0, w.name.len() as int) =~= w.name);
    assert(q.subrange(w.name.len() as int, q.len() as int) =~= tail);
    lemma_part_of_part(u, o_q, q, 0, w.name.len() as int);
    lemma_part_of_part(u, o_q, q, w.name.len() as int, q.len() as int);
    lemma_plain_name_at(b, o_q, u, o_q);
    let tail_at = o_q + w.name.len();
    lemma_part(u, o_q, q, (w.name.len() + 2) as int);
    lemma_part(u, o_q, q, (w.name.len() + 3) as int);
    assert(tail[2] == b[w.end + 2] && tail[3] == b[w.end + 3]);
    assert(be16(u, tail_at + 2) == be16(b, w.end + 2));
}

/// A message that is accepted is accepted without compression too, and
/// written without compression once more it stays as it is. This holds of
/// the messages that a peer may send (`strict`) and of those under
/// construction alike.
pub proof fn lemma_uncompressed_scan(b: Seq<u8>, strict: bool)
    requires
        message_scan(b, strict) is Ok,
    ensures
        message_scan(uncompressed(b), strict) is Ok,
        uncompressed(uncompressed(b)) == uncompressed(b),
        uncompressed(b).len() >= DNS_HEADER_SIZE,
        uncompressed(b).subrange(0, DNS_HEADER_SIZE as int) == b.subrange(
            0,
            DNS_HEADER_SIZE as int,
        ),
        questions_end(uncompressed(b)) == plain_answers(b),
        answers_scan(uncompressed(b)).offset == plain_nameservers(b),
        nameservers_scan(uncompressed(b)).offset == plain_additional(b),
        answers_scan(uncompressed(b)).edns is Some == answers_scan(b).edns is Some,
        nameservers_scan(uncompressed(b)).edns is Some == nameservers_scan(b).edns is Some,
{
    if strict {
        lemma_strict_scan(b);
    }
    lemma_layout(b);
    lemma_uncompressed_parts(b);
    let u = uncompressed(b);
    let o_q = DNS_HEADER_SIZE as int;
    let o_a = plain_answers(b);
    if qd_count(b) > 0 {
        lemma_plain_question(b, u, strict);
    }
    assert(questions_end(u) == o_a);
    let st_q = Scan { offset: questions_end(b), edns: None };
    let st_q2 = Scan { offset: o_a, edns: None };
    lemma_plain_section(b, st_q, an_count(b), Section::Answer, u, st_q2);
    let st_a = answers_scan(b);
    let st_a2 = section_scan(u, st_q2, an_count(b), Section::Answer)->Ok_0;
    assert(st_a2 == answers_scan(u));
    lemma_plain_section(b, st_a, ns_count(b), Section::NameServers, u, st_a2);
    let st_n = nameservers_scan(b);
    let st_n2 = section_scan(u, st_a2, ns_count(b), Section::NameServers)->Ok_0;
    assert(st_n2 == nameservers_scan(u));
    lemma_plain_section(b, st_n, ar_count(b), Section::Additional, u, st_n2);
    assert(body_scan(u, strict) is Ok);
    lemma_uncompressed_parts(u);
    assert(uncompressed(u) =~= u) by {
        let h2 = u.subrange(0, DNS_HEADER_SIZE as int);
        let q2 = uncompressed_questions(u);
        let a2 = uncompressed_records(u, questions_end(u), an_count(u));
        let n2 = uncompressed_records(u, answers_scan(u).offset, ns_count(u));
        let r2 = uncompressed_records(u, nameservers_scan(u).offset, ar_count(u));
        assert(uncompressed(u) == h2 + q2 + a2 + n2 + r2);
        assert(q2 == uncompressed_questions(b));
    }
}

/// Writing a message without compression twice gives what writing it
/// without compression once gives, byte for byte.
pub proof fn law_uncompress_is_idempotent(b: Seq<u8>)
    requires
        message_scan(b, true) is Ok,
    ensures
        message_scan(uncompressed(b), true) is Ok,
        uncompressed(uncompressed(b)) == uncompressed(b),
{
    lemma_uncompressed_scan(b, true);
}


/// Whether the well-formed message `b` is in uncompressed form: written
/// without compression, it stays as it is.
#[verifier::opaque]
pub open spec fn is_plain(b: Seq<u8>) -> bool {
    uncompressed(b) == b
}

/// In a message in uncompressed form each section is the uncompressed form
/// of its records.
pub proof fn lemma_plain_sections(b: Seq<u8>)
    requires
        message_scan(b, false) is Ok,
        is_plain(b),
    ensures
        b.subrange(DNS_HEADER_SIZE as int, questions_end(b)) == uncompressed_questions(b),
        b.subrange(questions_end(b), answers_scan(b).offset) == uncompressed_records(
            b,
            questions_end(b),
            an_count(b),
        ),
        b.subrange(answers_scan(b).offset, nameservers_scan(b).offset) == uncompressed_records(
            b,
            answers_scan(b).offset,
            ns_count(b),
        ),
        b.subrange(nameservers_scan(b).offset, b.len() as int) == uncompressed_records(
            b,
            nameservers_scan(b).offset,
            ar_count(b),
        ),
        DNS_HEADER_SIZE <= questions_end(b) <= answers_scan(b).offset <= nameservers_scan(b).offset <= b.len(),
{
    reveal(is_plain);
    lemma_layout(b);
    lemma_uncompressed_scan(b, false);
    lemma_uncompressed_parts(b);
}

/// A scan of records goes on behind the records that it has accepted: if
/// `count` records are accepted and the record behind them is, `count + 1`
/// records are.
pub proof fn lemma_section_scan_append(u: Seq<u8>, st: Scan, count: int, section: Section)
    requires
        0 <= count,
        section_scan(u, st, count, section) is Ok,
        rr_scan(
            u,
            section_scan(u, st, count, section)->Ok_0.offset,
            section,
            section_scan(u, st, count, section)->Ok_0.edns is Some,
        ) is Ok,
    ensures
        section_scan(u, st, count + 1, section) == Ok::<Scan, DSError>(
            Scan {
                offset: rr_scan(
                    u,
                    section_scan(u, st, count, section)->Ok_0.offset,
                    section,
                    section_scan(u, st, count, section)->Ok_0.edns is Some,
                )->Ok_0.next,
                edns: if rr_scan(
                    u,
                    section_scan(u, st, count, section)->Ok_0.offset,
                    section,
                    section_scan(u, st, count, section)->Ok_0.edns is Some,
                )->Ok_0.opt is Some {
                    rr_scan(
                        u,
                        section_scan(u, st, count, section)->Ok_0.offset,
                        section,
                        section_scan(u, st, count, section)->Ok_0.edns is Some,
                    )->Ok_0.opt
                } else {
                    section_scan(u, st, count, section)->Ok_0.edns
                },
            },
        ),
    decreases count,
{
    if count > 0 {
        let r = rr_scan(u, st.offset, section, st.edns is Some)->Ok_0;
        let next = Scan {
            offset: r.next,
            edns: if r.opt is Some {
                r.opt
            } else {
                st.edns
            },
        };
        lemma_section_scan_append(u, next, count - 1, section);
    } else {
        let r = rr_scan(u, st.offset, section, st.edns is Some)->Ok_0;
        let next = Scan {
            offset: r.next,
            edns: if r.opt is Some {
                r.opt
            } else {
                st.edns
            },
        };
        assert(section_scan(u, next, 0, section) == Ok::<Scan, DSError>(next));
    }
}


/// Whether `rr` is, standing alone, a record of `section` in uncompressed
/// form that is accepted, an OPT record having been seen before or not.
pub open spec fn plain_record(rr: Seq<u8>, section: Section, seen: bool) -> bool {
    &&& rr_scan(rr, 0, section, seen) is Ok
    &&& rr_scan(rr, 0, section, seen)->Ok_0.next == rr.len()
    &&& uncompressed_rr(rr, 0) == rr
}

/// What a message with a record put in at the end of a section is made of.
pub proof fn lemma_spliced_parts(b: Seq<u8>, section: Section, rr: Seq<u8>)
    requires
        message_scan(b, false) is Ok,
        is_response_section(section),
        section_count(b, section) < 0xffff,
    ensures
        spliced(b, section, rr).len() == b.len() + rr.len(),
        DNS_HEADER_SIZE <= section_end(b, section) <= b.len(),
        spliced(b, section, rr).subrange(DNS_HEADER_SIZE as int, section_end(b, section))
            == b.subrange(DNS_HEADER_SIZE as int, section_end(b, section)),
        spliced(b, section, rr).subrange(
            section_end(b, section),
            section_end(b, section) + rr.len(),
        ) == rr,
        spliced(b, section, rr).subrange(
            section_end(b, section) + rr.len(),
            (b.len() + rr.len()) as int,
        ) == b.subrange(section_end(b, section), b.len() as int),
        qd_count(spliced(b, section, rr)) == qd_count(b),
        an_count(spliced(b, section, rr)) == an_count(b) + (if section == Section::Answer {
            1int
        } else {
            0int
        }),
        ns_count(spliced(b, section, rr)) == ns_count(b) + (if section == Section::NameServers {
            1int
        } else {
            0int
        }),
        ar_count(spliced(b, section, rr)) == ar_count(b) + (if section == Section::Additional {
            1int
        } else {
            0int
        }),
{
    reveal(spliced);
    lemma_layout(b);
    let at = section_end(b, section);
    let joined = b.subrange(0, at) + rr + b.subrange(at, b.len() as int);
    let co = count_offset(section);
    let u = spliced(b, section, rr);
    assert(u == put_be16(joined, co, section_count(b, section) + 1));
    lemma_be16_put(joined, co, section_count(b, section) + 1);
    assert forall|k: int| 0 <= k < 12 implies joined[k] == b[k] by {}
    assert(u.subrange(DNS_HEADER_SIZE as int, at) =~= b.subrange(DNS_HEADER_SIZE as int, at));
    assert(u.subrange(at, at + rr.len()) =~= rr);
    assert(u.subrange(at + rr.len(), (b.len() + rr.len()) as int) =~= b.subrange(
        at,
        b.len() as int,
    ));
}


/// The uncompressed form of records that stand one after another goes on
/// with the uncompressed form of the record behind them.
pub proof fn lemma_records_append(u: Seq<u8>, st: Scan, count: int, section: Section)
    requires
        0 <= st.offset,
        0 <= count,
        section_scan(u, st, count, section) is Ok,
    ensures
        uncompressed_records(u, st.offset, count + 1) == uncompressed_records(
            u,
            st.offset,
            count,
        ) + uncompressed_rr(u, section_scan(u, st, count, section)->Ok_0.offset),
    decreases count,
{
    if count > 0 {
        lemma_rr_scan_seen(u, st.offset, section);
        lemma_rr_shape(u, st.offset, section);
        let r = rr_scan(u, st.offset, section, st.edns is Some)->Ok_0;
        let next = Scan {
            offset: r.next,
            edns: if r.opt is Some {
                r.opt
            } else {
                st.edns
            },
        };
        lemma_records_append(u, next, count - 1, section);
        assert(rr_next(u, st.offset) == r.next);
        let x1 = uncompressed_rr(u, st.offset);
        let rest = uncompressed_records(u, r.next, count - 1);
        let last = uncompressed_rr(u, section_scan(u, st, count, section)->Ok_0.offset);
        assert(uncompressed_records(u, st.offset, count + 1) == x1 + uncompressed_records(
            u,
            r.next,
            count,
        ));
        assert(x1 + (rest + last) =~= (x1 + rest) + last);
    } else {
        let x1 = uncompressed_rr(u, st.offset);
        assert(uncompressed_records(u, rr_next(u, st.offset), 0) =~= Seq::<u8>::empty());
        assert(uncompressed_records(u, st.offset, 0) =~= Seq::<u8>::empty());
        assert(uncompressed_records(u, st.offset, 1) =~= Seq::<u8>::empty() + x1);
    }
}

/// The records of a section that are accepted, with a record in
/// uncompressed form behind them, are accepted wherever they stand in
/// uncompressed form, and stay as they are when written without
/// compression.
pub proof fn lemma_plain_section_append(
    b: Seq<u8>,
    st: Scan,
    count: int,
    section: Section,
    rr: Seq<u8>,
    u: Seq<u8>,
    st2: Scan,
)
    requires
        0 <= st.offset,
        0 <= st2.offset,
        0 <= count,
        section_scan(b, st, count, section) is Ok,
        st.edns is Some == st2.edns is Some,
        plain_record(rr, section, section_scan(b, st, count, section)->Ok_0.edns is Some),
        st2.offset + uncompressed_records(b, st.offset, count).len() + rr.len() <= u.len(),
        u.subrange(st2.offset, st2.offset + uncompressed_records(b, st.offset, count).len())
            == uncompressed_records(b, st.offset, count),
        u.subrange(
            st2.offset + uncompressed_records(b, st.offset, count).len(),
            st2.offset + uncompressed_records(b, st.offset, count).len() + rr.len(),
        ) == rr,
    ensures
        section_scan(u, st2, count + 1, section) is Ok,
        section_scan(u, st2, count + 1, section)->Ok_0.offset == st2.offset
            + uncompressed_records(b, st.offset, count).len() + rr.len(),
        section_scan(u, st2, count + 1, section)->Ok_0.edns is Some == (section_scan(
            b,
            st,
            count,
            section,
        )->Ok_0.edns is Some || rr_scan(
            rr,
            0,
            section,
            section_scan(b, st, count, section)->Ok_0.edns is Some,
        )->Ok_0.opt is Some),
        uncompressed_records(u, st2.offset, count + 1) == uncompressed_records(
            b,
            st.offset,
            count,
        ) + rr,
{
    let x = uncompressed_records(b, st.offset, count);
    lemma_plain_section(b, st, count, section, u, st2);
    let m = section_scan(b, st, count, section)->Ok_0;
    let m2 = section_scan(u, st2, count, section)->Ok_0;
    let seen = m.edns is Some;
    lemma_plain_rr(rr, 0, section, seen, u, m2.offset);
    lemma_section_scan_append(u, st2, count, section);
    lemma_records_append(u, st2, count, section);
}



/// A message is well formed and in uncompressed form if its question is
/// accepted and stays as it is when written without compression, and the
/// records of its three sections are accepted one section after another,
/// up to the end of the buffer, and stay as they are too.
pub proof fn lemma_assembled(u: Seq<u8>)
    requires
        u.len() >= DNS_HEADER_SIZE,
        qd_count(u) <= 1,
        qd_count(u) > 0 ==> question_scan(u, DNS_HEADER_SIZE as int, false) is Ok
            && uncompressed_question(u, DNS_HEADER_SIZE as int) == u.subrange(
            DNS_HEADER_SIZE as int,
            questions_end(u),
        ),
        section_scan(
            u,
            Scan { offset: questions_end(u), edns: None },
            an_count(u),
            Section::Answer,
        ) is Ok,
        section_scan(u, answers_scan(u), ns_count(u), Section::NameServers) is Ok,
        section_scan(u, nameservers_scan(u), ar_count(u), Section::Additional) is Ok,
        additional_scan(u).offset == u.len(),
        DNS_HEADER_SIZE <= questions_end(u) <= answers_scan(u).offset <= nameservers_scan(u).offset <= u.len(),
        uncompressed_records(u, questions_end(u), an_count(u)) == u.subrange(
            questions_end(u),
            answers_scan(u).offset,
        ),
        uncompressed_records(u, answers_scan(u).offset, ns_count(u)) == u.subrange(
            answers_scan(u).offset,
            nameservers_scan(u).offset,
        ),
        uncompressed_records(u, nameservers_scan(u).offset, ar_count(u)) == u.subrange(
            nameservers_scan(u).offset,
            u.len() as int,
        ),
    ensures
        message_scan(u, false) is Ok,
        is_plain(u),
{
    reveal(is_plain);
    assert(body_scan(u, false) is Ok);
    let h2 = u.subrange(0, DNS_HEADER_SIZE as int);
    let q2 = uncompressed_questions(u);
    let a2 = uncompressed_records(u, questions_end(u), an_count(u));
    let n2 = uncompressed_records(u, answers_scan(u).offset, ns_count(u));
    let r2 = uncompressed_records(u, nameservers_scan(u).offset, ar_count(u));
    assert(uncompressed(u) == h2 + q2 + a2 + n2 + r2);
    assert(q2 =~= u.subrange(DNS_HEADER_SIZE as int, questions_end(u)));
    assert(h2 + q2 + a2 + n2 + r2 =~= u);
}

/// The question of a message in uncompressed form is accepted, and stays
/// as it is, in a message that starts with the same bytes up to the end of
/// the question and counts as many questions.
pub proof fn lemma_question_kept(b: Seq<u8>, u: Seq<u8>)
    requires
        message_scan(b, false) is Ok,
        is_plain(b),
        u.len() >= questions_end(b),
        u.subrange(DNS_HEADER_SIZE as int, questions_end(b)) == b.subrange(
            DNS_HEADER_SIZE as int,
            questions_end(b),
        ),
        qd_count(u) == qd_count(b),
    ensures
        questions_end(u) == questions_end(b),
        qd_count(u) > 0 ==> question_scan(u, DNS_HEADER_SIZE as int, false) is Ok
            && uncompressed_question(u, DNS_HEADER_SIZE as int) == u.subrange(
            DNS_HEADER_SIZE as int,
            questions_end(u),
        ),
        DNS_HEADER_SIZE <= questions_end(b),
{
    lemma_layout(b);
    lemma_plain_sections(b);
    if qd_count(b) > 0 {
        lemma_plain_question(b, u, false);
    }
}

/// The records of a section of a message in uncompressed form are
/// accepted, and stay as they are, wherever their bytes stand.
pub proof fn lemma_section_kept(
    b: Seq<u8>,
    st: Scan,
    count: int,
    section: Section,
    end: int,
    u: Seq<u8>,
    st2: Scan,
)
    requires
        0 <= st.offset <= end <= b.len(),
        0 <= st2.offset,
        section_scan(b, st, count, section) is Ok,
        section_scan(b, st, count, section)->Ok_0.offset == end,
        st.edns is Some == st2.edns is Some,
        b.subrange(st.offset, end) == uncompressed_records(b, st.offset, count),
        st2.offset + (end - st.offset) <= u.len(),
        u.subrange(st2.offset, st2.offset + (end - st.offset)) == b.subrange(st.offset, end),
    ensures
        section_scan(u, st2, count, section) is Ok,
        section_scan(u, st2, count, section)->Ok_0.offset == st2.offset + (end - st.offset),
        section_scan(u, st2, count, section)->Ok_0.edns is Some == section_scan(
            b,
            st,
            count,
            section,
        )->Ok_0.edns is Some,
        uncompressed_records(u, st2.offset, count) == u.subrange(
            st2.offset,
            st2.offset + (end - st.offset),
        ),
{
    lemma_plain_section(b, st, count, section, u, st2);
}

/// The records of a section of a message in uncompressed form, with a
/// record in uncompressed form behind them, are accepted, and stay as they
/// are, wherever their bytes stand.
pub proof fn lemma_section_grown(
    b: Seq<u8>,
    st: Scan,
    count: int,
    section: Section,
    end: int,
    rr: Seq<u8>,
    u: Seq<u8>,
    st2: Scan,
)
    requires
        0 <= st.offset <= end <= b.len(),
        0 <= st2.offset,
        0 <= count,
        section_scan(b, st, count, section) is Ok,
        section_scan(b, st, count, section)->Ok_0.offset == end,
        st.edns is Some == st2.edns is Some,
        b.subrange(st.offset, end) == uncompressed_records(b, st.offset, count),
        plain_record(rr, section, section_scan(b, st, count, section)->Ok_0.edns is Some),
        st2.offset + (end - st.offset) + rr.len() <= u.len(),
        u.subrange(st2.offset, st2.offset + (end - st.offset)) == b.subrange(st.offset, end),
        u.subrange(
            st2.offset + (end - st.offset),
            st2.offset + (end - st.offset) + rr.len(),
        ) == rr,
    ensures
        section_scan(u, st2, count + 1, section) is Ok,
        section_scan(u, st2, count + 1, section)->Ok_0.offset == st2.offset + (end - st.offset)
            + rr.len(),
        section_scan(u, st2, count + 1, section)->Ok_0.edns is Some == (section_scan(
            b,
            st,
            count,
            section,
        )->Ok_0.edns is Some || rr_scan(
            rr,
            0,
            section,
            section_scan(b, st, count, section)->Ok_0.edns is Some,
        )->Ok_0.opt is Some),
        uncompressed_records(u, st2.offset, count + 1) == u.subrange(
            st2.offset,
            st2.offset + (end - st.offset) + rr.len(),
        ),
{
    lemma_plain_section_append(b, st, count, section, rr, u, st2);
    let x = b.subrange(st.offset, end);
    assert(x + rr =~= u.subrange(st2.offset, st2.offset + (end - st.offset) + rr.len())) by {
        let whole = u.subrange(st2.offset, st2.offset + (end - st.offset) + rr.len());
        assert(whole.subrange(0, end - st.offset) =~= u.subrange(
            st2.offset,
            st2.offset + (end - st.offset),
        ));
        assert(whole.subrange(end - st.offset, whole.len() as int) =~= u.subrange(
            st2.offset + (end - st.offset),
            st2.offset + (end - st.offset) + rr.len(),
        ));
        assert(whole =~= whole.subrange(0, end - st.offset) + whole.subrange(
            end - st.offset,
            whole.len() as int,
        ));
    }
}

/// A record of the answer or the name server section is no OPT record.
pub proof fn lemma_no_opt(rr: Seq<u8>, section: Section, seen: bool)
    requires
        section != Section::Additional,
        rr_scan(rr, 0, section, seen) is Ok,
    ensures
        rr_scan(rr, 0, section, seen)->Ok_0.opt is None,
{
    reveal(rdata_scan);
}


/// A window of a part that two buffers share is shared too.
pub proof fn lemma_window(u: Seq<u8>, a: int, b: Seq<u8>, c: int, n: int, i: int, j: int)
    requires
        0 <= a,
        0 <= c,
        0 <= i <= j <= n,
        a + n <= u.len(),
        c + n <= b.len(),
        u.subrange(a, a + n) == b.subrange(c, c + n),
    ensures
        u.subrange(a + i, a + j) == b.subrange(c + i, c + j),
{
    let part = b.subrange(c, c + n);
    lemma_part_of_part(u, a, part, i, j);
    assert(part.subrange(i, j) =~= b.subrange(c + i, c + j));
}

/// Putting an answer in uncompressed form at the end of its section of a
/// message in uncompressed form gives a well-formed message in
/// uncompressed form, in which the sections behind start as many bytes
/// later as the record is long.
#[verifier::spinoff_prover]
pub proof fn lemma_insert_answer(b: Seq<u8>, rr: Seq<u8>)
    requires
        message_scan(b, false) is Ok,
        is_plain(b),
        section_count(b, Section::Answer) < 0xffff,
        plain_record(rr, Section::Answer, false),
    ensures
        message_scan(spliced(b, Section::Answer, rr), false) is Ok,
        is_plain(spliced(b, Section::Answer, rr)),
        questions_end(spliced(b, Section::Answer, rr)) == questions_end(b),
        answers_scan(spliced(b, Section::Answer, rr)).offset == answers_scan(b).offset + rr.len(),
        nameservers_scan(spliced(b, Section::Answer, rr)).offset == nameservers_scan(b).offset + rr.len(),
        spliced(b, Section::Answer, rr).len() == b.len() + rr.len(),
{
    lemma_layout(b);
    crate::dns_sector::lemma_layout_edns(b);
    lemma_plain_sections(b);
    lemma_spliced_parts(b, Section::Answer, rr);
    let u = spliced(b, Section::Answer, rr);
    let at = section_end(b, Section::Answer);
    let q_end = questions_end(b);
    let an_end = answers_scan(b).offset;
    let ns_end = nameservers_scan(b).offset;
    let len = rr.len() as int;
    let h = DNS_HEADER_SIZE as int;
    lemma_window(u, h, b, h, at - h, 0, q_end - h);
    lemma_question_kept(b, u);
    let st_q = Scan { offset: q_end, edns: None };
    lemma_no_opt(rr, Section::Answer, false);
    lemma_window(u, h, b, h, at - h, q_end - h, an_end - h);
    lemma_section_grown(b, st_q, an_count(b), Section::Answer, an_end, rr, u, st_q);
    let st_a = answers_scan(u);
    lemma_window(u, at + len, b, at, b.len() - at, 0, ns_end - at);
    lemma_section_kept(b, answers_scan(b), ns_count(b), Section::NameServers, ns_end, u, st_a);
    let st_n = nameservers_scan(u);
    lemma_window(u, at + len, b, at, b.len() - at, ns_end - at, b.len() - at);
    lemma_section_kept(
        b,
        nameservers_scan(b),
        ar_count(b),
        Section::Additional,
        b.len() as int,
        u,
        st_n,
    );
    lemma_assembled(u);
}

/// Putting a name server record in uncompressed form at the end of its section of a
/// message in uncompressed form gives a well-formed message in
/// uncompressed form, in which the sections behind start as many bytes
/// later as the record is long.
#[verifier::spinoff_prover]
pub proof fn lemma_insert_nameservers(b: Seq<u8>, rr: Seq<u8>)
    requires
        message_scan(b, false) is Ok,
        is_plain(b),
        section_count(b, Section::NameServers) < 0xffff,
        plain_record(rr, Section::NameServers, false),
    ensures
        message_scan(spliced(b, Section::NameServers, rr), false) is Ok,
        is_plain(spliced(b, Section::NameServers, rr)),
        questions_end(spliced(b, Section::NameServers, rr)) == questions_end(b),
        answers_scan(spliced(b, Section::NameServers, rr)).offset == answers_scan(b).offset + 0,
        nameservers_scan(spliced(b, Section::NameServers, rr)).offset == nameservers_scan(b).offset + rr.len(),
        spliced(b, Section::NameServers, rr).len() == b.len() + rr.len(),
{
    lemma_layout(b);
    crate::dns_sector::lemma_layout_edns(b);
    lemma_plain_sections(b);
    lemma_spliced_parts(b, Section::NameServers, rr);
    let u = spliced(b, Section::NameServers, rr);
    let at = section_end(b, Section::NameServers);
    let q_end = questions_end(b);
    let an_end = answers_scan(b).offset;
    let ns_end = nameservers_scan(b).offset;
    let len = rr.len() as int;
    let h = DNS_HEADER_SIZE as int;
    lemma_window(u, h, b, h, at - h, 0, q_end - h);
    lemma_question_kept(b, u);
    let st_q = Scan { offset: q_end, edns: None };
    lemma_no_opt(rr, Section::NameServers, false);
    lemma_window(u, h, b, h, at - h, q_end - h, an_end - h);
    lemma_section_kept(b, st_q, an_count(b), Section::Answer, an_end, u, st_q);
    let st_a = answers_scan(u);
    lemma_window(u, h, b, h, at - h, an_end - h, ns_end - h);
    lemma_section_grown(
        b,
        answers_scan(b),
        ns_count(b),
        Section::NameServers,
        ns_end,
        rr,
        u,
        st_a,
    );
    let st_n = nameservers_scan(u);
    lemma_section_kept(
        b,
        nameservers_scan(b),
        ar_count(b),
        Section::Additional,
        b.len() as int,
        u,
        st_n,
    );
    lemma_assembled(u);
}

/// Putting an additional record in uncompressed form at the end of its section of a
/// message in uncompressed form gives a well-formed message in
/// uncompressed form, in which the sections behind start as many bytes
/// later as the record is long.
#[verifier::spinoff_prover]
pub proof fn lemma_insert_additional(b: Seq<u8>, rr: Seq<u8>)
    requires
        message_scan(b, false) is Ok,
        is_plain(b),
        section_count(b, Section::Additional) < 0xffff,
        plain_record(rr, Section::Additional, additional_scan(b).edns is Some),
    ensures
        message_scan(spliced(b, Section::Additional, rr), false) is Ok,
        is_plain(spliced(b, Section::Additional, rr)),
        questions_end(spliced(b, Section::Additional, rr)) == questions_end(b),
        answers_scan(spliced(b, Section::Additional, rr)).offset == answers_scan(b).offset + 0,
        nameservers_scan(spliced(b, Section::Additional, rr)).offset == nameservers_scan(b).offset + 0,
        spliced(b, Section::Additional, rr).len() == b.len() + rr.len(),
{
    lemma_layout(b);
    crate::dns_sector::lemma_layout_edns(b);
    lemma_plain_sections(b);
    lemma_spliced_parts(b, Section::Additional, rr);
    let u = spliced(b, Section::Additional, rr);
    let at = section_end(b, Section::Additional);
    let q_end = questions_end(b);
    let an_end = answers_scan(b).offset;
    let ns_end = nameservers_scan(b).offset;
    let len = rr.len() as int;
    let h = DNS_HEADER_SIZE as int;
    lemma_window(u, h, b, h, at - h, 0, q_end - h);
    lemma_question_kept(b, u);
    let st_q = Scan { offset: q_end, edns: None };
    lemma_window(u, h, b, h, at - h, q_end - h, an_end - h);
    lemma_section_kept(b, st_q, an_count(b), Section::Answer, an_end, u, st_q);
    let st_a = answers_scan(u);
    lemma_window(u, h, b, h, at - h, an_end - h, ns_end - h);
    lemma_section_kept(b, answers_scan(b), ns_count(b), Section::NameServers, ns_end, u, st_a);
    let st_n = nameservers_scan(u);
    lemma_window(u, h, b, h, at - h, ns_end - h, at - h);
    lemma_section_grown(
        b,
        nameservers_scan(b),
        ar_count(b),
        Section::Additional,
        b.len() as int,
        rr,
        u,
        st_n,
    );
    lemma_assembled(u);
}


/// `offset` moved by `shift`, where there is one.
pub open spec fn shifted(offset: Option<int>, shift: int) -> Option<int> {
    match offset {
        Some(o) => Some(o + shift),
        None => None,
    }
}

/// `offset`, or `other` where there is none.
pub open spec fn or_else(offset: Option<int>, other: int) -> Option<int> {
    match offset {
        Some(o) => Some(o),
        None => Some(other),
    }
}

/// A message that has been written without compression is in uncompressed form.
pub proof fn law_uncompressed_is_plain(b: Seq<u8>)
    requires
        message_scan(b, false) is Ok,
    ensures
        message_scan(uncompressed(b), false) is Ok,
        is_plain(uncompressed(b)),
{
    reveal(is_plain);
    lemma_uncompressed_scan(b, false);
}

/// Putting a record in uncompressed form at the end of the answer, name
/// server or additional section of a message in uncompressed form gives a
/// well-formed message in uncompressed form. The section of the record
/// starts where it did, or where the record was put if it was empty; the
/// sections before it start where they did; and the sections behind it
/// start as many bytes later as the record is long.
pub proof fn law_insert_shifts_sections(b: Seq<u8>, section: Section, rr: Seq<u8>)
    requires
        message_scan(b, false) is Ok,
        is_plain(b),
        is_response_section(section),
        section_count(b, section) < 0xffff,
        plain_record(
            rr,
            section,
            section == Section::Additional && message_scan(b, false)->Ok_0.edns is Some,
        ),
    ensures
        message_scan(spliced(b, section, rr), false) is Ok,
        is_plain(spliced(b, section, rr)),
        spliced(b, section, rr).len() == b.len() + rr.len(),
        message_scan(spliced(b, section, rr), false)->Ok_0.question == message_scan(
            b,
            false,
        )->Ok_0.question,
        message_scan(spliced(b, section, rr), false)->Ok_0.answers == (match section {
            Section::Answer => or_else(
                message_scan(b, false)->Ok_0.answers,
                section_end(b, section),
            ),
            _ => message_scan(b, false)->Ok_0.answers,
        }),
        message_scan(spliced(b, section, rr), false)->Ok_0.nameservers == (match section {
            Section::Answer => shifted(
                message_scan(b, false)->Ok_0.nameservers,
                rr.len() as int,
            ),
            Section::NameServers => or_else(
                message_scan(b, false)->Ok_0.nameservers,
                section_end(b, section),
            ),
            _ => message_scan(b, false)->Ok_0.nameservers,
        }),
        message_scan(spliced(b, section, rr), false)->Ok_0.additional == (match section {
            Section::Additional => or_else(
                message_scan(b, false)->Ok_0.additional,
                section_end(b, section),
            ),
            _ => shifted(message_scan(b, false)->Ok_0.additional, rr.len() as int),
        }),
{
    lemma_layout(b);
    lemma_spliced_parts(b, section, rr);
    match section {
        Section::Answer => {
            lemma_insert_answer(b, rr);
        },
        Section::NameServers => {
            lemma_insert_nameservers(b, rr);
        },
        _ => {
            lemma_insert_additional(b, rr);
        },
    }
    lemma_layout(spliced(b, section, rr));
}


/// The state of a scan after one more record.
pub open spec fn scan_after(st: Scan, u: Seq<u8>, section: Section) -> Scan {
    let r = rr_scan(u, st.offset, section, st.edns is Some)->Ok_0;
    Scan {
        offset: r.next,
        edns: if r.opt is Some {
            r.opt
        } else {
            st.edns
        },
    }
}

/// A scan that accepts `k + n` records accepts the first `k` of them, and
/// goes on from there with the other `n`.
pub proof fn lemma_section_split(u: Seq<u8>, st: Scan, k: int, n: int, section: Section)
    requires
        0 <= k,
        0 <= n,
        0 <= st.offset,
        section_scan(u, st, k + n, section) is Ok,
    ensures
        section_scan(u, st, k, section) is Ok,
        section_scan(u, section_scan(u, st, k, section)->Ok_0, n, section) == section_scan(
            u,
            st,
            k + n,
            section,
        ),
        st.offset <= section_scan(u, st, k, section)->Ok_0.offset <= section_scan(
            u,
            st,
            k + n,
            section,
        )->Ok_0.offset,
        uncompressed_records(u, st.offset, k + n) == uncompressed_records(u, st.offset, k)
            + uncompressed_records(u, section_scan(u, st, k, section)->Ok_0.offset, n),
    decreases k + n,
{
    if k > 0 {
        lemma_rr_scan_seen(u, st.offset, section);
        lemma_rr_shape(u, st.offset, section);
        let next = scan_after(st, u, section);
        lemma_section_split(u, next, k - 1, n, section);
        assert(rr_next(u, st.offset) == next.offset);
        let x1 = uncompressed_rr(u, st.offset);
        let rest_k = uncompressed_records(u, next.offset, k - 1);
        let mid = section_scan(u, st, k, section)->Ok_0;
        let rest_n = uncompressed_records(u, mid.offset, n);
        assert(x1 + (rest_k + rest_n) =~= (x1 + rest_k) + rest_n);
    } else {
        assert(uncompressed_records(u, st.offset, 0) =~= Seq::<u8>::empty());
        assert(Seq::<u8>::empty() + uncompressed_records(u, st.offset, n)
            =~= uncompressed_records(u, st.offset, n));
        if n > 0 {
            lemma_rr_scan_seen(u, st.offset, section);
            lemma_rr_shape(u, st.offset, section);
            let next = scan_after(st, u, section);
            lemma_section_split(u, next, 0, n - 1, section);
        }
    }
}

/// A scan that accepts `k` records and goes on from there to accept `n`
/// more accepts `k + n` records.
pub proof fn lemma_section_join(u: Seq<u8>, st: Scan, k: int, n: int, section: Section)
    requires
        0 <= k,
        0 <= n,
        section_scan(u, st, k, section) is Ok,
        section_scan(u, section_scan(u, st, k, section)->Ok_0, n, section) is Ok,
    ensures
        section_scan(u, st, k + n, section) == section_scan(
            u,
            section_scan(u, st, k, section)->Ok_0,
            n,
            section,
        ),
    decreases k,
{
    if k > 0 {
        lemma_section_join(u, scan_after(st, u, section), k - 1, n, section);
    }
}

/// Records that are accepted behind an OPT record are accepted where none
/// has been seen, and none of them is an OPT record.
pub proof fn lemma_section_unseen(u: Seq<u8>, st: Scan, n: int, section: Section)
    requires
        st.edns is Some,
        section_scan(u, st, n, section) is Ok,
    ensures
        section_scan(u, Scan { offset: st.offset, edns: None }, n, section) == Ok::<
            Scan,
            DSError,
        >(Scan { offset: section_scan(u, st, n, section)->Ok_0.offset, edns: None }),
    decreases n,
{
    if n > 0 {
        lemma_rr_scan_seen(u, st.offset, section);
        let r = rr_scan(u, st.offset, section, true)->Ok_0;
        assert(r.opt is None) by {
            reveal(rdata_scan);
        }
        lemma_section_unseen(u, Scan { offset: r.next, edns: st.edns }, n - 1, section);
    }
}

/// No OPT record is found outside the additional section.
pub proof fn lemma_section_no_opt(u: Seq<u8>, st: Scan, n: int, section: Section)
    requires
        section != Section::Additional,
        section_scan(u, st, n, section) is Ok,
    ensures
        section_scan(u, st, n, section)->Ok_0.edns == st.edns,
    decreases n,
{
    if n > 0 {
        let r = rr_scan(u, st.offset, section, st.edns is Some)->Ok_0;
        assert(r.opt is None) by {
            reveal(rdata_scan);
        }
        lemma_section_no_opt(u, scan_after(st, u, section), n - 1, section);
    }
}

/// In a section in uncompressed form, the records up to any one of them
/// and the records from there on are in uncompressed form.
pub proof fn lemma_plain_prefix(b: Seq<u8>, st: Scan, k: int, n: int, section: Section, end: int)
    requires
        0 <= k,
        0 <= n,
        0 <= st.offset <= end <= b.len(),
        section_scan(b, st, k + n, section) is Ok,
        section_scan(b, st, k + n, section)->Ok_0.offset == end,
        b.subrange(st.offset, end) == uncompressed_records(b, st.offset, k + n),
    ensures
        section_scan(b, st, k, section) is Ok,
        st.offset <= section_scan(b, st, k, section)->Ok_0.offset <= end,
        b.subrange(st.offset, section_scan(b, st, k, section)->Ok_0.offset)
            == uncompressed_records(b, st.offset, k),
        b.subrange(section_scan(b, st, k, section)->Ok_0.offset, end) == uncompressed_records(
            b,
            section_scan(b, st, k, section)->Ok_0.offset,
            n,
        ),
        section_scan(b, section_scan(b, st, k, section)->Ok_0, n, section) == section_scan(
            b,
            st,
            k + n,
            section,
        ),
{
    lemma_section_split(b, st, k, n, section);
    let whole = b.subrange(st.offset, end);
    let mid = section_scan(b, st, k, section)->Ok_0;
    let first = uncompressed_records(b, st.offset, k);
    let rest = uncompressed_records(b, mid.offset, n);
    assert(whole == first + rest);
    assert(whole.subrange(0, first.len() as int) =~= first);
    lemma_part_of_part(b, st.offset, whole, 0, first.len() as int);
    lemma_plain_section(b, st, k, section, b, st);
    assert(mid.offset == st.offset + first.len());
    lemma_part_of_part(b, st.offset, whole, first.len() as int, whole.len() as int);
    assert(whole.subrange(first.len() as int, whole.len() as int) =~= rest);
}


/// Where the record behind the first `k` records of a scan starts.
pub open spec fn record_at(u: Seq<u8>, st: Scan, k: int, section: Section) -> int {
    section_scan(u, st, k, section)->Ok_0.offset
}

/// The records of a section in uncompressed form without one of them are
/// accepted, and stay as they are, wherever their bytes stand.
pub proof fn lemma_section_without(
    b: Seq<u8>,
    st: Scan,
    k: int,
    n: int,
    section: Section,
    end: int,
    c: Seq<u8>,
    st2: Scan,
)
    requires
        0 <= k,
        0 <= n,
        0 <= st.offset <= end <= b.len(),
        0 <= st2.offset,
        st.edns is None,
        st2.edns is None,
        section_scan(b, st, k + 1 + n, section) is Ok,
        section_scan(b, st, k + 1 + n, section)->Ok_0.offset == end,
        b.subrange(st.offset, end) == uncompressed_records(b, st.offset, k + 1 + n),
        st2.offset + (record_at(b, st, k, section) - st.offset) + (end - record_at(
            b,
            st,
            k + 1,
            section,
        )) <= c.len(),
        c.subrange(st2.offset, st2.offset + (record_at(b, st, k, section) - st.offset))
            == b.subrange(st.offset, record_at(b, st, k, section)),
        c.subrange(
            st2.offset + (record_at(b, st, k, section) - st.offset),
            st2.offset + (record_at(b, st, k, section) - st.offset) + (end - record_at(
                b,
                st,
                k + 1,
                section,
            )),
        ) == b.subrange(record_at(b, st, k + 1, section), end),
    ensures
        st.offset <= record_at(b, st, k, section) < record_at(b, st, k + 1, section) <= end,
        section_scan(c, st2, k + n, section) is Ok,
        section_scan(c, st2, k + n, section)->Ok_0.offset == st2.offset + (record_at(
            b,
            st,
            k,
            section,
        ) - st.offset) + (end - record_at(b, st, k + 1, section)),
        uncompressed_records(c, st2.offset, k + n) == c.subrange(
            st2.offset,
            st2.offset + (record_at(b, st, k, section) - st.offset) + (end - record_at(
                b,
                st,
                k + 1,
                section,
            )),
        ),
        record_at(b, st, k + 1, section) == rr_next(b, record_at(b, st, k, section)),
        rr_scan(b, record_at(b, st, k, section), section, false) is Ok,
{
    let start = st.offset;
    lemma_plain_prefix(b, st, k, 1 + n, section, end);
    let m_k = section_scan(b, st, k, section)->Ok_0;
    let o_k = m_k.offset;
    lemma_plain_prefix(b, m_k, 1, n, section, end);
    lemma_section_join(b, st, k, 1, section);
    let m_k1 = section_scan(b, m_k, 1, section)->Ok_0;
    assert(m_k1 == section_scan(b, st, k + 1, section)->Ok_0);
    let o_k1 = m_k1.offset;
    assert(rr_scan(b, o_k, section, m_k.edns is Some) is Ok);
    lemma_rr_scan_seen(b, o_k, section);
    lemma_rr_shape(b, o_k, section);
    assert(section_scan(b, scan_after(m_k, b, section), 0, section) == Ok::<Scan, DSError>(
        scan_after(m_k, b, section),
    ));
    assert(m_k1 == scan_after(m_k, b, section));
    lemma_section_kept(b, st, k, section, o_k, c, st2);
    let m2 = section_scan(c, st2, k, section)->Ok_0;
    if m_k1.edns is Some == m_k.edns is Some {
        lemma_section_kept(b, m_k1, n, section, end, c, m2);
    } else {
        lemma_section_unseen(b, m_k1, n, section);
        lemma_section_kept(b, Scan { offset: o_k1, edns: None }, n, section, end, c, m2);
    }
    lemma_section_join(c, st2, k, n, section);
    lemma_section_split(c, st2, k, n, section);
    let len_k = o_k - start;
    let len_n = end - o_k1;
    assert(c.subrange(st2.offset, st2.offset + len_k) + c.subrange(
        st2.offset + len_k,
        st2.offset + len_k + len_n,
    ) =~= c.subrange(st2.offset, st2.offset + len_k + len_n));
}


/// The state in which the scan of a well-formed message comes to `section`.
pub open spec fn section_state(b: Seq<u8>, section: Section) -> Scan {
    match section {
        Section::Answer => Scan { offset: questions_end(b), edns: None },
        Section::NameServers => answers_scan(b),
        _ => nameservers_scan(b),
    }
}

/// The length of the record behind the first `k` records of `section`.
pub open spec fn record_len(b: Seq<u8>, section: Section, k: int) -> int {
    record_at(b, section_state(b, section), k + 1, section) - record_at(
        b,
        section_state(b, section),
        k,
        section,
    )
}

/// The well-formed message `b` without the record behind the first `k`
/// records of `section`, and with one record less counted in the header.
pub open spec fn deleted(b: Seq<u8>, section: Section, k: int) -> Seq<u8> {
    removed_bytes(b, section, record_at(b, section_state(b, section), k, section))->Some_0
}

/// Where a record that is accepted ends is where the length of its data says.
pub proof fn lemma_record_end(b: Seq<u8>, st: Scan, k: int, section: Section)
    requires
        0 <= k,
        0 <= st.offset,
        is_response_section(section),
        section_scan(b, st, k + 1, section) is Ok,
        b.len() <= usize::MAX,
    ensures
        section_scan(b, st, k, section) is Ok,
        record_end_spec(b, section, record_at(b, st, k, section)) == Some(
            record_at(b, st, k + 1, section) as usize,
        ),
        0 <= st.offset <= record_at(b, st, k, section) < record_at(b, st, k + 1, section)
            <= b.len(),
{
    lemma_section_split(b, st, k, 1, section);
    let m = section_scan(b, st, k, section)->Ok_0;
    lemma_rr_scan_seen(b, m.offset, section);
    lemma_rr_shape(b, m.offset, section);
    assert(section_scan(b, scan_after(m, b, section), 0, section) == Ok::<Scan, DSError>(
        scan_after(m, b, section),
    ));
}

/// What a message without one of its records is made of.
pub proof fn lemma_removed_parts(b: Seq<u8>, section: Section, at: int, next: int)
    requires
        message_scan(b, false) is Ok,
        is_response_section(section),
        DNS_HEADER_SIZE <= at < next <= b.len(),
        b.len() <= usize::MAX,
        record_end_spec(b, section, at) == Some(next as usize),
        section_count(b, section) > 0,
    ensures
        removed_bytes(b, section, at) is Some,
        removed_bytes(b, section, at)->Some_0.len() == b.len() - (next - at),
        removed_bytes(b, section, at)->Some_0.subrange(DNS_HEADER_SIZE as int, at) == b.subrange(
            DNS_HEADER_SIZE as int,
            at,
        ),
        removed_bytes(b, section, at)->Some_0.subrange(at, b.len() - (next - at)) == b.subrange(
            next,
            b.len() as int,
        ),
        qd_count(removed_bytes(b, section, at)->Some_0) == qd_count(b),
        an_count(removed_bytes(b, section, at)->Some_0) == an_count(b) - (if section
            == Section::Answer {
            1int
        } else {
            0int
        }),
        ns_count(removed_bytes(b, section, at)->Some_0) == ns_count(b) - (if section
            == Section::NameServers {
            1int
        } else {
            0int
        }),
        ar_count(removed_bytes(b, section, at)->Some_0) == ar_count(b) - (if section
            == Section::Additional {
            1int
        } else {
            0int
        }),
{
    reveal(removed_bytes);
    let co = count_offset(section);
    let cut = shrunk(b, at, next - at);
    let c = put_be16(cut, co, be16(b, co) - 1);
    lemma_be16_put(cut, co, be16(b, co) - 1);
    assert forall|k: int| 0 <= k < 12 implies cut[k] == b[k] by {}
    assert(c.subrange(DNS_HEADER_SIZE as int, at) =~= b.subrange(DNS_HEADER_SIZE as int, at));
    assert(c.subrange(at, b.len() - (next - at)) =~= b.subrange(next, b.len() as int));
}

/// Taking an answer out of a message in uncompressed form gives a well-formed
/// message in uncompressed form, in which the sections behind start as
/// many bytes earlier as the record was long.
#[verifier::spinoff_prover]
#[verifier::rlimit(60)]
pub proof fn lemma_delete_answer(b: Seq<u8>, k: int)
    requires
        message_scan(b, false) is Ok,
        is_plain(b),
        0 <= k < an_count(b),
        b.len() <= usize::MAX,
    ensures
        removed_bytes(
            b,
            Section::Answer,
            record_at(b, section_state(b, Section::Answer), k, Section::Answer),
        ) is Some,
        deleted(b, Section::Answer, k).len() == b.len() - record_len(b, Section::Answer, k),
        record_len(b, Section::Answer, k) > 0,
        message_scan(deleted(b, Section::Answer, k), false) is Ok,
        is_plain(deleted(b, Section::Answer, k)),
        questions_end(deleted(b, Section::Answer, k)) == questions_end(b),
        answers_scan(deleted(b, Section::Answer, k)).offset == answers_scan(b).offset - record_len(b, Section::Answer, k),
        nameservers_scan(deleted(b, Section::Answer, k)).offset == nameservers_scan(b).offset - record_len(b, Section::Answer, k),
        an_count(deleted(b, Section::Answer, k)) == an_count(b) - 1int,
        ns_count(deleted(b, Section::Answer, k)) == ns_count(b) - 0int,
        ar_count(deleted(b, Section::Answer, k)) == ar_count(b) - 0int,
{
    lemma_layout(b);
    crate::dns_sector::lemma_layout_edns(b);
    lemma_plain_sections(b);
    let st = section_state(b, Section::Answer);
    let q_end = questions_end(b);
    let an_end = answers_scan(b).offset;
    let ns_end = nameservers_scan(b).offset;
    let end = section_end(b, Section::Answer);
    let n = an_count(b) - k - 1;
    let h = DNS_HEADER_SIZE as int;
    lemma_plain_prefix(b, st, k, 1 + n, Section::Answer, end);
    lemma_plain_prefix(b, section_scan(b, st, k, Section::Answer)->Ok_0, 1, n, Section::Answer, end);
    lemma_section_join(b, st, k, 1, Section::Answer);
    let at = record_at(b, st, k, Section::Answer);
    let next = record_at(b, st, k + 1, Section::Answer);
    lemma_record_end(b, st, k, Section::Answer);
    lemma_removed_parts(b, Section::Answer, at, next);
    let c = removed_bytes(b, Section::Answer, at)->Some_0;
    let len = next - at;
    lemma_window(c, h, b, h, at - h, 0, q_end - h);
    lemma_question_kept(b, c);
    let st_q = Scan { offset: q_end, edns: None };
    lemma_window(c, h, b, h, at - h, q_end - h, at - h);
    lemma_window(c, at, b, next, b.len() - next, 0, an_end - next);
    lemma_section_without(b, st_q, k, n, Section::Answer, an_end, c, st_q);
    lemma_section_no_opt(c, st_q, k + n, Section::Answer);
    let st_a = answers_scan(c);
    lemma_window(c, at, b, next, b.len() - next, an_end - next, ns_end - next);
    lemma_section_kept(b, answers_scan(b), ns_count(b), Section::NameServers, ns_end, c, st_a);
    let st_n = nameservers_scan(c);
    lemma_window(c, at, b, next, b.len() - next, ns_end - next, b.len() - next);
    lemma_section_kept(
        b,
        nameservers_scan(b),
        ar_count(b),
        Section::Additional,
        b.len() as int,
        c,
        st_n,
    );
    lemma_assembled(c);
}

/// Taking a name server record out of a message in uncompressed form gives a well-formed
/// message in uncompressed form, in which the sections behind start as
/// many bytes earlier as the record was long.
#[verifier::spinoff_prover]
#[verifier::rlimit(60)]
pub proof fn lemma_delete_nameservers(b: Seq<u8>, k: int)
    requires
        message_scan(b, false) is Ok,
        is_plain(b),
        0 <= k < ns_count(b),
        b.len() <= usize::MAX,
    ensures
        removed_bytes(
            b,
            Section::NameServers,
            record_at(b, section_state(b, Section::NameServers), k, Section::NameServers),
        ) is Some,
        deleted(b, Section::NameServers, k).len() == b.len() - record_len(b, Section::NameServers, k),
        record_len(b, Section::NameServers, k) > 0,
        message_scan(deleted(b, Section::NameServers, k), false) is Ok,
        is_plain(deleted(b, Section::NameServers, k)),
        questions_end(deleted(b, Section::NameServers, k)) == questions_end(b),
        answers_scan(deleted(b, Section::NameServers, k)).offset == answers_scan(b).offset - 0,
        nameservers_scan(deleted(b, Section::NameServers, k)).offset == nameservers_scan(b).offset - record_len(b, Section::NameServers, k),
        an_count(deleted(b, Section::NameServers, k)) == an_count(b) - 0int,
        ns_count(deleted(b, Section::NameServers, k)) == ns_count(b) - 1int,
        ar_count(deleted(b, Section::NameServers, k)) == ar_count(b) - 0int,
{
    lemma_layout(b);
    crate::dns_sector::lemma_layout_edns(b);
    lemma_plain_sections(b);
    let st = section_state(b, Section::NameServers);
    let q_end = questions_end(b);
    let an_end = answers_scan(b).offset;
    let ns_end = nameservers_scan(b).offset;
    let end = section_end(b, Section::NameServers);
    let n = ns_count(b) - k - 1;
    let h = DNS_HEADER_SIZE as int;
    lemma_plain_prefix(b, st, k, 1 + n, Section::NameServers, end);
    lemma_plain_prefix(b, section_scan(b, st, k, Section::NameServers)->Ok_0, 1, n, Section::NameServers, end);
    lemma_section_join(b, st, k, 1, Section::NameServers);
    let at = record_at(b, st, k, Section::NameServers);
    let next = record_at(b, st, k + 1, Section::NameServers);
    lemma_record_end(b, st, k, Section::NameServers);
    lemma_removed_parts(b, Section::NameServers, at, next);
    let c = removed_bytes(b, Section::NameServers, at)->Some_0;
    let len = next - at;
    lemma_window(c, h, b, h, at - h, 0, q_end - h);
    lemma_question_kept(b, c);
    let st_q = Scan { offset: q_end, edns: None };
    lemma_window(c, h, b, h, at - h, q_end - h, an_end - h);
    lemma_section_kept(b, st_q, an_count(b), Section::Answer, an_end, c, st_q);
    let st_a = answers_scan(c);
    lemma_window(c, h, b, h, at - h, an_end - h, at - h);
    lemma_window(c, at, b, next, b.len() - next, 0, ns_end - next);
    lemma_section_no_opt(c, st_q, an_count(b), Section::Answer);
    lemma_section_without(b, answers_scan(b), k, n, Section::NameServers, ns_end, c, st_a);
    lemma_section_no_opt(c, st_a, k + n, Section::NameServers);
    let st_n = nameservers_scan(c);
    lemma_window(c, at, b, next, b.len() - next, ns_end - next, b.len() - next);
    lemma_section_kept(
        b,
        nameservers_scan(b),
        ar_count(b),
        Section::Additional,
        b.len() as int,
        c,
        st_n,
    );
    lemma_assembled(c);
}

/// Taking an additional record out of a message in uncompressed form gives a well-formed
/// message in uncompressed form, in which the sections behind start as
/// many bytes earlier as the record was long.
#[verifier::spinoff_prover]
#[verifier::rlimit(60)]
pub proof fn lemma_delete_additional(b: Seq<u8>, k: int)
    requires
        message_scan(b, false) is Ok,
        is_plain(b),
        0 <= k < ar_count(b),
        b.len() <= usize::MAX,
    ensures
        removed_bytes(
            b,
            Section::Additional,
            record_at(b, section_state(b, Section::Additional), k, Section::Additional),
        ) is Some,
        deleted(b, Section::Additional, k).len() == b.len() - record_len(b, Section::Additional, k),
        record_len(b, Section::Additional, k) > 0,
        message_scan(deleted(b, Section::Additional, k), false) is Ok,
        is_plain(deleted(b, Section::Additional, k)),
        questions_end(deleted(b, Section::Additional, k)) == questions_end(b),
        answers_scan(deleted(b, Section::Additional, k)).offset == answers_scan(b).offset - 0,
        nameservers_scan(deleted(b, Section::Additional, k)).offset == nameservers_scan(b).offset - 0,
        an_count(deleted(b, Section::Additional, k)) == an_count(b) - 0int,
        ns_count(deleted(b, Section::Additional, k)) == ns_count(b) - 0int,
        ar_count(deleted(b, Section::Additional, k)) == ar_count(b) - 1int,
{
    lemma_layout(b);
    crate::dns_sector::lemma_layout_edns(b);
    lemma_plain_sections(b);
    let st = section_state(b, Section::Additional);
    let q_end = questions_end(b);
    let an_end = answers_scan(b).offset;
    let ns_end = nameservers_scan(b).offset;
    let end = section_end(b, Section::Additional);
    let n = ar_count(b) - k - 1;
    let h = DNS_HEADER_SIZE as int;
    lemma_plain_prefix(b, st, k, 1 + n, Section::Additional, end);
    lemma_plain_prefix(b, section_scan(b, st, k, Section::Additional)->Ok_0, 1, n, Section::Additional, end);
    lemma_section_join(b, st, k, 1, Section::Additional);
    let at = record_at(b, st, k, Section::Additional);
    let next = record_at(b, st, k + 1, Section::Additional);
    lemma_record_end(b, st, k, Section::Additional);
    lemma_removed_parts(b, Section::Additional, at, next);
    let c = removed_bytes(b, Section::Additional, at)->Some_0;
    let len = next - at;
    lemma_window(c, h, b, h, at - h, 0, q_end - h);
    lemma_question_kept(b, c);
    let st_q = Scan { offset: q_end, edns: None };
    lemma_window(c, h, b, h, at - h, q_end - h, an_end - h);
    lemma_section_kept(b, st_q, an_count(b), Section::Answer, an_end, c, st_q);
    let st_a = answers_scan(c);
    lemma_window(c, h, b, h, at - h, an_end - h, ns_end - h);
    lemma_section_kept(b, answers_scan(b), ns_count(b), Section::NameServers, ns_end, c, st_a);
    lemma_section_no_opt(c, st_q, an_count(b), Section::Answer);
    lemma_section_no_opt(c, st_a, ns_count(b), Section::NameServers);
    let st_n = nameservers_scan(c);
    lemma_window(c, h, b, h, at - h, ns_end - h, at - h);
    lemma_window(c, at, b, next, b.len() - next, 0, b.len() - next);
    lemma_section_without(
        b,
        nameservers_scan(b),
        k,
        n,
        Section::Additional,
        b.len() as int,
        c,
        st_n,
    );
    lemma_assembled(c);
}


/// `offset`, unless `count` is zero.
pub open spec fn unless_empty(offset: Option<int>, count: int) -> Option<int> {
    if count > 0 {
        offset
    } else {
        None
    }
}

/// Taking a record out of the answer, name server or additional section of
/// a message in uncompressed form gives a well-formed message in
/// uncompressed form, with one record less in the section. The section
/// starts where it did, and has no offset any more if it is empty now; the
/// sections before it start where they did; and the sections behind it
/// start as many bytes earlier as the record was long.
pub proof fn law_delete_shifts_sections(b: Seq<u8>, section: Section, k: int)
    requires
        message_scan(b, false) is Ok,
        is_plain(b),
        is_response_section(section),
        0 <= k < section_count(b, section),
        b.len() <= usize::MAX,
    ensures
        removed_bytes(b, section, record_at(b, section_state(b, section), k, section)) is Some,
        message_scan(deleted(b, section, k), false) is Ok,
        is_plain(deleted(b, section, k)),
        record_len(b, section, k) > 0,
        deleted(b, section, k).len() == b.len() - record_len(b, section, k),
        section_count(deleted(b, section, k), section) == section_count(b, section) - 1,
        message_scan(deleted(b, section, k), false)->Ok_0.question == message_scan(
            b,
            false,
        )->Ok_0.question,
        message_scan(deleted(b, section, k), false)->Ok_0.answers == (match section {
            Section::Answer => unless_empty(
                message_scan(b, false)->Ok_0.answers,
                an_count(b) - 1,
            ),
            _ => message_scan(b, false)->Ok_0.answers,
        }),
        message_scan(deleted(b, section, k), false)->Ok_0.nameservers == (match section {
            Section::Answer => shifted(
                message_scan(b, false)->Ok_0.nameservers,
                -record_len(b, section, k),
            ),
            Section::NameServers => unless_empty(
                message_scan(b, false)->Ok_0.nameservers,
                ns_count(b) - 1,
            ),
            _ => message_scan(b, false)->Ok_0.nameservers,
        }),
        message_scan(deleted(b, section, k), false)->Ok_0.additional == (match section {
            Section::Additional => unless_empty(
                message_scan(b, false)->Ok_0.additional,
                ar_count(b) - 1,
            ),
            _ => shifted(message_scan(b, false)->Ok_0.additional, -record_len(b, section, k)),
        }),
{
    lemma_layout(b);
    match section {
        Section::Answer => {
            lemma_delete_answer(b, k);
        },
        Section::NameServers => {
            lemma_delete_nameservers(b, k);
        },
        _ => {
            lemma_delete_additional(b, k);
        },
    }
    lemma_layout(deleted(b, section, k));
}


/// What `insert_rr` starts from: the bytes of the packet, written
/// without compression where they may be compressed.
pub open spec fn insert_base(b: Seq<u8>, maybe_compressed: bool) -> Seq<u8> {
    if maybe_compressed {
        uncompressed(b)
    } else {
        b
    }
}

/// Adding a record succeeds: for a well-formed message that is marked as
/// one that may be compressed, or is in uncompressed form, a record in
/// uncompressed form that is accepted alone, and a result of at most 8192
/// bytes with at most 65535 records in the section, `insert_spec` gives a
/// well-formed message in uncompressed form. It holds one record more in
/// the section and as many in the others, and the record is the last of
/// its section.
pub proof fn law_insert_succeeds(b: Seq<u8>, maybe_compressed: bool, section: Section, rr: Seq<u8>)
    requires
        message_scan(b, false) is Ok,
        maybe_compressed || is_plain(b),
        is_response_section(section),
        insert_base(b, maybe_compressed).len() + rr.len() <= DNS_MAX_UNCOMPRESSED_SIZE,
        section_count(b, section) < 0xffff,
        plain_record(
            rr,
            section,
            section == Section::Additional && message_scan(
                insert_base(b, maybe_compressed),
                false,
            )->Ok_0.edns is Some,
        ),
    ensures
        insert_spec(b, maybe_compressed, section, rr) == Ok::<Seq<u8>, DSError>(
            spliced(insert_base(b, maybe_compressed), section, rr),
        ),
        message_scan(spliced(insert_base(b, maybe_compressed), section, rr), false) is Ok,
        is_plain(spliced(insert_base(b, maybe_compressed), section, rr)),
        spliced(insert_base(b, maybe_compressed), section, rr).len() == insert_base(
            b,
            maybe_compressed,
        ).len() + rr.len(),
        qd_count(spliced(insert_base(b, maybe_compressed), section, rr)) == qd_count(b),
        an_count(spliced(insert_base(b, maybe_compressed), section, rr)) == an_count(b) + (
        if section == Section::Answer {
            1int
        } else {
            0int
        }),
        ns_count(spliced(insert_base(b, maybe_compressed), section, rr)) == ns_count(b) + (
        if section == Section::NameServers {
            1int
        } else {
            0int
        }),
        ar_count(spliced(insert_base(b, maybe_compressed), section, rr)) == ar_count(b) + (
        if section == Section::Additional {
            1int
        } else {
            0int
        }),
        section_end(spliced(insert_base(b, maybe_compressed), section, rr), section)
            == section_end(insert_base(b, maybe_compressed), section) + rr.len(),
        spliced(insert_base(b, maybe_compressed), section, rr).subrange(
            section_end(insert_base(b, maybe_compressed), section),
            section_end(insert_base(b, maybe_compressed), section) + rr.len(),
        ) == rr,
{
    let base = insert_base(b, maybe_compressed);
    if maybe_compressed {
        lemma_uncompressed_scan(b, false);
        lemma_uncompressed_parts(b);
        law_uncompressed_is_plain(b);
    }
    lemma_layout(base);
    lemma_spliced_parts(base, section, rr);
    law_insert_shifts_sections(base, section, rr);
    let c = spliced(base, section, rr);
    lemma_layout(c);
    match section {
        Section::Answer => {
            lemma_insert_answer(base, rr);
        },
        Section::NameServers => {
            lemma_insert_nameservers(base, rr);
        },
        _ => {
            lemma_insert_additional(base, rr);
        },
    }
}


/// A message that holds no record, and a question whose name holds no
/// compression pointer if it holds a question, is a well-formed message in
/// uncompressed form.
pub proof fn lemma_question_only(b: Seq<u8>)
    requires
        b.len() >= DNS_HEADER_SIZE,
        qd_count(b) <= 1,
        an_count(b) == 0,
        ns_count(b) == 0,
        ar_count(b) == 0,
        qd_count(b) == 0 ==> b.len() == DNS_HEADER_SIZE,
        qd_count(b) > 0 ==> question_scan(b, DNS_HEADER_SIZE as int, false) == Ok::<int, DSError>(
            b.len() as int,
        ) && check_plain(b, DNS_HEADER_SIZE as int) is Ok,
    ensures
        message_scan(b, false) is Ok,
        is_plain(b),
{
    let h = DNS_HEADER_SIZE as int;
    if qd_count(b) > 0 {
        lemma_question_shape(b, h, false);
        lemma_walk_plain_end(b, h, 0);
        lemma_plain_walk(b, h, h, DNS_MAX_HOSTNAME_INDIRECTIONS as int, 0);
        let w = name_at(b, h);
        assert(w.name + b.subrange(w.end, w.end + DNS_RR_QUESTION_HEADER_SIZE) =~= b.subrange(
            h,
            b.len() as int,
        ));
    } else {
        assert(b.subrange(h, h) =~= Seq::<u8>::empty());
    }
    let q_end = questions_end(b);
    assert(uncompressed_records(b, q_end, 0) =~= b.subrange(q_end, q_end));
    lemma_assembled(b);
}

} // verus!
