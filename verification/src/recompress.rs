//! What a reader makes of the names that were written with compression:
//! the names that went in, up to the ASCII case of their letters, and
//! exactly those where no name meets another spelling of itself.

use crate::compress::MAX_POINTER_OFFSET;
use crate::compress::SuffixEntry;
use crate::compress::SuffixTable;
use crate::compress::compressed_name;
use crate::compress::header_with_rdlen;
use crate::compress::is_pointer;
use crate::compress::lemma_name_stands_alone;
use crate::compress::lemma_raw_walk_end;
use crate::compress::lower_seq;
use crate::compress::name_at;
use crate::compress::pointer_bytes;
use crate::compress::pointer_target;
use crate::compress::raw_names_eq;
use crate::compress::raw_walk;
use crate::compress::rr_next;
use crate::compress::table_after_name;
use crate::compress::table_hit;
use crate::compress::table_insert;
use crate::compress::table_lookup;
use crate::compress::uncompressed;
use crate::compress::uncompressed_questions;
use crate::compress::uncompressed_records;
use crate::compress::uncompressed_rr;
use crate::compress::walk_from;
use crate::compress::walk_name;
use crate::compress::walk_plain;
use crate::constants::DNS_HEADER_SIZE;
use crate::constants::DNS_MAX_HOSTNAME_INDIRECTIONS;
use crate::constants::DNS_MAX_HOSTNAME_LEN;
use crate::constants::DNS_QUESTION_OFFSET;
use crate::constants::DNS_RR_HEADER_SIZE;
use crate::constants::DNS_RR_QUESTION_HEADER_SIZE;
use crate::constants::Section;
use crate::constants::Type;
use crate::constants::ascii_lower;
use crate::constants::eq_ignore_ascii_case;
use crate::dns_sector::Scan;
use crate::dns_sector::additional_scan;
use crate::dns_sector::an_count;
use crate::dns_sector::answers_scan;
use crate::dns_sector::ar_count;
use crate::dns_sector::lemma_layout;
use crate::dns_sector::lemma_question_shape;
use crate::dns_sector::lemma_records_bounds;
use crate::dns_sector::lemma_rr_scan_seen;
use crate::dns_sector::lemma_rr_shape;
use crate::dns_sector::lemma_section_edns_kept;
use crate::dns_sector::lemma_section_records;
use crate::dns_sector::lemma_strict_scan;
use crate::dns_sector::message_scan;
use crate::dns_sector::nameservers_scan;
use crate::dns_sector::ns_count;
use crate::dns_sector::qd_count;
use crate::dns_sector::questions_end;
use crate::dns_sector::rdata_scan;
use crate::dns_sector::rr_scan;
use crate::dns_sector::section_scan;
use crate::errors::DSError;
use crate::plain::lemma_be16_put;
use crate::plain::lemma_part;
use crate::plain::lemma_part_of_part;
use crate::plain::lemma_root_name;
use crate::plain::lemma_section_no_opt;
use crate::plain::lemma_uncompressed_scan;
use crate::plain::scan_after;
use crate::renamer::DNS_MAX_PACKET_SIZE;
use crate::renamer::Emit;
use crate::renamer::Rename;
use crate::renamer::emit_raw;
use crate::renamer::labels_match;
use crate::renamer::lemma_compressed_len;
use crate::renamer::patch_rdlen;
use crate::renamer::raw_edns;
use crate::renamer::rename_spec;
use crate::renamer::renamed;
use crate::renamer::rewritten;
use crate::renamer::rewritten_name;
use crate::renamer::rewritten_questions;
use crate::renamer::rewritten_rdata;
use crate::renamer::rewritten_records;
use crate::renamer::rewritten_rr;
use crate::wire::be16;
use crate::wire::put_be16;
use vstd::prelude::*;

verus! {

/// Whether `n` is a name without compression and nothing else: labels of
/// at most 63 bytes, each with its length in front, and the final zero.
pub open spec fn label_chain(n: Seq<u8>) -> bool
    decreases n.len(),
{
    if n.len() == 0 {
        false
    } else if n[0] == 0 {
        n.len() == 1
    } else {
        &&& n[0] <= 0x3f
        &&& 1 + n[0] < n.len()
        &&& label_chain(n.subrange(1 + n[0], n.len() as int))
    }
}

/// Whether `a` and `b` are the same bytes up to the ASCII case of letters.
pub open spec fn same_folded(a: Seq<u8>, b: Seq<u8>) -> bool {
    lower_seq(a) == lower_seq(b)
}

/// How the names that are read back are held against the names that were
/// written: up to the ASCII case of letters, or exactly, which is shown of
/// names out of a set in which no name meets another spelling of itself.
pub enum Spelling {
    Folded,
    Exact(Set<Seq<u8>>),
}

/// Whether no name of `names` has another spelling in `names`: two names
/// that are the same up to the ASCII case of letters are the same.
pub open spec fn one_spelling(names: Set<Seq<u8>>) -> bool {
    forall|x: Seq<u8>, y: Seq<u8>|
        #![trigger names.contains(x), names.contains(y)]
        names.contains(x) && names.contains(y) && same_folded(x, y) ==> x == y
}

/// Whether `names` holds, with every name, the name without its first
/// label.
pub open spec fn holds_suffixes(names: Set<Seq<u8>>) -> bool {
    forall|x: Seq<u8>| #[trigger]
        names.contains(x) && x.len() > 0 && x[0] != 0 && 1 + x[0] < x.len() ==> names.contains(
            x.subrange(1 + x[0], x.len() as int),
        )
}

/// Whether the set of names that an exact comparison speaks of is one
/// that an exact comparison can be shown of.
pub open spec fn spelling_ok(exact: Spelling) -> bool {
    exact matches Spelling::Exact(names) ==> one_spelling(names) && holds_suffixes(names)
}

/// Whether `n` is one of the names that an exact comparison speaks of.
pub open spec fn known(exact: Spelling, n: Seq<u8>) -> bool {
    exact matches Spelling::Exact(names) ==> names.contains(n)
}

/// Whether `a` and `b` are the same bytes: exactly, with an exact
/// comparison, and up to the ASCII case of letters without it.
pub open spec fn alike(a: Seq<u8>, b: Seq<u8>, exact: Spelling) -> bool {
    if exact is Exact {
        a == b
    } else {
        same_folded(a, b)
    }
}

/// Whether the bytes of `c` from `o` on spell the name `n`, exactly or up
/// to the ASCII case of letters: label by label, a compression pointer
/// being followed to the lower offset that it refers to.
pub open spec fn spells(c: Seq<u8>, o: int, n: Seq<u8>, exact: Spelling) -> bool
    decreases n.len(), o,
{
    if o < 0 || o >= c.len() || n.len() == 0 {
        false
    } else if is_pointer(c[o]) {
        &&& o + 1 < c.len()
        &&& pointer_target(c[o], c[o + 1]) < o
        &&& spells(c, pointer_target(c[o], c[o + 1]), n, exact)
    } else if c[o] == 0 {
        n.len() == 1 && n[0] == 0
    } else {
        let len = c[o] as int;
        &&& len <= 0x3f
        &&& n[0] == c[o]
        &&& 1 + len < n.len()
        &&& o + 1 + len < c.len()
        &&& alike(c.subrange(o + 1, o + 1 + len), n.subrange(1, 1 + len), exact)
        &&& spells(c, o + 1 + len, n.subrange(1 + len, n.len() as int), exact)
    }
}

/// Where the name that is stored in `c` at `o` ends: behind its first
/// compression pointer, or behind its final zero.
pub open spec fn stored_end(c: Seq<u8>, o: int) -> int
    decreases (if o < c.len() {
        c.len() - o
    } else {
        0
    }),
{
    if o < 0 || o >= c.len() {
        o
    } else if is_pointer(c[o]) {
        o + 2
    } else if c[o] == 0 {
        o + 1
    } else {
        stored_end(c, o + 1 + c[o])
    }
}

/// Bytes that are the same up to case have the same length, and are the
/// same up to case one by one.
pub proof fn lemma_folded(a: Seq<u8>, b: Seq<u8>)
    ensures
        same_folded(a, b) <==> a.len() == b.len() && forall|i: int|
            0 <= i < a.len() ==> ascii_lower(#[trigger] a[i]) == ascii_lower(b[i]),
        same_folded(a, b) <==> eq_ignore_ascii_case(a, b),
{
    reveal(eq_ignore_ascii_case);
    let la = lower_seq(a);
    let lb = lower_seq(b);
    if la == lb {
        assert(a.len() == la.len());
        assert(b.len() == lb.len());
        assert forall|i: int| 0 <= i < a.len() implies ascii_lower(#[trigger] a[i]) == ascii_lower(
            b[i],
        ) by {
            assert(la[i] == lb[i]);
        }
    }
    if a.len() == b.len() && forall|i: int|
        0 <= i < a.len() ==> ascii_lower(#[trigger] a[i]) == ascii_lower(b[i]) {
        assert(la =~= lb);
    }
}

/// Parts of bytes that are the same up to case are the same up to case.
pub proof fn lemma_folded_part(a: Seq<u8>, b: Seq<u8>, i: int, j: int)
    requires
        same_folded(a, b),
        0 <= i <= j <= a.len(),
    ensures
        same_folded(a.subrange(i, j), b.subrange(i, j)),
{
    lemma_folded(a, b);
    assert forall|k: int| 0 <= k < j - i implies ascii_lower(#[trigger] a.subrange(i, j)[k])
        == ascii_lower(b.subrange(i, j)[k]) by {
        assert(a.subrange(i, j)[k] == a[i + k]);
    }
    lemma_folded(a.subrange(i, j), b.subrange(i, j));
}

/// Bytes put together from parts that are the same up to case are the
/// same up to case.
pub proof fn lemma_folded_add(a1: Seq<u8>, a2: Seq<u8>, b1: Seq<u8>, b2: Seq<u8>)
    requires
        same_folded(a1, b1),
        same_folded(a2, b2),
    ensures
        same_folded(a1 + a2, b1 + b2),
{
    lemma_folded(a1, b1);
    lemma_folded(a2, b2);
    assert forall|k: int| 0 <= k < a1.len() + a2.len() implies ascii_lower(
        #[trigger] (a1 + a2)[k],
    ) == ascii_lower((b1 + b2)[k]) by {
        if k < a1.len() {
            assert((a1 + a2)[k] == a1[k]);
            assert((b1 + b2)[k] == b1[k]);
        } else {
            assert((a1 + a2)[k] == a2[k - a1.len()]);
            assert((b1 + b2)[k] == b2[k - a1.len()]);
        }
    }
    lemma_folded(a1 + a2, b1 + b2);
}

/// Bytes are like themselves.
pub proof fn lemma_alike_same(a: Seq<u8>, exact: Spelling)
    ensures
        alike(a, a, exact),
{
}

/// Bytes that are alike have the same length.
pub proof fn lemma_alike_len(a: Seq<u8>, b: Seq<u8>, exact: Spelling)
    requires
        alike(a, b, exact),
    ensures
        a.len() == b.len(),
{
    lemma_folded(a, b);
}

/// Bytes put together from parts that are alike are alike.
pub proof fn lemma_alike_add(a1: Seq<u8>, a2: Seq<u8>, b1: Seq<u8>, b2: Seq<u8>, exact: Spelling)
    requires
        alike(a1, b1, exact),
        alike(a2, b2, exact),
    ensures
        alike(a1 + a2, b1 + b2, exact),
{
    if exact is Folded {
        lemma_folded_add(a1, a2, b1, b2);
    }
}

/// A name that checks as a name without compression, and ends with the
/// bytes, is a chain of labels from wherever the check went on.
pub proof fn lemma_checked_chain(s: Seq<u8>, i: int, name_len: int)
    requires
        0 <= i,
        walk_plain(s, i, name_len) == Ok::<int, DSError>(s.len() as int),
    ensures
        label_chain(s.subrange(i, s.len() as int)),
    decreases s.len() - i,
{
    let t = s.subrange(i, s.len() as int);
    assert(t[0] == s[i]);
    let len = s[i];
    if len != 0 {
        crate::compress::lemma_walk_plain_end(s, i + len + 1, name_len + len + 1);
        lemma_checked_chain(s, i + len + 1, name_len + len + 1);
        assert(t.subrange(1 + len, t.len() as int) =~= s.subrange(i + len + 1, s.len() as int));
    } else {
        assert(t.len() == 1);
    }
}

/// A chain of labels is a raw name.
pub proof fn lemma_chain_raw(n: Seq<u8>)
    requires
        label_chain(n),
    ensures
        raw_walk(n, 0) == Some(n.len() as int),
    decreases n.len(),
{
    if n[0] != 0 {
        let rest = n.subrange(1 + n[0], n.len() as int);
        lemma_chain_raw(rest);
        crate::compress::lemma_raw_walk_suffix(n, 1 + n[0], 0);
    }
}

/// Bytes that are a chain of labels up to case are a chain of labels.
pub proof fn lemma_chain_folded(a: Seq<u8>, b: Seq<u8>)
    requires
        label_chain(a),
        same_folded(a, b),
    ensures
        label_chain(b),
    decreases a.len(),
{
    lemma_folded(a, b);
    assert(ascii_lower(a[0]) == ascii_lower(b[0]));
    if a[0] != 0 {
        lemma_folded_part(a, b, 1 + a[0], a.len() as int);
        lemma_chain_folded(a.subrange(1 + a[0], a.len() as int), b.subrange(1 + a[0], a.len() as int));
    }
}

/// What spells a name up to case spells every name that is the same up
/// to case.
pub proof fn lemma_spells_folded(c: Seq<u8>, o: int, n1: Seq<u8>, n2: Seq<u8>)
    requires
        spells(c, o, n1, Spelling::Folded),
        same_folded(n1, n2),
    ensures
        spells(c, o, n2, Spelling::Folded),
    decreases n1.len(), o,
{
    lemma_folded(n1, n2);
    assert(ascii_lower(n1[0]) == ascii_lower(n2[0]));
    if is_pointer(c[o]) {
        lemma_spells_folded(c, pointer_target(c[o], c[o + 1]), n1, n2);
    } else if c[o] != 0 {
        let len = c[o] as int;
        lemma_folded_part(n1, n2, 1, 1 + len);
        lemma_folded_part(n1, n2, 1 + len, n1.len() as int);
        lemma_spells_folded(
            c,
            o + 1 + len,
            n1.subrange(1 + len, n1.len() as int),
            n2.subrange(1 + len, n1.len() as int),
        );
    }
}

/// A walk that succeeds where the bytes spell a name finds that name,
/// exactly or up to case, and ends where the stored name ends.
pub proof fn lemma_walk_spells(
    c: Seq<u8>,
    offset: int,
    barrier: int,
    lowest: int,
    refs: int,
    name_len: int,
    n: Seq<u8>,
    exact: Spelling,
)
    requires
        walk_from(c, offset, barrier, lowest, refs, name_len) is Ok,
        spells(c, offset, n, exact),
    ensures
        alike(walk_from(c, offset, barrier, lowest, refs, name_len)->Ok_0.name, n, exact),
        walk_from(c, offset, barrier, lowest, refs, name_len)->Ok_0.end == stored_end(c, offset),
    decreases refs, (if offset < barrier {
        barrier - offset
    } else {
        0
    }),
{
    let len = c[offset];
    if is_pointer(len) {
        let target = pointer_target(len, c[offset + 1]);
        lemma_walk_spells(c, target, lowest, target, refs - 1, name_len, n, exact);
    } else if len == 0 {
        assert(n =~= seq![0u8]);
    } else {
        let next = offset + len + 1;
        lemma_walk_spells(
            c,
            next,
            barrier,
            lowest,
            refs,
            name_len + len + 1,
            n.subrange(1 + len, n.len() as int),
            exact,
        );
        let w1 = walk_from(c, next, barrier, lowest, refs, name_len + len + 1)->Ok_0;
        let first = c.subrange(offset, offset + 1);
        let label = c.subrange(offset + 1, next);
        assert(first =~= n.subrange(0, 1));
        lemma_alike_same(first, exact);
        lemma_alike_add(first, label, n.subrange(0, 1), n.subrange(1, 1 + len), exact);
        lemma_alike_add(
            first + label,
            w1.name,
            n.subrange(0, 1) + n.subrange(1, 1 + len),
            n.subrange(1 + len, n.len() as int),
            exact,
        );
        assert(first + label =~= c.subrange(offset, next));
        assert(n.subrange(0, 1) + n.subrange(1, 1 + len) + n.subrange(1 + len, n.len() as int)
            =~= n);
    }
}


/// Whether the entry `e` of a dictionary is true of the message `c`, of
/// which `limit` bytes are taken to be written: what stands at the offset
/// of the entry, before `limit` and where a pointer can refer to, spells
/// the name of the entry. With an exact comparison the name is one of the
/// names that it speaks of.
pub open spec fn entry_ok(c: Seq<u8>, e: SuffixEntry, limit: int, exact: Spelling) -> bool {
    &&& 0 <= e.offset < limit
    &&& e.offset < MAX_POINTER_OFFSET
    &&& spells(c, e.offset, e.name, exact)
    &&& known(exact, e.name)
}

/// Whether the dictionary `t` is true of the message `c`, of which `limit`
/// bytes are taken to be written.
pub open spec fn table_ok(c: Seq<u8>, t: SuffixTable, limit: int, exact: Spelling) -> bool {
    &&& 0 <= t.index
    &&& forall|i: int| 0 <= i < t.entries.len() ==> entry_ok(c, #[trigger] t.entries[i], limit, exact)
}

/// A look into the dictionary that finds an offset finds it in an entry
/// that is as long as the suffix and the same up to case.
pub proof fn lemma_lookup(entries: Seq<SuffixEntry>, suffix: Seq<u8>, i: int) -> (k: int)
    requires
        0 <= i,
        table_lookup(entries, suffix, i) is Some,
        raw_walk(suffix, 0) == Some(suffix.len() as int),
    ensures
        i <= k < entries.len(),
        entries[k].offset == table_lookup(entries, suffix, i)->Some_0,
        same_folded(suffix, entries[k].name),
    decreases entries.len() - i,
{
    if entries[i].name.len() <= suffix.len() && raw_names_eq(suffix, entries[i].name) {
        assert(suffix.subrange(0, suffix.len() as int) =~= suffix);
        assert(entries[i].name.subrange(0, suffix.len() as int) =~= entries[i].name);
        lemma_folded(suffix, entries[i].name);
        i
    } else {
        lemma_lookup(entries, suffix, i + 1)
    }
}

/// The two bytes of a pointer are read as a pointer to the offset that
/// was written.
pub proof fn lemma_pointer(r: int)
    requires
        0 <= r < MAX_POINTER_OFFSET,
    ensures
        pointer_bytes(r).len() == 2,
        is_pointer(pointer_bytes(r)[0]),
        pointer_target(pointer_bytes(r)[0], pointer_bytes(r)[1]) == r,
{
}

/// Every entry of the dictionary after a suffix has been inserted is an
/// entry that it had before, or the suffix at its offset.
pub proof fn lemma_inserted(t: SuffixTable, suffix: Seq<u8>, offset: int)
    requires
        0 <= t.index,
    ensures
        0 <= table_insert(t, suffix, offset).index,
        forall|j: int|
            0 <= j < table_insert(t, suffix, offset).entries.len() ==> {
                ||| (#[trigger] table_insert(t, suffix, offset).entries[j]) == (SuffixEntry {
                    offset,
                    name: suffix,
                }) && offset < MAX_POINTER_OFFSET
                ||| exists|i: int|
                    0 <= i < t.entries.len() && t.entries[i] == table_insert(
                        t,
                        suffix,
                        offset,
                    ).entries[j]
            },
{
    let t2 = table_insert(t, suffix, offset);
    assert forall|j: int| 0 <= j < t2.entries.len() implies {
        ||| (#[trigger] t2.entries[j]) == (SuffixEntry { offset, name: suffix }) && offset
            < MAX_POINTER_OFFSET
        ||| exists|i: int| 0 <= i < t.entries.len() && t.entries[i] == t2.entries[j]
    } by {
        if t2 == t {
            assert(t.entries[j] == t2.entries[j]);
        } else if t.index < t.entries.len() {
            if j != t.index {
                assert(t.entries[j] == t2.entries[j]);
            }
        } else if j < t.entries.len() {
            assert(t.entries[j] == t2.entries[j]);
        }
    }
}

/// A name that was written with compression at `at` of `c`, through a
/// dictionary that is true of `c` but for the entries in `pending`, which
/// are longer than the name: what stands at `at` spells the name and ends
/// where the written bytes end, and the dictionary is then true of `c`
/// but for the same entries. With an exact comparison the name is one of
/// the names that it speaks of, and is spelled exactly.
pub proof fn lemma_written_name(
    t: SuffixTable,
    n: Seq<u8>,
    at: int,
    c: Seq<u8>,
    pending: Set<SuffixEntry>,
    exact: Spelling,
)
    requires
        label_chain(n),
        0 <= at,
        0 <= t.index,
        at + compressed_name(t, n, at).len() <= c.len(),
        c.subrange(at, at + compressed_name(t, n, at).len()) == compressed_name(t, n, at),
        known(exact, n),
        spelling_ok(exact),
        forall|e: SuffixEntry| pending.contains(e) ==> e.name.len() > n.len(),
        forall|i: int|
            0 <= i < t.entries.len() ==> (#[trigger] t.entries[i]).offset < MAX_POINTER_OFFSET && (
            entry_ok(c, t.entries[i], at, exact) || pending.contains(t.entries[i])),
    ensures
        spells(c, at, n, exact),
        stored_end(c, at) == at + compressed_name(t, n, at).len(),
        compressed_name(t, n, at).len() >= 1,
        0 <= table_after_name(t, n, at).index,
        forall|i: int|
            0 <= i < table_after_name(t, n, at).entries.len() ==> (#[trigger] table_after_name(
                t,
                n,
                at,
            ).entries[i]).offset < MAX_POINTER_OFFSET && (entry_ok(
                c,
                table_after_name(t, n, at).entries[i],
                at + compressed_name(t, n, at).len(),
                exact,
            ) || pending.contains(table_after_name(t, n, at).entries[i])),
    decreases n.len(),
{
    let cn = compressed_name(t, n, at);
    let t2 = table_after_name(t, n, at);
    lemma_chain_raw(n);
    match table_hit(t, n, at) {
        Some(r) => {
            let k = lemma_lookup(t.entries, n, 0);
            let e = t.entries[k];
            lemma_folded(n, e.name);
            assert(entry_ok(c, e, at, exact));
            lemma_folded(e.name, n);
            if exact is Exact {
                assert(known(exact, e.name));
                assert(n == e.name);
            } else {
                lemma_spells_folded(c, r, e.name, n);
            }
            lemma_pointer(r);
            assert(cn == pointer_bytes(r));
            assert(c[at] == cn[0]) by {
                assert(c.subrange(at, at + 2)[0] == c[at]);
            }
            assert(c[at + 1] == cn[1]) by {
                assert(c.subrange(at, at + 2)[1] == c[at + 1]);
            }
            assert(t2 == t);
        },
        None => {
            if n[0] == 0 {
                assert(cn =~= seq![0u8]);
                assert(c[at] == 0) by {
                    assert(c.subrange(at, at + 1)[0] == c[at]);
                }
                assert(t2 == t);
            } else {
                let len = n[0] as int;
                let t1 = table_insert(t, n, at);
                let rest = n.subrange(1 + len, n.len() as int);
                let entry = SuffixEntry { offset: at, name: n };
                let pending1 = pending.insert(entry);
                let cr = compressed_name(t1, rest, at + 1 + len);
                assert(cn == n.subrange(0, 1 + len) + cr);
                crate::plain::lemma_part_of_part(c, at, cn, 1 + len, cn.len() as int);
                assert(cn.subrange(1 + len, cn.len() as int) =~= cr);
                lemma_inserted(t, n, at);
                assert forall|i: int| 0 <= i < t1.entries.len() implies (#[trigger] t1.entries[i]).offset
                    < MAX_POINTER_OFFSET && (entry_ok(c, t1.entries[i], at + 1 + len, exact)
                    || pending1.contains(t1.entries[i])) by {
                    if !(t1.entries[i] == entry && at < MAX_POINTER_OFFSET) {
                        let j = choose|j: int|
                            0 <= j < t.entries.len() && t.entries[j] == t1.entries[i];
                        assert(entry_ok(c, t.entries[j], at, exact) || pending.contains(t.entries[j]));
                    }
                }
                assert(known(exact, rest));
                lemma_written_name(t1, rest, at + 1 + len, c, pending1, exact);
                assert(t2 == table_after_name(t1, rest, at + 1 + len));
                assert(c[at] == n[0]) by {
                    assert(c.subrange(at, at + cn.len())[0] == c[at]);
                }
                crate::plain::lemma_part_of_part(c, at, cn, 1, 1 + len);
                assert(cn.subrange(1, 1 + len) =~= n.subrange(1, 1 + len));
                lemma_alike_same(n.subrange(1, 1 + len), exact);
                assert(spells(c, at, n, exact));
                assert forall|i: int| 0 <= i < t2.entries.len() implies (#[trigger] t2.entries[i]).offset
                    < MAX_POINTER_OFFSET && (entry_ok(c, t2.entries[i], at + cn.len(), exact)
                    || pending.contains(t2.entries[i])) by {
                    let e = t2.entries[i];
                    if !entry_ok(c, e, at + 1 + len + cr.len(), exact) {
                        assert(pending1.contains(e));
                    }
                }
            }
        },
    }
}


/// A dictionary that is true of a message stays true while the message
/// grows.
pub proof fn lemma_table_later(c: Seq<u8>, t: SuffixTable, limit: int, later: int, exact: Spelling)
    requires
        table_ok(c, t, limit, exact),
        limit <= later,
    ensures
        table_ok(c, t, later, exact),
{
    assert forall|i: int| 0 <= i < t.entries.len() implies entry_ok(
        c,
        #[trigger] t.entries[i],
        later,
        exact,
    ) by {
        assert(entry_ok(c, t.entries[i], limit, exact));
    }
}

/// Whether the name that the substitution puts in, where there is one, is
/// a chain of labels.
pub open spec fn sub_ok(sub: Option<Rename>) -> bool {
    sub matches Some(s) ==> label_chain(s.target)
}

/// A chain of labels with a chain of labels in the place of what stands
/// in it from one of its labels on is a chain of labels.
pub proof fn lemma_chain_replaced(n: Seq<u8>, target: Seq<u8>, i: int, offset: int)
    requires
        0 <= i <= offset < n.len(),
        label_chain(n.subrange(i, n.len() as int)),
        crate::renamer::boundary_walk(n, i, offset) == offset,
        label_chain(target),
    ensures
        label_chain((n.subrange(0, offset) + target).subrange(i, offset + target.len())),
    decreases offset - i,
{
    let r = n.subrange(0, offset) + target;
    let x = n.subrange(i, n.len() as int);
    let y = r.subrange(i, offset + target.len());
    if i == offset {
        assert(y =~= target);
    } else {
        assert(x[0] == n[i]);
        assert(y[0] == n[i]);
        let next = i + n[i] + 1;
        assert(x.subrange(1 + x[0], x.len() as int) =~= n.subrange(next, n.len() as int));
        lemma_chain_raw(x);
        crate::compress::lemma_raw_walk_suffix(n, i, 0);
        lemma_raw_walk_end(n, next);
        crate::renamer::lemma_boundary_walk(n, next, offset);
        lemma_chain_replaced(n, target, next, offset);
        assert(y.subrange(1 + y[0], y.len() as int) =~= r.subrange(next, offset + target.len()));
    }
}

/// A substitution that puts in a chain of labels gives, for a chain of
/// labels, a chain of labels of at most 255 bytes.
pub proof fn lemma_renamed_chain(n: Seq<u8>, sub: Option<Rename>)
    requires
        label_chain(n),
        n.len() <= DNS_MAX_HOSTNAME_LEN,
        sub_ok(sub),
        renamed(n, sub) is Ok,
    ensures
        label_chain(renamed(n, sub)->Ok_0),
        1 <= renamed(n, sub)->Ok_0.len() <= DNS_MAX_HOSTNAME_LEN,
{
    let r = renamed(n, sub)->Ok_0;
    if r != n {
        let s = sub->Some_0;
        let offset = n.len() - s.source.len();
        lemma_chain_raw(n);
        crate::renamer::lemma_boundary_walk(n, 0, offset);
        assert(n.subrange(0, n.len() as int) =~= n);
        lemma_chain_replaced(n, s.target, 0, offset);
        assert(r.subrange(0, offset + s.target.len()) =~= r);
    }
}

/// Whether the substitution leaves every name as it is, up to case: there
/// is none, or it puts a name in its own place. With an exact comparison
/// that name is one of the names that it speaks of.
pub open spec fn keeps_names(sub: Option<Rename>, exact: Spelling) -> bool {
    sub matches Some(s) ==> s.source == s.target && label_chain(s.target) && known(
        exact,
        s.target,
    )
}

/// The labels of a name that match those of another are the same as
/// those, up to case, byte by byte.
pub proof fn lemma_labels_match(name: Seq<u8>, source: Seq<u8>, i: int, offset: int)
    requires
        0 <= offset <= i,
        raw_walk(name, i) == Some(name.len() as int),
        source.len() == name.len() - offset,
        source[source.len() - 1] == 0,
        labels_match(name, source, i, offset),
    ensures
        forall|k: int|
            i <= k < name.len() ==> ascii_lower(#[trigger] name[k]) == ascii_lower(
                source[k - offset],
            ),
    decreases name.len() - i,
{
    lemma_raw_walk_end(name, i);
    if name[i] != 0 {
        let len = name[i] as int;
        let next = i + 1 + len;
        lemma_raw_walk_end(name, next);
        lemma_labels_match(name, source, next, offset);
        let a = name.subrange(i + 1, next);
        let b = source.subrange(i + 1 - offset, next - offset);
        lemma_folded(a, b);
        assert forall|k: int| i <= k < name.len() implies ascii_lower(#[trigger] name[k])
            == ascii_lower(source[k - offset]) by {
            if i < k < next {
                assert(a[k - i - 1] == name[k]);
                assert(b[k - i - 1] == source[k - offset]);
            }
        }
    }
}

/// With a name that an exact comparison speaks of, it speaks of what
/// stands in the name from any of its labels on.
pub proof fn lemma_known_suffix(exact: Spelling, n: Seq<u8>, i: int, offset: int)
    requires
        exact is Exact,
        spelling_ok(exact),
        0 <= i <= offset < n.len(),
        raw_walk(n, i) == Some(n.len() as int),
        crate::renamer::boundary_walk(n, i, offset) == offset,
        known(exact, n.subrange(i, n.len() as int)),
    ensures
        known(exact, n.subrange(offset, n.len() as int)),
    decreases offset - i,
{
    if i != offset {
        lemma_raw_walk_end(n, i);
        let x = n.subrange(i, n.len() as int);
        assert(x[0] == n[i]);
        let next = i + n[i] + 1;
        lemma_raw_walk_end(n, next);
        crate::renamer::lemma_boundary_walk(n, next, offset);
        assert(x.subrange(1 + x[0], x.len() as int) =~= n.subrange(next, n.len() as int));
        lemma_known_suffix(exact, n, next, offset);
    }
}

/// A substitution that puts a name in its own place gives, for a chain
/// of labels, a chain of labels that is the same up to case; with an
/// exact comparison it gives the name itself.
pub proof fn lemma_renamed_same(n: Seq<u8>, sub: Option<Rename>, exact: Spelling)
    requires
        label_chain(n),
        keeps_names(sub, exact),
        renamed(n, sub) is Ok,
        known(exact, n),
        spelling_ok(exact),
    ensures
        label_chain(renamed(n, sub)->Ok_0),
        same_folded(renamed(n, sub)->Ok_0, n),
        alike(renamed(n, sub)->Ok_0, n, exact),
        known(exact, renamed(n, sub)->Ok_0),
{
    let r = renamed(n, sub)->Ok_0;
    if r != n {
        let s = sub->Some_0;
        let offset = n.len() - s.source.len();
        lemma_chain_raw(n);
        lemma_chain_raw(s.target);
        crate::compress::lemma_raw_name_last(s.target, 0);
        crate::renamer::lemma_boundary_walk(n, 0, offset);
        assert(r == n.subrange(0, offset) + s.target);
        lemma_labels_match(n, s.source, offset, offset);
        assert forall|k: int| 0 <= k < n.len() implies ascii_lower(#[trigger] n[k]) == ascii_lower(
            r[k],
        ) by {
            if k < offset {
                assert(r[k] == n[k]);
            } else {
                assert(r[k] == s.target[k - offset]);
            }
        }
        lemma_folded(n, r);
        lemma_folded(r, n);
        lemma_chain_folded(n, r);
        if exact is Exact {
            assert(n.subrange(0, n.len() as int) =~= n);
            lemma_known_suffix(exact, n, 0, offset);
            let tail = n.subrange(offset, n.len() as int);
            assert(same_folded(tail, s.target)) by {
                lemma_folded_part(n, r, offset, n.len() as int);
                assert(r.subrange(offset, n.len() as int) =~= s.target);
            }
            assert(tail == s.target);
            assert(r =~= n);
        }
    }
}

/// The name that a walk finds is a chain of labels.
pub proof fn lemma_name_chain(b: Seq<u8>, o: int)
    requires
        0 <= o,
        walk_name(b, o) is Ok,
    ensures
        label_chain(name_at(b, o).name),
        1 <= name_at(b, o).name.len() <= DNS_MAX_HOSTNAME_LEN,
{
    let n = name_at(b, o).name;
    lemma_name_stands_alone(b, o);
    lemma_checked_chain(n, 0, 0);
    assert(n.subrange(0, n.len() as int) =~= n);
}

/// The name of `b` at `o`, written with compression to `at` of `c` through
/// a dictionary that is true of `c`, is read from `c` as the name that it
/// was, exactly or up to case, and ends where the written bytes end; the
/// dictionary is then true of `c` up to there.
pub proof fn lemma_name_rewritten(
    t: SuffixTable,
    b: Seq<u8>,
    o: int,
    sub: Option<Rename>,
    at: int,
    c: Seq<u8>,
    exact: Spelling,
)
    requires
        0 <= o,
        0 <= at,
        walk_name(b, o) is Ok,
        walk_name(c, at) is Ok,
        sub_ok(sub),
        known(exact, new_name(b, o, sub)),
        spelling_ok(exact),
        renamed(name_at(b, o).name, sub) is Ok,
        table_ok(c, t, at, exact),
        at + compressed_name(t, renamed(name_at(b, o).name, sub)->Ok_0, at).len() <= c.len(),
        c.subrange(
            at,
            at + compressed_name(t, renamed(name_at(b, o).name, sub)->Ok_0, at).len(),
        ) == compressed_name(t, renamed(name_at(b, o).name, sub)->Ok_0, at),
    ensures
        table_ok(
            c,
            table_after_name(t, renamed(name_at(b, o).name, sub)->Ok_0, at),
            at + compressed_name(t, renamed(name_at(b, o).name, sub)->Ok_0, at).len(),
            exact,
        ),
        alike(name_at(c, at).name, new_name(b, o, sub), exact),
        name_at(c, at).name.len() == new_name(b, o, sub).len(),
        name_at(c, at).end == at + compressed_name(
            t,
            renamed(name_at(b, o).name, sub)->Ok_0,
            at,
        ).len(),
        1 <= compressed_name(t, renamed(name_at(b, o).name, sub)->Ok_0, at).len()
            <= DNS_MAX_HOSTNAME_LEN,
        1 <= new_name(b, o, sub).len() <= DNS_MAX_HOSTNAME_LEN,
{
    let n0 = name_at(b, o).name;
    let n = renamed(n0, sub)->Ok_0;
    let cn = compressed_name(t, n, at);
    let t2 = table_after_name(t, n, at);
    lemma_name_chain(b, o);
    lemma_renamed_chain(n0, sub);
    lemma_chain_raw(n);
    lemma_compressed_len(t, n, at);
    lemma_written_name(t, n, at, c, Set::<SuffixEntry>::empty(), exact);
    assert forall|i: int| 0 <= i < t2.entries.len() implies entry_ok(
        c,
        #[trigger] t2.entries[i],
        at + cn.len(),
        exact,
    ) by {}
    lemma_walk_spells(c, at, c.len() as int, at, DNS_MAX_HOSTNAME_INDIRECTIONS as int, 0, n, exact);
    let nc = name_at(c, at).name;
    lemma_alike_len(nc, n, exact);
}

/// Whether `c` starts with the bytes `out`.
pub open spec fn starts_with(c: Seq<u8>, out: Seq<u8>) -> bool {
    out.len() <= c.len() && c.subrange(0, out.len() as int) == out
}

/// Whether an exact comparison speaks of the names that the data of the
/// record of `b` whose fixed header starts at `p` holds, where it is an
/// NS, CNAME, PTR, MX or SOA record.
pub open spec fn rdata_names_known(
    b: Seq<u8>,
    p: int,
    sub: Option<Rename>,
    exact: Spelling,
) -> bool {
    let rr_type = be16(b, p);
    let d = p + DNS_RR_HEADER_SIZE;
    if rr_type == Type::NS.code() || rr_type == Type::CNAME.code() || rr_type == Type::PTR.code() {
        known(exact, new_name(b, d, sub))
    } else if rr_type == Type::MX.code() {
        known(exact, new_name(b, d + 2, sub))
    } else if rr_type == Type::SOA.code() {
        known(exact, new_name(b, d, sub)) && known(exact, new_name(b, name_at(b, d).end, sub))
    } else {
        true
    }
}

/// Whether an exact comparison speaks of the names of the record of `b`
/// at `o`.
pub open spec fn rr_names_known(b: Seq<u8>, o: int, sub: Option<Rename>, exact: Spelling) -> bool {
    known(exact, new_name(b, o, sub)) && rdata_names_known(b, name_at(b, o).end, sub, exact)
}

/// Whether an exact comparison speaks of the names of the `count` records
/// of `b` that follow each other from `o` on.
pub open spec fn records_names_known(
    b: Seq<u8>,
    o: int,
    count: int,
    sub: Option<Rename>,
    exact: Spelling,
) -> bool
    decreases count,
{
    count <= 0 || exact is Folded || (rr_names_known(b, o, sub, exact) && records_names_known(
        b,
        rr_next(b, o),
        count - 1,
        sub,
        exact,
    ))
}

/// Whether an exact comparison speaks of the names of the well-formed
/// message `b`: the name of its question, the names of its records and
/// the names in the data of its NS, CNAME, PTR, MX and SOA records.
pub open spec fn names_known(b: Seq<u8>, sub: Option<Rename>, exact: Spelling) -> bool {
    &&& qd_count(b) > 0 ==> known(exact, new_name(b, DNS_QUESTION_OFFSET as int, sub))
    &&& records_names_known(b, questions_end(b), an_count(b), sub, exact)
    &&& records_names_known(b, answers_scan(b).offset, ns_count(b), sub, exact)
    &&& records_names_known(b, nameservers_scan(b).offset, ar_count(b), sub, exact)
}

/// Whether no name of the well-formed message `b` meets, once the
/// substitution is made, another spelling of itself: `names` holds every
/// name of the message with the substitution made, with every name the
/// name without its first label, and no two names that differ only in the
/// ASCII case of letters.
pub open spec fn spelled_once(b: Seq<u8>, sub: Option<Rename>, names: Set<Seq<u8>>) -> bool {
    &&& one_spelling(names)
    &&& holds_suffixes(names)
    &&& names_known(b, sub, Spelling::Exact(names))
}

/// `n`, in lower case with `lower`.
pub open spec fn fold(n: Seq<u8>, lower: bool) -> Seq<u8> {
    if lower {
        lower_seq(n)
    } else {
        n
    }
}

/// The name of `b` at `o` after the substitution, where there is one.
pub open spec fn new_name(b: Seq<u8>, o: int, sub: Option<Rename>) -> Seq<u8> {
    renamed(name_at(b, o).name, sub)->Ok_0
}

/// The fixed header and the data of the record of `b` whose name ends at
/// `p`, without compression: the names that the data of an NS, CNAME,
/// PTR, MX or SOA record holds are written out with the substitution
/// made, in lower case with `lower`, and the length of the data is what
/// the data then takes. The data of every other type stays as it is.
pub open spec fn formed_rdata(b: Seq<u8>, p: int, sub: Option<Rename>, lower: bool) -> Seq<u8> {
    let rr_type = be16(b, p);
    let rdlen = be16(b, p + 8);
    let d = p + DNS_RR_HEADER_SIZE;
    if rr_type == Type::NS.code() || rr_type == Type::CNAME.code() || rr_type == Type::PTR.code() {
        let n = new_name(b, d, sub);
        header_with_rdlen(b, p, n.len() as int) + fold(n, lower)
    } else if rr_type == Type::MX.code() {
        let n = new_name(b, d + 2, sub);
        header_with_rdlen(b, p, (2 + n.len()) as int) + b.subrange(d, d + 2) + fold(n, lower)
    } else if rr_type == Type::SOA.code() {
        let n1 = new_name(b, d, sub);
        let m = name_at(b, d).end;
        let n2 = new_name(b, m, sub);
        header_with_rdlen(b, p, (n1.len() + n2.len() + 20) as int) + fold(n1, lower) + fold(
            n2,
            lower,
        ) + b.subrange(name_at(b, m).end, name_at(b, m).end + 20)
    } else {
        b.subrange(p, d + rdlen)
    }
}

/// The record of `b` at `o` without compression, with the substitution
/// made in its names, which are in lower case with `lower`.
pub open spec fn formed_rr(b: Seq<u8>, o: int, sub: Option<Rename>, lower: bool) -> Seq<u8> {
    fold(new_name(b, o, sub), lower) + formed_rdata(b, name_at(b, o).end, sub, lower)
}

/// The `count` records of `b` that follow each other from `o` on, without
/// compression, with the substitution made in their names, which are in
/// lower case with `lower`.
pub open spec fn formed_records(
    b: Seq<u8>,
    o: int,
    count: int,
    sub: Option<Rename>,
    lower: bool,
) -> Seq<u8>
    decreases count,
{
    if count <= 0 {
        Seq::<u8>::empty()
    } else {
        formed_rr(b, o, sub, lower) + formed_records(b, rr_next(b, o), count - 1, sub, lower)
    }
}

/// The question section of `b` without compression, with the
/// substitution made in its name, which is in lower case with `lower`.
pub open spec fn formed_questions(b: Seq<u8>, sub: Option<Rename>, lower: bool) -> Seq<u8> {
    if qd_count(b) > 0 {
        fold(new_name(b, DNS_QUESTION_OFFSET as int, sub), lower) + b.subrange(
            name_at(b, DNS_QUESTION_OFFSET as int).end,
            name_at(b, DNS_QUESTION_OFFSET as int).end + DNS_RR_QUESTION_HEADER_SIZE,
        )
    } else {
        Seq::<u8>::empty()
    }
}

/// The well-formed message `b` without compression and with the
/// substitution made in every name: the name of its question, the names
/// of its records and the names in the data of its NS, CNAME, PTR, MX and
/// SOA records, whose lengths are set to what the data then takes. With
/// `lower` the names are in lower case. Every other byte is the byte of
/// `uncompressed(b)`.
pub open spec fn formed(b: Seq<u8>, sub: Option<Rename>, lower: bool) -> Seq<u8> {
    b.subrange(0, DNS_HEADER_SIZE as int) + formed_questions(b, sub, lower) + formed_records(
        b,
        questions_end(b),
        an_count(b),
        sub,
        lower,
    ) + formed_records(b, answers_scan(b).offset, ns_count(b), sub, lower) + formed_records(
        b,
        nameservers_scan(b).offset,
        ar_count(b),
        sub,
        lower,
    )
}

/// The well-formed message `b` without compression and with every name
/// in lower case. Every other byte is the byte of `uncompressed(b)`.
pub open spec fn lowered(b: Seq<u8>) -> Seq<u8> {
    formed(b, None, true)
}

/// The message without compression and with no substitution is the
/// message without compression.
pub proof fn lemma_formed_records(b: Seq<u8>, o: int, count: int)
    ensures
        formed_records(b, o, count, None, false) == uncompressed_records(b, o, count),
    decreases count,
{
    if count > 0 {
        lemma_formed_records(b, rr_next(b, o), count - 1);
        assert(formed_rr(b, o, None, false) =~= uncompressed_rr(b, o));
    }
}

/// The message without compression and with no substitution is the
/// message without compression.
pub proof fn lemma_formed(b: Seq<u8>)
    ensures
        formed(b, None, false) == uncompressed(b),
{
    lemma_formed_records(b, questions_end(b), an_count(b));
    lemma_formed_records(b, answers_scan(b).offset, ns_count(b));
    lemma_formed_records(b, nameservers_scan(b).offset, ar_count(b));
    assert(formed_questions(b, None, false) =~= crate::compress::uncompressed_questions(b));
}

/// What a record lemma takes for granted: the record of `b` at `o` is
/// accepted, its fixed header and data were written to `e`, whose
/// dictionary is true of `c`, `c` starts with what was written, and the
/// record of `c` at `oc` is accepted and has its name end where `e` ends.
/// An exact comparison speaks of the names in the data of the record of
/// `b`.
pub open spec fn rdata_given(
    e: Emit,
    b: Seq<u8>,
    o: int,
    section: Section,
    sub: Option<Rename>,
    c: Seq<u8>,
    oc: int,
    section_c: Section,
    exact: Spelling,
) -> bool {
    &&& 0 <= o
    &&& 0 <= oc
    &&& sub_ok(sub)
    &&& rdata_names_known(b, name_at(b, o).end, sub, exact)
    &&& spelling_ok(exact)
    &&& rr_scan(b, o, section, false) is Ok
    &&& rr_scan(c, oc, section_c, false) is Ok
    &&& name_at(c, oc).end == e.out.len()
    &&& table_ok(c, e.table, e.out.len() as int, exact)
    &&& rewritten_rdata(e, b, name_at(b, o).end, sub) is Ok
    &&& starts_with(c, rewritten_rdata(e, b, name_at(b, o).end, sub)->Ok_0.out)
}

/// What a record lemma shows: the record of `c` ends where what was
/// written ends, is of the same type and, without compression, has the
/// fixed header and data of the record of `b`, exactly or up to the case
/// of names; and the dictionary is true of `c` up to there.
pub open spec fn rdata_shown(
    e: Emit,
    b: Seq<u8>,
    o: int,
    sub: Option<Rename>,
    c: Seq<u8>,
    oc: int,
    exact: Spelling,
) -> bool {
    let p = name_at(b, o).end;
    let pc = e.out.len() as int;
    let e1 = rewritten_rdata(e, b, p, sub)->Ok_0;
    &&& e1.out.len() == pc + DNS_RR_HEADER_SIZE + be16(c, pc + 8)
    &&& table_ok(c, e1.table, e1.out.len() as int, exact)
    &&& be16(c, pc) == be16(b, p)
    &&& formed_rdata(c, pc, None, exact is Folded) == formed_rdata(b, p, sub, exact is Folded)
}

/// A record whose data holds no name that is looked at.
pub proof fn lemma_rdata_raw(
    e: Emit,
    b: Seq<u8>,
    o: int,
    section: Section,
    sub: Option<Rename>,
    c: Seq<u8>,
    oc: int,
    section_c: Section,
    exact: Spelling,
)
    requires
        rdata_given(e, b, o, section, sub, c, oc, section_c, exact),
        be16(b, name_at(b, o).end) != Type::NS.code(),
        be16(b, name_at(b, o).end) != Type::CNAME.code(),
        be16(b, name_at(b, o).end) != Type::PTR.code(),
        be16(b, name_at(b, o).end) != Type::MX.code(),
        be16(b, name_at(b, o).end) != Type::SOA.code(),
    ensures
        rdata_shown(e, b, o, sub, c, oc, exact),
{
    let p = name_at(b, o).end;
    let pc = e.out.len() as int;
    let d = p + DNS_RR_HEADER_SIZE;
    let rdlen = be16(b, p + 8);
    let e1 = rewritten_rdata(e, b, p, sub)->Ok_0;
    lemma_rr_shape(b, o, section);
    lemma_rr_shape(c, oc, section_c);
    let raw = b.subrange(p, d + rdlen);
    assert(e1.out == e.out + raw);
    assert forall|k: int| 0 <= k < raw.len() implies c[pc + k] == #[trigger] raw[k] by {
        lemma_part(c, 0, e1.out, pc + k);
    }
    assert(raw[0] == b[p] && raw[1] == b[p + 1] && raw[8] == b[p + 8] && raw[9] == b[p + 9]);
    assert(be16(c, pc) == be16(b, p));
    assert(be16(c, pc + 8) == rdlen);
    assert(c.subrange(pc, pc + DNS_RR_HEADER_SIZE + rdlen) =~= raw);
    lemma_table_later(c, e.table, pc, e1.out.len() as int, exact);
}

/// A record whose data is one name: an NS, CNAME or PTR record.
pub proof fn lemma_rdata_name(
    e: Emit,
    b: Seq<u8>,
    o: int,
    section: Section,
    sub: Option<Rename>,
    c: Seq<u8>,
    oc: int,
    section_c: Section,
    exact: Spelling,
)
    requires
        rdata_given(e, b, o, section, sub, c, oc, section_c, exact),
        be16(b, name_at(b, o).end) == Type::NS.code() || be16(b, name_at(b, o).end)
            == Type::CNAME.code() || be16(b, name_at(b, o).end) == Type::PTR.code(),
    ensures
        rdata_shown(e, b, o, sub, c, oc, exact),
{
    let p = name_at(b, o).end;
    let pc = e.out.len() as int;
    let d = p + DNS_RR_HEADER_SIZE;
    let dc = pc + DNS_RR_HEADER_SIZE;
    let e1 = rewritten_rdata(e, b, p, sub)->Ok_0;
    lemma_rr_shape(b, o, section);
    lemma_rr_shape(c, oc, section_c);
    let hdr = b.subrange(p, d);
    let e2 = emit_raw(e, hdr);
    let e3 = rewritten_name(e2, b, d, sub)->Ok_0;
    let n = renamed(name_at(b, d).name, sub)->Ok_0;
    let cn = compressed_name(e.table, n, dc);
    assert(e3.out == e.out + hdr + cn);
    assert(e1 == patch_rdlen(e3, pc));
    assert(walk_name(b, d) is Ok) by {
        reveal(rdata_scan);
    }
    lemma_name_chain(b, d);
    lemma_renamed_chain(name_at(b, d).name, sub);
    lemma_chain_raw(n);
    lemma_compressed_len(e.table, n, dc);
    lemma_be16_put(e3.out, pc + 8, cn.len() as int);
    assert forall|k: int| 0 <= k < 8 implies c[pc + k] == #[trigger] hdr[k] by {
        lemma_part(c, 0, e1.out, pc + k);
    }
    assert(hdr[0] == b[p] && hdr[1] == b[p + 1]);
    assert(be16(c, pc) == be16(b, p));
    assert(be16(c, pc + 8) == cn.len()) by {
        lemma_part(c, 0, e1.out, pc + 8);
        lemma_part(c, 0, e1.out, pc + 9);
    }
    assert(c.subrange(dc, dc + cn.len()) =~= cn) by {
        assert forall|k: int| 0 <= k < cn.len() implies c[dc + k] == #[trigger] cn[k] by {
            lemma_part(c, 0, e1.out, dc + k);
        }
    }
    assert(walk_name(c, dc) is Ok) by {
        reveal(rdata_scan);
    }
    lemma_table_later(c, e.table, pc, dc, exact);
    lemma_name_rewritten(e.table, b, d, sub, dc, c, exact);
    let nb = new_name(b, d, sub);
    let nc = name_at(c, dc).name;
    let len = nb.len() as int;
    assert(header_with_rdlen(c, pc, len) =~= header_with_rdlen(b, p, len)) by {
        assert forall|k: int| 0 <= k < 8 implies c.subrange(pc, dc)[k] == hdr[k] by {}
    }
}


/// A record whose data is a number and a name: an MX record.
pub proof fn lemma_rdata_mx(
    e: Emit,
    b: Seq<u8>,
    o: int,
    section: Section,
    sub: Option<Rename>,
    c: Seq<u8>,
    oc: int,
    section_c: Section,
    exact: Spelling,
)
    requires
        rdata_given(e, b, o, section, sub, c, oc, section_c, exact),
        be16(b, name_at(b, o).end) == Type::MX.code(),
    ensures
        rdata_shown(e, b, o, sub, c, oc, exact),
{
    let p = name_at(b, o).end;
    let pc = e.out.len() as int;
    let d = p + DNS_RR_HEADER_SIZE;
    let dc = pc + DNS_RR_HEADER_SIZE;
    let e1 = rewritten_rdata(e, b, p, sub)->Ok_0;
    lemma_rr_shape(b, o, section);
    lemma_rr_shape(c, oc, section_c);
    let hdr = b.subrange(p, d);
    let pref = b.subrange(d, d + 2);
    let e2 = emit_raw(emit_raw(e, hdr), pref);
    let e3 = rewritten_name(e2, b, d + 2, sub)->Ok_0;
    let n = renamed(name_at(b, d + 2).name, sub)->Ok_0;
    let cn = compressed_name(e.table, n, dc + 2);
    assert(walk_name(b, d + 2) is Ok && d + 2 <= b.len()) by {
        reveal(rdata_scan);
    }
    assert(e3.out == e.out + hdr + pref + cn);
    assert(e1 == patch_rdlen(e3, pc));
    lemma_name_chain(b, d + 2);
    lemma_renamed_chain(name_at(b, d + 2).name, sub);
    lemma_chain_raw(n);
    lemma_compressed_len(e.table, n, dc + 2);
    lemma_be16_put(e3.out, pc + 8, (2 + cn.len()) as int);
    assert forall|k: int| 0 <= k < 8 implies c[pc + k] == #[trigger] hdr[k] by {
        lemma_part(c, 0, e1.out, pc + k);
    }
    assert(hdr[0] == b[p] && hdr[1] == b[p + 1]);
    assert(be16(c, pc) == be16(b, p));
    assert(be16(c, pc + 8) == 2 + cn.len()) by {
        lemma_part(c, 0, e1.out, pc + 8);
        lemma_part(c, 0, e1.out, pc + 9);
    }
    assert(c.subrange(dc, dc + 2) =~= pref) by {
        assert forall|k: int| 0 <= k < 2 implies c[dc + k] == #[trigger] pref[k] by {
            lemma_part(c, 0, e1.out, dc + k);
        }
    }
    assert(c.subrange(dc + 2, dc + 2 + cn.len()) =~= cn) by {
        assert forall|k: int| 0 <= k < cn.len() implies c[dc + 2 + k] == #[trigger] cn[k] by {
            lemma_part(c, 0, e1.out, dc + 2 + k);
        }
    }
    assert(walk_name(c, dc + 2) is Ok) by {
        reveal(rdata_scan);
    }
    lemma_table_later(c, e.table, pc, dc + 2, exact);
    lemma_name_rewritten(e.table, b, d + 2, sub, dc + 2, c, exact);
    let nb = new_name(b, d + 2, sub);
    let nc = name_at(c, dc + 2).name;
    let len = (2 + nb.len()) as int;
    assert(header_with_rdlen(c, pc, len) =~= header_with_rdlen(b, p, len)) by {
        assert forall|k: int| 0 <= k < 8 implies c.subrange(pc, dc)[k] == hdr[k] by {}
    }
}

/// A record whose data is two names and five numbers: an SOA record.
pub proof fn lemma_rdata_soa(
    e: Emit,
    b: Seq<u8>,
    o: int,
    section: Section,
    sub: Option<Rename>,
    c: Seq<u8>,
    oc: int,
    section_c: Section,
    exact: Spelling,
)
    requires
        rdata_given(e, b, o, section, sub, c, oc, section_c, exact),
        be16(b, name_at(b, o).end) == Type::SOA.code(),
    ensures
        rdata_shown(e, b, o, sub, c, oc, exact),
{
    let p = name_at(b, o).end;
    let pc = e.out.len() as int;
    let d = p + DNS_RR_HEADER_SIZE;
    let dc = pc + DNS_RR_HEADER_SIZE;
    let e1 = rewritten_rdata(e, b, p, sub)->Ok_0;
    lemma_rr_shape(b, o, section);
    lemma_rr_shape(c, oc, section_c);
    let hdr = b.subrange(p, d);
    let eh = emit_raw(e, hdr);
    let e2 = rewritten_name(eh, b, d, sub)->Ok_0;
    let m = name_at(b, d).end;
    let e3 = rewritten_name(e2, b, m, sub)->Ok_0;
    let tail_at = name_at(b, m).end;
    let tail = b.subrange(tail_at, tail_at + 20);
    assert(walk_name(b, d) is Ok && walk_name(b, m) is Ok && d < m < tail_at && tail_at + 20
        <= b.len()) by {
        reveal(rdata_scan);
        crate::compress::lemma_walk_from_ok(
            b,
            d,
            b.len() as int,
            d,
            DNS_MAX_HOSTNAME_INDIRECTIONS as int,
            0,
        );
        crate::compress::lemma_walk_from_ok(
            b,
            m,
            b.len() as int,
            m,
            DNS_MAX_HOSTNAME_INDIRECTIONS as int,
            0,
        );
    }
    let n1 = renamed(name_at(b, d).name, sub)->Ok_0;
    let n2 = renamed(name_at(b, m).name, sub)->Ok_0;
    let cn1 = compressed_name(e.table, n1, dc);
    let t1 = table_after_name(e.table, n1, dc);
    let mc = dc + cn1.len();
    let cn2 = compressed_name(t1, n2, mc);
    assert(e2.out == e.out + hdr + cn1);
    assert(e3.out == e.out + hdr + cn1 + cn2);
    assert(e1 == patch_rdlen(emit_raw(e3, tail), pc));
    lemma_name_chain(b, d);
    lemma_name_chain(b, m);
    lemma_renamed_chain(name_at(b, d).name, sub);
    lemma_renamed_chain(name_at(b, m).name, sub);
    lemma_chain_raw(n1);
    lemma_chain_raw(n2);
    lemma_compressed_len(e.table, n1, dc);
    lemma_compressed_len(t1, n2, mc);
    let written = e.out + hdr + cn1 + cn2 + tail;
    assert(tail.len() == 20);
    assert(emit_raw(e3, tail).out == written);
    assert(written.len() - pc - DNS_RR_HEADER_SIZE == cn1.len() + cn2.len() + 20);
    assert(e1.out == put_be16(written, pc + 8, (cn1.len() + cn2.len() + 20) as int));
    lemma_be16_put(written, pc + 8, (cn1.len() + cn2.len() + 20) as int);
    assert forall|k: int| 0 <= k < 8 implies c[pc + k] == #[trigger] hdr[k] by {
        lemma_part(c, 0, e1.out, pc + k);
    }
    assert(hdr[0] == b[p] && hdr[1] == b[p + 1]);
    assert(be16(c, pc) == be16(b, p));
    assert(be16(c, pc + 8) == cn1.len() + cn2.len() + 20) by {
        lemma_part(c, 0, e1.out, pc + 8);
        lemma_part(c, 0, e1.out, pc + 9);
    }
    assert(c.subrange(dc, dc + cn1.len()) =~= cn1) by {
        assert forall|k: int| 0 <= k < cn1.len() implies c[dc + k] == #[trigger] cn1[k] by {
            lemma_part(c, 0, e1.out, dc + k);
        }
    }
    assert(c.subrange(mc, mc + cn2.len()) =~= cn2) by {
        assert forall|k: int| 0 <= k < cn2.len() implies c[mc + k] == #[trigger] cn2[k] by {
            lemma_part(c, 0, e1.out, mc + k);
        }
    }
    assert(c.subrange(mc + cn2.len(), mc + cn2.len() + 20) =~= tail) by {
        assert forall|k: int| 0 <= k < 20 implies c[mc + cn2.len() + k] == #[trigger] tail[k] by {
            lemma_part(c, 0, e1.out, mc + cn2.len() + k);
        }
    }
    assert(walk_name(c, dc) is Ok && walk_name(c, name_at(c, dc).end) is Ok) by {
        reveal(rdata_scan);
    }
    lemma_table_later(c, e.table, pc, dc, exact);
    lemma_name_rewritten(e.table, b, d, sub, dc, c, exact);
    assert(name_at(c, dc).end == mc);
    lemma_name_rewritten(t1, b, m, sub, mc, c, exact);
    let nb1 = new_name(b, d, sub);
    let nc1 = name_at(c, dc).name;
    let nb2 = new_name(b, m, sub);
    let nc2 = name_at(c, mc).name;
    let len = (nb1.len() + nb2.len() + 20) as int;
    assert(header_with_rdlen(c, pc, len) =~= header_with_rdlen(b, p, len)) by {
        assert forall|k: int| 0 <= k < 8 implies c.subrange(pc, dc)[k] == hdr[k] by {}
    }
}

/// The fixed header and the data of a record that was written with
/// compression are read back as they were, up to the case of names.
pub proof fn lemma_rdata_rewritten(
    e: Emit,
    b: Seq<u8>,
    o: int,
    section: Section,
    sub: Option<Rename>,
    c: Seq<u8>,
    oc: int,
    section_c: Section,
    exact: Spelling,
)
    requires
        rdata_given(e, b, o, section, sub, c, oc, section_c, exact),
    ensures
        rdata_shown(e, b, o, sub, c, oc, exact),
{
    let rr_type = be16(b, name_at(b, o).end);
    if rr_type == Type::NS.code() || rr_type == Type::CNAME.code() || rr_type == Type::PTR.code() {
        lemma_rdata_name(e, b, o, section, sub, c, oc, section_c, exact);
    } else if rr_type == Type::MX.code() {
        lemma_rdata_mx(e, b, o, section, sub, c, oc, section_c, exact);
    } else if rr_type == Type::SOA.code() {
        lemma_rdata_soa(e, b, o, section, sub, c, oc, section_c, exact);
    } else {
        lemma_rdata_raw(e, b, o, section, sub, c, oc, section_c, exact);
    }
}


/// What is written for the fixed header and the data of a record stands
/// behind what was written before, which stays as it was.
pub proof fn lemma_rdata_extends(
    e: Emit,
    b: Seq<u8>,
    o: int,
    section: Section,
    sub: Option<Rename>,
)
    requires
        0 <= o,
        rr_scan(b, o, section, false) is Ok,
        rewritten_rdata(e, b, name_at(b, o).end, sub) is Ok,
    ensures
        rewritten_rdata(e, b, name_at(b, o).end, sub)->Ok_0.out.len() >= e.out.len()
            + DNS_RR_HEADER_SIZE,
        rewritten_rdata(e, b, name_at(b, o).end, sub)->Ok_0.out.subrange(0, e.out.len() as int)
            == e.out,
{
    let p = name_at(b, o).end;
    let d = p + DNS_RR_HEADER_SIZE;
    let e1 = rewritten_rdata(e, b, p, sub)->Ok_0;
    lemma_rr_shape(b, o, section);
    let hdr = b.subrange(p, d);
    let rr_type = be16(b, p);
    assert(hdr.len() == DNS_RR_HEADER_SIZE);
    if rr_type == Type::NS.code() || rr_type == Type::CNAME.code() || rr_type == Type::PTR.code() {
        let e3 = rewritten_name(emit_raw(e, hdr), b, d, sub)->Ok_0;
        assert(e3.out.len() >= e.out.len() + hdr.len());
        assert(e1.out == patch_rdlen(e3, e.out.len() as int).out);
        assert(e1.out.subrange(0, e.out.len() as int) =~= e.out);
    } else if rr_type == Type::MX.code() {
        let e3 = rewritten_name(emit_raw(emit_raw(e, hdr), b.subrange(d, d + 2)), b, d + 2, sub)->Ok_0;
        assert(e3.out.len() >= e.out.len() + hdr.len());
        assert(e1.out == patch_rdlen(e3, e.out.len() as int).out);
        assert(e1.out.subrange(0, e.out.len() as int) =~= e.out);
    } else if rr_type == Type::SOA.code() {
        let e2 = rewritten_name(emit_raw(e, hdr), b, d, sub)->Ok_0;
        let e3 = rewritten_name(e2, b, name_at(b, d).end, sub)->Ok_0;
        let tail_at = name_at(b, name_at(b, d).end).end;
        let e4 = emit_raw(e3, b.subrange(tail_at, tail_at + 20));
        assert(e4.out.len() >= e.out.len() + hdr.len());
        assert(e1.out == patch_rdlen(e4, e.out.len() as int).out);
        assert(e1.out.subrange(0, e.out.len() as int) =~= e.out);
    } else {
        assert(e1.out.subrange(0, e.out.len() as int) =~= e.out);
    }
}

/// What is written for a record stands behind what was written before,
/// which stays as it was.
pub proof fn lemma_rr_extends(e: Emit, b: Seq<u8>, o: int, section: Section, sub: Option<Rename>)
    requires
        0 <= o,
        rr_scan(b, o, section, false) is Ok,
        rewritten_rr(e, b, o, sub) is Ok,
    ensures
        rewritten_rr(e, b, o, sub)->Ok_0.out.len() > e.out.len(),
        rewritten_rr(e, b, o, sub)->Ok_0.out.subrange(0, e.out.len() as int) == e.out,
{
    let e1 = rewritten_name(e, b, o, sub)->Ok_0;
    let e2 = rewritten_rr(e, b, o, sub)->Ok_0;
    lemma_rdata_extends(e1, b, o, section, sub);
    assert(e2.out.subrange(0, e.out.len() as int) =~= e1.out.subrange(0, e.out.len() as int));
    assert(e1.out.subrange(0, e.out.len() as int) =~= e.out);
}

/// What is written for the records of a section stands behind what was
/// written before, which stays as it was.
pub proof fn lemma_records_extend(
    e: Emit,
    b: Seq<u8>,
    st: Scan,
    count: int,
    section: Section,
    sub: Option<Rename>,
)
    requires
        0 <= st.offset,
        section_scan(b, st, count, section) is Ok,
        rewritten_records(e, b, st.offset, count, sub, false) is Ok,
    ensures
        rewritten_records(e, b, st.offset, count, sub, false)->Ok_0.out.len() >= e.out.len(),
        rewritten_records(e, b, st.offset, count, sub, false)->Ok_0.out.subrange(
            0,
            e.out.len() as int,
        ) == e.out,
    decreases count,
{
    if count > 0 {
        let o = st.offset;
        lemma_rr_scan_seen(b, o, section);
        lemma_rr_shape(b, o, section);
        lemma_rr_extends(e, b, o, section, sub);
        let e1 = rewritten_rr(e, b, o, sub)->Ok_0;
        let e2 = rewritten_records(e, b, o, count, sub, false)->Ok_0;
        lemma_records_extend(e1, b, scan_after(st, b, section), count - 1, section, sub);
        assert(e2.out.subrange(0, e.out.len() as int) =~= e1.out.subrange(0, e.out.len() as int));
    } else {
        assert(e.out.subrange(0, e.out.len() as int) =~= e.out);
    }
}

/// A record that was written with compression is read back as it was, up
/// to the case of names: the record of `c` ends where what was written
/// ends, and without compression it is the record of `b` without
/// compression.
pub proof fn lemma_rr_rewritten(
    e: Emit,
    b: Seq<u8>,
    o: int,
    section: Section,
    sub: Option<Rename>,
    c: Seq<u8>,
    section_c: Section,
    exact: Spelling,
)
    requires
        0 <= o,
        sub_ok(sub),
        rr_names_known(b, o, sub, exact),
        spelling_ok(exact),
        rr_scan(b, o, section, false) is Ok,
        rr_scan(c, e.out.len() as int, section_c, false) is Ok,
        table_ok(c, e.table, e.out.len() as int, exact),
        rewritten_rr(e, b, o, sub) is Ok,
        starts_with(c, rewritten_rr(e, b, o, sub)->Ok_0.out),
    ensures
        rr_next(c, e.out.len() as int) == rewritten_rr(e, b, o, sub)->Ok_0.out.len(),
        table_ok(
            c,
            rewritten_rr(e, b, o, sub)->Ok_0.table,
            rewritten_rr(e, b, o, sub)->Ok_0.out.len() as int,
            exact,
        ),
        formed_rr(c, e.out.len() as int, None, exact is Folded) == formed_rr(b, o, sub, exact is Folded),
{
    let oc = e.out.len() as int;
    let p = name_at(b, o).end;
    let n = renamed(name_at(b, o).name, sub)->Ok_0;
    let cn = compressed_name(e.table, n, oc);
    let e1 = rewritten_name(e, b, o, sub)->Ok_0;
    let e2 = rewritten_rr(e, b, o, sub)->Ok_0;
    lemma_rr_shape(b, o, section);
    lemma_rr_shape(c, oc, section_c);
    lemma_rdata_extends(e1, b, o, section, sub);
    assert(e1.out == e.out + cn);
    assert(c.subrange(oc, oc + cn.len()) =~= cn) by {
        assert forall|k: int| 0 <= k < cn.len() implies c[oc + k] == #[trigger] cn[k] by {
            lemma_part(c, 0, e2.out, oc + k);
            lemma_part(e2.out, 0, e1.out, oc + k);
        }
    }
    lemma_name_rewritten(e.table, b, o, sub, oc, c, exact);
    assert(rdata_given(e1, b, o, section, sub, c, oc, section_c, exact));
    lemma_rdata_rewritten(e1, b, o, section, sub, c, oc, section_c, exact);
}

/// The records of a section that were written with compression are read
/// back as they were, up to the case of names: the section of `c` ends
/// where what was written ends, and without compression its records are
/// the records of `b` without compression.
pub proof fn lemma_records_rewritten(
    e: Emit,
    b: Seq<u8>,
    st: Scan,
    count: int,
    section: Section,
    sub: Option<Rename>,
    c: Seq<u8>,
    st_c: Scan,
    section_c: Section,
    exact: Spelling,
)
    requires
        0 <= st.offset,
        sub_ok(sub),
        records_names_known(b, st.offset, count, sub, exact),
        spelling_ok(exact),
        st_c.offset == e.out.len(),
        section_scan(b, st, count, section) is Ok,
        section_scan(c, st_c, count, section_c) is Ok,
        table_ok(c, e.table, e.out.len() as int, exact),
        rewritten_records(e, b, st.offset, count, sub, false) is Ok,
        starts_with(c, rewritten_records(e, b, st.offset, count, sub, false)->Ok_0.out),
    ensures
        section_scan(c, st_c, count, section_c)->Ok_0.offset == rewritten_records(
            e,
            b,
            st.offset,
            count,
            sub,
            false,
        )->Ok_0.out.len(),
        table_ok(
            c,
            rewritten_records(e, b, st.offset, count, sub, false)->Ok_0.table,
            rewritten_records(e, b, st.offset, count, sub, false)->Ok_0.out.len() as int,
            exact,
        ),
        formed_records(c, st_c.offset, count, None, exact is Folded) == formed_records(b, st.offset, count, sub, exact is Folded),
    decreases count,
{
    if count > 0 {
        let o = st.offset;
        let oc = st_c.offset;
        lemma_rr_scan_seen(b, o, section);
        lemma_rr_scan_seen(c, oc, section_c);
        lemma_rr_shape(b, o, section);
        lemma_rr_shape(c, oc, section_c);
        let e1 = rewritten_rr(e, b, o, sub)->Ok_0;
        let e2 = rewritten_records(e, b, o, count, sub, false)->Ok_0;
        let next = scan_after(st, b, section);
        let next_c = scan_after(st_c, c, section_c);
        lemma_records_extend(e1, b, next, count - 1, section, sub);
        assert(starts_with(c, e1.out)) by {
            assert(c.subrange(0, e1.out.len() as int) =~= e2.out.subrange(0, e1.out.len() as int));
        }
        lemma_rr_rewritten(e, b, o, section, sub, c, section_c, exact);
        lemma_records_rewritten(e1, b, next, count - 1, section, sub, c, next_c, section_c, exact);
    } else {
    }
}


/// The header of `b` with an empty dictionary: what the writing of a
/// message starts from.
pub open spec fn emit_start(b: Seq<u8>) -> Emit {
    Emit {
        out: b.subrange(0, DNS_HEADER_SIZE as int),
        table: SuffixTable { entries: Seq::empty(), index: 0 },
    }
}

/// The question of a message that was written with compression is read
/// back as it was, up to the case of its name.
pub proof fn lemma_question_rewritten(b: Seq<u8>, sub: Option<Rename>, c: Seq<u8>, exact: Spelling)
    requires
        sub_ok(sub),
        qd_count(b) > 0 ==> known(exact, new_name(b, DNS_QUESTION_OFFSET as int, sub)),
        spelling_ok(exact),
        message_scan(b, false) is Ok,
        message_scan(c, false) is Ok,
        qd_count(c) == qd_count(b),
        rewritten_questions(emit_start(b), b, sub) is Ok,
        starts_with(c, rewritten_questions(emit_start(b), b, sub)->Ok_0.out),
    ensures
        questions_end(c) == rewritten_questions(emit_start(b), b, sub)->Ok_0.out.len(),
        table_ok(
            c,
            rewritten_questions(emit_start(b), b, sub)->Ok_0.table,
            rewritten_questions(emit_start(b), b, sub)->Ok_0.out.len() as int,
            exact,
        ),
        formed_questions(c, None, exact is Folded) == formed_questions(b, sub, exact is Folded),
{
    let e0 = emit_start(b);
    let e2 = rewritten_questions(e0, b, sub)->Ok_0;
    let o = DNS_QUESTION_OFFSET as int;
    lemma_layout(b);
    lemma_layout(c);
    assert(e0.out.len() == DNS_HEADER_SIZE);
    if qd_count(b) > 0 {
        lemma_question_shape(b, o, false);
        lemma_question_shape(c, o, false);
        let n = renamed(name_at(b, o).name, sub)->Ok_0;
        let cn = compressed_name(e0.table, n, o);
        let e1 = rewritten_name(e0, b, o, sub)->Ok_0;
        let p = name_at(b, o).end;
        let tail = b.subrange(p, p + DNS_RR_QUESTION_HEADER_SIZE);
        assert(e1.out == e0.out + cn);
        assert(e2.out == e0.out + cn + tail);
        assert(c.subrange(o, o + cn.len()) =~= cn) by {
            assert forall|k: int| 0 <= k < cn.len() implies c[o + k] == #[trigger] cn[k] by {
                lemma_part(c, 0, e2.out, o + k);
            }
        }
        lemma_name_rewritten(e0.table, b, o, sub, o, c, exact);
        let pc = name_at(c, o).end;
        assert(c.subrange(pc, pc + DNS_RR_QUESTION_HEADER_SIZE) =~= tail) by {
            assert forall|k: int| 0 <= k < 4 implies c[pc + k] == #[trigger] tail[k] by {
                lemma_part(c, 0, e2.out, pc + k);
            }
        }
        lemma_table_later(c, e1.table, pc, e2.out.len() as int, exact);
    } else {
    }
}

/// A message that was written again with compression, its names left as
/// they were, and that is accepted, is the message that it was once both
/// are written without compression, up to the case of the letters of
/// names that the dictionary found in another case.
pub proof fn lemma_rewritten(b: Seq<u8>, sub: Option<Rename>, exact: Spelling)
    requires
        sub_ok(sub),
        names_known(b, sub, exact),
        spelling_ok(exact),
        message_scan(b, false) is Ok,
        rewritten(b, sub, false, None) is Ok,
        message_scan(rewritten(b, sub, false, None)->Ok_0, false) is Ok,
    ensures
        formed(rewritten(b, sub, false, None)->Ok_0, None, exact is Folded) == formed(
            b,
            sub,
            exact is Folded,
        ),
        rewritten(b, sub, false, None)->Ok_0.subrange(0, DNS_HEADER_SIZE as int) == b.subrange(
            0,
            DNS_HEADER_SIZE as int,
        ),
{
    let c = rewritten(b, sub, false, None)->Ok_0;
    let e0 = emit_start(b);
    let e1 = rewritten_questions(e0, b, sub)->Ok_0;
    let st_q = Scan { offset: questions_end(b), edns: None };
    let st_a = answers_scan(b);
    let st_n = nameservers_scan(b);
    let e2 = rewritten_records(e1, b, st_q.offset, an_count(b), sub, false)->Ok_0;
    let e3 = rewritten_records(e2, b, st_a.offset, ns_count(b), sub, false)->Ok_0;
    let e4 = rewritten_records(e3, b, st_n.offset, ar_count(b), sub, false)->Ok_0;
    assert(c == e4.out);
    lemma_layout(b);
    lemma_layout(c);
    lemma_records_extend(e3, b, st_n, ar_count(b), Section::Additional, sub);
    lemma_records_extend(e2, b, st_a, ns_count(b), Section::NameServers, sub);
    lemma_records_extend(e1, b, st_q, an_count(b), Section::Answer, sub);
    assert(c.subrange(0, c.len() as int) =~= c);
    assert(starts_with(c, e4.out));
    assert(starts_with(c, e3.out));
    assert(starts_with(c, e2.out)) by {
        assert(c.subrange(0, e2.out.len() as int) =~= e3.out.subrange(0, e2.out.len() as int));
    }
    assert(starts_with(c, e1.out)) by {
        assert(c.subrange(0, e1.out.len() as int) =~= e2.out.subrange(0, e1.out.len() as int));
    }
    assert(e1.out.len() >= DNS_HEADER_SIZE && e1.out.subrange(0, DNS_HEADER_SIZE as int)
        =~= e0.out);
    let h = b.subrange(0, DNS_HEADER_SIZE as int);
    assert(c.subrange(0, DNS_HEADER_SIZE as int) =~= h) by {
        assert forall|k: int| 0 <= k < 12 implies c[k] == #[trigger] h[k] by {
            lemma_part(c, 0, e1.out, k);
            lemma_part(e1.out, 0, e0.out, k);
        }
    }
    assert forall|k: int| 0 <= k < 12 implies c[k] == b[k] by {
        assert(c.subrange(0, DNS_HEADER_SIZE as int)[k] == h[k]);
    }
    lemma_question_rewritten(b, sub, c, exact);
    let st_qc = Scan { offset: questions_end(c), edns: None };
    lemma_records_rewritten(
        e1,
        b,
        st_q,
        an_count(b),
        Section::Answer,
        sub,
        c,
        st_qc,
        Section::Answer,
        exact,
    );
    lemma_records_rewritten(
        e2,
        b,
        st_a,
        ns_count(b),
        Section::NameServers,
        sub,
        c,
        answers_scan(c),
        Section::NameServers,
        exact,
    );
    lemma_records_rewritten(
        e3,
        b,
        st_n,
        ar_count(b),
        Section::Additional,
        sub,
        c,
        nameservers_scan(c),
        Section::Additional,
        exact,
    );
    let qb = uncompressed_questions(b);
    let qc = uncompressed_questions(c);
    let ab = uncompressed_records(b, questions_end(b), an_count(b));
    let ac = uncompressed_records(c, questions_end(c), an_count(c));
    let nb = uncompressed_records(b, answers_scan(b).offset, ns_count(b));
    let nc = uncompressed_records(c, answers_scan(c).offset, ns_count(c));
    let rb = uncompressed_records(b, nameservers_scan(b).offset, ar_count(b));
    let rc = uncompressed_records(c, nameservers_scan(c).offset, ar_count(c));
}


/// A record that is accepted where no OPT record has been seen is one
/// if and only if its type says so; an OPT record has the root as its
/// name, and its options start behind its fixed header and end with it.
pub proof fn lemma_opt_record(b: Seq<u8>, o: int, section: Section)
    requires
        0 <= o,
        rr_scan(b, o, section, false) is Ok,
    ensures
        rr_scan(b, o, section, false)->Ok_0.opt is Some <==> be16(b, name_at(b, o).end)
            == Type::OPT.code(),
        rr_scan(b, o, section, false)->Ok_0.opt matches Some(info) ==> {
            &&& name_at(b, o).end == o + 1
            &&& name_at(b, o).name == seq![0u8]
            &&& b[o] == 0
            &&& info.start == o + 1 + DNS_RR_HEADER_SIZE
            &&& info.end == rr_scan(b, o, section, false)->Ok_0.next
        },
{
    reveal(rdata_scan);
    lemma_rr_shape(b, o, section);
    if rr_scan(b, o, section, false)->Ok_0.opt is Some {
        lemma_root_name(b, o);
        let len = b[o];
        if !is_pointer(len) && len != 0 {
            crate::compress::lemma_walk_from_ok(
                b,
                o + len + 1,
                b.len() as int,
                o,
                DNS_MAX_HOSTNAME_INDIRECTIONS as int,
                len + 1,
            );
        }
    }
}

/// Where the records of a section hold no OPT record, none is left out
/// when they are written again.
pub proof fn lemma_unskipped(
    e: Emit,
    b: Seq<u8>,
    st: Scan,
    count: int,
    section: Section,
    sub: Option<Rename>,
)
    requires
        0 <= st.offset,
        st.edns is None,
        section_scan(b, st, count, section) is Ok,
        section_scan(b, st, count, section)->Ok_0.edns is None,
    ensures
        rewritten_records(e, b, st.offset, count, sub, true) == rewritten_records(
            e,
            b,
            st.offset,
            count,
            sub,
            false,
        ),
    decreases count,
{
    if count > 0 {
        let o = st.offset;
        lemma_rr_shape(b, o, section);
        lemma_opt_record(b, o, section);
        let next = scan_after(st, b, section);
        if next.edns is Some {
            lemma_section_edns_kept(b, next, count - 1, section);
        } else if rewritten_rr(e, b, o, sub) is Ok {
            lemma_unskipped(rewritten_rr(e, b, o, sub)->Ok_0, b, next, count - 1, section, sub);
        }
    }
}

/// Where the OPT record is the last record of the additional section,
/// to leave it out and put it behind the others as it is gives what
/// writing it in its place gives.
pub proof fn lemma_opt_last(e: Emit, b: Seq<u8>, st: Scan, count: int, sub: Option<Rename>)
    requires
        0 <= st.offset <= b.len(),
        b.len() <= usize::MAX,
        st.edns is None,
        section_scan(b, st, count, Section::Additional) is Ok,
        section_scan(b, st, count, Section::Additional)->Ok_0.edns matches Some(info)
            && info.end == section_scan(b, st, count, Section::Additional)->Ok_0.offset,
        renamed(seq![0u8], sub) == Ok::<Seq<u8>, DSError>(seq![0u8]),
        rewritten_records(e, b, st.offset, count, sub, true) is Ok,
        rewritten_records(e, b, st.offset, count, sub, true)->Ok_0.out.len()
            <= DNS_MAX_PACKET_SIZE,
    ensures
        rewritten_records(e, b, st.offset, count, sub, false) == Ok::<Emit, DSError>(
            emit_raw(
                rewritten_records(e, b, st.offset, count, sub, true)->Ok_0,
                raw_edns(
                    b,
                    Some(
                        section_scan(
                            b,
                            st,
                            count,
                            Section::Additional,
                        )->Ok_0.edns->Some_0.start as usize,
                    ),
                ),
            ),
        ),
    decreases count,
{
    let section = Section::Additional;
    let o = st.offset;
    let fin = section_scan(b, st, count, section)->Ok_0;
    lemma_rr_shape(b, o, section);
    lemma_opt_record(b, o, section);
    let r = rr_scan(b, o, section, false)->Ok_0;
    let next = scan_after(st, b, section);
    if r.opt is Some {
        lemma_section_edns_kept(b, next, count - 1, section);
        lemma_section_records(b, next, count - 1, section);
        lemma_records_bounds(b, next.offset, count - 1, section, fin.offset);
        assert(count == 1);
        let p = o + 1;
        let d = p + DNS_RR_HEADER_SIZE;
        let rdlen = be16(b, p + 8);
        let start = fin.edns->Some_0.start;
        assert(start == d);
        assert(rewritten_records(e, b, rr_next(b, o), 0, sub, true) == Ok::<Emit, DSError>(e));
        assert(rewritten_records(e, b, o, count, sub, true) == Ok::<Emit, DSError>(e));
        let cn = compressed_name(e.table, seq![0u8], e.out.len() as int);
        assert(cn =~= seq![0u8]);
        assert(table_after_name(e.table, seq![0u8], e.out.len() as int) == e.table);
        let e1 = rewritten_name(e, b, o, sub)->Ok_0;
        assert(e1 == Emit { out: e.out + cn, table: e.table });
        let e2 = rewritten_rr(e, b, o, sub)->Ok_0;
        assert(e2.out =~= e.out + b.subrange(o, d + rdlen));
        assert(e2.table == e.table);
        assert(raw_edns(b, Some(start as usize)) == b.subrange(o, d + rdlen));
        assert(rewritten_records(e2, b, rr_next(b, o), 0, sub, false) == Ok::<Emit, DSError>(e2));
    } else {
        let e1 = rewritten_rr(e, b, o, sub)->Ok_0;
        lemma_opt_last(e1, b, next, count - 1, sub);
    }
}


/// Where the options of the OPT record of the well-formed message `b`
/// start, where it holds one.
pub open spec fn edns_offset(b: Seq<u8>) -> Option<usize> {
    match additional_scan(b).edns {
        Some(info) => Some(info.start as usize),
        None => None,
    }
}

/// Whether the well-formed message `b` holds no record behind its OPT
/// record.
pub open spec fn opt_is_last(b: Seq<u8>) -> bool {
    additional_scan(b).edns matches Some(info) ==> info.end == b.len()
}

/// Where no record stands behind the OPT record, to write a message again
/// with that record put last gives what writing every record in its
/// place gives.
pub proof fn lemma_opt_in_place(b: Seq<u8>, sub: Option<Rename>)
    requires
        message_scan(b, false) is Ok,
        b.len() <= usize::MAX,
        opt_is_last(b),
        renamed(seq![0u8], sub) == Ok::<Seq<u8>, DSError>(seq![0u8]),
        rewritten(b, sub, true, edns_offset(b)) is Ok,
        rewritten(b, sub, true, edns_offset(b))->Ok_0.len() <= DNS_MAX_PACKET_SIZE,
    ensures
        rewritten(b, sub, false, None) == rewritten(b, sub, true, edns_offset(b)),
{
    let c = rewritten(b, sub, true, edns_offset(b))->Ok_0;
    let e0 = emit_start(b);
    let e1 = rewritten_questions(e0, b, sub)->Ok_0;
    let st_q = Scan { offset: questions_end(b), edns: None };
    let st_a = answers_scan(b);
    let st_n = nameservers_scan(b);
    let e2 = rewritten_records(e1, b, st_q.offset, an_count(b), sub, true)->Ok_0;
    let e3 = rewritten_records(e2, b, st_a.offset, ns_count(b), sub, true)->Ok_0;
    let e4 = rewritten_records(e3, b, st_n.offset, ar_count(b), sub, true)->Ok_0;
    lemma_layout(b);
    lemma_section_no_opt(b, st_q, an_count(b), Section::Answer);
    lemma_section_no_opt(b, st_a, ns_count(b), Section::NameServers);
    lemma_unskipped(e1, b, st_q, an_count(b), Section::Answer, sub);
    lemma_unskipped(e2, b, st_a, ns_count(b), Section::NameServers, sub);
    assert(c == e4.out + raw_edns(b, edns_offset(b)));
    if additional_scan(b).edns is Some {
        lemma_opt_last(e3, b, st_n, ar_count(b), sub);
    } else {
        lemma_unskipped(e3, b, st_n, ar_count(b), Section::Additional, sub);
        assert(e4.out + raw_edns(b, edns_offset(b)) =~= e4.out);
    }
}

/// Whether the substitution leaves the names of the records of a section
/// as they are: the message without compression and with the
/// substitution made is, with an exact comparison, the message without
/// compression, and with the names in lower case without it.
pub open spec fn records_kept(
    b: Seq<u8>,
    o: int,
    count: int,
    sub: Option<Rename>,
    exact: Spelling,
) -> bool {
    &&& formed_records(b, o, count, sub, exact is Folded) == formed_records(
        b,
        o,
        count,
        None,
        exact is Folded,
    )
    &&& records_names_known(b, o, count, sub, exact)
}

/// A substitution that puts a name in its own place leaves the names in
/// the data of a record as they are, up to case.
pub proof fn lemma_rdata_kept(
    e: Emit,
    b: Seq<u8>,
    o: int,
    section: Section,
    sub: Option<Rename>,
    exact: Spelling,
)
    requires
        0 <= o,
        rr_scan(b, o, section, false) is Ok,
        rewritten_rdata(e, b, name_at(b, o).end, sub) is Ok,
        keeps_names(sub, exact),
        spelling_ok(exact),
        rdata_names_known(b, name_at(b, o).end, None, exact),
    ensures
        formed_rdata(b, name_at(b, o).end, sub, exact is Folded) == formed_rdata(
            b,
            name_at(b, o).end,
            None,
            exact is Folded,
        ),
        rdata_names_known(b, name_at(b, o).end, sub, exact),
{
    reveal(rdata_scan);
    lemma_rr_shape(b, o, section);
    let p = name_at(b, o).end;
    let d = p + DNS_RR_HEADER_SIZE;
    let t = be16(b, p);
    if t == Type::NS.code() || t == Type::CNAME.code() || t == Type::PTR.code() {
        lemma_name_chain(b, d);
        lemma_renamed_same(name_at(b, d).name, sub, exact);
        lemma_alike_len(new_name(b, d, sub), name_at(b, d).name, exact);
    } else if t == Type::MX.code() {
        lemma_name_chain(b, d + 2);
        lemma_renamed_same(name_at(b, d + 2).name, sub, exact);
        lemma_alike_len(new_name(b, d + 2, sub), name_at(b, d + 2).name, exact);
    } else if t == Type::SOA.code() {
        let m = name_at(b, d).end;
        crate::compress::lemma_walk_from_ok(
            b,
            d,
            b.len() as int,
            d,
            DNS_MAX_HOSTNAME_INDIRECTIONS as int,
            0,
        );
        lemma_name_chain(b, d);
        lemma_name_chain(b, m);
        lemma_renamed_same(name_at(b, d).name, sub, exact);
        lemma_renamed_same(name_at(b, m).name, sub, exact);
        lemma_alike_len(new_name(b, d, sub), name_at(b, d).name, exact);
        lemma_alike_len(new_name(b, m, sub), name_at(b, m).name, exact);
    }
}

/// A substitution that puts a name in its own place leaves the names of
/// the records of a section as they are, up to case.
pub proof fn lemma_records_kept(
    e: Emit,
    b: Seq<u8>,
    st: Scan,
    count: int,
    section: Section,
    sub: Option<Rename>,
    exact: Spelling,
)
    requires
        0 <= st.offset,
        section_scan(b, st, count, section) is Ok,
        rewritten_records(e, b, st.offset, count, sub, false) is Ok,
        keeps_names(sub, exact),
        spelling_ok(exact),
        records_names_known(b, st.offset, count, None, exact),
    ensures
        records_kept(b, st.offset, count, sub, exact),
    decreases count,
{
    if count > 0 {
        let o = st.offset;
        lemma_rr_scan_seen(b, o, section);
        lemma_rr_shape(b, o, section);
        let e1 = rewritten_name(e, b, o, sub)->Ok_0;
        let e2 = rewritten_rr(e, b, o, sub)->Ok_0;
        lemma_name_chain(b, o);
        lemma_renamed_same(name_at(b, o).name, sub, exact);
        lemma_rdata_kept(e1, b, o, section, sub, exact);
        lemma_records_kept(e2, b, scan_after(st, b, section), count - 1, section, sub, exact);
    }
}

/// A substitution that puts a name in its own place leaves the names of a
/// message as they are, up to case: the message without compression and
/// with the substitution made is, with an exact comparison of names that
/// are spelled in one way, the message without compression, and with the
/// names in lower case without it.
pub proof fn lemma_kept(b: Seq<u8>, sub: Option<Rename>, exact: Spelling)
    requires
        message_scan(b, false) is Ok,
        rewritten(b, sub, false, None) is Ok,
        keeps_names(sub, exact),
        spelling_ok(exact),
        names_known(b, None, exact),
    ensures
        formed(b, sub, exact is Folded) == formed(b, None, exact is Folded),
        names_known(b, sub, exact),
{
    lemma_layout(b);
    let e0 = emit_start(b);
    let e1 = rewritten_questions(e0, b, sub)->Ok_0;
    let st_q = Scan { offset: questions_end(b), edns: None };
    let st_a = answers_scan(b);
    let st_n = nameservers_scan(b);
    let e2 = rewritten_records(e1, b, st_q.offset, an_count(b), sub, false)->Ok_0;
    let e3 = rewritten_records(e2, b, st_a.offset, ns_count(b), sub, false)->Ok_0;
    if qd_count(b) > 0 {
        lemma_question_shape(b, DNS_QUESTION_OFFSET as int, false);
        lemma_name_chain(b, DNS_QUESTION_OFFSET as int);
        lemma_renamed_same(name_at(b, DNS_QUESTION_OFFSET as int).name, sub, exact);
    }
    lemma_records_kept(e1, b, st_q, an_count(b), Section::Answer, sub, exact);
    lemma_records_kept(e2, b, st_a, ns_count(b), Section::NameServers, sub, exact);
    lemma_records_kept(e3, b, st_n, ar_count(b), Section::Additional, sub, exact);
}

/// Renaming replaces names and nothing else: written without compression,
/// the result is the message written without compression with the
/// substitution made in every name, and with the lengths of the data of
/// NS, CNAME, PTR, MX and SOA records set to what the data then takes,
/// but for the ASCII case of the letters of names. With every name in
/// lower case the two are the same, byte for byte, and the header is the
/// same. They are the same as they stand wherever no name meets, once the
/// substitution is made, another spelling of itself. This holds of every
/// message of at most 65535 bytes that may be received and holds no
/// record behind its OPT record, which the renaming puts last, and of
/// every name of more than one byte that is taken out, where the
/// renaming succeeds and gives a message of at most 65535 bytes that may
/// be received.
pub proof fn law_rename_replaces(
    b: Seq<u8>,
    target: Seq<u8>,
    source: Seq<u8>,
    match_suffix: bool,
)
    requires
        message_scan(b, true) is Ok,
        b.len() <= DNS_MAX_PACKET_SIZE,
        opt_is_last(b),
        source.len() > 1,
        rename_spec(b, edns_offset(b), target, source, match_suffix) is Ok,
        rename_spec(b, edns_offset(b), target, source, match_suffix)->Ok_0.len()
            <= DNS_MAX_PACKET_SIZE,
        message_scan(rename_spec(b, edns_offset(b), target, source, match_suffix)->Ok_0, true)
            is Ok,
    ensures
        rename_spec(b, edns_offset(b), target, source, match_suffix)->Ok_0.subrange(
            0,
            DNS_HEADER_SIZE as int,
        ) == b.subrange(0, DNS_HEADER_SIZE as int),
        lowered(rename_spec(b, edns_offset(b), target, source, match_suffix)->Ok_0) == formed(
            b,
            Some(Rename { target, source, match_suffix }),
            true,
        ),
        forall|names: Set<Seq<u8>>|
            #![trigger spelled_once(b, Some(Rename { target, source, match_suffix }), names)]
            spelled_once(b, Some(Rename { target, source, match_suffix }), names) ==> uncompressed(
                rename_spec(b, edns_offset(b), target, source, match_suffix)->Ok_0,
            ) == formed(b, Some(Rename { target, source, match_suffix }), false),
{
    let c = rename_spec(b, edns_offset(b), target, source, match_suffix)->Ok_0;
    let sub = Some(Rename { target, source, match_suffix });
    lemma_strict_scan(b);
    lemma_strict_scan(c);
    lemma_checked_chain(target, 0, 0);
    assert(target.subrange(0, target.len() as int) =~= target);
    let root = seq![0u8];
    assert(renamed(root, sub) == Ok::<Seq<u8>, DSError>(root));
    lemma_opt_in_place(b, sub);
    lemma_rewritten(b, sub, Spelling::Folded);
    assert forall|names: Set<Seq<u8>>|
        #![trigger spelled_once(b, sub, names)]
        spelled_once(b, sub, names) implies uncompressed(c) == formed(b, sub, false) by {
        lemma_rewritten(b, sub, Spelling::Exact(names));
        lemma_formed(c);
    }
}

/// To put a name in its own place in every name of a message changes
/// nothing but the case of letters in names. Written without compression,
/// the result is the message written without compression but for the
/// ASCII case of the letters of names: with every name in lower case the
/// two are the same, byte for byte. They are the same as they stand
/// wherever no name meets another spelling of itself, that is, wherever
/// there is a set that holds the name, every name of the message and
/// what stands in each from any label on, and no two names that differ
/// only in case. This holds of every message of at most 65535 bytes that
/// may be received and holds no record behind its OPT record, which the
/// renaming puts last, where the renaming succeeds and gives a message
/// of at most 65535 bytes that may be received.
pub proof fn law_rename_to_itself(b: Seq<u8>, name: Seq<u8>)
    requires
        message_scan(b, true) is Ok,
        b.len() <= DNS_MAX_PACKET_SIZE,
        opt_is_last(b),
        rename_spec(b, edns_offset(b), name, name, true) is Ok,
        rename_spec(b, edns_offset(b), name, name, true)->Ok_0.len() <= DNS_MAX_PACKET_SIZE,
        message_scan(rename_spec(b, edns_offset(b), name, name, true)->Ok_0, true) is Ok,
    ensures
        lowered(rename_spec(b, edns_offset(b), name, name, true)->Ok_0) == lowered(b),
        forall|names: Set<Seq<u8>>|
            #![trigger spelled_once(b, None, names)]
            spelled_once(b, None, names) && names.contains(name) ==> uncompressed(
                rename_spec(b, edns_offset(b), name, name, true)->Ok_0,
            ) == uncompressed(b),
{
    let c = rename_spec(b, edns_offset(b), name, name, true)->Ok_0;
    let sub = Some(Rename { target: name, source: name, match_suffix: true });
    lemma_strict_scan(b);
    lemma_strict_scan(c);
    lemma_checked_chain(name, 0, 0);
    assert(name.subrange(0, name.len() as int) =~= name);
    assert(keeps_names(sub, Spelling::Folded));
    let root = seq![0u8];
    if name.len() == 1 {
        lemma_layout(b);
        lemma_question_shape(b, DNS_QUESTION_OFFSET as int, false);
        lemma_name_chain(b, DNS_QUESTION_OFFSET as int);
        assert(rewritten_questions(emit_start(b), b, sub) is Err);
    }
    assert(renamed(root, sub) == Ok::<Seq<u8>, DSError>(root));
    lemma_opt_in_place(b, sub);
    lemma_kept(b, sub, Spelling::Folded);
    lemma_rewritten(b, sub, Spelling::Folded);
    assert forall|names: Set<Seq<u8>>|
        #![trigger spelled_once(b, None, names)]
        spelled_once(b, None, names) && names.contains(name) implies uncompressed(c) == uncompressed(
        b,
    ) by {
        lemma_kept(b, sub, Spelling::Exact(names));
        lemma_rewritten(b, sub, Spelling::Exact(names));
        lemma_formed(c);
        lemma_formed(b);
    }
}

/// To write a message without compression, then with compression, and
/// again without gives what writing it without compression gives, but
/// for the ASCII case of the letters of names that the dictionary of the
/// compressor found in another spelling: with every name in lower case
/// the two are the same, byte for byte. They are the same as they stand
/// wherever no name meets another spelling of itself, that is, wherever
/// there is a set that holds every name of the message and what stands
/// in each from any label on, and no two names that differ only in
/// case. This holds of every message that may be received, where the
/// compressor succeeds and gives a message that may be received.
pub proof fn law_recompress_round_trip(b: Seq<u8>)
    requires
        message_scan(b, true) is Ok,
        rewritten(uncompressed(b), None, false, None) is Ok,
        message_scan(rewritten(uncompressed(b), None, false, None)->Ok_0, true) is Ok,
    ensures
        message_scan(uncompressed(b), true) is Ok,
        lowered(rewritten(uncompressed(b), None, false, None)->Ok_0) == lowered(
            uncompressed(b),
        ),
        forall|names: Set<Seq<u8>>|
            #![trigger spelled_once(uncompressed(b), None, names)]
            spelled_once(uncompressed(b), None, names) ==> uncompressed(
                rewritten(uncompressed(b), None, false, None)->Ok_0,
            ) == uncompressed(b),
{
    let u = uncompressed(b);
    let c = rewritten(u, None, false, None)->Ok_0;
    lemma_uncompressed_scan(b, true);
    lemma_strict_scan(u);
    lemma_strict_scan(c);
    lemma_rewritten(u, None, Spelling::Folded);
    assert forall|names: Set<Seq<u8>>|
        #![trigger spelled_once(u, None, names)]
        spelled_once(u, None, names) implies uncompressed(c) == u by {
        lemma_rewritten(u, None, Spelling::Exact(names));
        lemma_formed(c);
        lemma_formed(u);
    }
}

} // verus!
