//! The name codec: validation of compressed names, decompression, and
//! compression through a bounded dictionary of suffixes.

use crate::constants::DNS_MAX_HOSTNAME_INDIRECTIONS;
use crate::constants::DNS_MAX_HOSTNAME_LEN;
use crate::constants::ascii_lower;
use crate::constants::eq_ignore_ascii_case;
use crate::constants::to_ascii_lower;
use crate::constants::Section;
use crate::constants::Type;
use crate::constants::DNS_HEADER_SIZE;
use crate::constants::DNS_QUESTION_OFFSET;
use crate::constants::DNS_RR_HEADER_SIZE;
use crate::constants::DNS_RR_QUESTION_HEADER_SIZE;
use crate::constants::DNS_RR_RDLEN_OFFSET;
use crate::dns_sector::an_count;
use crate::dns_sector::answers_scan;
use crate::dns_sector::ar_count;
use crate::dns_sector::lemma_layout;
use crate::dns_sector::lemma_question_shape;
use crate::dns_sector::lemma_rr_shape;
use crate::dns_sector::message_scan;
use crate::dns_sector::nameservers_scan;
use crate::dns_sector::ns_count;
use crate::dns_sector::qd_count;
use crate::dns_sector::questions_end;
use crate::dns_sector::rdata_scan;
use crate::dns_sector::records_at;
use crate::dns_sector::rr_scan;
use crate::dns_sector::DNSSector;
use crate::errors::DSError;
use crate::parsed_packet::ParsedPacket;
use crate::wire::be16;
use crate::wire::put_be16;
use crate::wire::write_be16;
use crate::wire::extend_from_range;
use crate::wire::read_be16;
use vstd::prelude::*;

verus! {

/// What a walk over an encoded name finds.
pub struct NameWalk {
    /// The offset right after the name, in the stream it was read from: after
    /// the first compression pointer if there is one, after the final zero if not.
    pub end: int,
    /// The name without compression: its labels, each with its length in front,
    /// and the final zero.
    pub name: Seq<u8>,
}

/// Whether the byte `len` starts a compression pointer.
pub open spec fn is_pointer(len: u8) -> bool {
    len >= 0xc0
}

/// The offset that the pointer made of the bytes `hi` and `lo` refers to.
pub open spec fn pointer_target(hi: u8, lo: u8) -> int {
    (hi as int - 0xc0) * 256 + lo as int
}

/// The walk over the name of `b` that goes on at `offset`.
///
/// `barrier` is the offset the walk may not reach, `lowest` the start of the
/// part of the name that is being read, which the next pointer must refer
/// below, `refs` the number of pointers that may still be followed and
/// `name_len` the length of the labels read so far.
pub open spec fn walk_from(
    b: Seq<u8>,
    offset: int,
    barrier: int,
    lowest: int,
    refs: int,
    name_len: int,
) -> Result<NameWalk, DSError>
    decreases refs, (if offset < barrier {
        barrier - offset
    } else {
        0
    }),
{
    if offset >= barrier {
        if offset >= b.len() {
            Err(DSError::InvalidName("Truncated name"))
        } else {
            Err(DSError::InvalidName("Cycle"))
        }
    } else {
        let len = b[offset];
        if is_pointer(len) {
            if refs <= 0 {
                Err(DSError::InvalidName("Too many indirections"))
            } else if 2 > b.len() - offset {
                Err(DSError::InvalidName("Invalid internal offset"))
            } else {
                let target = pointer_target(len, b[offset + 1]);
                if target == offset || target >= lowest {
                    Err(DSError::InvalidName("Forward/self reference"))
                } else {
                    match walk_from(b, target, lowest, target, refs - 1, name_len) {
                        Ok(w) => Ok(NameWalk { end: offset + 2, name: w.name }),
                        Err(e) => Err(e),
                    }
                }
            }
        } else if len > 0x3f {
            Err(DSError::InvalidName("Label length too long"))
        } else if len as int >= b.len() - offset {
            Err(DSError::InvalidName("Out-of-bounds name"))
        } else if name_len + len + 1 > DNS_MAX_HOSTNAME_LEN {
            Err(DSError::InvalidName("Name too long"))
        } else if len == 0 {
            Ok(NameWalk { end: offset + 1, name: seq![0u8] })
        } else {
            match walk_from(b, offset + len + 1, barrier, lowest, refs, name_len + len + 1) {
                Ok(w) => Ok(
                    NameWalk { end: w.end, name: b.subrange(offset, offset + len + 1) + w.name },
                ),
                Err(e) => Err(e),
            }
        }
    }
}

/// The walk over the possibly compressed name of `b` that starts at `offset`:
/// where the name ends and what it is without compression, or why it is refused.
pub open spec fn walk_name(b: Seq<u8>, offset: int) -> Result<NameWalk, DSError> {
    if offset >= b.len() {
        Err(DSError::InternalError("Offset outside packet boundaries"))
    } else {
        walk_from(b, offset, b.len() as int, offset, DNS_MAX_HOSTNAME_INDIRECTIONS as int, 0)
    }
}

/// The end of a walk, or its error.
pub open spec fn walk_end(w: Result<NameWalk, DSError>) -> Result<int, DSError> {
    match w {
        Ok(w) => Ok(w.end),
        Err(e) => Err(e),
    }
}

/// `w` with its end replaced by `first`, where a pointer has been followed before.
pub open spec fn walk_end_after(w: Result<NameWalk, DSError>, first: Option<usize>) -> Result<
    int,
    DSError,
> {
    match w {
        Ok(w) => Ok(
            match first {
                Some(f) => f as int,
                None => w.end,
            },
        ),
        Err(e) => Err(e),
    }
}

/// The name that the walk at `offset` finds in `b`, where it finds one.
pub open spec fn name_at(b: Seq<u8>, offset: int) -> NameWalk
    recommends
        walk_name(b, offset) is Ok,
{
    walk_name(b, offset)->Ok_0
}

/// The walk over a name of `b` that holds no compression pointer and goes on
/// at `offset`, `name_len` bytes of it having been read: the offset right
/// after its final zero, or why it is refused.
pub open spec fn walk_plain(b: Seq<u8>, offset: int, name_len: int) -> Result<int, DSError>
    decreases b.len() - offset,
{
    if offset >= b.len() {
        Err(DSError::InvalidName("Truncated name"))
    } else {
        let len = b[offset];
        if is_pointer(len) {
            Err(DSError::InvalidName("Unexpected compression"))
        } else if len > 0x3f {
            Err(DSError::InvalidName("Label length too long"))
        } else if len as int >= b.len() - offset {
            Err(DSError::InvalidName("Out-of-bounds name"))
        } else if name_len + len + 1 > DNS_MAX_HOSTNAME_LEN {
            Err(DSError::InvalidName("Name too long"))
        } else if len == 0 {
            Ok(offset + 1)
        } else {
            walk_plain(b, offset + len + 1, name_len + len + 1)
        }
    }
}

/// The check of the uncompressed name of `b` that starts at `offset`.
pub open spec fn check_plain(b: Seq<u8>, offset: int) -> Result<int, DSError> {
    if offset >= b.len() {
        Err(DSError::InternalError("Offset outside packet boundaries"))
    } else {
        walk_plain(b, offset, 0)
    }
}

/// The offset right after the chain of labels of `s` that starts at `i`, each
/// byte in the place of a length taken as one, whatever its value; `None`
/// where the chain leaves `s` before it reaches a zero.
pub open spec fn raw_walk(s: Seq<u8>, i: int) -> Option<int>
    decreases (if i < s.len() {
        s.len() - i
    } else {
        0
    }),
{
    if i < 0 || i >= s.len() {
        None
    } else if s[i] == 0 {
        Some(i + 1)
    } else {
        raw_walk(s, i + s[i] + 1)
    }
}

/// A raw name in dotted form: its labels with a dot between each two of
/// them, and nothing for the root. `first` says that no label came before.
pub open spec fn dotted(n: Seq<u8>, first: bool) -> Seq<u8>
    decreases n.len(),
{
    if n.len() == 0 || n[0] == 0 || n[0] as int >= n.len() {
        Seq::<u8>::empty()
    } else {
        let label = n.subrange(1, 1 + n[0]);
        let rest = dotted(n.subrange(1 + n[0], n.len() as int), false);
        if first {
            label + rest
        } else {
            seq![0x2eu8] + label + rest
        }
    }
}

/// `s` with every upper-case ASCII letter replaced by its lower-case form.
pub open spec fn lower_seq(s: Seq<u8>) -> Seq<u8> {
    Seq::new(s.len(), |i: int| ascii_lower(s[i]))
}

/// The presentation form of a raw name: dotted and in lower case.
pub open spec fn presentation(n: Seq<u8>) -> Seq<u8> {
    lower_seq(dotted(n, true))
}

/// A walk that succeeds ends inside the buffer, past where it went on, and
/// the name it finds, together with what was read before, is at most 255
/// bytes long and checks as an uncompressed name.
pub proof fn lemma_walk_from_ok(
    b: Seq<u8>,
    offset: int,
    barrier: int,
    lowest: int,
    refs: int,
    name_len: int,
)
    requires
        0 <= lowest <= offset,
        barrier <= b.len(),
        0 <= name_len,
        walk_from(b, offset, barrier, lowest, refs, name_len) is Ok,
    ensures
        ({
            let w = walk_from(b, offset, barrier, lowest, refs, name_len)->Ok_0;
            &&& offset < w.end <= b.len()
            &&& w.end - offset <= w.name.len() + 1
            &&& 1 <= w.name.len()
            &&& name_len + w.name.len() <= DNS_MAX_HOSTNAME_LEN
            &&& walk_plain(w.name, 0, name_len) == Ok::<int, DSError>(w.name.len() as int)
        }),
    decreases refs, (if offset < barrier {
        barrier - offset
    } else {
        0
    }),
{
    let len = b[offset];
    if is_pointer(len) {
        let target = pointer_target(len, b[offset + 1]);
        lemma_walk_from_ok(b, target, lowest, target, refs - 1, name_len);
    } else if len == 0 {
        let n = seq![0u8];
        assert(n[0] == 0);
    } else {
        let next = offset + len + 1;
        lemma_walk_from_ok(b, next, barrier, lowest, refs, name_len + len + 1);
        let w1 = walk_from(b, next, barrier, lowest, refs, name_len + len + 1)->Ok_0;
        let label = b.subrange(offset, next);
        let n = label + w1.name;
        assert(n[0] == len);
        assert(n.subrange(len + 1, len + 1 + w1.name.len()) =~= w1.name.subrange(
            0,
            w1.name.len() as int,
        ));
        lemma_walk_plain_shift(w1.name, 0, n, len + 1, name_len + len + 1);
    }
}

/// A name that checks as uncompressed checks the same wherever its bytes
/// stand: if the bytes of `b1` from `o1` to the end of the name are those of
/// `b2` from `o2`, the name of `b2` at `o2` ends as far from `o2`.
pub proof fn lemma_walk_plain_shift(b1: Seq<u8>, o1: int, b2: Seq<u8>, o2: int, name_len: int)
    requires
        0 <= o1,
        0 <= o2,
        walk_plain(b1, o1, name_len) is Ok,
        o2 + (walk_plain(b1, o1, name_len)->Ok_0 - o1) <= b2.len(),
        b2.subrange(o2, o2 + (walk_plain(b1, o1, name_len)->Ok_0 - o1)) == b1.subrange(
            o1,
            walk_plain(b1, o1, name_len)->Ok_0,
        ),
    ensures
        walk_plain(b2, o2, name_len) == Ok::<int, DSError>(
            o2 + (walk_plain(b1, o1, name_len)->Ok_0 - o1),
        ),
    decreases b1.len() - o1,
{
    let e1 = walk_plain(b1, o1, name_len)->Ok_0;
    lemma_walk_plain_end(b1, o1, name_len);
    let s1 = b1.subrange(o1, e1);
    let s2 = b2.subrange(o2, o2 + (e1 - o1));
    assert(s1[0] == b1[o1]);
    assert(s2[0] == b2[o2]);
    let len = b1[o1];
    if len != 0 {
        let n1 = o1 + len + 1;
        let n2 = o2 + len + 1;
        lemma_walk_plain_end(b1, n1, name_len + len + 1);
        assert(b2.subrange(n2, n2 + (e1 - n1)) =~= b1.subrange(n1, e1)) by {
            assert forall|k: int| 0 <= k < e1 - n1 implies b2.subrange(n2, n2 + (e1 - n1))[k]
                == b1.subrange(n1, e1)[k] by {
                assert(s1[k + len + 1] == s2[k + len + 1]);
            }
        }
        lemma_walk_plain_shift(b1, n1, b2, n2, name_len + len + 1);
    }
}

/// An uncompressed name that checks ends inside the buffer, past its start.
pub proof fn lemma_walk_plain_end(b: Seq<u8>, offset: int, name_len: int)
    requires
        0 <= offset,
        walk_plain(b, offset, name_len) is Ok,
    ensures
        offset < walk_plain(b, offset, name_len)->Ok_0 <= b.len(),
        0 <= name_len ==> name_len + (walk_plain(b, offset, name_len)->Ok_0 - offset)
            <= DNS_MAX_HOSTNAME_LEN,
        raw_walk(b, offset) == Some(walk_plain(b, offset, name_len)->Ok_0),
    decreases b.len() - offset,
{
    let len = b[offset];
    if len != 0 {
        lemma_walk_plain_end(b, offset + len + 1, name_len + len + 1);
    }
}

/// The fixed header of the record of `b` whose name ends at `p`, with the
/// length of its data replaced by `rdlen`.
pub open spec fn header_with_rdlen(b: Seq<u8>, p: int, rdlen: int) -> Seq<u8> {
    put_be16(b.subrange(p, p + DNS_RR_HEADER_SIZE), DNS_RR_RDLEN_OFFSET as int, rdlen)
}

/// The fixed header and the data of the record of `b` whose name ends at
/// `p`, with the names that the data of an NS, CNAME, PTR, MX or SOA record
/// holds written without compression, and the length of the data set to
/// what the data then takes. The data of every other type stays as it is.
pub open spec fn uncompressed_rdata(b: Seq<u8>, p: int) -> Seq<u8> {
    let rr_type = be16(b, p);
    let rdlen = be16(b, p + 8);
    let d = p + DNS_RR_HEADER_SIZE;
    if rr_type == Type::NS.code() || rr_type == Type::CNAME.code() || rr_type == Type::PTR.code() {
        let n = name_at(b, d);
        header_with_rdlen(b, p, n.name.len() as int) + n.name
    } else if rr_type == Type::MX.code() {
        let n = name_at(b, d + 2);
        header_with_rdlen(b, p, (2 + n.name.len()) as int) + b.subrange(d, d + 2) + n.name
    } else if rr_type == Type::SOA.code() {
        let n1 = name_at(b, d);
        let n2 = name_at(b, n1.end);
        header_with_rdlen(b, p, (n1.name.len() + n2.name.len() + 20) as int) + n1.name + n2.name
            + b.subrange(n2.end, n2.end + 20)
    } else {
        b.subrange(p, d + rdlen)
    }
}

/// The record of `b` at `o` without compression: its name, then its fixed
/// header and data.
pub open spec fn uncompressed_rr(b: Seq<u8>, o: int) -> Seq<u8> {
    name_at(b, o).name + uncompressed_rdata(b, name_at(b, o).end)
}

/// The offset right after the record of `b` at `o`.
pub open spec fn rr_next(b: Seq<u8>, o: int) -> int {
    name_at(b, o).end + DNS_RR_HEADER_SIZE + be16(b, name_at(b, o).end + 8)
}

/// The `count` records of `b` that follow each other from `o` on, without compression.
pub open spec fn uncompressed_records(b: Seq<u8>, o: int, count: int) -> Seq<u8>
    decreases count,
{
    if count <= 0 {
        Seq::<u8>::empty()
    } else {
        uncompressed_rr(b, o) + uncompressed_records(b, rr_next(b, o), count - 1)
    }
}

/// The question of `b` at `o` without compression: its name, type and class.
pub open spec fn uncompressed_question(b: Seq<u8>, o: int) -> Seq<u8> {
    name_at(b, o).name + b.subrange(
        name_at(b, o).end,
        name_at(b, o).end + DNS_RR_QUESTION_HEADER_SIZE,
    )
}

/// The question section of `b` without compression.
pub open spec fn uncompressed_questions(b: Seq<u8>) -> Seq<u8> {
    if qd_count(b) > 0 {
        uncompressed_question(b, DNS_QUESTION_OFFSET as int)
    } else {
        Seq::<u8>::empty()
    }
}

/// The well-formed message `b` without compression: its header, then its
/// question and every record of its answer, name server and additional
/// sections, each without compression, in the order in which they stand.
pub open spec fn uncompressed(b: Seq<u8>) -> Seq<u8> {
    b.subrange(0, DNS_HEADER_SIZE as int) + uncompressed_questions(b) + uncompressed_records(
        b,
        questions_end(b),
        an_count(b),
    ) + uncompressed_records(b, answers_scan(b).offset, ns_count(b)) + uncompressed_records(
        b,
        nameservers_scan(b).offset,
        ar_count(b),
    )
}

/// Where the record that stands at `target` among the `count` records of
/// `b` from `o` on starts once the records are written without compression
/// behind `out_len` bytes; `None` where no record stands at `target`.
pub open spec fn moved_in_records(b: Seq<u8>, o: int, count: int, target: int, out_len: int) -> Option<
    int,
>
    decreases count,
{
    if count <= 0 {
        None
    } else if o == target {
        Some(out_len)
    } else {
        moved_in_records(
            b,
            rr_next(b, o),
            count - 1,
            target,
            out_len + uncompressed_rr(b, o).len(),
        )
    }
}

/// The first of two optional values that is there.
pub open spec fn first_of(a: Option<int>, b: Option<int>) -> Option<int> {
    if a is Some {
        a
    } else {
        b
    }
}

/// Where the record, or the end, that stands at `target` in the well-formed
/// message `b` stands in `uncompressed(b)`; `None` where `target` is neither
/// the start of a record nor the end of `b`.
pub open spec fn moved_offset(b: Seq<u8>, target: int) -> Option<int> {
    let q_len = DNS_HEADER_SIZE + uncompressed_questions(b).len();
    let an_len = q_len + uncompressed_records(b, questions_end(b), an_count(b)).len();
    let ns_len = an_len + uncompressed_records(b, answers_scan(b).offset, ns_count(b)).len();
    if target == b.len() {
        Some(uncompressed(b).len() as int)
    } else if qd_count(b) > 0 && target == DNS_QUESTION_OFFSET {
        Some(DNS_HEADER_SIZE as int)
    } else {
        first_of(
            moved_in_records(b, questions_end(b), an_count(b), target, q_len),
            first_of(
                moved_in_records(b, answers_scan(b).offset, ns_count(b), target, an_len),
                moved_in_records(b, nameservers_scan(b).offset, ar_count(b), target, ns_len),
            ),
        )
    }
}


/// A name that checks as uncompressed checks as a possibly compressed name
/// too: it ends at the same offset, and without compression it is the bytes
/// that it is made of.
pub proof fn lemma_plain_walk(b: Seq<u8>, offset: int, lowest: int, refs: int, name_len: int)
    requires
        0 <= offset,
        walk_plain(b, offset, name_len) is Ok,
    ensures
        walk_from(b, offset, b.len() as int, lowest, refs, name_len) == Ok::<NameWalk, DSError>(
            NameWalk {
                end: walk_plain(b, offset, name_len)->Ok_0,
                name: b.subrange(offset, walk_plain(b, offset, name_len)->Ok_0),
            },
        ),
    decreases b.len() - offset,
{
    let len = b[offset];
    let end = walk_plain(b, offset, name_len)->Ok_0;
    lemma_walk_plain_end(b, offset, name_len);
    if len == 0 {
        assert(b.subrange(offset, offset + 1) =~= seq![0u8]);
    } else {
        let next = offset + len + 1;
        lemma_plain_walk(b, next, lowest, refs, name_len + len + 1);
        lemma_walk_plain_end(b, next, name_len + len + 1);
        assert(b.subrange(offset, end) =~= b.subrange(offset, next) + b.subrange(next, end));
    }
}

/// The name that a walk finds is a valid name when it stands alone: a walk
/// over it from its start finds the name itself.
pub proof fn lemma_name_stands_alone(b: Seq<u8>, offset: int)
    requires
        0 <= offset,
        walk_name(b, offset) is Ok,
    ensures
        walk_name(name_at(b, offset).name, 0) == Ok::<NameWalk, DSError>(
            NameWalk {
                end: name_at(b, offset).name.len() as int,
                name: name_at(b, offset).name,
            },
        ),
        check_plain(name_at(b, offset).name, 0) == Ok::<int, DSError>(
            name_at(b, offset).name.len() as int,
        ),
        raw_walk(name_at(b, offset).name, 0) == Some(name_at(b, offset).name.len() as int),
        1 <= name_at(b, offset).name.len() <= DNS_MAX_HOSTNAME_LEN,
{
    let n = name_at(b, offset).name;
    lemma_walk_from_ok(
        b,
        offset,
        b.len() as int,
        offset,
        DNS_MAX_HOSTNAME_INDIRECTIONS as int,
        0,
    );
    lemma_plain_walk(n, 0, 0, DNS_MAX_HOSTNAME_INDIRECTIONS as int, 0);
    lemma_walk_plain_end(n, 0, 0);
    assert(n.subrange(0, n.len() as int) =~= n);
}

/// A raw name ends with a zero.
pub proof fn lemma_raw_name_last(n: Seq<u8>, i: int)
    requires
        0 <= i,
        raw_walk(n, i) == Some(n.len() as int),
    ensures
        n.len() >= 1,
        n[n.len() - 1] == 0,
    decreases n.len() - i,
{
    lemma_raw_walk_end(n, i);
    if n[i] != 0 {
        lemma_raw_walk_end(n, i + n[i] + 1);
        lemma_raw_name_last(n, i + n[i] + 1);
    }
}

/// One entry of the dictionary of suffixes: a raw name and the offset at
/// which it stands in the message that is being written.
pub struct SuffixEntry {
    pub offset: int,
    pub name: Seq<u8>,
}

/// What a dictionary of suffixes holds: its entries, in the order of their
/// slots, and the slot that the next new entry goes to.
pub struct SuffixTable {
    pub entries: Seq<SuffixEntry>,
    pub index: int,
}

/// The largest length of a suffix that the dictionary keeps.
pub const MAX_SUFFIX_LEN: usize = 127;

/// The number of slots of the dictionary.
pub const MAX_SUFFIXES: usize = 32;

/// The smallest offset that a compression pointer cannot refer to.
pub const MAX_POINTER_OFFSET: usize = 0x4000;

/// Whether the raw name at the start of `name1` stands at the start of
/// `name2` too, up to ASCII case. What follows the final zero of the name
/// does not count.
pub open spec fn raw_names_eq(name1: Seq<u8>, name2: Seq<u8>) -> bool {
    match raw_walk(name1, 0) {
        Some(end) => end <= name2.len() && eq_ignore_ascii_case(
            name1.subrange(0, end),
            name2.subrange(0, end),
        ),
        None => false,
    }
}

/// The offset of the first entry of `entries`, from slot `i` on, that is not
/// longer than `suffix` and holds the same name up to ASCII case.
pub open spec fn table_lookup(entries: Seq<SuffixEntry>, suffix: Seq<u8>, i: int) -> Option<int>
    decreases entries.len() - i,
{
    if i < 0 || i >= entries.len() {
        None
    } else if entries[i].name.len() <= suffix.len() && raw_names_eq(suffix, entries[i].name) {
        Some(entries[i].offset)
    } else {
        table_lookup(entries, suffix, i + 1)
    }
}

/// Whether the dictionary refuses `suffix` at `offset` without a look: a
/// pointer cannot refer to the offset, or the suffix is the root, a single
/// letter before the root, or longer than 127 bytes.
pub open spec fn table_refuses(suffix: Seq<u8>, offset: int) -> bool {
    offset >= MAX_POINTER_OFFSET || suffix.len() <= 2 || suffix.len() > MAX_SUFFIX_LEN
}

/// The table `t` with `suffix`, which stands at `offset`, put into the slot
/// that is next: behind the last entry until all slots are taken, then over
/// the entries from slot 1 on, round and round, so that slot 0 stays.
pub open spec fn table_add(t: SuffixTable, suffix: Seq<u8>, offset: int) -> SuffixTable {
    let entry = SuffixEntry { offset, name: suffix };
    let entries = if t.index < t.entries.len() {
        t.entries.update(t.index, entry)
    } else {
        t.entries.push(entry)
    };
    SuffixTable {
        entries,
        index: if t.index + 1 == MAX_SUFFIXES {
            1
        } else {
            t.index + 1
        },
    }
}

/// What the dictionary answers when `suffix`, which stands at `offset`, is
/// inserted: the offset of an entry with the same name, where there is one,
/// and nothing where the suffix is refused or has been added.
pub open spec fn table_hit(t: SuffixTable, suffix: Seq<u8>, offset: int) -> Option<int> {
    if table_refuses(suffix, offset) {
        None
    } else {
        table_lookup(t.entries, suffix, 0)
    }
}

/// The dictionary after `suffix`, which stands at `offset`, has been inserted.
pub open spec fn table_insert(t: SuffixTable, suffix: Seq<u8>, offset: int) -> SuffixTable {
    if table_refuses(suffix, offset) || table_lookup(t.entries, suffix, 0) is Some {
        t
    } else {
        table_add(t, suffix, offset)
    }
}

/// The two bytes of the compression pointer that refers to `offset`.
pub open spec fn pointer_bytes(offset: int) -> Seq<u8> {
    seq![(0xc0 + offset / 256) as u8, (offset % 256) as u8]
}

/// The raw name `n` written with compression at `at`: the labels of `n` up
/// to the first suffix that the dictionary knows, then a pointer to that
/// suffix; the whole name where the dictionary knows no suffix of it.
pub open spec fn compressed_name(t: SuffixTable, n: Seq<u8>, at: int) -> Seq<u8>
    decreases n.len(),
{
    match table_hit(t, n, at) {
        Some(r) => pointer_bytes(r),
        None => if n.len() == 0 {
            Seq::<u8>::empty()
        } else if n[0] == 0 || 1 + n[0] >= n.len() {
            n.subrange(0, 1)
        } else {
            n.subrange(0, 1 + n[0]) + compressed_name(
                table_insert(t, n, at),
                n.subrange(1 + n[0], n.len() as int),
                at + 1 + n[0],
            )
        },
    }
}

/// The dictionary after the raw name `n` has been written with compression at `at`.
pub open spec fn table_after_name(t: SuffixTable, n: Seq<u8>, at: int) -> SuffixTable
    decreases n.len(),
{
    match table_hit(t, n, at) {
        Some(r) => t,
        None => if n.len() == 0 || n[0] == 0 || 1 + n[0] >= n.len() {
            table_insert(t, n, at)
        } else {
            table_after_name(
                table_insert(t, n, at),
                n.subrange(1 + n[0], n.len() as int),
                at + 1 + n[0],
            )
        },
    }
}

/// The chain of labels of `s` from `i` on ends after `i`, inside `s`.
pub proof fn lemma_raw_walk_end(s: Seq<u8>, i: int)
    requires
        raw_walk(s, i) is Some,
    ensures
        0 <= i < raw_walk(s, i)->Some_0 <= s.len(),
    decreases (if i < s.len() {
        s.len() - i
    } else {
        0
    }),
{
    if s[i] != 0 {
        lemma_raw_walk_end(s, i + s[i] + 1);
    }
}

/// The chain of labels of a suffix of `s` is the chain of `s` from there on.
pub proof fn lemma_raw_walk_suffix(s: Seq<u8>, from: int, i: int)
    requires
        0 <= from <= from + i,
        from + i <= s.len(),
    ensures
        raw_walk(s.subrange(from, s.len() as int), i) == match raw_walk(s, from + i) {
            Some(e) => Some(e - from),
            None => None,
        },
    decreases s.len() - from - i,
{
    let t = s.subrange(from, s.len() as int);
    if i >= 0 && i < t.len() && t[i] != 0 {
        assert(t[i] == s[from + i]);
        if from + i + s[from + i] + 1 <= s.len() {
            lemma_raw_walk_suffix(s, from, i + t[i] + 1);
        }
    }
}

/// Output of the `copy_uncompressed_name()` function.
#[derive(Copy, Clone, Debug)]
pub struct UncompressedNameResult {
    pub name_len: usize,
    pub final_offset: usize,
}

/// Output of the `copy_compressed_name()` function.
#[derive(Copy, Clone, Debug)]
pub struct CompressedNameResult {
    pub name_len: usize,
    pub final_offset: usize,
}

pub struct Compress;

impl Compress {
    /// Checks that an untrusted encoded DNS name is valid. This includes following indirections for
    /// compressed names, checks for label lengths, checks for truncated names and checks for
    /// cycles.
    /// Returns the location right after the name.
    pub fn check_compressed_name(packet: &[u8], offset: usize) -> (r: Result<usize, DSError>)
        ensures
            match walk_name(packet@, offset as int) {
                Ok(w) => r is Ok && r->Ok_0 == w.end && offset < w.end <= packet@.len(),
                Err(e) => r == Err::<usize, DSError>(e),
            },
    {
        let packet_len: usize = packet.len();
        let mut pos: usize = offset;
        let mut name_len: usize = 0;
        let mut barrier_offset: usize = packet_len;
        let mut lowest_offset: usize = offset;
        let mut final_offset: Option<usize> = None;
        let mut refs_allowed: u16 = DNS_MAX_HOSTNAME_INDIRECTIONS;
        let ghost start: int = offset as int;
        if offset >= packet_len {
            return Err(DSError::InternalError("Offset outside packet boundaries"));
        }
        loop
            invariant_except_break
                walk_end(walk_name(packet@, start)) == walk_end_after(
                    walk_from(
                        packet@,
                        pos as int,
                        barrier_offset as int,
                        lowest_offset as int,
                        refs_allowed as int,
                        name_len as int,
                    ),
                    final_offset,
                ),
            invariant
                packet_len == packet@.len(),
                barrier_offset <= packet_len,
                name_len <= DNS_MAX_HOSTNAME_LEN,
                start == offset as int,
                start < packet_len,
                final_offset matches Some(f) ==> start < f <= packet_len,
                final_offset is None ==> start <= pos,
                lowest_offset <= pos,
            ensures
                pos <= packet_len,
                final_offset is None ==> start < pos,
                walk_end(walk_name(packet@, start)) == Ok::<int, DSError>(
                    match final_offset {
                        Some(f) => f as int,
                        None => pos as int,
                    },
                ),
            decreases refs_allowed, (if pos < barrier_offset {
                barrier_offset - pos
            } else {
                0
            }),
        {
            if pos >= barrier_offset {
                if pos >= packet_len {
                    return Err(DSError::InvalidName("Truncated name"));
                }
                return Err(DSError::InvalidName("Cycle"));
            }
            let len: u8 = packet[pos];
            if len >= 0xc0 {
                if refs_allowed == 0 {
                    return Err(DSError::InvalidName("Too many indirections"));
                }
                refs_allowed -= 1;
                if 2 > packet_len - pos {
                    return Err(DSError::InvalidName("Invalid internal offset"));
                }
                let ref_offset: usize = (len as usize - 0xc0) * 256 + packet[pos + 1] as usize;
                if ref_offset == pos || ref_offset >= lowest_offset {
                    return Err(DSError::InvalidName("Forward/self reference"));
                }
                if final_offset.is_none() {
                    final_offset = Some(pos + 2);
                }
                pos = ref_offset;
                barrier_offset = lowest_offset;
                lowest_offset = ref_offset;
                continue ;
            }
            if len > 0x3f {
                return Err(DSError::InvalidName("Label length too long"));
            }
            let label_len: usize = len as usize;
            if label_len >= packet_len - pos {
                return Err(DSError::InvalidName("Out-of-bounds name"));
            }
            name_len += label_len + 1;
            if name_len > DNS_MAX_HOSTNAME_LEN {
                return Err(DSError::InvalidName("Name too long"));
            }
            pos += label_len + 1;
            if label_len == 0 {
                break ;
            }
        }
        match final_offset {
            Some(f) => Ok(f),
            None => Ok(pos),
        }
    }

    /// The offset that the compression pointer at `pos` refers to.
    pub fn pointer_at(packet: &[u8], pos: usize) -> (r: usize)
        requires
            pos + 2 <= packet@.len(),
            is_pointer(packet@[pos as int]),
        ensures
            r as int == pointer_target(packet@[pos as int], packet@[pos + 1]),
    {
        let v: u16 = read_be16(packet, pos);
        let hi: u8 = packet[pos];
        let lo: u8 = packet[pos + 1];
        assert(v == hi as u16 * 256 + lo as u16);
        assert((v & 0x3fff) as int == (hi as int - 0xc0) * 256 + lo as int) by (bit_vector)
            requires
                hi >= 0xc0u8,
                v == hi as u16 * 256 + lo as u16,
        ;
        (v & 0x3fff) as usize
    }

    /// Uncompresses a name starting at `offset`, and puts the result into `name`.
    /// This function assumes that the input is trusted and doesn't perform any checks.
    /// Returns the length of the name as well as the location right after the (possibly compressed) name.
    pub fn copy_uncompressed_name(name: &mut Vec<u8>, packet: &[u8], offset: usize) -> (r:
        UncompressedNameResult)
        requires
            walk_name(packet@, offset as int) is Ok,
        ensures
            final(name)@ == old(name)@ + name_at(packet@, offset as int).name,
            r.name_len == name_at(packet@, offset as int).name.len(),
            r.final_offset == name_at(packet@, offset as int).end,
            1 <= r.name_len <= DNS_MAX_HOSTNAME_LEN,
            offset < r.final_offset <= packet@.len(),
    {
        let mut pos: usize = offset;
        let mut name_len: usize = 0;
        let mut final_offset: Option<usize> = None;
        let ghost whole = name_at(packet@, offset as int);
        let ghost mut barrier: int = packet@.len() as int;
        let ghost mut lowest: int = offset as int;
        let ghost mut refs: int = DNS_MAX_HOSTNAME_INDIRECTIONS as int;
        proof {
            lemma_walk_from_ok(packet@, offset as int, barrier, lowest, refs, 0);
        }
        loop
            invariant_except_break
                walk_from(packet@, pos as int, barrier, lowest, refs, name_len as int) is Ok,
                old(name)@ + whole.name == name@ + walk_from(
                    packet@,
                    pos as int,
                    barrier,
                    lowest,
                    refs,
                    name_len as int,
                )->Ok_0.name,
                whole.end == match final_offset {
                    Some(f) => f as int,
                    None => walk_from(
                        packet@,
                        pos as int,
                        barrier,
                        lowest,
                        refs,
                        name_len as int,
                    )->Ok_0.end,
                },
            invariant
                whole == name_at(packet@, offset as int),
                0 <= lowest <= pos,
                barrier <= packet@.len(),
                name_len <= DNS_MAX_HOSTNAME_LEN,
                name@.len() == old(name)@.len() + name_len,
                offset < whole.end <= packet@.len(),
                1 <= whole.name.len() <= DNS_MAX_HOSTNAME_LEN,
            ensures
                name@ == old(name)@ + whole.name,
                name_len == whole.name.len(),
                whole.end == match final_offset {
                    Some(f) => f as int,
                    None => pos as int,
                },
            decreases refs, (if pos < barrier {
                barrier - pos
            } else {
                0
            }),
        {
            proof {
                lemma_walk_from_ok(packet@, pos as int, barrier, lowest, refs, name_len as int);
            }
            let len: u8 = packet[pos];
            if len >= 0xc0 {
                if final_offset.is_none() {
                    final_offset = Some(pos + 2);
                }
                let new_offset: usize = Self::pointer_at(packet, pos);
                proof {
                    barrier = lowest;
                    lowest = new_offset as int;
                    refs = refs - 1;
                }
                pos = new_offset;
                continue ;
            }
            let label_len: usize = len as usize;
            let prefixed_label_len: usize = 1 + label_len;
            let ghost before = name@;
            let ghost rest = walk_from(packet@, pos as int, barrier, lowest, refs, name_len as int)->Ok_0;
            extend_from_range(name, packet, pos, pos + prefixed_label_len);
            proof {
                if label_len != 0 {
                    let next = walk_from(
                        packet@,
                        pos + prefixed_label_len,
                        barrier,
                        lowest,
                        refs,
                        name_len + prefixed_label_len,
                    )->Ok_0;
                    assert(rest.name == packet@.subrange(pos as int, pos + prefixed_label_len)
                        + next.name);
                    assert(old(name)@ + whole.name =~= name@ + next.name);
                } else {
                    assert(rest.name == seq![0u8]);
                    assert(packet@.subrange(pos as int, pos + 1) =~= seq![0u8]);
                    assert(old(name)@ + whole.name =~= name@);
                    assert(whole.name.len() == name_len + 1) by {
                        assert((old(name)@ + whole.name).len() == name@.len());
                    }
                }
            }
            name_len += prefixed_label_len;
            pos += prefixed_label_len;
            if label_len == 0 {
                break ;
            }
        }
        let final_offset: usize = match final_offset {
            Some(f) => f,
            None => pos,
        };
        UncompressedNameResult { name_len, final_offset }
    }

    /// Returns the total length of an uncompressed raw name, including the final `0` label length.
    pub fn raw_name_len(name: &[u8]) -> (r: usize)
        requires
            raw_walk(name@, 0) is Some,
        ensures
            r as int == raw_walk(name@, 0)->Some_0,
            1 <= r <= name@.len(),
    {
        let mut i: usize = 0;
        while name[i] != 0
            invariant
                i < name@.len(),
                raw_walk(name@, i as int) == raw_walk(name@, 0),
                raw_walk(name@, 0) is Some,
            decreases name@.len() - i,
        {
            assert(raw_walk(name@, i + name@[i as int] + 1) is Some);
            i += name[i] as usize + 1;
        }
        i + 1
    }

    /// Converts a trusted name to its presentation form: the labels in lower case, with dots between them.
    pub fn raw_name_to_str(packet: &[u8], offset: usize) -> (res: Vec<u8>)
        requires
            walk_name(packet@, offset as int) is Ok,
        ensures
            res@ == presentation(name_at(packet@, offset as int).name),
    {
        let mut pos: usize = offset;
        let mut res: Vec<u8> = Vec::with_capacity(64);
        let ghost whole = name_at(packet@, offset as int);
        let ghost mut barrier: int = packet@.len() as int;
        let ghost mut lowest: int = offset as int;
        let ghost mut refs: int = DNS_MAX_HOSTNAME_INDIRECTIONS as int;
        let ghost mut name_len: int = 0;
        loop
            invariant_except_break
                walk_from(packet@, pos as int, barrier, lowest, refs, name_len) is Ok,
                dotted(whole.name, true) == res@ + dotted(
                    walk_from(packet@, pos as int, barrier, lowest, refs, name_len)->Ok_0.name,
                    res@.len() == 0,
                ),
            invariant
                0 <= lowest <= pos,
                barrier <= packet@.len(),
                0 <= name_len,
            ensures
                dotted(whole.name, true) == res@,
            decreases refs, (if pos < barrier {
                barrier - pos
            } else {
                0
            }),
        {
            proof {
                lemma_walk_from_ok(packet@, pos as int, barrier, lowest, refs, name_len);
            }
            let ghost rest = walk_from(packet@, pos as int, barrier, lowest, refs, name_len)->Ok_0;
            let len: u8 = packet[pos];
            if len == 0 {
                proof {
                    assert(rest.name == seq![0u8]);
                    assert(rest.name[0] == 0);
                    assert(dotted(whole.name, true) =~= res@);
                }
                break ;
            }
            if len >= 0xc0 {
                let new_offset: usize = Self::pointer_at(packet, pos);
                proof {
                    barrier = lowest;
                    lowest = new_offset as int;
                    refs = refs - 1;
                }
                pos = new_offset;
                continue ;
            }
            let label_len: usize = len as usize;
            let ghost before = res@;
            if res.len() != 0 {
                res.push(0x2e);
            }
            extend_from_range(&mut res, packet, pos + 1, pos + 1 + label_len);
            proof {
                let next = walk_from(
                    packet@,
                    pos + 1 + label_len,
                    barrier,
                    lowest,
                    refs,
                    name_len + label_len + 1,
                )->Ok_0;
                lemma_walk_from_ok(
                    packet@,
                    pos + 1 + label_len,
                    barrier,
                    lowest,
                    refs,
                    name_len + label_len + 1,
                );
                let n = rest.name;
                assert(n == packet@.subrange(pos as int, pos + 1 + label_len) + next.name);
                assert(n[0] == len);
                assert(n.subrange(1, 1 + len) =~= packet@.subrange(pos + 1, pos + 1 + label_len));
                assert(n.subrange(1 + len, n.len() as int) =~= next.name);
                assert(dotted(whole.name, true) =~= res@ + dotted(next.name, false));
                name_len = name_len + label_len + 1;
            }
            pos += 1 + label_len;
        }
        let mut i: usize = 0;
        let ghost plain = res@;
        while i < res.len()
            invariant
                i <= res@.len(),
                res@.len() == plain.len(),
                forall|j: int| 0 <= j < i ==> res@[j] == ascii_lower(plain[j]),
                forall|j: int| i <= j < res@.len() ==> res@[j] == plain[j],
            decreases res@.len() - i,
        {
            let c: u8 = to_ascii_lower(res[i]);
            res[i] = c;
            i += 1;
        }
        assert(res@ =~= lower_seq(plain));
        res
    }

    /// Uncompresses trusted record's data and puts the result into `uncompressed`.
    /// `name_end` is where the fixed header of the record starts.
    fn uncompress_rdata(uncompressed: &mut Vec<u8>, packet: &[u8], name_end: usize)
        requires
            name_end + DNS_RR_HEADER_SIZE + be16(packet@, name_end + 8) <= packet.len(),
            exists|o: int, section: Section|
                0 <= o && #[trigger] rr_scan(packet@, o, section, false) is Ok && name_at(
                    packet@,
                    o,
                ).end == name_end,
        ensures
            final(uncompressed)@ == old(uncompressed)@ + uncompressed_rdata(
                packet@,
                name_end as int,
            ),
    {
        reveal(rdata_scan);
        let ghost b = packet@;
        let ghost p = name_end as int;
        let rr_type: u16 = read_be16(packet, name_end);
        let rr_rdlen: usize = read_be16(packet, name_end + DNS_RR_RDLEN_OFFSET) as usize;
        let d: usize = name_end + DNS_RR_HEADER_SIZE;
        let offset: usize = uncompressed.len();
        if rr_type == Type::NS.to_u16() || rr_type == Type::CNAME.to_u16() || rr_type
            == Type::PTR.to_u16() {
            extend_from_range(uncompressed, packet, name_end, d);
            let new_rdlen: usize = Self::copy_uncompressed_name(uncompressed, packet, d).name_len;
            assert(offset + DNS_RR_HEADER_SIZE <= uncompressed.len());
            write_be16(uncompressed.as_mut_slice(), offset + DNS_RR_RDLEN_OFFSET, new_rdlen as u16);
            assert(uncompressed@ =~= old(uncompressed)@ + uncompressed_rdata(b, p));
        } else if rr_type == Type::MX.to_u16() {
            extend_from_range(uncompressed, packet, name_end, d + 2);
            let new_rdlen: usize = 2 + Self::copy_uncompressed_name(
                uncompressed,
                packet,
                d + 2,
            ).name_len;
            assert(offset + DNS_RR_HEADER_SIZE <= uncompressed.len());
            write_be16(uncompressed.as_mut_slice(), offset + DNS_RR_RDLEN_OFFSET, new_rdlen as u16);
            assert(uncompressed@ =~= old(uncompressed)@ + uncompressed_rdata(b, p));
        } else if rr_type == Type::SOA.to_u16() {
            extend_from_range(uncompressed, packet, name_end, d);
            let u1 = Self::copy_uncompressed_name(uncompressed, packet, d);
            let u2 = Self::copy_uncompressed_name(uncompressed, packet, u1.final_offset);
            extend_from_range(uncompressed, packet, u2.final_offset, u2.final_offset + 20);
            let new_rdlen: usize = u1.name_len + u2.name_len + 20;
            assert(offset + DNS_RR_HEADER_SIZE <= uncompressed.len());
            write_be16(uncompressed.as_mut_slice(), offset + DNS_RR_RDLEN_OFFSET, new_rdlen as u16);
            assert(uncompressed@ =~= old(uncompressed)@ + uncompressed_rdata(b, p));
        } else {
            extend_from_range(uncompressed, packet, name_end, d + rr_rdlen);
        }
    }

    /// Writes `count` records of `section`, which start at `start`, without
    /// compression, and notes in `new_offset` where the record that stands
    /// at `ref_offset` has gone.
    fn uncompress_section(
        uncompressed: &mut Vec<u8>,
        packet: &[u8],
        start: usize,
        count: u16,
        section: Section,
        ref_offset: usize,
        new_offset: &mut Option<usize>,
    )
        requires
            start <= packet.len(),
            records_at(packet@, start as int, count as int, section, packet@.len() as int) || exists|
                end: int,
            |
                records_at(packet@, start as int, count as int, section, end),
        ensures
            final(uncompressed)@ == old(uncompressed)@ + uncompressed_records(
                packet@,
                start as int,
                count as int,
            ),
            crate::parsed_packet::opt_int(*final(new_offset)) == first_of(
                crate::parsed_packet::opt_int(*old(new_offset)),
                moved_in_records(
                    packet@,
                    start as int,
                    count as int,
                    ref_offset as int,
                    old(uncompressed)@.len() as int,
                ),
            ),
    {
        let ghost b = packet@;
        let ghost end: int = choose|end: int|
            records_at(packet@, start as int, count as int, section, end);
        let mut o: usize = start;
        let mut i: u16 = 0;
        while i < count
            invariant
                i <= count,
                o <= packet.len(),
                b == packet@,
                records_at(b, o as int, count - i, section, end),
                old(uncompressed)@ + uncompressed_records(b, start as int, count as int)
                    == uncompressed@ + uncompressed_records(b, o as int, count - i),
                first_of(
                    crate::parsed_packet::opt_int(*old(new_offset)),
                    moved_in_records(
                        b,
                        start as int,
                        count as int,
                        ref_offset as int,
                        old(uncompressed)@.len() as int,
                    ),
                ) == first_of(
                    crate::parsed_packet::opt_int(*new_offset),
                    moved_in_records(
                        b,
                        o as int,
                        count - i,
                        ref_offset as int,
                        uncompressed@.len() as int,
                    ),
                ),
            decreases count - i,
        {
            proof {
                lemma_rr_shape(b, o as int, section);
            }
            if new_offset.is_none() && o == ref_offset {
                *new_offset = Some(uncompressed.len());
            }
            let ghost before = uncompressed@;
            let name_end: usize = o + 0;
            let copied = Self::copy_uncompressed_name(uncompressed, packet, o);
            let name_end: usize = copied.final_offset;
            Self::uncompress_rdata(uncompressed, packet, name_end);
            let next: usize = name_end + DNS_RR_HEADER_SIZE + read_be16(
                packet,
                name_end + DNS_RR_RDLEN_OFFSET,
            ) as usize;
            proof {
                assert(uncompressed@ =~= before + uncompressed_rr(b, o as int));
                assert(old(uncompressed)@ + uncompressed_records(b, start as int, count as int)
                    =~= uncompressed@ + uncompressed_records(b, next as int, count - i - 1));
            }
            o = next;
            i += 1;
        }
    }

    /// Writes the message of `parsed_packet` without compression, and finds
    /// where the record, or the end, that stands at `ref_offset` has gone.
    pub fn uncompress_parsed(parsed_packet: &ParsedPacket, ref_offset: usize) -> (r: (
        Vec<u8>,
        Option<usize>,
    ))
        requires
            parsed_packet.scanned(),
        ensures
            r.0@ == uncompressed(parsed_packet.bytes()),
            crate::parsed_packet::opt_int(r.1) == moved_offset(
                parsed_packet.bytes(),
                ref_offset as int,
            ),
    {
        let packet = parsed_packet.packet();
        let ghost b = packet@;
        proof {
            lemma_layout(b);
        }
        let mut new_offset: Option<usize> = None;
        let mut uncompressed: Vec<u8> = Vec::new();
        extend_from_range(&mut uncompressed, packet, 0, DNS_HEADER_SIZE);
        if let Some(offset) = parsed_packet.offset_question {
            proof {
                lemma_question_shape(b, offset as int, false);
            }
            if ref_offset == offset {
                new_offset = Some(uncompressed.len());
            }
            let copied = Self::copy_uncompressed_name(&mut uncompressed, packet, offset);
            assert(copied.final_offset + DNS_RR_QUESTION_HEADER_SIZE <= packet.len());
            extend_from_range(
                &mut uncompressed,
                packet,
                copied.final_offset,
                copied.final_offset + DNS_RR_QUESTION_HEADER_SIZE,
            );
        }
        assert(uncompressed@ =~= b.subrange(0, DNS_HEADER_SIZE as int) + uncompressed_questions(b));
        let ancount: u16 = DNSSector::ancount(packet);
        let nscount: u16 = DNSSector::nscount(packet);
        let arcount: u16 = DNSSector::arcount(packet);
        let an_start: usize = match parsed_packet.offset_answers {
            Some(o) => o,
            None => 0,
        };
        let ns_start: usize = match parsed_packet.offset_nameservers {
            Some(o) => o,
            None => 0,
        };
        let ar_start: usize = match parsed_packet.offset_additional {
            Some(o) => o,
            None => 0,
        };
        if ancount > 0 {
            Self::uncompress_section(
                &mut uncompressed,
                packet,
                an_start,
                ancount,
                Section::Answer,
                ref_offset,
                &mut new_offset,
            );
        }
        if nscount > 0 {
            Self::uncompress_section(
                &mut uncompressed,
                packet,
                ns_start,
                nscount,
                Section::NameServers,
                ref_offset,
                &mut new_offset,
            );
        }
        if arcount > 0 {
            Self::uncompress_section(
                &mut uncompressed,
                packet,
                ar_start,
                arcount,
                Section::Additional,
                ref_offset,
                &mut new_offset,
            );
        }
        assert(uncompressed@ =~= crate::compress::uncompressed(b));
        if ref_offset == packet.len() {
            new_offset = Some(uncompressed.len());
        }
        (uncompressed, new_offset)
    }

    /// Validates `packet` and writes it without compression. Also returns
    /// where the record, or the end, that stands at `ref_offset` in `packet`
    /// stands in the result.
    pub fn uncompress_with_previous_offset(packet: &[u8], ref_offset: usize) -> (r: Result<
        (Vec<u8>, usize),
        DSError,
    >)
        ensures
            match message_scan(packet@, true) {
                Err(e) => r == Err::<(Vec<u8>, usize), DSError>(e),
                Ok(_) => match moved_offset(packet@, ref_offset as int) {
                    Some(n) => r is Ok && r->Ok_0.0@ == uncompressed(packet@) && r->Ok_0.1 == n,
                    None => r == Err::<(Vec<u8>, usize), DSError>(
                        DSError::InternalError("Previous offset not found at a record boundary"),
                    ),
                },
            },
    {
        let mut owned: Vec<u8> = Vec::with_capacity(packet.len());
        extend_from_range(&mut owned, packet, 0, packet.len());
        assert(owned@ =~= packet@);
        let dns_sector = match DNSSector::new(owned) {
            Ok(dns_sector) => dns_sector,
            Err(e) => return Err(e),
        };
        let parsed_packet = dns_sector.parse()?;
        let (uncompressed, new_offset) = Self::uncompress_parsed(&parsed_packet, ref_offset);
        match new_offset {
            Some(n) => Ok((uncompressed, n)),
            None => Err(DSError::InternalError("Previous offset not found at a record boundary")),
        }
    }

    /// Validates `packet` and writes it without compression.
    pub fn uncompress(packet: &[u8]) -> (r: Result<Vec<u8>, DSError>)
        ensures
            match message_scan(packet@, true) {
                Err(e) => r == Err::<Vec<u8>, DSError>(e),
                Ok(_) => r is Ok && r->Ok_0@ == uncompressed(packet@),
            },
    {
        match Self::uncompress_with_previous_offset(packet, DNS_HEADER_SIZE) {
            Ok(x) => Ok(x.0),
            Err(e) => Err(e),
        }
    }

    /// Compresses trusted record's data and puts the result into `compressed`.
    /// `name_end` is where the fixed header of the record starts.
    pub fn compress_rdata(
        dict: &mut SuffixDict,
        compressed: &mut Vec<u8>,
        packet: &[u8],
        name_end: usize,
    ) -> (r: Result<(), DSError>)
        requires
            name_end + DNS_RR_HEADER_SIZE + be16(packet@, name_end + 8) <= packet.len(),
            exists|o: int, section: Section|
                0 <= o && #[trigger] rr_scan(packet@, o, section, false) is Ok && name_at(
                    packet@,
                    o,
                ).end == name_end,
            old(dict).wf(),
        ensures
            final(dict).wf(),
            match crate::renamer::rewritten_rdata(
                crate::renamer::Emit { out: old(compressed)@, table: old(dict)@ },
                packet@,
                name_end as int,
                None,
            ) {
                Err(e) => r == Err::<(), DSError>(e),
                Ok(e2) => r is Ok && final(compressed)@ == e2.out && final(dict)@ == e2.table,
            },
    {
        crate::renamer::Renamer::copy_with_replaced_rdata(compressed, packet, name_end, dict, None)
    }

    /// Validates `packet` and writes it again with every name compressed
    /// through one dictionary of suffixes.
    pub fn compress(packet: &[u8]) -> (r: Result<Vec<u8>, DSError>)
        ensures
            match message_scan(packet@, true) {
                Err(e) => r == Err::<Vec<u8>, DSError>(e),
                Ok(_) => match crate::renamer::rewritten(packet@, None, false, None) {
                    Err(e) => r == Err::<Vec<u8>, DSError>(e),
                    Ok(out) => r is Ok && r->Ok_0@ == out,
                },
            },
    {
        let mut owned: Vec<u8> = Vec::with_capacity(packet.len());
        extend_from_range(&mut owned, packet, 0, packet.len());
        assert(owned@ =~= packet@);
        let dns_sector = match DNSSector::new(owned) {
            Ok(dns_sector) => dns_sector,
            Err(e) => return Err(e),
        };
        let parsed_packet = dns_sector.parse()?;
        crate::renamer::Renamer::rewrite(&parsed_packet, None, false)
    }

    /// Compresses the name of `packet` that starts at `offset` using the suffix dictionary `dict`,
    /// and appends it to `compressed`. The name is trusted and holds no pointer.
    /// The dictionary takes the name to be written at the end of `compressed`.
    /// Returns the length of what was written as well as the location right after the uncompressed name.
    pub fn copy_compressed_name(
        dict: &mut SuffixDict,
        compressed: &mut Vec<u8>,
        packet: &[u8],
        offset: usize,
    ) -> (r: CompressedNameResult)
        requires
            old(dict).wf(),
            raw_walk(packet@, offset as int) is Some,
            old(compressed)@.len() + packet@.len() <= usize::MAX,
        ensures
            final(dict).wf(),
            ({
                let end = raw_walk(packet@, offset as int)->Some_0;
                let n = packet@.subrange(offset as int, end);
                let at = old(compressed)@.len() as int;
                &&& final(compressed)@ == old(compressed)@ + compressed_name(old(dict)@, n, at)
                &&& final(dict)@ == table_after_name(old(dict)@, n, at)
                &&& r.name_len == compressed_name(old(dict)@, n, at).len()
                &&& r.final_offset == end
            }),
    {
        let base_offset: usize = compressed.len();
        Self::copy_compressed_name_with_base_offset(dict, compressed, packet, offset, base_offset)
    }

    /// Compresses the name of `packet` that starts at `offset` using the suffix dictionary `dict`,
    /// and appends it to `compressed`. The name is trusted and holds no pointer.
    /// `base_offset` is the offset at which the name lands in the message that is being written:
    /// the dictionary keeps the suffixes of the name with the offsets they have from there on.
    /// Returns the length of what was written as well as the location right after the uncompressed name.
    pub fn copy_compressed_name_with_base_offset(
        dict: &mut SuffixDict,
        compressed: &mut Vec<u8>,
        packet: &[u8],
        offset: usize,
        base_offset: usize,
    ) -> (r: CompressedNameResult)
        requires
            old(dict).wf(),
            raw_walk(packet@, offset as int) is Some,
            base_offset + packet@.len() <= usize::MAX,
        ensures
            final(dict).wf(),
            ({
                let end = raw_walk(packet@, offset as int)->Some_0;
                let n = packet@.subrange(offset as int, end);
                &&& final(compressed)@ == old(compressed)@ + compressed_name(
                    old(dict)@,
                    n,
                    base_offset as int,
                )
                &&& final(dict)@ == table_after_name(old(dict)@, n, base_offset as int)
                &&& r.name_len == compressed_name(old(dict)@, n, base_offset as int).len()
                &&& r.final_offset == end
            }),
    {
        let ghost b = packet@;
        let ghost end: int = raw_walk(b, offset as int)->Some_0;
        let ghost whole = b.subrange(offset as int, end);
        let ghost t0 = dict@;
        proof {
            lemma_raw_walk_end(b, offset as int);
            lemma_raw_walk_suffix(b, offset as int, 0);
        }
        let uncompressed_name_len: usize = Self::raw_name_len(
            vstd::slice::slice_subrange(packet, offset, packet.len()),
        );
        let initial_compressed_len: usize = compressed.len();
        let final_offset: usize = offset + uncompressed_name_len;
        let mut pos: usize = offset;
        loop
            invariant_except_break
                old(compressed)@ + compressed_name(t0, whole, base_offset as int) == compressed@
                    + compressed_name(dict@, b.subrange(pos as int, end), base_offset + pos - offset),
                table_after_name(t0, whole, base_offset as int) == table_after_name(
                    dict@,
                    b.subrange(pos as int, end),
                    base_offset + pos - offset,
                ),
                offset <= pos < end,
                raw_walk(b, pos as int) == Some(end),
            invariant
                dict.wf(),
                b == packet@,
                end == final_offset,
                end <= b.len(),
                base_offset + packet@.len() <= usize::MAX,
                compressed@.len() >= old(compressed)@.len(),
            ensures
                compressed@ == old(compressed)@ + compressed_name(t0, whole, base_offset as int),
                dict@ == table_after_name(t0, whole, base_offset as int),
                dict.wf(),
                compressed@.len() >= old(compressed)@.len(),
            decreases end - pos,
        {
            let ghost rest = b.subrange(pos as int, end);
            let ghost at = base_offset + pos - offset;
            let ghost t = dict@;
            let suffix = vstd::slice::slice_subrange(packet, pos, final_offset);
            proof {
                dict.lemma_hit_bound(rest, at);
                assert(rest[0] == b[pos as int]);
            }
            if let Some(ref_offset) = dict.insert(suffix, base_offset + (pos - offset)) {
                compressed.push((0xc0 + ref_offset / 256) as u8);
                compressed.push((ref_offset % 256) as u8);
                proof {
                    assert(compressed_name(t, rest, at) == pointer_bytes(ref_offset as int));
                    assert(compressed@ =~= old(compressed)@ + compressed_name(
                        t0,
                        whole,
                        base_offset as int,
                    ));
                }
                break ;
            }
            let label_len: usize = packet[pos] as usize;
            proof {
                if label_len != 0 {
                    lemma_raw_walk_end(b, pos + 1 + label_len);
                }
            }
            let offset_next: usize = pos + 1 + label_len;
            let ghost before = compressed@;
            extend_from_range(compressed, packet, pos, offset_next);
            proof {
                assert(b.subrange(pos as int, offset_next as int) =~= rest.subrange(
                    0,
                    1 + label_len,
                ));
                if label_len != 0 {
                    assert(rest.subrange(1 + label_len, rest.len() as int) =~= b.subrange(
                        offset_next as int,
                        end,
                    ));
                    assert(compressed_name(t, rest, at) == rest.subrange(0, 1 + label_len)
                        + compressed_name(
                        dict@,
                        b.subrange(offset_next as int, end),
                        at + 1 + label_len,
                    ));
                    assert(old(compressed)@ + compressed_name(t0, whole, base_offset as int)
                        =~= compressed@ + compressed_name(
                        dict@,
                        b.subrange(offset_next as int, end),
                        at + 1 + label_len,
                    ));
                } else {
                    assert(compressed_name(t, rest, at) == rest.subrange(0, 1));
                    assert(compressed@ =~= old(compressed)@ + compressed_name(
                        t0,
                        whole,
                        base_offset as int,
                    ));
                }
            }
            pos = offset_next;
            if label_len == 0 {
                break ;
            }
        }
        CompressedNameResult { name_len: compressed.len() - initial_compressed_len, final_offset }
    }
}


struct Suffix {
    offset: usize,
    len: usize,
    suffix: Vec<u8>,
}

/// A bounded dictionary of the suffixes that have been written to a
/// message, each with its offset, through which later names are compressed.
pub struct SuffixDict {
    count: usize,
    index: usize,
    suffixes: Vec<Suffix>,
}

impl SuffixDict {
    /// What the dictionary holds.
    pub closed spec fn view(&self) -> SuffixTable {
        SuffixTable {
            entries: Seq::new(
                self.suffixes@.len(),
                |i: int|
                    SuffixEntry {
                        offset: self.suffixes@[i].offset as int,
                        name: self.suffixes@[i].suffix@,
                    },
            ),
            index: self.index as int,
        }
    }

    /// The invariant of the dictionary: at most 32 entries, each between 3
    /// and 127 bytes long and at an offset that a pointer can refer to, and
    /// the next slot is the one behind the last entry until all are taken.
    pub closed spec fn wf(&self) -> bool {
        &&& self.count == self.suffixes@.len()
        &&& self.count <= MAX_SUFFIXES
        &&& self.index <= self.count
        &&& self.index < MAX_SUFFIXES
        &&& self.count < MAX_SUFFIXES ==> self.index == self.count
        &&& forall|i: int|
            0 <= i < self.suffixes@.len() ==> {
                &&& (#[trigger] self.suffixes@[i]).len == self.suffixes@[i].suffix@.len()
                &&& 2 < self.suffixes@[i].len <= MAX_SUFFIX_LEN
                &&& self.suffixes@[i].offset < MAX_POINTER_OFFSET
            }
    }

    /// Every offset that the dictionary holds is one that a pointer can refer to.
    pub proof fn lemma_hit_bound(&self, suffix: Seq<u8>, offset: int)
        requires
            self.wf(),
        ensures
            table_hit(self@, suffix, offset) matches Some(r) ==> 0 <= r < MAX_POINTER_OFFSET,
    {
        self.lemma_lookup_bound(suffix, 0);
    }

    proof fn lemma_lookup_bound(&self, suffix: Seq<u8>, i: int)
        requires
            self.wf(),
            0 <= i,
        ensures
            table_lookup(self@.entries, suffix, i) matches Some(r) ==> 0 <= r < MAX_POINTER_OFFSET,
        decreases self@.entries.len() - i,
    {
        if i < self@.entries.len() {
            assert(self.suffixes@[i].offset < MAX_POINTER_OFFSET);
            self.lemma_lookup_bound(suffix, i + 1);
        }
    }

    /// Creates a new suffix dictionary
    pub fn new() -> (r: Self)
        ensures
            r.wf(),
            r@.entries.len() == 0,
            r@.index == 0,
    {
        SuffixDict { count: 0, index: 0, suffixes: Vec::new() }
    }

    /// Inserts a new suffix into the suffix table
    /// Returns the offset of an existing suffix, if there is any, or `None` if there was none.
    pub fn insert(&mut self, suffix: &[u8], offset: usize) -> (r: Option<usize>)
        requires
            old(self).wf(),
        ensures
            final(self).wf(),
            final(self)@ == table_insert(old(self)@, suffix@, offset as int),
            crate::parsed_packet::opt_int(r) == table_hit(old(self)@, suffix@, offset as int),
            r matches Some(o) ==> o < MAX_POINTER_OFFSET,
    {
        if offset >= MAX_POINTER_OFFSET {
            return None;
        }
        let suffix_len: usize = suffix.len();
        if suffix_len <= 2 || suffix_len > MAX_SUFFIX_LEN {
            return None;
        }
        let mut i: usize = 0;
        while i < self.count
            invariant
                self.wf(),
                *self == *old(self),
                i <= self.count,
                suffix_len == suffix@.len(),
                !table_refuses(suffix@, offset as int),
                table_lookup(self@.entries, suffix@, 0) == table_lookup(
                    self@.entries,
                    suffix@,
                    i as int,
                ),
            decreases self.count - i,
        {
            let candidate = &self.suffixes[i];
            assert(self@.entries[i as int].offset == candidate.offset);
            assert(self@.entries[i as int].name == candidate.suffix@);
            if candidate.len <= suffix_len && Self::raw_names_eq_ignore_case(
                suffix,
                candidate.suffix.as_slice(),
            ) {
                assert(candidate.len == candidate.suffix@.len());
                assert(table_lookup(self@.entries, suffix@, i as int) == Some(
                    candidate.offset as int,
                ));
                return Some(candidate.offset);
            }
            i += 1;
        }
        let mut stored: Vec<u8> = Vec::with_capacity(suffix_len);
        extend_from_range(&mut stored, suffix, 0, suffix_len);
        assert(stored@ =~= suffix@);
        let entry = Suffix { offset, len: suffix_len, suffix: stored };
        let ghost before = self@;
        if self.index < self.suffixes.len() {
            self.suffixes[self.index] = entry;
        } else {
            self.suffixes.push(entry);
        }
        self.index += 1;
        if self.index > self.count {
            self.count = self.index;
        }
        if self.index == MAX_SUFFIXES {
            self.index = 1;  // keep the first entry, which is likely to be the question
        }
        assert(self@.entries =~= table_add(before, suffix@, offset as int).entries);
        None
    }

    /// Compares two trusted raw DNS names.
    /// Returns `true` if they are equivalent, using a case-insensitive comparison.
    /// Stops after the last label even if there are more data in the slice.
    pub fn raw_names_eq_ignore_case(name1: &[u8], name2: &[u8]) -> (r: bool)
        ensures
            r == raw_names_eq(name1@, name2@),
    {
        reveal(eq_ignore_ascii_case);
        let mut label_len: u8 = 0;
        let mut i: usize = 0;
        while i < name1.len() && i < name2.len()
            invariant
                i <= name1@.len(),
                i <= name2@.len(),
                i + label_len <= name1@.len() ==> raw_walk(name1@, i + label_len) == raw_walk(
                    name1@,
                    0,
                ),
                i + label_len > name1@.len() ==> raw_walk(name1@, 0) is None,
                forall|k: int| 0 <= k < i ==> ascii_lower(#[trigger] name1@[k]) == ascii_lower(name2@[k]),
            decreases name1@.len() - i,
        {
            let c1: u8 = name1[i];
            let c2: u8 = name2[i];
            proof {
                reveal(eq_ignore_ascii_case);
            }
            if to_ascii_lower(c1) != to_ascii_lower(c2) {
                proof {
                    if raw_walk(name1@, 0) is Some {
                        lemma_raw_walk_end(name1@, i + label_len);
                        let end = raw_walk(name1@, 0)->Some_0;
                        if end <= name2@.len() && eq_ignore_ascii_case(
                            name1@.subrange(0, end),
                            name2@.subrange(0, end),
                        ) {
                            assert(name1@.subrange(0, end)[i as int] == c1);
                            assert(name2@.subrange(0, end)[i as int] == c2);
                        }
                    }
                }
                return false;
            }
            if label_len == 0 {
                if c1 == 0 {
                    proof {
                        let end = i + 1;
                        assert(raw_walk(name1@, 0) == Some(end));
                        assert forall|k: int| 0 <= k < end implies ascii_lower(
                            #[trigger] name1@.subrange(0, end)[k],
                        ) == ascii_lower(name2@.subrange(0, end)[k]) by {
                            assert(name1@.subrange(0, end)[k] == name1@[k]);
                        }
                    }
                    return true;
                }
                proof {
                    if i + 1 + c1 > name1@.len() {
                        assert(raw_walk(name1@, i + c1 + 1) is None);
                        assert(raw_walk(name1@, i as int) is None);
                    }
                }
                label_len = c1;
            } else {
                label_len -= 1;
            }
            i += 1;
        }
        proof {
            if raw_walk(name1@, 0) is Some {
                lemma_raw_walk_end(name1@, i + label_len);
            }
        }
        false
    }
}

} // verus!
