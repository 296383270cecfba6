//! Rewriting of the names of a message: a suffix is replaced in every name,
//! and the message is written again with compression.

use crate::compress::compressed_name;
use crate::compress::lemma_raw_walk_end;
use crate::compress::lemma_walk_from_ok;
use crate::compress::lemma_walk_plain_end;
use crate::compress::name_at;
use crate::compress::raw_walk;
use crate::compress::rr_next;
use crate::compress::table_after_name;
use crate::compress::walk_name;
use crate::compress::Compress;
use crate::compress::SuffixDict;
use crate::compress::SuffixTable;
use crate::constants::bytes_eq_ignore_ascii_case;
use crate::constants::eq_ignore_ascii_case;
use crate::constants::Section;
use crate::constants::Type;
use crate::constants::DNS_HEADER_SIZE;
use crate::constants::DNS_MAX_HOSTNAME_INDIRECTIONS;
use crate::constants::DNS_MAX_HOSTNAME_LEN;
use crate::constants::DNS_QUESTION_OFFSET;
use crate::constants::DNS_RR_HEADER_SIZE;
use crate::constants::DNS_RR_QUESTION_HEADER_SIZE;
use crate::constants::DNS_RR_RDLEN_OFFSET;
use crate::dns_sector::an_count;
use crate::dns_sector::answers_scan;
use crate::dns_sector::ar_count;
use crate::dns_sector::lemma_layout;
use crate::dns_sector::lemma_question_shape;
use crate::dns_sector::lemma_rr_shape;
use crate::dns_sector::nameservers_scan;
use crate::dns_sector::ns_count;
use crate::dns_sector::qd_count;
use crate::dns_sector::questions_end;
use crate::dns_sector::rdata_scan;
use crate::dns_sector::records_at;
use crate::dns_sector::rr_scan;
use crate::dns_sector::DNSSector;
use crate::errors::DSError;
use crate::parsed_packet::ParsedPacket;
use crate::wire::be16;
use crate::wire::extend_from_range;
use crate::wire::put_be16;
use crate::wire::read_be16;
use crate::wire::write_be16;
use vstd::prelude::*;

verus! {

/// Where the walk over the labels of `name` from `i` on stops: at `offset`
/// if a label starts there, at the final zero of the name if none does.
pub open spec fn boundary_walk(name: Seq<u8>, i: int, offset: int) -> int
    decreases (if i < name.len() {
        name.len() - i
    } else {
        0
    }),
{
    if i < 0 || i >= name.len() || name[i] == 0 || i == offset {
        i
    } else {
        boundary_walk(name, i + name[i] + 1, offset)
    }
}

/// Whether the labels of `name` from `i` on are those of `source` from
/// `i - offset` on: of the same lengths, and equal up to ASCII case.
pub open spec fn labels_match(name: Seq<u8>, source: Seq<u8>, i: int, offset: int) -> bool
    decreases (if i < name.len() {
        name.len() - i
    } else {
        0
    }),
{
    if i < 0 || i >= name.len() || name[i] == 0 {
        true
    } else {
        let len = name[i];
        &&& len == source[i - offset]
        &&& eq_ignore_ascii_case(
            name.subrange(i + 1, i + 1 + len),
            source.subrange(i + 1 - offset, i + 1 + len - offset),
        )
        &&& labels_match(name, source, i + 1 + len, offset)
    }
}

/// The raw name `name` with its suffix `source` replaced by `target`.
///
/// An empty `source` or `target` is an error, whatever `name` and
/// `match_suffix` are. Otherwise nothing is replaced, and the answer is
/// `None`, where `name` is shorter than `source`, where the lengths differ
/// and `match_suffix` is not set, where no label of `name` starts where
/// `source` would, or where the labels differ. Where the lengths allow a
/// match, a `source` or `target` that starts with a zero, and a result of
/// more than 255 bytes, are errors.
pub open spec fn replace_spec(
    name: Seq<u8>,
    target: Seq<u8>,
    source: Seq<u8>,
    match_suffix: bool,
) -> Result<Option<Seq<u8>>, DSError> {
    let offset = name.len() - source.len();
    if source.len() == 0 || target.len() == 0 {
        Err(DSError::InvalidName("Empty name"))
    } else if name.len() < source.len() || (!match_suffix && name.len() != source.len()) {
        Ok(None)
    } else if source[0] == 0 || target[0] == 0 {
        Err(DSError::InvalidName("A non-empty name cannot start with a NUL byte"))
    } else if name[boundary_walk(name, 0, offset)] == 0 {
        Ok(None)
    } else if !labels_match(name, source, offset, offset) {
        Ok(None)
    } else if offset + target.len() > DNS_MAX_HOSTNAME_LEN {
        Err(DSError::InvalidName("Name too long"))
    } else {
        Ok(Some(name.subrange(0, offset) + target))
    }
}

/// The walk to a label boundary stays on the chain of labels of the name.
pub proof fn lemma_boundary_walk(name: Seq<u8>, i: int, offset: int)
    requires
        0 <= i,
        raw_walk(name, i) == Some(name.len() as int),
    ensures
        i <= boundary_walk(name, i, offset) < name.len(),
        raw_walk(name, boundary_walk(name, i, offset)) == Some(name.len() as int),
        name[boundary_walk(name, i, offset)] != 0 ==> boundary_walk(name, i, offset) == offset,
    decreases name.len() - i,
{
    lemma_raw_walk_end(name, i);
    if name[i] != 0 && i != offset {
        lemma_raw_walk_end(name, i + name[i] + 1);
        lemma_boundary_walk(name, i + name[i] + 1, offset);
    }
}


/// What is to be replaced in the names of a message.
#[derive(Clone, Copy, Debug)]
pub struct Substitution<'a> {
    /// The raw name that is put in.
    pub target_name: &'a [u8],
    /// The raw name that is taken out.
    pub source_name: &'a [u8],
    /// Whether `source_name` is looked for at the end of a name, rather
    /// than having to be the whole name.
    pub match_suffix: bool,
}

/// What is to be replaced in the names of a message, as values.
pub struct Rename {
    pub target: Seq<u8>,
    pub source: Seq<u8>,
    pub match_suffix: bool,
}

/// The substitution as values.
pub open spec fn sub_view(sub: Option<Substitution>) -> Option<Rename> {
    match sub {
        Some(s) => Some(
            Rename { target: s.target_name@, source: s.source_name@, match_suffix: s.match_suffix },
        ),
        None => None,
    }
}

/// The raw name `n` after the substitution, where there is one.
pub open spec fn renamed(n: Seq<u8>, sub: Option<Rename>) -> Result<Seq<u8>, DSError> {
    match sub {
        None => Ok(n),
        Some(s) => match replace_spec(n, s.target, s.source, s.match_suffix) {
            Err(e) => Err(e),
            Ok(None) => Ok(n),
            Ok(Some(r)) => Ok(r),
        },
    }
}

/// Whether the name that `sub` puts in is a raw name: a chain of labels
/// that ends with the slice.
pub open spec fn substitution_ok(sub: Option<Rename>) -> bool {
    sub matches Some(s) ==> raw_walk(s.target, 0) == Some(s.target.len() as int)
}

/// A message that is being written: its bytes so far, and the dictionary of
/// the suffixes that stand in them.
pub struct Emit {
    pub out: Seq<u8>,
    pub table: SuffixTable,
}

/// The largest size of a message.
pub const DNS_MAX_PACKET_SIZE: usize = 0xffff;

/// `e` after the name of `b` at `o` has been written to it: the name is
/// read without compression, the substitution is made, and the result is
/// written with compression. A message that has grown past 65535 bytes is
/// not written to.
pub open spec fn rewritten_name(e: Emit, b: Seq<u8>, o: int, sub: Option<Rename>) -> Result<
    Emit,
    DSError,
> {
    if e.out.len() > DNS_MAX_PACKET_SIZE {
        Err(DSError::PacketTooLarge)
    } else {
        match renamed(name_at(b, o).name, sub) {
            Err(err) => Err(err),
            Ok(n) => Ok(
                Emit {
                    out: e.out + compressed_name(e.table, n, e.out.len() as int),
                    table: table_after_name(e.table, n, e.out.len() as int),
                },
            ),
        }
    }
}

/// `e` with `bytes` behind it.
pub open spec fn emit_raw(e: Emit, bytes: Seq<u8>) -> Emit {
    Emit { out: e.out + bytes, table: e.table }
}

/// `e` with the length of the data of the record whose fixed header stands
/// at `h` set to what has been written behind that header.
pub open spec fn patch_rdlen(e: Emit, h: int) -> Emit {
    Emit {
        out: put_be16(
            e.out,
            h + DNS_RR_RDLEN_OFFSET,
            e.out.len() - h - DNS_RR_HEADER_SIZE,
        ),
        table: e.table,
    }
}

/// `e` after the fixed header and the data of the record of `b` whose name
/// ends at `p` have been written to it. The names in the data of an NS,
/// CNAME, PTR, MX or SOA record are written as `rewritten_name` says, and
/// the length of the data is set to what the data then takes.
pub open spec fn rewritten_rdata(e: Emit, b: Seq<u8>, p: int, sub: Option<Rename>) -> Result<
    Emit,
    DSError,
> {
    let rr_type = be16(b, p);
    let rdlen = be16(b, p + 8);
    let d = p + DNS_RR_HEADER_SIZE;
    let h = e.out.len() as int;
    let e1 = emit_raw(e, b.subrange(p, d));
    if rr_type == Type::NS.code() || rr_type == Type::CNAME.code() || rr_type == Type::PTR.code() {
        match rewritten_name(e1, b, d, sub) {
            Err(err) => Err(err),
            Ok(e2) => Ok(patch_rdlen(e2, h)),
        }
    } else if rr_type == Type::MX.code() {
        match rewritten_name(emit_raw(e1, b.subrange(d, d + 2)), b, d + 2, sub) {
            Err(err) => Err(err),
            Ok(e2) => Ok(patch_rdlen(e2, h)),
        }
    } else if rr_type == Type::SOA.code() {
        match rewritten_name(e1, b, d, sub) {
            Err(err) => Err(err),
            Ok(e2) => match rewritten_name(e2, b, name_at(b, d).end, sub) {
                Err(err) => Err(err),
                Ok(e3) => Ok(
                    patch_rdlen(
                        emit_raw(
                            e3,
                            b.subrange(
                                name_at(b, name_at(b, d).end).end,
                                name_at(b, name_at(b, d).end).end + 20,
                            ),
                        ),
                        h,
                    ),
                ),
            },
        }
    } else {
        Ok(emit_raw(e, b.subrange(p, d + rdlen)))
    }
}

/// `e` after the record of `b` at `o` has been written to it.
pub open spec fn rewritten_rr(e: Emit, b: Seq<u8>, o: int, sub: Option<Rename>) -> Result<
    Emit,
    DSError,
> {
    match rewritten_name(e, b, o, sub) {
        Err(err) => Err(err),
        Ok(e1) => rewritten_rdata(e1, b, name_at(b, o).end, sub),
    }
}

/// `e` after the `count` records of `b` that follow each other from `o` on
/// have been written to it. With `skip_opt` an OPT record is left out.
pub open spec fn rewritten_records(
    e: Emit,
    b: Seq<u8>,
    o: int,
    count: int,
    sub: Option<Rename>,
    skip_opt: bool,
) -> Result<Emit, DSError>
    decreases count,
{
    if count <= 0 {
        Ok(e)
    } else if skip_opt && be16(b, name_at(b, o).end) == Type::OPT.code() {
        rewritten_records(e, b, rr_next(b, o), count - 1, sub, skip_opt)
    } else {
        match rewritten_rr(e, b, o, sub) {
            Err(err) => Err(err),
            Ok(e1) => rewritten_records(e1, b, rr_next(b, o), count - 1, sub, skip_opt),
        }
    }
}

/// `e` after the question section of `b` has been written to it.
pub open spec fn rewritten_questions(e: Emit, b: Seq<u8>, sub: Option<Rename>) -> Result<
    Emit,
    DSError,
> {
    if qd_count(b) > 0 {
        match rewritten_name(e, b, DNS_QUESTION_OFFSET as int, sub) {
            Err(err) => Err(err),
            Ok(e1) => Ok(
                emit_raw(
                    e1,
                    b.subrange(
                        name_at(b, DNS_QUESTION_OFFSET as int).end,
                        name_at(b, DNS_QUESTION_OFFSET as int).end + DNS_RR_QUESTION_HEADER_SIZE,
                    ),
                ),
            ),
        }
    } else {
        Ok(e)
    }
}

/// The OPT record of `b`, from its name to the last of its options, where
/// `edns` is the offset of its options and there is one.
pub open spec fn raw_edns(b: Seq<u8>, edns: Option<usize>) -> Seq<u8> {
    match edns {
        Some(start) if 1 + DNS_RR_HEADER_SIZE <= start && start + be16(b, start - 2) <= b.len() =>
        b.subrange(
            start - (1 + DNS_RR_HEADER_SIZE),
            start + be16(b, start - 2),
        ),
        _ => Seq::<u8>::empty(),
    }
}

/// The well-formed message `b` written again: its header; its question and
/// the records of its answer, name server and additional sections in the
/// order in which they stand, each name with the substitution made and
/// written with compression through one dictionary that starts empty. With
/// `opt_last` the OPT record is taken out of its place and put, as it is,
/// behind the last record.
pub open spec fn rewritten(
    b: Seq<u8>,
    sub: Option<Rename>,
    opt_last: bool,
    edns: Option<usize>,
) -> Result<Seq<u8>, DSError> {
    let e0 = Emit {
        out: b.subrange(0, DNS_HEADER_SIZE as int),
        table: SuffixTable { entries: Seq::empty(), index: 0 },
    };
    match rewritten_questions(e0, b, sub) {
        Err(err) => Err(err),
        Ok(e1) => match rewritten_records(e1, b, questions_end(b), an_count(b), sub, opt_last) {
            Err(err) => Err(err),
            Ok(e2) => match rewritten_records(
                e2,
                b,
                answers_scan(b).offset,
                ns_count(b),
                sub,
                opt_last,
            ) {
                Err(err) => Err(err),
                Ok(e3) => match rewritten_records(
                    e3,
                    b,
                    nameservers_scan(b).offset,
                    ar_count(b),
                    sub,
                    opt_last,
                ) {
                    Err(err) => Err(err),
                    Ok(e4) => Ok(
                        if opt_last {
                            e4.out + raw_edns(b, edns)
                        } else {
                            e4.out
                        },
                    ),
                },
            },
        }
    }
}

/// A name to which a raw name has been put in place of a suffix that
/// starts at a label is a raw name.
pub proof fn lemma_replaced_raw(name: Seq<u8>, target: Seq<u8>, i: int, offset: int)
    requires
        0 <= i <= offset < name.len(),
        raw_walk(name, i) == Some(name.len() as int),
        boundary_walk(name, i, offset) == offset,
        raw_walk(target, 0) == Some(target.len() as int),
    ensures
        raw_walk(name.subrange(0, offset) + target, i) == Some(offset + target.len()),
    decreases offset - i,
{
    let r = name.subrange(0, offset) + target;
    if i == offset {
        assert(r.subrange(offset, r.len() as int) =~= target);
        crate::compress::lemma_raw_walk_suffix(r, offset, 0);
    } else {
        lemma_raw_walk_end(name, i);
        assert(r[i] == name[i]);
        if name[i] != 0 {
            lemma_raw_walk_end(name, i + name[i] + 1);
            crate::renamer::lemma_boundary_walk(name, i + name[i] + 1, offset);
            lemma_replaced_raw(name, target, i + name[i] + 1, offset);
        }
    }
}

/// A raw name is written with compression in no more bytes than it has.
pub proof fn lemma_compressed_len(t: SuffixTable, n: Seq<u8>, at: int)
    requires
        raw_walk(n, 0) == Some(n.len() as int),
    ensures
        1 <= compressed_name(t, n, at).len() <= n.len(),
    decreases n.len(),
{
    lemma_raw_walk_end(n, 0);
    if crate::compress::table_hit(t, n, at) is None && n[0] != 0 {
        lemma_raw_walk_end(n, 1 + n[0]);
        crate::compress::lemma_raw_walk_suffix(n, 1 + n[0], 0);
        lemma_compressed_len(
            crate::compress::table_insert(t, n, at),
            n.subrange(1 + n[0], n.len() as int),
            at + 1 + n[0],
        );
    }
}

pub struct Renamer;

impl Renamer {
    /// Replaces the suffix `source_name` of the raw name `name` with `target_name`.
    /// If `match_suffix` is `true`, match the suffix instead of doing an exact match.
    /// `name` is a trusted raw name: its chain of labels ends with the slice.
    pub fn replace_raw(
        name: &[u8],
        target_name: &[u8],
        source_name: &[u8],
        match_suffix: bool,
    ) -> (r: Result<Option<Vec<u8>>, DSError>)
        requires
            raw_walk(name@, 0) == Some(name@.len() as int),
        ensures
            match replace_spec(name@, target_name@, source_name@, match_suffix) {
                Err(e) => r == Err::<Option<Vec<u8>>, DSError>(e),
                Ok(None) => r is Ok && r->Ok_0 is None,
                Ok(Some(n)) => r is Ok && r->Ok_0 is Some && r->Ok_0->Some_0@ == n,
            },
    {
        let name_len: usize = name.len();
        let source_name_len: usize = source_name.len();
        let target_name_len: usize = target_name.len();
        if source_name_len == 0 || target_name_len == 0 {
            return Err(DSError::InvalidName("Empty name"));
        }
        if name_len < source_name_len || (match_suffix == false && name_len != source_name_len) {
            return Ok(None);
        }
        if source_name[0] == 0 || target_name[0] == 0 {
            return Err(DSError::InvalidName("A non-empty name cannot start with a NUL byte"));
        }
        let offset: usize = name_len - source_name_len;
        proof {
            lemma_raw_walk_end(name@, 0);
            lemma_boundary_walk(name@, 0, offset as int);
        }
        let mut i: usize = 0;
        while name[i] != 0
            invariant
                i < name@.len(),
                name_len == name@.len(),
                raw_walk(name@, i as int) == Some(name@.len() as int),
                boundary_walk(name@, 0, offset as int) == boundary_walk(
                    name@,
                    i as int,
                    offset as int,
                ),
            ensures
                i < name@.len(),
                i == boundary_walk(name@, 0, offset as int),
                raw_walk(name@, i as int) == Some(name@.len() as int),
            decreases name@.len() - i,
        {
            if i == offset {
                break ;
            }
            proof {
                lemma_raw_walk_end(name@, i + name@[i as int] + 1);
            }
            i += name[i] as usize + 1;
        }
        if i >= name_len || (name[i] == 0 && name_len > 0) {
            return Ok(None);
        }
        if i != offset {
            return Err(DSError::InvalidName("Inconsistent encoding"));
        }
        while name[i] != 0
            invariant
                offset <= i < name@.len(),
                name_len == name@.len(),
                source_name_len == source_name@.len(),
                offset == name_len - source_name_len,
                raw_walk(name@, i as int) == Some(name@.len() as int),
                replace_spec(name@, target_name@, source_name@, match_suffix) == (if !labels_match(
                    name@,
                    source_name@,
                    offset as int,
                    offset as int,
                ) {
                    Ok::<Option<Seq<u8>>, DSError>(None)
                } else if offset + target_name@.len() > DNS_MAX_HOSTNAME_LEN {
                    Err::<Option<Seq<u8>>, DSError>(DSError::InvalidName("Name too long"))
                } else {
                    Ok::<Option<Seq<u8>>, DSError>(
                        Some(name@.subrange(0, offset as int) + target_name@),
                    )
                }),
                labels_match(name@, source_name@, offset as int, offset as int) == labels_match(
                    name@,
                    source_name@,
                    i as int,
                    offset as int,
                ),
            ensures
                labels_match(name@, source_name@, offset as int, offset as int),
            decreases name@.len() - i,
        {
            let label_len: usize = name[i] as usize;
            let source_label_len: usize = source_name[i - offset] as usize;
            if label_len != source_label_len {
                return Ok(None);
            }
            proof {
                lemma_raw_walk_end(name@, i + 1 + label_len);
            }
            i += 1;
            if !bytes_eq_ignore_ascii_case(
                vstd::slice::slice_subrange(name, i, i + label_len),
                vstd::slice::slice_subrange(source_name, i - offset, i - offset + label_len),
            ) {
                return Ok(None);
            }
            i += label_len;
        }
        if target_name_len > DNS_MAX_HOSTNAME_LEN || offset > DNS_MAX_HOSTNAME_LEN
            - target_name_len {
            return Err(DSError::InvalidName("Name too long"));
        }
        let mut res: Vec<u8> = Vec::with_capacity(offset + target_name_len);
        extend_from_range(&mut res, name, 0, offset);
        extend_from_range(&mut res, target_name, 0, target_name_len);
        assert(res@ =~= name@.subrange(0, offset as int) + target_name@);
        Ok(Some(res))
    }

    /// Reads the name of `packet` at `offset` without compression, makes the
    /// substitution in it, and writes it with compression to `renamed_packet`.
    pub fn copy_with_replaced_name(
        renamed_packet: &mut Vec<u8>,
        packet: &[u8],
        offset: usize,
        suffix_dict: &mut SuffixDict,
        sub: Option<Substitution>,
    ) -> (r: Result<(), DSError>)
        requires
            walk_name(packet@, offset as int) is Ok,
            old(suffix_dict).wf(),
            substitution_ok(sub_view(sub)),
        ensures
            final(suffix_dict).wf(),
            match rewritten_name(
                Emit { out: old(renamed_packet)@, table: old(suffix_dict)@ },
                packet@,
                offset as int,
                sub_view(sub),
            ) {
                Err(e) => r == Err::<(), DSError>(e),
                Ok(e2) => {
                    &&& r is Ok
                    &&& final(renamed_packet)@ == e2.out
                    &&& final(suffix_dict)@ == e2.table
                    &&& old(renamed_packet)@.len() < final(renamed_packet)@.len() <= old(renamed_packet)@.len() + DNS_MAX_HOSTNAME_LEN
                },
            },
    {
        if renamed_packet.len() > DNS_MAX_PACKET_SIZE {
            return Err(DSError::PacketTooLarge);
        }
        let mut name: Vec<u8> = Vec::with_capacity(DNS_MAX_HOSTNAME_LEN);
        let _copied = Compress::copy_uncompressed_name(&mut name, packet, offset);
        let ghost n0 = name_at(packet@, offset as int).name;
        proof {
            assert(name@ =~= n0);
            lemma_walk_from_ok(
                packet@,
                offset as int,
                packet@.len() as int,
                offset as int,
                DNS_MAX_HOSTNAME_INDIRECTIONS as int,
                0,
            );
            lemma_walk_plain_end(n0, 0, 0);
        }
        let replaced_name: Option<Vec<u8>> = match sub {
            Some(s) => Self::replace_raw(
                name.as_slice(),
                s.target_name,
                s.source_name,
                s.match_suffix,
            )?,
            None => None,
        };
        let renamed_packet_len: usize = renamed_packet.len();
        let ghost t = suffix_dict@;
        match replaced_name {
            None => {
                proof {
                    assert(name@.subrange(0, name@.len() as int) =~= n0);
                    lemma_compressed_len(t, n0, renamed_packet_len as int);
                }
                Compress::copy_compressed_name_with_base_offset(
                    suffix_dict,
                    renamed_packet,
                    name.as_slice(),
                    0,
                    renamed_packet_len,
                );
            },
            Some(replaced_name) => {
                proof {
                    let s = sub_view(sub)->Some_0;
                    let off = n0.len() - s.source.len();
                    lemma_raw_walk_end(n0, 0);
                    lemma_boundary_walk(n0, 0, off);
                    lemma_replaced_raw(n0, s.target, 0, off);
                    assert(replaced_name@.subrange(0, replaced_name@.len() as int)
                        =~= replaced_name@);
                    lemma_compressed_len(t, replaced_name@, renamed_packet_len as int);
                }
                Compress::copy_compressed_name_with_base_offset(
                    suffix_dict,
                    renamed_packet,
                    replaced_name.as_slice(),
                    0,
                    renamed_packet_len,
                );
            },
        };
        Ok(())
    }

    /// Writes the fixed header and the data of the record of `packet` whose
    /// name ends at `name_end` to `renamed_packet`, with the substitution
    /// made in the names that the data holds.
    pub fn copy_with_replaced_rdata(
        renamed_packet: &mut Vec<u8>,
        packet: &[u8],
        name_end: usize,
        suffix_dict: &mut SuffixDict,
        sub: Option<Substitution>,
    ) -> (r: Result<(), DSError>)
        requires
            name_end + DNS_RR_HEADER_SIZE + be16(packet@, name_end + 8) <= packet.len(),
            exists|o: int, section: Section|
                0 <= o && #[trigger] rr_scan(packet@, o, section, false) is Ok && name_at(
                    packet@,
                    o,
                ).end == name_end,
            old(suffix_dict).wf(),
            substitution_ok(sub_view(sub)),
        ensures
            final(suffix_dict).wf(),
            match rewritten_rdata(
                Emit { out: old(renamed_packet)@, table: old(suffix_dict)@ },
                packet@,
                name_end as int,
                sub_view(sub),
            ) {
                Err(e) => r == Err::<(), DSError>(e),
                Ok(e2) => r is Ok && final(renamed_packet)@ == e2.out && final(suffix_dict)@
                    == e2.table,
            },
    {
        reveal(rdata_scan);
        let ghost b = packet@;
        let ghost e = Emit { out: old(renamed_packet)@, table: old(suffix_dict)@ };
        let rr_type: u16 = read_be16(packet, name_end);
        let rr_rdlen: usize = read_be16(packet, name_end + DNS_RR_RDLEN_OFFSET) as usize;
        let d: usize = name_end + DNS_RR_HEADER_SIZE;
        let h: usize = renamed_packet.len();
        if rr_type == Type::NS.to_u16() || rr_type == Type::CNAME.to_u16() || rr_type
            == Type::PTR.to_u16() {
            extend_from_range(renamed_packet, packet, name_end, d);
            Self::copy_with_replaced_name(renamed_packet, packet, d, suffix_dict, sub)?;
            let new_rdlen: usize = renamed_packet.len() - h - DNS_RR_HEADER_SIZE;
            write_be16(renamed_packet.as_mut_slice(), h + DNS_RR_RDLEN_OFFSET, new_rdlen as u16);
        } else if rr_type == Type::MX.to_u16() {
            extend_from_range(renamed_packet, packet, name_end, d);
            extend_from_range(renamed_packet, packet, d, d + 2);
            Self::copy_with_replaced_name(renamed_packet, packet, d + 2, suffix_dict, sub)?;
            let new_rdlen: usize = renamed_packet.len() - h - DNS_RR_HEADER_SIZE;
            write_be16(renamed_packet.as_mut_slice(), h + DNS_RR_RDLEN_OFFSET, new_rdlen as u16);
        } else if rr_type == Type::SOA.to_u16() {
            extend_from_range(renamed_packet, packet, name_end, d);
            let name1_end: usize = crate::rr_iterator::RRIterator::skip_name(packet, d);
            let name2_end: usize = crate::rr_iterator::RRIterator::skip_name(packet, name1_end);
            Self::copy_with_replaced_name(renamed_packet, packet, d, suffix_dict, sub)?;
            Self::copy_with_replaced_name(renamed_packet, packet, name1_end, suffix_dict, sub)?;
            extend_from_range(renamed_packet, packet, name2_end, name2_end + 20);
            let new_rdlen: usize = renamed_packet.len() - h - DNS_RR_HEADER_SIZE;
            write_be16(renamed_packet.as_mut_slice(), h + DNS_RR_RDLEN_OFFSET, new_rdlen as u16);
        } else {
            extend_from_range(renamed_packet, packet, name_end, d + rr_rdlen);
        }
        Ok(())
    }

    /// Writes the question of `packet`, if it has one, to `renamed_packet`,
    /// with the substitution made in its name.
    pub fn rename_question_section(
        renamed_packet: &mut Vec<u8>,
        parsed_packet: &ParsedPacket,
        suffix_dict: &mut SuffixDict,
        sub: Option<Substitution>,
    ) -> (r: Result<(), DSError>)
        requires
            parsed_packet.wf(),
            old(suffix_dict).wf(),
            substitution_ok(sub_view(sub)),
        ensures
            final(suffix_dict).wf(),
            match rewritten_questions(
                Emit { out: old(renamed_packet)@, table: old(suffix_dict)@ },
                parsed_packet.bytes(),
                sub_view(sub),
            ) {
                Err(e) => r == Err::<(), DSError>(e),
                Ok(e2) => r is Ok && final(renamed_packet)@ == e2.out && final(suffix_dict)@
                    == e2.table,
            },
    {
        let packet = parsed_packet.packet();
        proof {
            lemma_layout(packet@);
        }
        if let Some(offset) = parsed_packet.offset_question {
            proof {
                lemma_question_shape(packet@, offset as int, false);
            }
            Self::copy_with_replaced_name(renamed_packet, packet, offset, suffix_dict, sub)?;
            let name_end: usize = crate::rr_iterator::RRIterator::skip_name(packet, offset);
            assert(name_end + DNS_RR_QUESTION_HEADER_SIZE <= packet.len());
            extend_from_range(
                renamed_packet,
                packet,
                name_end,
                name_end + DNS_RR_QUESTION_HEADER_SIZE,
            );
        }
        Ok(())
    }

    /// Writes the `count` records of `packet` that follow each other from
    /// `start` on to `renamed_packet`, with the substitution made in their
    /// names. With `skip_opt` an OPT record is left out.
    pub fn rename_response_section(
        renamed_packet: &mut Vec<u8>,
        packet: &[u8],
        start: usize,
        count: u16,
        section: Section,
        suffix_dict: &mut SuffixDict,
        sub: Option<Substitution>,
        skip_opt: bool,
    ) -> (r: Result<(), DSError>)
        requires
            start <= packet.len(),
            exists|end: int| records_at(packet@, start as int, count as int, section, end),
            old(suffix_dict).wf(),
            substitution_ok(sub_view(sub)),
        ensures
            final(suffix_dict).wf(),
            match rewritten_records(
                Emit { out: old(renamed_packet)@, table: old(suffix_dict)@ },
                packet@,
                start as int,
                count as int,
                sub_view(sub),
                skip_opt,
            ) {
                Err(e) => r == Err::<(), DSError>(e),
                Ok(e2) => r is Ok && final(renamed_packet)@ == e2.out && final(suffix_dict)@
                    == e2.table,
            },
    {
        let ghost b = packet@;
        let ghost e0 = Emit { out: old(renamed_packet)@, table: old(suffix_dict)@ };
        let ghost end: int = choose|end: int|
            records_at(packet@, start as int, count as int, section, end);
        let mut o: usize = start;
        let mut i: u16 = 0;
        while i < count
            invariant
                i <= count,
                o <= packet.len(),
                b == packet@,
                suffix_dict.wf(),
                substitution_ok(sub_view(sub)),
                e0 == (Emit { out: old(renamed_packet)@, table: old(suffix_dict)@ }),
                records_at(b, o as int, count - i, section, end),
                rewritten_records(e0, b, start as int, count as int, sub_view(sub), skip_opt)
                    == rewritten_records(
                    Emit { out: renamed_packet@, table: suffix_dict@ },
                    b,
                    o as int,
                    count - i,
                    sub_view(sub),
                    skip_opt,
                ),
            decreases count - i,
        {
            proof {
                lemma_rr_shape(b, o as int, section);
            }
            let name_end: usize = crate::rr_iterator::RRIterator::skip_name(packet, o);
            let rr_type: u16 = read_be16(packet, name_end);
            let next: usize = crate::rr_iterator::RRIterator::skip_rdata(packet, name_end);
            if !(skip_opt && rr_type == Type::OPT.to_u16()) {
                Self::copy_with_replaced_name(renamed_packet, packet, o, suffix_dict, sub)?;
                Self::copy_with_replaced_rdata(renamed_packet, packet, name_end, suffix_dict, sub)?;
            }
            o = next;
            i += 1;
        }
        Ok(())
    }

    /// Writes the message of `parsed_packet` again with compression, the
    /// substitution made in every name. With `opt_last` the OPT record is
    /// put behind the last record.
    pub fn rewrite(parsed_packet: &ParsedPacket, sub: Option<Substitution>, opt_last: bool) -> (r:
        Result<Vec<u8>, DSError>)
        requires
            parsed_packet.wf(),
            substitution_ok(sub_view(sub)),
        ensures
            match rewritten(
                parsed_packet.bytes(),
                sub_view(sub),
                opt_last,
                parsed_packet.offset_edns,
            ) {
                Err(e) => r == Err::<Vec<u8>, DSError>(e),
                Ok(out) => r is Ok && r->Ok_0@ == out,
            },
    {
        let packet = parsed_packet.packet();
        proof {
            lemma_layout(packet@);
        }
        let mut renamed_packet: Vec<u8> = Vec::with_capacity(packet.len());
        parsed_packet.copy_header(&mut renamed_packet);
        let mut suffix_dict = SuffixDict::new();
        assert(suffix_dict@ == (SuffixTable { entries: Seq::empty(), index: 0 })) by {
            assert(suffix_dict@.entries =~= Seq::empty());
        }
        Self::rename_question_section(&mut renamed_packet, parsed_packet, &mut suffix_dict, sub)?;
        let ancount: u16 = DNSSector::ancount(packet);
        let nscount: u16 = DNSSector::nscount(packet);
        let arcount: u16 = DNSSector::arcount(packet);
        let an_start: usize = match parsed_packet.offset_answers {
            Some(o) => o,
            None => 0,
        };
        let ns_start: usize = match parsed_packet.offset_nameservers {
            Some(o) => o,
            None => 0,
        };
        let ar_start: usize = match parsed_packet.offset_additional {
            Some(o) => o,
            None => 0,
        };
        if ancount > 0 {
            Self::rename_response_section(
                &mut renamed_packet,
                packet,
                an_start,
                ancount,
                Section::Answer,
                &mut suffix_dict,
                sub,
                opt_last,
            )?;
        }
        if nscount > 0 {
            Self::rename_response_section(
                &mut renamed_packet,
                packet,
                ns_start,
                nscount,
                Section::NameServers,
                &mut suffix_dict,
                sub,
                opt_last,
            )?;
        }
        if arcount > 0 {
            Self::rename_response_section(
                &mut renamed_packet,
                packet,
                ar_start,
                arcount,
                Section::Additional,
                &mut suffix_dict,
                sub,
                opt_last,
            )?;
        }
        if opt_last {
            parsed_packet.copy_raw_edns_section(&mut renamed_packet);
        }
        Ok(renamed_packet)
    }

    /// Replaces `source_name` with `target_name` in all names, in all records.
    /// If `match_suffix` is `true`, do suffix matching instead of exact matching
    /// This allows renaming `*.example.com` into `*.example.net`.
    /// Both names are raw names; `target_name` has to be a valid one.
    pub fn rename_with_raw_names(
        parsed_packet: &mut ParsedPacket,
        target_name: &[u8],
        source_name: &[u8],
        match_suffix: bool,
    ) -> (r: Result<Vec<u8>, DSError>)
        requires
            old(parsed_packet).wf(),
        ensures
            *final(parsed_packet) == *old(parsed_packet),
            match rename_spec(
                old(parsed_packet).bytes(),
                old(parsed_packet).offset_edns,
                target_name@,
                source_name@,
                match_suffix,
            ) {
                Err(e) => r == Err::<Vec<u8>, DSError>(e),
                Ok(out) => r is Ok && r->Ok_0@ == out,
            },
    {
        if target_name.len() == 0 || source_name.len() == 0 {
            return Err(DSError::InvalidName("Empty name"));
        }
        if target_name.len() > DNS_MAX_HOSTNAME_LEN || source_name.len() > DNS_MAX_HOSTNAME_LEN {
            return Err(DSError::InvalidName("Name too long"));
        }
        let target_end: usize = DNSSector::check_uncompressed_name(target_name, 0)?;
        if target_end != target_name.len() {
            return Err(DSError::InvalidName("Inconsistent encoding"));
        }
        proof {
            lemma_walk_plain_end(target_name@, 0, 0);
        }
        let sub = Substitution { target_name, source_name, match_suffix };
        Self::rewrite(parsed_packet, Some(sub), true)
    }
}

/// What `rename_with_raw_names` answers for the well-formed message `b`
/// whose OPT record has its options at `edns`: the message written again
/// with `source_name` replaced by `target_name`, or an error where one of
/// the two is empty or longer than 255 bytes, where `target_name` is not a
/// valid raw name that fills its slice, or where a name cannot be replaced.
pub open spec fn rename_spec(
    b: Seq<u8>,
    edns: Option<usize>,
    target_name: Seq<u8>,
    source_name: Seq<u8>,
    match_suffix: bool,
) -> Result<Seq<u8>, DSError> {
    if target_name.len() == 0 || source_name.len() == 0 {
        Err(DSError::InvalidName("Empty name"))
    } else if target_name.len() > DNS_MAX_HOSTNAME_LEN || source_name.len()
        > DNS_MAX_HOSTNAME_LEN {
        Err(DSError::InvalidName("Name too long"))
    } else {
        match crate::compress::check_plain(target_name, 0) {
            Err(e) => Err(e),
            Ok(end) => if end != target_name.len() {
                Err(DSError::InvalidName("Inconsistent encoding"))
            } else {
                rewritten(
                    b,
                    Some(Rename { target: target_name, source: source_name, match_suffix }),
                    true,
                    edns,
                )
            },
        }
    }
}

} // verus!
