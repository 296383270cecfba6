//! Wire-format constants and the enumerations of DNS classes, record types,
//! EDNS options, return codes, opcodes and message sections.

use crate::errors::DSError;
use vstd::prelude::*;
use vstd::std_specs::convert::FromSpecImpl;
use vstd::string::StringSliceAdditionalSpecFns;

verus! {

/// Size of the main DNS header, that includes flags and the size of each section.
pub const DNS_HEADER_SIZE: usize = 12;

/// Offset to the first (and usually only) record of the question section, from the start of the packet.
pub const DNS_QUESTION_OFFSET: usize = 12;

/// Maximum length of a host name.
pub const DNS_MAX_HOSTNAME_LEN: usize = 255;

/// Maximum number of indirections in a compressed name.
pub const DNS_MAX_HOSTNAME_INDIRECTIONS: u16 = 16;

/// Size of the header for a RR in the question section.
pub const DNS_RR_QUESTION_HEADER_SIZE: usize = 4;

/// Size of the header for a RR in a section that is not the question section.
pub const DNS_RR_HEADER_SIZE: usize = 10;

/// Offset to the type identifier, from the location right after the RR name.
pub const DNS_RR_TYPE_OFFSET: usize = 0;

/// Offset to the class identifier, from the location right after the RR name.
pub const DNS_RR_CLASS_OFFSET: usize = 2;

/// Offset to the TTL, from the location right after the RR name.
pub const DNS_RR_TTL_OFFSET: usize = 4;

/// Offset to the rdata length, from the location right after the RR name.
pub const DNS_RR_RDLEN_OFFSET: usize = 8;

/// Offset to the maximum payload for edns0-enabled UDP packets, for OPT RRs.
pub const DNS_OPT_RR_MAX_PAYLOAD_OFFSET: usize = 2;

/// Offset to the extended rcode, for OPT RRs.
pub const DNS_OPT_RR_EXT_RCODE_OFFSET: usize = 4;

/// Offset to the edns version number, for OPT RRs.
pub const DNS_OPT_RR_EDNS_VERSION_OFFSET: usize = 5;

/// Offset to the edns extended flags, for OPT RRs.
pub const DNS_OPT_RR_EDNS_EXT_FLAGS_OFFSET: usize = 6;

/// Offset to the total size of the edns records, within OPT RRS.
pub const DNS_OPT_RR_RDLEN_OFFSET: usize = 8;

/// Size of the header of an edns section.
pub const DNS_OPT_RR_HEADER_SIZE: usize = 10;

/// Offset to the extended RR code, from the beginning of an extended RR.
pub const DNS_EDNS_RR_CODE_OFFSET: usize = 0;

/// Offset to the length of an extended RR, from the beginning of the extended RR.
pub const DNS_EDNS_RR_RDLEN_OFFSET: usize = 2;

/// Size of the header of an extended RR.
pub const DNS_EDNS_RR_HEADER_SIZE: usize = 4;

/// Offset to the transaction ID, from the beginning of a DNS packet
pub const DNS_TID_OFFSET: usize = 0;

/// Offset to the flags (including rcode and opcode), from the beginning of the DNS packet
pub const DNS_FLAGS_OFFSET: usize = 2;

/// Offset to the return code, from the beginning of the DNS packet
pub const DNS_RCODE_OFFSET: usize = 3;

/// Query/response bit. Flags are 32 bit wide because they include the extended flags.
pub const DNS_FLAG_QR: u32 = 0x8000;

/// Authoritative answer.
pub const DNS_FLAG_AA: u32 = 0x0400;

/// Truncated message.
pub const DNS_FLAG_TC: u32 = 0x0200;

/// Recursion desired.
pub const DNS_FLAG_RD: u32 = 0x0100;

/// Recursion available.
pub const DNS_FLAG_RA: u32 = 0x0080;

/// Authentic data.
pub const DNS_FLAG_AD: u32 = 0x0020;

/// Checking disabled.
pub const DNS_FLAG_CD: u32 = 0x0010;

/// DNSSEC OK, the top bit of the extended flags.
pub const DNS_FLAG_DO: u32 = 0x8000_0000;

/// Maximum size of an uncompressed packet
pub const DNS_MAX_UNCOMPRESSED_SIZE: usize = 8192;

/// Maximum size of a compressed packet
pub const DNS_MAX_COMPRESSED_SIZE: usize = 4096;

/// ASCII lower-case form of a byte: `A`..=`Z` map to `a`..=`z`, every other byte to itself.
pub open spec fn ascii_lower(c: u8) -> u8 {
    if 0x41 <= c <= 0x5a {
        (c + 0x20) as u8
    } else {
        c
    }
}

/// Two byte strings are equal up to ASCII case.
#[verifier::opaque]
pub open spec fn eq_ignore_ascii_case(a: Seq<u8>, b: Seq<u8>) -> bool {
    &&& a.len() == b.len()
    &&& forall|i: int| 0 <= i < a.len() ==> ascii_lower(#[trigger] a[i]) == ascii_lower(b[i])
}

/// Lower-cases one byte.
pub fn to_ascii_lower(c: u8) -> (r: u8)
    ensures
        r == ascii_lower(c),
{
    if 0x41 <= c && c <= 0x5a {
        c + 0x20
    } else {
        c
    }
}

/// Compares two byte strings, ignoring ASCII case.
pub fn bytes_eq_ignore_ascii_case(a: &[u8], b: &[u8]) -> (r: bool)
    ensures
        r == eq_ignore_ascii_case(a@, b@),
{
    reveal(eq_ignore_ascii_case);
    if a.len() != b.len() {
        return false;
    }
    let mut i: usize = 0;
    while i < a.len()
        invariant
            a@.len() == b@.len(),
            i <= a@.len(),
            forall|j: int| 0 <= j < i ==> ascii_lower(#[trigger] a@[j]) == ascii_lower(b@[j]),
        decreases a@.len() - i,
    {
        if to_ascii_lower(a[i]) != to_ascii_lower(b[i]) {
            proof {
                reveal(eq_ignore_ascii_case);
            }
            return false;
        }
        i += 1;
    }
    true
}

/// Compares two strings, ignoring ASCII case.
pub fn str_eq_ignore_ascii_case(a: &str, b: &str) -> (r: bool)
    ensures
        r == eq_ignore_ascii_case(a.spec_bytes(), b.spec_bytes()),
{
    bytes_eq_ignore_ascii_case(a.as_bytes(), b.as_bytes())
}

/// DNS query class
#[derive(Copy, Clone, Debug, PartialEq, Eq, Structural)]
pub enum Class {
    IN,
    CH,
    HS,
    NONE,
    ANY,
}

impl Class {
    /// The value that stands for this variant on the wire.
    pub open spec fn code(self) -> u16 {
        match self {
            Class::IN => 1,
            Class::CH => 3,
            Class::HS => 4,
            Class::NONE => 254,
            Class::ANY => 255,
        }
    }

    /// The value that stands for this variant on the wire.
    pub fn to_u16(self) -> (r: u16)
        ensures
            r == self.code(),
    {
        match self {
            Class::IN => 1,
            Class::CH => 3,
            Class::HS => 4,
            Class::NONE => 254,
            Class::ANY => 255,
        }
    }

    /// The mnemonic of this variant.
    pub open spec fn mnemonic(self) -> &'static str {
        match self {
            Class::IN => "IN",
            Class::CH => "CH",
            Class::HS => "HS",
            Class::NONE => "NONE",
            Class::ANY => "ANY",
        }
    }

    /// Whether `s` spells the mnemonic of this variant, in any ASCII case.
    pub open spec fn spelled(self, s: &str) -> bool {
        eq_ignore_ascii_case(s.spec_bytes(), self.mnemonic().spec_bytes())
    }

    /// Finds the variant whose mnemonic is `rr_type_str`, in any ASCII case.
    pub fn from_string(rr_type_str: &str) -> (r: Result<Class, DSError>)
        ensures
            match r {
                Ok(v) => v.spelled(rr_type_str),
                Err(e) => (e matches DSError::UnsupportedRRClass(t) && t@ == rr_type_str@) && forall|v: Class|
                    !v.spelled(rr_type_str),
            },
    {
        if str_eq_ignore_ascii_case(rr_type_str, "IN") {
            return Ok(Class::IN);
        }
        if str_eq_ignore_ascii_case(rr_type_str, "CH") {
            return Ok(Class::CH);
        }
        if str_eq_ignore_ascii_case(rr_type_str, "HS") {
            return Ok(Class::HS);
        }
        if str_eq_ignore_ascii_case(rr_type_str, "NONE") {
            return Ok(Class::NONE);
        }
        if str_eq_ignore_ascii_case(rr_type_str, "ANY") {
            return Ok(Class::ANY);
        }
        proof {
            assert forall|v: Class| !v.spelled(rr_type_str) by {
                match v {
                    Class::IN => {},
                    Class::CH => {},
                    Class::HS => {},
                    Class::NONE => {},
                    Class::ANY => {},
                }
            }
        }
        Err(DSError::UnsupportedRRClass(rr_type_str.to_owned()))
    }
}

impl From<Class> for u16 {
    fn from(v: Class) -> (r: u16)
        ensures
            r == v.code(),
    {
        v.to_u16()
    }
}

impl FromSpecImpl<Class> for u16 {
    open spec fn obeys_from_spec() -> bool {
        true
    }

    open spec fn from_spec(v: Class) -> u16 {
        v.code()
    }
}

/// DNS query type
#[allow(non_camel_case_types)]
#[derive(Copy, Clone, Debug, PartialEq, Eq, Structural)]
pub enum Type {
    A,
    NS,
    MD,
    MF,
    CNAME,
    SOA,
    MB,
    MG,
    MR,
    NULL,
    WKS,
    PTR,
    HINFO,
    MINFO,
    MX,
    TXT,
    RP,
    AFSDB,
    X25,
    ISDN,
    RT,
    NSAP,
    NSAP_PTR,
    SIG,
    KEY,
    PX,
    GPOS,
    AAAA,
    LOC,
    NXT,
    EID,
    NIMLOC,
    SRV,
    ATMA,
    NAPTR,
    KX,
    CERT,
    A6,
    DNAME,
    SINK,
    OPT,
    APL,
    DS,
    SSHFP,
    IPSECKEY,
    RRSIG,
    NSEC,
    DNSKEY,
    DHCID,
    NSEC3,
    NSEC3PARAM,
    TLSA,
    SMIMEA,
    HIP,
    NINFO,
    RKEY,
    TALINK,
    CDS,
    CDNSKEY,
    OPENPGPKEY,
    CSYNC,
    ZONEMD,
    SVCB,
    HTTPS,
    SPF,
    UINFO,
    UID,
    GID,
    UNSPEC,
    NID,
    L32,
    L64,
    LP,
    EUI48,
    EUI64,
    TKEY,
    TSIG,
    IXFR,
    AXFR,
    MAILB,
    MAILA,
    ANY,
    URI,
    CAA,
    AVC,
    TA,
    DLV,
}

impl Type {
    /// The value that stands for this variant on the wire.
    pub open spec fn code(self) -> u16 {
        match self {
            Type::A => 1,
            Type::NS => 2,
            Type::MD => 3,
            Type::MF => 4,
            Type::CNAME => 5,
            Type::SOA => 6,
            Type::MB => 7,
            Type::MG => 8,
            Type::MR => 9,
            Type::NULL => 10,
            Type::WKS => 11,
            Type::PTR => 12,
            Type::HINFO => 13,
            Type::MINFO => 14,
            Type::MX => 15,
            Type::TXT => 16,
            Type::RP => 17,
            Type::AFSDB => 18,
            Type::X25 => 19,
            Type::ISDN => 20,
            Type::RT => 21,
            Type::NSAP => 22,
            Type::NSAP_PTR => 23,
            Type::SIG => 24,
            Type::KEY => 25,
            Type::PX => 26,
            Type::GPOS => 27,
            Type::AAAA => 28,
            Type::LOC => 29,
            Type::NXT => 30,
            Type::EID => 31,
            Type::NIMLOC => 32,
            Type::SRV => 33,
            Type::ATMA => 34,
            Type::NAPTR => 35,
            Type::KX => 36,
            Type::CERT => 37,
            Type::A6 => 38,
            Type::DNAME => 39,
            Type::SINK => 40,
            Type::OPT => 41,
            Type::APL => 42,
            Type::DS => 43,
            Type::SSHFP => 44,
            Type::IPSECKEY => 45,
            Type::RRSIG => 46,
            Type::NSEC => 47,
            Type::DNSKEY => 48,
            Type::DHCID => 49,
            Type::NSEC3 => 50,
            Type::NSEC3PARAM => 51,
            Type::TLSA => 52,
            Type::SMIMEA => 53,
            Type::HIP => 55,
            Type::NINFO => 56,
            Type::RKEY => 57,
            Type::TALINK => 58,
            Type::CDS => 59,
            Type::CDNSKEY => 60,
            Type::OPENPGPKEY => 61,
            Type::CSYNC => 62,
            Type::ZONEMD => 63,
            Type::SVCB => 64,
            Type::HTTPS => 65,
            Type::SPF => 99,
            Type::UINFO => 100,
            Type::UID => 101,
            Type::GID => 102,
            Type::UNSPEC => 103,
            Type::NID => 104,
            Type::L32 => 105,
            Type::L64 => 106,
            Type::LP => 107,
            Type::EUI48 => 108,
            Type::EUI64 => 109,
            Type::TKEY => 249,
            Type::TSIG => 250,
            Type::IXFR => 251,
            Type::AXFR => 252,
            Type::MAILB => 253,
            Type::MAILA => 254,
            Type::ANY => 255,
            Type::URI => 256,
            Type::CAA => 257,
            Type::AVC => 258,
            Type::TA => 32768,
            Type::DLV => 32769,
        }
    }

    /// The value that stands for this variant on the wire.
    pub fn to_u16(self) -> (r: u16)
        ensures
            r == self.code(),
    {
        match self {
            Type::A => 1,
            Type::NS => 2,
            Type::MD => 3,
            Type::MF => 4,
            Type::CNAME => 5,
            Type::SOA => 6,
            Type::MB => 7,
            Type::MG => 8,
            Type::MR => 9,
            Type::NULL => 10,
            Type::WKS => 11,
            Type::PTR => 12,
            Type::HINFO => 13,
            Type::MINFO => 14,
            Type::MX => 15,
            Type::TXT => 16,
            Type::RP => 17,
            Type::AFSDB => 18,
            Type::X25 => 19,
            Type::ISDN => 20,
            Type::RT => 21,
            Type::NSAP => 22,
            Type::NSAP_PTR => 23,
            Type::SIG => 24,
            Type::KEY => 25,
            Type::PX => 26,
            Type::GPOS => 27,
            Type::AAAA => 28,
            Type::LOC => 29,
            Type::NXT => 30,
            Type::EID => 31,
            Type::NIMLOC => 32,
            Type::SRV => 33,
            Type::ATMA => 34,
            Type::NAPTR => 35,
            Type::KX => 36,
            Type::CERT => 37,
            Type::A6 => 38,
            Type::DNAME => 39,
            Type::SINK => 40,
            Type::OPT => 41,
            Type::APL => 42,
            Type::DS => 43,
            Type::SSHFP => 44,
            Type::IPSECKEY => 45,
            Type::RRSIG => 46,
            Type::NSEC => 47,
            Type::DNSKEY => 48,
            Type::DHCID => 49,
            Type::NSEC3 => 50,
            Type::NSEC3PARAM => 51,
            Type::TLSA => 52,
            Type::SMIMEA => 53,
            Type::HIP => 55,
            Type::NINFO => 56,
            Type::RKEY => 57,
            Type::TALINK => 58,
            Type::CDS => 59,
            Type::CDNSKEY => 60,
            Type::OPENPGPKEY => 61,
            Type::CSYNC => 62,
            Type::ZONEMD => 63,
            Type::SVCB => 64,
            Type::HTTPS => 65,
            Type::SPF => 99,
            Type::UINFO => 100,
            Type::UID => 101,
            Type::GID => 102,
            Type::UNSPEC => 103,
            Type::NID => 104,
            Type::L32 => 105,
            Type::L64 => 106,
            Type::LP => 107,
            Type::EUI48 => 108,
            Type::EUI64 => 109,
            Type::TKEY => 249,
            Type::TSIG => 250,
            Type::IXFR => 251,
            Type::AXFR => 252,
            Type::MAILB => 253,
            Type::MAILA => 254,
            Type::ANY => 255,
            Type::URI => 256,
            Type::CAA => 257,
            Type::AVC => 258,
            Type::TA => 32768,
            Type::DLV => 32769,
        }
    }

    /// The mnemonic of this variant.
    pub open spec fn mnemonic(self) -> &'static str {
        match self {
            Type::A => "A",
            Type::NS => "NS",
            Type::MD => "MD",
            Type::MF => "MF",
            Type::CNAME => "CNAME",
            Type::SOA => "SOA",
            Type::MB => "MB",
            Type::MG => "MG",
            Type::MR => "MR",
            Type::NULL => "NULL",
            Type::WKS => "WKS",
            Type::PTR => "PTR",
            Type::HINFO => "HINFO",
            Type::MINFO => "MINFO",
            Type::MX => "MX",
            Type::TXT => "TXT",
            Type::RP => "RP",
            Type::AFSDB => "AFSDB",
            Type::X25 => "X25",
            Type::ISDN => "ISDN",
            Type::RT => "RT",
            Type::NSAP => "NSAP",
            Type::NSAP_PTR => "NSAP_PTR",
            Type::SIG => "SIG",
            Type::KEY => "KEY",
            Type::PX => "PX",
            Type::GPOS => "GPOS",
            Type::AAAA => "AAAA",
            Type::LOC => "LOC",
            Type::NXT => "NXT",
            Type::EID => "EID",
            Type::NIMLOC => "NIMLOC",
            Type::SRV => "SRV",
            Type::ATMA => "ATMA",
            Type::NAPTR => "NAPTR",
            Type::KX => "KX",
            Type::CERT => "CERT",
            Type::A6 => "A6",
            Type::DNAME => "DNAME",
            Type::SINK => "SINK",
            Type::OPT => "OPT",
            Type::APL => "APL",
            Type::DS => "DS",
            Type::SSHFP => "SSHFP",
            Type::IPSECKEY => "IPSECKEY",
            Type::RRSIG => "RRSIG",
            Type::NSEC => "NSEC",
            Type::DNSKEY => "DNSKEY",
            Type::DHCID => "DHCID",
            Type::NSEC3 => "NSEC3",
            Type::NSEC3PARAM => "NSEC3PARAM",
            Type::TLSA => "TLSA",
            Type::SMIMEA => "SMIMEA",
            Type::HIP => "HIP",
            Type::NINFO => "NINFO",
            Type::RKEY => "RKEY",
            Type::TALINK => "TALINK",
            Type::CDS => "CDS",
            Type::CDNSKEY => "CDNSKEY",
            Type::OPENPGPKEY => "OPENPGPKEY",
            Type::CSYNC => "CSYNC",
            Type::ZONEMD => "ZONEMD",
            Type::SVCB => "SVCB",
            Type::HTTPS => "HTTPS",
            Type::SPF => "SPF",
            Type::UINFO => "UINFO",
            Type::UID => "UID",
            Type::GID => "GID",
            Type::UNSPEC => "UNSPEC",
            Type::NID => "NID",
            Type::L32 => "L32",
            Type::L64 => "L64",
            Type::LP => "LP",
            Type::EUI48 => "EUI48",
            Type::EUI64 => "EUI64",
            Type::TKEY => "TKEY",
            Type::TSIG => "TSIG",
            Type::IXFR => "IXFR",
            Type::AXFR => "AXFR",
            Type::MAILB => "MAILB",
            Type::MAILA => "MAILA",
            Type::ANY => "ANY",
            Type::URI => "URI",
            Type::CAA => "CAA",
            Type::AVC => "AVC",
            Type::TA => "TA",
            Type::DLV => "DLV",
        }
    }

    /// Whether `s` spells the mnemonic of this variant, in any ASCII case.
    pub open spec fn spelled(self, s: &str) -> bool {
        eq_ignore_ascii_case(s.spec_bytes(), self.mnemonic().spec_bytes())
    }

    /// No mnemonic from `A` to `NSAP_PTR` is spelled by `s`.
    pub open spec fn none_spelled_1(s: &str) -> bool {
        &&& !Type::A.spelled(s)
        &&& !Type::NS.spelled(s)
        &&& !Type::MD.spelled(s)
        &&& !Type::MF.spelled(s)
        &&& !Type::CNAME.spelled(s)
        &&& !Type::SOA.spelled(s)
        &&& !Type::MB.spelled(s)
        &&& !Type::MG.spelled(s)
        &&& !Type::MR.spelled(s)
        &&& !Type::NULL.spelled(s)
        &&& !Type::WKS.spelled(s)
        &&& !Type::PTR.spelled(s)
        &&& !Type::HINFO.spelled(s)
        &&& !Type::MINFO.spelled(s)
        &&& !Type::MX.spelled(s)
        &&& !Type::TXT.spelled(s)
        &&& !Type::RP.spelled(s)
        &&& !Type::AFSDB.spelled(s)
        &&& !Type::X25.spelled(s)
        &&& !Type::ISDN.spelled(s)
        &&& !Type::RT.spelled(s)
        &&& !Type::NSAP.spelled(s)
        &&& !Type::NSAP_PTR.spelled(s)
    }

    /// Looks `s` up among the mnemonics from `A` to `NSAP_PTR`.
    fn lookup_1(s: &str) -> (r: Option<Type>)
        ensures
            match r {
                Some(v) => v.spelled(s),
                None => Self::none_spelled_1(s),
            },
    {
        if str_eq_ignore_ascii_case(s, "A") {
            return Some(Type::A);
        }
        if str_eq_ignore_ascii_case(s, "NS") {
            return Some(Type::NS);
        }
        if str_eq_ignore_ascii_case(s, "MD") {
            return Some(Type::MD);
        }
        if str_eq_ignore_ascii_case(s, "MF") {
            return Some(Type::MF);
        }
        if str_eq_ignore_ascii_case(s, "CNAME") {
            return Some(Type::CNAME);
        }
        if str_eq_ignore_ascii_case(s, "SOA") {
            return Some(Type::SOA);
        }
        if str_eq_ignore_ascii_case(s, "MB") {
            return Some(Type::MB);
        }
        if str_eq_ignore_ascii_case(s, "MG") {
            return Some(Type::MG);
        }
        if str_eq_ignore_ascii_case(s, "MR") {
            return Some(Type::MR);
        }
        if str_eq_ignore_ascii_case(s, "NULL") {
            return Some(Type::NULL);
        }
        if str_eq_ignore_ascii_case(s, "WKS") {
            return Some(Type::WKS);
        }
        if str_eq_ignore_ascii_case(s, "PTR") {
            return Some(Type::PTR);
        }
        if str_eq_ignore_ascii_case(s, "HINFO") {
            return Some(Type::HINFO);
        }
        if str_eq_ignore_ascii_case(s, "MINFO") {
            return Some(Type::MINFO);
        }
        if str_eq_ignore_ascii_case(s, "MX") {
            return Some(Type::MX);
        }
        if str_eq_ignore_ascii_case(s, "TXT") {
            return Some(Type::TXT);
        }
        if str_eq_ignore_ascii_case(s, "RP") {
            return Some(Type::RP);
        }
        if str_eq_ignore_ascii_case(s, "AFSDB") {
            return Some(Type::AFSDB);
        }
        if str_eq_ignore_ascii_case(s, "X25") {
            return Some(Type::X25);
        }
        if str_eq_ignore_ascii_case(s, "ISDN") {
            return Some(Type::ISDN);
        }
        if str_eq_ignore_ascii_case(s, "RT") {
            return Some(Type::RT);
        }
        if str_eq_ignore_ascii_case(s, "NSAP") {
            return Some(Type::NSAP);
        }
        if str_eq_ignore_ascii_case(s, "NSAP_PTR") {
            return Some(Type::NSAP_PTR);
        }
        None
    }

    /// No mnemonic from `SIG` to `RRSIG` is spelled by `s`.
    pub open spec fn none_spelled_2(s: &str) -> bool {
        &&& !Type::SIG.spelled(s)
        &&& !Type::KEY.spelled(s)
        &&& !Type::PX.spelled(s)
        &&& !Type::GPOS.spelled(s)
        &&& !Type::AAAA.spelled(s)
        &&& !Type::LOC.spelled(s)
        &&& !Type::NXT.spelled(s)
        &&& !Type::EID.spelled(s)
        &&& !Type::NIMLOC.spelled(s)
        &&& !Type::SRV.spelled(s)
        &&& !Type::ATMA.spelled(s)
        &&& !Type::NAPTR.spelled(s)
        &&& !Type::KX.spelled(s)
        &&& !Type::CERT.spelled(s)
        &&& !Type::A6.spelled(s)
        &&& !Type::DNAME.spelled(s)
        &&& !Type::SINK.spelled(s)
        &&& !Type::OPT.spelled(s)
        &&& !Type::APL.spelled(s)
        &&& !Type::DS.spelled(s)
        &&& !Type::SSHFP.spelled(s)
        &&& !Type::IPSECKEY.spelled(s)
        &&& !Type::RRSIG.spelled(s)
    }

    /// Looks `s` up among the mnemonics from `SIG` to `RRSIG`.
    fn lookup_2(s: &str) -> (r: Option<Type>)
        ensures
            match r {
                Some(v) => v.spelled(s),
                None => Self::none_spelled_2(s),
            },
    {
        if str_eq_ignore_ascii_case(s, "SIG") {
            return Some(Type::SIG);
        }
        if str_eq_ignore_ascii_case(s, "KEY") {
            return Some(Type::KEY);
        }
        if str_eq_ignore_ascii_case(s, "PX") {
            return Some(Type::PX);
        }
        if str_eq_ignore_ascii_case(s, "GPOS") {
            return Some(Type::GPOS);
        }
        if str_eq_ignore_ascii_case(s, "AAAA") {
            return Some(Type::AAAA);
        }
        if str_eq_ignore_ascii_case(s, "LOC") {
            return Some(Type::LOC);
        }
        if str_eq_ignore_ascii_case(s, "NXT") {
            return Some(Type::NXT);
        }
        if str_eq_ignore_ascii_case(s, "EID") {
            return Some(Type::EID);
        }
        if str_eq_ignore_ascii_case(s, "NIMLOC") {
            return Some(Type::NIMLOC);
        }
        if str_eq_ignore_ascii_case(s, "SRV") {
            return Some(Type::SRV);
        }
        if str_eq_ignore_ascii_case(s, "ATMA") {
            return Some(Type::ATMA);
        }
        if str_eq_ignore_ascii_case(s, "NAPTR") {
            return Some(Type::NAPTR);
        }
        if str_eq_ignore_ascii_case(s, "KX") {
            return Some(Type::KX);
        }
        if str_eq_ignore_ascii_case(s, "CERT") {
            return Some(Type::CERT);
        }
        if str_eq_ignore_ascii_case(s, "A6") {
            return Some(Type::A6);
        }
        if str_eq_ignore_ascii_case(s, "DNAME") {
            return Some(Type::DNAME);
        }
        if str_eq_ignore_ascii_case(s, "SINK") {
            return Some(Type::SINK);
        }
        if str_eq_ignore_ascii_case(s, "OPT") {
            return Some(Type::OPT);
        }
        if str_eq_ignore_ascii_case(s, "APL") {
            return Some(Type::APL);
        }
        if str_eq_ignore_ascii_case(s, "DS") {
            return Some(Type::DS);
        }
        if str_eq_ignore_ascii_case(s, "SSHFP") {
            return Some(Type::SSHFP);
        }
        if str_eq_ignore_ascii_case(s, "IPSECKEY") {
            return Some(Type::IPSECKEY);
        }
        if str_eq_ignore_ascii_case(s, "RRSIG") {
            return Some(Type::RRSIG);
        }
        None
    }

    /// No mnemonic from `NSEC` to `UNSPEC` is spelled by `s`.
    pub open spec fn none_spelled_3(s: &str) -> bool {
        &&& !Type::NSEC.spelled(s)
        &&& !Type::DNSKEY.spelled(s)
        &&& !Type::DHCID.spelled(s)
        &&& !Type::NSEC3.spelled(s)
        &&& !Type::NSEC3PARAM.spelled(s)
        &&& !Type::TLSA.spelled(s)
        &&& !Type::SMIMEA.spelled(s)
        &&& !Type::HIP.spelled(s)
        &&& !Type::NINFO.spelled(s)
        &&& !Type::RKEY.spelled(s)
        &&& !Type::TALINK.spelled(s)
        &&& !Type::CDS.spelled(s)
        &&& !Type::CDNSKEY.spelled(s)
        &&& !Type::OPENPGPKEY.spelled(s)
        &&& !Type::CSYNC.spelled(s)
        &&& !Type::ZONEMD.spelled(s)
        &&& !Type::SVCB.spelled(s)
        &&& !Type::HTTPS.spelled(s)
        &&& !Type::SPF.spelled(s)
        &&& !Type::UINFO.spelled(s)
        &&& !Type::UID.spelled(s)
        &&& !Type::GID.spelled(s)
        &&& !Type::UNSPEC.spelled(s)
    }

    /// Looks `s` up among the mnemonics from `NSEC` to `UNSPEC`.
    fn lookup_3(s: &str) -> (r: Option<Type>)
        ensures
            match r {
                Some(v) => v.spelled(s),
                None => Self::none_spelled_3(s),
            },
    {
        if str_eq_ignore_ascii_case(s, "NSEC") {
            return Some(Type::NSEC);
        }
        if str_eq_ignore_ascii_case(s, "DNSKEY") {
            return Some(Type::DNSKEY);
        }
        if str_eq_ignore_ascii_case(s, "DHCID") {
            return Some(Type::DHCID);
        }
        if str_eq_ignore_ascii_case(s, "NSEC3") {
            return Some(Type::NSEC3);
        }
        if str_eq_ignore_ascii_case(s, "NSEC3PARAM") {
            return Some(Type::NSEC3PARAM);
        }
        if str_eq_ignore_ascii_case(s, "TLSA") {
            return Some(Type::TLSA);
        }
        if str_eq_ignore_ascii_case(s, "SMIMEA") {
            return Some(Type::SMIMEA);
        }
        if str_eq_ignore_ascii_case(s, "HIP") {
            return Some(Type::HIP);
        }
        if str_eq_ignore_ascii_case(s, "NINFO") {
            return Some(Type::NINFO);
        }
        if str_eq_ignore_ascii_case(s, "RKEY") {
            return Some(Type::RKEY);
        }
        if str_eq_ignore_ascii_case(s, "TALINK") {
            return Some(Type::TALINK);
        }
        if str_eq_ignore_ascii_case(s, "CDS") {
            return Some(Type::CDS);
        }
        if str_eq_ignore_ascii_case(s, "CDNSKEY") {
            return Some(Type::CDNSKEY);
        }
        if str_eq_ignore_ascii_case(s, "OPENPGPKEY") {
            return Some(Type::OPENPGPKEY);
        }
        if str_eq_ignore_ascii_case(s, "CSYNC") {
            return Some(Type::CSYNC);
        }
        if str_eq_ignore_ascii_case(s, "ZONEMD") {
            return Some(Type::ZONEMD);
        }
        if str_eq_ignore_ascii_case(s, "SVCB") {
            return Some(Type::SVCB);
        }
        if str_eq_ignore_ascii_case(s, "HTTPS") {
            return Some(Type::HTTPS);
        }
        if str_eq_ignore_ascii_case(s, "SPF") {
            return Some(Type::SPF);
        }
        if str_eq_ignore_ascii_case(s, "UINFO") {
            return Some(Type::UINFO);
        }
        if str_eq_ignore_ascii_case(s, "UID") {
            return Some(Type::UID);
        }
        if str_eq_ignore_ascii_case(s, "GID") {
            return Some(Type::GID);
        }
        if str_eq_ignore_ascii_case(s, "UNSPEC") {
            return Some(Type::UNSPEC);
        }
        None
    }

    /// No mnemonic from `NID` to `DLV` is spelled by `s`.
    pub open spec fn none_spelled_4(s: &str) -> bool {
        &&& !Type::NID.spelled(s)
        &&& !Type::L32.spelled(s)
        &&& !Type::L64.spelled(s)
        &&& !Type::LP.spelled(s)
        &&& !Type::EUI48.spelled(s)
        &&& !Type::EUI64.spelled(s)
        &&& !Type::TKEY.spelled(s)
        &&& !Type::TSIG.spelled(s)
        &&& !Type::IXFR.spelled(s)
        &&& !Type::AXFR.spelled(s)
        &&& !Type::MAILB.spelled(s)
        &&& !Type::MAILA.spelled(s)
        &&& !Type::ANY.spelled(s)
        &&& !Type::URI.spelled(s)
        &&& !Type::CAA.spelled(s)
        &&& !Type::AVC.spelled(s)
        &&& !Type::TA.spelled(s)
        &&& !Type::DLV.spelled(s)
    }

    /// Looks `s` up among the mnemonics from `NID` to `DLV`.
    fn lookup_4(s: &str) -> (r: Option<Type>)
        ensures
            match r {
                Some(v) => v.spelled(s),
                None => Self::none_spelled_4(s),
            },
    {
        if str_eq_ignore_ascii_case(s, "NID") {
            return Some(Type::NID);
        }
        if str_eq_ignore_ascii_case(s, "L32") {
            return Some(Type::L32);
        }
        if str_eq_ignore_ascii_case(s, "L64") {
            return Some(Type::L64);
        }
        if str_eq_ignore_ascii_case(s, "LP") {
            return Some(Type::LP);
        }
        if str_eq_ignore_ascii_case(s, "EUI48") {
            return Some(Type::EUI48);
        }
        if str_eq_ignore_ascii_case(s, "EUI64") {
            return Some(Type::EUI64);
        }
        if str_eq_ignore_ascii_case(s, "TKEY") {
            return Some(Type::TKEY);
        }
        if str_eq_ignore_ascii_case(s, "TSIG") {
            return Some(Type::TSIG);
        }
        if str_eq_ignore_ascii_case(s, "IXFR") {
            return Some(Type::IXFR);
        }
        if str_eq_ignore_ascii_case(s, "AXFR") {
            return Some(Type::AXFR);
        }
        if str_eq_ignore_ascii_case(s, "MAILB") {
            return Some(Type::MAILB);
        }
        if str_eq_ignore_ascii_case(s, "MAILA") {
            return Some(Type::MAILA);
        }
        if str_eq_ignore_ascii_case(s, "ANY") {
            return Some(Type::ANY);
        }
        if str_eq_ignore_ascii_case(s, "URI") {
            return Some(Type::URI);
        }
        if str_eq_ignore_ascii_case(s, "CAA") {
            return Some(Type::CAA);
        }
        if str_eq_ignore_ascii_case(s, "AVC") {
            return Some(Type::AVC);
        }
        if str_eq_ignore_ascii_case(s, "TA") {
            return Some(Type::TA);
        }
        if str_eq_ignore_ascii_case(s, "DLV") {
            return Some(Type::DLV);
        }
        None
    }

    /// Finds the variant whose mnemonic is `rr_type_str`, in any ASCII case.
    pub fn from_string(rr_type_str: &str) -> (r: Result<Type, DSError>)
        ensures
            match r {
                Ok(v) => v.spelled(rr_type_str),
                Err(e) => (e matches DSError::UnsupportedRRType(t) && t@ == rr_type_str@) && forall|v: Type|
                    !v.spelled(rr_type_str),
            },
    {
        if let Some(v) = Self::lookup_1(rr_type_str) {
            return Ok(v);
        }
        if let Some(v) = Self::lookup_2(rr_type_str) {
            return Ok(v);
        }
        if let Some(v) = Self::lookup_3(rr_type_str) {
            return Ok(v);
        }
        if let Some(v) = Self::lookup_4(rr_type_str) {
            return Ok(v);
        }
        proof {
            assert forall|v: Type| !v.spelled(rr_type_str) by {
                match v {
                    Type::A => {},
                    Type::NS => {},
                    Type::MD => {},
                    Type::MF => {},
                    Type::CNAME => {},
                    Type::SOA => {},
                    Type::MB => {},
                    Type::MG => {},
                    Type::MR => {},
                    Type::NULL => {},
                    Type::WKS => {},
                    Type::PTR => {},
                    Type::HINFO => {},
                    Type::MINFO => {},
                    Type::MX => {},
                    Type::TXT => {},
                    Type::RP => {},
                    Type::AFSDB => {},
                    Type::X25 => {},
                    Type::ISDN => {},
                    Type::RT => {},
                    Type::NSAP => {},
                    Type::NSAP_PTR => {},
                    Type::SIG => {},
                    Type::KEY => {},
                    Type::PX => {},
                    Type::GPOS => {},
                    Type::AAAA => {},
                    Type::LOC => {},
                    Type::NXT => {},
                    Type::EID => {},
                    Type::NIMLOC => {},
                    Type::SRV => {},
                    Type::ATMA => {},
                    Type::NAPTR => {},
                    Type::KX => {},
                    Type::CERT => {},
                    Type::A6 => {},
                    Type::DNAME => {},
                    Type::SINK => {},
                    Type::OPT => {},
                    Type::APL => {},
                    Type::DS => {},
                    Type::SSHFP => {},
                    Type::IPSECKEY => {},
                    Type::RRSIG => {},
                    Type::NSEC => {},
                    Type::DNSKEY => {},
                    Type::DHCID => {},
                    Type::NSEC3 => {},
                    Type::NSEC3PARAM => {},
                    Type::TLSA => {},
                    Type::SMIMEA => {},
                    Type::HIP => {},
                    Type::NINFO => {},
                    Type::RKEY => {},
                    Type::TALINK => {},
                    Type::CDS => {},
                    Type::CDNSKEY => {},
                    Type::OPENPGPKEY => {},
                    Type::CSYNC => {},
                    Type::ZONEMD => {},
                    Type::SVCB => {},
                    Type::HTTPS => {},
                    Type::SPF => {},
                    Type::UINFO => {},
                    Type::UID => {},
                    Type::GID => {},
                    Type::UNSPEC => {},
                    Type::NID => {},
                    Type::L32 => {},
                    Type::L64 => {},
                    Type::LP => {},
                    Type::EUI48 => {},
                    Type::EUI64 => {},
                    Type::TKEY => {},
                    Type::TSIG => {},
                    Type::IXFR => {},
                    Type::AXFR => {},
                    Type::MAILB => {},
                    Type::MAILA => {},
                    Type::ANY => {},
                    Type::URI => {},
                    Type::CAA => {},
                    Type::AVC => {},
                    Type::TA => {},
                    Type::DLV => {},
                }
            }
        }
        Err(DSError::UnsupportedRRType(rr_type_str.to_owned()))
    }
}

impl From<Type> for u16 {
    fn from(v: Type) -> (r: u16)
        ensures
            r == v.code(),
    {
        v.to_u16()
    }
}

impl FromSpecImpl<Type> for u16 {
    open spec fn obeys_from_spec() -> bool {
        true
    }

    open spec fn from_spec(v: Type) -> u16 {
        v.code()
    }
}

/// EDNS option
#[allow(non_camel_case_types)]
#[derive(Copy, Clone, Debug, PartialEq, Eq, Structural)]
pub enum EdnsOption {
    LLQ,
    UL,
    NSID,
    DAU,
    DHU,
    N3U,
    CLIENT_SUBNET,
    KEEPALIVE,
    PADDING,
}

impl EdnsOption {
    /// The value that stands for this variant on the wire.
    pub open spec fn code(self) -> u16 {
        match self {
            EdnsOption::LLQ => 1,
            EdnsOption::UL => 2,
            EdnsOption::NSID => 3,
            EdnsOption::DAU => 5,
            EdnsOption::DHU => 6,
            EdnsOption::N3U => 7,
            EdnsOption::CLIENT_SUBNET => 8,
            EdnsOption::KEEPALIVE => 11,
            EdnsOption::PADDING => 12,
        }
    }

    /// The value that stands for this variant on the wire.
    pub fn to_u16(self) -> (r: u16)
        ensures
            r == self.code(),
    {
        match self {
            EdnsOption::LLQ => 1,
            EdnsOption::UL => 2,
            EdnsOption::NSID => 3,
            EdnsOption::DAU => 5,
            EdnsOption::DHU => 6,
            EdnsOption::N3U => 7,
            EdnsOption::CLIENT_SUBNET => 8,
            EdnsOption::KEEPALIVE => 11,
            EdnsOption::PADDING => 12,
        }
    }
}

impl From<EdnsOption> for u16 {
    fn from(v: EdnsOption) -> (r: u16)
        ensures
            r == v.code(),
    {
        v.to_u16()
    }
}

impl FromSpecImpl<EdnsOption> for u16 {
    open spec fn obeys_from_spec() -> bool {
        true
    }

    open spec fn from_spec(v: EdnsOption) -> u16 {
        v.code()
    }
}

/// DNS return codes
#[derive(Copy, Clone, Debug, PartialEq, Eq, Structural)]
pub enum Rcode {
    NOERROR,
    FORMERR,
    SERVFAIL,
    NXDOMAIN,
    NOTIMPL,
    REFUSED,
    YXDOMAIN,
    YXRRSET,
    NXRRSET,
    NOTAUTH,
    NOTZONE,
}

impl Rcode {
    /// The value that stands for this variant on the wire.
    pub open spec fn code(self) -> u8 {
        match self {
            Rcode::NOERROR => 0,
            Rcode::FORMERR => 1,
            Rcode::SERVFAIL => 2,
            Rcode::NXDOMAIN => 3,
            Rcode::NOTIMPL => 4,
            Rcode::REFUSED => 5,
            Rcode::YXDOMAIN => 6,
            Rcode::YXRRSET => 7,
            Rcode::NXRRSET => 8,
            Rcode::NOTAUTH => 9,
            Rcode::NOTZONE => 10,
        }
    }

    /// The value that stands for this variant on the wire.
    pub fn to_u8(self) -> (r: u8)
        ensures
            r == self.code(),
    {
        match self {
            Rcode::NOERROR => 0,
            Rcode::FORMERR => 1,
            Rcode::SERVFAIL => 2,
            Rcode::NXDOMAIN => 3,
            Rcode::NOTIMPL => 4,
            Rcode::REFUSED => 5,
            Rcode::YXDOMAIN => 6,
            Rcode::YXRRSET => 7,
            Rcode::NXRRSET => 8,
            Rcode::NOTAUTH => 9,
            Rcode::NOTZONE => 10,
        }
    }
}

impl From<Rcode> for u8 {
    fn from(v: Rcode) -> (r: u8)
        ensures
            r == v.code(),
    {
        v.to_u8()
    }
}

impl FromSpecImpl<Rcode> for u8 {
    open spec fn obeys_from_spec() -> bool {
        true
    }

    open spec fn from_spec(v: Rcode) -> u8 {
        v.code()
    }
}

/// DNS opcodes
#[derive(Copy, Clone, Debug, PartialEq, Eq, Structural)]
pub enum Opcode {
    QUERY,
    IQUERY,
    STATUS,
    NOTIFY,
    UPDATE,
}

impl Opcode {
    /// The value that stands for this variant on the wire.
    pub open spec fn code(self) -> u8 {
        match self {
            Opcode::QUERY => 0,
            Opcode::IQUERY => 1,
            Opcode::STATUS => 2,
            Opcode::NOTIFY => 4,
            Opcode::UPDATE => 5,
        }
    }

    /// The value that stands for this variant on the wire.
    pub fn to_u8(self) -> (r: u8)
        ensures
            r == self.code(),
    {
        match self {
            Opcode::QUERY => 0,
            Opcode::IQUERY => 1,
            Opcode::STATUS => 2,
            Opcode::NOTIFY => 4,
            Opcode::UPDATE => 5,
        }
    }
}

impl From<Opcode> for u8 {
    fn from(v: Opcode) -> (r: u8)
        ensures
            r == v.code(),
    {
        v.to_u8()
    }
}

impl FromSpecImpl<Opcode> for u8 {
    open spec fn obeys_from_spec() -> bool {
        true
    }

    open spec fn from_spec(v: Opcode) -> u8 {
        v.code()
    }
}

/// DNS packet section
#[derive(Copy, Clone, Debug, PartialEq, Eq, Structural)]
pub enum Section {
    Question,
    Answer,
    NameServers,
    Additional,
    Edns,
}

impl Section {
    /// The position of this section in a message, counted from zero.
    pub open spec fn code(self) -> u8 {
        match self {
            Section::Question => 0,
            Section::Answer => 1,
            Section::NameServers => 2,
            Section::Additional => 3,
            Section::Edns => 4,
        }
    }
}

impl From<Section> for u8 {
    fn from(v: Section) -> (r: u8)
        ensures
            r == v.code(),
    {
        match v {
            Section::Question => 0,
            Section::Answer => 1,
            Section::NameServers => 2,
            Section::Additional => 3,
            Section::Edns => 4,
        }
    }
}

impl FromSpecImpl<Section> for u8 {
    open spec fn obeys_from_spec() -> bool {
        true
    }

    open spec fn from_spec(v: Section) -> u8 {
        v.code()
    }
}

} // verus!
