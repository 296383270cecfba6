//! A toolkit for DNS messages in wire format: a validating parser, record
//! cursors that read and edit a message in place, and a name compressor.

pub mod compress;
pub mod constants;
pub mod dns_sector;
pub mod edits;
pub mod edns_iterator;
pub mod errors;
pub mod in_place;
pub mod iterable;
pub mod laws;
pub mod parsed_packet;
pub mod plain;
pub mod question_iterator;
pub mod recompress;
pub mod renamer;
pub mod response_iterator;
pub mod rr_iterator;
pub mod synth;
pub mod wire;

pub use crate::compress::Compress;
pub use crate::compress::CompressedNameResult;
pub use crate::compress::SuffixDict;
pub use crate::compress::UncompressedNameResult;
pub use crate::constants::Class;
pub use crate::constants::EdnsOption;
pub use crate::constants::Opcode;
pub use crate::constants::Rcode;
pub use crate::constants::Section;
pub use crate::constants::Type;
pub use crate::dns_sector::DNSSector;
pub use crate::edns_iterator::EdnsIterator;
pub use crate::errors::DSError;
pub use crate::iterable::DNSIterable;
pub use crate::iterable::RdataIterable;
pub use crate::iterable::TypedIterable;
pub use crate::parsed_packet::ParsedPacket;
pub use crate::question_iterator::QuestionIterator;
pub use crate::renamer::Renamer;
pub use crate::response_iterator::AdditionalIterator;
pub use crate::response_iterator::AnswerIterator;
pub use crate::response_iterator::NameServersIterator;
pub use crate::response_iterator::ResponseIterator;
pub use crate::rr_iterator::IpAddr;
pub use crate::rr_iterator::RRIterator;
pub use crate::rr_iterator::RRRaw;
pub use crate::rr_iterator::RRRawMut;
