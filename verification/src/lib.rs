//! A codec for a compact, self-describing binary message format: messages are
//! framed into fixed-size segments, structured by relative pointers, and
//! serialized through a zero-byte-elision packing transform.  Two record
//! schemas are supported: an ordered array of byte-string pairs, and a
//! perfect-hash-table descriptor (entries, per-bucket seeds, two scalar
//! parameters).  Encoding is deterministic; decoding validates every pointer
//! against segment bounds before use.

pub mod decode;
pub mod encode;
pub mod framing;
pub mod laws;
pub mod layout;
pub mod packing;
pub mod records;
pub mod words;
