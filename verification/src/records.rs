use vstd::prelude::*;

verus! {

/// One pair of a record: two arbitrary byte strings (text is stored as its
/// UTF-8 bytes; the codec itself never inspects the encoding).
pub struct Entry {
    pub key: Vec<u8>,
    pub value: Vec<u8>,
}

impl View for Entry {
    type V = (Seq<u8>, Seq<u8>);

    open spec fn view(&self) -> (Seq<u8>, Seq<u8>) {
        (self.key@, self.value@)
    }
}

/// The pairs of a sequence of entries, as a mathematical sequence.
pub open spec fn pairs_of(entries: Seq<Entry>) -> Seq<(Seq<u8>, Seq<u8>)> {
    entries.map_values(|e: Entry| e@)
}

/// An ordered sequence of entries, indexable from 0: the payload of the
/// array schema.
pub struct ArrayRecord {
    pub entries: Vec<Entry>,
}

impl View for ArrayRecord {
    type V = Seq<(Seq<u8>, Seq<u8>)>;

    open spec fn view(&self) -> Seq<(Seq<u8>, Seq<u8>)> {
        pairs_of(self.entries@)
    }
}

/// A precomputed perfect-hash-table descriptor: the indexed entries, one
/// signed 32-bit seed per bucket, and the two scalar parameters of the hash.
/// The codec stores exactly what it is given; it does not check that the
/// seeds and parameters form a consistent table.
pub struct HashTableRecord {
    pub entries: Vec<Entry>,
    pub seeds: Vec<i32>,
    pub m: i32,
    pub r: i32,
}

impl View for HashTableRecord {
    type V = (Seq<(Seq<u8>, Seq<u8>)>, Seq<i32>, i32, i32);

    open spec fn view(&self) -> (Seq<(Seq<u8>, Seq<u8>)>, Seq<i32>, i32, i32) {
        (pairs_of(self.entries@), self.seeds@, self.m, self.r)
    }
}

/// Why a byte buffer was rejected by `open`.
#[derive(Clone, Copy, PartialEq, Eq, Structural, Debug)]
pub enum DecodeError {
    /// The segment table, a pointer, or a list tag is structurally invalid,
    /// out of bounds, or truncated.
    Malformed,
    /// The buffer is a valid message, but its root does not have the shape
    /// of the requested schema.
    SchemaMismatch,
    /// The data reachable from the root exceeds the configured traversal
    /// limit.
    TraversalLimitExceeded,
}

/// An accessor was called with an element index at or past the element count.
#[derive(Clone, Copy, PartialEq, Eq, Structural, Debug)]
pub struct IndexError;

/// The value handed to an encoder is too large for a count field of the wire
/// format.
#[derive(Clone, Copy, PartialEq, Eq, Structural, Debug)]
pub struct EncodingLimitExceeded;

} // verus!
