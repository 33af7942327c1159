//! Log records and the errors of loading and converting a log.
//!
//! A [`RawRecord`] is one operation as it stands in the log: the opcode
//! together with the encoded payload bytes, before any integrity tag.
//! A [`MapOperation`] is the decoded form, a key and value.

use vstd::prelude::*;

verus! {

/// Record about an operation on the map, decoded.
pub enum MapOperation<Key, Value> {
    /// Insert operation.
    Insert(Key, Value),
    /// Remove operation.
    Remove(Key),
}

impl<Key: DeepView, Value: DeepView> DeepView for MapOperation<Key, Value> {
    type V = MapOperation<Key::V, Value::V>;

    open spec fn deep_view(&self) -> MapOperation<Key::V, Value::V> {
        match self {
            MapOperation::Insert(k, v) => MapOperation::Insert(k.deep_view(), v.deep_view()),
            MapOperation::Remove(k) => MapOperation::Remove(k.deep_view()),
        }
    }
}

/// One record of the log: the operation kind and the encoded payload.
pub enum RawRecord {
    /// An insert record; the payload encodes the key and the value.
    Insert(Vec<u8>),
    /// A remove record; the payload encodes the key.
    Remove(Vec<u8>),
}

/// The mathematical value of a [`RawRecord`].
pub enum RawRec {
    Insert(Seq<u8>),
    Remove(Seq<u8>),
}

impl View for RawRecord {
    type V = RawRec;

    open spec fn view(&self) -> RawRec {
        match self {
            RawRecord::Insert(p) => RawRec::Insert(p@),
            RawRecord::Remove(p) => RawRec::Remove(p@),
        }
    }
}

/// The views of a sequence of raw records.
pub open spec fn recs_view(v: Seq<RawRecord>) -> Seq<RawRec> {
    v.map_values(|r: RawRecord| r@)
}

/// The payload bytes of a record.
pub open spec fn rec_payload(r: RawRec) -> Seq<u8> {
    match r {
        RawRec::Insert(p) => p,
        RawRec::Remove(p) => p,
    }
}

/// Errors of integrity checking, each carrying the 1-based index of the
/// record on which the check failed.
#[derive(Debug, PartialEq, Eq)]
pub enum IntegrityError {
    /// The record holds no tag although integrity is configured.
    NoExpectedHash { line_num: usize },
    /// The stored CRC-32 differs from the one recomputed from the record.
    Crc32Error { line_num: usize },
    /// The stored SHA-1 chain hash differs from the recomputed one.
    Sha1ChainError { line_num: usize },
    /// The stored SHA-256 chain hash differs from the recomputed one.
    Sha256ChainError { line_num: usize },
}

/// Possible errors of loading a log, each carrying the 1-based index of
/// the record being processed when the error was detected.
#[derive(Debug, PartialEq, Eq)]
pub enum LoadFileError {
    /// The last line does not end with a newline.
    LastLineWithoutEndLine { line_num: usize },
    /// A line is shorter than the smallest well-formed record line.
    FileLineLengthLessThenMinimum { line_num: usize },
    /// A binary block length of zero.
    WrongMinBinBlockLen { block_num: usize },
    /// The first byte of a binary block must hold only the width of the
    /// length field in its two low bits; other bits are reserved.
    WrongFirstByte { block_num: usize },
    /// The file ends in the middle of a binary block.
    UnexpectedEndOfFile { block_num: usize },
    /// Error of integrity.
    IntegrityError(IntegrityError),
    /// The payload of a text record does not decode.
    DeserializeJsonError { line_num: usize },
    /// The payload of a binary record does not decode.
    DeserializeBincodeError { block_num: usize },
    /// A line does not start with an operation name, `ins ` or `rem `.
    NoLineDefinition { line_num: usize },
}

impl LoadFileError {
    /// A short description of the error, naming its kind and the 1-based
    /// index of the record it refers to.
    pub fn describe(&self) -> String {
        match self {
            LoadFileError::LastLineWithoutEndLine { line_num } => {
                join_num("last line without end line at record ", *line_num)
            },
            LoadFileError::FileLineLengthLessThenMinimum { line_num } => {
                join_num("line shorter than minimum at record ", *line_num)
            },
            LoadFileError::WrongMinBinBlockLen { block_num } => {
                join_num("zero block length at record ", *block_num)
            },
            LoadFileError::WrongFirstByte { block_num } => {
                join_num("reserved bits set in length prefix at record ", *block_num)
            },
            LoadFileError::UnexpectedEndOfFile { block_num } => {
                join_num("unexpected end of file at record ", *block_num)
            },
            LoadFileError::IntegrityError(e) => {
                match e {
                    IntegrityError::NoExpectedHash { line_num } => {
                        join_num("missing integrity tag at record ", *line_num)
                    },
                    IntegrityError::Crc32Error { line_num } => {
                        join_num("wrong crc32 at record ", *line_num)
                    },
                    IntegrityError::Sha1ChainError { line_num } => {
                        join_num("wrong sha1 chain hash at record ", *line_num)
                    },
                    IntegrityError::Sha256ChainError { line_num } => {
                        join_num("wrong sha256 chain hash at record ", *line_num)
                    },
                }
            },
            LoadFileError::DeserializeJsonError { line_num } => {
                join_num("undecodable text payload at record ", *line_num)
            },
            LoadFileError::DeserializeBincodeError { block_num } => {
                join_num("undecodable binary payload at record ", *block_num)
            },
            LoadFileError::NoLineDefinition { line_num } => {
                join_num("unknown operation name at record ", *line_num)
            },
        }
    }
}

/// Error of encoding a key or value for a record.
#[derive(Debug, PartialEq, Eq)]
pub enum SerializedError {
    /// The text encoder failed, or its output could not be framed.
    Json,
    /// The binary encoder failed, or its output could not be framed.
    Bincode,
}

/// Relies on `alloc::format!` to render a message and a record number.
#[verifier::external_body]
fn join_num(msg: &str, n: usize) -> String {
    format!("{}{}", msg, n)
}

} // verus!
