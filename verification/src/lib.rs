//! An embedded, single-writer, append-only key-value store.
//!
//! The in-memory state is a map container; the durable state is a
//! replayable log of operation records, text or binary, each optionally
//! carrying a CRC-32 checksum or a SHA-1 / SHA-256 chain hash.  On open
//! the log is re-executed to rebuild the map; on each mutation one record
//! is encoded and queued for appending.  A secondary index keeps
//! value-derived lookups consistent with the map, and an offline
//! converter re-encodes a log under a different configuration.
//!
//! Everything that decides bytes or state is specified and verified; the
//! file itself, the background writer thread and the lock live with the
//! caller, who feeds log bytes in at open and drains encoded records out
//! after each mutation.

use vstd::prelude::*;

pub mod encdec;
pub mod integrity;
pub mod cfg;
pub mod format;
pub mod text_format;
pub mod bin_format;
pub mod map_trait;
pub mod index;
pub mod codec;
pub mod map_with_file;
pub mod convert;

pub use cfg::Cfg;
pub use cfg::Format;
pub use integrity::Integrity;
pub use format::MapOperation;
pub use format::RawRecord;
pub use format::LoadFileError;
pub use format::IntegrityError;
pub use format::SerializedError;
pub use map_trait::MapTrait;
pub use map_trait::VecMap;
pub use map_trait::DeepClone;
pub use map_trait::KeyEq;
pub use index::Index;
pub use index::OrdKey;
pub use index::KeyExtractor;
pub use codec::KvCodec;
pub use codec::I64StringCodec;
pub use codec::StringI32Codec;
pub use map_with_file::MapWithFile;
pub use map_with_file::map_from_text_file;
pub use map_with_file::map_from_bin_file;
pub use convert::Transform;
pub use convert::ConvertError;
pub use convert::convert;
pub use vstd::view::DeepView;
pub use vstd::seq::Seq as SpecSeq;
pub use vstd::map::Map as SpecMap;

verus! {

/// Map with the whole change history kept in a log, backed by the
/// library's verified container, keys held in the order of insertion.
pub type BTreeMap<K, V, C = I64StringCodec> = MapWithFile<K, V, VecMap<K, V>, C>;

/// Map with the whole change history kept in a log, backed by the
/// library's verified container.
pub type HashMap<K, V, C = I64StringCodec> = MapWithFile<K, V, VecMap<K, V>, C>;

} // verus!
