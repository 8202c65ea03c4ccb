//! Parsing, lookup and asset resolution for MDict dictionaries (`.mdx` / `.mdd`).
//!
//! Malformed files, missing entries and unsafe asset paths are reported as
//! [`MdxError`] values, never hidden behind defaults.

pub mod asset;
pub mod binary;
mod codec;
pub mod dictionary;
pub mod error;
mod hit;
pub mod index;
mod keyed;
pub mod library;
pub mod mdict;
pub mod range_tree;
pub mod sorting;
pub mod store;
pub mod text;
pub mod version;

pub use asset::{
    extract_resource_refs, AssetResolver, AssetSource, DictionaryAssetSource, FileAssetSource,
    MemoryAssetSource,
};
pub use dictionary::{
    Dictionary, DictionaryBuilder, DictionaryInfo, MDictKeywordEntry, MDictKeywordIndex, MDictType,
    Metadata,
};
pub use error::{MdxError, Result};
pub use index::{normalize_comparable_key, SearchHit};
pub use library::{DictionaryLibrary, DictionarySpec};
pub use range_tree::{RecordBlockInfo, RecordRangeTree};
pub use store::{FuzzyIndexStore, IndexStore, MemoryFuzzyIndexStore, MemoryIndexStore};
