//! Content-addressed directory manifests stored as sharded maps.
//!
//! A directory is a map from path components to entries. The map is kept as
//! a tree of nodes: a node holds its entries directly while they are few, and
//! is split into child shards keyed by the next key byte once they are many.
//! Nodes refer to their children by content identifier, so a traversal is a
//! sequence of single-node steps, each of which may ask for one more node to
//! be fetched from a blob store.

pub mod api;
pub mod builder;
pub mod codec;
pub mod entry;
pub mod manifest;
pub mod sharded_map;

pub use api::{
    DataEntry, DataRequest, DataResponse, HgId, HistoryEntry, HistoryRequest, HistoryResponse,
    HistoryResponseChunk, Key, RepoPathBuf, TreeRequest, WireHistoryEntry,
};
pub use builder::{build_nodes, BuildError};
pub use codec::{decode_entry, decode_node, encode_entry, encode_node, DecodeError};
pub use entry::{
    ContentId, ContentManifestDirectory, ContentManifestEntry, ContentManifestFile,
    ContentManifestId, FileType, ShardedMapNodeId,
};
pub use manifest::{
    name_entries, ContentManifest, MPathElement, PathElementError, MAX_ELEMENT_LEN,
};
pub use sharded_map::{
    build_step, key_less, keys_sorted, scan_step, BuildStep, LookupStep, PendingShard, PrefixStep,
    ShardChild, ShardedMapNode, WEIGHT_LIMIT,
};
