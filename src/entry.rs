use vstd::prelude::*;

verus! {

/// Identifier of immutable file content: a 32-byte content hash.
#[derive(Clone, Copy, Debug, PartialEq, Eq, Hash)]
pub struct ContentId(pub [u8; 32]);

/// Identifier of a directory manifest blob: a 32-byte content hash.
#[derive(Clone, Copy, Debug, PartialEq, Eq, Hash)]
pub struct ContentManifestId(pub [u8; 32]);

/// Identifier of a sharded-map node blob: a 32-byte content hash.
#[derive(Clone, Copy, Debug, PartialEq, Eq, Hash)]
pub struct ShardedMapNodeId(pub [u8; 32]);

/// The kind of a file.
#[derive(Clone, Copy, Debug, PartialEq, Eq, Hash)]
pub enum FileType {
    Regular,
    Executable,
    Symlink,
}

/// A file child of a directory: its content, its kind and its size in bytes.
#[derive(Clone, Copy, Debug, PartialEq, Eq, Hash)]
pub struct ContentManifestFile {
    pub content_id: ContentId,
    pub file_type: FileType,
    pub size: u64,
}

/// A sub-directory child of a directory, by the identifier of its manifest.
#[derive(Clone, Copy, Debug, PartialEq, Eq, Hash)]
pub struct ContentManifestDirectory {
    pub id: ContentManifestId,
}

/// One named child of a directory.
#[derive(Clone, Copy, Debug, PartialEq, Eq, Hash)]
pub enum ContentManifestEntry {
    File(ContentManifestFile),
    Directory(ContentManifestDirectory),
}

} // verus!
