use vstd::prelude::*;

use crate::sharded_map::copy_bytes;

verus! {

/// A 20-byte node identifier of the remote data-fetch protocol.
#[derive(Clone, Copy, Debug, PartialEq, Eq, Hash)]
pub struct HgId(pub [u8; 20]);

/// A path in a repository, as its bytes.
#[derive(Clone, Debug, PartialEq, Eq, Hash)]
pub struct RepoPathBuf(pub Vec<u8>);

/// A file revision: its path and its node identifier.
#[derive(Clone, Debug, PartialEq, Eq, Hash)]
pub struct Key {
    pub path: RepoPathBuf,
    pub hgid: HgId,
}

/// The data of one file revision.
#[derive(Clone, Debug, PartialEq, Eq)]
pub struct DataEntry {
    pub key: Key,
    pub data: Vec<u8>,
}

/// One history record as it travels, without its path.
#[derive(Clone, Debug, PartialEq, Eq)]
pub struct WireHistoryEntry {
    pub node: HgId,
    pub p1: HgId,
    pub p2: HgId,
    pub linknode: HgId,
    pub copyfrom: Option<RepoPathBuf>,
}

/// One history record: the revision it is about, its parents, the
/// changeset that introduced it, and the path it was copied from, if any.
#[derive(Clone, Debug, PartialEq, Eq)]
pub struct HistoryEntry {
    pub key: Key,
    pub p1: HgId,
    pub p2: HgId,
    pub linknode: HgId,
    pub copyfrom: Option<RepoPathBuf>,
}

/// A request for the data of a batch of revisions.
#[derive(Clone, Debug, PartialEq, Eq)]
pub struct DataRequest {
    pub keys: Vec<Key>,
}

/// The data of a batch of revisions.
#[derive(Clone, Debug, PartialEq, Eq)]
pub struct DataResponse {
    pub entries: Vec<DataEntry>,
}

/// A request for the history of a batch of revisions, at most `length`
/// records for each where a length is given.
#[derive(Clone, Debug, PartialEq, Eq)]
pub struct HistoryRequest {
    pub keys: Vec<Key>,
    pub length: Option<u32>,
}

/// History records grouped by path.
#[derive(Clone, Debug, PartialEq, Eq)]
pub struct HistoryResponse {
    pub chunks: Vec<HistoryResponseChunk>,
}

/// The history records of one path.
#[derive(Clone, Debug, PartialEq, Eq)]
pub struct HistoryResponseChunk {
    pub path: RepoPathBuf,
    pub entries: Vec<WireHistoryEntry>,
}

/// A request to prefetch tree manifests: a root directory, the manifest
/// nodes wanted, those the client already has, and an optional depth bound.
#[derive(Clone, Debug, PartialEq, Eq)]
pub struct TreeRequest {
    pub rootdir: RepoPathBuf,
    pub mfnodes: Vec<HgId>,
    pub basemfnodes: Vec<HgId>,
    pub depth: Option<usize>,
}

/// `h` is the wire record `w` of the file at `path`.
pub open spec fn is_history_of(h: HistoryEntry, w: WireHistoryEntry, path: Seq<u8>) -> bool {
    &&& h.key.path.0@ == path
    &&& h.key.hgid == w.node
    &&& h.p1 == w.p1
    &&& h.p2 == w.p2
    &&& h.linknode == w.linknode
    &&& h.copyfrom == w.copyfrom
}

/// The wire records of a chunk, each with the chunk's path.
pub open spec fn chunk_items(c: HistoryResponseChunk) -> Seq<(WireHistoryEntry, Seq<u8>)> {
    c.entries@.map_values(|w: WireHistoryEntry| (w, c.path.0@))
}

/// The wire records of all chunks in order, each with its chunk's path.
pub open spec fn chunks_items(cs: Seq<HistoryResponseChunk>) -> Seq<(WireHistoryEntry, Seq<u8>)>
    decreases cs.len(),
{
    if cs.len() == 0 {
        Seq::empty()
    } else {
        chunk_items(cs[0]) + chunks_items(cs.drop_first())
    }
}

/// `hs` are the records `items`, one for one and in order.
pub open spec fn are_histories_of(hs: Seq<HistoryEntry>, items: Seq<(WireHistoryEntry, Seq<u8>)>) -> bool {
    hs.len() == items.len() && forall|i: int|
        0 <= i < hs.len() ==> is_history_of(#[trigger] hs[i], items[i].0, items[i].1)
}

impl HistoryEntry {
    /// The history record of the wire record `entry` of the file at `path`.
    pub fn from_wire(entry: WireHistoryEntry, path: RepoPathBuf) -> (r: HistoryEntry)
        ensures
            is_history_of(r, entry, path.0@),
    {
        HistoryEntry {
            key: Key { path, hgid: entry.node },
            p1: entry.p1,
            p2: entry.p2,
            linknode: entry.linknode,
            copyfrom: entry.copyfrom,
        }
    }
}

impl DataResponse {
    /// A response holding `entries`, in order.
    pub fn new(entries: Vec<DataEntry>) -> (r: Self)
        ensures
            r.entries@ == entries@,
    {
        DataResponse { entries }
    }

    /// The entries of the response, in order.
    pub fn into_entries(self) -> (r: Vec<DataEntry>)
        ensures
            r@ == self.entries@,
    {
        self.entries
    }
}

impl HistoryResponse {
    /// A response holding `chunks`, in order.
    pub fn new(chunks: Vec<HistoryResponseChunk>) -> (r: Self)
        ensures
            r.chunks@ == chunks@,
    {
        HistoryResponse { chunks }
    }

    /// The history records of all chunks, chunk after chunk, each under its
    /// chunk's path.
    pub fn into_entries(self) -> (r: Vec<HistoryEntry>)
        ensures
            are_histories_of(r@, chunks_items(self.chunks@)),
    {
        let ghost all = chunks_items(self.chunks@);
        let mut rest = self.chunks;
        let mut out: Vec<HistoryEntry> = Vec::new();
        let ghost done: Seq<(WireHistoryEntry, Seq<u8>)> = Seq::empty();
        while rest.len() > 0
            invariant
                all == done + chunks_items(rest@),
                are_histories_of(out@, done),
            decreases rest@.len(),
        {
            let c = rest.remove(0);
            let ghost before = out@;
            let ghost items = chunk_items(c);
            let mut hs = c.into_entries();
            out.append(&mut hs);
            proof {
                assert(out@ =~= before + out@.subrange(before.len() as int, out@.len() as int));
                assert forall|i: int| 0 <= i < out@.len() implies is_history_of(
                    #[trigger] out@[i],
                    (done + items)[i].0,
                    (done + items)[i].1,
                ) by {
                    if i < before.len() {
                        assert(out@[i] == before[i]);
                    }
                }
                assert(done + items + chunks_items(rest@) =~= done + (items + chunks_items(rest@)));
                done = done + items;
            }
        }
        assert(done =~= all);
        out
    }
}

impl HistoryResponseChunk {
    /// The chunk of the records `entries` of the file at `path`.
    pub fn new(path: RepoPathBuf, entries: Vec<WireHistoryEntry>) -> (r: Self)
        ensures
            r.path == path,
            r.entries@ == entries@,
    {
        HistoryResponseChunk { path, entries }
    }

    /// The history records of the chunk, in order, each under its path.
    pub fn into_entries(self) -> (r: Vec<HistoryEntry>)
        ensures
            are_histories_of(r@, chunk_items(self)),
    {
        let ghost items = chunk_items(self);
        let path = self.path;
        let mut rest = self.entries;
        let ghost orig = rest@;
        let mut out: Vec<HistoryEntry> = Vec::new();
        while rest.len() > 0
            invariant
                orig.len() == out@.len() + rest@.len(),
                rest@ == orig.subrange(out@.len() as int, orig.len() as int),
                items == orig.map_values(|w: WireHistoryEntry| (w, path.0@)),
                forall|i: int| 0 <= i < out@.len() ==> is_history_of(#[trigger] out@[i], orig[i], path.0@),
            decreases rest@.len(),
        {
            let w = rest.remove(0);
            let p = RepoPathBuf(copy_bytes(path.0.as_slice()));
            let h = HistoryEntry::from_wire(w, p);
            out.push(h);
            assert(rest@ =~= orig.subrange(out@.len() as int, orig.len() as int));
        }
        out
    }
}

impl TreeRequest {
    /// A request with the given fields.
    pub fn new(
        rootdir: RepoPathBuf,
        mfnodes: Vec<HgId>,
        basemfnodes: Vec<HgId>,
        depth: Option<usize>,
    ) -> (r: Self)
        ensures
            r.rootdir == rootdir,
            r.mfnodes@ == mfnodes@,
            r.basemfnodes@ == basemfnodes@,
            r.depth == depth,
    {
        TreeRequest { rootdir, mfnodes, basemfnodes, depth }
    }
}

} // verus!
