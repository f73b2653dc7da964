use content_manifest::{
    DataEntry, DataResponse, HgId, HistoryEntry, HistoryResponse, HistoryResponseChunk, Key,
    RepoPathBuf, TreeRequest, WireHistoryEntry,
};

fn wire(n: u8, copyfrom: Option<&[u8]>) -> WireHistoryEntry {
    WireHistoryEntry {
        node: HgId([n; 20]),
        p1: HgId([n + 1; 20]),
        p2: HgId([0; 20]),
        linknode: HgId([n + 2; 20]),
        copyfrom: copyfrom.map(|p| RepoPathBuf(p.to_vec())),
    }
}

#[test]
fn data_response_keeps_entries() {
    let e = DataEntry { key: Key { path: RepoPathBuf(b"a".to_vec()), hgid: HgId([1; 20]) }, data: b"x".to_vec() };
    let r = DataResponse::new(vec![e.clone()]);
    assert_eq!(r.into_entries(), vec![e]);
}

#[test]
fn history_response_flattens_chunks_with_paths() {
    let c1 = HistoryResponseChunk::new(RepoPathBuf(b"p/one".to_vec()), vec![wire(1, None), wire(2, Some(b"old"))]);
    let c2 = HistoryResponseChunk::new(RepoPathBuf(b"two".to_vec()), vec![wire(3, None)]);
    let hs = HistoryResponse::new(vec![c1, c2]).into_entries();
    assert_eq!(hs.len(), 3);
    assert_eq!(hs[0].key.path, RepoPathBuf(b"p/one".to_vec()));
    assert_eq!(hs[1].key.hgid, HgId([2; 20]));
    assert_eq!(hs[1].copyfrom, Some(RepoPathBuf(b"old".to_vec())));
    assert_eq!(hs[2].key.path, RepoPathBuf(b"two".to_vec()));
    assert_eq!(hs[2].p1, HgId([4; 20]));
    assert_eq!(
        hs[2],
        HistoryEntry::from_wire(wire(3, None), RepoPathBuf(b"two".to_vec()))
    );
}

#[test]
fn tree_request_fields() {
    let t = TreeRequest::new(RepoPathBuf(b"root".to_vec()), vec![HgId([1; 20])], vec![], Some(3));
    assert_eq!(t.rootdir, RepoPathBuf(b"root".to_vec()));
    assert_eq!(t.mfnodes, vec![HgId([1; 20])]);
    assert!(t.basemfnodes.is_empty());
    assert_eq!(t.depth, Some(3));
}
