use std::collections::BTreeMap;
use std::collections::HashMap;

use content_manifest::{
    build_nodes, scan_step, BuildError, PendingShard, decode_entry, decode_node, encode_entry, encode_node, name_entries,
    ContentId, ContentManifest, ContentManifestDirectory, ContentManifestEntry,
    ContentManifestFile, ContentManifestId, DecodeError, FileType, LookupStep, MPathElement,
    PathElementError, PrefixStep, ShardedMapNode, ShardedMapNodeId, WEIGHT_LIMIT,
};

type Store = HashMap<ShardedMapNodeId, Vec<u8>>;

/// A stand-in content hash for the tests' in-memory store.
fn test_id(bytes: &[u8]) -> ShardedMapNodeId {
    let mut h = [0u8; 32];
    let mut acc: u64 = 0xcbf29ce484222325;
    for (i, b) in bytes.iter().enumerate() {
        acc = (acc ^ (*b as u64)).wrapping_mul(0x100000001b3);
        h[i % 32] ^= (acc >> 24) as u8;
    }
    for (i, slot) in h.iter_mut().enumerate() {
        acc = (acc ^ (i as u64)).wrapping_mul(0x100000001b3);
        *slot ^= (acc >> 32) as u8;
    }
    ShardedMapNodeId(h)
}

fn build(entries: Vec<(Vec<u8>, ContentManifestEntry)>, store: &mut Store) -> ShardedMapNode<ContentManifestEntry> {
    let mut blobs = Vec::new();
    let (root, _) = build_nodes(entries, &|b: &Vec<u8>| test_id(b), &mut blobs).expect("no identifier collision");
    for (id, bytes) in blobs {
        store.insert(id, bytes);
    }
    root
}

fn build_sorted(map: &BTreeMap<Vec<u8>, ContentManifestEntry>, store: &mut Store) -> ShardedMapNode<ContentManifestEntry> {
    build(map.iter().map(|(k, v)| (k.clone(), *v)).collect(), store)
}

fn fetch(store: &Store, id: &ShardedMapNodeId, fetches: &mut usize) -> ShardedMapNode<ContentManifestEntry> {
    *fetches += 1;
    let node = decode_node(store.get(id).expect("blob present")).expect("blob decodes");
    assert!(node.is_wf());
    node
}

fn lookup(root: &ShardedMapNode<ContentManifestEntry>, store: &Store, key: &[u8]) -> Option<ContentManifestEntry> {
    let mut node = root.clone();
    let mut key = key.to_vec();
    let mut fetches = 0;
    loop {
        match node.lookup_step(&key) {
            LookupStep::Found(v) => return Some(v),
            LookupStep::Absent => return None,
            LookupStep::Descend(id) => {
                node = fetch(store, &id, &mut fetches);
                key.remove(0);
            }
        }
    }
}

fn entries(root: &ShardedMapNode<ContentManifestEntry>, store: &Store, prefix: &[u8]) -> (Vec<(Vec<u8>, ContentManifestEntry)>, usize) {
    let mut out = Vec::new();
    let mut fetches = 0;
    let mut stack: Vec<PendingShard> = scan_step(root.clone(), &[], prefix, &mut out);
    stack.reverse();
    while let Some(p) = stack.pop() {
        let node = fetch(store, &p.id, &mut fetches);
        let mut more = scan_step(node, &p.above, &p.rest, &mut out);
        more.reverse();
        stack.extend(more);
    }
    (out, fetches)
}

fn file(c: u8, t: FileType, size: u64) -> ContentManifestEntry {
    ContentManifestEntry::File(ContentManifestFile { content_id: ContentId([c; 32]), file_type: t, size })
}

fn dir(c: u8) -> ContentManifestEntry {
    ContentManifestEntry::Directory(ContentManifestDirectory { id: ContentManifestId([c; 32]) })
}

fn many(n: usize) -> BTreeMap<Vec<u8>, ContentManifestEntry> {
    let mut m = BTreeMap::new();
    for i in 0..n {
        let name = format!("file{:05}.txt", (i * 7919) % 100_000);
        m.insert(name.into_bytes(), file((i % 251) as u8, FileType::Regular, i as u64));
    }
    m
}

#[test]
fn example_two_entries() {
    let mut store = Store::new();
    let mut m = BTreeMap::new();
    m.insert(b"sub".to_vec(), dir(2));
    m.insert(b"a.txt".to_vec(), file(1, FileType::Regular, 10));
    let root = build_sorted(&m, &mut store);
    assert_eq!(lookup(&root, &store, b"a.txt"), Some(file(1, FileType::Regular, 10)));
    assert_eq!(lookup(&root, &store, b"sub"), Some(dir(2)));
    assert_eq!(lookup(&root, &store, b"missing"), None);
    let (all, _) = entries(&root, &store, b"");
    assert_eq!(all, vec![(b"a.txt".to_vec(), file(1, FileType::Regular, 10)), (b"sub".to_vec(), dir(2))]);
}

#[test]
fn example_five_thousand_entries_shard() {
    let mut store = Store::new();
    let m = many(5000);
    assert_eq!(m.len(), 5000);
    let root = build_sorted(&m, &mut store);
    assert!(matches!(root, ShardedMapNode::Sharded { .. }));
    let depth_two = store.values().any(|b| b[0] == 1);
    assert!(depth_two, "a shard split again");
    let (all, _) = entries(&root, &store, b"");
    let expected: Vec<_> = m.iter().map(|(k, v)| (k.clone(), *v)).collect();
    assert_eq!(all, expected);
    for (k, v) in m.iter().step_by(97) {
        assert_eq!(lookup(&root, &store, k), Some(*v));
    }
    assert_eq!(lookup(&root, &store, b"file"), None);
    assert_eq!(lookup(&root, &store, b"zzz"), None);
}

#[test]
fn direct_nodes_respect_the_limit() {
    let mut store = Store::new();
    let root = build_sorted(&many(WEIGHT_LIMIT + 1), &mut store);
    assert!(matches!(root, ShardedMapNode::Sharded { .. }));
    for bytes in store.values() {
        if let ShardedMapNode::Direct { entries } = decode_node(bytes).unwrap() {
            assert!(entries.len() <= WEIGHT_LIMIT);
        }
    }
    let mut store2 = Store::new();
    let small = build_sorted(&many(WEIGHT_LIMIT), &mut store2);
    assert!(matches!(small, ShardedMapNode::Direct { ref entries } if entries.len() == WEIGHT_LIMIT));
    assert!(store2.is_empty());
}

#[test]
fn prefix_scan_touches_only_matching_shards() {
    let mut store = Store::new();
    let mut m = many(3000);
    for i in 0..3000u32 {
        m.insert(format!("other{:05}", i).into_bytes(), dir((i % 200) as u8));
    }
    let root = build_sorted(&m, &mut store);
    let (all, all_fetches) = entries(&root, &store, b"");
    let (some, some_fetches) = entries(&root, &store, b"file0");
    let expected: Vec<_> = all.iter().filter(|(k, _)| k.starts_with(b"file0")).cloned().collect();
    assert!(!expected.is_empty());
    assert_eq!(some, expected);
    assert!(some_fetches < all_fetches);
    let (none, _) = entries(&root, &store, b"nothing");
    assert!(none.is_empty());
}

#[test]
fn same_set_gives_same_root() {
    let m = many(4500);
    let mut s1 = Store::new();
    let mut s2 = Store::new();
    let r1 = build_sorted(&m, &mut s1);
    let mut shuffled: Vec<_> = m.iter().map(|(k, v)| (k.clone(), *v)).collect();
    shuffled.reverse();
    let m2: BTreeMap<_, _> = shuffled.into_iter().collect();
    let r2 = build_sorted(&m2, &mut s2);
    assert_eq!(encode_node(&r1), encode_node(&r2));
    assert_eq!(s1, s2);
}

#[test]
fn empty_manifest() {
    let m = ContentManifest::empty();
    let name = MPathElement::new(b"anything".to_vec()).unwrap();
    assert_eq!(m.lookup(&name), LookupStep::Absent);
    assert_eq!(m.into_bytes(), vec![0u8; 9]);
    assert_eq!(ContentManifest::empty().into_bytes(), ContentManifest::empty().into_bytes());
    match ContentManifest::empty().into_subentries() {
        PrefixStep::Entries(es) => assert!(es.is_empty()),
        other => panic!("unexpected {:?}", other),
    }
}

#[test]
fn manifest_lookup_and_prefix() {
    let mut store = Store::new();
    let mut m = BTreeMap::new();
    m.insert(b"a.txt".to_vec(), file(1, FileType::Executable, 3));
    m.insert(b"b.txt".to_vec(), file(2, FileType::Symlink, 4));
    let manifest = ContentManifest { subentries: build_sorted(&m, &mut store) };
    let a = MPathElement::new(b"a.txt".to_vec()).unwrap();
    assert_eq!(manifest.lookup(&a), LookupStep::Found(file(1, FileType::Executable, 3)));
    match manifest.clone().into_prefix_subentries(b"b") {
        PrefixStep::Entries(es) => {
            let named = name_entries(es).unwrap();
            assert_eq!(named.len(), 1);
            assert_eq!(named[0].0.as_bytes(), b"b.txt");
        }
        other => panic!("unexpected {:?}", other),
    }
    let bytes = manifest.into_bytes();
    assert_eq!(ContentManifest::from_bytes(&bytes), Ok(manifest));
}

#[test]
fn entry_round_trip() {
    for e in [file(9, FileType::Regular, 0), file(1, FileType::Symlink, u64::MAX), dir(7)] {
        let mut out = vec![0xaa];
        encode_entry(&e, &mut out);
        let (d, end) = decode_entry(&out, 1).unwrap();
        assert_eq!(d, e);
        assert_eq!(end, out.len());
    }
}

#[test]
fn entry_encoding_is_exact() {
    let mut out = Vec::new();
    encode_entry(&file(3, FileType::Executable, 0x0102), &mut out);
    let mut expected = vec![0u8];
    expected.extend_from_slice(&[3u8; 32]);
    expected.push(1);
    expected.extend_from_slice(&[0, 0, 0, 0, 0, 0, 1, 2]);
    assert_eq!(out, expected);
}

#[test]
fn entry_decode_errors() {
    assert_eq!(decode_entry(&[], 0), Err(DecodeError::Truncated));
    assert_eq!(decode_entry(&[7], 0), Err(DecodeError::UnknownVariant));
    assert_eq!(decode_entry(&[1, 2, 3], 0), Err(DecodeError::Truncated));
    let mut bad = vec![0u8];
    bad.extend_from_slice(&[0u8; 32]);
    bad.push(9);
    bad.extend_from_slice(&[0u8; 8]);
    assert_eq!(decode_entry(&bad, 0), Err(DecodeError::UnknownFileType));
}

#[test]
fn node_round_trip() {
    let mut store = Store::new();
    let root = build_sorted(&many(2500), &mut store);
    let bytes = encode_node(&root);
    assert_eq!(decode_node(&bytes), Ok(root.clone()));
    for b in store.values() {
        let n = decode_node(b).unwrap();
        assert_eq!(&encode_node(&n), b);
    }
    let mut trailing = bytes.clone();
    trailing.push(0);
    assert_eq!(decode_node(&trailing), Err(DecodeError::TrailingBytes));
    assert_eq!(decode_node(&[5]), Err(DecodeError::UnknownVariant));
    assert_eq!(decode_node(&[]), Err(DecodeError::Truncated));
}

#[test]
fn path_elements() {
    assert_eq!(MPathElement::new(Vec::new()), Err(PathElementError::Empty));
    assert_eq!(MPathElement::new(vec![b'a'; 256]), Err(PathElementError::TooLong));
    assert_eq!(MPathElement::new(b"a/b".to_vec()), Err(PathElementError::InvalidByte));
    assert_eq!(MPathElement::new(vec![b'a', 0]), Err(PathElementError::InvalidByte));
    assert!(MPathElement::new(vec![b'a'; 255]).is_ok());
    assert_eq!(name_entries(vec![(b"x/y".to_vec(), dir(1))]), Err(PathElementError::InvalidByte));
}

#[test]
fn empty_key_stays_at_the_sharded_node() {
    let mut store = Store::new();
    let mut m = many(WEIGHT_LIMIT + 5);
    m.insert(Vec::new(), dir(4));
    let root = build_sorted(&m, &mut store);
    match &root {
        ShardedMapNode::Sharded { value, .. } => assert_eq!(*value, Some(dir(4))),
        other => panic!("unexpected {:?}", other),
    }
    assert_eq!(lookup(&root, &store, b""), Some(dir(4)));
    let (all, _) = entries(&root, &store, b"");
    assert_eq!(all[0], (Vec::new(), dir(4)));
    assert_eq!(all.len(), m.len());
}

#[test]
fn colliding_identifiers_are_reported() {
    let mut m = BTreeMap::new();
    for i in 0..(WEIGHT_LIMIT as u32 + 10) {
        m.insert(format!("{}{:05}", if i % 2 == 0 { 'a' } else { 'b' }, i).into_bytes(), dir((i % 7) as u8));
    }
    let entries: Vec<_> = m.into_iter().collect();
    let mut blobs = Vec::new();
    let r = build_nodes(entries, &|_b: &Vec<u8>| ShardedMapNodeId([9; 32]), &mut blobs);
    assert_eq!(r.err(), Some(BuildError::IdCollision));
    assert_eq!(blobs.len(), 2);
    assert_eq!(blobs[0].0, blobs[1].0);
    assert_ne!(blobs[0].1, blobs[1].1);
}

#[test]
fn shared_identical_shards_are_stored_once() {
    let mut m = BTreeMap::new();
    for i in 0..(WEIGHT_LIMIT as u32) {
        m.insert(format!("x{:05}", i).into_bytes(), dir(1));
        m.insert(format!("y{:05}", i).into_bytes(), dir(1));
    }
    let mut blobs = Vec::new();
    let entries: Vec<_> = m.into_iter().collect();
    let (root, _) = build_nodes(entries, &|b: &Vec<u8>| test_id(b), &mut blobs).unwrap();
    assert_eq!(blobs.len(), 1);
    match root {
        ShardedMapNode::Sharded { children, .. } => {
            assert_eq!(children.len(), 2);
            assert_eq!(children[0].id, children[1].id);
            assert_eq!(children[0].weight, WEIGHT_LIMIT as u64);
        }
        other => panic!("unexpected {:?}", other),
    }
}
