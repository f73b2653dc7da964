use content_manifest::{
    decode_node, encode_node, key_less, keys_sorted, ContentId, ContentManifestEntry,
    ContentManifestFile, FileType, ShardChild, ShardedMapNode, ShardedMapNodeId, WEIGHT_LIMIT,
};

fn f(n: u8) -> ContentManifestEntry {
    ContentManifestEntry::File(ContentManifestFile { content_id: ContentId([n; 32]), file_type: FileType::Regular, size: n as u64 })
}

#[test]
fn byte_lexicographic_order() {
    assert!(key_less(b"a", b"ab"));
    assert!(!key_less(b"ab", b"a"));
    assert!(key_less(b"", b"a"));
    assert!(!key_less(b"", b""));
    assert!(!key_less(b"b", b"ab"));
    assert!(key_less(b"ab", b"b"));
    assert!(key_less(&[0x7f], &[0x80]));
}

#[test]
fn sortedness_check() {
    assert!(keys_sorted::<ContentManifestEntry>(&vec![]));
    assert!(keys_sorted(&vec![(b"a".to_vec(), f(1)), (b"b".to_vec(), f(2))]));
    assert!(!keys_sorted(&vec![(b"b".to_vec(), f(1)), (b"a".to_vec(), f(2))]));
    assert!(!keys_sorted(&vec![(b"a".to_vec(), f(1)), (b"a".to_vec(), f(2))]));
}

#[test]
fn well_formedness_check() {
    let unsorted = ShardedMapNode::Direct { entries: vec![(b"z".to_vec(), f(1)), (b"a".to_vec(), f(2))] };
    assert!(!unsorted.is_wf());
    let decoded = decode_node(&encode_node(&unsorted)).unwrap();
    assert_eq!(decoded, unsorted);
    assert!(!decoded.is_wf());
    let id = ShardedMapNodeId([0; 32]);
    let bad = ShardedMapNode::<ContentManifestEntry>::Sharded {
        value: None,
        children: vec![ShardChild { byte: 5, id, weight: 1 }, ShardChild { byte: 5, id, weight: 1 }],
    };
    assert!(!bad.is_wf());
    let good = ShardedMapNode::<ContentManifestEntry>::Sharded {
        value: Some(f(3)),
        children: vec![ShardChild { byte: 1, id, weight: 1 }, ShardChild { byte: 9, id, weight: 7 }],
    };
    assert!(good.is_wf());
    let big = ShardedMapNode::Direct {
        entries: (0..=WEIGHT_LIMIT as u32).map(|i| (i.to_be_bytes().to_vec(), f(0))).collect(),
    };
    assert!(!big.is_wf());
}

#[test]
fn sharded_node_encoding_is_exact() {
    let id = ShardedMapNodeId([2; 32]);
    let node = ShardedMapNode::<ContentManifestEntry>::Sharded {
        value: None,
        children: vec![ShardChild { byte: 7, id, weight: 3 }],
    };
    let mut expected = vec![1u8, 0u8, 0, 0, 0, 0, 0, 0, 0, 1, 7];
    expected.extend_from_slice(&[2u8; 32]);
    expected.extend_from_slice(&[0, 0, 0, 0, 0, 0, 0, 3]);
    assert_eq!(encode_node(&node), expected);
    assert_eq!(decode_node(&expected), Ok(node));
}
