use vstd::prelude::*;

use crate::entry::{
    ContentId, ContentManifestDirectory, ContentManifestEntry, ContentManifestFile,
    ContentManifestId, FileType, ShardedMapNodeId,
};
use crate::sharded_map::{entries_view, ShardChild, ShardedMapNode};

verus! {

/// Why bytes do not decode.
#[derive(Clone, Copy, Debug, PartialEq, Eq)]
pub enum DecodeError {
    /// The bytes end before the value does.
    Truncated,
    /// A union carries a tag that names no variant.
    UnknownVariant,
    /// A file carries a kind byte that names no file kind.
    UnknownFileType,
    /// Bytes are left over after the value.
    TrailingBytes,
}

/// The byte that stands for a file kind.
pub open spec fn file_type_byte(t: FileType) -> u8 {
    match t {
        FileType::Regular => 0,
        FileType::Executable => 1,
        FileType::Symlink => 2,
    }
}

/// The eight big-endian bytes of `x`.
pub open spec fn u64_bytes(x: u64) -> Seq<u8> {
    seq![
        (x >> 56u64) as u8,
        (x >> 48u64) as u8,
        (x >> 40u64) as u8,
        (x >> 32u64) as u8,
        (x >> 24u64) as u8,
        (x >> 16u64) as u8,
        (x >> 8u64) as u8,
        x as u8,
    ]
}

/// The canonical encoding of an entry: a tag byte (0 for a file, 1 for a
/// directory), the 32 identifier bytes, and for a file its kind byte and
/// its size in eight big-endian bytes.
pub open spec fn entry_bytes(e: ContentManifestEntry) -> Seq<u8> {
    match e {
        ContentManifestEntry::File(f) => seq![0u8] + f.content_id.0@ + seq![
            file_type_byte(f.file_type),
        ] + u64_bytes(f.size),
        ContentManifestEntry::Directory(d) => seq![1u8] + d.id.0@,
    }
}

/// Whether `p` is where `s` starts.
pub open spec fn is_prefix_of(p: Seq<u8>, s: Seq<u8>) -> bool {
    p.len() <= s.len() && s.subrange(0, p.len() as int) == p
}

fn push_u64(out: &mut Vec<u8>, x: u64)
    ensures
        final(out)@ == old(out)@ + u64_bytes(x),
{
    out.push((x >> 56u64) as u8);
    out.push((x >> 48u64) as u8);
    out.push((x >> 40u64) as u8);
    out.push((x >> 32u64) as u8);
    out.push((x >> 24u64) as u8);
    out.push((x >> 16u64) as u8);
    out.push((x >> 8u64) as u8);
    out.push(x as u8);
    assert(out@ =~= old(out)@ + u64_bytes(x));
}

fn push_hash(out: &mut Vec<u8>, h: &[u8; 32])
    ensures
        final(out)@ == old(out)@ + h@,
{
    let mut i: usize = 0;
    while i < 32
        invariant
            0 <= i <= 32,
            h@.len() == 32,
            out@ == old(out)@ + h@.subrange(0, i as int),
        decreases 32 - i,
    {
        out.push(h[i]);
        assert(h@.subrange(0, i + 1) =~= h@.subrange(0, i as int).push(h@[i as int]));
        i = i + 1;
    }
    assert(h@.subrange(0, 32) =~= h@);
}

/// Appends the canonical encoding of `e` to `out`.
pub fn encode_entry(e: &ContentManifestEntry, out: &mut Vec<u8>)
    ensures
        final(out)@ == old(out)@ + entry_bytes(*e),
{
    match e {
        ContentManifestEntry::File(f) => {
            out.push(0u8);
            push_hash(out, &f.content_id.0);
            let t: u8 = match f.file_type {
                FileType::Regular => 0,
                FileType::Executable => 1,
                FileType::Symlink => 2,
            };
            out.push(t);
            push_u64(out, f.size);
        },
        ContentManifestEntry::Directory(d) => {
            out.push(1u8);
            push_hash(out, &d.id.0);
        },
    }
    assert(final(out)@ =~= old(out)@ + entry_bytes(*e));
}

/// The 32 bytes of `b` from `pos` on, as a hash.
fn read_hash(b: &[u8], pos: usize) -> (r: [u8; 32])
    requires
        pos + 32 <= b@.len(),
    ensures
        r@ == b@.subrange(pos as int, pos + 32),
{
    let n = b.len();
    let mut h: [u8; 32] = [0u8; 32];
    let mut i: usize = 0;
    while i < 32
        invariant
            0 <= i <= 32,
            n == b@.len(),
            pos + 32 <= b@.len(),
            h@.len() == 32,
            forall|j: int| 0 <= j < i ==> h@[j] == b@[pos + j],
        decreases 32 - i,
    {
        h[i] = b[pos + i];
        i = i + 1;
    }
    assert(h@ =~= b@.subrange(pos as int, pos + 32));
    h
}

/// The big-endian number in the eight bytes of `b` from `pos` on.
fn read_u64(b: &[u8], pos: usize) -> (r: u64)
    requires
        pos + 8 <= b@.len(),
    ensures
        u64_bytes(r) == b@.subrange(pos as int, pos + 8),
{
    let b0 = b[pos];
    let b1 = b[pos + 1];
    let b2 = b[pos + 2];
    let b3 = b[pos + 3];
    let b4 = b[pos + 4];
    let b5 = b[pos + 5];
    let b6 = b[pos + 6];
    let b7 = b[pos + 7];
    let x: u64 = ((b0 as u64) << 56u64) | ((b1 as u64) << 48u64) | ((b2 as u64) << 40u64) | ((
    b3 as u64) << 32u64) | ((b4 as u64) << 24u64) | ((b5 as u64) << 16u64) | ((b6 as u64)
        << 8u64) | (b7 as u64);
    assert(((x >> 56u64) as u8) == b0 && ((x >> 48u64) as u8) == b1 && ((x >> 40u64) as u8) == b2
        && ((x >> 32u64) as u8) == b3 && ((x >> 24u64) as u8) == b4 && ((x >> 16u64) as u8) == b5
        && ((x >> 8u64) as u8) == b6 && (x as u8) == b7) by (bit_vector)
        requires
            x == ((b0 as u64) << 56u64) | ((b1 as u64) << 48u64) | ((b2 as u64) << 40u64) | ((
            b3 as u64) << 32u64) | ((b4 as u64) << 24u64) | ((b5 as u64) << 16u64) | ((
            b6 as u64) << 8u64) | (b7 as u64),
    ;
    assert(u64_bytes(x) =~= b@.subrange(pos as int, pos + 8));
    x
}

/// Two numbers with the same eight bytes are equal.
pub proof fn lemma_u64_bytes_injective(x: u64, y: u64)
    requires
        u64_bytes(x) == u64_bytes(y),
    ensures
        x == y,
{
    assert(u64_bytes(x)[0] == u64_bytes(y)[0]);
    assert(u64_bytes(x)[1] == u64_bytes(y)[1]);
    assert(u64_bytes(x)[2] == u64_bytes(y)[2]);
    assert(u64_bytes(x)[3] == u64_bytes(y)[3]);
    assert(u64_bytes(x)[4] == u64_bytes(y)[4]);
    assert(u64_bytes(x)[5] == u64_bytes(y)[5]);
    assert(u64_bytes(x)[6] == u64_bytes(y)[6]);
    assert(u64_bytes(x)[7] == u64_bytes(y)[7]);
    assert(x == y) by (bit_vector)
        requires
            (x >> 56u64) as u8 == (y >> 56u64) as u8,
            (x >> 48u64) as u8 == (y >> 48u64) as u8,
            (x >> 40u64) as u8 == (y >> 40u64) as u8,
            (x >> 32u64) as u8 == (y >> 32u64) as u8,
            (x >> 24u64) as u8 == (y >> 24u64) as u8,
            (x >> 16u64) as u8 == (y >> 16u64) as u8,
            (x >> 8u64) as u8 == (y >> 8u64) as u8,
            x as u8 == y as u8,
    ;
}

/// No two entries have encodings that both begin the same bytes: the
/// encoding is one-to-one and no encoding is a proper prefix of another.
pub proof fn lemma_entry_bytes_unique(e1: ContentManifestEntry, e2: ContentManifestEntry, s: Seq<u8>)
    requires
        is_prefix_of(entry_bytes(e1), s),
        is_prefix_of(entry_bytes(e2), s),
    ensures
        e1 == e2,
{
    let b1 = entry_bytes(e1);
    let b2 = entry_bytes(e2);
    assert(b1[0] == s[0] && b2[0] == s[0]);
    match (e1, e2) {
        (ContentManifestEntry::File(f1), ContentManifestEntry::File(f2)) => {
            assert(f1.content_id.0@ =~= s.subrange(1, 33)) by {
                assert forall|j: int| 0 <= j < 32 implies f1.content_id.0@[j] == s.subrange(1, 33)[j] by {
                    assert(b1[1 + j] == s[1 + j]);
                }
            }
            assert(f2.content_id.0@ =~= s.subrange(1, 33)) by {
                assert forall|j: int| 0 <= j < 32 implies f2.content_id.0@[j] == s.subrange(1, 33)[j] by {
                    assert(b2[1 + j] == s[1 + j]);
                }
            }
            assert(f1.content_id.0 == f2.content_id.0);
            assert(b1[33] == s[33] && b2[33] == s[33]);
            assert(u64_bytes(f1.size) =~= s.subrange(34, 42)) by {
                assert forall|j: int| 0 <= j < 8 implies u64_bytes(f1.size)[j] == s.subrange(34, 42)[j] by {
                    assert(b1[34 + j] == s[34 + j]);
                }
            }
            assert(u64_bytes(f2.size) =~= s.subrange(34, 42)) by {
                assert forall|j: int| 0 <= j < 8 implies u64_bytes(f2.size)[j] == s.subrange(34, 42)[j] by {
                    assert(b2[34 + j] == s[34 + j]);
                }
            }
            lemma_u64_bytes_injective(f1.size, f2.size);
        },
        (ContentManifestEntry::Directory(d1), ContentManifestEntry::Directory(d2)) => {
            assert(d1.id.0@ =~= s.subrange(1, 33)) by {
                assert forall|j: int| 0 <= j < 32 implies d1.id.0@[j] == s.subrange(1, 33)[j] by {
                    assert(b1[1 + j] == s[1 + j]);
                }
            }
            assert(d2.id.0@ =~= s.subrange(1, 33)) by {
                assert forall|j: int| 0 <= j < 32 implies d2.id.0@[j] == s.subrange(1, 33)[j] by {
                    assert(b2[1 + j] == s[1 + j]);
                }
            }
            assert(d1.id.0 == d2.id.0);
        },
        _ => {},
    }
}

/// Decodes the entry whose encoding starts at `pos` in `b`, and the position
/// just after it. Bytes that start with the encoding of an entry decode to
/// that entry; bytes that start with none give an error.
pub fn decode_entry(b: &[u8], pos: usize) -> (r: Result<(ContentManifestEntry, usize), DecodeError>)
    requires
        pos <= b@.len(),
    ensures
        forall|e: ContentManifestEntry|
            is_prefix_of(#[trigger] entry_bytes(e), b@.subrange(pos as int, b@.len() as int)) ==> r
                == Ok::<(ContentManifestEntry, usize), DecodeError>((e, (pos + entry_bytes(e).len()) as usize)),
        match r {
            Ok((e, end)) => end == pos + entry_bytes(e).len() && is_prefix_of(
                entry_bytes(e),
                b@.subrange(pos as int, b@.len() as int),
            ),
            Err(DecodeError::UnknownVariant) => pos < b@.len() && b@[pos as int] > 1,
            Err(DecodeError::UnknownFileType) => pos + 42 <= b@.len() && b@[pos as int] == 0
                && b@[pos + 33] > 2,
            Err(DecodeError::Truncated) => pos == b@.len() || (b@[pos as int] == 0 && b@.len()
                < pos + 42) || (b@[pos as int] == 1 && b@.len() < pos + 33),
            Err(DecodeError::TrailingBytes) => false,
        },
{
    let n = b.len();
    let ghost rest = b@.subrange(pos as int, b@.len() as int);
    let r = if pos == n {
        Err(DecodeError::Truncated)
    } else if b[pos] == 0 {
        if n - pos < 42 {
            Err(DecodeError::Truncated)
        } else {
            let t = b[pos + 33];
            if t > 2 {
                Err(DecodeError::UnknownFileType)
            } else {
                let content_id = ContentId(read_hash(b, pos + 1));
                let file_type = if t == 0 {
                    FileType::Regular
                } else if t == 1 {
                    FileType::Executable
                } else {
                    FileType::Symlink
                };
                let size = read_u64(b, pos + 34);
                let e = ContentManifestEntry::File(ContentManifestFile { content_id, file_type, size });
                assert(entry_bytes(e) =~= rest.subrange(0, 42));
                Ok((e, pos + 42))
            }
        }
    } else if b[pos] == 1 {
        if n - pos < 33 {
            Err(DecodeError::Truncated)
        } else {
            let id = ContentManifestId(read_hash(b, pos + 1));
            let e = ContentManifestEntry::Directory(ContentManifestDirectory { id });
            assert(entry_bytes(e) =~= rest.subrange(0, 33));
            Ok((e, pos + 33))
        }
    } else {
        Err(DecodeError::UnknownVariant)
    };
    proof {
        assert forall|e: ContentManifestEntry|
            is_prefix_of(#[trigger] entry_bytes(e), rest) implies r == Ok::<(ContentManifestEntry, usize), DecodeError>((e, (pos + entry_bytes(e).len()) as usize)) by {
            let eb = entry_bytes(e);
            assert(eb[0] == rest[0]);
            match e {
                ContentManifestEntry::File(f) => {
                    assert(eb[33] == rest[33]);
                },
                ContentManifestEntry::Directory(d) => {},
            }
            match r {
                Ok((e2, end)) => {
                    lemma_entry_bytes_unique(e, e2, rest);
                },
                Err(_) => {},
            }
        }
    }
    r
}

/// The encoding of one entry of a direct node: the key's length, the key,
/// and the entry.
pub open spec fn item_bytes(k: Seq<u8>, e: ContentManifestEntry) -> Seq<u8> {
    u64_bytes(k.len() as u64) + k + entry_bytes(e)
}

/// The encodings of the entries of a direct node, one after another.
pub open spec fn items_bytes(es: Seq<(Seq<u8>, ContentManifestEntry)>) -> Seq<u8>
    decreases es.len(),
{
    if es.len() == 0 {
        Seq::empty()
    } else {
        items_bytes(es.drop_last()) + item_bytes(es.last().0, es.last().1)
    }
}

/// The encoding of a child reference: its byte, its identifier, its weight.
pub open spec fn child_bytes(c: ShardChild) -> Seq<u8> {
    seq![c.byte] + c.id.0@ + u64_bytes(c.weight)
}

/// The encodings of child references, one after another.
pub open spec fn children_bytes(cs: Seq<ShardChild>) -> Seq<u8>
    decreases cs.len(),
{
    if cs.len() == 0 {
        Seq::empty()
    } else {
        children_bytes(cs.drop_last()) + child_bytes(cs.last())
    }
}

/// The canonical encoding of a directory's map node: a tag byte (0 for a
/// direct node, 1 for a sharded one); for a direct node the number of
/// entries and the entries; for a sharded node a flag byte for the value
/// under the empty key and that value, then the number of children and the
/// children.
pub open spec fn node_bytes(n: ShardedMapNode<ContentManifestEntry>) -> Seq<u8> {
    match n {
        ShardedMapNode::Direct { entries } => seq![0u8] + u64_bytes(entries@.len() as u64)
            + items_bytes(entries_view(entries@)),
        ShardedMapNode::Sharded { value, children } => seq![1u8] + match value {
            Some(v) => seq![1u8] + entry_bytes(v),
            None => seq![0u8],
        } + u64_bytes(children@.len() as u64) + children_bytes(children@),
    }
}

/// The canonical encoding of a directory's map node.
pub fn encode_node(n: &ShardedMapNode<ContentManifestEntry>) -> (r: Vec<u8>)
    ensures
        r@ == node_bytes(*n),
{
    let mut out: Vec<u8> = Vec::new();
    match n {
        ShardedMapNode::Direct { entries } => {
            out.push(0u8);
            push_u64(&mut out, entries.len() as u64);
            let ghost head = out@;
            let mut i: usize = 0;
            while i < entries.len()
                invariant
                    i <= entries@.len(),
                    out@ == head + items_bytes(entries_view(entries@).subrange(0, i as int)),
                decreases entries@.len() - i,
            {
                let k = &entries[i].0;
                push_u64(&mut out, k.len() as u64);
                let mut j: usize = 0;
                let ghost mid = out@;
                while j < k.len()
                    invariant
                        j <= k@.len(),
                        out@ == mid + k@.subrange(0, j as int),
                    decreases k@.len() - j,
                {
                    out.push(k[j]);
                    assert(k@.subrange(0, j + 1) =~= k@.subrange(0, j as int).push(k@[j as int]));
                    j = j + 1;
                }
                assert(k@.subrange(0, j as int) =~= k@);
                encode_entry(&entries[i].1, &mut out);
                proof {
                    let ev = entries_view(entries@);
                    assert(ev.subrange(0, i + 1).drop_last() =~= ev.subrange(0, i as int));
                    assert(ev.subrange(0, i + 1).last() == ev[i as int]);
                    assert(out@ =~= head + items_bytes(ev.subrange(0, i + 1)));
                }
                i = i + 1;
            }
            assert(entries_view(entries@).subrange(0, i as int) =~= entries_view(entries@));
        },
        ShardedMapNode::Sharded { value, children } => {
            out.push(1u8);
            match value {
                Some(v) => {
                    out.push(1u8);
                    encode_entry(v, &mut out);
                },
                None => {
                    out.push(0u8);
                },
            }
            push_u64(&mut out, children.len() as u64);
            let ghost head = out@;
            let mut i: usize = 0;
            while i < children.len()
                invariant
                    i <= children@.len(),
                    out@ == head + children_bytes(children@.subrange(0, i as int)),
                decreases children@.len() - i,
            {
                let c = children[i];
                out.push(c.byte);
                push_hash(&mut out, &c.id.0);
                push_u64(&mut out, c.weight);
                proof {
                    assert(children@.subrange(0, i + 1).drop_last() =~= children@.subrange(0, i as int));
                    assert(children@.subrange(0, i + 1).last() == c);
                    assert(out@ =~= head + children_bytes(children@.subrange(0, i + 1)));
                }
                i = i + 1;
            }
            assert(children@.subrange(0, i as int) =~= children@);
        },
    }
    assert(out@ =~= node_bytes(*n));
    out
}

/// The bytes of `b` from `start` up to `end`, as a new vector.
fn read_bytes(b: &[u8], start: usize, end: usize) -> (r: Vec<u8>)
    requires
        start <= end <= b@.len(),
    ensures
        r@ == b@.subrange(start as int, end as int),
{
    let mut r: Vec<u8> = Vec::new();
    let mut i: usize = start;
    while i < end
        invariant
            start <= i <= end <= b@.len(),
            r@ == b@.subrange(start as int, i as int),
        decreases end - i,
    {
        r.push(b[i]);
        assert(b@.subrange(start as int, i + 1) =~= b@.subrange(start as int, i as int).push(
            b@[i as int],
        ));
        i = i + 1;
    }
    r
}

/// Decodes the entry of a direct node that starts at `pos` in `b`: the key,
/// the entry, and the position just after them. Bytes that start with the
/// encoding of a key and an entry decode to them.
fn decode_item(b: &[u8], pos: usize) -> (r: Result<(Vec<u8>, ContentManifestEntry, usize), DecodeError>)
    requires
        pos <= b@.len(),
    ensures
        r matches Ok((k, e, end)) ==> pos <= end <= b@.len() && b@.subrange(pos as int, end as int)
            == item_bytes(k@, e),
        forall|k: Seq<u8>, e: ContentManifestEntry|
            k.len() <= usize::MAX && is_prefix_of(#[trigger] item_bytes(k, e), b@.subrange(pos as int, b@.len() as int))
                ==> (r matches Ok((k2, e2, end)) && k2@ == k && e2 == e && end == pos + item_bytes(k, e).len()),
{
    let n = b.len();
    let ghost rest = b@.subrange(pos as int, n as int);
    if n - pos < 8 {
        assert forall|k: Seq<u8>, e: ContentManifestEntry| k.len() <= usize::MAX && is_prefix_of(#[trigger] item_bytes(k, e), rest) implies false by {
            assert(item_bytes(k, e).len() >= 8);
        }
        return Err(DecodeError::Truncated);
    }
    let kl = read_u64(b, pos);
    assert forall|k: Seq<u8>, e: ContentManifestEntry| k.len() <= usize::MAX && is_prefix_of(#[trigger] item_bytes(k, e), rest) implies kl == k.len() by {
        let it = item_bytes(k, e);
        assert(b@.subrange(pos as int, pos + 8) =~= it.subrange(0, 8));
        assert(it.subrange(0, 8) =~= u64_bytes(k.len() as u64));
        lemma_u64_bytes_injective(kl, k.len() as u64);
    }
    if kl > (n - pos - 8) as u64 {
        assert forall|k: Seq<u8>, e: ContentManifestEntry| k.len() <= usize::MAX && is_prefix_of(#[trigger] item_bytes(k, e), rest) implies false by {
            assert(item_bytes(k, e).len() >= 8 + k.len());
        }
        return Err(DecodeError::Truncated);
    }
    let kend = pos + 8 + kl as usize;
    let k = read_bytes(b, pos + 8, kend);
    let res = decode_entry(b, kend);
    assert forall|k2: Seq<u8>, e: ContentManifestEntry| k2.len() <= usize::MAX && is_prefix_of(#[trigger] item_bytes(k2, e), rest) implies k@ == k2 && res == Ok::<(ContentManifestEntry, usize), DecodeError>((e, (kend + entry_bytes(e).len()) as usize)) by {
        let it = item_bytes(k2, e);
        let eb = entry_bytes(e);
        assert(k@ =~= it.subrange(8, 8 + kl as int));
        assert(it.subrange(8, 8 + kl as int) =~= k2);
        assert(b@.subrange(kend as int, n as int).subrange(0, eb.len() as int) =~= it.subrange(8 + kl as int, it.len() as int));
        assert(it.subrange(8 + kl as int, it.len() as int) =~= eb);
        assert(is_prefix_of(eb, b@.subrange(kend as int, n as int)));
    }
    match res {
        Ok((e, end)) => {
            assert(k@.len() == kl);
            assert(b@.subrange(pos as int, end as int) =~= item_bytes(k@, e)) by {
                assert(b@.subrange(pos as int, pos + 8) == u64_bytes(kl));
                assert(b@.subrange(kend as int, end as int) =~= b@.subrange(kend as int, n as int).subrange(0, entry_bytes(e).len() as int));
            }
            Ok((k, e, end))
        },
        Err(err) => Err(err),
    }
}

/// `d` and `m` hold the same node: same entries, or same value and children.
pub open spec fn same_node(
    d: ShardedMapNode<ContentManifestEntry>,
    m: ShardedMapNode<ContentManifestEntry>,
) -> bool {
    match (d, m) {
        (ShardedMapNode::Direct { entries: x }, ShardedMapNode::Direct { entries: y }) => entries_view(x@)
            == entries_view(y@),
        (
            ShardedMapNode::Sharded { value: v1, children: c1 },
            ShardedMapNode::Sharded { value: v2, children: c2 },
        ) => v1 == v2 && c1@ == c2@,
        _ => false,
    }
}

/// Decoding of a direct node has read its first `found.len()` entries,
/// which are those of `m`, up to `pos`.
pub open spec fn direct_read(
    m: ShardedMapNode<ContentManifestEntry>,
    found: Seq<(Vec<u8>, ContentManifestEntry)>,
    pos: int,
    count: u64,
) -> bool {
    match m {
        ShardedMapNode::Direct { entries } => entries@.len() == count && found.len() <= entries@.len()
            && entries_view(found) == entries_view(entries@).subrange(0, found.len() as int) && pos
            == 9 + items_bytes(entries_view(entries@).subrange(0, found.len() as int)).len(),
        _ => false,
    }
}

/// Decoding of a sharded node has read its first `found.len()` children,
/// which are those of `m`, up to `pos`, after a head of `head` bytes.
pub open spec fn children_read(
    m: ShardedMapNode<ContentManifestEntry>,
    value: Option<ContentManifestEntry>,
    found: Seq<ShardChild>,
    head: int,
    pos: int,
    count: u64,
) -> bool {
    match m {
        ShardedMapNode::Sharded { value: v, children } => v == value && children@.len() == count
            && found.len() <= children@.len() && found == children@.subrange(0, found.len() as int)
            && head == 2 + match v {
            Some(e) => entry_bytes(e).len(),
            None => 0,
        } + 8 && pos == head + 41 * found.len(),
        _ => false,
    }
}

/// Decodes a direct node from the whole of `b`, whose tag byte is 0.
fn decode_direct(b: &[u8]) -> (r: Result<ShardedMapNode<ContentManifestEntry>, DecodeError>)
    requires
        b@.len() > 0,
        b@[0] == 0,
    ensures
        r matches Ok(n) ==> node_bytes(n) == b@,
        forall|m: ShardedMapNode<ContentManifestEntry>|
            #[trigger] node_bytes(m) == b@ ==> (r matches Ok(d) && same_node(d, m)),
{
    let n = b.len();
    assert forall|m: ShardedMapNode<ContentManifestEntry>| #[trigger] node_bytes(m) == b@ implies m is Direct by {
        assert(node_bytes(m)[0] == b@[0]);
    }
    if n < 9 {
        assert forall|m: ShardedMapNode<ContentManifestEntry>| #[trigger] node_bytes(m) == b@ implies false by {
            assert(node_bytes(m).len() >= 9);
        }
        return Err(DecodeError::Truncated);
    }
    let count = read_u64(b, 1);
    let mut pos: usize = 9;
    let mut found: Vec<(Vec<u8>, ContentManifestEntry)> = Vec::new();
    let mut t: u64 = 0;
    assert(b@.subrange(0, 9) =~= seq![0u8] + u64_bytes(count) + items_bytes(
        entries_view(found@),
    ));
    assert forall|m: ShardedMapNode<ContentManifestEntry>| #[trigger] node_bytes(m) == b@ implies direct_read(m, found@, pos as int, count) by {
        if let ShardedMapNode::Direct { entries } = m {
            assert(node_bytes(m).subrange(1, 9) =~= u64_bytes(entries@.len() as u64));
            lemma_u64_bytes_injective(count, entries@.len() as u64);
            assert(entries@.len() == entries.len());
            assert(entries_view(found@) =~= entries_view(entries@).subrange(0, 0));
            assert(items_bytes(entries_view(entries@).subrange(0, 0)) =~= Seq::empty());
        }
    }
    while t < count
        invariant
            n == b@.len(),
            b@[0] == 0,
            9 <= pos <= n,
            t <= count,
            found@.len() == t,
            b@.subrange(0, pos as int) == seq![0u8] + u64_bytes(count) + items_bytes(
                entries_view(found@),
            ),
            forall|m: ShardedMapNode<ContentManifestEntry>| #[trigger] node_bytes(m) == b@ ==> direct_read(m, found@, pos as int, count),
        decreases count - t,
    {
        assert forall|m: ShardedMapNode<ContentManifestEntry>| #[trigger] node_bytes(m) == b@ implies ({
            let ev = entries_view(m->Direct_entries@);
            &&& t < ev.len()
            &&& ev[t as int].0.len() <= usize::MAX
            &&& is_prefix_of(item_bytes(ev[t as int].0, ev[t as int].1), b@.subrange(pos as int, n as int))
        }) by {
            let es = m->Direct_entries@;
            let ev = entries_view(es);
            lemma_items_bytes_step(ev, t as int);
            let pre = seq![0u8] + u64_bytes(count) + items_bytes(ev.subrange(0, t as int));
            let it = item_bytes(ev[t as int].0, ev[t as int].1);
            assert(b@ =~= pre + it + items_bytes(ev.subrange(t + 1, ev.len() as int)));
            assert(b@.subrange(pos as int, n as int).subrange(0, it.len() as int) =~= it);
            assert(es[t as int].0@.len() == es[t as int].0.len());
        }
        let res = decode_item(b, pos);
        let (k, e, end) = match res {
            Ok(x) => x,
            Err(err) => {
                assert forall|m: ShardedMapNode<ContentManifestEntry>| #[trigger] node_bytes(m) == b@ implies false by {
                    let ev = entries_view(m->Direct_entries@);
                    assert(is_prefix_of(item_bytes(ev[t as int].0, ev[t as int].1), b@.subrange(pos as int, n as int)));
                }
                return Err(err);
            },
        };
        let ghost before = found@;
        found.push((k, e));
        proof {
            let ev = entries_view(found@);
            assert(ev.drop_last() =~= entries_view(before));
            assert(ev.last() == (k@, e));
            assert(b@.subrange(0, end as int) =~= b@.subrange(0, pos as int) + b@.subrange(pos as int, end as int));
            assert forall|m: ShardedMapNode<ContentManifestEntry>| #[trigger] node_bytes(m) == b@ implies direct_read(m, found@, end as int, count) by {
                let mv = entries_view(m->Direct_entries@);
                lemma_items_bytes_step(mv, t as int);
                assert(is_prefix_of(item_bytes(mv[t as int].0, mv[t as int].1), b@.subrange(pos as int, n as int)));
                assert(entries_view(found@) =~= mv.subrange(0, t + 1));
            }
        }
        pos = end;
        t = t + 1;
    }
    assert forall|m: ShardedMapNode<ContentManifestEntry>| #[trigger] node_bytes(m) == b@ implies pos == n by {
        let mv = entries_view(m->Direct_entries@);
        assert(mv.subrange(0, mv.len() as int) =~= mv);
    }
    if pos != n {
        return Err(DecodeError::TrailingBytes);
    }
    assert(b@.subrange(0, pos as int) =~= b@);
    let node = ShardedMapNode::Direct { entries: found };
    assert(node_bytes(node) =~= b@);
    assert forall|m: ShardedMapNode<ContentManifestEntry>| #[trigger] node_bytes(m) == b@ implies same_node(node, m) by {
        let mv = entries_view(m->Direct_entries@);
        assert(mv.subrange(0, mv.len() as int) =~= mv);
    }
    Ok(node)
}

/// Decodes a sharded node from the whole of `b`, whose tag byte is 1.
fn decode_sharded(b: &[u8]) -> (r: Result<ShardedMapNode<ContentManifestEntry>, DecodeError>)
    requires
        b@.len() > 0,
        b@[0] == 1,
    ensures
        r matches Ok(n) ==> node_bytes(n) == b@,
        forall|m: ShardedMapNode<ContentManifestEntry>|
            #[trigger] node_bytes(m) == b@ ==> (r matches Ok(d) && same_node(d, m)),
{
    let n = b.len();
    assert forall|m: ShardedMapNode<ContentManifestEntry>| #[trigger] node_bytes(m) == b@ implies m is Sharded by {
        assert(node_bytes(m)[0] == b@[0]);
    }
    if n < 2 {
        assert forall|m: ShardedMapNode<ContentManifestEntry>| #[trigger] node_bytes(m) == b@ implies false by {
            assert(node_bytes(m).len() >= 2);
        }
        return Err(DecodeError::Truncated);
    }
    let mut pos: usize = 2;
    let value = if b[1] == 0 {
        None
    } else if b[1] == 1 {
        let res = decode_entry(b, 2);
        assert forall|m: ShardedMapNode<ContentManifestEntry>| #[trigger] node_bytes(m) == b@ implies ({
            &&& m->Sharded_value is Some
            &&& res == Ok::<(ContentManifestEntry, usize), DecodeError>((m->Sharded_value->Some_0, (2 + entry_bytes(m->Sharded_value->Some_0).len()) as usize))
        }) by {
            assert(node_bytes(m)[1] == b@[1]);
            if let Some(v) = m->Sharded_value {
                let eb = entry_bytes(v);
                assert(b@.subrange(2, n as int).subrange(0, eb.len() as int) =~= eb);
            }
        }
        match res {
            Ok((e, end)) => {
                pos = end;
                Some(e)
            },
            Err(err) => {
                assert forall|m: ShardedMapNode<ContentManifestEntry>| #[trigger] node_bytes(m) == b@ implies false by {
                    assert(res is Ok);
                }
                return Err(err);
            },
        }
    } else {
        assert forall|m: ShardedMapNode<ContentManifestEntry>| #[trigger] node_bytes(m) == b@ implies false by {
            assert(node_bytes(m)[1] == b@[1]);
        }
        return Err(DecodeError::UnknownVariant);
    };
    let ghost vb = match value {
        Some(v) => seq![1u8] + entry_bytes(v),
        None => seq![0u8],
    };
    assert(b@.subrange(0, pos as int) =~= seq![1u8] + vb) by {
        match value {
            Some(v) => {
                assert(b@.subrange(2, pos as int) =~= b@.subrange(2, n as int).subrange(0, entry_bytes(v).len() as int));
            },
            None => {},
        }
    }
    assert forall|m: ShardedMapNode<ContentManifestEntry>| #[trigger] node_bytes(m) == b@ implies m->Sharded_value == value && b@ == seq![1u8] + vb + u64_bytes(m->Sharded_children@.len() as u64) + children_bytes(m->Sharded_children@) by {
        assert(node_bytes(m)[1] == b@[1]);
    }
    if n - pos < 8 {
        assert forall|m: ShardedMapNode<ContentManifestEntry>| #[trigger] node_bytes(m) == b@ implies false by {
            assert(b@.len() >= vb.len() + 9);
        }
        return Err(DecodeError::Truncated);
    }
    let count = read_u64(b, pos);
    assert(b@.subrange(0, pos + 8) =~= b@.subrange(0, pos as int) + b@.subrange(pos as int, pos + 8));
    pos = pos + 8;
    let ghost head = b@.subrange(0, pos as int);
    let mut children: Vec<ShardChild> = Vec::new();
    let mut t: u64 = 0;
    assert(head =~= head + children_bytes(children@));
    assert forall|m: ShardedMapNode<ContentManifestEntry>| #[trigger] node_bytes(m) == b@ implies children_read(m, value, children@, head.len() as int, pos as int, count) by {
        let cs = m->Sharded_children;
        assert(b@.subrange(pos - 8, pos as int) =~= u64_bytes(cs@.len() as u64));
        lemma_u64_bytes_injective(count, cs@.len() as u64);
        assert(cs@.len() == cs.len());
        assert(children@ =~= cs@.subrange(0, 0));
    }
    while t < count
        invariant
            n == b@.len(),
            b@[0] == 1,
            head.len() <= pos <= n,
            head == b@.subrange(0, head.len() as int),
            t <= count,
            children@.len() == t,
            b@.subrange(0, pos as int) == head + children_bytes(children@),
            forall|m: ShardedMapNode<ContentManifestEntry>| #[trigger] node_bytes(m) == b@ ==> m->Sharded_value == value && b@ == seq![1u8] + vb + u64_bytes(m->Sharded_children@.len() as u64) + children_bytes(m->Sharded_children@),
            forall|m: ShardedMapNode<ContentManifestEntry>| #[trigger] node_bytes(m) == b@ ==> children_read(m, value, children@, head.len() as int, pos as int, count),
        decreases count - t,
    {
        assert forall|m: ShardedMapNode<ContentManifestEntry>| #[trigger] node_bytes(m) == b@ implies ({
            let cs = m->Sharded_children@;
            &&& t < cs.len()
            &&& pos + 41 <= n
            &&& b@.subrange(pos as int, pos + 41) == child_bytes(cs[t as int])
        }) by {
            let cs = m->Sharded_children@;
            lemma_children_bytes_step(cs, t as int);
            lemma_children_bytes_len(cs.subrange(0, t as int));
            let pre = seq![1u8] + vb + u64_bytes(cs.len() as u64) + children_bytes(cs.subrange(0, t as int));
            assert(b@ =~= pre + child_bytes(cs[t as int]) + children_bytes(cs.subrange(t + 1, cs.len() as int)));
            assert(b@.subrange(pos as int, pos + 41) =~= child_bytes(cs[t as int]));
        }
        if n - pos < 41 {
            return Err(DecodeError::Truncated);
        }
        let byte = b[pos];
        let id = ShardedMapNodeId(read_hash(b, pos + 1));
        let weight = read_u64(b, pos + 33);
        let c = ShardChild { byte, id, weight };
        let ghost before = children@;
        children.push(c);
        proof {
            assert(children@.drop_last() =~= before);
            assert(b@.subrange(pos as int, pos + 41) =~= child_bytes(c));
            assert(b@.subrange(0, pos + 41) =~= b@.subrange(0, pos as int) + b@.subrange(pos as int, pos + 41));
            assert forall|m: ShardedMapNode<ContentManifestEntry>| #[trigger] node_bytes(m) == b@ implies children_read(m, value, children@, head.len() as int, pos + 41, count) by {
                let cs = m->Sharded_children@;
                let mc = cs[t as int];
                assert(child_bytes(mc) == child_bytes(c));
                assert(mc.id.0@ =~= child_bytes(mc).subrange(1, 33));
                assert(c.id.0@ =~= child_bytes(c).subrange(1, 33));
                assert(mc.id.0 == c.id.0);
                assert(u64_bytes(mc.weight) =~= child_bytes(mc).subrange(33, 41));
                assert(u64_bytes(c.weight) =~= child_bytes(c).subrange(33, 41));
                lemma_u64_bytes_injective(mc.weight, c.weight);
                assert(child_bytes(mc)[0] == child_bytes(c)[0]);
                assert(children@ =~= cs.subrange(0, t + 1));
            }
        }
        pos = pos + 41;
        t = t + 1;
    }
    assert forall|m: ShardedMapNode<ContentManifestEntry>| #[trigger] node_bytes(m) == b@ implies pos == n by {
        let cs = m->Sharded_children@;
        lemma_children_bytes_len(cs);
    }
    if pos != n {
        return Err(DecodeError::TrailingBytes);
    }
    assert(b@.subrange(0, pos as int) =~= b@);
    let node = ShardedMapNode::Sharded { value, children };
    assert(node_bytes(node) =~= b@);
    assert forall|m: ShardedMapNode<ContentManifestEntry>| #[trigger] node_bytes(m) == b@ implies same_node(node, m) by {
        let cs = m->Sharded_children@;
        assert(cs.subrange(0, cs.len() as int) =~= cs);
    }
    Ok(node)
}

/// Decodes a directory's map node from the whole of `b`. The canonical
/// encoding of a node decodes to that node; what decodes is a node whose
/// canonical encoding is exactly `b`.
pub fn decode_node(b: &[u8]) -> (r: Result<ShardedMapNode<ContentManifestEntry>, DecodeError>)
    ensures
        r matches Ok(n) ==> node_bytes(n) == b@,
        forall|m: ShardedMapNode<ContentManifestEntry>|
            #[trigger] node_bytes(m) == b@ ==> (r matches Ok(d) && same_node(d, m)),
        b@.len() == 0 ==> r == Err::<ShardedMapNode<ContentManifestEntry>, DecodeError>(
            DecodeError::Truncated,
        ),
        b@.len() > 0 && b@[0] > 1 ==> r == Err::<ShardedMapNode<ContentManifestEntry>, DecodeError>(
            DecodeError::UnknownVariant,
        ),
{
    let n = b.len();
    if n == 0 {
        assert forall|m: ShardedMapNode<ContentManifestEntry>| #[trigger] node_bytes(m) == b@ implies false by {
            assert(node_bytes(m).len() > 0);
        }
        return Err(DecodeError::Truncated);
    }
    if b[0] == 0 {
        decode_direct(b)
    } else if b[0] == 1 {
        decode_sharded(b)
    } else {
        assert forall|m: ShardedMapNode<ContentManifestEntry>| #[trigger] node_bytes(m) == b@ implies false by {
            assert(node_bytes(m)[0] == b@[0]);
        }
        Err(DecodeError::UnknownVariant)
    }
}

/// The encoding of the empty map node: its tag and a count of zero.
pub proof fn lemma_empty_node_bytes(n: ShardedMapNode<ContentManifestEntry>)
    requires
        n matches ShardedMapNode::Direct { entries } && entries@.len() == 0,
    ensures
        node_bytes(n) == seq![0u8, 0u8, 0u8, 0u8, 0u8, 0u8, 0u8, 0u8, 0u8],
{
    let z: u64 = 0;
    assert(((z >> 56u64) as u8) == 0 && ((z >> 48u64) as u8) == 0 && ((z >> 40u64) as u8) == 0
        && ((z >> 32u64) as u8) == 0 && ((z >> 24u64) as u8) == 0 && ((z >> 16u64) as u8) == 0
        && ((z >> 8u64) as u8) == 0 && (z as u8) == 0) by (bit_vector)
        requires
            z == 0,
    ;
    if let ShardedMapNode::Direct { entries } = n {
        assert(entries_view(entries@).len() == 0);
        assert(node_bytes(n) =~= seq![0u8, 0u8, 0u8, 0u8, 0u8, 0u8, 0u8, 0u8, 0u8]);
    }
}

/// The encodings of a run of entries split in two.
pub proof fn lemma_items_bytes_append(
    a: Seq<(Seq<u8>, ContentManifestEntry)>,
    c: Seq<(Seq<u8>, ContentManifestEntry)>,
)
    ensures
        items_bytes(a + c) == items_bytes(a) + items_bytes(c),
    decreases c.len(),
{
    if c.len() == 0 {
        assert(a + c =~= a);
        assert(items_bytes(a) + items_bytes(c) =~= items_bytes(a));
    } else {
        assert((a + c).drop_last() =~= a + c.drop_last());
        assert((a + c).last() == c.last());
        lemma_items_bytes_append(a, c.drop_last());
        assert(items_bytes(a) + items_bytes(c.drop_last()) + item_bytes(c.last().0, c.last().1)
            =~= items_bytes(a) + (items_bytes(c.drop_last()) + item_bytes(c.last().0, c.last().1)));
    }
}

/// The encodings of a run of children split in two.
pub proof fn lemma_children_bytes_append(a: Seq<ShardChild>, c: Seq<ShardChild>)
    ensures
        children_bytes(a + c) == children_bytes(a) + children_bytes(c),
    decreases c.len(),
{
    if c.len() == 0 {
        assert(a + c =~= a);
        assert(children_bytes(a) + children_bytes(c) =~= children_bytes(a));
    } else {
        assert((a + c).drop_last() =~= a + c.drop_last());
        assert((a + c).last() == c.last());
        lemma_children_bytes_append(a, c.drop_last());
        assert(children_bytes(a) + children_bytes(c.drop_last()) + child_bytes(c.last())
            =~= children_bytes(a) + (children_bytes(c.drop_last()) + child_bytes(c.last())));
    }
}

/// The encoding of the first `t + 1` entries, from that of the first `t`,
/// and the length of the encoding of all of them.
pub proof fn lemma_items_bytes_step(es: Seq<(Seq<u8>, ContentManifestEntry)>, t: int)
    requires
        0 <= t < es.len(),
    ensures
        items_bytes(es.subrange(0, t + 1)) == items_bytes(es.subrange(0, t)) + item_bytes(es[t].0, es[t].1),
        items_bytes(es) == items_bytes(es.subrange(0, t + 1)) + items_bytes(es.subrange(t + 1, es.len() as int)),
{
    assert(es.subrange(0, t + 1).drop_last() =~= es.subrange(0, t));
    assert(es =~= es.subrange(0, t + 1) + es.subrange(t + 1, es.len() as int));
    lemma_items_bytes_append(es.subrange(0, t + 1), es.subrange(t + 1, es.len() as int));
}

/// The encoding of the first `t + 1` children, from that of the first `t`,
/// and the length of the encoding of all of them.
pub proof fn lemma_children_bytes_step(cs: Seq<ShardChild>, t: int)
    requires
        0 <= t < cs.len(),
    ensures
        children_bytes(cs.subrange(0, t + 1)) == children_bytes(cs.subrange(0, t)) + child_bytes(cs[t]),
        children_bytes(cs) == children_bytes(cs.subrange(0, t + 1)) + children_bytes(cs.subrange(t + 1, cs.len() as int)),
{
    assert(cs.subrange(0, t + 1).drop_last() =~= cs.subrange(0, t));
    assert(cs =~= cs.subrange(0, t + 1) + cs.subrange(t + 1, cs.len() as int));
    lemma_children_bytes_append(cs.subrange(0, t + 1), cs.subrange(t + 1, cs.len() as int));
}

/// Every child reference takes 41 bytes.
pub proof fn lemma_children_bytes_len(cs: Seq<ShardChild>)
    ensures
        children_bytes(cs).len() == 41 * cs.len(),
    decreases cs.len(),
{
    if cs.len() > 0 {
        lemma_children_bytes_len(cs.drop_last());
    }
}

} // verus!
