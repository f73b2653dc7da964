use vstd::prelude::*;

use crate::codec::{decode_node, encode_node, node_bytes, same_node, DecodeError};
use crate::entry::ContentManifestEntry;
use crate::sharded_map::{
    filter_prefix, entries_view, LookupStep, PrefixStep, ShardedMapNode,
};

verus! {

/// The longest path component, in bytes.
pub const MAX_ELEMENT_LEN: usize = 255;

/// Whether `s` is a valid path component: not empty, at most
/// `MAX_ELEMENT_LEN` bytes, and free of `/` and of the zero byte.
pub open spec fn valid_element(s: Seq<u8>) -> bool {
    &&& 0 < s.len() <= MAX_ELEMENT_LEN
    &&& forall|i: int| 0 <= i < s.len() ==> #[trigger] s[i] != 0x2fu8 && s[i] != 0u8
}

/// Why bytes are not a path component.
#[derive(Clone, Copy, Debug, PartialEq, Eq)]
pub enum PathElementError {
    /// No bytes at all.
    Empty,
    /// More than `MAX_ELEMENT_LEN` bytes.
    TooLong,
    /// A `/` or a zero byte.
    InvalidByte,
}

/// One component of a path: the name of a child of a directory.
#[derive(Clone, Debug, PartialEq, Eq, Hash)]
pub struct MPathElement {
    bytes: Vec<u8>,
}

impl View for MPathElement {
    type V = Seq<u8>;

    closed spec fn view(&self) -> Seq<u8> {
        self.bytes@
    }
}

impl MPathElement {
    /// Well-formedness: the bytes are a valid path component.
    pub open spec fn wf(&self) -> bool {
        valid_element(self@)
    }

    /// The path component made of `bytes`, if they are one.
    pub fn new(bytes: Vec<u8>) -> (r: Result<MPathElement, PathElementError>)
        ensures
            r matches Ok(p) ==> p@ == bytes@ && p.wf(),
            r is Ok <==> valid_element(bytes@),
            r == Err::<MPathElement, PathElementError>(PathElementError::Empty) <==> bytes@.len()
                == 0,
            r == Err::<MPathElement, PathElementError>(PathElementError::TooLong) <==> bytes@.len()
                > MAX_ELEMENT_LEN,
    {
        if bytes.len() == 0 {
            return Err(PathElementError::Empty);
        }
        if bytes.len() > MAX_ELEMENT_LEN {
            return Err(PathElementError::TooLong);
        }
        let mut i: usize = 0;
        while i < bytes.len()
            invariant
                i <= bytes@.len(),
                0 < bytes@.len() <= MAX_ELEMENT_LEN,
                forall|j: int| 0 <= j < i ==> #[trigger] bytes@[j] != 0x2fu8 && bytes@[j] != 0u8,
            decreases bytes@.len() - i,
        {
            if bytes[i] == 0x2fu8 || bytes[i] == 0u8 {
                return Err(PathElementError::InvalidByte);
            }
            i = i + 1;
        }
        Ok(MPathElement { bytes })
    }

    /// The raw bytes of the component.
    pub fn as_bytes(&self) -> (r: &[u8])
        ensures
            r@ == self@,
    {
        self.bytes.as_slice()
    }
}

/// The contents of one directory: a map from child names to entries, held
/// in its root map node.
#[derive(Clone, Debug, PartialEq, Eq)]
pub struct ContentManifest {
    pub subentries: ShardedMapNode<ContentManifestEntry>,
}

impl ContentManifest {
    /// The manifest of an empty directory: its root is the empty map node.
    pub fn empty() -> (r: Self)
        ensures
            r.subentries.wf(),
            r.subentries matches ShardedMapNode::Direct { entries } && entries@.len() == 0,
            forall|k: Seq<u8>| r.subentries.step_spec(k) == LookupStep::<ContentManifestEntry>::Absent,
            node_bytes(r.subentries) == seq![0u8, 0u8, 0u8, 0u8, 0u8, 0u8, 0u8, 0u8, 0u8],
    {
        let r = ContentManifest { subentries: ShardedMapNode::empty() };
        proof {
            crate::codec::lemma_empty_node_bytes(r.subentries);
        }
        r
    }

    /// What the root says about the child `name`: the entry, its absence,
    /// or the shard to look in next under the name less its first byte.
    pub fn lookup(&self, name: &MPathElement) -> (r: LookupStep<ContentManifestEntry>)
        requires
            self.subentries.wf(),
        ensures
            r == self.subentries.step_spec(name@),
    {
        self.subentries.lookup_step(name.as_bytes())
    }

    /// The first step of enumerating all children: the root's entries, or
    /// its value under the empty key and all of its shards.
    pub fn into_subentries(self) -> (r: PrefixStep<ContentManifestEntry>)
        requires
            self.subentries.wf(),
        ensures
            match self.subentries {
                ShardedMapNode::Direct { entries } => r matches PrefixStep::Entries(found)
                    && entries_view(found@) == entries_view(entries@),
                ShardedMapNode::Sharded { value, children } => r matches PrefixStep::Shards {
                    value: v,
                    children: cs,
                } && v == value && cs@ == children@,
            },
    {
        let ghost root = self.subentries;
        let none: Vec<u8> = Vec::new();
        let r = self.subentries.into_prefix_step(none.as_slice());
        proof {
            assert(none@ =~= Seq::<u8>::empty());
            if let ShardedMapNode::Direct { entries } = root {
                crate::sharded_map::lemma_filter_empty_prefix(entries_view(entries@));
            }
        }
        r
    }

    /// The first step of enumerating the children whose names begin with
    /// `prefix`: the matching entries of the root, or the shards that can
    /// hold such names.
    pub fn into_prefix_subentries(self, prefix: &[u8]) -> (r: PrefixStep<ContentManifestEntry>)
        requires
            self.subentries.wf(),
        ensures
            match self.subentries {
                ShardedMapNode::Direct { entries } => r matches PrefixStep::Entries(found)
                    && entries_view(found@) == filter_prefix(entries_view(entries@), prefix@),
                ShardedMapNode::Sharded { value, children } => r matches PrefixStep::Shards {
                    value: v,
                    children: cs,
                } && if prefix@.len() == 0 {
                    v == value && cs@ == children@
                } else {
                    v is None && cs@ == match crate::sharded_map::child_for(children@, prefix@[0]) {
                        Some(c) => seq![c],
                        None => Seq::<crate::sharded_map::ShardChild>::empty(),
                    }
                },
            },
    {
        self.subentries.into_prefix_step(prefix)
    }

    /// The canonical encoding of the manifest: that of its root node.
    pub fn into_bytes(&self) -> (r: Vec<u8>)
        ensures
            r@ == node_bytes(self.subentries),
    {
        encode_node(&self.subentries)
    }

    /// The manifest whose canonical encoding is `b`: the encoding of a
    /// manifest decodes to that manifest, and nothing else decodes.
    pub fn from_bytes(b: &[u8]) -> (r: Result<ContentManifest, DecodeError>)
        ensures
            r matches Ok(m) ==> node_bytes(m.subentries) == b@,
            forall|m: ContentManifest|
                #[trigger] node_bytes(m.subentries) == b@ ==> (r matches Ok(d) && same_node(
                    d.subentries,
                    m.subentries,
                )),
            b@.len() == 0 ==> r == Err::<ContentManifest, DecodeError>(DecodeError::Truncated),
            b@.len() > 0 && b@[0] > 1 ==> r == Err::<ContentManifest, DecodeError>(
                DecodeError::UnknownVariant,
            ),
    {
        match decode_node(b) {
            Ok(n) => Ok(ContentManifest { subentries: n }),
            Err(e) => Err(e),
        }
    }
}

/// The children of a direct node under their names, or the first key that
/// is not a valid path component.
pub fn name_entries(found: Vec<(Vec<u8>, ContentManifestEntry)>) -> (r: Result<
    Vec<(MPathElement, ContentManifestEntry)>,
    PathElementError,
>)
    ensures
        r is Ok <==> forall|i: int| 0 <= i < found@.len() ==> valid_element(#[trigger] found@[i].0@),
        r matches Ok(named) ==> named@.len() == found@.len() && forall|i: int|
            0 <= i < found@.len() ==> (#[trigger] named@[i]).0@ == found@[i].0@ && named@[i].1
                == found@[i].1,
{
    let ghost orig = found@;
    let mut named: Vec<(MPathElement, ContentManifestEntry)> = Vec::new();
    let mut i: usize = 0;
    while i < found.len()
        invariant
            found@ == orig,
            i <= orig.len(),
            named@.len() == i,
            forall|j: int| 0 <= j < i ==> valid_element(#[trigger] orig[j].0@),
            forall|j: int|
                0 <= j < i ==> (#[trigger] named@[j]).0@ == orig[j].0@ && named@[j].1 == orig[j].1,
        decreases orig.len() - i,
    {
        let k = crate::sharded_map::copy_bytes(found[i].0.as_slice());
        match MPathElement::new(k) {
            Ok(p) => {
                named.push((p, found[i].1));
            },
            Err(e) => {
                assert(!valid_element(found@[i as int].0@));
                return Err(e);
            },
        }
        i = i + 1;
    }
    Ok(named)
}

} // verus!
