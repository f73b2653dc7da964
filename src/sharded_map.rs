use vstd::prelude::*;

use crate::entry::ShardedMapNodeId;

verus! {

/// The most entries that a node holds directly. A node with more is split
/// into child shards.
pub const WEIGHT_LIMIT: usize = 2000;

/// Strict byte-lexicographic order on keys.
pub open spec fn key_lt(a: Seq<u8>, b: Seq<u8>) -> bool
    decreases a.len(),
{
    if b.len() == 0 {
        false
    } else if a.len() == 0 {
        true
    } else if a[0] != b[0] {
        a[0] < b[0]
    } else {
        key_lt(a.drop_first(), b.drop_first())
    }
}

/// Whether `k` begins with `p`.
pub open spec fn starts_with(k: Seq<u8>, p: Seq<u8>) -> bool {
    p.len() <= k.len() && k.subrange(0, p.len() as int) == p
}

/// The plain view of a sequence of keyed values.
pub open spec fn entries_view<V>(es: Seq<(Vec<u8>, V)>) -> Seq<(Seq<u8>, V)> {
    es.map_values(|e: (Vec<u8>, V)| (e.0@, e.1))
}

/// Keys strictly ascending, hence pairwise distinct.
pub open spec fn sorted_keys<V>(es: Seq<(Seq<u8>, V)>) -> bool {
    forall|i: int, j: int| 0 <= i < j < es.len() ==> key_lt(#[trigger] es[i].0, #[trigger] es[j].0)
}

/// The value stored under `key` in a sequence of keyed values (the last
/// one, where a key occurs more than once).
pub open spec fn find<V>(es: Seq<(Seq<u8>, V)>, key: Seq<u8>) -> Option<V>
    decreases es.len(),
{
    if es.len() == 0 {
        None
    } else if es.last().0 == key {
        Some(es.last().1)
    } else {
        find(es.drop_last(), key)
    }
}

/// The entries of `es` whose key begins with `p`, in order.
pub open spec fn filter_prefix<V>(es: Seq<(Seq<u8>, V)>, p: Seq<u8>) -> Seq<(Seq<u8>, V)>
    decreases es.len(),
{
    if es.len() == 0 {
        Seq::empty()
    } else if starts_with(es.last().0, p) {
        filter_prefix(es.drop_last(), p).push(es.last())
    } else {
        filter_prefix(es.drop_last(), p)
    }
}

/// Keyed values with the byte `b` put in front of each key.
pub open spec fn prefixed<V>(b: u8, es: Seq<(Seq<u8>, V)>) -> Seq<(Seq<u8>, V)> {
    es.map_values(|e: (Seq<u8>, V)| (seq![b] + e.0, e.1))
}

/// The concatenation of groups of keyed values, each under its leading byte.
pub open spec fn flatten_groups<V>(gs: Seq<(u8, Seq<(Seq<u8>, V)>)>) -> Seq<(Seq<u8>, V)>
    decreases gs.len(),
{
    if gs.len() == 0 {
        Seq::empty()
    } else {
        flatten_groups(gs.drop_last()) + prefixed(gs.last().0, gs.last().1)
    }
}

/// A reference from a sharded node to one child shard.
#[derive(Clone, Copy, Debug, PartialEq, Eq, Hash)]
pub struct ShardChild {
    /// The key byte that every key of the shard starts with.
    pub byte: u8,
    /// The content identifier of the child node.
    pub id: ShardedMapNodeId,
    /// The rollup of the shard: how many entries its subtree holds.
    pub weight: u64,
}

/// One node of a sharded map from byte strings to `V`.
#[derive(Clone, Debug, PartialEq, Eq)]
pub enum ShardedMapNode<V> {
    /// Entries held in the node itself, keys strictly ascending.
    Direct { entries: Vec<(Vec<u8>, V)> },
    /// The value under the empty key, if any, and the child shards in
    /// ascending order of their byte. A child's keys are those of this node
    /// that start with its byte, with that byte removed.
    Sharded { value: Option<V>, children: Vec<ShardChild> },
}

/// Child bytes strictly ascending.
pub open spec fn children_sorted(cs: Seq<ShardChild>) -> bool {
    forall|i: int, j: int| 0 <= i < j < cs.len() ==> (#[trigger] cs[i]).byte < (#[trigger] cs[j]).byte
}

/// The child shard of `cs` for byte `b`.
pub open spec fn child_for(cs: Seq<ShardChild>, b: u8) -> Option<ShardChild> {
    if exists|i: int| 0 <= i < cs.len() && (#[trigger] cs[i]).byte == b {
        Some(cs[choose|i: int| 0 <= i < cs.len() && (#[trigger] cs[i]).byte == b])
    } else {
        None
    }
}

/// What one node says about a key.
#[derive(Clone, Copy, Debug, PartialEq, Eq)]
pub enum LookupStep<V> {
    /// The key is in this node, with this value.
    Found(V),
    /// The key is in no node below this one.
    Absent,
    /// The key is found, if at all, in this child under the key without its
    /// first byte.
    Descend(ShardedMapNodeId),
}

/// What one node yields for a prefix scan.
#[derive(Clone, Debug, PartialEq, Eq)]
pub enum PrefixStep<V> {
    /// The matching entries of a direct node, in key order.
    Entries(Vec<(Vec<u8>, V)>),
    /// A sharded node: the value under the empty key, when the prefix is
    /// empty, and the child shards that can hold matching keys, in order.
    /// Each child is scanned with the prefix less its first byte.
    Shards { value: Option<V>, children: Vec<ShardChild> },
}

/// How a node is made from a sorted run of entries.
#[derive(Clone, Debug, PartialEq, Eq)]
pub enum BuildStep<V> {
    /// Few enough entries: a direct node holding them.
    Node(ShardedMapNode<V>),
    /// Too many entries: the value under the empty key, and the other entries
    /// grouped by first byte (removed from the keys), in ascending byte order.
    /// Each group is built into a child shard in the same way.
    Split { value: Option<V>, groups: Vec<(u8, Vec<(Vec<u8>, V)>)> },
}

/// The plain view of groups of entries.
pub open spec fn groups_view<V>(gs: Seq<(u8, Vec<(Vec<u8>, V)>)>) -> Seq<(u8, Seq<(Seq<u8>, V)>)> {
    gs.map_values(|g: (u8, Vec<(Vec<u8>, V)>)| (g.0, entries_view(g.1@)))
}

/// `value` and `gs` are the split of the sorted entries `es`: the value under
/// the empty key, and the other entries grouped by first byte, groups
/// non-empty, sorted, and in strictly ascending byte order.
pub open spec fn is_split_of<V>(
    es: Seq<(Seq<u8>, V)>,
    value: Option<V>,
    gs: Seq<(u8, Seq<(Seq<u8>, V)>)>,
) -> bool {
    &&& if es.len() > 0 && es[0].0.len() == 0 {
        value == Some(es[0].1) && flatten_groups(gs) == es.drop_first()
    } else {
        value is None && flatten_groups(gs) == es
    }
    &&& forall|j: int| 0 <= j < gs.len() ==> (#[trigger] gs[j]).1.len() > 0
    &&& forall|j: int| 0 <= j < gs.len() ==> sorted_keys((#[trigger] gs[j]).1)
    &&& forall|i: int, j: int| 0 <= i < j < gs.len() ==> (#[trigger] gs[i]).0 < (#[trigger] gs[j]).0
}

impl<V> ShardedMapNode<V> {
    /// Well-formedness: a direct node is sorted and within the weight limit,
    /// a sharded node has its children in strictly ascending byte order.
    pub open spec fn wf(&self) -> bool {
        match self {
            ShardedMapNode::Direct { entries } => sorted_keys(entries_view(entries@))
                && entries@.len() <= WEIGHT_LIMIT,
            ShardedMapNode::Sharded { value, children } => children_sorted(children@),
        }
    }

    /// What this node alone says about `key`.
    pub open spec fn step_spec(&self, key: Seq<u8>) -> LookupStep<V> {
        match self {
            ShardedMapNode::Direct { entries } => match find(entries_view(entries@), key) {
                Some(v) => LookupStep::Found(v),
                None => LookupStep::Absent,
            },
            ShardedMapNode::Sharded { value, children } => if key.len() == 0 {
                match value {
                    Some(v) => LookupStep::Found(*v),
                    None => LookupStep::Absent,
                }
            } else {
                match child_for(children@, key[0]) {
                    Some(c) => LookupStep::Descend(c.id),
                    None => LookupStep::Absent,
                }
            },
        }
    }
}

/// The value under `key` in the map rooted at `n`, where `store` holds the
/// nodes that child identifiers refer to.
pub open spec fn map_lookup<V>(
    store: Map<ShardedMapNodeId, ShardedMapNode<V>>,
    n: ShardedMapNode<V>,
    key: Seq<u8>,
) -> Option<V>
    decreases key.len(),
{
    match n.step_spec(key) {
        LookupStep::Found(v) => Some(v),
        LookupStep::Absent => None,
        LookupStep::Descend(id) => if key.len() > 0 && store.contains_key(id) {
            map_lookup(store, store[id], key.drop_first())
        } else {
            None
        },
    }
}

/// Whether two byte strings are equal.
pub(crate) fn bytes_eq(a: &[u8], b: &[u8]) -> (r: bool)
    ensures
        r == (a@ == b@),
{
    if a.len() != b.len() {
        return false;
    }
    let mut i: usize = 0;
    while i < a.len()
        invariant
            a@.len() == b@.len(),
            i <= a@.len(),
            a@.subrange(0, i as int) == b@.subrange(0, i as int),
        decreases a@.len() - i,
    {
        if a[i] != b[i] {
            assert(a@[i as int] != b@[i as int]);
            return false;
        }
        assert(a@.subrange(0, i + 1) == a@.subrange(0, i as int).push(a@[i as int]));
        assert(b@.subrange(0, i + 1) == b@.subrange(0, i as int).push(b@[i as int]));
        i = i + 1;
    }
    assert(a@ == a@.subrange(0, i as int));
    assert(b@ == b@.subrange(0, i as int));
    true
}

/// Whether the byte string `k` begins with `p`.
fn has_prefix(k: &[u8], p: &[u8]) -> (r: bool)
    ensures
        r == starts_with(k@, p@),
{
    if p.len() > k.len() {
        return false;
    }
    let mut i: usize = 0;
    while i < p.len()
        invariant
            p@.len() <= k@.len(),
            i <= p@.len(),
            k@.subrange(0, i as int) == p@.subrange(0, i as int),
        decreases p@.len() - i,
    {
        if k[i] != p[i] {
            assert(k@.subrange(0, p@.len() as int)[i as int] != p@[i as int]);
            return false;
        }
        assert(k@.subrange(0, i + 1) == k@.subrange(0, i as int).push(k@[i as int]));
        assert(p@.subrange(0, i + 1) == p@.subrange(0, i as int).push(p@[i as int]));
        i = i + 1;
    }
    assert(p@ == p@.subrange(0, i as int));
    true
}

/// The bytes of `k` from position `start` on, as a new vector.
fn bytes_from(k: &[u8], start: usize) -> (r: Vec<u8>)
    requires
        start <= k@.len(),
    ensures
        r@ == k@.subrange(start as int, k@.len() as int),
{
    let mut r: Vec<u8> = Vec::new();
    let mut i: usize = start;
    while i < k.len()
        invariant
            start <= i <= k@.len(),
            r@ == k@.subrange(start as int, i as int),
        decreases k@.len() - i,
    {
        r.push(k[i]);
        assert(k@.subrange(start as int, i + 1) == k@.subrange(start as int, i as int).push(k@[i as int]));
        i = i + 1;
    }
    r
}

/// A copy of the byte string `k`.
pub(crate) fn copy_bytes(k: &[u8]) -> (r: Vec<u8>)
    ensures
        r@ == k@,
{
    let r = bytes_from(k, 0);
    assert(k@.subrange(0, k@.len() as int) =~= k@);
    r
}

impl<V: Copy> ShardedMapNode<V> {
    /// The node of the empty map: a direct node with no entries.
    pub fn empty() -> (r: Self)
        ensures
            r.wf(),
            r matches ShardedMapNode::Direct { entries } && entries@.len() == 0,
            forall|k: Seq<u8>| r.step_spec(k) == LookupStep::<V>::Absent,
    {
        let r = ShardedMapNode::Direct { entries: Vec::new() };
        assert(entries_view(Seq::<(Vec<u8>, V)>::empty()) =~= Seq::empty());
        r
    }

    /// A sharded node from the value under the empty key and the child
    /// shards, which come in strictly ascending byte order.
    pub fn sharded(value: Option<V>, children: Vec<ShardChild>) -> (r: Self)
        requires
            children_sorted(children@),
        ensures
            r == (ShardedMapNode::Sharded { value, children }),
            r.wf(),
    {
        ShardedMapNode::Sharded { value, children }
    }

    /// What a scan for keys that begin with `prefix` yields at this node: the
    /// matching entries of a direct node; for a sharded node, the value under
    /// the empty key (only for an empty prefix) and just the child shards
    /// whose keys can begin with `prefix`.
    pub fn into_prefix_step(self, prefix: &[u8]) -> (r: PrefixStep<V>)
        requires
            self.wf(),
        ensures
            match self {
                ShardedMapNode::Direct { entries } => r matches PrefixStep::Entries(found)
                    && entries_view(found@) == filter_prefix(entries_view(entries@), prefix@),
                ShardedMapNode::Sharded { value, children } => r matches PrefixStep::Shards {
                    value: v,
                    children: cs,
                } && if prefix@.len() == 0 {
                    v == value && cs@ == children@
                } else {
                    v is None && cs@ == match child_for(children@, prefix@[0]) {
                        Some(c) => seq![c],
                        None => Seq::<ShardChild>::empty(),
                    }
                },
            },
    {
        match self {
            ShardedMapNode::Direct { entries } => {
                let ghost ev = entries_view(entries@);
                let mut found: Vec<(Vec<u8>, V)> = Vec::new();
                let mut i: usize = 0;
                while i < entries.len()
                    invariant
                        i <= entries@.len(),
                        ev == entries_view(entries@),
                        entries_view(found@) == filter_prefix(ev.subrange(0, i as int), prefix@),
                    decreases entries@.len() - i,
                {
                    let ghost before = found@;
                    assert(ev.subrange(0, i + 1).drop_last() == ev.subrange(0, i as int));
                    if has_prefix(entries[i].0.as_slice(), prefix) {
                        let k = bytes_from(entries[i].0.as_slice(), 0);
                        assert(k@ == entries@[i as int].0@.subrange(0, k@.len() as int));
                        assert(k@ =~= entries@[i as int].0@);
                        found.push((k, entries[i].1));
                        assert(entries_view(found@) =~= entries_view(before).push(ev[i as int]));
                    }
                    i = i + 1;
                }
                assert(ev.subrange(0, i as int) =~= ev);
                PrefixStep::Entries(found)
            },
            ShardedMapNode::Sharded { value, children } => {
                if prefix.len() == 0 {
                    PrefixStep::Shards { value, children }
                } else {
                    let b = prefix[0];
                    let mut i: usize = 0;
                    while i < children.len()
                        invariant
                            i <= children@.len(),
                            forall|j: int| 0 <= j < i ==> (#[trigger] children@[j]).byte != b,
                            children_sorted(children@),
                            self == (ShardedMapNode::Sharded { value, children }),
                            prefix@.len() > 0,
                            b == prefix@[0],
                        decreases children@.len() - i,
                    {
                        if children[i].byte == b {
                            let c = children[i];
                            proof {
                                assert(children@[i as int].byte == b);
                                let w = choose|j: int| 0 <= j < children@.len() && (#[trigger] children@[j]).byte == b;
                                if w < i {
                                    assert(children@[w].byte != b);
                                } else if w > i {
                                    assert(children@[i as int].byte < children@[w].byte);
                                }
                                assert(child_for(children@, b) == Some(c));
                            }
                            let mut cs: Vec<ShardChild> = Vec::new();
                            cs.push(c);
                            assert(cs@ =~= seq![c]);
                            return PrefixStep::Shards { value: None, children: cs };
                        }
                        i = i + 1;
                    }
                    assert(child_for(children@, b) is None);
                    PrefixStep::Shards { value: None, children: Vec::new() }
                }
            },
        }
    }

    /// What this node says about `key`: its value here, its absence, or the
    /// child shard to look in next under `key` less its first byte.
    pub fn lookup_step(&self, key: &[u8]) -> (r: LookupStep<V>)
        requires
            self.wf(),
        ensures
            r == self.step_spec(key@),
    {
        match self {
            ShardedMapNode::Direct { entries } => {
                let mut i: usize = 0;
                while i < entries.len()
                    invariant
                        i <= entries@.len(),
                        sorted_keys(entries_view(entries@)),
                        *self == (ShardedMapNode::Direct { entries: *entries }),
                        forall|j: int| 0 <= j < i ==> (#[trigger] entries@[j]).0@ != key@,
                    decreases entries@.len() - i,
                {
                    if bytes_eq(entries[i].0.as_slice(), key) {
                        proof {
                            lemma_find_at(entries_view(entries@), key@, i as int);
                        }
                        return LookupStep::Found(entries[i].1);
                    }
                    i = i + 1;
                }
                proof {
                    let ev = entries_view(entries@);
                    assert forall|j: int| 0 <= j < ev.len() implies #[trigger] ev[j].0 != key@ by {
                        assert(entries@[j].0@ != key@);
                    }
                    lemma_find_none(ev, key@);
                }
                LookupStep::Absent
            },
            ShardedMapNode::Sharded { value, children } => {
                if key.len() == 0 {
                    match value {
                        Some(v) => LookupStep::Found(*v),
                        None => LookupStep::Absent,
                    }
                } else {
                    let b = key[0];
                    let mut i: usize = 0;
                    while i < children.len()
                        invariant
                            i <= children@.len(),
                            key@.len() > 0,
                            children_sorted(children@),
                            *self == (ShardedMapNode::Sharded { value: *value, children: *children }),
                            b == key@[0],
                            forall|j: int| 0 <= j < i ==> (#[trigger] children@[j]).byte != b,
                        decreases children@.len() - i,
                    {
                        if children[i].byte == b {
                            proof {
                                assert(children@[i as int].byte == b);
                                let w = choose|j: int| 0 <= j < children@.len() && (#[trigger] children@[j]).byte == b;
                                if w != i as int {
                                    if w < i {
                                        assert(children@[w].byte != b);
                                    } else {
                                        assert(children@[i as int].byte < children@[w].byte);
                                    }
                                }
                                assert(w == i);
                                assert(child_for(children@, b) == Some(children@[i as int]));
                            }
                            return LookupStep::Descend(children[i].id);
                        }
                        i = i + 1;
                    }
                    LookupStep::Absent
                }
            },
        }
    }
}

/// Putting the same byte in front of two keys keeps their order.
pub proof fn lemma_key_lt_cons(b: u8, x: Seq<u8>, y: Seq<u8>)
    ensures
        key_lt(seq![b] + x, seq![b] + y) == key_lt(x, y),
{
    assert((seq![b] + x).drop_first() =~= x);
    assert((seq![b] + y).drop_first() =~= y);
}

/// A key below another: the other is not empty, and if the first is not
/// empty either, its first byte is not above the other's.
pub proof fn lemma_key_lt_first(a: Seq<u8>, c: Seq<u8>)
    requires
        key_lt(a, c),
    ensures
        c.len() > 0,
        a.len() > 0 ==> a[0] <= c[0],
{
}

/// A key with its first byte put back in front.
proof fn lemma_cons_drop_first(k: Seq<u8>)
    requires
        k.len() > 0,
    ensures
        seq![k[0]] + k.drop_first() == k,
{
    assert(seq![k[0]] + k.drop_first() =~= k);
}

/// One step of building a map node from sorted entries: a direct node when
/// there are at most `WEIGHT_LIMIT` of them, else their split into the value
/// under the empty key and the groups for the child shards.
pub fn build_step<V: Copy>(entries: Vec<(Vec<u8>, V)>) -> (r: BuildStep<V>)
    requires
        sorted_keys(entries_view(entries@)),
    ensures
        entries@.len() <= WEIGHT_LIMIT ==> r == BuildStep::Node(
            ShardedMapNode::Direct { entries },
        ),
        entries@.len() <= WEIGHT_LIMIT ==> r->Node_0.wf(),
        entries@.len() > WEIGHT_LIMIT ==> (r matches BuildStep::Split { value, groups }
            && is_split_of(entries_view(entries@), value, groups_view(groups@))),
{
    let n = entries.len();
    if n <= WEIGHT_LIMIT {
        return BuildStep::Node(ShardedMapNode::Direct { entries });
    }
    let ghost es = entries_view(entries@);
    let mut start: usize = 0;
    let mut value: Option<V> = None;
    if entries[0].0.len() == 0 {
        value = Some(entries[0].1);
        start = 1;
    }
    let mut groups: Vec<(u8, Vec<(Vec<u8>, V)>)> = Vec::new();
    let mut cur: Vec<(Vec<u8>, V)> = Vec::new();
    let mut cur_b: u8 = 0;
    let mut gstart: usize = start;
    let mut i: usize = start;
    while i < n
        invariant
            n == entries@.len(),
            es == entries_view(entries@),
            sorted_keys(es),
            start <= 1,
            start <= gstart <= i <= n,
            start == 1 <==> es[0].0.len() == 0,
            gstart == i ==> i == start && groups@.len() == 0,
            cur@.len() == i - gstart,
            flatten_groups(groups_view(groups@)) + prefixed(cur_b, entries_view(cur@)) == es.subrange(
                start as int,
                i as int,
            ),
            sorted_keys(entries_view(cur@)),
            forall|j: int| 0 <= j < groups@.len() ==> (#[trigger] groups_view(groups@)[j]).1.len() > 0,
            forall|j: int| 0 <= j < groups@.len() ==> sorted_keys((#[trigger] groups_view(groups@)[j]).1),
            forall|a: int, c: int|
                0 <= a < c < groups@.len() ==> (#[trigger] groups_view(groups@)[a]).0 < (#[trigger] groups_view(groups@)[c]).0,
            forall|j: int| 0 <= j < groups@.len() ==> (#[trigger] groups_view(groups@)[j]).0 < cur_b,
        decreases n - i,
    {
        proof {
            if i > 0 {
                assert(key_lt(es[0].0, es[i as int].0));
                lemma_key_lt_first(es[0].0, es[i as int].0);
            }
        }
        let b = entries[i].0[0];
        if i > gstart && b != cur_b {
            proof {
                let last = es.subrange(start as int, i as int).last();
                assert(prefixed(cur_b, entries_view(cur@)).last() == last);
                assert(last == es[i - 1]);
                assert(es[i - 1].0 =~= seq![cur_b] + entries_view(cur@).last().0);
                assert(key_lt(es[i - 1].0, es[i as int].0));
                lemma_key_lt_first(es[i - 1].0, es[i as int].0);
            }
            let ghost gs0 = groups@;
            let ghost g = (cur_b, cur);
            groups.push((cur_b, cur));
            assert(groups_view(groups@).drop_last() =~= groups_view(gs0));
            assert(groups_view(groups@).last() == (cur_b, entries_view(g.1@)));
            assert forall|j: int| 0 <= j < groups@.len() implies (#[trigger] groups_view(groups@)[j]).1.len() > 0
                && sorted_keys(groups_view(groups@)[j].1) by {
                if j < gs0.len() {
                    assert(groups_view(groups@)[j] == groups_view(gs0)[j]);
                }
            }
            assert forall|a: int, c: int|
                0 <= a < c < groups@.len() implies (#[trigger] groups_view(groups@)[a]).0 < (#[trigger] groups_view(groups@)[c]).0 by {
                assert(groups_view(groups@)[a] == groups_view(gs0)[a]);
                if c < gs0.len() {
                    assert(groups_view(groups@)[c] == groups_view(gs0)[c]);
                }
            }
            cur = Vec::new();
            gstart = i;
            assert(prefixed(cur_b, entries_view(cur@)) =~= Seq::empty());
            assert(flatten_groups(groups_view(groups@)) =~= es.subrange(start as int, i as int));
            assert forall|j: int| 0 <= j < groups@.len() implies (#[trigger] groups_view(groups@)[j]).0 < b by {
                if j < gs0.len() {
                    assert(groups_view(groups@)[j] == groups_view(gs0)[j]);
                }
            }
        }
        if i == gstart {
            cur_b = b;
        }
        let ghost cur0 = cur@;
        let tail = bytes_from(entries[i].0.as_slice(), 1);
        proof {
            lemma_cons_drop_first(es[i as int].0);
            assert(tail@ =~= es[i as int].0.drop_first());
            assert forall|t: int| 0 <= t < cur0.len() implies key_lt(
                #[trigger] entries_view(cur0)[t].0,
                tail@,
            ) by {
                let pc = prefixed(cur_b, entries_view(cur0));
                let sub = es.subrange(start as int, i as int);
                let fl = flatten_groups(groups_view(groups@));
                assert(sub.len() == fl.len() + pc.len());
                assert(sub[fl.len() + t] == pc[t]);
                assert(es[gstart + t] == pc[t]);
                assert(key_lt(es[gstart + t].0, es[i as int].0));
                lemma_key_lt_cons(cur_b, entries_view(cur0)[t].0, tail@);
            }
        }
        cur.push((tail, entries[i].1));
        proof {
            assert(entries_view(cur@) =~= entries_view(cur0).push((tail@, es[i as int].1)));
            assert(prefixed(cur_b, entries_view(cur@)) =~= prefixed(cur_b, entries_view(cur0)).push(
                es[i as int],
            ));
            assert(es.subrange(start as int, i + 1) =~= es.subrange(start as int, i as int).push(
                es[i as int],
            ));
        }
        i = i + 1;
    }
    if n > start {
        let ghost gs0 = groups@;
        let ghost g = (cur_b, cur);
        groups.push((cur_b, cur));
        assert(groups_view(groups@).drop_last() =~= groups_view(gs0));
        assert(groups_view(groups@).last() == (cur_b, entries_view(g.1@)));
        assert forall|j: int| 0 <= j < groups@.len() implies (#[trigger] groups_view(groups@)[j]).1.len() > 0
            && sorted_keys(groups_view(groups@)[j].1) by {
            if j < gs0.len() {
                assert(groups_view(groups@)[j] == groups_view(gs0)[j]);
            }
        }
        assert forall|a: int, c: int|
            0 <= a < c < groups@.len() implies (#[trigger] groups_view(groups@)[a]).0 < (#[trigger] groups_view(groups@)[c]).0 by {
            if c < gs0.len() {
                assert(groups_view(groups@)[a] == groups_view(gs0)[a]);
                assert(groups_view(groups@)[c] == groups_view(gs0)[c]);
            } else {
                assert(groups_view(groups@)[a] == groups_view(gs0)[a]);
            }
        }
    }
    assert(es.subrange(start as int, n as int) =~= (if start == 1 { es.drop_first() } else { es }));
    BuildStep::Split { value, groups }
}

/// A key that occurs in no entry is not found.
pub proof fn lemma_find_none<V>(es: Seq<(Seq<u8>, V)>, k: Seq<u8>)
    requires
        forall|j: int| 0 <= j < es.len() ==> (#[trigger] es[j]).0 != k,
    ensures
        find(es, k) is None,
    decreases es.len(),
{
    if es.len() > 0 {
        assert(es[es.len() - 1].0 != k);
        lemma_find_none(es.drop_last(), k);
    }
}

/// In sorted entries, the entry with a key is the one found for it.
pub proof fn lemma_find_at<V>(es: Seq<(Seq<u8>, V)>, k: Seq<u8>, i: int)
    requires
        sorted_keys(es),
        0 <= i < es.len(),
        es[i].0 == k,
    ensures
        find(es, k) == Some(es[i].1),
    decreases es.len(),
{
    if i != es.len() - 1 {
        assert(key_lt(es[i].0, es[es.len() - 1].0));
        lemma_key_lt_irreflexive(k);
        assert(es.drop_last()[i] == es[i]);
        lemma_find_at(es.drop_last(), k, i);
    }
}

/// Finding in a concatenation: the second part first, then the first.
pub proof fn lemma_find_append<V>(a: Seq<(Seq<u8>, V)>, b: Seq<(Seq<u8>, V)>, k: Seq<u8>)
    ensures
        find(a + b, k) == match find(b, k) {
            Some(v) => Some(v),
            None => find(a, k),
        },
    decreases b.len(),
{
    if b.len() == 0 {
        assert(a + b =~= a);
    } else {
        assert((a + b).drop_last() =~= a + b.drop_last());
        assert((a + b).last() == b.last());
        lemma_find_append(a, b.drop_last(), k);
    }
}

/// Finding among entries under a leading byte `c`: the key must start with
/// `c`, and its rest is found among the entries.
pub proof fn lemma_find_prefixed<V>(c: u8, g: Seq<(Seq<u8>, V)>, k: Seq<u8>)
    ensures
        find(prefixed(c, g), k) == if k.len() > 0 && k[0] == c {
            find(g, k.drop_first())
        } else {
            None
        },
    decreases g.len(),
{
    if g.len() > 0 {
        assert(prefixed(c, g).drop_last() =~= prefixed(c, g.drop_last()));
        let x = g.last().0;
        assert(prefixed(c, g).last().0 == seq![c] + x);
        if seq![c] + x == k {
            assert(k[0] == c);
            assert((seq![c] + x).drop_first() =~= x);
        } else if k.len() > 0 && k[0] == c {
            if x == k.drop_first() {
                lemma_cons_drop_first(k);
            }
        }
        lemma_find_prefixed(c, g.drop_last(), k);
    }
}

/// Finding a non-empty key among groups with distinct bytes: it is found in
/// the group of its first byte, if there is one.
pub proof fn lemma_find_flatten<V>(gs: Seq<(u8, Seq<(Seq<u8>, V)>)>, k: Seq<u8>)
    requires
        k.len() > 0,
        forall|i: int, j: int| 0 <= i < j < gs.len() ==> (#[trigger] gs[i]).0 != (#[trigger] gs[j]).0,
    ensures
        forall|j: int|
            0 <= j < gs.len() && (#[trigger] gs[j]).0 == k[0] ==> find(flatten_groups(gs), k) == find(
                gs[j].1,
                k.drop_first(),
            ),
        (forall|j: int| 0 <= j < gs.len() ==> (#[trigger] gs[j]).0 != k[0]) ==> find(
            flatten_groups(gs),
            k,
        ) is None,
    decreases gs.len(),
{
    if gs.len() > 0 {
        let init = gs.drop_last();
        let last = gs.last();
        lemma_find_flatten(init, k);
        lemma_find_append(flatten_groups(init), prefixed(last.0, last.1), k);
        lemma_find_prefixed(last.0, last.1, k);
        if last.0 == k[0] {
            assert forall|j: int| 0 <= j < init.len() implies (#[trigger] init[j]).0 != k[0] by {
                assert(init[j] == gs[j]);
                assert(gs[j].0 != gs[gs.len() - 1].0);
            }
        }
        assert forall|j: int|
            0 <= j < gs.len() && (#[trigger] gs[j]).0 == k[0] implies find(flatten_groups(gs), k)
            == find(gs[j].1, k.drop_first()) by {
            if j < gs.len() - 1 {
                assert(init[j] == gs[j]);
                assert(gs[j].0 != gs[gs.len() - 1].0);
            }
        }
        if forall|j: int| 0 <= j < gs.len() ==> (#[trigger] gs[j]).0 != k[0] {
            assert forall|j: int| 0 <= j < init.len() implies (#[trigger] init[j]).0 != k[0] by {
                assert(init[j] == gs[j]);
            }
            assert(gs[gs.len() - 1].0 != k[0]);
        }
    }
}

/// Lookup in a map built from sorted entries, at a direct node: every key
/// gives the value that the entries hold for it.
pub proof fn lemma_lookup_direct<V>(
    store: Map<ShardedMapNodeId, ShardedMapNode<V>>,
    entries: Vec<(Vec<u8>, V)>,
    k: Seq<u8>,
)
    ensures
        map_lookup(store, ShardedMapNode::Direct { entries }, k) == find(entries_view(entries@), k),
{
}

/// Lookup in a map built from sorted entries, at a sharded node: where each
/// child shard holds the map of its group, the node holds the map of all
/// the entries.
pub proof fn lemma_lookup_sharded<V>(
    store: Map<ShardedMapNodeId, ShardedMapNode<V>>,
    es: Seq<(Seq<u8>, V)>,
    value: Option<V>,
    gs: Seq<(u8, Seq<(Seq<u8>, V)>)>,
    children: Vec<ShardChild>,
    k: Seq<u8>,
)
    requires
        sorted_keys(es),
        is_split_of(es, value, gs),
        children@.len() == gs.len(),
        forall|j: int| 0 <= j < gs.len() ==> (#[trigger] children@[j]).byte == gs[j].0,
        forall|j: int| 0 <= j < gs.len() ==> store.contains_key((#[trigger] children@[j]).id),
        forall|j: int, x: Seq<u8>|
            0 <= j < gs.len() ==> #[trigger] map_lookup(store, store[children@[j].id], x) == find(gs[j].1, x),
    ensures
        map_lookup(store, ShardedMapNode::Sharded { value, children }, k) == find(es, k),
{
    let n = ShardedMapNode::Sharded { value, children };
    let rest = if es.len() > 0 && es[0].0.len() == 0 { es.drop_first() } else { es };
    assert(flatten_groups(gs) == rest);
    if es.len() > 0 && es[0].0.len() == 0 {
        assert(es =~= seq![es[0]] + rest);
        lemma_find_append(seq![es[0]], rest, k);
        assert(seq![es[0]].last() == es[0]);
        assert(seq![es[0]].drop_last() =~= Seq::<(Seq<u8>, V)>::empty());
        assert(find(Seq::<(Seq<u8>, V)>::empty(), k) is None);
        assert(find(seq![es[0]], k) == (if es[0].0 == k { Some(es[0].1) } else { None }));
    } else {
        assert(rest == es);
    }
    if k.len() == 0 {
        assert forall|j: int| 0 <= j < rest.len() implies (#[trigger] rest[j]).0 != k by {
            if es.len() > 0 && es[0].0.len() == 0 {
                assert(rest[j] == es[j + 1]);
                assert(key_lt(es[0].0, es[j + 1].0));
            } else {
                if j > 0 {
                    assert(key_lt(es[0].0, es[j].0));
                }
            }
        }
        lemma_find_none(rest, k);
        if es.len() > 0 && es[0].0.len() == 0 {
            assert(es[0].0 =~= k);
        }
        assert(find(es, k) == value);
        assert(map_lookup(store, n, k) == value);
    } else {
        lemma_find_flatten(gs, k);
        if es.len() > 0 && es[0].0.len() == 0 {
            assert(seq![es[0]].drop_last() =~= Seq::<(Seq<u8>, V)>::empty());
        }
        if exists|j: int| 0 <= j < gs.len() && (#[trigger] gs[j]).0 == k[0] {
            let j = choose|j: int| 0 <= j < gs.len() && (#[trigger] gs[j]).0 == k[0];
            assert(children@[j].byte == k[0]);
            let w = choose|i: int| 0 <= i < children@.len() && (#[trigger] children@[i]).byte == k[0];
            if w != j {
                if w < j {
                    assert(gs[w].0 < gs[j].0);
                } else {
                    assert(gs[j].0 < gs[w].0);
                }
            }
            assert(child_for(children@, k[0]) == Some(children@[j]));
            assert(map_lookup(store, store[children@[j].id], k.drop_first()) == find(gs[j].1, k.drop_first()));
            assert(find(rest, k) == find(gs[j].1, k.drop_first()));
            assert(find(es, k) == find(rest, k));
            assert(map_lookup(store, n, k) == find(gs[j].1, k.drop_first()));
        } else {
            assert forall|i: int| 0 <= i < children@.len() implies (#[trigger] children@[i]).byte != k[0] by {
                assert(gs[i].0 != k[0]);
            }
            assert(child_for(children@, k[0]) is None);
        }
    }
}

/// Enumeration order of a sharded node: groups in ascending byte order,
/// each sorted, flatten to sorted keys, every one of them non-empty and
/// starting with at most the last group's byte.
pub proof fn lemma_flatten_sorted<V>(gs: Seq<(u8, Seq<(Seq<u8>, V)>)>)
    requires
        forall|j: int| 0 <= j < gs.len() ==> sorted_keys((#[trigger] gs[j]).1),
        forall|i: int, j: int| 0 <= i < j < gs.len() ==> (#[trigger] gs[i]).0 < (#[trigger] gs[j]).0,
    ensures
        sorted_keys(flatten_groups(gs)),
        forall|i: int| 0 <= i < flatten_groups(gs).len() ==> (#[trigger] flatten_groups(gs)[i]).0.len() > 0
            && flatten_groups(gs)[i].0[0] <= gs.last().0,
    decreases gs.len(),
{
    if gs.len() > 0 {
        let init = gs.drop_last();
        let last = gs.last();
        assert forall|i: int, j: int| 0 <= i < j < init.len() implies (#[trigger] init[i]).0 < (#[trigger] init[j]).0 by {
            assert(init[i] == gs[i] && init[j] == gs[j]);
        }
        assert forall|j: int| 0 <= j < init.len() implies sorted_keys((#[trigger] init[j]).1) by {
            assert(init[j] == gs[j]);
        }
        lemma_flatten_sorted(init);
        let a = flatten_groups(init);
        let b = prefixed(last.0, last.1);
        let f = flatten_groups(gs);
        assert(f == a + b);
        assert forall|i: int| 0 <= i < b.len() implies (#[trigger] b[i]).0.len() > 0 && b[i].0[0] == last.0 by {
            assert(b[i].0 == seq![last.0] + last.1[i].0);
        }
        if init.len() > 0 {
            assert(init.last().0 < last.0);
        }
        assert forall|i: int, j: int| 0 <= i < j < f.len() implies key_lt(#[trigger] f[i].0, #[trigger] f[j].0) by {
            if j < a.len() {
                assert(f[i] == a[i] && f[j] == a[j]);
            } else if i >= a.len() {
                assert(f[i] == b[i - a.len()] && f[j] == b[j - a.len()]);
                assert(key_lt(last.1[i - a.len()].0, last.1[j - a.len()].0));
                lemma_key_lt_cons(last.0, last.1[i - a.len()].0, last.1[j - a.len()].0);
            } else {
                assert(f[i] == a[i] && f[j] == b[j - a.len()]);
                assert(init[init.len() - 1] == gs[init.len() - 1]);
            }
        }
        assert forall|i: int| 0 <= i < f.len() implies (#[trigger] f[i]).0.len() > 0 && f[i].0[0] <= gs.last().0 by {
            if i < a.len() {
                assert(f[i] == a[i]);
                assert(init[init.len() - 1] == gs[init.len() - 1]);
            } else {
                assert(f[i] == b[i - a.len()]);
            }
        }
    }
}

/// Enumeration order of a built node: the value under the empty key, then
/// the flattened groups, are the entries it was built from, in sorted order.
pub proof fn lemma_split_sorted<V>(
    es: Seq<(Seq<u8>, V)>,
    value: Option<V>,
    gs: Seq<(u8, Seq<(Seq<u8>, V)>)>,
)
    requires
        is_split_of(es, value, gs),
    ensures
        sorted_keys(
            match value {
                Some(v) => seq![(Seq::<u8>::empty(), v)] + flatten_groups(gs),
                None => flatten_groups(gs),
            },
        ),
        match value {
            Some(v) => seq![(Seq::<u8>::empty(), v)] + flatten_groups(gs),
            None => flatten_groups(gs),
        } == es,
{
    lemma_flatten_sorted(gs);
    let f = flatten_groups(gs);
    if es.len() > 0 && es[0].0.len() == 0 {
        let v = value->Some_0;
        let whole = seq![(Seq::<u8>::empty(), v)] + f;
        assert(es[0].0 =~= Seq::<u8>::empty());
        assert(whole =~= es);
        assert forall|i: int, j: int| 0 <= i < j < whole.len() implies key_lt(#[trigger] whole[i].0, #[trigger] whole[j].0) by {
            if i == 0 {
                assert(whole[j] == f[j - 1]);
            } else {
                assert(whole[i] == f[i - 1] && whole[j] == f[j - 1]);
            }
        }
    }
}

/// Filtering a concatenation filters each part.
pub proof fn lemma_filter_append<V>(a: Seq<(Seq<u8>, V)>, b: Seq<(Seq<u8>, V)>, p: Seq<u8>)
    ensures
        filter_prefix(a + b, p) == filter_prefix(a, p) + filter_prefix(b, p),
    decreases b.len(),
{
    if b.len() == 0 {
        assert(a + b =~= a);
        assert(filter_prefix(a, p) + filter_prefix(b, p) =~= filter_prefix(a, p));
    } else {
        assert((a + b).drop_last() =~= a + b.drop_last());
        assert((a + b).last() == b.last());
        lemma_filter_append(a, b.drop_last(), p);
        if starts_with(b.last().0, p) {
            assert(filter_prefix(a, p) + filter_prefix(b.drop_last(), p).push(b.last()) =~= (
            filter_prefix(a, p) + filter_prefix(b.drop_last(), p)).push(b.last()));
        }
    }
}

/// Filtering keys under a leading byte `c` by a non-empty prefix: nothing
/// matches unless the prefix starts with `c`, and then the rest of each key
/// is filtered by the rest of the prefix.
pub proof fn lemma_filter_prefixed<V>(c: u8, g: Seq<(Seq<u8>, V)>, p: Seq<u8>)
    requires
        p.len() > 0,
    ensures
        filter_prefix(prefixed(c, g), p) == if p[0] == c {
            prefixed(c, filter_prefix(g, p.drop_first()))
        } else {
            Seq::empty()
        },
    decreases g.len(),
{
    if g.len() > 0 {
        let k = g.last().0;
        let ck = seq![c] + k;
        assert(prefixed(c, g).drop_last() =~= prefixed(c, g.drop_last()));
        assert(prefixed(c, g).last() == (ck, g.last().1));
        lemma_filter_prefixed(c, g.drop_last(), p);
        if starts_with(ck, p) {
            assert(ck.subrange(0, p.len() as int)[0] == p[0]);
            assert(k.subrange(0, p.len() - 1) =~= ck.subrange(0, p.len() as int).drop_first());
            assert(p.drop_first() =~= ck.subrange(0, p.len() as int).drop_first());
        } else if p[0] == c && starts_with(k, p.drop_first()) {
            assert(ck.subrange(0, p.len() as int) =~= seq![c] + k.subrange(0, p.len() - 1));
            lemma_cons_drop_first(p);
        }
        if p[0] == c {
            let f = filter_prefix(g.drop_last(), p.drop_first());
            assert(prefixed(c, f.push(g.last())) =~= prefixed(c, f).push((ck, g.last().1)));
        }
    } else {
        assert(prefixed(c, Seq::<(Seq<u8>, V)>::empty()) =~= Seq::empty());
    }
}

/// Prefix scan of a sharded node: with a non-empty prefix, the entries of a
/// node built from `es` whose keys begin with it are exactly those of the one
/// shard for the prefix's first byte that begin with the rest of it, under
/// that byte; every other shard and the value under the empty key add none.
pub proof fn lemma_prefix_scan_sharded<V>(
    es: Seq<(Seq<u8>, V)>,
    value: Option<V>,
    gs: Seq<(u8, Seq<(Seq<u8>, V)>)>,
    p: Seq<u8>,
)
    requires
        is_split_of(es, value, gs),
        p.len() > 0,
    ensures
        forall|j: int|
            0 <= j < gs.len() && (#[trigger] gs[j]).0 == p[0] ==> filter_prefix(es, p) == prefixed(
                p[0],
                filter_prefix(gs[j].1, p.drop_first()),
            ),
        (forall|j: int| 0 <= j < gs.len() ==> (#[trigger] gs[j]).0 != p[0]) ==> filter_prefix(
            es,
            p,
        ) == Seq::<(Seq<u8>, V)>::empty(),
{
    lemma_filter_flatten(gs, p);
    if es.len() > 0 && es[0].0.len() == 0 {
        assert(es =~= seq![es[0]] + es.drop_first());
        lemma_filter_append(seq![es[0]], es.drop_first(), p);
        assert(seq![es[0]].drop_last() =~= Seq::<(Seq<u8>, V)>::empty());
        assert(filter_prefix(Seq::<(Seq<u8>, V)>::empty(), p) =~= Seq::empty());
        assert(!starts_with(es[0].0, p));
        assert(filter_prefix(seq![es[0]], p) =~= Seq::empty());
        assert(filter_prefix(es, p) =~= filter_prefix(es.drop_first(), p));
    }
}

/// Filtering flattened groups with distinct bytes by a non-empty prefix:
/// only the group of the prefix's first byte contributes.
pub proof fn lemma_filter_flatten<V>(gs: Seq<(u8, Seq<(Seq<u8>, V)>)>, p: Seq<u8>)
    requires
        p.len() > 0,
        forall|i: int, j: int| 0 <= i < j < gs.len() ==> (#[trigger] gs[i]).0 < (#[trigger] gs[j]).0,
    ensures
        forall|j: int|
            0 <= j < gs.len() && (#[trigger] gs[j]).0 == p[0] ==> filter_prefix(flatten_groups(gs), p)
                == prefixed(p[0], filter_prefix(gs[j].1, p.drop_first())),
        (forall|j: int| 0 <= j < gs.len() ==> (#[trigger] gs[j]).0 != p[0]) ==> filter_prefix(
            flatten_groups(gs),
            p,
        ) == Seq::<(Seq<u8>, V)>::empty(),
    decreases gs.len(),
{
    if gs.len() == 0 {
        assert(filter_prefix(Seq::<(Seq<u8>, V)>::empty(), p) =~= Seq::empty());
    } else {
        let init = gs.drop_last();
        let last = gs.last();
        assert forall|i: int, j: int| 0 <= i < j < init.len() implies (#[trigger] init[i]).0 < (#[trigger] init[j]).0 by {
            assert(init[i] == gs[i] && init[j] == gs[j]);
        }
        lemma_filter_flatten(init, p);
        lemma_filter_append(flatten_groups(init), prefixed(last.0, last.1), p);
        lemma_filter_prefixed(last.0, last.1, p);
        if last.0 == p[0] {
            assert forall|j: int| 0 <= j < init.len() implies (#[trigger] init[j]).0 != p[0] by {
                assert(init[j] == gs[j]);
                assert(gs[j].0 < gs[gs.len() - 1].0);
            }
            let x = prefixed(p[0], filter_prefix(last.1, p.drop_first()));
            assert(Seq::<(Seq<u8>, V)>::empty() + x =~= x);
        } else {
            let y = filter_prefix(flatten_groups(init), p);
            assert(y + Seq::<(Seq<u8>, V)>::empty() =~= y);
        }
        assert forall|j: int|
            0 <= j < gs.len() && (#[trigger] gs[j]).0 == p[0] implies filter_prefix(flatten_groups(gs), p)
            == prefixed(p[0], filter_prefix(gs[j].1, p.drop_first())) by {
            if j < gs.len() - 1 {
                assert(init[j] == gs[j]);
                assert(gs[j].0 < gs[gs.len() - 1].0);
            }
        }
        if forall|j: int| 0 <= j < gs.len() ==> (#[trigger] gs[j]).0 != p[0] {
            assert forall|j: int| 0 <= j < init.len() implies (#[trigger] init[j]).0 != p[0] by {
                assert(init[j] == gs[j]);
            }
            assert(gs[gs.len() - 1].0 != p[0]);
        }
    }
}

/// The same byte in front of the keys of two runs of entries: equal results
/// come only from equal runs.
pub proof fn lemma_prefixed_injective<V>(c: u8, a: Seq<(Seq<u8>, V)>, b: Seq<(Seq<u8>, V)>)
    requires
        prefixed(c, a) == prefixed(c, b),
    ensures
        a == b,
{
    assert(a.len() == prefixed(c, a).len());
    assert forall|i: int| 0 <= i < a.len() implies a[i] == b[i] by {
        assert(prefixed(c, a)[i] == prefixed(c, b)[i]);
        assert((seq![c] + a[i].0).drop_first() =~= a[i].0);
        assert((seq![c] + b[i].0).drop_first() =~= b[i].0);
    }
    assert(a =~= b);
}

/// Groups that flatten to the same entries, each group non-empty and
/// sorted, bytes strictly ascending, are the same groups.
pub proof fn lemma_groups_unique<V>(g1: Seq<(u8, Seq<(Seq<u8>, V)>)>, g2: Seq<(u8, Seq<(Seq<u8>, V)>)>)
    requires
        flatten_groups(g1) == flatten_groups(g2),
        forall|j: int| 0 <= j < g1.len() ==> (#[trigger] g1[j]).1.len() > 0,
        forall|j: int| 0 <= j < g2.len() ==> (#[trigger] g2[j]).1.len() > 0,
        forall|j: int| 0 <= j < g1.len() ==> sorted_keys((#[trigger] g1[j]).1),
        forall|j: int| 0 <= j < g2.len() ==> sorted_keys((#[trigger] g2[j]).1),
        forall|i: int, j: int| 0 <= i < j < g1.len() ==> (#[trigger] g1[i]).0 < (#[trigger] g1[j]).0,
        forall|i: int, j: int| 0 <= i < j < g2.len() ==> (#[trigger] g2[i]).0 < (#[trigger] g2[j]).0,
    ensures
        g1 == g2,
    decreases g1.len() + g2.len(),
{
    let f = flatten_groups(g1);
    if g1.len() == 0 || g2.len() == 0 {
        if g1.len() > 0 {
            assert(f.len() >= g1.last().1.len());
        }
        if g2.len() > 0 {
            assert(flatten_groups(g2).len() >= g2.last().1.len());
        }
        assert(g1 =~= g2);
    } else {
        let (i1, l1) = (g1.drop_last(), g1.last());
        let (i2, l2) = (g2.drop_last(), g2.last());
        let a1 = flatten_groups(i1);
        let a2 = flatten_groups(i2);
        let p1 = prefixed(l1.0, l1.1);
        let p2 = prefixed(l2.0, l2.1);
        assert(f == a1 + p1);
        assert(f == a2 + p2);
        assert forall|i: int, j: int| 0 <= i < j < i1.len() implies (#[trigger] i1[i]).0 < (#[trigger] i1[j]).0 by {
            assert(i1[i] == g1[i] && i1[j] == g1[j]);
        }
        assert forall|i: int, j: int| 0 <= i < j < i2.len() implies (#[trigger] i2[i]).0 < (#[trigger] i2[j]).0 by {
            assert(i2[i] == g2[i] && i2[j] == g2[j]);
        }
        assert forall|j: int| 0 <= j < i1.len() implies sorted_keys((#[trigger] i1[j]).1) && i1[j].1.len() > 0 by {
            assert(i1[j] == g1[j]);
        }
        assert forall|j: int| 0 <= j < i2.len() implies sorted_keys((#[trigger] i2[j]).1) && i2[j].1.len() > 0 by {
            assert(i2[j] == g2[j]);
        }
        lemma_flatten_sorted(i1);
        lemma_flatten_sorted(i2);
        // the last entry starts with both last bytes
        assert(f.last() == p1.last() && f.last() == p2.last());
        assert(p1.last().0 == seq![l1.0] + l1.1.last().0);
        assert(p2.last().0 == seq![l2.0] + l2.1.last().0);
        assert(p1.last().0[0] == l1.0);
        assert(p2.last().0[0] == l2.0);
        assert(l1.0 == l2.0);
        let b = l1.0;
        if i1.len() > 0 {
            assert(i1.last() == g1[g1.len() - 2]);
        }
        if i2.len() > 0 {
            assert(i2.last() == g2[g2.len() - 2]);
        }
        // the two last groups cover the same tail
        if p1.len() < p2.len() {
            let k = f.len() - p1.len() - 1;
            assert(f[k] == a1[k]);
            assert(f[k] == p2[k - a2.len()]);
            assert(p2[k - a2.len()].0 == seq![b] + l2.1[k - a2.len()].0);
            assert(false);
        }
        if p2.len() < p1.len() {
            let k = f.len() - p2.len() - 1;
            assert(f[k] == a2[k]);
            assert(f[k] == p1[k - a1.len()]);
            assert(p1[k - a1.len()].0 == seq![b] + l1.1[k - a1.len()].0);
            assert(false);
        }
        assert(a1 =~= f.subrange(0, a1.len() as int));
        assert(a2 =~= f.subrange(0, a2.len() as int));
        assert(p1 =~= f.subrange(a1.len() as int, f.len() as int));
        assert(p2 =~= f.subrange(a2.len() as int, f.len() as int));
        lemma_prefixed_injective(b, l1.1, l2.1);
        lemma_groups_unique(i1, i2);
        assert(g1 =~= i1.push(l1));
        assert(g2 =~= i2.push(l2));
    }
}

/// A split of sorted entries is unique: the node built in one step from a
/// run of entries depends on the entries alone.
pub proof fn lemma_split_unique<V>(
    es: Seq<(Seq<u8>, V)>,
    v1: Option<V>,
    g1: Seq<(u8, Seq<(Seq<u8>, V)>)>,
    v2: Option<V>,
    g2: Seq<(u8, Seq<(Seq<u8>, V)>)>,
)
    requires
        is_split_of(es, v1, g1),
        is_split_of(es, v2, g2),
    ensures
        v1 == v2,
        g1 == g2,
{
    lemma_groups_unique(g1, g2);
}

/// The order of keys is transitive.
pub proof fn lemma_key_lt_trans(a: Seq<u8>, b: Seq<u8>, c: Seq<u8>)
    requires
        key_lt(a, b),
        key_lt(b, c),
    ensures
        key_lt(a, c),
    decreases a.len(),
{
    if a.len() > 0 && a[0] == b[0] && b[0] == c[0] {
        lemma_key_lt_trans(a.drop_first(), b.drop_first(), c.drop_first());
    }
}

/// Keys that agree on their first `i` bytes compare as their rests do.
proof fn lemma_key_lt_skip(a: Seq<u8>, b: Seq<u8>, i: int)
    requires
        0 <= i <= a.len(),
        i <= b.len(),
        a.subrange(0, i) == b.subrange(0, i),
    ensures
        key_lt(a, b) == key_lt(a.subrange(i, a.len() as int), b.subrange(i, b.len() as int)),
    decreases i,
{
    if i > 0 {
        assert(a.subrange(0, i)[0] == a[0]);
        assert(b.subrange(0, i)[0] == b[0]);
        assert(a[0] == b[0]);
        assert(a.drop_first().subrange(0, i - 1) =~= a.subrange(0, i).drop_first());
        assert(b.drop_first().subrange(0, i - 1) =~= b.subrange(0, i).drop_first());
        lemma_key_lt_skip(a.drop_first(), b.drop_first(), i - 1);
        assert(a.drop_first().subrange(i - 1, a.len() - 1) =~= a.subrange(i, a.len() as int));
        assert(b.drop_first().subrange(i - 1, b.len() - 1) =~= b.subrange(i, b.len() as int));
    } else {
        assert(a.subrange(0, a.len() as int) =~= a);
        assert(b.subrange(0, b.len() as int) =~= b);
    }
}

/// Entries whose neighbours are in order are sorted.
proof fn lemma_sorted_from_adjacent<V>(es: Seq<(Seq<u8>, V)>)
    requires
        forall|i: int| 0 <= i < es.len() - 1 ==> key_lt(#[trigger] es[i].0, es[i + 1].0),
    ensures
        sorted_keys(es),
    decreases es.len(),
{
    if es.len() > 0 {
        let init = es.drop_last();
        assert forall|i: int| 0 <= i < init.len() - 1 implies key_lt(#[trigger] init[i].0, init[i + 1].0) by {
            assert(init[i] == es[i] && init[i + 1] == es[i + 1]);
        }
        lemma_sorted_from_adjacent(init);
        assert forall|i: int, j: int| 0 <= i < j < es.len() implies key_lt(#[trigger] es[i].0, #[trigger] es[j].0) by {
            if j < es.len() - 1 {
                assert(init[i] == es[i] && init[j] == es[j]);
            } else if i < j - 1 {
                assert(init[i] == es[i] && init[j - 1] == es[j - 1]);
                assert(key_lt(es[j - 1].0, es[j].0));
                lemma_key_lt_trans(es[i].0, es[j - 1].0, es[j].0);
            }
        }
    }
}

/// Whether `a` comes strictly before `b` in byte-lexicographic order.
pub fn key_less(a: &[u8], b: &[u8]) -> (r: bool)
    ensures
        r == key_lt(a@, b@),
{
    let mut i: usize = 0;
    while i < a.len() && i < b.len()
        invariant
            i <= a@.len(),
            i <= b@.len(),
            a@.subrange(0, i as int) == b@.subrange(0, i as int),
        decreases a@.len() - i,
    {
        if a[i] != b[i] {
            proof {
                lemma_key_lt_skip(a@, b@, i as int);
                let ra = a@.subrange(i as int, a@.len() as int);
                let rb = b@.subrange(i as int, b@.len() as int);
                assert(ra[0] == a@[i as int] && rb[0] == b@[i as int]);
            }
            return a[i] < b[i];
        }
        assert(a@.subrange(0, i + 1) =~= a@.subrange(0, i as int).push(a@[i as int]));
        assert(b@.subrange(0, i + 1) =~= b@.subrange(0, i as int).push(b@[i as int]));
        i = i + 1;
    }
    proof {
        lemma_key_lt_skip(a@, b@, i as int);
    }
    i == a.len() && i < b.len()
}

/// Whether the keys of `es` are strictly ascending.
pub fn keys_sorted<V>(es: &Vec<(Vec<u8>, V)>) -> (r: bool)
    ensures
        r == sorted_keys(entries_view(es@)),
{
    let ghost ev = entries_view(es@);
    let mut i: usize = 1;
    if es.len() == 0 {
        proof {
            lemma_sorted_from_adjacent(ev);
        }
        return true;
    }
    while i < es.len()
        invariant
            1 <= i <= es@.len(),
            ev == entries_view(es@),
            forall|j: int| 0 <= j < i - 1 ==> key_lt(#[trigger] ev[j].0, ev[j + 1].0),
        decreases es@.len() - i,
    {
        if !key_less(es[i - 1].0.as_slice(), es[i].0.as_slice()) {
            assert(!key_lt(ev[i - 1].0, ev[i as int].0));
            return false;
        }
        i = i + 1;
    }
    proof {
        lemma_sorted_from_adjacent(ev);
    }
    true
}

impl<V> ShardedMapNode<V> {
    /// Whether the node is well formed: sorted and within the weight limit
    /// when direct, children in strictly ascending byte order when sharded.
    pub fn is_wf(&self) -> (r: bool)
        ensures
            r == self.wf(),
    {
        match self {
            ShardedMapNode::Direct { entries } => entries.len() <= WEIGHT_LIMIT && keys_sorted(entries),
            ShardedMapNode::Sharded { value, children } => {
                let mut i: usize = 1;
                if children.len() == 0 {
                    return true;
                }
                while i < children.len()
                    invariant
                        1 <= i <= children@.len(),
                        *self == (ShardedMapNode::Sharded { value: *value, children: *children }),
                        forall|a: int, c: int| 0 <= a < c < i ==> (#[trigger] children@[a]).byte < (#[trigger] children@[c]).byte,
                    decreases children@.len() - i,
                {
                    if children[i - 1].byte >= children[i].byte {
                        assert(!children_sorted(children@)) by {
                            assert(children@[i - 1].byte >= children@[i as int].byte);
                        }
                        return false;
                    }
                    assert forall|a: int, c: int| 0 <= a < c < i + 1 implies (#[trigger] children@[a]).byte < (#[trigger] children@[c]).byte by {
                        if c == i && a < i - 1 {
                            assert(children@[a].byte < children@[i - 1].byte);
                        }
                    }
                    i = i + 1;
                }
                true
            },
        }
    }
}

/// A key that is found occurs in some entry, with the value found.
pub proof fn lemma_find_some<V>(es: Seq<(Seq<u8>, V)>, k: Seq<u8>)
    requires
        find(es, k) is Some,
    ensures
        exists|i: int| 0 <= i < es.len() && #[trigger] es[i] == (k, find(es, k)->Some_0),
    decreases es.len(),
{
    if es.last().0 == k {
        assert(es[es.len() - 1] == (k, find(es, k)->Some_0));
    } else {
        lemma_find_some(es.drop_last(), k);
        let i = choose|i: int| 0 <= i < es.drop_last().len() && #[trigger] es.drop_last()[i] == (k, find(es.drop_last(), k)->Some_0);
        assert(es[i] == es.drop_last()[i]);
    }
}

/// Sorted entries are determined by what they map each key to: two sorted
/// runs that agree on every key are the same run.
pub proof fn lemma_sorted_unique<V>(a: Seq<(Seq<u8>, V)>, b: Seq<(Seq<u8>, V)>)
    requires
        sorted_keys(a),
        sorted_keys(b),
        forall|k: Seq<u8>| #[trigger] find(a, k) == find(b, k),
    ensures
        a == b,
    decreases a.len() + b.len(),
{
    if a.len() == 0 || b.len() == 0 {
        if a.len() > 0 {
            lemma_find_at(a, a[0].0, 0);
            assert(find(b, a[0].0) is None);
        }
        if b.len() > 0 {
            lemma_find_at(b, b[0].0, 0);
            assert(find(a, b[0].0) is None);
        }
        assert(a =~= b);
    } else {
        let la = a.last();
        let lb = b.last();
        lemma_find_at(a, la.0, a.len() - 1);
        lemma_find_at(b, lb.0, b.len() - 1);
        assert(find(b, la.0) == Some(la.1));
        assert(find(a, lb.0) == Some(lb.1));
        lemma_find_some(b, la.0);
        lemma_find_some(a, lb.0);
        let i = choose|i: int| 0 <= i < b.len() && #[trigger] b[i] == (la.0, find(b, la.0)->Some_0);
        let j = choose|j: int| 0 <= j < a.len() && #[trigger] a[j] == (lb.0, find(a, lb.0)->Some_0);
        lemma_key_lt_irreflexive(la.0);
        if i < b.len() - 1 {
            assert(key_lt(la.0, lb.0));
            if j < a.len() - 1 {
                assert(key_lt(lb.0, la.0));
                lemma_key_lt_trans(la.0, lb.0, la.0);
            }
        }
        assert(la == lb);
        let (ia, ib) = (a.drop_last(), b.drop_last());
        assert forall|k: Seq<u8>| #[trigger] find(ia, k) == find(ib, k) by {
            if k == la.0 {
                assert forall|t: int| 0 <= t < ia.len() implies (#[trigger] ia[t]).0 != k by {
                    assert(ia[t] == a[t]);
                    assert(key_lt(a[t].0, la.0));
                }
                assert forall|t: int| 0 <= t < ib.len() implies (#[trigger] ib[t]).0 != k by {
                    assert(ib[t] == b[t]);
                    assert(key_lt(b[t].0, lb.0));
                }
                lemma_find_none(ia, k);
                lemma_find_none(ib, k);
            } else {
                assert(find(a, k) == find(b, k));
            }
        }
        assert forall|x: int, y: int| 0 <= x < y < ia.len() implies key_lt(#[trigger] ia[x].0, #[trigger] ia[y].0) by {
            assert(ia[x] == a[x] && ia[y] == a[y]);
        }
        assert forall|x: int, y: int| 0 <= x < y < ib.len() implies key_lt(#[trigger] ib[x].0, #[trigger] ib[y].0) by {
            assert(ib[x] == b[x] && ib[y] == b[y]);
        }
        lemma_sorted_unique(ia, ib);
        assert(a =~= ia.push(la));
        assert(b =~= ib.push(lb));
    }
}

/// Content-address determinism of a build step: sorted entries that hold
/// the same key-to-value map, however they were arrived at, are split the
/// same way, so every node built from them is the same.
pub proof fn lemma_build_deterministic<V>(
    a: Seq<(Seq<u8>, V)>,
    b: Seq<(Seq<u8>, V)>,
    va: Option<V>,
    ga: Seq<(u8, Seq<(Seq<u8>, V)>)>,
    vb: Option<V>,
    gb: Seq<(u8, Seq<(Seq<u8>, V)>)>,
)
    requires
        sorted_keys(a),
        sorted_keys(b),
        forall|k: Seq<u8>| #[trigger] find(a, k) == find(b, k),
        is_split_of(a, va, ga),
        is_split_of(b, vb, gb),
    ensures
        a == b,
        va == vb,
        ga == gb,
{
    lemma_sorted_unique(a, b);
    lemma_split_unique(a, va, ga, vb, gb);
}

/// The tree rooted at `n`, with the nodes of `store` as its shards, at most
/// `depth` sharded levels deep, is the one built from the sorted entries
/// `es`: a direct node holds them when they are at most `WEIGHT_LIMIT`, else
/// a sharded node holds their split and each child shard is the tree built
/// from its group.
pub open spec fn represents<V>(
    store: Map<ShardedMapNodeId, ShardedMapNode<V>>,
    n: ShardedMapNode<V>,
    es: Seq<(Seq<u8>, V)>,
    depth: nat,
) -> bool
    decreases depth, 0nat,
{
    &&& sorted_keys(es)
    &&& match n {
        ShardedMapNode::Direct { entries } => entries_view(entries@) == es && es.len() <= WEIGHT_LIMIT,
        ShardedMapNode::Sharded { value, children } => depth > 0 && es.len() > WEIGHT_LIMIT && exists|
            gs: Seq<(u8, Seq<(Seq<u8>, V)>)>,
        |
            #[trigger] is_split_of(es, value, gs) && children_represent(
                store,
                children@,
                gs,
                (depth - 1) as nat,
            ),
    }
}

/// The child shards `cs` are the trees built from the groups `gs`, one for
/// one: same byte, weight the group's size, and stored in `store`.
pub open spec fn children_represent<V>(
    store: Map<ShardedMapNodeId, ShardedMapNode<V>>,
    cs: Seq<ShardChild>,
    gs: Seq<(u8, Seq<(Seq<u8>, V)>)>,
    depth: nat,
) -> bool
    decreases depth, 1nat,
{
    &&& cs.len() == gs.len()
    &&& forall|j: int|
        0 <= j < gs.len() ==> (#[trigger] cs[j]).byte == gs[j].0 && cs[j].weight == gs[j].1.len()
            && store.contains_key(cs[j].id) && represents(store, store[cs[j].id], gs[j].1, depth)
}

/// Lookup correctness: in the tree built from a set of entries, every key
/// gives the value the set holds for it, and a key not in the set gives
/// nothing.
pub proof fn lemma_lookup_built<V>(
    store: Map<ShardedMapNodeId, ShardedMapNode<V>>,
    n: ShardedMapNode<V>,
    es: Seq<(Seq<u8>, V)>,
    depth: nat,
)
    requires
        represents(store, n, es, depth),
    ensures
        forall|k: Seq<u8>| #[trigger] map_lookup(store, n, k) == find(es, k),
    decreases depth,
{
    match n {
        ShardedMapNode::Direct { entries } => {
            assert forall|k: Seq<u8>| #[trigger] map_lookup(store, n, k) == find(es, k) by {
                lemma_lookup_direct(store, entries, k);
            }
        },
        ShardedMapNode::Sharded { value, children } => {
            let gs = choose|gs: Seq<(u8, Seq<(Seq<u8>, V)>)>|
                #[trigger] is_split_of(es, value, gs) && children_represent(store, children@, gs, (depth - 1) as nat);
            assert forall|j: int, x: Seq<u8>|
                0 <= j < gs.len() implies #[trigger] map_lookup(store, store[children@[j].id], x) == find(gs[j].1, x) by {
                lemma_lookup_built(store, store[children@[j].id], gs[j].1, (depth - 1) as nat);
            }
            assert forall|k: Seq<u8>| #[trigger] map_lookup(store, n, k) == find(es, k) by {
                lemma_lookup_sharded(store, es, value, gs, children, k);
            }
        },
    }
}

/// All entries of the tree rooted at `n`, at most `depth` sharded levels
/// deep, in the order a depth-first scan yields them: a direct node's
/// entries; a sharded node's value under the empty key, then each child
/// shard's entries in ascending byte order under that byte.
pub open spec fn enumerate<V>(
    store: Map<ShardedMapNodeId, ShardedMapNode<V>>,
    n: ShardedMapNode<V>,
    depth: nat,
) -> Seq<(Seq<u8>, V)>
    decreases depth, 0nat,
{
    match n {
        ShardedMapNode::Direct { entries } => entries_view(entries@),
        ShardedMapNode::Sharded { value, children } => if depth == 0 {
            Seq::empty()
        } else {
            value_entries(value) + enumerate_children(store, children@, (depth - 1) as nat)
        },
    }
}

/// The entry under the empty key, if there is a value.
pub open spec fn value_entries<V>(value: Option<V>) -> Seq<(Seq<u8>, V)> {
    match value {
        Some(v) => seq![(Seq::<u8>::empty(), v)],
        None => Seq::empty(),
    }
}

/// The entries of the child shards `cs`, one after another, each under its
/// byte.
pub open spec fn enumerate_children<V>(
    store: Map<ShardedMapNodeId, ShardedMapNode<V>>,
    cs: Seq<ShardChild>,
    depth: nat,
) -> Seq<(Seq<u8>, V)>
    decreases depth, cs.len() + 1,
{
    if cs.len() == 0 {
        Seq::empty()
    } else {
        enumerate_children(store, cs.drop_last(), depth) + prefixed(
            cs.last().byte,
            if store.contains_key(cs.last().id) {
                enumerate(store, store[cs.last().id], depth)
            } else {
                Seq::empty()
            },
        )
    }
}

/// Enumeration completeness and order: the scan of the tree built from a
/// set of entries yields exactly those entries, in ascending key order,
/// however many shards they were split into.
pub proof fn lemma_enumerate_built<V>(
    store: Map<ShardedMapNodeId, ShardedMapNode<V>>,
    n: ShardedMapNode<V>,
    es: Seq<(Seq<u8>, V)>,
    depth: nat,
)
    requires
        represents(store, n, es, depth),
    ensures
        enumerate(store, n, depth) == es,
        sorted_keys(enumerate(store, n, depth)),
    decreases depth, 0nat,
{
    if let ShardedMapNode::Sharded { value, children } = n {
        let gs = choose|gs: Seq<(u8, Seq<(Seq<u8>, V)>)>|
                #[trigger] is_split_of(es, value, gs) && children_represent(store, children@, gs, (depth - 1) as nat);
        lemma_enumerate_children_built(store, children@, gs, (depth - 1) as nat, gs.len());
        assert(children@.subrange(0, gs.len() as int) =~= children@);
        assert(gs.subrange(0, gs.len() as int) =~= gs);
        lemma_split_sorted(es, value, gs);
        match value {
            Some(v) => {},
            None => {
                assert(Seq::<(Seq<u8>, V)>::empty() + flatten_groups(gs) =~= flatten_groups(gs));
            },
        }
    }
}

/// The scan of the first `i` child shards, each built from its group,
/// yields the first `i` groups flattened.
proof fn lemma_enumerate_children_built<V>(
    store: Map<ShardedMapNodeId, ShardedMapNode<V>>,
    cs: Seq<ShardChild>,
    gs: Seq<(u8, Seq<(Seq<u8>, V)>)>,
    depth: nat,
    i: nat,
)
    requires
        cs.len() == gs.len(),
        i <= gs.len(),
        forall|j: int|
            0 <= j < gs.len() ==> (#[trigger] cs[j]).byte == gs[j].0 && store.contains_key(cs[j].id)
                && represents(store, store[cs[j].id], gs[j].1, depth),
    ensures
        enumerate_children(store, cs.subrange(0, i as int), depth) == flatten_groups(gs.subrange(0, i as int)),
    decreases depth, i + 1,
{
    if i > 0 {
        let c = cs.subrange(0, i as int);
        let g = gs.subrange(0, i as int);
        assert(c.drop_last() =~= cs.subrange(0, i - 1));
        assert(g.drop_last() =~= gs.subrange(0, i - 1));
        assert(c.last() == cs[i - 1]);
        assert(g.last() == gs[i - 1]);
        lemma_enumerate_children_built(store, cs, gs, depth, (i - 1) as nat);
        lemma_enumerate_built(store, store[cs[i - 1].id], gs[i - 1].1, depth);
    } else {
        assert(cs.subrange(0, 0) =~= Seq::<ShardChild>::empty());
        assert(gs.subrange(0, 0) =~= Seq::<(u8, Seq<(Seq<u8>, V)>)>::empty());
    }
}

/// The entries that a prefix scan of the tree rooted at `n` yields: the
/// matching entries of a direct node; for a sharded node and an empty
/// prefix, all of its entries; for a non-empty prefix, only the scan of the
/// one child shard for the prefix's first byte, under that byte. No other
/// shard is visited.
pub open spec fn scan_prefix<V>(
    store: Map<ShardedMapNodeId, ShardedMapNode<V>>,
    n: ShardedMapNode<V>,
    p: Seq<u8>,
    depth: nat,
) -> Seq<(Seq<u8>, V)>
    decreases depth,
{
    match n {
        ShardedMapNode::Direct { entries } => filter_prefix(entries_view(entries@), p),
        ShardedMapNode::Sharded { value, children } => if depth == 0 {
            Seq::empty()
        } else if p.len() == 0 {
            enumerate(store, n, depth)
        } else {
            match child_for(children@, p[0]) {
                Some(c) => if store.contains_key(c.id) {
                    prefixed(p[0], scan_prefix(store, store[c.id], p.drop_first(), (depth - 1) as nat))
                } else {
                    Seq::empty()
                },
                None => Seq::empty(),
            }
        },
    }
}

/// Every key begins with the empty prefix.
pub proof fn lemma_filter_empty_prefix<V>(es: Seq<(Seq<u8>, V)>)
    ensures
        filter_prefix(es, Seq::empty()) == es,
    decreases es.len(),
{
    if es.len() > 0 {
        lemma_filter_empty_prefix(es.drop_last());
        assert(es.last().0.subrange(0, 0) =~= Seq::<u8>::empty());
        assert(es.drop_last().push(es.last()) =~= es);
    }
}

/// Prefix restriction: the prefix scan of the tree built from a set of
/// entries yields exactly those whose key begins with the prefix, in the
/// same order as the full scan.
pub proof fn lemma_scan_prefix_built<V>(
    store: Map<ShardedMapNodeId, ShardedMapNode<V>>,
    n: ShardedMapNode<V>,
    es: Seq<(Seq<u8>, V)>,
    p: Seq<u8>,
    depth: nat,
)
    requires
        represents(store, n, es, depth),
    ensures
        scan_prefix(store, n, p, depth) == filter_prefix(es, p),
    decreases depth,
{
    if let ShardedMapNode::Sharded { value, children } = n {
        let gs = choose|gs: Seq<(u8, Seq<(Seq<u8>, V)>)>|
                #[trigger] is_split_of(es, value, gs) && children_represent(store, children@, gs, (depth - 1) as nat);
        if p.len() == 0 {
            lemma_enumerate_built(store, n, es, depth);
            lemma_filter_empty_prefix(es);
            assert(p =~= Seq::<u8>::empty());
        } else {
            lemma_prefix_scan_sharded(es, value, gs, p);
            if exists|j: int| 0 <= j < gs.len() && (#[trigger] gs[j]).0 == p[0] {
                let j = choose|j: int| 0 <= j < gs.len() && (#[trigger] gs[j]).0 == p[0];
                assert(children@[j].byte == p[0]);
                let w = choose|i: int| 0 <= i < children@.len() && (#[trigger] children@[i]).byte == p[0];
                if w != j {
                    if w < j {
                        assert(gs[w].0 < gs[j].0);
                    } else {
                        assert(gs[j].0 < gs[w].0);
                    }
                }
                assert(child_for(children@, p[0]) == Some(children@[j]));
                lemma_scan_prefix_built(store, store[children@[j].id], gs[j].1, p.drop_first(), (depth - 1) as nat);
            } else {
                assert forall|i: int| 0 <= i < children@.len() implies (#[trigger] children@[i]).byte != p[0] by {
                    assert(gs[i].0 != p[0]);
                }
                assert(child_for(children@, p[0]) is None);
            }
        }
    }
}

/// Sharding ceiling: in the tree built from a set of entries, a node is
/// direct exactly when the set has at most `WEIGHT_LIMIT` entries, so a set
/// one past the limit is always sharded, and no direct node anywhere in the
/// tree holds more than the limit.
pub proof fn lemma_ceiling<V>(
    store: Map<ShardedMapNodeId, ShardedMapNode<V>>,
    n: ShardedMapNode<V>,
    es: Seq<(Seq<u8>, V)>,
    depth: nat,
)
    requires
        represents(store, n, es, depth),
    ensures
        n is Direct <==> es.len() <= WEIGHT_LIMIT,
        n matches ShardedMapNode::Direct { entries } ==> entries@.len() <= WEIGHT_LIMIT,
{
    if let ShardedMapNode::Direct { entries } = n {
        assert(entries_view(entries@).len() == entries@.len());
    }
}

/// Keyed values with `pre` put in front of each key.
pub open spec fn under<V>(pre: Seq<u8>, es: Seq<(Seq<u8>, V)>) -> Seq<(Seq<u8>, V)> {
    es.map_values(|e: (Seq<u8>, V)| (pre + e.0, e.1))
}

/// What one node itself contributes to a scan for `p`: the matching
/// entries of a direct node, or a sharded node's value under the empty key
/// when `p` is empty.
pub open spec fn local_scan<V>(n: ShardedMapNode<V>, p: Seq<u8>) -> Seq<(Seq<u8>, V)> {
    match n {
        ShardedMapNode::Direct { entries } => filter_prefix(entries_view(entries@), p),
        ShardedMapNode::Sharded { value, children } => if p.len() == 0 {
            value_entries(value)
        } else {
            Seq::empty()
        },
    }
}

/// The child shards a scan for `p` descends into from `n`, in order: all of
/// them for an empty prefix, else only the one for the prefix's first byte.
pub open spec fn scan_children<V>(n: ShardedMapNode<V>, p: Seq<u8>) -> Seq<ShardChild> {
    match n {
        ShardedMapNode::Direct { entries } => Seq::empty(),
        ShardedMapNode::Sharded { value, children } => if p.len() == 0 {
            children@
        } else {
            match child_for(children@, p[0]) {
                Some(c) => seq![c],
                None => Seq::empty(),
            }
        },
    }
}

/// The prefix left for a child shard when scanning for `p`.
pub open spec fn rest_prefix(p: Seq<u8>) -> Seq<u8> {
    if p.len() == 0 {
        Seq::empty()
    } else {
        p.drop_first()
    }
}

/// The scans of the child shards `cs` for `p`, one after another, each
/// under its byte.
pub open spec fn scan_shards<V>(
    store: Map<ShardedMapNodeId, ShardedMapNode<V>>,
    cs: Seq<ShardChild>,
    p: Seq<u8>,
    depth: nat,
) -> Seq<(Seq<u8>, V)>
    decreases cs.len(),
{
    if cs.len() == 0 {
        Seq::empty()
    } else {
        scan_shards(store, cs.drop_last(), p, depth) + prefixed(
            cs.last().byte,
            if store.contains_key(cs.last().id) {
                scan_prefix(store, store[cs.last().id], p, depth)
            } else {
                Seq::empty()
            },
        )
    }
}

/// A child shard still to be scanned: its identifier, the key bytes above
/// it, and the prefix left to match within it.
#[derive(Clone, Debug, PartialEq, Eq)]
pub struct PendingShard {
    pub id: ShardedMapNodeId,
    pub above: Vec<u8>,
    pub rest: Vec<u8>,
}

/// The bytes of `a` followed by those of `b`.
fn concat_bytes(a: &[u8], b: &[u8]) -> (r: Vec<u8>)
    ensures
        r@ == a@ + b@,
{
    let mut r = copy_bytes(a);
    let mut i: usize = 0;
    while i < b.len()
        invariant
            i <= b@.len(),
            r@ == a@ + b@.subrange(0, i as int),
        decreases b@.len() - i,
    {
        r.push(b[i]);
        assert(b@.subrange(0, i + 1) =~= b@.subrange(0, i as int).push(b@[i as int]));
        i = i + 1;
    }
    assert(b@.subrange(0, i as int) =~= b@);
    r
}

/// One frame of a prefix scan: the node `node`, reached under the key bytes
/// `above`, with `rest` left of the prefix. Appends to `out` the entries the
/// node itself yields, under their full keys, in order, and returns the
/// child shards to scan next, in ascending byte order.
pub fn scan_step<V: Copy>(
    node: ShardedMapNode<V>,
    above: &[u8],
    rest: &[u8],
    out: &mut Vec<(Vec<u8>, V)>,
) -> (r: Vec<PendingShard>)
    requires
        node.wf(),
    ensures
        entries_view(final(out)@) == entries_view(old(out)@) + under(above@, local_scan(node, rest@)),
        r@.len() == scan_children(node, rest@).len(),
        forall|i: int|
            0 <= i < r@.len() ==> (#[trigger] r@[i]).id == scan_children(node, rest@)[i].id
                && r@[i].above@ == above@.push(scan_children(node, rest@)[i].byte) && r@[i].rest@
                == rest_prefix(rest@),
{
    let ghost out0 = entries_view(out@);
    let ghost n0 = node;
    let step = node.into_prefix_step(rest);
    match step {
        PrefixStep::Entries(found) => {
            let ghost fv = entries_view(found@);
            let mut i: usize = 0;
            while i < found.len()
                invariant
                    i <= found@.len(),
                    fv == entries_view(found@),
                    entries_view(out@) == out0 + under(above@, fv.subrange(0, i as int)),
                decreases found@.len() - i,
            {
                let ghost before = out@;
                let k = concat_bytes(above, found[i].0.as_slice());
                out.push((k, found[i].1));
                assert(entries_view(out@) =~= entries_view(before).push((above@ + fv[i as int].0, fv[i as int].1)));
                assert(under(above@, fv.subrange(0, i + 1)) =~= under(above@, fv.subrange(0, i as int)).push(
                    (above@ + fv[i as int].0, fv[i as int].1),
                ));
                i = i + 1;
            }
            assert(fv.subrange(0, i as int) =~= fv);
            Vec::new()
        },
        PrefixStep::Shards { value, children } => {
            let ghost before = out@;
            match value {
                Some(v) => {
                    out.push((copy_bytes(above), v));
                    assert(above@ + Seq::<u8>::empty() =~= above@);
                    assert(entries_view(out@) =~= entries_view(before).push((above@, v)));
                    assert(under(above@, value_entries(value)) =~= seq![(above@, v)]);
                    assert(entries_view(out@) =~= out0 + under(above@, local_scan(n0, rest@)));
                },
                None => {
                    assert(under(above@, local_scan(n0, rest@)) =~= Seq::empty());
                    assert(entries_view(out@) =~= out0 + under(above@, local_scan(n0, rest@)));
                },
            }
            let rest2 = if rest.len() == 0 {
                Vec::new()
            } else {
                bytes_from(rest, 1)
            };
            assert(rest2@ =~= rest_prefix(rest@));
            let mut pending: Vec<PendingShard> = Vec::new();
            let mut i: usize = 0;
            while i < children.len()
                invariant
                    i <= children@.len(),
                    children@ == scan_children(n0, rest@),
                    rest2@ == rest_prefix(rest@),
                    pending@.len() == i,
                    forall|k: int|
                        0 <= k < i ==> (#[trigger] pending@[k]).id == children@[k].id && pending@[k].above@
                            == above@.push(children@[k].byte) && pending@[k].rest@ == rest_prefix(rest@),
                decreases children@.len() - i,
            {
                let c = children[i];
                let mut a = copy_bytes(above);
                a.push(c.byte);
                pending.push(PendingShard { id: c.id, above: a, rest: copy_bytes(rest2.as_slice()) });
                i = i + 1;
            }
            pending
        },
    }
}

/// A scan driven frame by frame yields the whole prefix scan: what the node
/// itself yields, then the scans of the shards it hands on, each under its
/// byte with the rest of the prefix.
pub proof fn lemma_scan_step<V>(
    store: Map<ShardedMapNodeId, ShardedMapNode<V>>,
    n: ShardedMapNode<V>,
    p: Seq<u8>,
    depth: nat,
)
    requires
        depth > 0,
    ensures
        scan_prefix(store, n, p, depth) == local_scan(n, p) + scan_shards(
            store,
            scan_children(n, p),
            rest_prefix(p),
            (depth - 1) as nat,
        ),
{
    match n {
        ShardedMapNode::Direct { entries } => {
            assert(scan_children(n, p) =~= Seq::<ShardChild>::empty());
            assert(scan_shards(store, scan_children(n, p), rest_prefix(p), (depth - 1) as nat)
                =~= Seq::<(Seq<u8>, V)>::empty());
            assert(local_scan(n, p) + Seq::<(Seq<u8>, V)>::empty() =~= local_scan(n, p));
        },
        ShardedMapNode::Sharded { value, children } => {
            if p.len() == 0 {
                lemma_scan_shards_all(store, children@, (depth - 1) as nat);
                assert(rest_prefix(p) == Seq::<u8>::empty());
                assert(scan_prefix(store, n, p, depth) == enumerate(store, n, depth));
            } else {
                assert(scan_shards(store, Seq::<ShardChild>::empty(), p.drop_first(), (depth - 1) as nat)
                    =~= Seq::<(Seq<u8>, V)>::empty());
                match child_for(children@, p[0]) {
                    Some(c) => {
                        assert(seq![c].drop_last() =~= Seq::<ShardChild>::empty());
                        let sub = if store.contains_key(c.id) {
                            scan_prefix(store, store[c.id], p.drop_first(), (depth - 1) as nat)
                        } else {
                            Seq::empty()
                        };
                        assert(Seq::<(Seq<u8>, V)>::empty() + prefixed(c.byte, sub) =~= prefixed(c.byte, sub));
                        assert(c.byte == p[0]);
                    },
                    None => {},
                }
                assert(Seq::<(Seq<u8>, V)>::empty() + Seq::<(Seq<u8>, V)>::empty() =~= Seq::<(Seq<u8>, V)>::empty());
            }
        },
    }
}

/// Scanning shards for the empty prefix enumerates them.
proof fn lemma_scan_shards_all<V>(
    store: Map<ShardedMapNodeId, ShardedMapNode<V>>,
    cs: Seq<ShardChild>,
    depth: nat,
)
    ensures
        scan_shards(store, cs, Seq::empty(), depth) == enumerate_children(store, cs, depth),
    decreases cs.len(),
{
    if cs.len() > 0 {
        lemma_scan_shards_all(store, cs.drop_last(), depth);
        if store.contains_key(cs.last().id) {
            let m = store[cs.last().id];
            if let ShardedMapNode::Direct { entries } = m {
                lemma_filter_empty_prefix(entries_view(entries@));
            }
            assert(scan_prefix(store, m, Seq::empty(), depth) == enumerate(store, m, depth));
        }
    }
}

/// Narrowing a prefix scan: the scan for a longer prefix `q` that begins
/// with `p` is the scan for `p` filtered again by `q`.
pub proof fn lemma_filter_narrow<V>(es: Seq<(Seq<u8>, V)>, p: Seq<u8>, q: Seq<u8>)
    requires
        starts_with(q, p),
    ensures
        filter_prefix(filter_prefix(es, p), q) == filter_prefix(es, q),
    decreases es.len(),
{
    if es.len() > 0 {
        let k = es.last().0;
        lemma_filter_narrow(es.drop_last(), p, q);
        if starts_with(k, q) {
            assert(k.subrange(0, p.len() as int) =~= q.subrange(0, q.len() as int).subrange(0, p.len() as int));
            assert(k.subrange(0, p.len() as int) =~= k.subrange(0, q.len() as int).subrange(0, p.len() as int));
        }
        if starts_with(k, p) {
            let f = filter_prefix(es.drop_last(), p);
            assert(f.push(es.last()).drop_last() =~= f);
        }
    }
}

/// No key is below itself.
pub proof fn lemma_key_lt_irreflexive(a: Seq<u8>)
    ensures
        !key_lt(a, a),
    decreases a.len(),
{
    if a.len() > 0 {
        lemma_key_lt_irreflexive(a.drop_first());
    }
}

} // verus!
