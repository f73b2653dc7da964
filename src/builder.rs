use vstd::prelude::*;

use crate::codec::{decode_node, encode_node, node_bytes, same_node};
use crate::entry::{ContentManifestEntry, ShardedMapNodeId};
use crate::sharded_map::{
    build_step, bytes_eq, children_represent, entries_view, find, flatten_groups, groups_view,
    is_split_of, lemma_sorted_unique, lemma_split_unique, prefixed, represents, sorted_keys,
    BuildStep, ShardChild, ShardedMapNode, WEIGHT_LIMIT,
};

verus! {

/// Why a build failed.
#[derive(Clone, Copy, Debug, PartialEq, Eq)]
pub enum BuildError {
    /// Two different nodes were given the same identifier.
    IdCollision,
}

/// The total number of key bytes in a run of entries.
pub open spec fn key_bytes<V>(es: Seq<(Seq<u8>, V)>) -> nat
    decreases es.len(),
{
    if es.len() == 0 {
        0
    } else {
        key_bytes(es.drop_last()) + es.last().0.len()
    }
}

/// The blobs of `blobs` from `start` on are the encodings of the nodes of
/// `store`, each under the identifier `f` gave its bytes, and every node of
/// `store` is among them.
pub open spec fn holds_blobs<F: Fn(&Vec<u8>) -> ShardedMapNodeId>(
    f: F,
    store: Map<ShardedMapNodeId, ShardedMapNode<ContentManifestEntry>>,
    blobs: Seq<(ShardedMapNodeId, Vec<u8>)>,
    start: int,
) -> bool {
    &&& forall|i: int|
        start <= i < blobs.len() ==> store.contains_key(#[trigger] blobs[i].0) && node_bytes(
            store[blobs[i].0],
        ) == blobs[i].1@ && f.ensures((&blobs[i].1,), blobs[i].0)
    &&& forall|id: ShardedMapNodeId|
        #[trigger] store.contains_key(id) ==> exists|i: int| start <= i < blobs.len() && blobs[i].0 == id
}

/// Two blobs from `start` on have the same identifier and different bytes.
pub open spec fn collision_in(blobs: Seq<(ShardedMapNodeId, Vec<u8>)>, start: int) -> bool {
    exists|i: int, j: int|
        start <= i < blobs.len() && start <= j < blobs.len() && #[trigger] blobs[i].0 == #[trigger] blobs[j].0
            && blobs[i].1@ != blobs[j].1@
}

proof fn lemma_key_bytes_append<V>(a: Seq<(Seq<u8>, V)>, b: Seq<(Seq<u8>, V)>)
    ensures
        key_bytes(a + b) == key_bytes(a) + key_bytes(b),
    decreases b.len(),
{
    if b.len() == 0 {
        assert(a + b =~= a);
    } else {
        assert((a + b).drop_last() =~= a + b.drop_last());
        lemma_key_bytes_append(a, b.drop_last());
    }
}

proof fn lemma_key_bytes_prefixed<V>(c: u8, g: Seq<(Seq<u8>, V)>)
    ensures
        key_bytes(prefixed(c, g)) == key_bytes(g) + g.len(),
    decreases g.len(),
{
    if g.len() > 0 {
        assert(prefixed(c, g).drop_last() =~= prefixed(c, g.drop_last()));
        lemma_key_bytes_prefixed(c, g.drop_last());
    }
}

proof fn lemma_key_bytes_group<V>(gs: Seq<(u8, Seq<(Seq<u8>, V)>)>, j: int)
    requires
        0 <= j < gs.len(),
    ensures
        key_bytes(flatten_groups(gs)) >= key_bytes(gs[j].1) + gs[j].1.len(),
    decreases gs.len(),
{
    let init = gs.drop_last();
    lemma_key_bytes_append(flatten_groups(init), prefixed(gs.last().0, gs.last().1));
    lemma_key_bytes_prefixed(gs.last().0, gs.last().1);
    if j < gs.len() - 1 {
        assert(init[j] == gs[j]);
        lemma_key_bytes_group(init, j);
    }
}

/// Each group of a split has fewer key bytes than the entries split.
proof fn lemma_group_smaller<V>(
    es: Seq<(Seq<u8>, V)>,
    value: Option<V>,
    gs: Seq<(u8, Seq<(Seq<u8>, V)>)>,
    j: int,
)
    requires
        is_split_of(es, value, gs),
        0 <= j < gs.len(),
    ensures
        key_bytes(gs[j].1) < key_bytes(es),
{
    lemma_key_bytes_group(gs, j);
    if es.len() > 0 && es[0].0.len() == 0 {
        assert(es =~= seq![es[0]] + es.drop_first());
        lemma_key_bytes_append(seq![es[0]], es.drop_first());
    }
}

/// A tree stays the tree built from the same entries in a larger store and
/// under a larger depth bound.
pub proof fn lemma_represents_mono<V>(
    s1: Map<ShardedMapNodeId, ShardedMapNode<V>>,
    s2: Map<ShardedMapNodeId, ShardedMapNode<V>>,
    n: ShardedMapNode<V>,
    es: Seq<(Seq<u8>, V)>,
    d1: nat,
    d2: nat,
)
    requires
        represents(s1, n, es, d1),
        s1.submap_of(s2),
        d1 <= d2,
    ensures
        represents(s2, n, es, d2),
    decreases d1,
{
    if let ShardedMapNode::Sharded { value, children } = n {
        let gs = choose|gs: Seq<(u8, Seq<(Seq<u8>, V)>)>|
            #[trigger] is_split_of(es, value, gs) && children_represent(s1, children@, gs, (d1 - 1) as nat);
        assert forall|j: int| 0 <= j < gs.len() implies represents(
            s2,
            s2[(#[trigger] children@[j]).id],
            gs[j].1,
            (d2 - 1) as nat,
        ) by {
            assert(s1.contains_key(children@[j].id));
            assert(s2.dom().contains(children@[j].id));
            assert(s2[children@[j].id] == s1[children@[j].id]);
            lemma_represents_mono(s1, s2, s1[children@[j].id], gs[j].1, (d1 - 1) as nat, (d2 - 1) as nat);
        }
        assert(children_represent(s2, children@, gs, (d2 - 1) as nat));
    }
}

proof fn lemma_submap_trans<K, W>(a: Map<K, W>, b: Map<K, W>, c: Map<K, W>)
    requires
        a.submap_of(b),
        b.submap_of(c),
    ensures
        a.submap_of(c),
{
    assert forall|k: K| #[trigger] a.dom().contains(k) implies c.dom().contains(k) && a[k] == c[k] by {
        assert(b.dom().contains(k));
        assert(c.dom().contains(k));
    }
}

/// Nodes holding the same contents are the trees of the same entries.
proof fn lemma_represents_same_node(
    s: Map<ShardedMapNodeId, ShardedMapNode<ContentManifestEntry>>,
    a: ShardedMapNode<ContentManifestEntry>,
    b: ShardedMapNode<ContentManifestEntry>,
    es: Seq<(Seq<u8>, ContentManifestEntry)>,
    d: nat,
)
    requires
        represents(s, a, es, d),
        same_node(a, b),
    ensures
        represents(s, b, es, d),
{
    if let ShardedMapNode::Sharded { value, children } = b {
        let ca = a->Sharded_children;
        let gs = choose|gs: Seq<(u8, Seq<(Seq<u8>, ContentManifestEntry)>)>|
            #[trigger] is_split_of(es, value, gs) && children_represent(s, ca@, gs, (d - 1) as nat);
        assert(children_represent(s, children@, gs, (d - 1) as nat));
    }
}

/// Every node of `store` is under the identifier `f` gives its encoding.
pub open spec fn named_by<F: Fn(&Vec<u8>) -> ShardedMapNodeId>(
    f: F,
    store: Map<ShardedMapNodeId, ShardedMapNode<ContentManifestEntry>>,
) -> bool {
    forall|id: ShardedMapNodeId|
        #[trigger] store.contains_key(id) ==> exists|v: Vec<u8>|
            v@ == node_bytes(store[id]) && #[trigger] f.ensures((&v,), id)
}

/// `f` gives equal bytes equal identifiers.
pub open spec fn deterministic<F: Fn(&Vec<u8>) -> ShardedMapNodeId>(f: F) -> bool {
    forall|a: Vec<u8>, b: Vec<u8>, x: ShardedMapNodeId, y: ShardedMapNodeId|
        #[trigger] f.ensures((&a,), x) && #[trigger] f.ensures((&b,), y) && a@ == b@ ==> x == y
}

/// The shards of blobs a build appended are named by the function used.
pub proof fn lemma_blobs_named<F: Fn(&Vec<u8>) -> ShardedMapNodeId>(
    f: F,
    store: Map<ShardedMapNodeId, ShardedMapNode<ContentManifestEntry>>,
    blobs: Seq<(ShardedMapNodeId, Vec<u8>)>,
    start: int,
)
    requires
        holds_blobs(f, store, blobs, start),
    ensures
        named_by(f, store),
{
    assert forall|id: ShardedMapNodeId| #[trigger] store.contains_key(id) implies exists|v: Vec<u8>|
        v@ == node_bytes(store[id]) && #[trigger] f.ensures((&v,), id) by {
        let i = choose|i: int| start <= i < blobs.len() && blobs[i].0 == id;
        assert(store.contains_key(blobs[i].0));
        let v = blobs[i].1;
        assert(v@ == node_bytes(store[id]) && f.ensures((&v,), id));
    }
}

/// Content-address determinism: two trees built from sorted entries that
/// hold the same key-to-value map, each with its shards named by the same
/// deterministic function of their bytes, have byte-identical roots, and so
/// the same identifier, however they were arrived at.
pub proof fn lemma_same_map_same_root<F: Fn(&Vec<u8>) -> ShardedMapNodeId>(
    f: F,
    s1: Map<ShardedMapNodeId, ShardedMapNode<ContentManifestEntry>>,
    s2: Map<ShardedMapNodeId, ShardedMapNode<ContentManifestEntry>>,
    n1: ShardedMapNode<ContentManifestEntry>,
    n2: ShardedMapNode<ContentManifestEntry>,
    es1: Seq<(Seq<u8>, ContentManifestEntry)>,
    es2: Seq<(Seq<u8>, ContentManifestEntry)>,
    d1: nat,
    d2: nat,
)
    requires
        deterministic(f),
        named_by(f, s1),
        named_by(f, s2),
        represents(s1, n1, es1, d1),
        represents(s2, n2, es2, d2),
        forall|k: Seq<u8>| #[trigger] find(es1, k) == find(es2, k),
    ensures
        node_bytes(n1) == node_bytes(n2),
    decreases d1,
{
    lemma_sorted_unique(es1, es2);
    let es = es1;
    match (n1, n2) {
        (ShardedMapNode::Direct { entries: x }, ShardedMapNode::Direct { entries: y }) => {
            assert(entries_view(x@).len() == x@.len());
            assert(entries_view(y@).len() == y@.len());
        },
        (
            ShardedMapNode::Sharded { value: v1, children: c1 },
            ShardedMapNode::Sharded { value: v2, children: c2 },
        ) => {
            let g1 = choose|gs: Seq<(u8, Seq<(Seq<u8>, ContentManifestEntry)>)>|
                #[trigger] is_split_of(es, v1, gs) && children_represent(s1, c1@, gs, (d1 - 1) as nat);
            let g2 = choose|gs: Seq<(u8, Seq<(Seq<u8>, ContentManifestEntry)>)>|
                #[trigger] is_split_of(es, v2, gs) && children_represent(s2, c2@, gs, (d2 - 1) as nat);
            lemma_split_unique(es, v1, g1, v2, g2);
            assert forall|j: int| 0 <= j < c1@.len() implies #[trigger] c1@[j] == c2@[j] by {
                let (a, b) = (c1@[j], c2@[j]);
                assert(c2@[j] == b);
                lemma_same_map_same_root(
                    f,
                    s1,
                    s2,
                    s1[a.id],
                    s2[b.id],
                    g1[j].1,
                    g1[j].1,
                    (d1 - 1) as nat,
                    (d2 - 1) as nat,
                );
                let va = choose|v: Vec<u8>| v@ == node_bytes(s1[a.id]) && #[trigger] f.ensures((&v,), a.id);
                let vb = choose|v: Vec<u8>| v@ == node_bytes(s2[b.id]) && #[trigger] f.ensures((&v,), b.id);
                assert(f.ensures((&va,), a.id) && f.ensures((&vb,), b.id) && va@ == vb@);
            }
            assert(c1@ =~= c2@);
        },
        _ => {},
    }
}

/// The position of a blob with identifier `id` from `start` on, if any.
fn find_blob(blobs: &Vec<(ShardedMapNodeId, Vec<u8>)>, start: usize, id: &ShardedMapNodeId) -> (r: Option<usize>)
    requires
        start <= blobs@.len(),
    ensures
        r matches Some(i) ==> start <= i < blobs@.len() && blobs@[i as int].0 == *id,
        r is None ==> forall|k: int| start <= k < blobs@.len() ==> blobs@[k].0 != *id,
{
    let mut i: usize = start;
    while i < blobs.len()
        invariant
            start <= i <= blobs@.len(),
            forall|k: int| start <= k < i ==> blobs@[k].0 != *id,
        decreases blobs@.len() - i,
    {
        if bytes_eq(blobs[i].0.0.as_slice(), id.0.as_slice()) {
            assert(blobs@[i as int].0.0 == id.0);
            return Some(i);
        }
        i = i + 1;
    }
    None
}

fn build_inner<F: Fn(&Vec<u8>) -> ShardedMapNodeId>(
    entries: Vec<(Vec<u8>, ContentManifestEntry)>,
    f: &F,
    blobs: &mut Vec<(ShardedMapNodeId, Vec<u8>)>,
    start: usize,
    Ghost(store): Ghost<Map<ShardedMapNodeId, ShardedMapNode<ContentManifestEntry>>>,
) -> (r: Result<
    (ShardedMapNode<ContentManifestEntry>, Ghost<Map<ShardedMapNodeId, ShardedMapNode<ContentManifestEntry>>>),
    BuildError,
>)
    requires
        sorted_keys(entries_view(entries@)),
        forall|b: &Vec<u8>| f.requires((b,)),
        start <= old(blobs)@.len(),
        holds_blobs(*f, store, old(blobs)@, start as int),
    ensures
        old(blobs)@.len() <= final(blobs)@.len(),
        final(blobs)@.subrange(0, old(blobs)@.len() as int) == old(blobs)@,
        r matches Ok((n, s)) ==> n.wf() && store.submap_of(s@) && holds_blobs(*f, s@, final(blobs)@, start as int)
            && exists|d: nat| represents(s@, n, entries_view(entries@), d),
        r is Err ==> collision_in(final(blobs)@, start as int),
    decreases key_bytes(entries_view(entries@)),
{
    let ghost es = entries_view(entries@);
    match build_step(entries) {
        BuildStep::Node(n) => {
            assert(represents(store, n, es, 0));
            assert(blobs@.subrange(0, blobs@.len() as int) =~= blobs@);
            Ok((n, Ghost(store)))
        },
        BuildStep::Split { value, groups } => {
            let ghost gsv = groups_view(groups@);
            let ghost old_blobs = blobs@;
            let ghost mut st = store;
            let ghost mut dmax: nat = 0;
            let mut children: Vec<ShardChild> = Vec::new();
            assert(groups@.len() == groups.len());
            let mut rest = groups;
            let mut j: usize = 0;
            while rest.len() > 0
                invariant
                    es == entries_view(entries@),
                    old_blobs == old(blobs)@,
                    is_split_of(es, value, gsv),
                    sorted_keys(es),
                    es.len() > WEIGHT_LIMIT,
                    forall|b: &Vec<u8>| f.requires((b,)),
                    j <= gsv.len(),
                    gsv.len() <= usize::MAX,
                    j + rest@.len() == gsv.len(),
                    groups_view(rest@) == gsv.subrange(j as int, gsv.len() as int),
                    children@.len() == j,
                    start <= old_blobs.len() <= blobs@.len(),
                    blobs@.subrange(0, old_blobs.len() as int) == old_blobs,
                    store.submap_of(st),
                    holds_blobs(*f, st, blobs@, start as int),
                    forall|k: int|
                        0 <= k < j ==> (#[trigger] children@[k]).byte == gsv[k].0 && children@[k].weight
                            == gsv[k].1.len() && st.contains_key(children@[k].id) && represents(
                            st,
                            st[children@[k].id],
                            gsv[k].1,
                            dmax,
                        ),
                decreases rest@.len(),
            {
                let ghost rest0 = rest@;
                let g = rest.remove(0);
                assert(g == rest0[0]);
                assert(groups_view(rest0).len() == rest0.len());
                assert(gsv.subrange(j as int, gsv.len() as int)[0] == gsv[j as int]);
                assert(groups_view(rest0)[0] == gsv[j as int]);
                assert(rest@ =~= rest0.drop_first());
                assert(groups_view(rest@) =~= groups_view(rest0).drop_first());
                assert(groups_view(rest@) =~= gsv.subrange(j + 1, gsv.len() as int));
                let (byte, group) = g;
                proof {
                    lemma_group_smaller(es, value, gsv, j as int);
                    assert(entries_view(group@) == gsv[j as int].1);
                    assert(byte == gsv[j as int].0);
                }
                let weight = group.len() as u64;
                let ghost blobs0 = blobs@;
                let ghost st0 = st;
                let res = build_inner(group, f, blobs, start, Ghost(st));
                let (child, Ghost(st2)) = match res {
                    Ok(x) => x,
                    Err(e) => {
                        proof {
                            assert(blobs@.subrange(0, old_blobs.len() as int) =~= blobs0.subrange(0, old_blobs.len() as int));
                        }
                        return Err(e);
                    },
                };
                let ghost dc = choose|d: nat| represents(st2, child, gsv[j as int].1, d);
                proof {
                    assert(blobs@.subrange(0, old_blobs.len() as int) =~= blobs0.subrange(0, old_blobs.len() as int));
                }
                let bytes = encode_node(&child);
                let id = f(&bytes);
                match find_blob(blobs, start, &id) {
                    Some(i) => {
                        if bytes_eq(blobs[i].1.as_slice(), bytes.as_slice()) {
                            let ghost other = st2[id];
                            // Decoding the shared bytes shows that the stored node
                            // and this one hold the same contents.
                            let _decoded = decode_node(bytes.as_slice());
                            proof {
                                assert(node_bytes(other) == bytes@);
                                assert(node_bytes(child) == bytes@);
                                lemma_represents_same_node(st2, child, other, gsv[j as int].1, dc);
                                st = st2;
                            }
                        } else {
                            let ghost blobs1 = blobs@;
                            blobs.push((id, bytes));
                            proof {
                                assert(blobs@[i as int] == blobs1[i as int]);
                                assert(blobs@.subrange(0, old_blobs.len() as int) =~= blobs1.subrange(0, old_blobs.len() as int));
                                let last = blobs@.len() - 1;
                                assert(blobs@[last].0 == blobs@[i as int].0);
                            }
                            return Err(BuildError::IdCollision);
                        }
                    },
                    None => {
                        let ghost blobs1 = blobs@;
                        let ghost stored = child;
                        blobs.push((id, bytes));
                        proof {
                            assert(!st2.contains_key(id));
                            let st3 = st2.insert(id, stored);
                            assert(blobs@.subrange(0, old_blobs.len() as int) =~= blobs1.subrange(0, old_blobs.len() as int));
                            assert forall|i: int| start <= i < blobs@.len() implies st3.contains_key(#[trigger] blobs@[i].0) && node_bytes(
                                st3[blobs@[i].0],
                            ) == blobs@[i].1@ && f.ensures((&blobs@[i].1,), blobs@[i].0) by {
                                if i < blobs1.len() {
                                    assert(blobs@[i] == blobs1[i]);
                                }
                            }
                            assert forall|x: ShardedMapNodeId| #[trigger] st3.contains_key(x) implies exists|i: int| start <= i < blobs@.len() && blobs@[i].0 == x by {
                                if x == id {
                                    assert(blobs@[blobs@.len() - 1].0 == x);
                                } else {
                                    let i = choose|i: int| start <= i < blobs1.len() && blobs1[i].0 == x;
                                    assert(blobs@[i] == blobs1[i]);
                                }
                            }
                            lemma_represents_mono(st2, st3, child, gsv[j as int].1, dc, dc);
                            lemma_submap_trans(st0, st2, st3);
                            st = st3;
                        }
                    },
                }
                proof {
                    lemma_submap_trans(store, st0, st);
                    let dn = if dc > dmax { dc } else { dmax };
                    assert forall|k: int| 0 <= k < j implies represents(st, st[(#[trigger] children@[k]).id], gsv[k].1, dn) by {
                        lemma_represents_mono(st0, st, st0[children@[k].id], gsv[k].1, dmax, dn);
                    }
                    lemma_represents_mono(st, st, st[id], gsv[j as int].1, dc, dn);
                    dmax = dn;
                }
                let c = ShardChild { byte, id, weight };
                children.push(c);
                j = j + 1;
            }
            proof {
                assert(gsv.subrange(j as int, gsv.len() as int).len() == 0);
                assert(children_represent(st, children@, gsv, dmax));
                assert(represents(st, ShardedMapNode::Sharded { value, children }, es, dmax + 1));
            }
            let node = ShardedMapNode::sharded(value, children);
            Ok((node, Ghost(st)))
        },
    }
}

/// Builds the map of the sorted `entries` bottom-up: each child shard is
/// encoded, named by `id_from_data` from its bytes, and appended to
/// `blobs`; the root is returned with the ghost store of all shards. The
/// result is the canonical tree of the entries, and every shard stands in
/// the new blobs with its exact encoding. Fails only where two different
/// shards got the same identifier, both then in the new blobs.
pub fn build_nodes<F: Fn(&Vec<u8>) -> ShardedMapNodeId>(
    entries: Vec<(Vec<u8>, ContentManifestEntry)>,
    id_from_data: &F,
    blobs: &mut Vec<(ShardedMapNodeId, Vec<u8>)>,
) -> (r: Result<
    (ShardedMapNode<ContentManifestEntry>, Ghost<Map<ShardedMapNodeId, ShardedMapNode<ContentManifestEntry>>>),
    BuildError,
>)
    requires
        sorted_keys(entries_view(entries@)),
        forall|b: &Vec<u8>| id_from_data.requires((b,)),
    ensures
        old(blobs)@.len() <= final(blobs)@.len(),
        final(blobs)@.subrange(0, old(blobs)@.len() as int) == old(blobs)@,
        r matches Ok((n, s)) ==> n.wf() && holds_blobs(*id_from_data, s@, final(blobs)@, old(blobs)@.len() as int)
            && exists|d: nat| represents(s@, n, entries_view(entries@), d),
        r is Err ==> collision_in(final(blobs)@, old(blobs)@.len() as int),
{
    let start = blobs.len();
    let ghost empty = Map::<ShardedMapNodeId, ShardedMapNode<ContentManifestEntry>>::empty();
    build_inner(entries, id_from_data, blobs, start, Ghost(empty))
}

} // verus!
