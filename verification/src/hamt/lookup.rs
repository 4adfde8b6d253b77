//! What a lookup in a trie finds, given what the block store holds, and the
//! invariant of a trie held in memory.

use super::codec::node_decoding;
use super::hash::{
    begins_with, depth_limit, hashed, key_hash, key_route, lemma_route_slot, Config,
};
use super::model::{
    empty_node, lemma_pairs_insert, node_ok, pairs_get, pairs_has, pairs_sorted, Failure,
    NodeModel, Pair, PointerModel,
};
use vstd::prelude::*;

verus! {

/// What a block store holds: blocks under the bytes of their identifiers.
pub type Blocks = Map<Seq<u8>, Seq<u8>>;

/// Whether a node holds only buckets and links, as a node does that has
/// just been read.
pub open spec fn node_flat(n: NodeModel) -> bool {
    forall|i: int|
        0 <= i < n.slots.len() ==> !(#[trigger] n.slots[i] matches Some(
            PointerModel::Resolved(_, _),
        ))
}

/// The node that the store holds under `cid`, as the child at the end of
/// `way`: the block must be there, decode to a node, and the node must be
/// well formed for that place.
pub open spec fn loaded(blocks: Blocks, cid: Seq<u8>, conf: Config, way: Seq<nat>) -> Result<
    NodeModel,
    Failure,
> {
    if !blocks.contains_key(cid) {
        Err(Failure::CidNotFound(cid))
    } else {
        match node_decoding(blocks[cid], conf.width()) {
            Some(n) => if node_ok(n, conf, way) && node_flat(n) {
                Ok(n)
            } else {
                Err(Failure::Malformed(cid))
            },
            None => Err(Failure::Malformed(cid)),
        }
    }
}

/// What a lookup of `key`, whose hash selects the slots `route`, finds in
/// the node `n` at `depth`: the value, nothing, or the failure that ends it.
pub open spec fn node_get(
    n: NodeModel,
    blocks: Blocks,
    conf: Config,
    route: Seq<nat>,
    key: Seq<u8>,
    depth: nat,
) -> Result<Option<Seq<u8>>, Failure>
    decreases route.len() - depth,
{
    if depth >= route.len() {
        Err(Failure::MaxDepth)
    } else if route[depth as int] >= n.slots.len() {
        Ok(None)
    } else {
        match n.slots[route[depth as int] as int] {
            None => Ok(None),
            Some(PointerModel::Values(pairs)) => Ok(pairs_get(pairs, key)),
            Some(PointerModel::Link(cid)) => match loaded(
                blocks,
                cid,
                conf,
                route.take(depth + 1 as int),
            ) {
                Ok(child) => node_get(child, blocks, conf, route, key, depth + 1),
                Err(f) => Err(f),
            },
            Some(PointerModel::Resolved(child, _)) => node_get(
                *child,
                blocks,
                conf,
                route,
                key,
                depth + 1,
            ),
        }
    }
}

/// What a lookup of `key` finds in the node at the end of `way`.
pub open spec fn find(n: NodeModel, blocks: Blocks, conf: Config, way: Seq<nat>, key: Seq<u8>)
    -> Result<Option<Seq<u8>>, Failure> {
    node_get(n, blocks, conf, key_route(key, conf.bit_width as nat), key, way.len())
}

/// Whether `key` is one that a lookup from the root can bring to the node at
/// the end of `way`.
pub open spec fn reaches(key: Seq<u8>, conf: Config, way: Seq<nat>) -> bool {
    hashed(key) && begins_with(key_route(key, conf.bit_width as nat), way)
}

/// Every lookup that reaches the node finds in `b` what it finds in `a`.
pub open spec fn same_lookups(
    a: NodeModel,
    b: NodeModel,
    blocks: Blocks,
    conf: Config,
    way: Seq<nat>,
) -> bool {
    forall|k: Seq<u8>|
        reaches(k, conf, way) ==> #[trigger] find(b, blocks, conf, way, k) == find(
            a,
            blocks,
            conf,
            way,
            k,
        )
}

/// Every lookup that reaches the node finds in `b` what it finds in `a`,
/// but for `key`, for which it finds `now`.
pub open spec fn lookups_changed(
    a: NodeModel,
    b: NodeModel,
    blocks: Blocks,
    conf: Config,
    way: Seq<nat>,
    key: Seq<u8>,
    now: Option<Seq<u8>>,
) -> bool {
    forall|k: Seq<u8>|
        reaches(k, conf, way) ==> #[trigger] find(b, blocks, conf, way, k) == if k == key {
            Ok(now)
        } else {
            find(a, blocks, conf, way, k)
        }
}

/// The pointer as it is written: a child that the store holds becomes the
/// link to it.
pub open spec fn flatten_slot(slot: Option<PointerModel>) -> Option<PointerModel> {
    match slot {
        Some(PointerModel::Resolved(_, Some(cid))) => Some(PointerModel::Link(cid)),
        other => other,
    }
}

/// The node as it is written: each child that the store holds becomes the
/// link to it.
pub open spec fn flatten(n: NodeModel) -> NodeModel {
    NodeModel { slots: Seq::new(n.slots.len(), |i: int| flatten_slot(n.slots[i])) }
}

/// Whether no child of the node is dirty.
pub open spec fn node_clean(n: NodeModel) -> bool {
    forall|i: int|
        0 <= i < n.slots.len() ==> !(#[trigger] n.slots[i] matches Some(
            PointerModel::Resolved(_, None),
        ))
}

/// Whether the children held in memory agree with the store: a child with an
/// identifier has no dirty child and is what the store holds under that
/// identifier, and so on below.
pub open spec fn synced(n: NodeModel, blocks: Blocks, conf: Config, way: Seq<nat>) -> bool
    decreases n,
{
    forall|i: int|
        0 <= i < n.slots.len() ==> match #[trigger] n.slots[i] {
            Some(PointerModel::Resolved(child, stored)) => synced(
                *child,
                blocks,
                conf,
                way.push(i as nat),
            ) && (stored matches Some(cid) ==> node_clean(*child) && loaded(
                blocks,
                cid,
                conf,
                way.push(i as nat),
            ) == Ok::<NodeModel, Failure>(flatten(*child))),
            _ => true,
        }
}

/// The invariant of a node held in memory at the end of `way`.
pub open spec fn node_inv(n: NodeModel, blocks: Blocks, conf: Config, way: Seq<nat>) -> bool {
    node_ok(n, conf, way) && synced(n, blocks, conf, way)
}

/// A key that reaches a node reaches the child in the slot that it selects.
pub proof fn lemma_reaches_child(key: Seq<u8>, conf: Config, way: Seq<nat>)
    requires
        reaches(key, conf, way),
        way.len() < key_route(key, conf.bit_width as nat).len(),
    ensures
        reaches(key, conf, way.push(key_route(key, conf.bit_width as nat)[way.len() as int])),
        key_route(key, conf.bit_width as nat).take(way.len() + 1 as int) == way.push(
            key_route(key, conf.bit_width as nat)[way.len() as int],
        ),
{
    let route = key_route(key, conf.bit_width as nat);
    assert(route.take(way.len() + 1 as int) =~= route.take(way.len() as int).push(
        route[way.len() as int],
    ));
}

/// A key that reaches a child reached its parent by the child's slot.
pub proof fn lemma_reaches_parent(key: Seq<u8>, conf: Config, way: Seq<nat>, slot: nat)
    requires
        reaches(key, conf, way.push(slot)),
    ensures
        reaches(key, conf, way),
        key_route(key, conf.bit_width as nat)[way.len() as int] == slot,
{
    let route = key_route(key, conf.bit_width as nat);
    let longer = way.push(slot);
    assert(route.take(longer.len() as int)[way.len() as int] == slot);
    assert(route.take(way.len() as int) =~= route.take(longer.len() as int).take(
        way.len() as int,
    ));
    assert(longer.take(way.len() as int) =~= way);
}

/// What the invariant asks of the pointer in one slot, `way` being the way
/// to that slot.
pub open spec fn pointer_inv(p: PointerModel, blocks: Blocks, conf: Config, way: Seq<nat>) -> bool {
    match p {
        PointerModel::Values(pairs) => super::model::bucket_ok(pairs, conf, way),
        PointerModel::Link(cid) => crate::cid::is_cid(cid),
        PointerModel::Resolved(child, stored) => node_inv(*child, blocks, conf, way) && (
        stored matches Some(cid) ==> crate::cid::is_cid(cid) && node_clean(*child) && loaded(
            blocks,
            cid,
            conf,
            way,
        ) == Ok::<NodeModel, Failure>(flatten(*child))),
    }
}

/// The invariant of a node is that it has the right number of slots and
/// that the pointer in each occupied slot meets its part.
pub proof fn lemma_node_inv(n: NodeModel, blocks: Blocks, conf: Config, way: Seq<nat>)
    ensures
        node_inv(n, blocks, conf, way) <==> (way.len() < depth_limit(conf.bit_width as nat)
            && n.slots.len() == conf.width() && forall|i: int|
            0 <= i < n.slots.len() ==> (#[trigger] n.slots[i] matches Some(p) ==> pointer_inv(
                p,
                blocks,
                conf,
                way.push(i as nat),
            ))),
{
    if node_inv(n, blocks, conf, way) {
        assert forall|i: int| 0 <= i < n.slots.len() implies (#[trigger] n.slots[i] matches Some(
            p,
        ) ==> pointer_inv(p, blocks, conf, way.push(i as nat))) by {}
    }
    if way.len() < depth_limit(conf.bit_width as nat) && n.slots.len() == conf.width()
        && forall|i: int|
        0 <= i < n.slots.len() ==> (#[trigger] n.slots[i] matches Some(p) ==> pointer_inv(
            p,
            blocks,
            conf,
            way.push(i as nat),
        )) {
        assert forall|i: int| 0 <= i < n.slots.len() implies match #[trigger] n.slots[i] {
            None => true,
            Some(PointerModel::Values(pairs)) => super::model::bucket_ok(
                pairs,
                conf,
                way.push(i as nat),
            ),
            Some(PointerModel::Link(cid)) => crate::cid::is_cid(cid),
            Some(PointerModel::Resolved(child, stored)) => node_ok(
                *child,
                conf,
                way.push(i as nat),
            ) && (stored matches Some(cid) ==> crate::cid::is_cid(cid)),
        } by {
            if n.slots[i] is Some {
                assert(pointer_inv(n.slots[i]->Some_0, blocks, conf, way.push(i as nat)));
            }
        }
        assert forall|i: int| 0 <= i < n.slots.len() implies match #[trigger] n.slots[i] {
            Some(PointerModel::Resolved(child, stored)) => synced(
                *child,
                blocks,
                conf,
                way.push(i as nat),
            ) && (stored matches Some(cid) ==> node_clean(*child) && loaded(
                blocks,
                cid,
                conf,
                way.push(i as nat),
            ) == Ok::<NodeModel, Failure>(flatten(*child))),
            _ => true,
        } by {
            if n.slots[i] is Some {
                assert(pointer_inv(n.slots[i]->Some_0, blocks, conf, way.push(i as nat)));
            }
        }
    }
}

/// A node that differs from one with the invariant in one slot, which is
/// empty or holds a pointer that meets its part, has the invariant too.
pub proof fn lemma_node_inv_update(
    a: NodeModel,
    b: NodeModel,
    blocks: Blocks,
    conf: Config,
    way: Seq<nat>,
    slot: int,
)
    requires
        node_inv(a, blocks, conf, way),
        0 <= slot < a.slots.len(),
        b.slots.len() == a.slots.len(),
        forall|j: int| 0 <= j < a.slots.len() && j != slot ==> b.slots[j] == a.slots[j],
        b.slots[slot] matches Some(p) ==> pointer_inv(p, blocks, conf, way.push(slot as nat)),
    ensures
        node_inv(b, blocks, conf, way),
{
    lemma_node_inv(a, blocks, conf, way);
    lemma_node_inv(b, blocks, conf, way);
    assert forall|i: int| 0 <= i < b.slots.len() implies (#[trigger] b.slots[i] matches Some(p)
        ==> pointer_inv(p, blocks, conf, way.push(i as nat))) by {
        if i != slot {
            assert(b.slots[i] == a.slots[i]);
        }
    }
}

/// A flat node is clean, agrees with the store, and is its own written form.
pub proof fn lemma_flat_node(n: NodeModel, blocks: Blocks, conf: Config, way: Seq<nat>)
    requires
        node_flat(n),
    ensures
        node_clean(n),
        synced(n, blocks, conf, way),
        flatten(n) == n,
{
    assert(flatten(n).slots =~= n.slots);
}

/// Two nodes that differ in one slot, where both hold children in memory with
/// the same lookups, have the same lookups.
pub proof fn lemma_same_lookups_child(
    a: NodeModel,
    b: NodeModel,
    blocks: Blocks,
    conf: Config,
    way: Seq<nat>,
    slot: int,
)
    requires
        0 <= slot < a.slots.len(),
        b.slots.len() == a.slots.len(),
        forall|j: int| 0 <= j < a.slots.len() && j != slot ==> b.slots[j] == a.slots[j],
        a.slots[slot] matches Some(PointerModel::Resolved(ca, _)) && b.slots[slot] matches Some(
            PointerModel::Resolved(cb, _),
        ) && same_lookups(*ca, *cb, blocks, conf, way.push(slot as nat)),
    ensures
        same_lookups(a, b, blocks, conf, way),
{
    let ca = a.slots[slot]->Some_0->Resolved_0;
    let cb = b.slots[slot]->Some_0->Resolved_0;
    assert forall|k: Seq<u8>| reaches(k, conf, way) implies #[trigger] find(
        b,
        blocks,
        conf,
        way,
        k,
    ) == find(a, blocks, conf, way, k) by {
        let rt = key_route(k, conf.bit_width as nat);
        if way.len() < rt.len() {
            let s = rt[way.len() as int];
            if s == slot {
                lemma_reaches_child(k, conf, way);
                assert(find(*cb, blocks, conf, way.push(slot as nat), k) == find(
                    *ca,
                    blocks,
                    conf,
                    way.push(slot as nat),
                    k,
                ));
            } else if s < a.slots.len() {
                assert(b.slots[s as int] == a.slots[s as int]);
            }
        }
    }
}

/// A node in which a link has given way to the child that the store holds
/// under it has the same lookups.
pub proof fn lemma_same_lookups_resolved(
    a: NodeModel,
    b: NodeModel,
    blocks: Blocks,
    conf: Config,
    way: Seq<nat>,
    slot: int,
)
    requires
        0 <= slot < a.slots.len(),
        b.slots.len() == a.slots.len(),
        forall|j: int| 0 <= j < a.slots.len() && j != slot ==> b.slots[j] == a.slots[j],
        a.slots[slot] matches Some(PointerModel::Link(cid)) && b.slots[slot] matches Some(
            PointerModel::Resolved(child, _),
        ) && loaded(blocks, cid, conf, way.push(slot as nat)) == Ok::<NodeModel, Failure>(*child),
    ensures
        same_lookups(a, b, blocks, conf, way),
{
    assert forall|k: Seq<u8>| reaches(k, conf, way) implies #[trigger] find(
        b,
        blocks,
        conf,
        way,
        k,
    ) == find(a, blocks, conf, way, k) by {
        let rt = key_route(k, conf.bit_width as nat);
        if way.len() < rt.len() {
            let s = rt[way.len() as int];
            if s == slot {
                lemma_reaches_child(k, conf, way);
            } else if s < a.slots.len() {
                assert(b.slots[s as int] == a.slots[s as int]);
            }
        }
    }
}

/// Having the same lookups is transitive.
pub proof fn lemma_same_lookups_trans(
    a: NodeModel,
    b: NodeModel,
    c: NodeModel,
    blocks: Blocks,
    conf: Config,
    way: Seq<nat>,
)
    requires
        same_lookups(a, b, blocks, conf, way),
        same_lookups(b, c, blocks, conf, way),
    ensures
        same_lookups(a, c, blocks, conf, way),
{
    assert forall|k: Seq<u8>| reaches(k, conf, way) implies #[trigger] find(
        c,
        blocks,
        conf,
        way,
        k,
    ) == find(a, blocks, conf, way, k) by {
        assert(find(b, blocks, conf, way, k) == find(a, blocks, conf, way, k));
    }
}

/// Every hashed key has a route of the same length.
pub proof fn lemma_route_len(key: Seq<u8>, conf: Config)
    requires
        hashed(key),
    ensures
        key_route(key, conf.bit_width as nat).len() == depth_limit(conf.bit_width as nat),
{
}

/// What a lookup of `key` finds through one slot, `way` being the way to
/// that slot.
pub open spec fn slot_find(
    slot: Option<PointerModel>,
    blocks: Blocks,
    conf: Config,
    way: Seq<nat>,
    key: Seq<u8>,
) -> Result<Option<Seq<u8>>, Failure> {
    match slot {
        None => Ok(None),
        Some(PointerModel::Values(pairs)) => Ok(pairs_get(pairs, key)),
        Some(PointerModel::Link(cid)) => match loaded(blocks, cid, conf, way) {
            Ok(child) => find(child, blocks, conf, way, key),
            Err(f) => Err(f),
        },
        Some(PointerModel::Resolved(child, _)) => find(*child, blocks, conf, way, key),
    }
}

/// A lookup in a node is the lookup through the slot that the key selects.
pub proof fn lemma_find_slot(
    n: NodeModel,
    blocks: Blocks,
    conf: Config,
    way: Seq<nat>,
    key: Seq<u8>,
)
    requires
        reaches(key, conf, way),
        way.len() < depth_limit(conf.bit_width as nat),
        n.slots.len() == conf.width(),
    ensures
        ({
            let slot = key_route(key, conf.bit_width as nat)[way.len() as int];
            &&& reaches(key, conf, way.push(slot))
            &&& slot < n.slots.len() ==> find(n, blocks, conf, way, key) == slot_find(
                n.slots[slot as int],
                blocks,
                conf,
                way.push(slot),
                key,
            )
            &&& slot >= n.slots.len() ==> find(n, blocks, conf, way, key) == Ok::<
                Option<Seq<u8>>,
                Failure,
            >(None)
        }),
{
    lemma_reaches_child(key, conf, way);
}

/// Two nodes that differ in one slot, through which lookups find the same
/// but for `key`, for which they now find `now`: so do lookups in the nodes.
pub proof fn lemma_lift_changed(
    a: NodeModel,
    b: NodeModel,
    blocks: Blocks,
    conf: Config,
    way: Seq<nat>,
    slot: int,
    key: Seq<u8>,
    now: Option<Seq<u8>>,
)
    requires
        way.len() < depth_limit(conf.bit_width as nat),
        a.slots.len() == conf.width(),
        0 <= slot < a.slots.len(),
        b.slots.len() == a.slots.len(),
        forall|j: int| 0 <= j < a.slots.len() && j != slot ==> b.slots[j] == a.slots[j],
        reaches(key, conf, way.push(slot as nat)),
        forall|k: Seq<u8>|
            reaches(k, conf, way.push(slot as nat)) ==> #[trigger] slot_find(
                b.slots[slot],
                blocks,
                conf,
                way.push(slot as nat),
                k,
            ) == if k == key {
                Ok(now)
            } else {
                slot_find(a.slots[slot], blocks, conf, way.push(slot as nat), k)
            },
    ensures
        lookups_changed(a, b, blocks, conf, way, key, now),
{
    assert forall|k: Seq<u8>| reaches(k, conf, way) implies #[trigger] find(
        b,
        blocks,
        conf,
        way,
        k,
    ) == if k == key {
        Ok(now)
    } else {
        find(a, blocks, conf, way, k)
    } by {
        lemma_find_slot(a, blocks, conf, way, k);
        lemma_find_slot(b, blocks, conf, way, k);
        let s = key_route(k, conf.bit_width as nat)[way.len() as int];
        if s == slot {
            assert(slot_find(b.slots[slot], blocks, conf, way.push(slot as nat), k) == if k
                == key {
                Ok(now)
            } else {
                slot_find(a.slots[slot], blocks, conf, way.push(slot as nat), k)
            });
        } else {
            lemma_reaches_parent(key, conf, way, slot as nat);
            if s < a.slots.len() {
                assert(b.slots[s as int] == a.slots[s as int]);
            }
        }
    }
}

/// Two nodes that differ in one slot, through which lookups find the same,
/// have the same lookups.
pub proof fn lemma_lift_same(
    a: NodeModel,
    b: NodeModel,
    blocks: Blocks,
    conf: Config,
    way: Seq<nat>,
    slot: int,
)
    requires
        way.len() < depth_limit(conf.bit_width as nat),
        a.slots.len() == conf.width(),
        0 <= slot < a.slots.len(),
        b.slots.len() == a.slots.len(),
        forall|j: int| 0 <= j < a.slots.len() && j != slot ==> b.slots[j] == a.slots[j],
        forall|k: Seq<u8>|
            reaches(k, conf, way.push(slot as nat)) ==> #[trigger] slot_find(
                b.slots[slot],
                blocks,
                conf,
                way.push(slot as nat),
                k,
            ) == slot_find(a.slots[slot], blocks, conf, way.push(slot as nat), k),
    ensures
        same_lookups(a, b, blocks, conf, way),
{
    assert forall|k: Seq<u8>| reaches(k, conf, way) implies #[trigger] find(
        b,
        blocks,
        conf,
        way,
        k,
    ) == find(a, blocks, conf, way, k) by {
        lemma_find_slot(a, blocks, conf, way, k);
        lemma_find_slot(b, blocks, conf, way, k);
        let s = key_route(k, conf.bit_width as nat)[way.len() as int];
        if s == slot {
            assert(slot_find(b.slots[slot], blocks, conf, way.push(slot as nat), k)
                == slot_find(a.slots[slot], blocks, conf, way.push(slot as nat), k));
        } else if s < a.slots.len() {
            assert(b.slots[s as int] == a.slots[s as int]);
        }
    }
}

/// Lookups that first stay the same and then change for one key have changed
/// for that key.
pub proof fn lemma_same_then_changed(
    a: NodeModel,
    b: NodeModel,
    c: NodeModel,
    blocks: Blocks,
    conf: Config,
    way: Seq<nat>,
    key: Seq<u8>,
    now: Option<Seq<u8>>,
)
    requires
        same_lookups(a, b, blocks, conf, way),
        lookups_changed(b, c, blocks, conf, way, key, now),
    ensures
        lookups_changed(a, c, blocks, conf, way, key, now),
{
    assert forall|k: Seq<u8>| reaches(k, conf, way) implies #[trigger] find(
        c,
        blocks,
        conf,
        way,
        k,
    ) == if k == key {
        Ok(now)
    } else {
        find(a, blocks, conf, way, k)
    } by {
        assert(find(b, blocks, conf, way, k) == find(a, blocks, conf, way, k));
    }
}

/// What stays as it is when a node is only read: its invariant, its lookups
/// and, where it is clean, its written form.
pub open spec fn only_read(
    before: NodeModel,
    after: NodeModel,
    blocks: Blocks,
    conf: Config,
    way: Seq<nat>,
) -> bool {
    &&& node_inv(after, blocks, conf, way)
    &&& after.slots.len() == before.slots.len()
    &&& same_lookups(before, after, blocks, conf, way)
    &&& node_clean(before) ==> node_clean(after) && flatten(after) == flatten(before)
}

/// A node that has not changed has only been read.
pub proof fn lemma_only_read_same(n: NodeModel, blocks: Blocks, conf: Config, way: Seq<nat>)
    requires
        node_inv(n, blocks, conf, way),
    ensures
        only_read(n, n, blocks, conf, way),
{
}

/// A node in which a link has given way to the child that the store holds
/// under it has only been read.
pub proof fn lemma_only_read_resolved(
    a: NodeModel,
    b: NodeModel,
    blocks: Blocks,
    conf: Config,
    way: Seq<nat>,
    slot: int,
)
    requires
        node_inv(a, blocks, conf, way),
        0 <= slot < a.slots.len(),
        b.slots.len() == a.slots.len(),
        forall|j: int| 0 <= j < a.slots.len() && j != slot ==> b.slots[j] == a.slots[j],
        a.slots[slot] matches Some(PointerModel::Link(cid)) && b.slots[slot] matches Some(
            PointerModel::Resolved(child, Some(stored)),
        ) && stored == cid && loaded(blocks, cid, conf, way.push(slot as nat)) == Ok::<
            NodeModel,
            Failure,
        >(*child),
    ensures
        only_read(a, b, blocks, conf, way),
{
    let child = b.slots[slot]->Some_0->Resolved_0;
    lemma_node_inv(a, blocks, conf, way);
    lemma_flat_node(*child, blocks, conf, way.push(slot as nat));
    lemma_node_inv_update(a, b, blocks, conf, way, slot);
    lemma_same_lookups_resolved(a, b, blocks, conf, way, slot);
    if node_clean(a) {
        assert forall|j: int| 0 <= j < b.slots.len() implies !(#[trigger] b.slots[j] matches Some(
            PointerModel::Resolved(_, None),
        )) by {
            if j != slot {
                assert(b.slots[j] == a.slots[j]);
            }
        }
        assert(flatten(b).slots =~= flatten(a).slots);
    }
}

/// A node with a child in memory that has only been read has only been read.
pub proof fn lemma_only_read_child(
    a: NodeModel,
    b: NodeModel,
    blocks: Blocks,
    conf: Config,
    way: Seq<nat>,
    slot: int,
)
    requires
        node_inv(a, blocks, conf, way),
        0 <= slot < a.slots.len(),
        b.slots.len() == a.slots.len(),
        forall|j: int| 0 <= j < a.slots.len() && j != slot ==> b.slots[j] == a.slots[j],
        a.slots[slot] matches Some(PointerModel::Resolved(ca, sa)) && b.slots[slot] matches Some(
            PointerModel::Resolved(cb, sb),
        ) && sa == sb && only_read(*ca, *cb, blocks, conf, way.push(slot as nat)),
    ensures
        only_read(a, b, blocks, conf, way),
{
    lemma_node_inv(a, blocks, conf, way);
    lemma_node_inv_update(a, b, blocks, conf, way, slot);
    lemma_same_lookups_child(a, b, blocks, conf, way, slot);
    if node_clean(a) {
        assert forall|j: int| 0 <= j < b.slots.len() implies !(#[trigger] b.slots[j] matches Some(
            PointerModel::Resolved(_, None),
        )) by {
            if j != slot {
                assert(b.slots[j] == a.slots[j]);
            }
        }
        assert(flatten(b).slots =~= flatten(a).slots);
    }
}

/// Reading twice is reading.
pub proof fn lemma_only_read_trans(
    a: NodeModel,
    b: NodeModel,
    c: NodeModel,
    blocks: Blocks,
    conf: Config,
    way: Seq<nat>,
)
    requires
        only_read(a, b, blocks, conf, way),
        only_read(b, c, blocks, conf, way),
    ensures
        only_read(a, c, blocks, conf, way),
{
    lemma_same_lookups_trans(a, b, c, blocks, conf, way);
}

/// An empty node at a depth within the limit has the invariant, and every
/// lookup in it finds nothing.
pub proof fn lemma_empty_node(blocks: Blocks, conf: Config, way: Seq<nat>)
    requires
        way.len() < depth_limit(conf.bit_width as nat),
    ensures
        node_inv(empty_node(conf), blocks, conf, way),
        node_clean(empty_node(conf)),
        forall|k: Seq<u8>|
            reaches(k, conf, way) ==> #[trigger] find(empty_node(conf), blocks, conf, way, k)
                == Ok::<Option<Seq<u8>>, Failure>(None),
{
    let e = empty_node(conf);
    lemma_node_inv(e, blocks, conf, way);
    assert forall|k: Seq<u8>| reaches(k, conf, way) implies #[trigger] find(
        e,
        blocks,
        conf,
        way,
        k,
    ) == Ok::<Option<Seq<u8>>, Failure>(None) by {
        lemma_find_slot(e, blocks, conf, way, k);
    }
}

/// Whether lookups in `sub` find `value` for `key`, and for every other key
/// what it has among `pairs`.
pub open spec fn holds_bucket_and(
    sub: NodeModel,
    blocks: Blocks,
    conf: Config,
    way: Seq<nat>,
    pairs: Seq<Pair>,
    key: Seq<u8>,
    value: Seq<u8>,
) -> bool {
    forall|k: Seq<u8>|
        reaches(k, conf, way) ==> #[trigger] find(sub, blocks, conf, way, k) == Ok::<
            Option<Seq<u8>>,
            Failure,
        >(
            if k == key {
                Some(value)
            } else {
                pairs_get(pairs, k)
            },
        )
}

/// The first step of moving a bucket down: the new pair in an empty node.
pub proof fn lemma_split_start(
    sub: NodeModel,
    blocks: Blocks,
    conf: Config,
    way: Seq<nat>,
    key: Seq<u8>,
    value: Seq<u8>,
)
    requires
        way.len() < depth_limit(conf.bit_width as nat),
        lookups_changed(empty_node(conf), sub, blocks, conf, way, key, Some(value)),
    ensures
        holds_bucket_and(sub, blocks, conf, way, Seq::<Pair>::empty(), key, value),
{
    lemma_empty_node(blocks, conf, way);
    assert forall|k: Seq<u8>| reaches(k, conf, way) implies #[trigger] find(
        sub,
        blocks,
        conf,
        way,
        k,
    ) == Ok::<Option<Seq<u8>>, Failure>(
        if k == key {
            Some(value)
        } else {
            pairs_get(Seq::<Pair>::empty(), k)
        },
    ) by {
        assert(find(empty_node(conf), blocks, conf, way, k) == Ok::<Option<Seq<u8>>, Failure>(
            None,
        ));
    }
}

/// One more step of moving a bucket down: the next pair of the bucket.
pub proof fn lemma_split_step(
    before: NodeModel,
    after: NodeModel,
    blocks: Blocks,
    conf: Config,
    way: Seq<nat>,
    pairs: Seq<Pair>,
    i: int,
    key: Seq<u8>,
    value: Seq<u8>,
)
    requires
        pairs_sorted(pairs),
        0 <= i < pairs.len(),
        holds_bucket_and(before, blocks, conf, way, pairs.take(i), key, value),
        lookups_changed(before, after, blocks, conf, way, pairs[i].0, Some(pairs[i].1)),
        pairs[i].0 != key,
    ensures
        holds_bucket_and(after, blocks, conf, way, pairs.take(i + 1), key, value),
{
    let shorter = pairs.take(i);
    let longer = pairs.take(i + 1);
    assert(longer =~= shorter.insert(i, pairs[i]));
    assert(pairs_sorted(shorter)) by {
        assert forall|a: int, b: int| 0 <= a < b < shorter.len() implies crate::bytes::bytes_before(
            #[trigger] shorter[a].0,
            #[trigger] shorter[b].0,
        ) by {
            assert(shorter[a] == pairs[a] && shorter[b] == pairs[b]);
        }
    }
    assert forall|j: int| 0 <= j < i implies crate::bytes::bytes_before(
        #[trigger] shorter[j].0,
        pairs[i].0,
    ) by {
        assert(shorter[j] == pairs[j]);
    }
    lemma_pairs_insert(shorter, i, pairs[i]);
    assert forall|k: Seq<u8>| reaches(k, conf, way) implies #[trigger] find(
        after,
        blocks,
        conf,
        way,
        k,
    ) == Ok::<Option<Seq<u8>>, Failure>(
        if k == key {
            Some(value)
        } else {
            pairs_get(longer, k)
        },
    ) by {
        assert(find(before, blocks, conf, way, k) == Ok::<Option<Seq<u8>>, Failure>(
            if k == key {
                Some(value)
            } else {
                pairs_get(shorter, k)
            },
        ));
        assert(pairs_get(longer, k) == if k == pairs[i].0 {
            Some(pairs[i].1)
        } else {
            pairs_get(shorter, k)
        });
    }
}

/// What a pair about to be moved down has in the node so far: nothing.
pub proof fn lemma_split_absent(
    sub: NodeModel,
    blocks: Blocks,
    conf: Config,
    way: Seq<nat>,
    pairs: Seq<Pair>,
    i: int,
    key: Seq<u8>,
    value: Seq<u8>,
)
    requires
        pairs_sorted(pairs),
        0 <= i < pairs.len(),
        holds_bucket_and(sub, blocks, conf, way, pairs.take(i), key, value),
        pairs[i].0 != key,
        reaches(pairs[i].0, conf, way),
    ensures
        find(sub, blocks, conf, way, pairs[i].0) == Ok::<Option<Seq<u8>>, Failure>(None),
{
    let shorter = pairs.take(i);
    if pairs_has(shorter, pairs[i].0) {
        let j = super::model::pairs_index(shorter, pairs[i].0);
        assert(shorter[j] == pairs[j]);
        super::model::lemma_sorted_distinct(pairs, j, i);
    }
}

/// Lookups that first change for one key and then stay the same have changed
/// for that key.
pub proof fn lemma_changed_then_same(
    a: NodeModel,
    b: NodeModel,
    c: NodeModel,
    blocks: Blocks,
    conf: Config,
    way: Seq<nat>,
    key: Seq<u8>,
    now: Option<Seq<u8>>,
)
    requires
        lookups_changed(a, b, blocks, conf, way, key, now),
        same_lookups(b, c, blocks, conf, way),
    ensures
        lookups_changed(a, c, blocks, conf, way, key, now),
{
    assert forall|k: Seq<u8>| reaches(k, conf, way) implies #[trigger] find(
        c,
        blocks,
        conf,
        way,
        k,
    ) == if k == key {
        Ok(now)
    } else {
        find(a, blocks, conf, way, k)
    } by {
        assert(find(c, blocks, conf, way, k) == find(b, blocks, conf, way, k));
    }
}

/// Whether a node holds nothing but buckets.
pub open spec fn node_leafy(n: NodeModel) -> bool {
    forall|i: int|
        0 <= i < n.slots.len() ==> (#[trigger] n.slots[i] matches Some(p) ==> p is Values)
}

/// The value of `key` in the bucket of a slot, where the slot holds one.
pub open spec fn bucket_value(slot: Option<PointerModel>, key: Seq<u8>) -> Option<Seq<u8>> {
    match slot {
        Some(PointerModel::Values(pairs)) => pairs_get(pairs, key),
        _ => None,
    }
}

/// The value of `key` among the buckets in the first `upto` slots of the
/// node at the end of `way`.
pub open spec fn gathered(n: NodeModel, conf: Config, way: Seq<nat>, upto: nat, key: Seq<u8>)
    -> Option<Seq<u8>> {
    if reaches(key, conf, way) && way.len() < key_route(key, conf.bit_width as nat).len()
        && key_route(key, conf.bit_width as nat)[way.len() as int] < upto && key_route(
        key,
        conf.bit_width as nat,
    )[way.len() as int] < n.slots.len() {
        bucket_value(n.slots[key_route(key, conf.bit_width as nat)[way.len() as int] as int], key)
    } else {
        None
    }
}

/// Whether `merged` holds the pairs of the buckets in the first `upto`
/// slots of the node and of the first `taken` pairs of `pairs`, the bucket
/// in the next slot.
pub open spec fn merged_so_far(
    merged: Seq<Pair>,
    n: NodeModel,
    conf: Config,
    way: Seq<nat>,
    upto: nat,
    pairs: Seq<Pair>,
) -> bool {
    forall|k: Seq<u8>| #[trigger]
        pairs_get(merged, k) == if reaches(k, conf, way.push(upto)) {
            pairs_get(pairs, k)
        } else {
            gathered(n, conf, way, upto, k)
        }
}

/// Before any pair of the next bucket is taken, `merged` holds the buckets
/// of the slots so far.
pub proof fn lemma_merge_begin(
    merged: Seq<Pair>,
    n: NodeModel,
    conf: Config,
    way: Seq<nat>,
    upto: nat,
)
    requires
        forall|k: Seq<u8>| #[trigger] pairs_get(merged, k) == gathered(n, conf, way, upto, k),
    ensures
        merged_so_far(merged, n, conf, way, upto, Seq::<Pair>::empty()),
{
    assert forall|k: Seq<u8>| #[trigger]
        pairs_get(merged, k) == if reaches(k, conf, way.push(upto)) {
            pairs_get(Seq::<Pair>::empty(), k)
        } else {
            gathered(n, conf, way, upto, k)
        } by {
        if reaches(k, conf, way.push(upto)) {
            lemma_reaches_parent(k, conf, way, upto);
        }
    }
}

/// One pair of the next bucket added to `merged`.
#[verifier::rlimit(60)]
#[verifier::spinoff_prover]
pub proof fn lemma_merge_pair(
    merged: Seq<Pair>,
    after: Seq<Pair>,
    n: NodeModel,
    conf: Config,
    way: Seq<nat>,
    upto: nat,
    pairs: Seq<Pair>,
    i: int,
)
    requires
        pairs_sorted(pairs),
        0 <= i < pairs.len(),
        reaches(pairs[i].0, conf, way.push(upto)),
        merged_so_far(merged, n, conf, way, upto, pairs.take(i)),
        forall|k: Seq<u8>| #[trigger]
            pairs_get(after, k) == if k == pairs[i].0 {
                Some(pairs[i].1)
            } else {
                pairs_get(merged, k)
            },
    ensures
        merged_so_far(after, n, conf, way, upto, pairs.take(i + 1)),
{
    let shorter = pairs.take(i);
    let longer = pairs.take(i + 1);
    assert(longer =~= shorter.insert(i, pairs[i]));
    assert(pairs_sorted(shorter)) by {
        assert forall|a: int, b: int| 0 <= a < b < shorter.len() implies crate::bytes::bytes_before(
            #[trigger] shorter[a].0,
            #[trigger] shorter[b].0,
        ) by {
            assert(shorter[a] == pairs[a] && shorter[b] == pairs[b]);
        }
    }
    assert forall|j: int| 0 <= j < i implies crate::bytes::bytes_before(
        #[trigger] shorter[j].0,
        pairs[i].0,
    ) by {
        assert(shorter[j] == pairs[j]);
    }
    lemma_pairs_insert(shorter, i, pairs[i]);
    assert forall|k: Seq<u8>| #[trigger]
        pairs_get(after, k) == if reaches(k, conf, way.push(upto)) {
            pairs_get(longer, k)
        } else {
            gathered(n, conf, way, upto, k)
        } by {
        assert(pairs_get(merged, k) == if reaches(k, conf, way.push(upto)) {
            pairs_get(shorter, k)
        } else {
            gathered(n, conf, way, upto, k)
        });
        assert(pairs_get(longer, k) == if k == pairs[i].0 {
            Some(pairs[i].1)
        } else {
            pairs_get(shorter, k)
        });
    }
}

/// A pair of the next bucket that has not been taken yet is not in `merged`.
pub proof fn lemma_merge_absent(
    merged: Seq<Pair>,
    n: NodeModel,
    conf: Config,
    way: Seq<nat>,
    upto: nat,
    pairs: Seq<Pair>,
    i: int,
)
    requires
        pairs_sorted(pairs),
        0 <= i < pairs.len(),
        reaches(pairs[i].0, conf, way.push(upto)),
        merged_so_far(merged, n, conf, way, upto, pairs.take(i)),
    ensures
        !pairs_has(merged, pairs[i].0),
{
    let shorter = pairs.take(i);
    assert(pairs_get(merged, pairs[i].0) == pairs_get(shorter, pairs[i].0));
    if pairs_has(shorter, pairs[i].0) {
        let j = super::model::pairs_index(shorter, pairs[i].0);
        assert(shorter[j] == pairs[j]);
        super::model::lemma_sorted_distinct(pairs, j, i);
    }
}

/// With the whole bucket of a slot taken, or none where the slot is empty,
/// `merged` holds the buckets of the slots up to and with that one.
pub proof fn lemma_merge_end(
    merged: Seq<Pair>,
    n: NodeModel,
    conf: Config,
    way: Seq<nat>,
    upto: nat,
    pairs: Seq<Pair>,
)
    requires
        upto < n.slots.len(),
        n.slots[upto as int] == Some(PointerModel::Values(pairs)) || (n.slots[upto as int] is None
            && pairs.len() == 0),
        merged_so_far(merged, n, conf, way, upto, pairs),
    ensures
        forall|k: Seq<u8>| #[trigger] pairs_get(merged, k) == gathered(n, conf, way, upto + 1, k),
{
    assert forall|k: Seq<u8>| #[trigger]
        pairs_get(merged, k) == gathered(n, conf, way, upto + 1, k) by {
        assert(pairs_get(merged, k) == if reaches(k, conf, way.push(upto)) {
            pairs_get(pairs, k)
        } else {
            gathered(n, conf, way, upto, k)
        });
        let rt = key_route(k, conf.bit_width as nat);
        if reaches(k, conf, way.push(upto)) {
            lemma_reaches_parent(k, conf, way, upto);
        } else if reaches(k, conf, way) && way.len() < rt.len() {
            lemma_reaches_child(k, conf, way);
        }
    }
}

/// The pairs gathered from all the buckets of a node that holds nothing
/// else are what lookups in the node find.
pub proof fn lemma_gathered_is_find(
    merged: Seq<Pair>,
    n: NodeModel,
    blocks: Blocks,
    conf: Config,
    way: Seq<nat>,
)
    requires
        node_inv(n, blocks, conf, way),
        node_leafy(n),
        forall|k: Seq<u8>| #[trigger]
            pairs_get(merged, k) == gathered(n, conf, way, n.slots.len(), k),
    ensures
        forall|k: Seq<u8>|
            reaches(k, conf, way) ==> #[trigger] find(n, blocks, conf, way, k) == Ok::<
                Option<Seq<u8>>,
                Failure,
            >(pairs_get(merged, k)),
{
    assert forall|k: Seq<u8>| reaches(k, conf, way) implies #[trigger] find(
        n,
        blocks,
        conf,
        way,
        k,
    ) == Ok::<Option<Seq<u8>>, Failure>(pairs_get(merged, k)) by {
        lemma_find_slot(n, blocks, conf, way, k);
        lemma_route_len(k, conf);
        lemma_route_slot(key_hash(k), conf.bit_width as nat, way.len() as int);
        assert(pairs_get(merged, k) == gathered(n, conf, way, n.slots.len(), k));
    }
}

/// Every hashed key reaches the root.
pub proof fn lemma_reaches_root(key: Seq<u8>, conf: Config)
    requires
        hashed(key),
    ensures
        reaches(key, conf, Seq::empty()),
{
    let rt = key_route(key, conf.bit_width as nat);
    assert(rt.take(0) =~= Seq::<nat>::empty());
}

/// A trie has between 32 and 256 depths.
pub proof fn lemma_depth_limit(conf: Config)
    requires
        conf.valid(),
    ensures
        32 <= depth_limit(conf.bit_width as nat) <= 256,
{
    let w = conf.bit_width as int;
    assert(32 <= 256int / w <= 256) by (nonlinear_arith)
        requires
            1 <= w <= 8,
    ;
}

/// A lookup finds in the written form of a node what it finds in the node,
/// where the node's children in memory agree with the store.
pub proof fn lemma_flatten_get(
    n: NodeModel,
    blocks: Blocks,
    conf: Config,
    route: Seq<nat>,
    key: Seq<u8>,
    depth: nat,
)
    requires
        depth <= route.len(),
        synced(n, blocks, conf, route.take(depth as int)),
    ensures
        node_get(flatten(n), blocks, conf, route, key, depth) == node_get(
            n,
            blocks,
            conf,
            route,
            key,
            depth,
        ),
    decreases route.len() - depth,
{
    if depth < route.len() && route[depth as int] < n.slots.len() {
        let slot = route[depth as int] as int;
        let way = route.take(depth as int);
        assert(route.take(depth + 1 as int) =~= way.push(slot as nat));
        assert(flatten(n).slots[slot] == flatten_slot(n.slots[slot]));
        match n.slots[slot] {
            Some(PointerModel::Resolved(child, Some(cid))) => {
                lemma_flatten_get(*child, blocks, conf, route, key, depth + 1);
            },
            _ => {},
        }
    }
}

} // verus!
