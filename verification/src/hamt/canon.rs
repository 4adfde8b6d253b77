//! The canonical form of a trie that is wholly in memory: which shape it
//! has is decided by the pairs that it holds alone.

use super::codec::node_encoding;
use super::hash::{depth_limit, key_route, Config};
use super::lookup::{
    find, lemma_find_slot, lemma_node_inv, lemma_reaches_parent, lookups_changed, node_inv,
    pointer_inv, reaches, same_lookups, Blocks,
};
use super::model::{empty_node, node_is_empty, Failure, NodeModel, Pair, PointerModel};
use crate::store::{block_cid_bytes, DAG_CBOR};
use vstd::prelude::*;

verus! {

/// Whether `keys` are one more than a bucket holds, all different, and all
/// keys that lookups in the node at the end of `way` find.
pub open spec fn crowd(
    keys: Seq<Seq<u8>>,
    n: NodeModel,
    blocks: Blocks,
    conf: Config,
    way: Seq<nat>,
) -> bool {
    &&& keys.len() == conf.bucket_size + 1
    &&& forall|i: int, j: int|
        0 <= i < keys.len() && 0 <= j < keys.len() && i != j ==> #[trigger] keys[i]
            != #[trigger] keys[j]
    &&& forall|i: int|
        0 <= i < keys.len() ==> reaches(#[trigger] keys[i], conf, way) && (find(
            n,
            blocks,
            conf,
            way,
            keys[i],
        ) matches Ok(Some(_)))
}

/// Whether the node at the end of `way` holds more pairs than a bucket
/// holds.
pub open spec fn rich(n: NodeModel, blocks: Blocks, conf: Config, way: Seq<nat>) -> bool {
    exists|keys: Seq<Seq<u8>>| #[trigger] crowd(keys, n, blocks, conf, way)
}

/// Whether a node is in canonical form: it and all below it is in memory,
/// every child holds more pairs than a bucket holds, and every child that
/// has an identifier has the identifier of its encoding.
pub open spec fn canonical(n: NodeModel, blocks: Blocks, conf: Config, way: Seq<nat>) -> bool
    decreases n,
{
    forall|i: int|
        0 <= i < n.slots.len() ==> match #[trigger] n.slots[i] {
            Some(PointerModel::Link(_)) => false,
            Some(PointerModel::Resolved(child, stored)) => canonical(
                *child,
                blocks,
                conf,
                way.push(i as nat),
            ) && rich(*child, blocks, conf, way.push(i as nat)) && (stored matches Some(cid)
                ==> cid == block_cid_bytes(DAG_CBOR, node_encoding(*child))),
            _ => true,
        }
}

/// What canonical form asks of the pointer in one slot.
pub open spec fn pointer_canonical(p: PointerModel, blocks: Blocks, conf: Config, way: Seq<nat>)
    -> bool {
    match p {
        PointerModel::Link(_) => false,
        PointerModel::Resolved(child, stored) => canonical(*child, blocks, conf, way) && rich(
            *child,
            blocks,
            conf,
            way,
        ) && (stored matches Some(cid) ==> cid == block_cid_bytes(
            DAG_CBOR,
            node_encoding(*child),
        )),
        PointerModel::Values(_) => true,
    }
}

/// A node is in canonical form exactly where the pointer in each of its
/// occupied slots is.
pub proof fn lemma_canonical(n: NodeModel, blocks: Blocks, conf: Config, way: Seq<nat>)
    ensures
        canonical(n, blocks, conf, way) <==> forall|i: int|
            0 <= i < n.slots.len() ==> (#[trigger] n.slots[i] matches Some(p)
                ==> pointer_canonical(p, blocks, conf, way.push(i as nat))),
{
    if canonical(n, blocks, conf, way) {
        assert forall|i: int| 0 <= i < n.slots.len() implies (#[trigger] n.slots[i] matches Some(
            p,
        ) ==> pointer_canonical(p, blocks, conf, way.push(i as nat))) by {}
    }
    if forall|i: int|
        0 <= i < n.slots.len() ==> (#[trigger] n.slots[i] matches Some(p) ==> pointer_canonical(
            p,
            blocks,
            conf,
            way.push(i as nat),
        )) {
        assert forall|i: int| 0 <= i < n.slots.len() implies match #[trigger] n.slots[i] {
            Some(PointerModel::Link(_)) => false,
            Some(PointerModel::Resolved(child, stored)) => canonical(
                *child,
                blocks,
                conf,
                way.push(i as nat),
            ) && rich(*child, blocks, conf, way.push(i as nat)) && (stored matches Some(cid)
                ==> cid == block_cid_bytes(DAG_CBOR, node_encoding(*child))),
            _ => true,
        } by {
            if n.slots[i] is Some {
                assert(pointer_canonical(n.slots[i]->Some_0, blocks, conf, way.push(i as nat)));
            }
        }
    }
}

/// A node that differs from one in canonical form in one slot, which is
/// empty or holds a pointer in canonical form, is in canonical form.
pub proof fn lemma_canonical_update(
    a: NodeModel,
    b: NodeModel,
    blocks: Blocks,
    conf: Config,
    way: Seq<nat>,
    slot: int,
)
    requires
        canonical(a, blocks, conf, way),
        0 <= slot < a.slots.len(),
        b.slots.len() == a.slots.len(),
        forall|j: int| 0 <= j < a.slots.len() && j != slot ==> b.slots[j] == a.slots[j],
        b.slots[slot] matches Some(p) ==> pointer_canonical(p, blocks, conf, way.push(slot as nat)),
    ensures
        canonical(b, blocks, conf, way),
{
    lemma_canonical(a, blocks, conf, way);
    lemma_canonical(b, blocks, conf, way);
    assert forall|i: int| 0 <= i < b.slots.len() implies (#[trigger] b.slots[i] matches Some(p)
        ==> pointer_canonical(p, blocks, conf, way.push(i as nat))) by {
        if i != slot {
            assert(b.slots[i] == a.slots[i]);
        }
    }
}

/// An empty node is in canonical form.
pub proof fn lemma_canonical_empty(blocks: Blocks, conf: Config, way: Seq<nat>)
    ensures
        canonical(empty_node(conf), blocks, conf, way),
{
}

/// A node keeps holding more pairs than a bucket holds when a pair is
/// stored in it.
pub proof fn lemma_rich_stored(
    a: NodeModel,
    b: NodeModel,
    blocks: Blocks,
    conf: Config,
    way: Seq<nat>,
    key: Seq<u8>,
    value: Seq<u8>,
)
    requires
        rich(a, blocks, conf, way),
        lookups_changed(a, b, blocks, conf, way, key, Some(value)),
    ensures
        rich(b, blocks, conf, way),
{
    let keys = choose|keys: Seq<Seq<u8>>| #[trigger] crowd(keys, a, blocks, conf, way);
    assert forall|i: int| 0 <= i < keys.len() implies reaches(#[trigger] keys[i], conf, way) && (
    find(b, blocks, conf, way, keys[i]) matches Ok(Some(_))) by {
        assert(find(b, blocks, conf, way, keys[i]) == if keys[i] == key {
            Ok::<Option<Seq<u8>>, Failure>(Some(value))
        } else {
            find(a, blocks, conf, way, keys[i])
        });
    }
    assert(crowd(keys, b, blocks, conf, way));
}

/// A node with a child that holds more pairs than a bucket holds holds
/// more pairs than a bucket holds.
pub proof fn lemma_rich_above(n: NodeModel, blocks: Blocks, conf: Config, way: Seq<nat>, slot: int)
    requires
        node_inv(n, blocks, conf, way),
        0 <= slot < n.slots.len(),
        n.slots[slot] matches Some(PointerModel::Resolved(child, _)) && rich(
            *child,
            blocks,
            conf,
            way.push(slot as nat),
        ),
    ensures
        rich(n, blocks, conf, way),
{
    lemma_node_inv(n, blocks, conf, way);
    let child = n.slots[slot]->Some_0->Resolved_0;
    let ws = way.push(slot as nat);
    let keys = choose|keys: Seq<Seq<u8>>| #[trigger] crowd(keys, *child, blocks, conf, ws);
    assert forall|i: int| 0 <= i < keys.len() implies reaches(#[trigger] keys[i], conf, way) && (
    find(n, blocks, conf, way, keys[i]) matches Ok(Some(_))) by {
        lemma_reaches_parent(keys[i], conf, way, slot as nat);
        lemma_find_slot(n, blocks, conf, way, keys[i]);
    }
    assert(crowd(keys, n, blocks, conf, way));
}

/// In a node in canonical form in which no lookup finds anything, every
/// slot is empty.
pub proof fn lemma_nothing_found_is_empty(n: NodeModel, blocks: Blocks, conf: Config, way: Seq<nat>)
    requires
        node_inv(n, blocks, conf, way),
        canonical(n, blocks, conf, way),
        forall|k: Seq<u8>|
            reaches(k, conf, way) ==> #[trigger] find(n, blocks, conf, way, k) == Ok::<
                Option<Seq<u8>>,
                Failure,
            >(None),
    ensures
        node_is_empty(n),
{
    lemma_node_inv(n, blocks, conf, way);
    assert forall|i: int| 0 <= i < n.slots.len() implies #[trigger] n.slots[i] is None by {
        let ws = way.push(i as nat);
        match n.slots[i] {
            Some(PointerModel::Values(pairs)) => {
                assert(pointer_inv(n.slots[i]->Some_0, blocks, conf, ws));
                let k = pairs[0].0;
                super::model::lemma_pairs_get_at(pairs, 0);
                lemma_reaches_parent(k, conf, way, i as nat);
                lemma_find_slot(n, blocks, conf, way, k);
                assert(find(n, blocks, conf, way, k) == Ok::<Option<Seq<u8>>, Failure>(None));
            },
            Some(PointerModel::Resolved(child, _)) => {
                lemma_rich_above(n, blocks, conf, way, i);
                let keys = choose|keys: Seq<Seq<u8>>| #[trigger] crowd(keys, n, blocks, conf, way);
                assert(find(n, blocks, conf, way, keys[0]) == Ok::<Option<Seq<u8>>, Failure>(
                    None,
                ));
            },
            _ => {},
        }
    }
}

/// A node that holds a full bucket's pairs and one more holds more pairs
/// than a bucket holds.
pub proof fn lemma_rich_from_bucket(
    sub: NodeModel,
    blocks: Blocks,
    conf: Config,
    way: Seq<nat>,
    pairs: Seq<Pair>,
    key: Seq<u8>,
    value: Seq<u8>,
)
    requires
        super::lookup::holds_bucket_and(sub, blocks, conf, way, pairs, key, value),
        super::model::bucket_ok(pairs, conf, way),
        pairs.len() == conf.bucket_size,
        !super::model::pairs_has(pairs, key),
        reaches(key, conf, way),
    ensures
        rich(sub, blocks, conf, way),
{
    let keys = Seq::new(
        (pairs.len() + 1) as nat,
        |i: int|
            if i < pairs.len() {
                pairs[i].0
            } else {
                key
            },
    );
    assert forall|i: int, j: int|
        0 <= i < keys.len() && 0 <= j < keys.len() && i != j implies #[trigger] keys[i]
        != #[trigger] keys[j] by {
        if i < pairs.len() && j < pairs.len() {
            if pairs[i].0 == pairs[j].0 {
                super::model::lemma_sorted_distinct(pairs, i, j);
            }
        }
    }
    assert forall|i: int| 0 <= i < keys.len() implies reaches(#[trigger] keys[i], conf, way) && (
    find(sub, blocks, conf, way, keys[i]) matches Ok(Some(_))) by {
        if i < pairs.len() {
            super::model::lemma_pairs_get_at(pairs, i);
            assert(find(sub, blocks, conf, way, keys[i]) == Ok::<Option<Seq<u8>>, Failure>(
                if keys[i] == key {
                    Some(value)
                } else {
                    super::model::pairs_get(pairs, keys[i])
                },
            ));
        } else {
            assert(find(sub, blocks, conf, way, key) == Ok::<Option<Seq<u8>>, Failure>(
                Some(value),
            ));
        }
    }
    assert(crowd(keys, sub, blocks, conf, way));
}

/// A node that holds, in its buckets, a full bucket's worth of different
/// keys and one more holds more pairs than a bucket holds.
pub proof fn lemma_rich_from_keys(
    n: NodeModel,
    blocks: Blocks,
    conf: Config,
    way: Seq<nat>,
    merged: Seq<Pair>,
    extra: Seq<u8>,
)
    requires
        merged.len() == conf.bucket_size,
        super::model::pairs_sorted(merged),
        !super::model::pairs_has(merged, extra),
        reaches(extra, conf, way),
        find(n, blocks, conf, way, extra) matches Ok(Some(_)),
        forall|i: int|
            0 <= i < merged.len() ==> reaches((#[trigger] merged[i]).0, conf, way) && (find(
                n,
                blocks,
                conf,
                way,
                merged[i].0,
            ) matches Ok(Some(_))),
    ensures
        rich(n, blocks, conf, way),
{
    let keys = Seq::new(
        (merged.len() + 1) as nat,
        |i: int|
            if i < merged.len() {
                merged[i].0
            } else {
                extra
            },
    );
    assert forall|i: int, j: int|
        0 <= i < keys.len() && 0 <= j < keys.len() && i != j implies #[trigger] keys[i]
        != #[trigger] keys[j] by {
        if i < merged.len() && j < merged.len() {
            if merged[i].0 == merged[j].0 {
                super::model::lemma_sorted_distinct(merged, i, j);
            }
        }
    }
    assert forall|i: int| 0 <= i < keys.len() implies reaches(#[trigger] keys[i], conf, way) && (
    find(n, blocks, conf, way, keys[i]) matches Ok(Some(_))) by {
        if i < merged.len() {
            assert(reaches(merged[i].0, conf, way));
        }
    }
    assert(crowd(keys, n, blocks, conf, way));
}

/// A node keeps holding more pairs than a bucket holds while the lookups
/// that succeeded are kept.
pub proof fn lemma_rich_kept(
    a: NodeModel,
    blocks_a: Blocks,
    b: NodeModel,
    blocks_b: Blocks,
    conf: Config,
    way: Seq<nat>,
)
    requires
        rich(a, blocks_a, conf, way),
        super::grow::lookups_kept(a, blocks_a, b, blocks_b, conf, way),
    ensures
        rich(b, blocks_b, conf, way),
{
    let keys = choose|keys: Seq<Seq<u8>>| #[trigger] crowd(keys, a, blocks_a, conf, way);
    assert forall|i: int| 0 <= i < keys.len() implies reaches(#[trigger] keys[i], conf, way) && (
    find(b, blocks_b, conf, way, keys[i]) matches Ok(Some(_))) by {
        assert(find(b, blocks_b, conf, way, keys[i]) == find(a, blocks_a, conf, way, keys[i]));
    }
    assert(crowd(keys, b, blocks_b, conf, way));
}

/// A node stays in canonical form when the store gains blocks.
pub proof fn lemma_canonical_grow(
    n: NodeModel,
    blocks: Blocks,
    more: Blocks,
    conf: Config,
    way: Seq<nat>,
)
    requires
        blocks.submap_of(more),
        canonical(n, blocks, conf, way),
    ensures
        canonical(n, more, conf, way),
    decreases n,
{
    lemma_canonical(n, blocks, conf, way);
    lemma_canonical(n, more, conf, way);
    assert forall|i: int| 0 <= i < n.slots.len() implies (#[trigger] n.slots[i] matches Some(p)
        ==> pointer_canonical(p, more, conf, way.push(i as nat))) by {
        match n.slots[i] {
            Some(PointerModel::Resolved(child, stored)) => {
                assert(pointer_canonical(n.slots[i]->Some_0, blocks, conf, way.push(i as nat)));
                lemma_canonical_grow(*child, blocks, more, conf, way.push(i as nat));
                super::grow::lemma_kept_grow(*child, blocks, more, conf, way.push(i as nat));
                lemma_rich_kept(*child, blocks, *child, more, conf, way.push(i as nat));
            },
            Some(p) => {
                assert(pointer_canonical(p, blocks, conf, way.push(i as nat)));
            },
            None => {},
        }
    }
}

/// In a node in canonical form every lookup succeeds: nothing has to be
/// read from the store.
pub proof fn lemma_canonical_finds(
    n: NodeModel,
    blocks: Blocks,
    conf: Config,
    way: Seq<nat>,
    key: Seq<u8>,
)
    requires
        node_inv(n, blocks, conf, way),
        canonical(n, blocks, conf, way),
        reaches(key, conf, way),
    ensures
        find(n, blocks, conf, way, key) is Ok,
    decreases depth_limit(conf.bit_width as nat) - way.len(),
{
    lemma_node_inv(n, blocks, conf, way);
    lemma_canonical(n, blocks, conf, way);
    lemma_find_slot(n, blocks, conf, way, key);
    let slot = key_route(key, conf.bit_width as nat)[way.len() as int];
    let ws = way.push(slot);
    if slot < n.slots.len() {
        match n.slots[slot as int] {
            Some(PointerModel::Resolved(child, _)) => {
                assert(pointer_inv(n.slots[slot as int]->Some_0, blocks, conf, ws));
                assert(pointer_canonical(n.slots[slot as int]->Some_0, blocks, conf, ws));
                lemma_canonical_finds(*child, blocks, conf, ws, key);
            },
            Some(PointerModel::Link(_)) => {
                assert(pointer_canonical(n.slots[slot as int]->Some_0, blocks, conf, ws));
            },
            _ => {},
        }
    }
}

/// Whether a bucket is full of pairs with other keys than `key` that select
/// the same slots as `key` at every depth.
pub open spec fn bucket_jammed(pairs: Seq<Pair>, conf: Config, key: Seq<u8>) -> bool {
    &&& pairs.len() == conf.bucket_size
    &&& forall|i: int|
        0 <= i < pairs.len() ==> (#[trigger] pairs[i]).0 != key && key_route(
            pairs[i].0,
            conf.bit_width as nat,
        ) == key_route(key, conf.bit_width as nat)
}

/// Whether `keys` are as many as a bucket holds, all different, all other
/// keys than `key` that select the same slots as `key` at every depth, and
/// all keys that lookups in the node at the end of `way` find.
pub open spec fn jam(
    keys: Seq<Seq<u8>>,
    n: NodeModel,
    blocks: Blocks,
    conf: Config,
    way: Seq<nat>,
    key: Seq<u8>,
) -> bool {
    &&& keys.len() == conf.bucket_size
    &&& forall|i: int, j: int|
        0 <= i < keys.len() && 0 <= j < keys.len() && i != j ==> #[trigger] keys[i]
            != #[trigger] keys[j]
    &&& forall|i: int|
        0 <= i < keys.len() ==> (#[trigger] keys[i]) != key && key_route(
            keys[i],
            conf.bit_width as nat,
        ) == key_route(key, conf.bit_width as nat) && (find(n, blocks, conf, way, keys[i])
            matches Ok(Some(_)))
}

/// Whether there is no room for `key` below the node at the end of `way`:
/// it holds as many other keys as a bucket holds that select the same slots
/// as `key` at every depth, so that no depth parts them from it.
pub open spec fn jammed(n: NodeModel, blocks: Blocks, conf: Config, way: Seq<nat>, key: Seq<u8>)
    -> bool {
    exists|keys: Seq<Seq<u8>>| #[trigger] jam(keys, n, blocks, conf, way, key)
}

/// There is no room for a key in a node in which there is none for it
/// after the node was only read, or before.
pub proof fn lemma_jammed_same(
    a: NodeModel,
    b: NodeModel,
    blocks: Blocks,
    conf: Config,
    way: Seq<nat>,
    key: Seq<u8>,
)
    requires
        jammed(a, blocks, conf, way, key),
        same_lookups(a, b, blocks, conf, way) || same_lookups(b, a, blocks, conf, way),
        reaches(key, conf, way),
    ensures
        jammed(b, blocks, conf, way, key),
{
    let keys = choose|keys: Seq<Seq<u8>>| #[trigger] jam(keys, a, blocks, conf, way, key);
    assert forall|i: int| 0 <= i < keys.len() implies (find(
        b,
        blocks,
        conf,
        way,
        #[trigger] keys[i],
    ) matches Ok(Some(_))) by {
        crate::hamt::hash::lemma_all_hashed(keys[i]);
        assert(reaches(keys[i], conf, way));
        assert(find(b, blocks, conf, way, keys[i]) == find(a, blocks, conf, way, keys[i]));
    }
    assert(jam(keys, b, blocks, conf, way, key));
}

/// There is no room for a key in a node where there is none in the child
/// that the key leads to.
pub proof fn lemma_jammed_above(
    n: NodeModel,
    blocks: Blocks,
    conf: Config,
    way: Seq<nat>,
    key: Seq<u8>,
)
    requires
        node_inv(n, blocks, conf, way),
        reaches(key, conf, way),
        ({
            let slot = key_route(key, conf.bit_width as nat)[way.len() as int];
            slot < n.slots.len() && (n.slots[slot as int] matches Some(
                PointerModel::Resolved(child, _),
            ) && jammed(*child, blocks, conf, way.push(slot), key))
        }),
    ensures
        jammed(n, blocks, conf, way, key),
{
    lemma_node_inv(n, blocks, conf, way);
    let slot = key_route(key, conf.bit_width as nat)[way.len() as int];
    let child = n.slots[slot as int]->Some_0->Resolved_0;
    let ws = way.push(slot);
    let keys = choose|keys: Seq<Seq<u8>>| #[trigger] jam(keys, *child, blocks, conf, ws, key);
    assert forall|i: int| 0 <= i < keys.len() implies (find(
        n,
        blocks,
        conf,
        way,
        #[trigger] keys[i],
    ) matches Ok(Some(_))) by {
        crate::hamt::hash::lemma_all_hashed(keys[i]);
        assert(reaches(keys[i], conf, way));
        lemma_find_slot(n, blocks, conf, way, keys[i]);
    }
    assert(jam(keys, n, blocks, conf, way, key));
}

/// The keys of a bucket, in its order.
pub open spec fn keys_of(pairs: Seq<Pair>) -> Seq<Seq<u8>> {
    Seq::new(pairs.len(), |i: int| pairs[i].0)
}

/// There is no room for a key in a node where the bucket that the key
/// leads to is full of keys that no depth parts from it.
pub proof fn lemma_jammed_bucket(
    n: NodeModel,
    blocks: Blocks,
    conf: Config,
    way: Seq<nat>,
    key: Seq<u8>,
)
    requires
        node_inv(n, blocks, conf, way),
        reaches(key, conf, way),
        ({
            let slot = key_route(key, conf.bit_width as nat)[way.len() as int];
            slot < n.slots.len() && (n.slots[slot as int] matches Some(
                PointerModel::Values(pairs),
            ) && bucket_jammed(pairs, conf, key))
        }),
    ensures
        jammed(n, blocks, conf, way, key),
{
    lemma_node_inv(n, blocks, conf, way);
    let slot = key_route(key, conf.bit_width as nat)[way.len() as int];
    let pairs = n.slots[slot as int]->Some_0->Values_0;
    let keys = keys_of(pairs);
    assert(pointer_inv(n.slots[slot as int]->Some_0, blocks, conf, way.push(slot)));
    assert forall|i: int, j: int|
        0 <= i < keys.len() && 0 <= j < keys.len() && i != j implies #[trigger] keys[i]
        != #[trigger] keys[j] by {
        if keys[i] == keys[j] {
            crate::hamt::model::lemma_sorted_distinct(pairs, i, j);
        }
    }
    assert forall|i: int| 0 <= i < keys.len() implies (#[trigger] keys[i]) != key && key_route(
        keys[i],
        conf.bit_width as nat,
    ) == key_route(key, conf.bit_width as nat) && (find(n, blocks, conf, way, keys[i]) matches Ok(
        Some(_),
    )) by {
        assert(keys[i] == pairs[i].0);
        crate::hamt::hash::lemma_all_hashed(keys[i]);
        assert(reaches(keys[i], conf, way));
        lemma_find_slot(n, blocks, conf, way, keys[i]);
        crate::hamt::model::lemma_pairs_get_at(pairs, i);
    }
    assert(jam(keys, n, blocks, conf, way, key));
}

} // verus!
