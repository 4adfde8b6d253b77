//! What stays true of a trie when the block store gains blocks.

use super::hash::Config;
use super::lookup::{
    find, lemma_find_slot, lemma_node_inv, loaded, node_get, node_inv, pointer_inv, reaches, Blocks,
};
use super::model::{NodeModel, PointerModel};
use vstd::prelude::*;

verus! {

/// Every lookup that succeeded in `a` with the store holding `blocks_a`
/// finds the same in `b` with the store holding `blocks_b`.
pub open spec fn lookups_kept(
    a: NodeModel,
    blocks_a: Blocks,
    b: NodeModel,
    blocks_b: Blocks,
    conf: Config,
    way: Seq<nat>,
) -> bool {
    forall|k: Seq<u8>|
        reaches(k, conf, way) && find(a, blocks_a, conf, way, k) is Ok ==> #[trigger] find(
            b,
            blocks_b,
            conf,
            way,
            k,
        ) == find(a, blocks_a, conf, way, k)
}

/// A block that the store held is still what it holds under that identifier
/// after it has gained blocks.
pub proof fn lemma_loaded_grow(
    blocks: Blocks,
    more: Blocks,
    cid: Seq<u8>,
    conf: Config,
    way: Seq<nat>,
)
    requires
        blocks.submap_of(more),
        blocks.contains_key(cid),
    ensures
        loaded(more, cid, conf, way) == loaded(blocks, cid, conf, way),
{
    assert(more.contains_key(cid) && more[cid] == blocks[cid]);
}

/// A node keeps its invariant when the store gains blocks.
pub proof fn lemma_inv_grow(n: NodeModel, blocks: Blocks, more: Blocks, conf: Config, way: Seq<nat>)
    requires
        blocks.submap_of(more),
        node_inv(n, blocks, conf, way),
    ensures
        node_inv(n, more, conf, way),
    decreases n,
{
    lemma_node_inv(n, blocks, conf, way);
    lemma_node_inv(n, more, conf, way);
    assert forall|i: int| 0 <= i < n.slots.len() implies (#[trigger] n.slots[i] matches Some(p)
        ==> pointer_inv(p, more, conf, way.push(i as nat))) by {
        match n.slots[i] {
            Some(PointerModel::Resolved(child, stored)) => {
                assert(pointer_inv(n.slots[i]->Some_0, blocks, conf, way.push(i as nat)));
                lemma_inv_grow(*child, blocks, more, conf, way.push(i as nat));
                if stored is Some {
                    lemma_loaded_grow(blocks, more, stored->Some_0, conf, way.push(i as nat));
                }
            },
            Some(p) => {
                assert(pointer_inv(p, blocks, conf, way.push(i as nat)));
            },
            None => {},
        }
    }
}

/// A lookup that succeeded finds the same when the store has gained blocks.
pub proof fn lemma_get_grow(
    n: NodeModel,
    blocks: Blocks,
    more: Blocks,
    conf: Config,
    route: Seq<nat>,
    key: Seq<u8>,
    depth: nat,
)
    requires
        blocks.submap_of(more),
        node_get(n, blocks, conf, route, key, depth) is Ok,
    ensures
        node_get(n, more, conf, route, key, depth) == node_get(n, blocks, conf, route, key, depth),
    decreases route.len() - depth,
{
    if depth < route.len() && route[depth as int] < n.slots.len() {
        match n.slots[route[depth as int] as int] {
            Some(PointerModel::Link(cid)) => {
                let way = route.take(depth + 1 as int);
                assert(loaded(blocks, cid, conf, way) is Ok);
                lemma_loaded_grow(blocks, more, cid, conf, way);
                lemma_get_grow(
                    loaded(blocks, cid, conf, way)->Ok_0,
                    blocks,
                    more,
                    conf,
                    route,
                    key,
                    depth + 1,
                );
            },
            Some(PointerModel::Resolved(child, _)) => {
                lemma_get_grow(*child, blocks, more, conf, route, key, depth + 1);
            },
            _ => {},
        }
    }
}

/// A node keeps its successful lookups when the store gains blocks.
pub proof fn lemma_kept_grow(n: NodeModel, blocks: Blocks, more: Blocks, conf: Config, way: Seq<nat>)
    requires
        blocks.submap_of(more),
    ensures
        lookups_kept(n, blocks, n, more, conf, way),
{
    assert forall|k: Seq<u8>|
        reaches(k, conf, way) && find(n, blocks, conf, way, k) is Ok implies #[trigger] find(
        n,
        more,
        conf,
        way,
        k,
    ) == find(n, blocks, conf, way, k) by {
        lemma_get_grow(
            n,
            blocks,
            more,
            conf,
            super::hash::key_route(k, conf.bit_width as nat),
            k,
            way.len(),
        );
    }
}

/// Keeping lookups is transitive.
pub proof fn lemma_kept_trans(
    a: NodeModel,
    blocks_a: Blocks,
    b: NodeModel,
    blocks_b: Blocks,
    c: NodeModel,
    blocks_c: Blocks,
    conf: Config,
    way: Seq<nat>,
)
    requires
        lookups_kept(a, blocks_a, b, blocks_b, conf, way),
        lookups_kept(b, blocks_b, c, blocks_c, conf, way),
    ensures
        lookups_kept(a, blocks_a, c, blocks_c, conf, way),
{
    assert forall|k: Seq<u8>|
        reaches(k, conf, way) && find(a, blocks_a, conf, way, k) is Ok implies #[trigger] find(
        c,
        blocks_c,
        conf,
        way,
        k,
    ) == find(a, blocks_a, conf, way, k) by {
        assert(find(b, blocks_b, conf, way, k) == find(a, blocks_a, conf, way, k));
    }
}

/// Two nodes that differ in one slot, where both hold children in memory of
/// which the second keeps the lookups of the first, keep the lookups too.
pub proof fn lemma_kept_child(
    a: NodeModel,
    b: NodeModel,
    blocks_a: Blocks,
    blocks_b: Blocks,
    conf: Config,
    way: Seq<nat>,
    slot: int,
)
    requires
        blocks_a.submap_of(blocks_b),
        way.len() < super::hash::depth_limit(conf.bit_width as nat),
        a.slots.len() == conf.width(),
        0 <= slot < a.slots.len(),
        b.slots.len() == a.slots.len(),
        forall|j: int| 0 <= j < a.slots.len() && j != slot ==> b.slots[j] == a.slots[j],
        a.slots[slot] matches Some(PointerModel::Resolved(ca, _)) && b.slots[slot] matches Some(
            PointerModel::Resolved(cb, _),
        ) && lookups_kept(*ca, blocks_a, *cb, blocks_b, conf, way.push(slot as nat)),
    ensures
        lookups_kept(a, blocks_a, b, blocks_b, conf, way),
{
    lemma_kept_grow(a, blocks_a, blocks_b, conf, way);
    assert forall|k: Seq<u8>|
        reaches(k, conf, way) && find(a, blocks_a, conf, way, k) is Ok implies #[trigger] find(
        b,
        blocks_b,
        conf,
        way,
        k,
    ) == find(a, blocks_a, conf, way, k) by {
        lemma_find_slot(a, blocks_a, conf, way, k);
        lemma_find_slot(a, blocks_b, conf, way, k);
        lemma_find_slot(b, blocks_b, conf, way, k);
        let s = super::hash::key_route(k, conf.bit_width as nat)[way.len() as int];
        if s == slot {
            let ca = a.slots[slot]->Some_0->Resolved_0;
            let cb = b.slots[slot]->Some_0->Resolved_0;
            assert(find(*cb, blocks_b, conf, way.push(slot as nat), k) == find(
                *ca,
                blocks_a,
                conf,
                way.push(slot as nat),
                k,
            ));
        } else {
            assert(find(a, blocks_b, conf, way, k) == find(a, blocks_a, conf, way, k));
            if s < a.slots.len() {
                assert(b.slots[s as int] == a.slots[s as int]);
            }
        }
    }
}

} // verus!
