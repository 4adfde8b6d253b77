//! Going through every pair of a trie.

use super::canon::{canonical, lemma_canonical, pointer_canonical};
use super::hash::{depth_limit, key_route, Config};
use super::lookup::{
    find, lemma_find_slot, lemma_node_inv, lemma_reaches_parent, loaded, node_inv, pointer_inv,
    reaches, slot_find, Blocks,
};
use super::model::{lemma_pairs_get_at, pairs_index, Failure, NodeModel, Pair, PointerModel};
use super::ops::{depth_bound, failure_of, load_node, way_of, Error};
use super::tree::{pairs_model, slot_model, KeyValue, Node, Pointer};
use crate::bytes::bytes_copy;
use crate::store::Store;
use vstd::prelude::*;

verus! {

/// The pairs below the slots `i ..` of the node at the end of `way`, slot
/// by slot, the pairs of a bucket in the order of their keys and the pairs
/// of a child where the child stands; or the failure that ends the walk.
pub open spec fn pairs_from(n: NodeModel, blocks: Blocks, conf: Config, way: Seq<nat>, i: nat)
    -> Result<Seq<Pair>, Failure>
    decreases depth_limit(conf.bit_width as nat) - way.len(), 0nat, n.slots.len() - i,
{
    if way.len() >= depth_limit(conf.bit_width as nat) {
        Err(Failure::MaxDepth)
    } else if i >= n.slots.len() {
        Ok(Seq::empty())
    } else {
        match pairs_of(n.slots[i as int], blocks, conf, way.push(i)) {
            Ok(first) => match pairs_from(n, blocks, conf, way, i + 1) {
                Ok(rest) => Ok(first + rest),
                Err(f) => Err(f),
            },
            Err(f) => Err(f),
        }
    }
}

/// The pairs below one slot, `way` being the way to the slot.
pub open spec fn pairs_of(slot: Option<PointerModel>, blocks: Blocks, conf: Config, way: Seq<nat>)
    -> Result<Seq<Pair>, Failure>
    decreases depth_limit(conf.bit_width as nat) - way.len(), 1nat, 0nat,
{
    match slot {
        None => Ok(Seq::empty()),
        Some(PointerModel::Values(pairs)) => Ok(pairs),
        Some(PointerModel::Link(cid)) => match loaded(blocks, cid, conf, way) {
            Ok(child) => pairs_from(child, blocks, conf, way, 0),
            Err(f) => Err(f),
        },
        Some(PointerModel::Resolved(child, _)) => pairs_from(*child, blocks, conf, way, 0),
    }
}

/// Whether `pairs` hold the pair of `key` and `value`.
pub open spec fn holds_pair(pairs: Seq<Pair>, key: Seq<u8>, value: Seq<u8>) -> bool {
    exists|j: int| 0 <= j < pairs.len() && #[trigger] pairs[j] == (key, value)
}

/// Every pair below the slots `i ..` is one that a lookup finds through its
/// slot, and every pair that a lookup finds through one of those slots is
/// among them.
pub open spec fn walk_from_is_lookup(
    pairs: Seq<Pair>,
    n: NodeModel,
    blocks: Blocks,
    conf: Config,
    way: Seq<nat>,
    i: nat,
) -> bool {
    &&& forall|j: int|
        0 <= j < pairs.len() ==> reaches((#[trigger] pairs[j]).0, conf, way) && key_route(
            pairs[j].0,
            conf.bit_width as nat,
        )[way.len() as int] >= i && find(n, blocks, conf, way, pairs[j].0) == Ok::<
            Option<Seq<u8>>,
            Failure,
        >(Some(pairs[j].1))
    &&& forall|k: Seq<u8>, v: Seq<u8>|
        reaches(k, conf, way) && key_route(k, conf.bit_width as nat)[way.len() as int] >= i
            && find(n, blocks, conf, way, k) == Ok::<Option<Seq<u8>>, Failure>(Some(v))
            ==> #[trigger] holds_pair(pairs, k, v)
}

/// Every pair below a slot is one that a lookup finds through the slot, and
/// every pair that a lookup finds through the slot is among them.
pub open spec fn walk_of_is_lookup(
    pairs: Seq<Pair>,
    slot: Option<PointerModel>,
    blocks: Blocks,
    conf: Config,
    way: Seq<nat>,
) -> bool {
    &&& forall|j: int|
        0 <= j < pairs.len() ==> reaches((#[trigger] pairs[j]).0, conf, way) && slot_find(
            slot,
            blocks,
            conf,
            way,
            pairs[j].0,
        ) == Ok::<Option<Seq<u8>>, Failure>(Some(pairs[j].1))
    &&& forall|k: Seq<u8>, v: Seq<u8>|
        reaches(k, conf, way) && slot_find(slot, blocks, conf, way, k) == Ok::<
            Option<Seq<u8>>,
            Failure,
        >(Some(v)) ==> #[trigger] holds_pair(pairs, k, v)
}

/// The walk below a node with the invariant gives the pairs that lookups
/// find.
pub proof fn lemma_walk_from(n: NodeModel, blocks: Blocks, conf: Config, way: Seq<nat>, i: nat)
    requires
        node_inv(n, blocks, conf, way),
        pairs_from(n, blocks, conf, way, i) is Ok,
    ensures
        walk_from_is_lookup(pairs_from(n, blocks, conf, way, i)->Ok_0, n, blocks, conf, way, i),
    decreases depth_limit(conf.bit_width as nat) - way.len(), 0nat, n.slots.len() - i,
{
    lemma_node_inv(n, blocks, conf, way);
    let all = pairs_from(n, blocks, conf, way, i)->Ok_0;
    if i < n.slots.len() {
        let ws = way.push(i);
        let first = pairs_of(n.slots[i as int], blocks, conf, ws)->Ok_0;
        let rest = pairs_from(n, blocks, conf, way, i + 1)->Ok_0;
        lemma_walk_from(n, blocks, conf, way, i + 1);
        lemma_walk_of(n.slots[i as int], blocks, conf, ws);
        assert forall|j: int| 0 <= j < all.len() implies reaches(
            (#[trigger] all[j]).0,
            conf,
            way,
        ) && key_route(all[j].0, conf.bit_width as nat)[way.len() as int] >= i && find(
            n,
            blocks,
            conf,
            way,
            all[j].0,
        ) == Ok::<Option<Seq<u8>>, Failure>(Some(all[j].1)) by {
            if j < first.len() {
                assert(all[j] == first[j]);
                lemma_reaches_parent(first[j].0, conf, way, i);
                lemma_find_slot(n, blocks, conf, way, first[j].0);
            } else {
                assert(all[j] == rest[j - first.len()]);
            }
        }
        assert forall|k: Seq<u8>, v: Seq<u8>|
            reaches(k, conf, way) && key_route(k, conf.bit_width as nat)[way.len() as int] >= i
                && find(n, blocks, conf, way, k) == Ok::<Option<Seq<u8>>, Failure>(
                Some(v),
            ) implies #[trigger] holds_pair(all, k, v) by {
            if key_route(k, conf.bit_width as nat)[way.len() as int] == i {
                lemma_find_slot(n, blocks, conf, way, k);
                assert(holds_pair(first, k, v));
                let j = choose|j: int| 0 <= j < first.len() && #[trigger] first[j] == (k, v);
                assert(all[j] == (k, v));
            } else {
                assert(holds_pair(rest, k, v));
                let j = choose|j: int| 0 <= j < rest.len() && #[trigger] rest[j] == (k, v);
                assert(all[j + first.len()] == (k, v));
            }
        }
    } else {
        assert forall|k: Seq<u8>, v: Seq<u8>|
            reaches(k, conf, way) && key_route(k, conf.bit_width as nat)[way.len() as int] >= i
                && find(n, blocks, conf, way, k) == Ok::<Option<Seq<u8>>, Failure>(
                Some(v),
            ) implies #[trigger] holds_pair(all, k, v) by {
            lemma_find_slot(n, blocks, conf, way, k);
        }
    }
}

/// The walk below a slot that meets the invariant gives the pairs that
/// lookups find through the slot.
pub proof fn lemma_walk_of(slot: Option<PointerModel>, blocks: Blocks, conf: Config, way: Seq<nat>)
    requires
        slot matches Some(p) ==> pointer_inv(p, blocks, conf, way),
        way.len() <= depth_limit(conf.bit_width as nat),
        pairs_of(slot, blocks, conf, way) is Ok,
    ensures
        walk_of_is_lookup(pairs_of(slot, blocks, conf, way)->Ok_0, slot, blocks, conf, way),
    decreases depth_limit(conf.bit_width as nat) - way.len(), 1nat, 0nat,
{
    let pairs = pairs_of(slot, blocks, conf, way)->Ok_0;
    match slot {
        None => {},
        Some(PointerModel::Values(ps)) => {
            assert forall|j: int| 0 <= j < ps.len() implies reaches(
                (#[trigger] ps[j]).0,
                conf,
                way,
            ) && slot_find(slot, blocks, conf, way, ps[j].0) == Ok::<Option<Seq<u8>>, Failure>(
                Some(ps[j].1),
            ) by {
                lemma_pairs_get_at(ps, j);
            }
            assert forall|k: Seq<u8>, v: Seq<u8>|
                reaches(k, conf, way) && slot_find(slot, blocks, conf, way, k) == Ok::<
                    Option<Seq<u8>>,
                    Failure,
                >(Some(v)) implies #[trigger] holds_pair(ps, k, v) by {
                let j = pairs_index(ps, k);
                assert(ps[j] == (k, v));
            }
        },
        Some(PointerModel::Link(cid)) => {
            let child = loaded(blocks, cid, conf, way)->Ok_0;
            super::lookup::lemma_flat_node(child, blocks, conf, way);
            lemma_walk_from(child, blocks, conf, way, 0);
            assert forall|k: Seq<u8>, v: Seq<u8>|
                reaches(k, conf, way) && slot_find(slot, blocks, conf, way, k) == Ok::<
                    Option<Seq<u8>>,
                    Failure,
                >(Some(v)) implies #[trigger] holds_pair(pairs, k, v) by {
                assert(find(child, blocks, conf, way, k) == Ok::<Option<Seq<u8>>, Failure>(
                    Some(v),
                ));
            }
        },
        Some(PointerModel::Resolved(child, _)) => {
            lemma_walk_from(*child, blocks, conf, way, 0);
            assert forall|k: Seq<u8>, v: Seq<u8>|
                reaches(k, conf, way) && slot_find(slot, blocks, conf, way, k) == Ok::<
                    Option<Seq<u8>>,
                    Failure,
                >(Some(v)) implies #[trigger] holds_pair(pairs, k, v) by {
                assert(find(*child, blocks, conf, way, k) == Ok::<Option<Seq<u8>>, Failure>(
                    Some(v),
                ));
            }
        },
    }
}

/// Appends copies of the pairs of a bucket.
fn copy_pairs(pairs: &Vec<KeyValue>, out: &mut Vec<KeyValue>)
    ensures
        pairs_model(final(out)@) == pairs_model(old(out)@) + pairs_model(pairs@),
{
    let mut j: usize = 0;
    assert(pairs_model(pairs@).take(0) =~= Seq::<Pair>::empty());
    assert(pairs_model(out@) + Seq::<Pair>::empty() =~= pairs_model(out@));
    while j < pairs.len()
        invariant
            j <= pairs@.len(),
            pairs_model(out@) == pairs_model(old(out)@) + pairs_model(pairs@).take(j as int),
        decreases pairs@.len() - j,
    {
        let ghost before = pairs_model(out@);
        let kv = &pairs[j];
        out.push(
            KeyValue { key: bytes_copy(kv.key.as_slice()), value: bytes_copy(kv.value.as_slice()) },
        );
        proof {
            assert(pairs_model(out@) =~= before.push(kv@));
            assert(pairs_model(pairs@).take(j + 1) =~= pairs_model(pairs@).take(j as int).push(
                kv@,
            ));
            assert(pairs_model(out@) =~= pairs_model(old(out)@) + pairs_model(pairs@).take(
                j + 1,
            ));
        }
        j += 1;
    }
    assert(pairs_model(pairs@).take(pairs@.len() as int) =~= pairs_model(pairs@));
}

/// What a walk promises: on success the pairs below the node have been
/// appended, in the order of the walk; a failure is that of the walk or of
/// the store.
pub open spec fn walked(
    n: NodeModel,
    blocks: Blocks,
    conf: Config,
    way: Seq<nat>,
    out_before: Seq<Pair>,
    out_after: Seq<Pair>,
    r: Result<(), Error>,
) -> bool {
    match r {
        Ok(()) => pairs_from(n, blocks, conf, way, 0) is Ok && out_after == out_before
            + pairs_from(n, blocks, conf, way, 0)->Ok_0,
        Err(e) => e is Store || (failure_of(e) matches Some(f) && pairs_from(
            n,
            blocks,
            conf,
            way,
            0,
        ) == Err::<Seq<Pair>, Failure>(f)),
    }
}

/// The walk so far and the walk that is left make up the whole walk.
pub open spec fn walk_split(
    n: NodeModel,
    blocks: Blocks,
    conf: Config,
    way: Seq<nat>,
    i: nat,
    so_far: Seq<Pair>,
) -> bool {
    pairs_from(n, blocks, conf, way, 0) == match pairs_from(n, blocks, conf, way, i) {
        Ok(rest) => Ok::<Seq<Pair>, Failure>(so_far + rest),
        Err(f) => Err(f),
    }
}

/// Whether the node at the end of `way` is wholly in memory and well
/// formed: a walk through it reads nothing from the store.
pub open spec fn whole(n: NodeModel, blocks: Blocks, conf: Config, way: Seq<nat>) -> bool {
    node_inv(n, blocks, conf, way) && canonical(n, blocks, conf, way)
}

/// Appends copies of the pairs below the node at the end of `way`, slot by
/// slot. Children that the node holds as links are read from the store for
/// the walk and not kept.
pub fn collect<S: Store>(
    node: &Node,
    store: &S,
    conf: &Config,
    way: &mut Vec<usize>,
    out: &mut Vec<KeyValue>,
) -> (r: Result<(), Error>)
    requires
        conf.valid(),
        old(way)@.len() <= 256,
    ensures
        final(way)@ == old(way)@,
        walked(
            node.model(),
            store.blocks(),
            *conf,
            way_of(old(way)@),
            pairs_model(old(out)@),
            pairs_model(final(out)@),
            r,
        ),
        whole(node.model(), store.blocks(), *conf, way_of(old(way)@)) ==> r is Ok,
    decreases 257 - old(way)@.len(),
{
    let ghost n = node.model();
    let ghost blocks = store.blocks();
    let ghost w = way_of(way@);
    let ghost start = pairs_model(out@);
    if way.len() >= depth_bound(conf) {
        return Err(Error::MaxDepth);
    }
    proof {
        lemma_node_inv(n, blocks, *conf, w);
        lemma_canonical(n, blocks, *conf, w);
    }
    let mut i: usize = 0;
    proof {
        assert(start + Seq::<Pair>::empty() =~= start);
    }
    let ghost mut so_far = Seq::<Pair>::empty();
    while i < node.slots.len()
        invariant
            conf.valid(),
            i <= node.slots@.len(),
            n == node.model(),
            blocks == store.blocks(),
            way@ == old(way)@,
            w == way_of(way@),
            way@.len() < depth_limit(conf.bit_width as nat),
            way@.len() < 256,
            walk_split(n, blocks, *conf, w, i as nat, so_far),
            pairs_model(out@) == start + so_far,
        decreases node.slots@.len() - i,
    {
        assert(n.slots[i as int] == slot_model(node.slots@[i as int]));
        let ghost before = pairs_model(out@);
        let ghost ws = w.push(i as nat);
        match &node.slots[i] {
            None => {
                proof {
                    assert(so_far + Seq::<Pair>::empty() =~= so_far);
                    lemma_walk_step(n, blocks, *conf, w, i as nat, so_far, Seq::empty());
                }
            },
            Some(Pointer::Values(pairs)) => {
                copy_pairs(pairs, out);
                proof {
                    lemma_walk_step(n, blocks, *conf, w, i as nat, so_far, pairs_model(pairs@));
                    assert(start + (so_far + pairs_model(pairs@)) =~= start + so_far + pairs_model(
                        pairs@,
                    ));
                    so_far = so_far + pairs_model(pairs@);
                }
            },
            Some(Pointer::Link(cid)) => {
                way.push(i);
                assert(way_of(way@) =~= ws);
                proof {
                    if whole(n, blocks, *conf, w) {
                        assert(pointer_canonical(n.slots[i as int]->Some_0, blocks, *conf, ws));
                    }
                }
                let child = match load_node(store, cid, conf, way) {
                    Ok(child) => child,
                    Err(e) => {
                        let _ = way.pop();
                        assert(way@ =~= old(way)@);
                        return Err(e);
                    },
                };
                let r = collect(&child, store, conf, way, out);
                let _ = way.pop();
                assert(way@ =~= old(way)@);
                match r {
                    Ok(()) => {},
                    Err(e) => {
                        return Err(e);
                    },
                }
                proof {
                    let below = pairs_from(child.model(), blocks, *conf, ws, 0)->Ok_0;
                    lemma_walk_step(n, blocks, *conf, w, i as nat, so_far, below);
                    assert(start + (so_far + below) =~= start + so_far + below);
                    so_far = so_far + below;
                }
            },
            Some(Pointer::Resolved { node: child, .. }) => {
                way.push(i);
                assert(way_of(way@) =~= ws);
                proof {
                    if whole(n, blocks, *conf, w) {
                        assert(pointer_inv(n.slots[i as int]->Some_0, blocks, *conf, ws));
                        assert(pointer_canonical(n.slots[i as int]->Some_0, blocks, *conf, ws));
                    }
                }
                let r = collect(child, store, conf, way, out);
                let _ = way.pop();
                assert(way@ =~= old(way)@);
                match r {
                    Ok(()) => {},
                    Err(e) => {
                        return Err(e);
                    },
                }
                proof {
                    let below = pairs_from(child.model(), blocks, *conf, ws, 0)->Ok_0;
                    lemma_walk_step(n, blocks, *conf, w, i as nat, so_far, below);
                    assert(start + (so_far + below) =~= start + so_far + below);
                    so_far = so_far + below;
                }
            },
        }
        i += 1;
    }
    proof {
        assert(so_far + Seq::<Pair>::empty() =~= so_far);
    }
    Ok(())
}

/// The walk below one more slot added to the walk so far.
proof fn lemma_walk_step(
    n: NodeModel,
    blocks: Blocks,
    conf: Config,
    way: Seq<nat>,
    i: nat,
    so_far: Seq<Pair>,
    below: Seq<Pair>,
)
    requires
        way.len() < depth_limit(conf.bit_width as nat),
        i < n.slots.len(),
        walk_split(n, blocks, conf, way, i, so_far),
        pairs_of(n.slots[i as int], blocks, conf, way.push(i)) == Ok::<Seq<Pair>, Failure>(below),
    ensures
        walk_split(n, blocks, conf, way, i + 1, so_far + below),
{
    match pairs_from(n, blocks, conf, way, i + 1) {
        Ok(rest) => {
            assert(so_far + (below + rest) =~= so_far + below + rest);
        },
        Err(_) => {},
    }
}

} // verus!
