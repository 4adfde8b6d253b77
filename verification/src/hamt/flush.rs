//! Writing the changed nodes of a trie to the block store.

use super::canon::{
    canonical, lemma_canonical, lemma_canonical_grow, lemma_canonical_update, lemma_rich_kept,
    pointer_canonical,
};
use super::codec::{
    bitmap_byte, bitmap_full, encode_node, node_encoding, node_writable, occupied, slots_encoding,
};
use super::grow::{
    lemma_inv_grow, lemma_kept_child, lemma_kept_grow, lemma_kept_trans, lookups_kept,
};
use super::hash::{lemma_two_pow_values, Config};
use super::lookup::{
    flatten, flatten_slot, lemma_node_inv, lemma_node_inv_update, loaded, node_clean, node_flat,
    node_inv, pointer_inv, Blocks,
};
use super::model::{bucket_ok, node_ok, Failure, NodeModel, PointerModel};
use super::ops::{way_of, Error};
use super::roundtrip::{lemma_decode_encode, pairs_plain, pointer_plain, slots_plain};
use super::tree::{slot_model, Node, Pointer};
use crate::cid::Cid;
use crate::store::{block_cid_bytes, put_block, Store, DAG_CBOR};
use vstd::prelude::*;

verus! {

proof fn lemma_flatten_slots_encoding(slots: Seq<Option<PointerModel>>)
    ensures
        slots_encoding(slots.map_values(|s: Option<PointerModel>| flatten_slot(s)))
            == slots_encoding(slots),
        occupied(slots.map_values(|s: Option<PointerModel>| flatten_slot(s))) == occupied(slots),
    decreases slots.len(),
{
    let f = |s: Option<PointerModel>| flatten_slot(s);
    let flat = slots.map_values(f);
    if slots.len() > 0 {
        lemma_flatten_slots_encoding(slots.drop_last());
        assert(flat.drop_last() =~= slots.drop_last().map_values(f));
        assert(flat.last() == flatten_slot(slots.last()));
    }
}

proof fn lemma_flatten_bitmap_byte(slots: Seq<Option<PointerModel>>, base: int, nbits: nat)
    requires
        base >= 0,
    ensures
        bitmap_byte(slots.map_values(|s: Option<PointerModel>| flatten_slot(s)), base, nbits)
            == bitmap_byte(slots, base, nbits),
    decreases nbits,
{
    if nbits > 0 {
        lemma_flatten_bitmap_byte(slots, base, (nbits - 1) as nat);
        let at = base + nbits - 1;
        let flat = slots.map_values(|s: Option<PointerModel>| flatten_slot(s));
        if 0 <= at < slots.len() {
            assert(flat[at] == flatten_slot(slots[at]));
        }
    }
}

/// Gaining blocks twice is gaining blocks.
pub proof fn lemma_submap_trans(a: Blocks, b: Blocks, c: Blocks)
    requires
        a.submap_of(b),
        b.submap_of(c),
    ensures
        a.submap_of(c),
{
    vstd::map_lib::lemma_submap_of_trans(a, b, c);
}

/// A node is written as its written form is.
pub proof fn lemma_flatten_encoding(n: NodeModel)
    ensures
        node_encoding(flatten(n)) == node_encoding(n),
{
    let f = |s: Option<PointerModel>| flatten_slot(s);
    let flat = n.slots.map_values(f);
    assert(flatten(n).slots =~= flat);
    lemma_flatten_slots_encoding(n.slots);
    assert(bitmap_full(flat) =~= bitmap_full(n.slots)) by {
        assert forall|j: int| 0 <= j < bitmap_full(flat).len() implies bitmap_full(flat)[j]
            == bitmap_full(n.slots)[j] by {
            lemma_flatten_bitmap_byte(
                n.slots,
                8 * (super::codec::bitmap_len(n.slots.len()) - 1 - j),
                8,
            );
        }
    }
}

/// The written form of a well-formed node without dirty children is well
/// formed, holds only buckets and links, and can be read back.
pub proof fn lemma_flatten_ok(n: NodeModel, conf: Config, way: Seq<nat>)
    requires
        conf.valid(),
        node_ok(n, conf, way),
        node_clean(n),
    ensures
        node_ok(flatten(n), conf, way),
        node_flat(flatten(n)),
        slots_plain(flatten(n).slots),
{
    let flat = flatten(n);
    assert forall|i: int| 0 <= i < flat.slots.len() implies match #[trigger] flat.slots[i] {
        None => true,
        Some(PointerModel::Values(pairs)) => bucket_ok(pairs, conf, way.push(i as nat)),
        Some(PointerModel::Link(cid)) => crate::cid::is_cid(cid),
        Some(PointerModel::Resolved(child, stored)) => false,
    } by {
        assert(flat.slots[i] == flatten_slot(n.slots[i]));
    }
    assert forall|i: int| 0 <= i < flat.slots.len() implies (#[trigger] flat.slots[i] matches Some(
        p,
    ) ==> pointer_plain(p)) by {
        match flat.slots[i] {
            Some(PointerModel::Values(pairs)) => {
                assert(bucket_ok(pairs, conf, way.push(i as nat)));
                assert(pairs_plain(pairs));
            },
            _ => {},
        }
    }
}

/// The number of slots of a node is a power of two between two and 256.
pub proof fn lemma_width(conf: Config)
    requires
        conf.valid(),
    ensures
        2 <= conf.width() <= 256,
        conf.width() == 2 || conf.width() == 4 || conf.width() % 8 == 0,
{
    lemma_two_pow_values();
}

/// A store that holds the encoding of a well-formed node without dirty
/// children under an identifier holds, under that identifier, the written
/// form of the node.
pub proof fn lemma_written_loaded(
    n: NodeModel,
    blocks: Blocks,
    cid: Seq<u8>,
    conf: Config,
    way: Seq<nat>,
)
    requires
        conf.valid(),
        node_ok(n, conf, way),
        node_clean(n),
        blocks.contains_key(cid),
        blocks[cid] == node_encoding(n),
    ensures
        loaded(blocks, cid, conf, way) == Ok::<NodeModel, Failure>(flatten(n)),
{
    lemma_flatten_encoding(n);
    lemma_flatten_ok(n, conf, way);
    lemma_width(conf);
    lemma_decode_encode(flatten(n));
}

/// What writing a trie promises, whether it succeeds or not: the store only
/// gains blocks, the trie keeps its invariant, and every lookup that
/// succeeded finds what it found.
pub open spec fn flush_keeps(
    before: NodeModel,
    blocks_before: Blocks,
    after: NodeModel,
    blocks_after: Blocks,
    conf: Config,
    way: Seq<nat>,
) -> bool {
    &&& blocks_before.submap_of(blocks_after)
    &&& node_inv(after, blocks_after, conf, way)
    &&& lookups_kept(before, blocks_before, after, blocks_after, conf, way)
}

/// What a successful writing of a trie returns: the identifier of the
/// encoding of the root, under which the store now holds the written form
/// of the root, which has no dirty child left.
pub open spec fn flushed_as(after: NodeModel, blocks_after: Blocks, conf: Config, way: Seq<nat>, cid: Seq<u8>)
    -> bool {
    &&& node_clean(after)
    &&& cid == block_cid_bytes(DAG_CBOR, node_encoding(after))
    &&& loaded(blocks_after, cid, conf, way) == Ok::<NodeModel, Failure>(flatten(after))
}

/// Whether `cid` is the identifier that a child in memory below the node
/// has been written under.
pub open spec fn names_child(n: NodeModel, cid: Seq<u8>) -> bool
    decreases n,
{
    exists|i: int|
        0 <= i < n.slots.len() && match #[trigger] n.slots[i] {
            Some(PointerModel::Resolved(child, stored)) => stored == Some(cid) || names_child(
                *child,
                cid,
            ),
            _ => false,
        }
}

/// Whether `cid` is the identifier that the child in a slot, or a child
/// below it, has been written under.
pub open spec fn slot_names(slot: Option<PointerModel>, cid: Seq<u8>) -> bool {
    slot matches Some(PointerModel::Resolved(child, stored)) && (stored == Some(cid)
        || names_child(*child, cid))
}

/// Whether nothing has come into the store but the written forms of the
/// child in a slot and of children below it.
pub open spec fn wrote_below(before: Blocks, after: Blocks, slot: Option<PointerModel>) -> bool {
    forall|c: Seq<u8>|
        #[trigger] after.contains_key(c) && !before.contains_key(c) ==> slot_names(slot, c)
}

/// Whether nothing has come into the store but the written forms of
/// children below a node, and of the node itself under `own`.
pub open spec fn wrote_only(before: Blocks, after: Blocks, n: NodeModel, own: Option<Seq<u8>>)
    -> bool {
    forall|c: Seq<u8>|
        #[trigger] after.contains_key(c) && !before.contains_key(c) ==> names_child(n, c) || own
            == Some(c)
}

/// The identifier that a writing returned, if it returned one.
pub open spec fn own_cid(r: Result<Cid, Error>) -> Option<Seq<u8>> {
    match r {
        Ok(cid) => Some(cid@),
        Err(_) => None,
    }
}

/// Whether nothing has come into the store but the written forms of the
/// children in the slots before `i` and of children below them.
pub open spec fn wrote_up_to(before: Blocks, after: Blocks, n: NodeModel, i: int) -> bool {
    forall|c: Seq<u8>|
        #[trigger] after.contains_key(c) && !before.contains_key(c) ==> exists|j: int|
            0 <= j < i && j < n.slots.len() && slot_names(#[trigger] n.slots[j], c)
}

/// What has come into the store with the children in the first slots of
/// a node has come with children below the node.
pub proof fn lemma_wrote_up_to(before: Blocks, after: Blocks, n: NodeModel, i: int)
    requires
        wrote_up_to(before, after, n, i),
    ensures
        wrote_only(before, after, n, None),
{
    assert forall|c: Seq<u8>|
        #[trigger] after.contains_key(c) && !before.contains_key(c) implies names_child(n, c) by {
        let j = choose|j: int| 0 <= j < i && j < n.slots.len() && slot_names(
            #[trigger] n.slots[j],
            c,
        );
        lemma_names_child(n, j, c);
    }
}

/// What a slot names, the node names.
pub proof fn lemma_names_child(n: NodeModel, slot: int, cid: Seq<u8>)
    requires
        0 <= slot < n.slots.len(),
        slot_names(n.slots[slot], cid),
    ensures
        names_child(n, cid),
{
}

/// Writes the dirty child in `slot`, if it holds one, and records the
/// identifier it was written under.
fn flush_slot<S: Store>(
    node: &mut Node,
    store: &mut S,
    conf: &Config,
    way: &mut Vec<usize>,
    slot: usize,
) -> (r: Result<(), Error>)
    requires
        conf.valid(),
        slot < old(node).slots@.len(),
        node_inv(old(node).model(), old(store).blocks(), *conf, way_of(old(way)@)),
    ensures
        final(way)@ == old(way)@,
        final(node).slots@.len() == old(node).slots@.len(),
        flush_keeps(
            old(node).model(),
            old(store).blocks(),
            final(node).model(),
            final(store).blocks(),
            *conf,
            way_of(old(way)@),
        ),
        forall|j: int|
            0 <= j < old(node).slots@.len() && j != slot
                ==> final(node).model().slots[j] == old(node).model().slots[j],
        canonical(old(node).model(), old(store).blocks(), *conf, way_of(old(way)@)) ==> canonical(
            final(node).model(),
            final(store).blocks(),
            *conf,
            way_of(old(way)@),
        ),
        wrote_below(
            old(store).blocks(),
            final(store).blocks(),
            final(node).model().slots[slot as int],
        ),
        match r {
            Ok(()) => !(final(node).model().slots[slot as int] matches Some(
                PointerModel::Resolved(_, None),
            )),
            Err(e) => e is Put,
        },
    decreases 257 - old(way)@.len(), 0nat,
{
    let ghost before = node.model();
    let ghost blocks = store.blocks();
    let ghost w = way_of(way@);
    let ghost ws = w.push(slot as nat);
    proof {
        lemma_node_inv(before, blocks, *conf, w);
        lemma_kept_grow(before, blocks, blocks, *conf, w);
        assert(before.slots[slot as int] == slot_model(node.slots@[slot as int]));
    }
    let dirty = match &node.slots[slot] {
        Some(Pointer::Resolved { stored, .. }) => stored.is_none(),
        _ => false,
    };
    if !dirty {
        return Ok(());
    }
    proof {
        assert(pointer_inv(before.slots[slot as int]->Some_0, blocks, *conf, ws));
    }
    let r = match &mut node.slots[slot] {
        Some(Pointer::Resolved { node: child, stored }) => {
            way.push(slot);
            assert(way_of(way@) =~= ws);
            let r = flush(child, store, conf, way);
            let _ = way.pop();
            assert(way@ =~= old(way)@);
            match r {
                Ok(cid) => {
                    let _ = cid.as_bytes();
                    *stored = Some(cid);
                    Ok(())
                },
                Err(e) => Err(e),
            }
        },
        _ => {
            assert(false);
            Ok(())
        },
    };
    proof {
        let after = node.model();
        let more = store.blocks();
        assert(after.slots[slot as int] == slot_model(node.slots@[slot as int]));
        assert forall|j: int|
            0 <= j < before.slots.len() && j != slot implies after.slots[j]
            == before.slots[j] by {}
        lemma_inv_grow(before, blocks, more, *conf, w);
        lemma_node_inv_update(before, after, more, *conf, w, slot as int);
        lemma_kept_child(before, after, blocks, more, *conf, w, slot as int);
        if canonical(before, blocks, *conf, w) {
            lemma_canonical(before, blocks, *conf, w);
            assert(pointer_canonical(before.slots[slot as int]->Some_0, blocks, *conf, ws));
            lemma_canonical_grow(before, blocks, more, *conf, w);
            let child_before = before.slots[slot as int]->Some_0->Resolved_0;
            let child_after = after.slots[slot as int]->Some_0->Resolved_0;
            lemma_rich_kept(*child_before, blocks, *child_after, more, *conf, ws);
            lemma_canonical_update(before, after, more, *conf, w, slot as int);
        }
    }
    r
}

/// Writes every dirty node below the node at the end of `way`, children
/// before their parents, and then the node itself. Returns the identifier
/// of the node.
pub fn flush<S: Store>(node: &mut Node, store: &mut S, conf: &Config, way: &mut Vec<usize>) -> (r:
    Result<Cid, Error>)
    requires
        conf.valid(),
        node_inv(old(node).model(), old(store).blocks(), *conf, way_of(old(way)@)),
    ensures
        final(way)@ == old(way)@,
        flush_keeps(
            old(node).model(),
            old(store).blocks(),
            final(node).model(),
            final(store).blocks(),
            *conf,
            way_of(old(way)@),
        ),
        canonical(old(node).model(), old(store).blocks(), *conf, way_of(old(way)@)) ==> canonical(
            final(node).model(),
            final(store).blocks(),
            *conf,
            way_of(old(way)@),
        ),
        wrote_only(old(store).blocks(), final(store).blocks(), final(node).model(), own_cid(r)),
        match r {
            Ok(cid) => flushed_as(
                final(node).model(),
                final(store).blocks(),
                *conf,
                way_of(old(way)@),
                cid@,
            ),
            Err(e) => e is Put,
        },
    decreases 257 - old(way)@.len(), 1nat,
{
    let ghost before = node.model();
    let ghost blocks = store.blocks();
    let ghost w = way_of(way@);
    proof {
        lemma_node_inv(before, blocks, *conf, w);
        lemma_kept_grow(before, blocks, blocks, *conf, w);
        lemma_width(*conf);
    }
    let mut i: usize = 0;
    while i < node.slots.len()
        invariant
            conf.valid(),
            i <= node.slots@.len(),
            node.slots@.len() == old(node).slots@.len(),
            way@ == old(way)@,
            w == way_of(way@),
            before == old(node).model(),
            blocks == old(store).blocks(),
            flush_keeps(before, blocks, node.model(), store.blocks(), *conf, w),
            canonical(before, blocks, *conf, w) ==> canonical(
                node.model(),
                store.blocks(),
                *conf,
                w,
            ),
            forall|j: int|
                0 <= j < i ==> !(#[trigger] node.model().slots[j] matches Some(
                    PointerModel::Resolved(_, None),
                )),
            wrote_up_to(blocks, store.blocks(), node.model(), i as int),
        decreases node.slots@.len() - i,
    {
        let ghost mid = node.model();
        let ghost mid_blocks = store.blocks();
        let r = flush_slot(node, store, conf, way, i);
        proof {
            lemma_submap_trans(blocks, mid_blocks, store.blocks());
            lemma_kept_trans(
                before,
                blocks,
                mid,
                mid_blocks,
                node.model(),
                store.blocks(),
                *conf,
                w,
            );
            assert forall|j: int| 0 <= j < i implies !(#[trigger] node.model().slots[j] matches Some(
                PointerModel::Resolved(_, None),
            )) by {
                assert(node.model().slots[j] == mid.slots[j]);
            }
            assert forall|c: Seq<u8>|
                #[trigger] store.blocks().contains_key(c) && !blocks.contains_key(
                    c,
                ) implies exists|j: int|
                0 <= j < i + 1 && j < node.model().slots.len() && slot_names(
                    #[trigger] node.model().slots[j],
                    c,
                ) by {
                if mid_blocks.contains_key(c) {
                    let j = choose|j: int|
                        0 <= j < i && j < mid.slots.len() && slot_names(#[trigger] mid.slots[j], c);
                    assert(node.model().slots[j] == mid.slots[j]);
                } else {
                    assert(slot_names(node.model().slots[i as int], c));
                }
            }
        }
        match r {
            Ok(()) => {},
            Err(e) => {
                proof {
                    lemma_wrote_up_to(blocks, store.blocks(), node.model(), i + 1);
                }
                return Err(e);
            },
        }
        i += 1;
    }
    let ghost mid = node.model();
    let ghost mid_blocks = store.blocks();
    proof {
        lemma_node_inv(mid, mid_blocks, *conf, w);
        assert(node_clean(mid));
        assert(node_writable(mid)) by {
            assert forall|j: int| 0 <= j < mid.slots.len() implies (#[trigger] mid.slots[j] matches Some(
                p,
            ) ==> super::codec::pointer_writable(p)) by {}
        }
    }
    let bytes = encode_node(node);
    match put_block(store, DAG_CBOR, bytes.as_slice()) {
        Ok(cid) => {
            proof {
                let more = store.blocks();
                lemma_wrote_up_to(blocks, mid_blocks, mid, mid.slots.len() as int);
                assert forall|c: Seq<u8>|
                    #[trigger] more.contains_key(c) && !blocks.contains_key(c) implies names_child(
                    mid,
                    c,
                ) || c == cid@ by {
                    if c != cid@ {
                        assert(mid_blocks.contains_key(c));
                    }
                }
                lemma_submap_trans(blocks, mid_blocks, more);
                lemma_inv_grow(mid, mid_blocks, more, *conf, w);
                lemma_kept_grow(mid, mid_blocks, more, *conf, w);
                lemma_kept_trans(before, blocks, mid, mid_blocks, mid, more, *conf, w);
                lemma_written_loaded(mid, more, cid@, *conf, w);
                if canonical(before, blocks, *conf, w) {
                    lemma_canonical_grow(mid, mid_blocks, more, *conf, w);
                }
            }
            Ok(cid)
        },
        Err(e) => {
            proof {
                lemma_wrote_up_to(blocks, mid_blocks, mid, mid.slots.len() as int);
            }
            Err(Error::Put(e))
        },
    }
}

} // verus!
