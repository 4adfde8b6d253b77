//! Two tries in canonical form that hold the same pairs are written the
//! same.

use super::canon::{
    bucket_jammed, canonical, crowd, jam, jammed, lemma_canonical, pointer_canonical, rich,
};
use super::codec::{
    bitmap_byte, bitmap_full, bitmap_len, node_encoding, occupied, pointer_encoding, slots_encoding,
};
use super::hash::{depth_limit, key_route, Config};
use super::lookup::{
    find, holds_bucket_and, lemma_find_slot, lemma_node_inv, lemma_reaches_parent, node_clean,
    node_inv, pointer_inv, reaches, slot_find, Blocks,
};
use super::model::{
    bucket_ok, lemma_pairs_get_at, lemma_sorted_distinct, pairs_get, pairs_has, pairs_index,
    pairs_sorted, NodeModel, Pair, PointerModel,
};
use crate::bytes::{bytes_before, lemma_bytes_before_irreflexive, lemma_bytes_before_transitive};
use vstd::prelude::*;

verus! {

/// No more different keys occur among pairs than there are pairs.
pub proof fn lemma_pigeonhole(keys: Seq<Seq<u8>>, pairs: Seq<Pair>)
    requires
        forall|i: int, j: int|
            0 <= i < keys.len() && 0 <= j < keys.len() && i != j ==> #[trigger] keys[i]
                != #[trigger] keys[j],
        forall|i: int| 0 <= i < keys.len() ==> pairs_has(pairs, #[trigger] keys[i]),
    ensures
        keys.len() <= pairs.len(),
    decreases pairs.len(),
{
    if pairs.len() == 0 {
        if keys.len() > 0 {
            assert(pairs_has(pairs, keys[0]));
        }
    } else {
        let last = pairs.last().0;
        let fewer = pairs.drop_last();
        let rest = if exists|i: int| 0 <= i < keys.len() && keys[i] == last {
            let at = choose|i: int| 0 <= i < keys.len() && keys[i] == last;
            keys.remove(at)
        } else {
            keys
        };
        assert forall|i: int, j: int|
            0 <= i < rest.len() && 0 <= j < rest.len() && i != j implies #[trigger] rest[i]
            != #[trigger] rest[j] by {
            if exists|i: int| 0 <= i < keys.len() && keys[i] == last {
                let at = choose|i: int| 0 <= i < keys.len() && keys[i] == last;
                let i0 = if i < at { i } else { i + 1 };
                let j0 = if j < at { j } else { j + 1 };
                assert(rest[i] == keys[i0] && rest[j] == keys[j0]);
            }
        }
        assert forall|i: int| 0 <= i < rest.len() implies pairs_has(fewer, #[trigger] rest[i]) by {
            let k = rest[i];
            if exists|i: int| 0 <= i < keys.len() && keys[i] == last {
                let at = choose|i: int| 0 <= i < keys.len() && keys[i] == last;
                let i0 = if i < at { i } else { i + 1 };
                assert(rest[i] == keys[i0]);
                assert(keys[i0] != keys[at]);
                assert(pairs_has(pairs, keys[i0]));
            } else {
                assert(pairs_has(pairs, keys[i]));
            }
            assert(k != last);
            let p = pairs_index(pairs, k);
            assert(fewer[p] == pairs[p]);
        }
        lemma_pigeonhole(rest, fewer);
    }
}

/// As many different keys as there are pairs, all occurring among the
/// pairs, are all the keys of the pairs.
pub proof fn lemma_pigeonhole_onto(keys: Seq<Seq<u8>>, pairs: Seq<Pair>, at: int)
    requires
        forall|i: int, j: int|
            0 <= i < keys.len() && 0 <= j < keys.len() && i != j ==> #[trigger] keys[i]
                != #[trigger] keys[j],
        forall|i: int| 0 <= i < keys.len() ==> pairs_has(pairs, #[trigger] keys[i]),
        forall|i: int, j: int|
            0 <= i < pairs.len() && 0 <= j < pairs.len() && i != j ==> (#[trigger] pairs[i]).0 != (
            #[trigger] pairs[j]).0,
        keys.len() == pairs.len(),
        0 <= at < pairs.len(),
    ensures
        exists|i: int| 0 <= i < keys.len() && #[trigger] keys[i] == pairs[at].0,
    decreases pairs.len(),
{
    let last = pairs.last().0;
    let fewer = pairs.drop_last();
    if !(exists|i: int| 0 <= i < keys.len() && #[trigger] keys[i] == last) {
        assert forall|i: int| 0 <= i < keys.len() implies pairs_has(fewer, #[trigger] keys[i]) by {
            let p = pairs_index(pairs, keys[i]);
            assert(pairs_has(pairs, keys[i]));
            assert(fewer[p] == pairs[p]);
        }
        lemma_pigeonhole(keys, fewer);
    } else {
        let found = choose|i: int| 0 <= i < keys.len() && #[trigger] keys[i] == last;
        if at < pairs.len() - 1 {
            let rest = keys.remove(found);
            assert forall|i: int, j: int|
                0 <= i < rest.len() && 0 <= j < rest.len() && i != j implies #[trigger] rest[i]
                != #[trigger] rest[j] by {
                let i0 = if i < found { i } else { i + 1 };
                let j0 = if j < found { j } else { j + 1 };
                assert(rest[i] == keys[i0] && rest[j] == keys[j0]);
            }
            assert forall|i: int| 0 <= i < rest.len() implies pairs_has(fewer, #[trigger] rest[i]) by {
                let i0 = if i < found { i } else { i + 1 };
                assert(rest[i] == keys[i0]);
                assert(keys[i0] != keys[found]);
                assert(pairs_has(pairs, keys[i0]));
                let p = pairs_index(pairs, keys[i0]);
                assert(fewer[p] == pairs[p]);
            }
            assert forall|i: int, j: int|
                0 <= i < fewer.len() && 0 <= j < fewer.len() && i != j implies (#[trigger] fewer[i]).0
                != (#[trigger] fewer[j]).0 by {
                assert(fewer[i] == pairs[i] && fewer[j] == pairs[j]);
            }
            lemma_pigeonhole_onto(rest, fewer, at);
            let r = choose|i: int| 0 <= i < rest.len() && #[trigger] rest[i] == fewer[at].0;
            let r0 = if r < found { r } else { r + 1 };
            assert(rest[r] == keys[r0]);
            assert(keys[r0] == pairs[at].0);
        } else {
            assert(keys[found] == pairs[at].0);
        }
    }
}

/// Where a node holds a new pair and the first pairs of a full bucket, and
/// there is no room in it for the next pair of the bucket, the bucket is
/// full of keys that no depth parts from the new key.
pub proof fn lemma_split_jam(
    sub: NodeModel,
    blocks: Blocks,
    conf: Config,
    way: Seq<nat>,
    pairs: Seq<Pair>,
    i: int,
    key: Seq<u8>,
    value: Seq<u8>,
)
    requires
        holds_bucket_and(sub, blocks, conf, way, pairs.take(i), key, value),
        0 <= i < pairs.len(),
        pairs.len() == conf.bucket_size,
        pairs_sorted(pairs),
        !pairs_has(pairs, key),
        reaches(key, conf, way),
        reaches(pairs[i].0, conf, way),
        jammed(sub, blocks, conf, way, pairs[i].0),
    ensures
        bucket_jammed(pairs, conf, key),
{
    let next = pairs[i].0;
    let keys = choose|keys: Seq<Seq<u8>>| #[trigger] jam(keys, sub, blocks, conf, way, next);
    let held = pairs.take(i).push((key, value));
    assert forall|j: int| 0 <= j < keys.len() implies pairs_has(held, #[trigger] keys[j]) by {
        let k = keys[j];
        crate::hamt::hash::lemma_all_hashed(k);
        assert(reaches(k, conf, way));
        assert(find(sub, blocks, conf, way, k) == Ok::<
            Option<Seq<u8>>,
            crate::hamt::model::Failure,
        >(
            if k == key {
                Some(value)
            } else {
                pairs_get(pairs.take(i), k)
            },
        ));
        if k == key {
            assert(held[i].0 == k);
        } else {
            let p = pairs_index(pairs.take(i), k);
            assert(pairs_has(pairs.take(i), k));
            assert(held[p] == pairs.take(i)[p]);
        }
    }
    lemma_pigeonhole(keys, held);
    assert forall|a: int, b: int|
        0 <= a < held.len() && 0 <= b < held.len() && a != b implies (#[trigger] held[a]).0 != (
    #[trigger] held[b]).0 by {
        if a < i && b < i {
            assert(held[a] == pairs[a] && held[b] == pairs[b]);
            if held[a].0 == held[b].0 {
                lemma_sorted_distinct(pairs, a, b);
            }
        } else if a < i {
            assert(held[a] == pairs[a]);
        } else {
            assert(held[b] == pairs[b]);
        }
    }
    assert forall|j: int| 0 <= j < pairs.len() implies (#[trigger] pairs[j]).0 != key && key_route(
        pairs[j].0,
        conf.bit_width as nat,
    ) == key_route(key, conf.bit_width as nat) by {
        lemma_pigeonhole_onto(keys, held, i);
        let at_key = choose|a: int| 0 <= a < keys.len() && #[trigger] keys[a] == held[i].0;
        assert(keys[at_key] == key);
        if j < i {
            lemma_pigeonhole_onto(keys, held, j);
            let at = choose|a: int| 0 <= a < keys.len() && #[trigger] keys[a] == held[j].0;
            assert(held[j] == pairs[j]);
            assert(keys[at] == pairs[j].0);
        }
    }
}

/// A trie does not hold more keys than a bucket holds that no depth
/// parts: of one more such keys than a bucket holds, one is not found.
pub proof fn lemma_room_bounded(
    n: NodeModel,
    blocks: Blocks,
    conf: Config,
    way: Seq<nat>,
    keys: Seq<Seq<u8>>,
)
    requires
        node_inv(n, blocks, conf, way),
        keys.len() == conf.bucket_size + 1,
        forall|i: int, j: int|
            0 <= i < keys.len() && 0 <= j < keys.len() && i != j ==> #[trigger] keys[i]
                != #[trigger] keys[j],
        forall|i: int|
            0 <= i < keys.len() ==> reaches(#[trigger] keys[i], conf, way) && key_route(
                keys[i],
                conf.bit_width as nat,
            ) == key_route(keys[0], conf.bit_width as nat),
    ensures
        exists|i: int|
            0 <= i < keys.len() && !(#[trigger] find(n, blocks, conf, way, keys[i]) matches Ok(
                Some(_),
            )),
    decreases depth_limit(conf.bit_width as nat) - way.len(),
{
    if forall|i: int|
        0 <= i < keys.len() ==> (#[trigger] find(n, blocks, conf, way, keys[i]) matches Ok(
            Some(_),
        )) {
        lemma_node_inv(n, blocks, conf, way);
        let slot = key_route(keys[0], conf.bit_width as nat)[way.len() as int];
        let ws = way.push(slot);
        assert(reaches(keys[0], conf, way));
        lemma_find_slot(n, blocks, conf, way, keys[0]);
        assert(find(n, blocks, conf, way, keys[0]) matches Ok(Some(_)));
        assert forall|i: int| 0 <= i < keys.len() implies reaches(#[trigger] keys[i], conf, ws)
            && (slot_find(n.slots[slot as int], blocks, conf, ws, keys[i]) matches Ok(Some(_))) by {
            assert(reaches(keys[i], conf, way));
            lemma_find_slot(n, blocks, conf, way, keys[i]);
            assert(find(n, blocks, conf, way, keys[i]) matches Ok(Some(_)));
        }
        assert(slot_find(n.slots[slot as int], blocks, conf, ws, keys[0]) matches Ok(Some(_)));
        match n.slots[slot as int] {
            Some(PointerModel::Values(pairs)) => {
                assert(pointer_inv(n.slots[slot as int]->Some_0, blocks, conf, ws));
                assert forall|i: int| 0 <= i < keys.len() implies pairs_has(
                    pairs,
                    #[trigger] keys[i],
                ) by {
                    assert(slot_find(n.slots[slot as int], blocks, conf, ws, keys[i]) matches Ok(
                        Some(_),
                    ));
                }
                lemma_pigeonhole(keys, pairs);
            },
            Some(PointerModel::Resolved(child, _)) => {
                assert(pointer_inv(n.slots[slot as int]->Some_0, blocks, conf, ws));
                lemma_room_bounded(*child, blocks, conf, ws, keys);
                let i = choose|i: int|
                    0 <= i < keys.len() && !(#[trigger] find(*child, blocks, conf, ws, keys[i])
                        matches Ok(Some(_)));
                assert(slot_find(n.slots[slot as int], blocks, conf, ws, keys[i]) matches Ok(
                    Some(_),
                ));
            },
            Some(PointerModel::Link(cid)) => {
                let child = crate::hamt::lookup::loaded(blocks, cid, conf, ws)->Ok_0;
                crate::hamt::lookup::lemma_flat_node(child, blocks, conf, ws);
                lemma_room_bounded(child, blocks, conf, ws, keys);
                let i = choose|i: int|
                    0 <= i < keys.len() && !(#[trigger] find(child, blocks, conf, ws, keys[i])
                        matches Ok(Some(_)));
                assert(slot_find(n.slots[slot as int], blocks, conf, ws, keys[i]) matches Ok(
                    Some(_),
                ));
            },
            None => {},
        }
    }
}

/// Two buckets in the order of their keys in which every key has the same
/// value are the same.
pub proof fn lemma_sorted_same(a: Seq<Pair>, b: Seq<Pair>)
    requires
        pairs_sorted(a),
        pairs_sorted(b),
        forall|k: Seq<u8>| #[trigger] pairs_get(a, k) == pairs_get(b, k),
    ensures
        a == b,
    decreases a.len(),
{
    if a.len() == 0 {
        if b.len() > 0 {
            lemma_pairs_get_at(b, 0);
            assert(pairs_get(a, b[0].0) == pairs_get(b, b[0].0));
        }
        assert(a =~= b);
    } else if b.len() == 0 {
        lemma_pairs_get_at(a, 0);
        assert(pairs_get(a, a[0].0) == pairs_get(b, a[0].0));
    } else {
        // The last pairs are the same: each has the greatest key.
        let la = a.len() - 1;
        let lb = b.len() - 1;
        lemma_pairs_get_at(a, la);
        lemma_pairs_get_at(b, lb);
        assert(pairs_get(b, a[la].0) == pairs_get(a, a[la].0));
        assert(pairs_get(a, b[lb].0) == pairs_get(b, b[lb].0));
        let ia = pairs_index(a, b[lb].0);
        let ib = pairs_index(b, a[la].0);
        lemma_pairs_get_at(a, ia);
        lemma_pairs_get_at(b, ib);
        if a[la].0 != b[lb].0 {
            lemma_bytes_before_irreflexive(a[la].0);
            assert(ia < la);
            assert(ib < lb);
            assert(bytes_before(a[ia].0, a[la].0));
            assert(bytes_before(b[ib].0, b[lb].0));
            lemma_bytes_before_transitive(a[la].0, b[lb].0, a[la].0);
        }
        assert(a[la] == b[lb]);
        let fa = a.drop_last();
        let fb = b.drop_last();
        assert forall|k: Seq<u8>| #[trigger] pairs_get(fa, k) == pairs_get(fb, k) by {
            lemma_drop_last_get(a, k);
            lemma_drop_last_get(b, k);
            assert(pairs_get(a, k) == pairs_get(b, k));
        }
        assert(pairs_sorted(fa)) by {
            assert forall|i: int, j: int| 0 <= i < j < fa.len() implies bytes_before(
                #[trigger] fa[i].0,
                #[trigger] fa[j].0,
            ) by {
                assert(fa[i] == a[i] && fa[j] == a[j]);
            }
        }
        assert(pairs_sorted(fb)) by {
            assert forall|i: int, j: int| 0 <= i < j < fb.len() implies bytes_before(
                #[trigger] fb[i].0,
                #[trigger] fb[j].0,
            ) by {
                assert(fb[i] == b[i] && fb[j] == b[j]);
            }
        }
        lemma_sorted_same(fa, fb);
        assert(a =~= fa.push(a[la]));
        assert(b =~= fb.push(b[lb]));
    }
}

/// What a key has in a bucket without its last pair: nothing where it is
/// the key of the last pair, and else what it has in the bucket.
proof fn lemma_drop_last_get(a: Seq<Pair>, k: Seq<u8>)
    requires
        pairs_sorted(a),
        a.len() > 0,
    ensures
        pairs_get(a.drop_last(), k) == if k == a.last().0 {
            None
        } else {
            pairs_get(a, k)
        },
{
    let f = a.drop_last();
    let la = a.len() - 1;
    if pairs_has(f, k) {
        let i = pairs_index(f, k);
        assert(f[i] == a[i]);
        lemma_pairs_get_at(a, i);
        assert(pairs_sorted(f)) by {
            assert forall|i: int, j: int| 0 <= i < j < f.len() implies bytes_before(
                #[trigger] f[i].0,
                #[trigger] f[j].0,
            ) by {
                assert(f[i] == a[i] && f[j] == a[j]);
            }
        }
        lemma_pairs_get_at(f, i);
        if k == a.last().0 {
            lemma_sorted_distinct(a, i, la);
        }
    } else if k != a.last().0 && pairs_has(a, k) {
        let i = pairs_index(a, k);
        assert(i < la);
        assert(f[i] == a[i]);
        assert(f[i].0 == k);
    }
}

/// The encoding of one slot: that of its pointer, or nothing.
pub open spec fn slot_encoding(slot: Option<PointerModel>) -> Seq<u8> {
    match slot {
        Some(p) => pointer_encoding(p),
        None => Seq::empty(),
    }
}

proof fn lemma_slots_encoding_same(a: Seq<Option<PointerModel>>, b: Seq<Option<PointerModel>>)
    requires
        a.len() == b.len(),
        forall|i: int|
            0 <= i < a.len() ==> (a[i] is Some) == (b[i] is Some) && slot_encoding(a[i])
                == slot_encoding(b[i]),
    ensures
        slots_encoding(a) == slots_encoding(b),
        occupied(a) == occupied(b),
    decreases a.len(),
{
    if a.len() > 0 {
        let fa = a.drop_last();
        let fb = b.drop_last();
        assert forall|i: int| 0 <= i < fa.len() implies (fa[i] is Some) == (fb[i] is Some)
            && slot_encoding(fa[i]) == slot_encoding(fb[i]) by {
            assert(fa[i] == a[i] && fb[i] == b[i]);
        }
        lemma_slots_encoding_same(fa, fb);
        assert(slot_encoding(a.last()) == slot_encoding(b.last()));
    }
}

proof fn lemma_bitmap_byte_same(
    a: Seq<Option<PointerModel>>,
    b: Seq<Option<PointerModel>>,
    base: int,
    nbits: nat,
)
    requires
        base >= 0,
        a.len() == b.len(),
        forall|i: int| 0 <= i < a.len() ==> (a[i] is Some) == (b[i] is Some),
    ensures
        bitmap_byte(a, base, nbits) == bitmap_byte(b, base, nbits),
    decreases nbits,
{
    if nbits > 0 {
        lemma_bitmap_byte_same(a, b, base, (nbits - 1) as nat);
    }
}

/// Two nodes whose slots are occupied alike and written alike are written
/// alike.
pub proof fn lemma_encoding_same(a: NodeModel, b: NodeModel)
    requires
        a.slots.len() == b.slots.len(),
        forall|i: int|
            0 <= i < a.slots.len() ==> (a.slots[i] is Some) == (b.slots[i] is Some)
                && slot_encoding(a.slots[i]) == slot_encoding(b.slots[i]),
    ensures
        node_encoding(a) == node_encoding(b),
{
    lemma_slots_encoding_same(a.slots, b.slots);
    assert(bitmap_full(a.slots) =~= bitmap_full(b.slots)) by {
        assert forall|j: int| 0 <= j < bitmap_full(a.slots).len() implies bitmap_full(a.slots)[j]
            == bitmap_full(b.slots)[j] by {
            lemma_bitmap_byte_same(a.slots, b.slots, 8 * (bitmap_len(a.slots.len()) - 1 - j), 8);
        }
    }
}

/// Whether lookups find the same through a slot of one trie as through a
/// slot of another.
pub open spec fn slots_agree(
    a: Option<PointerModel>,
    blocks_a: Blocks,
    b: Option<PointerModel>,
    blocks_b: Blocks,
    conf: Config,
    way: Seq<nat>,
) -> bool {
    forall|k: Seq<u8>|
        reaches(k, conf, way) ==> #[trigger] slot_find(a, blocks_a, conf, way, k) == slot_find(
            b,
            blocks_b,
            conf,
            way,
            k,
        )
}

/// Whether lookups find the same in one trie as in another.
pub open spec fn nodes_agree(
    a: NodeModel,
    blocks_a: Blocks,
    b: NodeModel,
    blocks_b: Blocks,
    conf: Config,
    way: Seq<nat>,
) -> bool {
    forall|k: Seq<u8>|
        reaches(k, conf, way) ==> #[trigger] find(a, blocks_a, conf, way, k) == find(
            b,
            blocks_b,
            conf,
            way,
            k,
        )
}

/// A slot that holds a bucket and a slot that holds a child in canonical
/// form do not agree: the child holds more keys than a bucket may.
proof fn lemma_bucket_is_no_child(
    pairs: Seq<Pair>,
    blocks_a: Blocks,
    child: NodeModel,
    stored: Option<Seq<u8>>,
    blocks_b: Blocks,
    conf: Config,
    way: Seq<nat>,
)
    requires
        bucket_ok(pairs, conf, way),
        rich(child, blocks_b, conf, way),
    ensures
        !slots_agree(
            Some(PointerModel::Values(pairs)),
            blocks_a,
            Some(PointerModel::Resolved(Box::new(child), stored)),
            blocks_b,
            conf,
            way,
        ),
{
    let bucket = Some(PointerModel::Values(pairs));
    let below = Some(PointerModel::Resolved(Box::new(child), stored));
    if slots_agree(bucket, blocks_a, below, blocks_b, conf, way) {
        let keys = choose|keys: Seq<Seq<u8>>| #[trigger] crowd(keys, child, blocks_b, conf, way);
        assert forall|i: int| 0 <= i < keys.len() implies pairs_has(pairs, #[trigger] keys[i]) by {
            let k = keys[i];
            assert(slot_find(bucket, blocks_a, conf, way, k) == slot_find(
                below,
                blocks_b,
                conf,
                way,
                k,
            ));
        }
        lemma_pigeonhole(keys, pairs);
    }
}

/// A slot that is empty and a slot that holds a pointer in canonical form
/// do not agree: something is found through the pointer.
proof fn lemma_empty_is_no_pointer(
    blocks_a: Blocks,
    p: PointerModel,
    blocks_b: Blocks,
    conf: Config,
    way: Seq<nat>,
)
    requires
        pointer_inv(p, blocks_b, conf, way),
        pointer_canonical(p, blocks_b, conf, way),
    ensures
        !slots_agree(None, blocks_a, Some(p), blocks_b, conf, way),
{
    if slots_agree(None, blocks_a, Some(p), blocks_b, conf, way) {
        let k = match p {
            PointerModel::Values(pairs) => pairs[0].0,
            PointerModel::Resolved(child, _) => (choose|keys: Seq<Seq<u8>>| #[trigger]
                crowd(keys, *child, blocks_b, conf, way))[0],
            PointerModel::Link(_) => Seq::empty(),
        };
        if p is Values {
            lemma_pairs_get_at(p->Values_0, 0);
        }
        assert(slot_find(None, blocks_a, conf, way, k) == slot_find(
            Some(p),
            blocks_b,
            conf,
            way,
            k,
        ));
    }
}

/// Two nodes in canonical form, with no dirty node among them, in which
/// lookups find the same are written the same.
pub proof fn lemma_canonical_unique(
    a: NodeModel,
    blocks_a: Blocks,
    b: NodeModel,
    blocks_b: Blocks,
    conf: Config,
    way: Seq<nat>,
)
    requires
        node_inv(a, blocks_a, conf, way),
        node_inv(b, blocks_b, conf, way),
        canonical(a, blocks_a, conf, way),
        canonical(b, blocks_b, conf, way),
        node_clean(a),
        node_clean(b),
        nodes_agree(a, blocks_a, b, blocks_b, conf, way),
    ensures
        node_encoding(a) == node_encoding(b),
    decreases depth_limit(conf.bit_width as nat) - way.len(),
{
    lemma_node_inv(a, blocks_a, conf, way);
    lemma_node_inv(b, blocks_b, conf, way);
    lemma_canonical(a, blocks_a, conf, way);
    lemma_canonical(b, blocks_b, conf, way);
    assert forall|i: int| 0 <= i < a.slots.len() implies (a.slots[i] is Some) == (b.slots[i]
        is Some) && slot_encoding(a.slots[i]) == slot_encoding(b.slots[i]) by {
        let ws = way.push(i as nat);
        let sa = a.slots[i];
        let sb = b.slots[i];
        assert(slots_agree(sa, blocks_a, sb, blocks_b, conf, ws)) by {
            assert forall|k: Seq<u8>| reaches(k, conf, ws) implies #[trigger] slot_find(
                sa,
                blocks_a,
                conf,
                ws,
                k,
            ) == slot_find(sb, blocks_b, conf, ws, k) by {
                lemma_reaches_parent(k, conf, way, i as nat);
                lemma_find_slot(a, blocks_a, conf, way, k);
                lemma_find_slot(b, blocks_b, conf, way, k);
                assert(find(a, blocks_a, conf, way, k) == find(b, blocks_b, conf, way, k));
            }
        }
        if sa is Some {
            assert(pointer_inv(sa->Some_0, blocks_a, conf, ws));
            assert(pointer_canonical(sa->Some_0, blocks_a, conf, ws));
        }
        if sb is Some {
            assert(pointer_inv(sb->Some_0, blocks_b, conf, ws));
            assert(pointer_canonical(sb->Some_0, blocks_b, conf, ws));
        }
        match (sa, sb) {
            (None, None) => {},
            (None, Some(p)) => {
                lemma_empty_is_no_pointer(blocks_a, p, blocks_b, conf, ws);
            },
            (Some(p), None) => {
                lemma_agree_symmetric(sb, blocks_b, sa, blocks_a, conf, ws);
                lemma_empty_is_no_pointer(blocks_b, p, blocks_a, conf, ws);
            },
            (Some(PointerModel::Values(pa)), Some(PointerModel::Values(pb))) => {
                assert forall|k: Seq<u8>| #[trigger] pairs_get(pa, k) == pairs_get(pb, k) by {
                    if reaches(k, conf, ws) {
                        assert(slot_find(sa, blocks_a, conf, ws, k) == slot_find(
                            sb,
                            blocks_b,
                            conf,
                            ws,
                            k,
                        ));
                    } else {
                        if pairs_has(pa, k) {
                            let at = pairs_index(pa, k);
                            assert(reaches(pa[at].0, conf, ws));
                        }
                        if pairs_has(pb, k) {
                            let at = pairs_index(pb, k);
                            assert(reaches(pb[at].0, conf, ws));
                        }
                    }
                }
                lemma_sorted_same(pa, pb);
            },
            (Some(PointerModel::Values(pa)), Some(PointerModel::Resolved(cb, stored))) => {
                lemma_bucket_is_no_child(pa, blocks_a, *cb, stored, blocks_b, conf, ws);
            },
            (Some(PointerModel::Resolved(ca, stored)), Some(PointerModel::Values(pb))) => {
                lemma_agree_symmetric(sb, blocks_b, sa, blocks_a, conf, ws);
                lemma_bucket_is_no_child(pb, blocks_b, *ca, stored, blocks_a, conf, ws);
            },
            (
                Some(PointerModel::Resolved(ca, stored_a)),
                Some(PointerModel::Resolved(cb, stored_b)),
            ) => {
                assert(nodes_agree(*ca, blocks_a, *cb, blocks_b, conf, ws)) by {
                    assert forall|k: Seq<u8>| reaches(k, conf, ws) implies #[trigger] find(
                        *ca,
                        blocks_a,
                        conf,
                        ws,
                        k,
                    ) == find(*cb, blocks_b, conf, ws, k) by {
                        assert(slot_find(sa, blocks_a, conf, ws, k) == slot_find(
                            sb,
                            blocks_b,
                            conf,
                            ws,
                            k,
                        ));
                    }
                }
                lemma_canonical_unique(*ca, blocks_a, *cb, blocks_b, conf, ws);
            },
            _ => {},
        }
    }
    lemma_encoding_same(a, b);
}

/// Agreeing is symmetric.
proof fn lemma_agree_symmetric(
    a: Option<PointerModel>,
    blocks_a: Blocks,
    b: Option<PointerModel>,
    blocks_b: Blocks,
    conf: Config,
    way: Seq<nat>,
)
    requires
        slots_agree(b, blocks_b, a, blocks_a, conf, way),
    ensures
        slots_agree(a, blocks_a, b, blocks_b, conf, way),
{
    assert forall|k: Seq<u8>| reaches(k, conf, way) implies #[trigger] slot_find(
        a,
        blocks_a,
        conf,
        way,
        k,
    ) == slot_find(b, blocks_b, conf, way, k) by {
        assert(slot_find(b, blocks_b, conf, way, k) == slot_find(a, blocks_a, conf, way, k));
    }
}

} // verus!
