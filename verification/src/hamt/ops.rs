//! The operations on the nodes of a trie held in memory.

use super::codec::decode_node;
use super::canon::{
    bucket_jammed, canonical, jam, jammed, lemma_canonical, lemma_canonical_empty,
    lemma_canonical_update, lemma_jammed_above, lemma_jammed_bucket, lemma_jammed_same,
    lemma_rich_above, lemma_rich_from_bucket, lemma_rich_from_keys, lemma_rich_stored,
    pointer_canonical, rich,
};
use super::unique::lemma_split_jam;
use super::hash::{
    begins_with, depth_limit, hashed, key_route, lemma_all_hashed, route, hash_key, key_hash,
    slot_at, Config, HASH_LEN,
};
use super::lookup::{
    gathered, lemma_changed_then_same, lemma_gathered_is_find, lemma_merge_absent,
    lemma_merge_begin, lemma_merge_end, lemma_merge_pair, merged_so_far, node_leafy,
    holds_bucket_and, lemma_empty_node, lemma_split_absent, lemma_split_start, lemma_split_step,
    find, lemma_find_slot, lemma_lift_changed, lemma_lift_same, lemma_node_inv,
    lemma_node_inv_update, lemma_only_read_child, lemma_only_read_resolved, lemma_only_read_same,
    lemma_only_read_trans, lemma_reaches_child, lemma_reaches_parent, lemma_route_len,
    lemma_same_then_changed, loaded, lookups_changed, node_flat, node_inv, only_read, pointer_inv,
    reaches, same_lookups, slot_find, Blocks,
};
use super::model::{
    MAX_KEY_LEN, bucket_ok, empty_node, lemma_pairs_get_absent, lemma_pairs_get_at, lemma_pairs_insert,
    lemma_pairs_remove, lemma_pairs_update, node_ok, pairs_get, pairs_has, pairs_sorted, Failure,
    NodeModel, Pair, PointerModel,
};
use super::tree::{pairs_model, slot_model, KeyValue, Node, Pointer};
use crate::bytes::{
    bytes_before, bytes_copy, bytes_eq, bytes_lt, lemma_bytes_before_total,
    lemma_bytes_before_transitive,
};
use crate::cbor::{is_item, skip_item};
use crate::cid::{is_cid, Cid};
use crate::store::{PutError, Store, StoreError};
use vstd::prelude::*;

verus! {

/// Why an operation on a trie failed.
#[derive(Debug)]
pub enum Error {
    /// The hash of the key ran out of bits.
    MaxDepth,
    /// The store holds no block under this identifier.
    CidNotFound(Cid),
    /// The block under this identifier is no well-formed node of this trie.
    Malformed(Cid),
    /// The value is not exactly one CBOR item.
    NotAnItem,
    /// The key is longer than a trie takes.
    KeyTooLong,
    /// The store failed while a block was read.
    Store(StoreError),
    /// A block could not be written.
    Put(PutError),
}

/// The failure of the model that an error reports, where it reports one.
pub open spec fn failure_of(e: Error) -> Option<Failure> {
    match e {
        Error::MaxDepth => Some(Failure::MaxDepth),
        Error::CidNotFound(cid) => Some(Failure::CidNotFound(cid@)),
        Error::Malformed(cid) => Some(Failure::Malformed(cid@)),
        _ => None,
    }
}

/// Whether `e` reports exactly the failure `f`.
pub open spec fn reports(e: Error, f: Failure) -> bool {
    failure_of(e) == Some(f)
}

/// The slots of a way as numbers.
pub open spec fn way_of(way: Seq<usize>) -> Seq<nat> {
    Seq::new(way.len(), |i: int| way[i] as nat)
}

/// A value that may be absent, as its bytes.
pub open spec fn value_model(v: Option<Vec<u8>>) -> Option<Seq<u8>> {
    match v {
        Some(b) => Some(b@),
        None => None,
    }
}

/// Whether the route of `key` begins with `way` followed by `slot`.
fn key_reaches(key: &[u8], conf: &Config, way: &Vec<usize>, slot: usize) -> (r: bool)
    requires
        conf.valid(),
    ensures
        r == reaches(key@, *conf, way_of(way@).push(slot as nat)),
{
    let h = hash_key(key);
    let ghost rt = key_route(key@, conf.bit_width as nat);
    let ghost target = way_of(way@).push(slot as nat);
    let mut d: usize = 0;
    while d < way.len()
        invariant
            conf.valid(),
            d <= way@.len(),
            h@ == key_hash(key@),
            h@.len() == HASH_LEN,
            rt == key_route(key@, conf.bit_width as nat),
            target == way_of(way@).push(slot as nat),
            forall|j: int| 0 <= j < d ==> j < rt.len() && rt[j] == way@[j],
        decreases way@.len() - d,
    {
        match slot_at(h.as_slice(), d, conf) {
            Some(s) => {
                if s != way[d] {
                    proof {
                        if begins_with(rt, target) {
                            assert(rt.take(target.len() as int)[d as int] == target[d as int]);
                        }
                    }
                    return false;
                }
            },
            None => {
                return false;
            },
        }
        d += 1;
    }
    match slot_at(h.as_slice(), d, conf) {
        Some(s) => {
            proof {
                if s == slot {
                    assert(rt.take(target.len() as int) =~= target);
                } else if begins_with(rt, target) {
                    assert(rt.take(target.len() as int)[d as int] == target[d as int]);
                }
            }
            s == slot
        },
        None => false,
    }
}

/// Whether the value is exactly one CBOR item.
pub fn value_is_item(value: &[u8]) -> (r: bool)
    ensures
        r == is_item(value@),
{
    assert(value@.skip(0) =~= value@);
    match skip_item(value, 0) {
        Some(end) => end == value.len(),
        None => false,
    }
}

/// Whether the bucket in `slot` of the node at the end of `way` is well
/// formed.
fn check_bucket(pairs: &Vec<KeyValue>, conf: &Config, way: &Vec<usize>, slot: usize) -> (r: bool)
    requires
        conf.valid(),
    ensures
        r == bucket_ok(pairs_model(pairs@), *conf, way_of(way@).push(slot as nat)),
{
    let ghost pm = pairs_model(pairs@);
    let ghost target = way_of(way@).push(slot as nat);
    if pairs.len() < 1 || pairs.len() > conf.bucket_size {
        return false;
    }
    let mut i: usize = 0;
    while i < pairs.len()
        invariant
            conf.valid(),
            i <= pairs@.len(),
            pm == pairs_model(pairs@),
            target == way_of(way@).push(slot as nat),
            pairs_sorted(pm.take(i as int)),
            forall|j: int|
                0 <= j < i ==> is_item((#[trigger] pm[j]).1) && pm[j].0.len() <= MAX_KEY_LEN
                    && hashed(pm[j].0) && begins_with(
                    key_route(pm[j].0, conf.bit_width as nat),
                    target,
                ),
        decreases pairs@.len() - i,
    {
        let kv = &pairs[i];
        assert(pm[i as int] == kv@);
        if !value_is_item(kv.value.as_slice()) || kv.key.len() > MAX_KEY_LEN {
            return false;
        }
        if !key_reaches(kv.key.as_slice(), conf, way, slot) {
            return false;
        }
        if i > 0 {
            let prev = &pairs[i - 1];
            assert(pm[i - 1] == prev@);
            if !bytes_lt(prev.key.as_slice(), kv.key.as_slice()) {
                return false;
            }
            proof {
                let t = pm.take(i + 1);
                assert forall|a: int, b: int| 0 <= a < b < t.len() implies bytes_before(
                    #[trigger] t[a].0,
                    #[trigger] t[b].0,
                ) by {
                    if b < i {
                        assert(pm.take(i as int)[a] == t[a] && pm.take(i as int)[b] == t[b]);
                    } else if a < i - 1 {
                        assert(pm.take(i as int)[a] == t[a]);
                        assert(pm.take(i as int)[i - 1] == t[i - 1]);
                        lemma_bytes_before_transitive(t[a].0, t[i - 1].0, t[b].0);
                    }
                }
            }
        } else {
            assert(pairs_sorted(pm.take(1)));
        }
        i += 1;
    }
    assert(pm.take(pm.len() as int) =~= pm);
    true
}

/// How many depths a trie with this configuration can have.
pub fn depth_bound(conf: &Config) -> (limit: usize)
    requires
        conf.valid(),
    ensures
        limit == depth_limit(conf.bit_width as nat),
        1 <= limit <= 256,
{
    let w: usize = conf.bit_width as usize;
    let limit: usize = 256 / w;
    assert(32 <= 256int / (w as int) <= 256) by (nonlinear_arith)
        requires
            1 <= w <= 8,
    ;
    limit
}

/// Whether a node is well formed for the end of `way` and holds only
/// buckets and links.
fn check_node(node: &Node, conf: &Config, way: &Vec<usize>) -> (r: bool)
    requires
        conf.valid(),
    ensures
        r == (node_ok(node.model(), *conf, way_of(way@)) && node_flat(node.model())),
{
    let width = conf.slot_count();
    if node.slots.len() != width || way.len() >= depth_bound(conf) {
        return false;
    }
    let ghost m = node.model();
    let mut i: usize = 0;
    while i < node.slots.len()
        invariant
            conf.valid(),
            i <= node.slots@.len(),
            node.slots@.len() == conf.width(),
            way_of(way@).len() < depth_limit(conf.bit_width as nat),
            m == node.model(),
            forall|j: int|
                0 <= j < i ==> match #[trigger] m.slots[j] {
                    None => true,
                    Some(PointerModel::Values(pairs)) => bucket_ok(
                        pairs,
                        *conf,
                        way_of(way@).push(j as nat),
                    ),
                    Some(PointerModel::Link(cid)) => is_cid(cid),
                    Some(PointerModel::Resolved(child, stored)) => false,
                },
        decreases node.slots@.len() - i,
    {
        match &node.slots[i] {
            None => {},
            Some(Pointer::Values(pairs)) => {
                assert(m.slots[i as int] == Some(PointerModel::Values(pairs_model(pairs@))));
                if !check_bucket(pairs, conf, way, i) {
                    return false;
                }
            },
            Some(Pointer::Link(cid)) => {
                assert(m.slots[i as int] == Some(PointerModel::Link(cid@)));
                let _ = cid.as_bytes();
            },
            Some(Pointer::Resolved { node: child, stored }) => {
                assert(m.slots[i as int] is Some);
                assert(m.slots[i as int]->Some_0 is Resolved);
                return false;
            },
        }
        i += 1;
    }
    true
}

/// Reads from the store the child at the end of `way` that is stored under
/// `cid`.
pub fn load_node<S: Store>(store: &S, cid: &Cid, conf: &Config, way: &Vec<usize>) -> (r: Result<
    Node,
    Error,
>)
    requires
        conf.valid(),
    ensures
        match r {
            Ok(node) => loaded(store.blocks(), cid@, *conf, way_of(way@)) == Ok::<
                NodeModel,
                Failure,
            >(node.model()),
            Err(e) => e is Store || (failure_of(e) matches Some(f) && loaded(
                store.blocks(),
                cid@,
                *conf,
                way_of(way@),
            ) == Err::<NodeModel, Failure>(f)),
        },
{
    let block = match store.get(cid) {
        Ok(Some(block)) => block,
        Ok(None) => {
            return Err(Error::CidNotFound(cid.clone()));
        },
        Err(e) => {
            return Err(Error::Store(e));
        },
    };
    match decode_node(block.as_slice(), conf) {
        Some(node) => {
            if check_node(&node, conf, way) {
                Ok(node)
            } else {
                Err(Error::Malformed(cid.clone()))
            }
        },
        None => Err(Error::Malformed(cid.clone())),
    }
}

/// The position of `key` in a bucket.
fn bucket_find(pairs: &Vec<KeyValue>, key: &[u8]) -> (r: Option<usize>)
    ensures
        match r {
            Some(i) => i < pairs@.len() && pairs@[i as int].key@ == key@,
            None => forall|j: int| 0 <= j < pairs@.len() ==> pairs@[j].key@ != key@,
        },
{
    let mut i: usize = 0;
    while i < pairs.len()
        invariant
            i <= pairs@.len(),
            forall|j: int| 0 <= j < i ==> pairs@[j].key@ != key@,
        decreases pairs@.len() - i,
    {
        if bytes_eq(pairs[i].key.as_slice(), key) {
            return Some(i);
        }
        i += 1;
    }
    None
}

/// The value of `key` in a sorted bucket.
fn bucket_get(pairs: &Vec<KeyValue>, key: &[u8]) -> (r: Option<Vec<u8>>)
    requires
        pairs_sorted(pairs_model(pairs@)),
    ensures
        value_model(r) == pairs_get(pairs_model(pairs@), key@),
{
    let ghost pm = pairs_model(pairs@);
    match bucket_find(pairs, key) {
        Some(i) => {
            proof {
                assert(pm[i as int] == pairs@[i as int]@);
                lemma_pairs_get_at(pm, i as int);
            }
            Some(bytes_copy(pairs[i].value.as_slice()))
        },
        None => {
            proof {
                assert forall|j: int| 0 <= j < pm.len() implies #[trigger] pm[j].0 != key@ by {
                    assert(pm[j] == pairs@[j]@);
                }
                lemma_pairs_get_absent(pm, key@);
            }
            None
        },
    }
}

/// Reads the child in `slot` from the store where the slot holds a link, and
/// puts it in the link's place.
#[verifier::rlimit(60)]
#[verifier::spinoff_prover]
pub fn resolve<S: Store>(
    node: &mut Node,
    store: &S,
    conf: &Config,
    way: &mut Vec<usize>,
    slot: usize,
) -> (r: Result<(), Error>)
    requires
        conf.valid(),
        slot < old(node).slots@.len(),
        node_inv(old(node).model(), store.blocks(), *conf, way_of(old(way)@)),
    ensures
        final(way)@ == old(way)@,
        only_read(
            old(node).model(),
            final(node).model(),
            store.blocks(),
            *conf,
            way_of(old(way)@),
        ),
        final(node).slots@.len() == old(node).slots@.len(),
        canonical(old(node).model(), store.blocks(), *conf, way_of(old(way)@))
            ==> final(node).model() == old(node).model(),
        match r {
            Ok(()) => !(final(node).model().slots[slot as int] matches Some(
                PointerModel::Link(_),
            )),
            Err(e) => final(node).model() == old(node).model() && (old(node).model().slots[slot as int]
                matches Some(PointerModel::Link(cid)) && (e is Store || (failure_of(e) matches Some(
                f,
            ) && loaded(store.blocks(), cid, *conf, way_of(old(way)@).push(slot as nat)) == Err::<
                NodeModel,
                Failure,
            >(f)))),
        },
{
    let ghost before = node.model();
    let ghost blocks = store.blocks();
    let ghost w = way_of(way@);
    proof {
        lemma_only_read_same(before, blocks, *conf, w);
    }
    let is_link = match &node.slots[slot] {
        Some(Pointer::Link(_)) => true,
        _ => false,
    };
    assert(before.slots[slot as int] == slot_model(node.slots@[slot as int]));
    if !is_link {
        return Ok(());
    }
    let taken = node.slots.remove(slot);
    match taken {
        Some(Pointer::Link(cid)) => {
            way.push(slot);
            assert(way_of(way@) =~= w.push(slot as nat));
            let r = load_node(store, &cid, conf, way);
            let _ = way.pop();
            assert(way@ =~= old(way)@);
            match r {
                Ok(child) => {
                    let ptr = Pointer::Resolved { node: Box::new(child), stored: Some(cid) };
                    node.slots.insert(slot, Some(ptr));
                    proof {
                        let after = node.model();
                        assert(node.slots@ =~= old(node).slots@.update(slot as int, Some(ptr)));
                        assert forall|j: int|
                            0 <= j < before.slots.len() && j != slot implies after.slots[j]
                            == before.slots[j] by {}
                        assert(after.slots[slot as int] == Some(ptr.model()));
                        lemma_only_read_resolved(before, after, blocks, *conf, w, slot as int);
                    }
                    Ok(())
                },
                Err(e) => {
                    node.slots.insert(slot, Some(Pointer::Link(cid)));
                    proof {
                        assert(node.slots@ =~= old(node).slots@);
                        assert(node.model().slots =~= before.slots);
                    }
                    Err(e)
                },
            }
        },
        other => {
            node.slots.insert(slot, other);
            proof {
                assert(node.slots@ =~= old(node).slots@);
                assert(node.model().slots =~= before.slots);
            }
            Ok(())
        },
    }
}

/// Looks `key` up below the node at the end of `way`. Children on the way
/// that the node holds as links are read from the store and kept in memory.
pub fn lookup<S: Store>(
    node: &mut Node,
    store: &S,
    conf: &Config,
    hash: &[u8],
    key: &[u8],
    way: &mut Vec<usize>,
) -> (r: Result<Option<Vec<u8>>, Error>)
    requires
        conf.valid(),
        hash@ == key_hash(key@),
        hash@.len() == HASH_LEN,
        node_inv(old(node).model(), store.blocks(), *conf, way_of(old(way)@)),
        reaches(key@, *conf, way_of(old(way)@)),
    ensures
        final(way)@ == old(way)@,
        only_read(
            old(node).model(),
            final(node).model(),
            store.blocks(),
            *conf,
            way_of(old(way)@),
        ),
        canonical(old(node).model(), store.blocks(), *conf, way_of(old(way)@))
            ==> final(node).model() == old(node).model() && r is Ok,
        match r {
            Ok(v) => find(old(node).model(), store.blocks(), *conf, way_of(old(way)@), key@)
                == Ok::<Option<Seq<u8>>, Failure>(value_model(v)),
            Err(e) => e is Store || (failure_of(e) matches Some(f) && find(
                old(node).model(),
                store.blocks(),
                *conf,
                way_of(old(way)@),
                key@,
            ) == Err::<Option<Seq<u8>>, Failure>(f)),
        },
    decreases key_route(key@, conf.bit_width as nat).len() - old(way)@.len(),
{
    let ghost before = node.model();
    let ghost blocks = store.blocks();
    let ghost w = way_of(way@);
    let ghost rt = key_route(key@, conf.bit_width as nat);
    proof {
        lemma_only_read_same(before, blocks, *conf, w);
        lemma_node_inv(before, blocks, *conf, w);
    }
    let depth = way.len();
    let slot = match slot_at(hash, depth, conf) {
        Some(s) => s,
        None => {
            return Err(Error::MaxDepth);
        },
    };
    proof {
        lemma_reaches_child(key@, *conf, w);
        lemma_canonical(before, blocks, *conf, w);
    }
    match resolve(node, store, conf, way, slot) {
        Ok(()) => {},
        Err(e) => {
            return Err(e);
        },
    }
    let ghost mid = node.model();
    proof {
        lemma_node_inv(mid, blocks, *conf, w);
        assert(find(mid, blocks, *conf, w, key@) == find(before, blocks, *conf, w, key@));
        assert(mid.slots[slot as int] == slot_model(node.slots@[slot as int]));
        if canonical(before, blocks, *conf, w) {
            assert(mid.slots[slot as int] matches Some(p) ==> pointer_canonical(
                p,
                blocks,
                *conf,
                w.push(slot as nat),
            ));
        }
    }
    let ghost mut child_after: Option<NodeModel> = None;
    let r = match &mut node.slots[slot] {
        None => Ok(None),
        Some(Pointer::Values(pairs)) => Ok(bucket_get(pairs, key)),
        Some(Pointer::Resolved { node: child, stored }) => {
            way.push(slot);
            assert(way_of(way@) =~= w.push(slot as nat));
            assert(pointer_inv(mid.slots[slot as int]->Some_0, blocks, *conf, w.push(slot as nat)));
            let r = lookup(child, store, conf, hash, key, way);
            let _ = way.pop();
            assert(way@ =~= old(way)@);
            proof {
                child_after = Some(child.model());
            }
            r
        },
        Some(Pointer::Link(_)) => {
            assert(false);
            Err(Error::MaxDepth)
        },
    };
    proof {
        let after = node.model();
        match child_after {
            Some(cf) => {
                assert(after.slots[slot as int] == slot_model(node.slots@[slot as int]));
                assert forall|j: int|
                    0 <= j < mid.slots.len() && j != slot implies after.slots[j]
                    == mid.slots[j] by {}
                lemma_only_read_child(mid, after, blocks, *conf, w, slot as int);
                lemma_only_read_trans(before, mid, after, blocks, *conf, w);
                if canonical(before, blocks, *conf, w) {
                    assert(after.slots =~= mid.slots);
                }
            },
            None => {
                assert(after.slots =~= mid.slots);
            },
        }
    }
    r
}

/// A node with every slot empty.
pub fn empty(conf: &Config) -> (node: Node)
    requires
        conf.valid(),
    ensures
        node.model() == empty_node(*conf),
{
    let width = conf.slot_count();
    let mut slots: Vec<Option<Pointer>> = Vec::new();
    let mut i: usize = 0;
    while i < width
        invariant
            i <= width,
            slots@.len() == i,
            forall|j: int| 0 <= j < i ==> slots@[j] is None,
        decreases width - i,
    {
        slots.push(None);
        i += 1;
    }
    let node = Node { slots };
    assert(node.model().slots =~= empty_node(*conf).slots);
    node
}

/// Where `key`, which the bucket does not hold, belongs in it.
fn bucket_position(pairs: &Vec<KeyValue>, key: &[u8]) -> (at: usize)
    requires
        pairs_sorted(pairs_model(pairs@)),
        !pairs_has(pairs_model(pairs@), key@),
    ensures
        at <= pairs@.len(),
        forall|i: int| 0 <= i < at ==> bytes_before(#[trigger] pairs_model(pairs@)[i].0, key@),
        forall|i: int|
            at <= i < pairs@.len() ==> bytes_before(key@, #[trigger] pairs_model(pairs@)[i].0),
{
    let ghost pm = pairs_model(pairs@);
    let mut at: usize = 0;
    while at < pairs.len() && bytes_lt(pairs[at].key.as_slice(), key)
        invariant
            at <= pairs@.len(),
            pm == pairs_model(pairs@),
            forall|i: int| 0 <= i < at ==> bytes_before(#[trigger] pm[i].0, key@),
        decreases pairs@.len() - at,
    {
        at += 1;
    }
    proof {
        assert forall|i: int| at <= i < pairs@.len() implies bytes_before(
            key@,
            #[trigger] pm[i].0,
        ) by {
            assert(pm[at as int].0 == pairs@[at as int].key@);
            assert(pm[i].0 != key@);
            lemma_bytes_before_total(pm[i].0, key@);
            if bytes_before(pm[i].0, key@) {
                if at < i {
                    lemma_bytes_before_transitive(pm[at as int].0, pm[i].0, key@);
                }
            }
        }
    }
    at
}

/// What an insertion returns: the value that the key had, and whether
/// anything changed.
pub type Inserted = (Option<Vec<u8>>, bool);

/// Whether an insertion of `value` changes anything, given the value that
/// the key had.
pub open spec fn insertion_changes(previous: Option<Seq<u8>>, value: Seq<u8>, overwrite: bool)
    -> bool {
    if overwrite {
        previous != Some(value)
    } else {
        previous is None
    }
}

/// Moves a full bucket one depth down together with a new pair: the node
/// that holds them all.
fn split<S: Store>(
    pairs: &Vec<KeyValue>,
    store: &S,
    conf: &Config,
    hash: &[u8],
    key: &[u8],
    value: &[u8],
    way: &mut Vec<usize>,
) -> (r: Result<Node, Error>)
    requires
        conf.valid(),
        hash@ == key_hash(key@),
        hash@.len() == HASH_LEN,
        key@.len() <= MAX_KEY_LEN,
        is_item(value@),
        old(way)@.len() < depth_limit(conf.bit_width as nat),
        reaches(key@, *conf, way_of(old(way)@)),
        bucket_ok(pairs_model(pairs@), *conf, way_of(old(way)@)),
        !pairs_has(pairs_model(pairs@), key@),
        pairs@.len() == conf.bucket_size,
    ensures
        final(way)@ == old(way)@,
        match r {
            Ok(sub) => node_inv(sub.model(), store.blocks(), *conf, way_of(old(way)@))
                && canonical(sub.model(), store.blocks(), *conf, way_of(old(way)@)) && rich(
                sub.model(),
                store.blocks(),
                *conf,
                way_of(old(way)@),
            ) && holds_bucket_and(
                sub.model(),
                store.blocks(),
                *conf,
                way_of(old(way)@),
                pairs_model(pairs@),
                key@,
                value@,
            ),
            Err(e) => e is MaxDepth && bucket_jammed(pairs_model(pairs@), *conf, key@),
        },
    decreases 257 - old(way)@.len(), 2nat,
{
    let ghost blocks = store.blocks();
    let ghost w = way_of(way@);
    let ghost pm = pairs_model(pairs@);
    let mut sub = empty(conf);
    proof {
        lemma_empty_node(blocks, *conf, w);
        lemma_canonical_empty(blocks, *conf, w);
    }
    let ghost none = sub.model();
    match insert(&mut sub, store, conf, hash, key, value, way, true) {
        Ok(_) => {},
        Err(e) => {
            proof {
                // There is room for a key in an empty node.
                let keys = choose|keys: Seq<Seq<u8>>| #[trigger]
                    jam(keys, none, blocks, *conf, w, key@);
                assert(find(none, blocks, *conf, w, keys[0]) matches Ok(Some(_)));
                lemma_all_hashed(keys[0]);
                assert(reaches(keys[0], *conf, w));
                lemma_empty_node(blocks, *conf, w);
            }
            return Err(e);
        },
    }
    proof {
        lemma_split_start(sub.model(), blocks, *conf, w, key@, value@);
        assert(pm.take(0) =~= Seq::<Pair>::empty());
    }
    let mut i: usize = 0;
    while i < pairs.len()
        invariant
            conf.valid(),
            i <= pairs@.len(),
            pm == pairs_model(pairs@),
            blocks == store.blocks(),
            w == way_of(way@),
            way@ == old(way)@,
            way@.len() < depth_limit(conf.bit_width as nat),
            bucket_ok(pm, *conf, w),
            !pairs_has(pm, key@),
            pm.len() == conf.bucket_size,
            reaches(key@, *conf, w),
            node_inv(sub.model(), blocks, *conf, w),
            canonical(sub.model(), blocks, *conf, w),
            holds_bucket_and(sub.model(), blocks, *conf, w, pm.take(i as int), key@, value@),
        decreases pairs@.len() - i,
    {
        let kv = &pairs[i];
        let ghost before = sub.model();
        proof {
            assert(pm[i as int] == kv@);
            lemma_split_absent(before, blocks, *conf, w, pm, i as int, key@, value@);
        }
        let h = hash_key(kv.key.as_slice());
        match insert(&mut sub, store, conf, h.as_slice(), kv.key.as_slice(), kv.value.as_slice(), way, true) {
            Ok(_) => {},
            Err(e) => {
                proof {
                    lemma_split_jam(before, blocks, *conf, w, pm, i as int, key@, value@);
                }
                return Err(e);
            },
        }
        proof {
            lemma_split_step(before, sub.model(), blocks, *conf, w, pm, i as int, key@, value@);
        }
        i += 1;
    }
    assert(pm.take(pm.len() as int) =~= pm);
    proof {
        lemma_rich_from_bucket(sub.model(), blocks, *conf, w, pm, key@, value@);
    }
    Ok(sub)
}

/// What lookups through a slot find after an insertion into the bucket that
/// the slot held.
pub open spec fn bucket_inserted(
    now: PointerModel,
    blocks: Blocks,
    conf: Config,
    way: Seq<nat>,
    pairs: Seq<Pair>,
    key: Seq<u8>,
    value: Seq<u8>,
    modified: bool,
) -> bool {
    forall|k: Seq<u8>|
        reaches(k, conf, way) ==> #[trigger] slot_find(Some(now), blocks, conf, way, k) == Ok::<
            Option<Seq<u8>>,
            Failure,
        >(
            if modified && k == key {
                Some(value)
            } else {
                pairs_get(pairs, k)
            },
        )
}

/// Inserts a pair into the bucket of a slot, `way` being the way to the slot.
/// Returns what the slot holds afterwards: the bucket, or where it was full
/// a new child with its pairs and the new one.
fn insert_in_bucket<S: Store>(
    pairs: Vec<KeyValue>,
    store: &S,
    conf: &Config,
    hash: &[u8],
    key: &[u8],
    value: &[u8],
    way: &mut Vec<usize>,
    overwrite: bool,
) -> (r: (Pointer, Result<Inserted, Error>))
    requires
        conf.valid(),
        hash@ == key_hash(key@),
        hash@.len() == HASH_LEN,
        key@.len() <= MAX_KEY_LEN,
        is_item(value@),
        1 <= old(way)@.len() <= depth_limit(conf.bit_width as nat),
        reaches(key@, *conf, way_of(old(way)@)),
        bucket_ok(pairs_model(pairs@), *conf, way_of(old(way)@)),
    ensures
        final(way)@ == old(way)@,
        pointer_inv(r.0.model(), store.blocks(), *conf, way_of(old(way)@)),
        pointer_canonical(r.0.model(), store.blocks(), *conf, way_of(old(way)@)),
        match r.1 {
            Ok((previous, modified)) => value_model(previous) == pairs_get(
                pairs_model(pairs@),
                key@,
            ) && modified == insertion_changes(value_model(previous), value@, overwrite)
                && bucket_inserted(
                r.0.model(),
                store.blocks(),
                *conf,
                way_of(old(way)@),
                pairs_model(pairs@),
                key@,
                value@,
                modified,
            ) && (!modified ==> r.0.model() == PointerModel::Values(pairs_model(pairs@))),
            Err(e) => r.0.model() == PointerModel::Values(pairs_model(pairs@)) && e is MaxDepth
                && bucket_jammed(pairs_model(pairs@), *conf, key@) && pairs_get(
                pairs_model(pairs@),
                key@,
            ) is None,
        },
    decreases 257 - old(way)@.len(), 3nat,
{
    let ghost blocks = store.blocks();
    let ghost w = way_of(way@);
    let ghost pm = pairs_model(pairs@);
    let mut pairs = pairs;
    match bucket_find(&pairs, key) {
        Some(i) => {
            proof {
                assert(pm[i as int] == pairs@[i as int]@);
                lemma_pairs_get_at(pm, i as int);
            }
            let previous = bytes_copy(pairs[i].value.as_slice());
            if overwrite && !bytes_eq(pairs[i].value.as_slice(), value) {
                let old_pair = pairs.remove(i);
                pairs.insert(i, KeyValue { key: old_pair.key, value: bytes_copy(value) });
                proof {
                    let after = pairs_model(pairs@);
                    assert(after =~= pm.update(i as int, (pm[i as int].0, value@)));
                    lemma_pairs_update(pm, i as int, value@);
                    assert forall|j: int| 0 <= j < after.len() implies is_item(
                        (#[trigger] after[j]).1,
                    ) && after[j].0.len() <= MAX_KEY_LEN && hashed(after[j].0) && begins_with(
                        key_route(after[j].0, conf.bit_width as nat),
                        w,
                    ) by {
                        if j != i {
                            assert(after[j] == pm[j]);
                        } else {
                            assert(after[j].0 == pm[j].0);
                        }
                    }
                }
                (Pointer::Values(pairs), Ok((Some(previous), true)))
            } else {
                (Pointer::Values(pairs), Ok((Some(previous), false)))
            }
        },
        None => {
            proof {
                assert forall|j: int| 0 <= j < pm.len() implies #[trigger] pm[j].0 != key@ by {
                    assert(pm[j] == pairs@[j]@);
                }
                lemma_pairs_get_absent(pm, key@);
            }
            if pairs.len() < conf.bucket_size {
                let at = bucket_position(&pairs, key);
                let pair = KeyValue { key: bytes_copy(key), value: bytes_copy(value) };
                pairs.insert(at, pair);
                proof {
                    let after = pairs_model(pairs@);
                    assert(after =~= pm.insert(at as int, (key@, value@)));
                    lemma_pairs_insert(pm, at as int, (key@, value@));
                    assert forall|j: int| 0 <= j < after.len() implies is_item(
                        (#[trigger] after[j]).1,
                    ) && after[j].0.len() <= MAX_KEY_LEN && hashed(after[j].0) && begins_with(
                        key_route(after[j].0, conf.bit_width as nat),
                        w,
                    ) by {
                        if j < at {
                            assert(after[j] == pm[j]);
                        } else if j > at {
                            assert(after[j] == pm[j - 1]);
                        }
                    }
                }
                (Pointer::Values(pairs), Ok((None, true)))
            } else {
                if way.len() >= depth_bound(conf) {
                    proof {
                        // At the last depth every key of the bucket has gone the
                        // whole way of the new key.
                        lemma_route_len(key@, *conf);
                        assert(key_route(key@, conf.bit_width as nat) =~= w);
                        assert forall|j: int| 0 <= j < pm.len() implies (#[trigger] pm[j]).0
                            != key@ && key_route(pm[j].0, conf.bit_width as nat) == key_route(
                            key@,
                            conf.bit_width as nat,
                        ) by {
                            lemma_route_len(pm[j].0, *conf);
                            assert(key_route(pm[j].0, conf.bit_width as nat) =~= w);
                        }
                    }
                    return (Pointer::Values(pairs), Err(Error::MaxDepth));
                }
                match split(&pairs, store, conf, hash, key, value, way) {
                    Ok(sub) => {
                        let ptr = Pointer::Resolved { node: Box::new(sub), stored: None };
                        (ptr, Ok((None, true)))
                    },
                    Err(e) => (Pointer::Values(pairs), Err(e)),
                }
            }
        },
    }
}

/// What an insertion of `value` under `key` promises: on success the value
/// that the key had, whether anything changed, and that lookups find the new
/// value for the key and what they found for every other key; on failure
/// that the trie holds what it held, and why it failed.
pub open spec fn insert_post(
    before: NodeModel,
    after: NodeModel,
    blocks: Blocks,
    conf: Config,
    way: Seq<nat>,
    key: Seq<u8>,
    value: Seq<u8>,
    overwrite: bool,
    r: Result<Inserted, Error>,
) -> bool {
    &&& node_inv(after, blocks, conf, way)
    &&& match r {
        Ok((previous, modified)) => {
            &&& find(before, blocks, conf, way, key) == Ok::<Option<Seq<u8>>, Failure>(
                value_model(previous),
            )
            &&& modified == insertion_changes(value_model(previous), value, overwrite)
            &&& modified ==> lookups_changed(before, after, blocks, conf, way, key, Some(value))
            &&& !modified ==> only_read(before, after, blocks, conf, way)
        },
        Err(e) => only_read(before, after, blocks, conf, way) && (e is Store || (e is MaxDepth
            && find(before, blocks, conf, way, key) == Ok::<Option<Seq<u8>>, Failure>(None)) || (
        failure_of(e) matches Some(f) && find(before, blocks, conf, way, key) == Err::<
            Option<Seq<u8>>,
            Failure,
        >(f))),
    }
}

/// Whether a change of a node keeps it in canonical form: it stays in
/// canonical form where it was, and is untouched unless the change took
/// place.
pub open spec fn keeps_canonical(
    before: NodeModel,
    after: NodeModel,
    blocks: Blocks,
    conf: Config,
    way: Seq<nat>,
    changed: bool,
) -> bool {
    canonical(before, blocks, conf, way) ==> canonical(after, blocks, conf, way) && (!changed
        ==> after == before)
}

/// What the failure of an insertion tells: it fails for want of room only
/// where there is none for the key, and into a node in canonical form it
/// fails for nothing else.
pub open spec fn failure_told(
    before: NodeModel,
    blocks: Blocks,
    conf: Config,
    way: Seq<nat>,
    key: Seq<u8>,
    r: Result<Inserted, Error>,
) -> bool {
    r matches Err(e) ==> (e is MaxDepth ==> jammed(before, blocks, conf, way, key)) && (canonical(
        before,
        blocks,
        conf,
        way,
    ) ==> e is MaxDepth)
}

/// An insertion into a node that was only read before gives, for the node
/// before the reading, what it gives for the node after it.
proof fn lemma_insert_post_after_read(
    before: NodeModel,
    mid: NodeModel,
    after: NodeModel,
    blocks: Blocks,
    conf: Config,
    way: Seq<nat>,
    key: Seq<u8>,
    value: Seq<u8>,
    overwrite: bool,
    r: Result<Inserted, Error>,
)
    requires
        only_read(before, mid, blocks, conf, way),
        reaches(key, conf, way),
        insert_post(mid, after, blocks, conf, way, key, value, overwrite, r),
    ensures
        insert_post(before, after, blocks, conf, way, key, value, overwrite, r),
{
    assert(find(mid, blocks, conf, way, key) == find(before, blocks, conf, way, key));
    match r {
        Ok((previous, modified)) => {
            if modified {
                lemma_same_then_changed(before, mid, after, blocks, conf, way, key, Some(value));
            } else {
                lemma_only_read_trans(before, mid, after, blocks, conf, way);
            }
        },
        Err(e) => {
            lemma_only_read_trans(before, mid, after, blocks, conf, way);
        },
    }
}

/// The insertion where the slot of the key holds a child in memory.
fn insert_below<S: Store>(
    node: &mut Node,
    store: &S,
    conf: &Config,
    hash: &[u8],
    key: &[u8],
    value: &[u8],
    way: &mut Vec<usize>,
    overwrite: bool,
    slot: usize,
) -> (r: Result<Inserted, Error>)
    requires
        conf.valid(),
        hash@ == key_hash(key@),
        hash@.len() == HASH_LEN,
        key@.len() <= MAX_KEY_LEN,
        is_item(value@),
        node_inv(old(node).model(), store.blocks(), *conf, way_of(old(way)@)),
        reaches(key@, *conf, way_of(old(way)@)),
        slot == key_route(key@, conf.bit_width as nat)[old(way)@.len() as int],
        slot < old(node).slots@.len(),
        old(node).slots@[slot as int] matches Some(Pointer::Resolved { .. }),
    ensures
        final(way)@ == old(way)@,
        insert_post(
            old(node).model(),
            final(node).model(),
            store.blocks(),
            *conf,
            way_of(old(way)@),
            key@,
            value@,
            overwrite,
            r,
        ),
        keeps_canonical(
            old(node).model(),
            final(node).model(),
            store.blocks(),
            *conf,
            way_of(old(way)@),
            r matches Ok((_, true)),
        ),
        failure_told(old(node).model(), store.blocks(), *conf, way_of(old(way)@), key@, r),
    decreases 257 - old(way)@.len(), 0nat,
{
    let ghost mid = node.model();
    let ghost blocks = store.blocks();
    let ghost w = way_of(way@);
    let ghost ws = w.push(slot as nat);
    proof {
        lemma_node_inv(mid, blocks, *conf, w);
        lemma_find_slot(mid, blocks, *conf, w, key@);
        assert(mid.slots[slot as int] == slot_model(node.slots@[slot as int]));
        assert(pointer_inv(mid.slots[slot as int]->Some_0, blocks, *conf, ws));
    }
    let r = match &mut node.slots[slot] {
        Some(Pointer::Resolved { node: child, stored }) => {
            way.push(slot);
            assert(way_of(way@) =~= ws);
            let r = insert(child, store, conf, hash, key, value, way, overwrite);
            let _ = way.pop();
            assert(way@ =~= old(way)@);
            match &r {
                Ok((_, modified)) => {
                    if *modified {
                        *stored = None;
                    }
                },
                Err(_) => {},
            }
            r
        },
        _ => {
            assert(false);
            Err(Error::MaxDepth)
        },
    };
    proof {
        let after = node.model();
        assert(after.slots[slot as int] == slot_model(node.slots@[slot as int]));
        assert forall|j: int|
            0 <= j < mid.slots.len() && j != slot implies after.slots[j] == mid.slots[j] by {}
        let changed = r matches Ok((_, true));
        if changed {
            lemma_node_inv_update(mid, after, blocks, *conf, w, slot as int);
            lemma_lift_changed(mid, after, blocks, *conf, w, slot as int, key@, Some(value@));
        } else {
            lemma_only_read_child(mid, after, blocks, *conf, w, slot as int);
        }
        if r is Err && r->Err_0 is MaxDepth {
            lemma_jammed_above(mid, blocks, *conf, w, key@);
        }
        if canonical(mid, blocks, *conf, w) {
            lemma_canonical(mid, blocks, *conf, w);
            let child_before = mid.slots[slot as int]->Some_0->Resolved_0;
            let child_after = after.slots[slot as int]->Some_0->Resolved_0;
            assert(pointer_canonical(mid.slots[slot as int]->Some_0, blocks, *conf, ws));
            if changed {
                lemma_rich_stored(*child_before, *child_after, blocks, *conf, ws, key@, value@);
                lemma_canonical_update(mid, after, blocks, *conf, w, slot as int);
            } else {
                assert(after.slots =~= mid.slots);
            }
        }
    }
    r
}

/// The insertion where the slot of the key is empty or holds a bucket.
fn insert_here<S: Store>(
    node: &mut Node,
    store: &S,
    conf: &Config,
    hash: &[u8],
    key: &[u8],
    value: &[u8],
    way: &mut Vec<usize>,
    overwrite: bool,
    slot: usize,
) -> (r: Result<Inserted, Error>)
    requires
        conf.valid(),
        hash@ == key_hash(key@),
        hash@.len() == HASH_LEN,
        key@.len() <= MAX_KEY_LEN,
        is_item(value@),
        node_inv(old(node).model(), store.blocks(), *conf, way_of(old(way)@)),
        reaches(key@, *conf, way_of(old(way)@)),
        slot == key_route(key@, conf.bit_width as nat)[old(way)@.len() as int],
        slot < old(node).slots@.len(),
        old(node).slots@[slot as int] is None || old(node).slots@[slot as int]->Some_0 is Values,
    ensures
        final(way)@ == old(way)@,
        insert_post(
            old(node).model(),
            final(node).model(),
            store.blocks(),
            *conf,
            way_of(old(way)@),
            key@,
            value@,
            overwrite,
            r,
        ),
        keeps_canonical(
            old(node).model(),
            final(node).model(),
            store.blocks(),
            *conf,
            way_of(old(way)@),
            r matches Ok((_, true)),
        ),
        failure_told(old(node).model(), store.blocks(), *conf, way_of(old(way)@), key@, r),
    decreases 257 - old(way)@.len(), 0nat,
{
    let ghost mid = node.model();
    let ghost mid_slots = node.slots@;
    let ghost blocks = store.blocks();
    let ghost w = way_of(way@);
    let ghost ws = w.push(slot as nat);
    proof {
        lemma_only_read_same(mid, blocks, *conf, w);
        lemma_node_inv(mid, blocks, *conf, w);
        lemma_find_slot(mid, blocks, *conf, w, key@);
        assert(mid.slots[slot as int] == slot_model(node.slots@[slot as int]));
        assert(mid.slots[slot as int] matches Some(p) ==> pointer_inv(p, blocks, *conf, ws));
    }
    let taken = node.slots.remove(slot);
    match taken {
        None => {
            let mut pairs: Vec<KeyValue> = Vec::new();
            pairs.push(KeyValue { key: bytes_copy(key), value: bytes_copy(value) });
            let ghost pm = pairs_model(pairs@);
            let ptr = Pointer::Values(pairs);
            node.slots.insert(slot, Some(ptr));
            proof {
                let after = node.model();
                assert(pm =~= Seq::<Pair>::empty().insert(0, (key@, value@)));
                lemma_pairs_insert(Seq::<Pair>::empty(), 0, (key@, value@));
                assert(node.slots@ =~= mid_slots.update(slot as int, Some(ptr)));
                assert forall|j: int|
                    0 <= j < mid.slots.len() && j != slot implies after.slots[j]
                    == mid.slots[j] by {}
                assert(after.slots[slot as int] == Some(ptr.model()));
                assert(bucket_ok(pm, *conf, ws)) by {
                    assert(pm[0] == (key@, value@));
                }
                lemma_node_inv_update(mid, after, blocks, *conf, w, slot as int);
                lemma_lift_changed(mid, after, blocks, *conf, w, slot as int, key@, Some(value@));
                if canonical(mid, blocks, *conf, w) {
                    lemma_canonical_update(mid, after, blocks, *conf, w, slot as int);
                }
            }
            Ok((None, true))
        },
        Some(Pointer::Values(pairs)) => {
            let ghost pm = pairs_model(pairs@);
            way.push(slot);
            assert(way_of(way@) =~= ws);
            let (ptr, r) = insert_in_bucket(pairs, store, conf, hash, key, value, way, overwrite);
            let _ = way.pop();
            assert(way@ =~= old(way)@);
            node.slots.insert(slot, Some(ptr));
            proof {
                let after = node.model();
                assert(node.slots@ =~= mid_slots.update(slot as int, Some(ptr)));
                assert forall|j: int|
                    0 <= j < mid.slots.len() && j != slot implies after.slots[j]
                    == mid.slots[j] by {}
                assert(after.slots[slot as int] == Some(ptr.model()));
                let changed = r matches Ok((_, true));
                if changed {
                    lemma_node_inv_update(mid, after, blocks, *conf, w, slot as int);
                    lemma_lift_changed(
                        mid,
                        after,
                        blocks,
                        *conf,
                        w,
                        slot as int,
                        key@,
                        Some(value@),
                    );
                    if canonical(mid, blocks, *conf, w) {
                        lemma_canonical_update(mid, after, blocks, *conf, w, slot as int);
                    }
                } else {
                    assert(after.slots =~= mid.slots);
                }
                if r is Err {
                    lemma_jammed_bucket(mid, blocks, *conf, w, key@);
                }
            }
            r
        },
        other => {
            assert(false);
            node.slots.insert(slot, other);
            Err(Error::MaxDepth)
        },
    }
}

/// Stores `value` under `key` below the node at the end of `way`; with
/// `overwrite` off, only where the key has no value yet. Returns the value
/// that the key had and whether anything changed. On failure the trie holds
/// what it held.
pub fn insert<S: Store>(
    node: &mut Node,
    store: &S,
    conf: &Config,
    hash: &[u8],
    key: &[u8],
    value: &[u8],
    way: &mut Vec<usize>,
    overwrite: bool,
) -> (r: Result<Inserted, Error>)
    requires
        conf.valid(),
        hash@ == key_hash(key@),
        hash@.len() == HASH_LEN,
        key@.len() <= MAX_KEY_LEN,
        is_item(value@),
        node_inv(old(node).model(), store.blocks(), *conf, way_of(old(way)@)),
        reaches(key@, *conf, way_of(old(way)@)),
    ensures
        final(way)@ == old(way)@,
        insert_post(
            old(node).model(),
            final(node).model(),
            store.blocks(),
            *conf,
            way_of(old(way)@),
            key@,
            value@,
            overwrite,
            r,
        ),
        keeps_canonical(
            old(node).model(),
            final(node).model(),
            store.blocks(),
            *conf,
            way_of(old(way)@),
            r matches Ok((_, true)),
        ),
        failure_told(old(node).model(), store.blocks(), *conf, way_of(old(way)@), key@, r),
    decreases 257 - old(way)@.len(), 1nat,
{
    let ghost before = node.model();
    let ghost blocks = store.blocks();
    let ghost w = way_of(way@);
    proof {
        lemma_only_read_same(before, blocks, *conf, w);
        lemma_node_inv(before, blocks, *conf, w);
        lemma_route_len(key@, *conf);
        lemma_find_slot(before, blocks, *conf, w, key@);
    }
    let depth = way.len();
    let slot = match slot_at(hash, depth, conf) {
        Some(s) => s,
        None => {
            assert(false);
            return Err(Error::MaxDepth);
        },
    };
    match resolve(node, store, conf, way, slot) {
        Ok(()) => {},
        Err(e) => {
            proof {
                // A node in canonical form holds no link.
                lemma_canonical(before, blocks, *conf, w);
            }
            return Err(e);
        },
    }
    let ghost mid = node.model();
    proof {
        assert(mid.slots[slot as int] == slot_model(node.slots@[slot as int]));
    }
    let is_child = match &node.slots[slot] {
        Some(Pointer::Resolved { .. }) => true,
        _ => false,
    };
    let r = if is_child {
        insert_below(node, store, conf, hash, key, value, way, overwrite, slot)
    } else {
        insert_here(node, store, conf, hash, key, value, way, overwrite, slot)
    };
    proof {
        if r is Err && r->Err_0 is MaxDepth {
            lemma_jammed_same(mid, before, blocks, *conf, w, key@);
        }
        lemma_insert_post_after_read(
            before,
            mid,
            node.model(),
            blocks,
            *conf,
            w,
            key@,
            value@,
            overwrite,
            r,
        );
    }
    r
}

/// Gathers copies of the pairs of a node that holds nothing but buckets, in
/// the order of their keys; `None` where it holds anything else or more
/// pairs than a bucket may.
fn gather(child: &Node, conf: &Config, way: &Vec<usize>, Ghost(blocks): Ghost<Blocks>) -> (r:
    Option<Vec<KeyValue>>)
    requires
        conf.valid(),
        node_inv(child.model(), blocks, *conf, way_of(way@)),
    ensures
        r is None ==> !node_leafy(child.model()) || rich(
            child.model(),
            blocks,
            *conf,
            way_of(way@),
        ),
        r matches Some(merged) ==> {
            &&& node_leafy(child.model())
            &&& merged@.len() <= conf.bucket_size
            &&& merged@.len() > 0 ==> bucket_ok(pairs_model(merged@), *conf, way_of(way@))
            &&& forall|k: Seq<u8>| #[trigger]
                pairs_get(pairs_model(merged@), k) == gathered(
                    child.model(),
                    *conf,
                    way_of(way@),
                    child.model().slots.len(),
                    k,
                )
        },
{
    let ghost m = child.model();
    let ghost w = way_of(way@);
    let mut merged: Vec<KeyValue> = Vec::new();
    let mut j: usize = 0;
    proof {
        assert forall|k: Seq<u8>| #[trigger]
            pairs_get(pairs_model(merged@), k) == gathered(m, *conf, w, 0, k) by {}
    }
    while j < child.slots.len()
        invariant
            conf.valid(),
            j <= child.slots@.len(),
            m == child.model(),
            w == way_of(way@),
            node_inv(m, blocks, *conf, w),
            merged@.len() <= conf.bucket_size,
            pairs_sorted(pairs_model(merged@)),
            forall|a: int|
                0 <= a < merged@.len() ==> is_item((#[trigger] pairs_model(merged@)[a]).1)
                    && pairs_model(merged@)[a].0.len() <= MAX_KEY_LEN && reaches(
                    pairs_model(merged@)[a].0,
                    *conf,
                    w,
                ),
            forall|a: int| 0 <= a < j ==> (#[trigger] m.slots[a] matches Some(p) ==> p is Values),
            forall|k: Seq<u8>| #[trigger]
                pairs_get(pairs_model(merged@), k) == gathered(m, *conf, w, j as nat, k),
        decreases child.slots@.len() - j,
    {
        assert(m.slots[j as int] == slot_model(child.slots@[j as int]));
        match &child.slots[j] {
            None => {
                proof {
                    lemma_merge_begin(pairs_model(merged@), m, *conf, w, j as nat);
                    lemma_merge_end(
                        pairs_model(merged@),
                        m,
                        *conf,
                        w,
                        j as nat,
                        Seq::<Pair>::empty(),
                    );
                }
            },
            Some(Pointer::Values(pairs)) => {
                let ghost pm = pairs_model(pairs@);
                proof {
                    lemma_merge_begin(pairs_model(merged@), m, *conf, w, j as nat);
                    assert(pm.take(0) =~= Seq::<Pair>::empty());
                    assert(bucket_ok(pm, *conf, w.push(j as nat)));
                }
                let mut i: usize = 0;
                while i < pairs.len()
                    invariant
                        conf.valid(),
                        i <= pairs@.len(),
                        j < child.slots@.len(),
                        m == child.model(),
                        w == way_of(way@),
                        node_inv(m, blocks, *conf, w),
                        m.slots[j as int] == Some(PointerModel::Values(pm)),
                        pm == pairs_model(pairs@),
                        bucket_ok(pm, *conf, w.push(j as nat)),
                        merged@.len() <= conf.bucket_size,
                        pairs_sorted(pairs_model(merged@)),
                        forall|a: int|
                            0 <= a < merged@.len() ==> is_item(
                                (#[trigger] pairs_model(merged@)[a]).1,
                            ) && pairs_model(merged@)[a].0.len() <= MAX_KEY_LEN && reaches(
                                pairs_model(merged@)[a].0,
                                *conf,
                                w,
                            ),
                        merged_so_far(
                            pairs_model(merged@),
                            m,
                            *conf,
                            w,
                            j as nat,
                            pm.take(i as int),
                        ),
                    decreases pairs@.len() - i,
                {
                    let kv = &pairs[i];
                    let ghost before = pairs_model(merged@);
                    proof {
                        assert(pm[i as int] == kv@);
                        lemma_merge_absent(before, m, *conf, w, j as nat, pm, i as int);
                        lemma_reaches_parent(kv.key@, *conf, w, j as nat);
                    }
                    if merged.len() >= conf.bucket_size {
                        proof {
                            lemma_node_inv(m, blocks, *conf, w);
                            lemma_pairs_get_at(pm, i as int);
                            lemma_find_slot(m, blocks, *conf, w, kv.key@);
                            assert forall|a: int| 0 <= a < before.len() implies reaches(
                                (#[trigger] before[a]).0,
                                *conf,
                                w,
                            ) && (find(m, blocks, *conf, w, before[a].0) matches Ok(Some(_))) by {
                                let k = before[a].0;
                                lemma_pairs_get_at(before, a);
                                lemma_find_slot(m, blocks, *conf, w, k);
                                lemma_route_len(k, *conf);
                                if reaches(k, *conf, w.push(j as nat)) {
                                    lemma_reaches_parent(k, *conf, w, j as nat);
                                    assert(pairs_get(before, k) == pairs_get(
                                        pm.take(i as int),
                                        k,
                                    ));
                                    let at = super::model::pairs_index(pm.take(i as int), k);
                                    assert(pm.take(i as int)[at] == pm[at]);
                                    lemma_pairs_get_at(pm, at);
                                } else {
                                    assert(pairs_get(before, k) == gathered(
                                        m,
                                        *conf,
                                        w,
                                        j as nat,
                                        k,
                                    ));
                                }
                            }
                            lemma_rich_from_keys(m, blocks, *conf, w, before, kv.key@);
                        }
                        return None;
                    }
                    let at = bucket_position(&merged, kv.key.as_slice());
                    merged.insert(
                        at,
                        KeyValue {
                            key: bytes_copy(kv.key.as_slice()),
                            value: bytes_copy(kv.value.as_slice()),
                        },
                    );
                    proof {
                        let after = pairs_model(merged@);
                        assert(after =~= before.insert(at as int, kv@));
                        lemma_pairs_insert(before, at as int, kv@);
                        lemma_merge_pair(before, after, m, *conf, w, j as nat, pm, i as int);
                        assert forall|a: int| 0 <= a < after.len() implies is_item(
                            (#[trigger] after[a]).1,
                        ) && after[a].0.len() <= MAX_KEY_LEN && reaches(after[a].0, *conf, w) by {
                            if a < at {
                                assert(after[a] == before[a]);
                            } else if a > at {
                                assert(after[a] == before[a - 1]);
                            }
                        }
                    }
                    i += 1;
                }
                proof {
                    assert(pm.take(pm.len() as int) =~= pm);
                    lemma_merge_end(pairs_model(merged@), m, *conf, w, j as nat, pm);
                }
            },
            Some(_) => {
                assert(!(m.slots[j as int]->Some_0 is Values));
                return None;
            },
        }
        j += 1;
    }
    proof {
        let pm = pairs_model(merged@);
        if pm.len() > 0 {
            assert forall|a: int| 0 <= a < pm.len() implies is_item((#[trigger] pm[a]).1)
                && pm[a].0.len() <= MAX_KEY_LEN && hashed(pm[a].0) && begins_with(
                key_route(pm[a].0, conf.bit_width as nat),
                w,
            ) by {
                assert(reaches(pm[a].0, *conf, w));
            }
        }
    }
    Some(merged)
}

/// Where the child in `slot` holds nothing but buckets with no more pairs
/// together than one bucket may hold, puts that one bucket in its place, or
/// nothing where it holds no pair at all.
fn collapse(node: &mut Node, conf: &Config, way: &mut Vec<usize>, slot: usize, Ghost(blocks): Ghost<
    Blocks,
>)
    requires
        conf.valid(),
        node_inv(old(node).model(), blocks, *conf, way_of(old(way)@)),
        slot < old(node).slots@.len(),
        old(node).slots@[slot as int] matches Some(Pointer::Resolved { .. }),
    ensures
        final(way)@ == old(way)@,
        node_inv(final(node).model(), blocks, *conf, way_of(old(way)@)),
        same_lookups(
            old(node).model(),
            final(node).model(),
            blocks,
            *conf,
            way_of(old(way)@),
        ),
        canonical_but(old(node).model(), blocks, *conf, way_of(old(way)@), slot as int)
            ==> canonical(final(node).model(), blocks, *conf, way_of(old(way)@)),
{
    let ghost before = node.model();
    let ghost before_slots = node.slots@;
    let ghost w = way_of(way@);
    let ghost ws = w.push(slot as nat);
    proof {
        lemma_only_read_same(before, blocks, *conf, w);
        lemma_node_inv(before, blocks, *conf, w);
        assert(before.slots[slot as int] == slot_model(node.slots@[slot as int]));
        assert(pointer_inv(before.slots[slot as int]->Some_0, blocks, *conf, ws));
    }
    way.push(slot);
    assert(way_of(way@) =~= ws);
    let merged = match &node.slots[slot] {
        Some(Pointer::Resolved { node: child, .. }) => gather(child, conf, way, Ghost(blocks)),
        _ => None,
    };
    let _ = way.pop();
    assert(way@ =~= old(way)@);
    match merged {
        Some(pairs) => {
            let ghost pm = pairs_model(pairs@);
            let ghost cm = before.slots[slot as int]->Some_0->Resolved_0;
            let now: Option<Pointer> = if pairs.len() == 0 {
                None
            } else {
                Some(Pointer::Values(pairs))
            };
            let _ = node.slots.remove(slot);
            node.slots.insert(slot, now);
            proof {
                let after = node.model();
                assert(node.slots@ =~= before_slots.update(slot as int, now));
                assert forall|j: int|
                    0 <= j < before.slots.len() && j != slot implies after.slots[j]
                    == before.slots[j] by {}
                assert(after.slots[slot as int] == slot_model(now));
                lemma_node_inv_update(before, after, blocks, *conf, w, slot as int);
                lemma_gathered_is_find(pm, *cm, blocks, *conf, ws);
                lemma_lift_same(before, after, blocks, *conf, w, slot as int);
                if canonical_but(before, blocks, *conf, w, slot as int) {
                    lemma_canonical(after, blocks, *conf, w);
                    assert forall|i: int| 0 <= i < after.slots.len() implies (
                    #[trigger] after.slots[i] matches Some(p) ==> pointer_canonical(
                        p,
                        blocks,
                        *conf,
                        w.push(i as nat),
                    )) by {
                        if i != slot {
                            assert(after.slots[i] == before.slots[i]);
                        }
                    }
                }
            }
        },
        None => {
            proof {
                if canonical_but(before, blocks, *conf, w, slot as int) {
                    let cm = before.slots[slot as int]->Some_0->Resolved_0;
                    if !node_leafy(*cm) {
                        let g = choose|g: int|
                            0 <= g < cm.slots.len() && (#[trigger] cm.slots[g] matches Some(p)
                                && !(p is Values));
                        lemma_canonical(*cm, blocks, *conf, ws);
                        assert(pointer_canonical(
                            cm.slots[g]->Some_0,
                            blocks,
                            *conf,
                            ws.push(g as nat),
                        ));
                        lemma_rich_above(*cm, blocks, *conf, ws, g);
                    }
                    lemma_canonical(before, blocks, *conf, w);
                    assert forall|i: int| 0 <= i < before.slots.len() implies (
                    #[trigger] before.slots[i] matches Some(p) ==> pointer_canonical(
                        p,
                        blocks,
                        *conf,
                        w.push(i as nat),
                    )) by {}
                }
            }
        },
    }
}

/// Whether a node is in canonical form but for the child in `slot`, which
/// is dirty and in canonical form itself but may hold too few pairs.
pub open spec fn canonical_but(
    n: NodeModel,
    blocks: Blocks,
    conf: Config,
    way: Seq<nat>,
    slot: int,
) -> bool {
    &&& forall|i: int|
        0 <= i < n.slots.len() && i != slot ==> (#[trigger] n.slots[i] matches Some(p)
            ==> pointer_canonical(p, blocks, conf, way.push(i as nat)))
    &&& 0 <= slot < n.slots.len()
    &&& n.slots[slot] matches Some(PointerModel::Resolved(child, None)) && canonical(
        *child,
        blocks,
        conf,
        way.push(slot as nat),
    )
}

/// What a removal of `key` promises: on success the value that the key had,
/// and that lookups find nothing for the key and what they found for every
/// other key; on failure that the trie holds what it held, and why it failed.
pub open spec fn remove_post(
    before: NodeModel,
    after: NodeModel,
    blocks: Blocks,
    conf: Config,
    way: Seq<nat>,
    key: Seq<u8>,
    r: Result<Option<Vec<u8>>, Error>,
) -> bool {
    &&& node_inv(after, blocks, conf, way)
    &&& match r {
        Ok(previous) => {
            &&& find(before, blocks, conf, way, key) == Ok::<Option<Seq<u8>>, Failure>(
                value_model(previous),
            )
            &&& previous is Some ==> lookups_changed(before, after, blocks, conf, way, key, None)
            &&& previous is None ==> only_read(before, after, blocks, conf, way)
        },
        Err(e) => only_read(before, after, blocks, conf, way) && (e is Store || (failure_of(e)
            matches Some(f) && find(before, blocks, conf, way, key) == Err::<
            Option<Seq<u8>>,
            Failure,
        >(f))),
    }
}

/// A removal from a node that was only read before gives, for the node
/// before the reading, what it gives for the node after it.
proof fn lemma_remove_post_after_read(
    before: NodeModel,
    mid: NodeModel,
    after: NodeModel,
    blocks: Blocks,
    conf: Config,
    way: Seq<nat>,
    key: Seq<u8>,
    r: Result<Option<Vec<u8>>, Error>,
)
    requires
        only_read(before, mid, blocks, conf, way),
        reaches(key, conf, way),
        remove_post(mid, after, blocks, conf, way, key, r),
    ensures
        remove_post(before, after, blocks, conf, way, key, r),
{
    assert(find(mid, blocks, conf, way, key) == find(before, blocks, conf, way, key));
    match r {
        Ok(previous) => {
            if previous is Some {
                lemma_same_then_changed(before, mid, after, blocks, conf, way, key, None);
            } else {
                lemma_only_read_trans(before, mid, after, blocks, conf, way);
            }
        },
        Err(e) => {
            lemma_only_read_trans(before, mid, after, blocks, conf, way);
        },
    }
}

/// The removal where the slot of the key holds a child in memory.
fn remove_below<S: Store>(
    node: &mut Node,
    store: &S,
    conf: &Config,
    hash: &[u8],
    key: &[u8],
    way: &mut Vec<usize>,
    slot: usize,
) -> (r: Result<Option<Vec<u8>>, Error>)
    requires
        conf.valid(),
        hash@ == key_hash(key@),
        hash@.len() == HASH_LEN,
        node_inv(old(node).model(), store.blocks(), *conf, way_of(old(way)@)),
        reaches(key@, *conf, way_of(old(way)@)),
        slot == key_route(key@, conf.bit_width as nat)[old(way)@.len() as int],
        slot < old(node).slots@.len(),
        old(node).slots@[slot as int] matches Some(Pointer::Resolved { .. }),
    ensures
        final(way)@ == old(way)@,
        remove_post(
            old(node).model(),
            final(node).model(),
            store.blocks(),
            *conf,
            way_of(old(way)@),
            key@,
            r,
        ),
        keeps_canonical(
            old(node).model(),
            final(node).model(),
            store.blocks(),
            *conf,
            way_of(old(way)@),
            r matches Ok(Some(_)),
        ),
        canonical(old(node).model(), store.blocks(), *conf, way_of(old(way)@)) ==> r is Ok,
    decreases 257 - old(way)@.len(), 0nat,
{
    let ghost mid = node.model();
    let ghost blocks = store.blocks();
    let ghost w = way_of(way@);
    let ghost ws = w.push(slot as nat);
    proof {
        lemma_node_inv(mid, blocks, *conf, w);
        lemma_find_slot(mid, blocks, *conf, w, key@);
        assert(mid.slots[slot as int] == slot_model(node.slots@[slot as int]));
        assert(pointer_inv(mid.slots[slot as int]->Some_0, blocks, *conf, ws));
    }
    let r = match &mut node.slots[slot] {
        Some(Pointer::Resolved { node: child, stored }) => {
            way.push(slot);
            assert(way_of(way@) =~= ws);
            let r = remove(child, store, conf, hash, key, way);
            let _ = way.pop();
            assert(way@ =~= old(way)@);
            match &r {
                Ok(Some(_)) => {
                    *stored = None;
                },
                _ => {},
            }
            r
        },
        _ => {
            assert(false);
            Err(Error::MaxDepth)
        },
    };
    let ghost after = node.model();
    let removed = match &r {
        Ok(Some(_)) => true,
        _ => false,
    };
    proof {
        assert(after.slots[slot as int] == slot_model(node.slots@[slot as int]));
        assert forall|j: int|
            0 <= j < mid.slots.len() && j != slot implies after.slots[j] == mid.slots[j] by {}
        if removed {
            lemma_node_inv_update(mid, after, blocks, *conf, w, slot as int);
            lemma_lift_changed(mid, after, blocks, *conf, w, slot as int, key@, None);
        } else {
            lemma_only_read_child(mid, after, blocks, *conf, w, slot as int);
        }
        if canonical(mid, blocks, *conf, w) {
            lemma_canonical(mid, blocks, *conf, w);
            assert(pointer_canonical(mid.slots[slot as int]->Some_0, blocks, *conf, ws));
            if removed {
                assert forall|i: int| 0 <= i < after.slots.len() && i != slot implies (
                #[trigger] after.slots[i] matches Some(p) ==> pointer_canonical(
                    p,
                    blocks,
                    *conf,
                    w.push(i as nat),
                )) by {
                    assert(after.slots[i] == mid.slots[i]);
                }
                assert(canonical_but(after, blocks, *conf, w, slot as int));
            } else {
                assert(after.slots =~= mid.slots);
            }
        }
    }
    if removed {
        collapse(node, conf, way, slot, Ghost(blocks));
        proof {
            lemma_changed_then_same(mid, after, node.model(), blocks, *conf, w, key@, None);
        }
    }
    r
}

/// The removal where the slot of the key is empty or holds a bucket.
fn remove_here(node: &mut Node, conf: &Config, key: &[u8], way: &Vec<usize>, slot: usize, Ghost(
    blocks,
): Ghost<Blocks>) -> (r: Result<Option<Vec<u8>>, Error>)
    requires
        conf.valid(),
        node_inv(old(node).model(), blocks, *conf, way_of(way@)),
        reaches(key@, *conf, way_of(way@)),
        slot == key_route(key@, conf.bit_width as nat)[way@.len() as int],
        slot < old(node).slots@.len(),
        old(node).slots@[slot as int] is None || old(node).slots@[slot as int]->Some_0 is Values,
    ensures
        remove_post(old(node).model(), final(node).model(), blocks, *conf, way_of(way@), key@, r),
        keeps_canonical(
            old(node).model(),
            final(node).model(),
            blocks,
            *conf,
            way_of(way@),
            r matches Ok(Some(_)),
        ),
        r is Ok,
{
    let ghost mid = node.model();
    let ghost mid_slots = node.slots@;
    let ghost w = way_of(way@);
    let ghost ws = w.push(slot as nat);
    proof {
        lemma_only_read_same(mid, blocks, *conf, w);
        lemma_node_inv(mid, blocks, *conf, w);
        lemma_find_slot(mid, blocks, *conf, w, key@);
        assert(mid.slots[slot as int] == slot_model(node.slots@[slot as int]));
        assert(mid.slots[slot as int] matches Some(p) ==> pointer_inv(p, blocks, *conf, ws));
    }
    let taken = node.slots.remove(slot);
    match taken {
        Some(Pointer::Values(pairs)) => {
            let ghost pm = pairs_model(pairs@);
            let mut pairs = pairs;
            match bucket_find(&pairs, key) {
                Some(i) => {
                    proof {
                        assert(pm[i as int] == pairs@[i as int]@);
                        lemma_pairs_get_at(pm, i as int);
                        lemma_pairs_remove(pm, i as int);
                    }
                    let gone = pairs.remove(i);
                    let ghost rest = pairs_model(pairs@);
                    assert(rest =~= pm.remove(i as int));
                    let now: Option<Pointer> = if pairs.len() == 0 {
                        None
                    } else {
                        proof {
                            assert forall|j: int| 0 <= j < rest.len() implies is_item(
                                (#[trigger] rest[j]).1,
                            ) && rest[j].0.len() <= MAX_KEY_LEN && hashed(rest[j].0)
                                && begins_with(key_route(rest[j].0, conf.bit_width as nat), ws) by {
                                if j < i {
                                    assert(rest[j] == pm[j]);
                                } else {
                                    assert(rest[j] == pm[j + 1]);
                                }
                            }
                        }
                        Some(Pointer::Values(pairs))
                    };
                    node.slots.insert(slot, now);
                    proof {
                        let after = node.model();
                        assert(node.slots@ =~= mid_slots.update(slot as int, now));
                        assert forall|j: int|
                            0 <= j < mid.slots.len() && j != slot implies after.slots[j]
                            == mid.slots[j] by {}
                        assert(after.slots[slot as int] == slot_model(now));
                        if now is None {
                            assert forall|k: Seq<u8>| #[trigger] pairs_get(rest, k) is None by {
                                lemma_pairs_get_absent(rest, k);
                            }
                        }
                        lemma_node_inv_update(mid, after, blocks, *conf, w, slot as int);
                        lemma_lift_changed(mid, after, blocks, *conf, w, slot as int, key@, None);
                        if canonical(mid, blocks, *conf, w) {
                            lemma_canonical_update(mid, after, blocks, *conf, w, slot as int);
                        }
                    }
                    Ok(Some(gone.value))
                },
                None => {
                    proof {
                        assert forall|j: int| 0 <= j < pm.len() implies #[trigger] pm[j].0
                            != key@ by {
                            assert(pm[j] == pairs@[j]@);
                        }
                        lemma_pairs_get_absent(pm, key@);
                    }
                    node.slots.insert(slot, Some(Pointer::Values(pairs)));
                    proof {
                        assert(node.slots@ =~= mid_slots);
                        assert(node.model().slots =~= mid.slots);
                    }
                    Ok(None)
                },
            }
        },
        other => {
            node.slots.insert(slot, other);
            proof {
                assert(node.slots@ =~= mid_slots);
                assert(node.model().slots =~= mid.slots);
            }
            Ok(None)
        },
    }
}

/// Removes `key` below the node at the end of `way` and returns the value
/// that it had. A child left with no more pairs than a bucket holds gives
/// way to that bucket. On failure the trie holds what it held.
pub fn remove<S: Store>(
    node: &mut Node,
    store: &S,
    conf: &Config,
    hash: &[u8],
    key: &[u8],
    way: &mut Vec<usize>,
) -> (r: Result<Option<Vec<u8>>, Error>)
    requires
        conf.valid(),
        hash@ == key_hash(key@),
        hash@.len() == HASH_LEN,
        node_inv(old(node).model(), store.blocks(), *conf, way_of(old(way)@)),
        reaches(key@, *conf, way_of(old(way)@)),
    ensures
        final(way)@ == old(way)@,
        remove_post(
            old(node).model(),
            final(node).model(),
            store.blocks(),
            *conf,
            way_of(old(way)@),
            key@,
            r,
        ),
        keeps_canonical(
            old(node).model(),
            final(node).model(),
            store.blocks(),
            *conf,
            way_of(old(way)@),
            r matches Ok(Some(_)),
        ),
        canonical(old(node).model(), store.blocks(), *conf, way_of(old(way)@)) ==> r is Ok,
    decreases 257 - old(way)@.len(), 1nat,
{
    let ghost before = node.model();
    let ghost blocks = store.blocks();
    let ghost w = way_of(way@);
    proof {
        lemma_only_read_same(before, blocks, *conf, w);
        lemma_node_inv(before, blocks, *conf, w);
        lemma_route_len(key@, *conf);
        lemma_find_slot(before, blocks, *conf, w, key@);
    }
    let depth = way.len();
    let slot = match slot_at(hash, depth, conf) {
        Some(s) => s,
        None => {
            assert(false);
            return Err(Error::MaxDepth);
        },
    };
    match resolve(node, store, conf, way, slot) {
        Ok(()) => {},
        Err(e) => {
            proof {
                // A node in canonical form holds no link.
                lemma_canonical(before, blocks, *conf, w);
            }
            return Err(e);
        },
    }
    let ghost mid = node.model();
    proof {
        assert(mid.slots[slot as int] == slot_model(node.slots@[slot as int]));
    }
    let is_child = match &node.slots[slot] {
        Some(Pointer::Resolved { .. }) => true,
        _ => false,
    };
    let r = if is_child {
        remove_below(node, store, conf, hash, key, way, slot)
    } else {
        remove_here(node, conf, key, way, slot, Ghost(blocks))
    };
    proof {
        lemma_remove_post_after_read(before, mid, node.model(), blocks, *conf, w, key@, r);
    }
    r
}

} // verus!
