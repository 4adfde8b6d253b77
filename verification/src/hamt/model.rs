//! The mathematical model of a trie: what a node is, which nodes are well
//! formed, and what a lookup finds.

use super::hash::{begins_with, depth_limit, hashed, key_route, Config};
use crate::bytes::{bytes_before, lemma_bytes_before_irreflexive};
use crate::cbor::is_item;
use crate::cid::is_cid;
use vstd::prelude::*;

verus! {

/// A key with its value.
pub type Pair = (Seq<u8>, Seq<u8>);

/// What a slot of a node holds.
pub enum PointerModel {
    /// A bucket of pairs, in the order of their keys.
    Values(Seq<Pair>),
    /// A child that has not been read yet, by its identifier.
    Link(Seq<u8>),
    /// A child held in memory; with the identifier under which it is stored
    /// where it has not changed since.
    Resolved(Box<NodeModel>, Option<Seq<u8>>),
}

/// A node: its slots, each empty or holding a pointer.
pub struct NodeModel {
    pub slots: Seq<Option<PointerModel>>,
}

/// Why an operation on the trie failed.
pub enum Failure {
    /// The hash of the key ran out of bits.
    MaxDepth,
    /// The store holds no block under this identifier.
    CidNotFound(Seq<u8>),
    /// The block under this identifier is no well-formed node of this trie.
    Malformed(Seq<u8>),
}

/// Whether `key` occurs among `pairs`.
pub open spec fn pairs_has(pairs: Seq<Pair>, key: Seq<u8>) -> bool {
    exists|i: int| 0 <= i < pairs.len() && #[trigger] pairs[i].0 == key
}

/// A position of `key` among `pairs`.
pub open spec fn pairs_index(pairs: Seq<Pair>, key: Seq<u8>) -> int {
    choose|i: int| 0 <= i < pairs.len() && #[trigger] pairs[i].0 == key
}

/// The value of `key` among `pairs`.
pub open spec fn pairs_get(pairs: Seq<Pair>, key: Seq<u8>) -> Option<Seq<u8>> {
    if pairs_has(pairs, key) {
        Some(pairs[pairs_index(pairs, key)].1)
    } else {
        None
    }
}

/// The keys of `pairs` ascend strictly.
pub open spec fn pairs_sorted(pairs: Seq<Pair>) -> bool {
    forall|i: int, j: int|
        0 <= i < j < pairs.len() ==> bytes_before(#[trigger] pairs[i].0, #[trigger] pairs[j].0)
}

/// Sorted pairs hold no key twice.
pub proof fn lemma_sorted_distinct(pairs: Seq<Pair>, i: int, j: int)
    requires
        pairs_sorted(pairs),
        0 <= i < pairs.len(),
        0 <= j < pairs.len(),
        pairs[i].0 == pairs[j].0,
    ensures
        i == j,
{
    lemma_bytes_before_irreflexive(pairs[i].0);
    if i < j {
        assert(bytes_before(pairs[i].0, pairs[j].0));
    } else if j < i {
        assert(bytes_before(pairs[j].0, pairs[i].0));
    }
}

/// Among sorted pairs, the key at a position has the value at that position.
pub proof fn lemma_pairs_get_at(pairs: Seq<Pair>, i: int)
    requires
        pairs_sorted(pairs),
        0 <= i < pairs.len(),
    ensures
        pairs_has(pairs, pairs[i].0),
        pairs_get(pairs, pairs[i].0) == Some(pairs[i].1),
{
    let key = pairs[i].0;
    assert(pairs_has(pairs, key));
    lemma_sorted_distinct(pairs, i, pairs_index(pairs, key));
}

/// A key that differs from every key is not among the pairs.
pub proof fn lemma_pairs_get_absent(pairs: Seq<Pair>, key: Seq<u8>)
    requires
        forall|i: int| 0 <= i < pairs.len() ==> #[trigger] pairs[i].0 != key,
    ensures
        !pairs_has(pairs, key),
        pairs_get(pairs, key) is None,
{
}

/// Putting a new key at the place that keeps the order adds it and changes
/// nothing else.
pub proof fn lemma_pairs_insert(pairs: Seq<Pair>, at: int, pair: Pair)
    requires
        pairs_sorted(pairs),
        0 <= at <= pairs.len(),
        forall|i: int| 0 <= i < at ==> bytes_before(#[trigger] pairs[i].0, pair.0),
        forall|i: int| at <= i < pairs.len() ==> bytes_before(pair.0, #[trigger] pairs[i].0),
    ensures
        pairs_sorted(pairs.insert(at, pair)),
        !pairs_has(pairs, pair.0),
        forall|k: Seq<u8>| #[trigger]
            pairs_get(pairs.insert(at, pair), k) == if k == pair.0 {
                Some(pair.1)
            } else {
                pairs_get(pairs, k)
            },
{
    let after = pairs.insert(at, pair);
    lemma_bytes_before_irreflexive(pair.0);
    assert forall|i: int, j: int| 0 <= i < j < after.len() implies bytes_before(
        #[trigger] after[i].0,
        #[trigger] after[j].0,
    ) by {
        let i0 = if i < at { i } else { i - 1 };
        let j0 = if j < at { j } else { j - 1 };
        if i == at {
            assert(after[j] == pairs[j0]);
        } else if j == at {
            assert(after[i] == pairs[i0]);
        } else {
            assert(after[i] == pairs[i0]);
            assert(after[j] == pairs[j0]);
        }
    }
    assert(!pairs_has(pairs, pair.0)) by {
        if pairs_has(pairs, pair.0) {
            let i = pairs_index(pairs, pair.0);
            if i < at {
                assert(bytes_before(pairs[i].0, pair.0));
            } else {
                assert(bytes_before(pair.0, pairs[i].0));
            }
        }
    }
    assert forall|k: Seq<u8>| #[trigger]
        pairs_get(after, k) == if k == pair.0 {
            Some(pair.1)
        } else {
            pairs_get(pairs, k)
        } by {
        if k == pair.0 {
            assert(after[at] == pair);
            lemma_pairs_get_at(after, at);
        } else if pairs_has(pairs, k) {
            let i = pairs_index(pairs, k);
            let i1 = if i < at { i } else { i + 1 };
            assert(after[i1] == pairs[i]);
            lemma_pairs_get_at(after, i1);
        } else {
            if pairs_has(after, k) {
                let j = pairs_index(after, k);
                let j0 = if j < at { j } else { j - 1 };
                assert(after[j] == pairs[j0]);
                assert(pairs[j0].0 == k);
            }
        }
    }
}

/// Replacing the value at a position changes the value of that key alone.
pub proof fn lemma_pairs_update(pairs: Seq<Pair>, at: int, value: Seq<u8>)
    requires
        pairs_sorted(pairs),
        0 <= at < pairs.len(),
    ensures
        pairs_sorted(pairs.update(at, (pairs[at].0, value))),
        forall|k: Seq<u8>| #[trigger]
            pairs_get(pairs.update(at, (pairs[at].0, value)), k) == if k == pairs[at].0 {
                Some(value)
            } else {
                pairs_get(pairs, k)
            },
{
    let key = pairs[at].0;
    let after = pairs.update(at, (key, value));
    assert forall|i: int, j: int| 0 <= i < j < after.len() implies bytes_before(
        #[trigger] after[i].0,
        #[trigger] after[j].0,
    ) by {
        assert(after[i].0 == pairs[i].0);
        assert(after[j].0 == pairs[j].0);
    }
    assert forall|k: Seq<u8>| #[trigger]
        pairs_get(after, k) == if k == key {
            Some(value)
        } else {
            pairs_get(pairs, k)
        } by {
        if k == key {
            lemma_pairs_get_at(after, at);
        } else if pairs_has(pairs, k) {
            let i = pairs_index(pairs, k);
            assert(after[i] == pairs[i]);
            lemma_pairs_get_at(after, i);
        } else {
            if pairs_has(after, k) {
                let j = pairs_index(after, k);
                assert(pairs[j].0 == k);
            }
        }
    }
}

/// Removing the pair at a position removes that key and changes nothing else.
pub proof fn lemma_pairs_remove(pairs: Seq<Pair>, at: int)
    requires
        pairs_sorted(pairs),
        0 <= at < pairs.len(),
    ensures
        pairs_sorted(pairs.remove(at)),
        forall|k: Seq<u8>| #[trigger]
            pairs_get(pairs.remove(at), k) == if k == pairs[at].0 {
                None
            } else {
                pairs_get(pairs, k)
            },
{
    let key = pairs[at].0;
    let after = pairs.remove(at);
    assert forall|i: int| 0 <= i < after.len() implies #[trigger] after[i] == pairs[if i < at {
        i
    } else {
        i + 1
    }] by {}
    assert forall|i: int, j: int| 0 <= i < j < after.len() implies bytes_before(
        #[trigger] after[i].0,
        #[trigger] after[j].0,
    ) by {
        let i0 = if i < at { i } else { i + 1 };
        let j0 = if j < at { j } else { j + 1 };
        assert(after[i] == pairs[i0]);
        assert(after[j] == pairs[j0]);
    }
    assert forall|k: Seq<u8>| #[trigger]
        pairs_get(after, k) == if k == key {
            None
        } else {
            pairs_get(pairs, k)
        } by {
        if pairs_has(after, k) {
            let j = pairs_index(after, k);
            let j0 = if j < at { j } else { j + 1 };
            assert(after[j] == pairs[j0]);
            lemma_pairs_get_at(after, j);
            lemma_pairs_get_at(pairs, j0);
            if k == key {
                lemma_sorted_distinct(pairs, j0, at);
            }
        } else if k != key && pairs_has(pairs, k) {
            let i = pairs_index(pairs, k);
            let i1 = if i < at { i } else { i - 1 };
            assert(after[i1] == pairs[i]);
            assert(after[i1].0 == k);
        }
    }
}

/// The longest key that a trie takes.
pub const MAX_KEY_LEN: usize = 0xffff_ffff;

/// A bucket is well formed where it holds between one pair and as many as
/// the configuration allows, in strictly ascending order of their keys, each
/// value one CBOR item, and each key no longer than `MAX_KEY_LEN` and one
/// whose route begins with the way to the bucket.
pub open spec fn bucket_ok(pairs: Seq<Pair>, conf: Config, way: Seq<nat>) -> bool {
    &&& 1 <= pairs.len() <= conf.bucket_size
    &&& pairs_sorted(pairs)
    &&& forall|i: int|
        0 <= i < pairs.len() ==> is_item((#[trigger] pairs[i]).1) && pairs[i].0.len()
            <= MAX_KEY_LEN && hashed(pairs[i].0) && begins_with(
            key_route(pairs[i].0, conf.bit_width as nat),
            way,
        )
}

/// A node at the end of `way` is well formed where it lies at a depth that
/// hashes have bits for, has as many slots as the configuration says, and
/// each of them is empty or holds a well-formed bucket, a link, or a
/// well-formed child.
pub open spec fn node_ok(n: NodeModel, conf: Config, way: Seq<nat>) -> bool
    decreases n,
{
    &&& way.len() < depth_limit(conf.bit_width as nat)
    &&& n.slots.len() == conf.width()
    &&& forall|i: int|
        0 <= i < n.slots.len() ==> match #[trigger] n.slots[i] {
            None => true,
            Some(PointerModel::Values(pairs)) => bucket_ok(pairs, conf, way.push(i as nat)),
            Some(PointerModel::Link(cid)) => is_cid(cid),
            Some(PointerModel::Resolved(child, stored)) => node_ok(
                *child,
                conf,
                way.push(i as nat),
            ) && (stored matches Some(cid) ==> is_cid(cid)),
        }
}

/// A node with every slot empty.
pub open spec fn empty_node(conf: Config) -> NodeModel {
    NodeModel { slots: Seq::new(conf.width(), |i: int| None) }
}

/// Whether every slot of a node is empty.
pub open spec fn node_is_empty(n: NodeModel) -> bool {
    forall|i: int| 0 <= i < n.slots.len() ==> #[trigger] n.slots[i] is None
}

} // verus!
