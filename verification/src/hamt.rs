//! A persistent hash-array-mapped trie from byte strings to CBOR items, kept
//! in a content-addressed block store.

pub mod canon;
pub mod codec;
pub mod flush;
pub mod grow;
pub mod hash;
pub mod lookup;
pub mod model;
pub mod ops;
pub mod roundtrip;
pub mod tree;
pub mod unique;
pub mod walk;

use crate::bytes::bytes_copy;
use crate::cbor::is_item;
use crate::cid::Cid;
use crate::store::Store;
use grow::{lemma_inv_grow, lemma_kept_grow};
use hash::{hash_key, key_route, Config};
use lookup::{
    find, flatten, lemma_empty_node, lemma_flat_node, loaded, node_clean, node_inv, reaches,
    slot_find, Blocks,
};
use model::{empty_node, node_is_empty, Failure, NodeModel, Pair, PointerModel, MAX_KEY_LEN};
use ops::{failure_of, insertion_changes, value_is_item, value_model, way_of, Error};
use tree::{pairs_model, slot_model, KeyValue, Node};
use walk::{holds_pair, pairs_from};
use vstd::prelude::*;

verus! {

/// What a lookup of `key` finds in the trie that the store holds under
/// `root`.
pub open spec fn stored_lookup(blocks: Blocks, root: Seq<u8>, conf: Config, key: Seq<u8>) -> Result<
    Option<Seq<u8>>,
    Failure,
> {
    slot_find(Some(PointerModel::Link(root)), blocks, conf, Seq::empty(), key)
}

/// Whether a trie takes `value` under `key`: the key is not too long and the
/// value is exactly one CBOR item.
pub open spec fn takes(key: Seq<u8>, value: Seq<u8>) -> bool {
    key.len() <= MAX_KEY_LEN && is_item(value)
}

/// Why going through the pairs of a trie ended early.
#[derive(Debug)]
pub enum Visit<E> {
    /// The trie failed.
    Trie(Error),
    /// A key or a value is not what the visitor is to be handed.
    Malformed(Vec<u8>),
    /// The visitor failed.
    Visitor(E),
}

/// Whether a visitor was content with each of the first `count` pairs.
pub open spec fn visited<F: Fn(&Vec<u8>, &Vec<u8>) -> Result<(), E>, E>(
    f: F,
    pairs: Seq<KeyValue>,
    count: int,
) -> bool {
    forall|j: int|
        0 <= j < count ==> call_ensures(
            f,
            (&(#[trigger] pairs[j]).key, &pairs[j].value),
            Ok::<(), E>(()),
        )
}

/// A trie in memory, apart from the store that holds what is not in memory.
/// Every operation is handed the store; the trie's invariant and what its
/// lookups find are stated for the blocks that the store holds.
pub struct Trie {
    root: Node,
    conf: Config,
    /// The identifier of the root as last written, until the trie changes.
    flushed_cid: Option<Cid>,
}

impl Trie {
    /// The invariant of the trie over a store that holds `blocks`: its
    /// configuration is usable, its nodes in memory are well formed and
    /// agree with the store, and the identifier kept from the last writing
    /// is that of the root as it is.
    pub closed spec fn inv(&self, blocks: Blocks) -> bool {
        &&& self.conf.valid()
        &&& node_inv(self.root.model(), blocks, self.conf, Seq::empty())
        &&& self.flushed_cid matches Some(cid) ==> node_clean(self.root.model()) && loaded(
            blocks,
            cid@,
            self.conf,
            Seq::empty(),
        ) == Ok::<NodeModel, Failure>(flatten(self.root.model()))
    }

    /// The configuration of the trie.
    pub closed spec fn config(&self) -> Config {
        self.conf
    }

    /// Whether the trie is in canonical form: it is wholly in memory, each
    /// node below the root holds more pairs than a bucket holds, and each
    /// identifier kept from a writing is that of the encoding of its node.
    /// A new trie is in canonical form, and every operation but loading
    /// keeps a trie in it.
    pub closed spec fn canonical(&self, blocks: Blocks) -> bool {
        &&& canon::canonical(self.root.model(), blocks, self.conf, Seq::empty())
        &&& self.flushed_cid matches Some(cid) ==> cid@ == crate::store::block_cid_bytes(
            crate::store::DAG_CBOR,
            codec::node_encoding(self.root.model()),
        )
    }

    /// A trie stays in canonical form when the store gains blocks.
    pub proof fn lemma_canonical_grow(&self, blocks: Blocks, more: Blocks)
        requires
            self.canonical(blocks),
            blocks.submap_of(more),
        ensures
            self.canonical(more),
    {
        canon::lemma_canonical_grow(self.root.model(), blocks, more, self.conf, Seq::empty());
    }

    /// In a trie in canonical form every lookup succeeds.
    pub proof fn lemma_canonical_lookup(&self, blocks: Blocks)
        requires
            self.inv(blocks),
            self.canonical(blocks),
        ensures
            forall|k: Seq<u8>| (#[trigger] self.lookup(blocks, k)) is Ok,
    {
        assert forall|k: Seq<u8>| (#[trigger] self.lookup(blocks, k)) is Ok by {
            lookup::lemma_reaches_root(k, self.conf);
            canon::lemma_canonical_finds(self.root.model(), blocks, self.conf, Seq::empty(), k);
        }
    }

    /// The identifier that a trie in canonical form keeps from its last
    /// writing is that of the encoding of its root.
    pub proof fn lemma_canonical_flushed(&self, blocks: Blocks)
        requires
            self.canonical(blocks),
            self.flushed() is Some,
        ensures
            self.flushed() == Some(
                crate::store::block_cid_bytes(
                    crate::store::DAG_CBOR,
                    codec::node_encoding(self.root_model()),
                ),
            ),
    {
    }

    /// Two tries in canonical form with the same configuration, neither
    /// changed since it was last written, in which every lookup finds the
    /// same, were written under the same identifier.
    pub proof fn lemma_written_alike(&self, blocks: Blocks, other: &Self, other_blocks: Blocks)
        requires
            self.inv(blocks),
            self.canonical(blocks),
            other.inv(other_blocks),
            other.canonical(other_blocks),
            self.config() == other.config(),
            self.flushed() is Some,
            other.flushed() is Some,
            forall|k: Seq<u8>|
                #[trigger] self.lookup(blocks, k) == other.lookup(other_blocks, k),
        ensures
            self.flushed() == other.flushed(),
            codec::node_encoding(self.root_model()) == codec::node_encoding(other.root_model()),
    {
        assert(unique::nodes_agree(
            self.root.model(),
            blocks,
            other.root.model(),
            other_blocks,
            self.conf,
            Seq::empty(),
        )) by {
            assert forall|k: Seq<u8>| reaches(k, self.conf, Seq::empty()) implies #[trigger] find(
                self.root.model(),
                blocks,
                self.conf,
                Seq::empty(),
                k,
            ) == find(other.root.model(), other_blocks, self.conf, Seq::empty(), k) by {
                assert(self.lookup(blocks, k) == other.lookup(other_blocks, k));
            }
        }
        unique::lemma_canonical_unique(
            self.root.model(),
            blocks,
            other.root.model(),
            other_blocks,
            self.conf,
            Seq::empty(),
        );
    }

    /// A trie in canonical form in which no lookup finds anything is
    /// written as the empty node.
    pub proof fn lemma_nothing_found(&self, blocks: Blocks)
        requires
            self.inv(blocks),
            self.canonical(blocks),
            forall|k: Seq<u8>|
                #[trigger] self.lookup(blocks, k) == Ok::<
                    Option<Seq<u8>>,
                    Failure,
                >(None),
        ensures
            self.root_model() == empty_node(self.config()),
            self.flushed() matches Some(cid) ==> cid == crate::store::block_cid_bytes(
                crate::store::DAG_CBOR,
                codec::node_encoding(empty_node(self.config())),
            ),
    {
        assert forall|k: Seq<u8>| reaches(k, self.conf, Seq::empty()) implies #[trigger] find(
            self.root.model(),
            blocks,
            self.conf,
            Seq::empty(),
            k,
        ) == Ok::<Option<Seq<u8>>, Failure>(None) by {
            assert(self.lookup(blocks, k) == Ok::<Option<Seq<u8>>, Failure>(None));
        }
        canon::lemma_nothing_found_is_empty(self.root.model(), blocks, self.conf, Seq::empty());
        assert(self.root.model().slots =~= empty_node(self.conf).slots);
    }

    /// What a lookup of `key` finds: its value, nothing, or the failure that
    /// ends the lookup.
    pub closed spec fn lookup(&self, blocks: Blocks, key: Seq<u8>) -> Result<
        Option<Seq<u8>>,
        Failure,
    > {
        find(self.root.model(), blocks, self.conf, Seq::empty(), key)
    }

    /// The identifier of the root as last written, where the trie has not
    /// changed since.
    pub closed spec fn flushed(&self) -> Option<Seq<u8>> {
        match self.flushed_cid {
            Some(cid) => Some(cid@),
            None => None,
        }
    }

    /// The root in the model.
    pub closed spec fn root_model(&self) -> NodeModel {
        self.root.model()
    }

    /// Every lookup finds in `self` what it finds in `other`.
    pub open spec fn same_as(&self, other: &Self, blocks: Blocks) -> bool {
        forall|k: Seq<u8>|
            #[trigger] self.lookup(blocks, k) == other.lookup(blocks, k)
    }

    /// Every lookup finds in `self` what it finds in `other`, but for `key`,
    /// for which it finds `now`.
    pub open spec fn differs_at(
        &self,
        other: &Self,
        blocks: Blocks,
        key: Seq<u8>,
        now: Option<Seq<u8>>,
    ) -> bool {
        &&& self.lookup(blocks, key) == Ok::<Option<Seq<u8>>, Failure>(now)
        &&& forall|k: Seq<u8>|
            #[trigger] self.lookup(blocks, k) == if k == key {
                Ok(now)
            } else {
                other.lookup(blocks, k)
            }
    }

    /// Every lookup that succeeded in `other` over `before` finds the same
    /// in `self` over `after`.
    pub open spec fn keeps(&self, after: Blocks, other: &Self, before: Blocks) -> bool {
        forall|k: Seq<u8>|
            other.lookup(before, k) is Ok ==> #[trigger] self.lookup(after, k)
                == other.lookup(before, k)
    }

    /// A trie keeps its invariant and what its lookups found when the store
    /// gains blocks.
    pub proof fn lemma_grow(&self, blocks: Blocks, more: Blocks)
        requires
            self.inv(blocks),
            blocks.submap_of(more),
        ensures
            self.inv(more),
            self.keeps(more, self, blocks),
    {
        lemma_inv_grow(self.root.model(), blocks, more, self.conf, Seq::empty());
        lemma_kept_grow(self.root.model(), blocks, more, self.conf, Seq::empty());
        if self.flushed_cid is Some {
            grow::lemma_loaded_grow(
                blocks,
                more,
                self.flushed_cid->Some_0@,
                self.conf,
                Seq::empty(),
            );
        }
        assert forall|k: Seq<u8>| self.lookup(blocks, k) is Ok implies #[trigger]
            self.lookup(more, k) == self.lookup(blocks, k) by {
            lookup::lemma_reaches_root(k, self.conf);
        }
    }

    /// The configuration of a trie with the invariant is usable.
    pub proof fn lemma_config_valid(&self, blocks: Blocks)
        requires
            self.inv(blocks),
        ensures
            self.config().valid(),
    {
    }

    /// A lookup in the trie that the store holds under the identifier kept
    /// from the last writing finds what it finds in this trie.
    pub proof fn lemma_flushed_lookup(&self, blocks: Blocks)
        requires
            self.inv(blocks),
            self.flushed() is Some,
        ensures
            forall|k: Seq<u8>|
                #[trigger] stored_lookup(
                    blocks,
                    self.flushed()->Some_0,
                    self.config(),
                    k,
                ) == self.lookup(blocks, k),
    {
        assert forall|k: Seq<u8>| #[trigger] stored_lookup(
            blocks,
            self.flushed()->Some_0,
            self.config(),
            k,
        ) == self.lookup(blocks, k) by {
            let route = key_route(k, self.conf.bit_width as nat);
            assert(route.take(0) =~= Seq::<nat>::empty());
            lookup::lemma_flatten_get(self.root.model(), blocks, self.conf, route, k, 0);
        }
    }

    /// In an empty trie every lookup finds nothing.
    pub open spec fn is_new(&self, blocks: Blocks, conf: Config) -> bool {
        &&& self.inv(blocks)
        &&& self.config() == conf
        &&& self.flushed() is None
        &&& self.canonical(blocks)
        &&& self.root_model() == empty_node(conf)
        &&& forall|k: Seq<u8>|
            #[trigger] self.lookup(blocks, k) == Ok::<Option<Seq<u8>>, Failure>(None)
        &&& forall|k: Seq<u8>| !(#[trigger] self.jammed(blocks, k))
    }

    /// A trie in which no lookup finds anything has room for every key.
    pub proof fn lemma_room_in_empty(&self, blocks: Blocks, key: Seq<u8>)
        requires
            self.config().valid(),
            forall|k: Seq<u8>|
                #[trigger] self.lookup(blocks, k) == Ok::<Option<Seq<u8>>, Failure>(None),
        ensures
            !self.jammed(blocks, key),
    {
        if self.jammed(blocks, key) {
            let keys = choose|keys: Seq<Seq<u8>>| #[trigger] self.jam(keys, blocks, key);
            assert(self.lookup(blocks, keys[0]) matches Ok(Some(_)));
        }
    }

    /// An empty trie with the given configuration. It is a new trie over
    /// any store.
    pub fn new(conf: Config) -> (t: Self)
        requires
            conf.valid(),
        ensures
            forall|blocks: Blocks| #[trigger] t.is_new(blocks, conf),
    {
        let root = ops::empty(&conf);
        let t = Trie { root, conf, flushed_cid: None };
        proof {
            assert forall|blocks: Blocks| #[trigger] t.is_new(blocks, conf) by {
                lookup::lemma_depth_limit(conf);
                lemma_empty_node(blocks, conf, Seq::empty());
                canon::lemma_canonical_empty(blocks, conf, Seq::empty());
                assert forall|k: Seq<u8>| #[trigger] t.lookup(blocks, k) == Ok::<
                    Option<Seq<u8>>,
                    Failure,
                >(None) by {
                    lookup::lemma_reaches_root(k, conf);
                }
                assert forall|k: Seq<u8>| !(#[trigger] t.jammed(blocks, k)) by {
                    t.lemma_room_in_empty(blocks, k);
                }
            }
        }
        t
    }

    /// What loading promises: on success a trie in which every lookup finds
    /// what it finds in the stored trie; on failure why the stored root
    /// could not be had.
    pub open spec fn load_post(blocks: Blocks, cid: Seq<u8>, conf: Config, r: Result<Self, Error>)
        -> bool {
        match r {
            Ok(t) => {
                &&& t.inv(blocks)
                &&& t.config() == conf
                &&& t.flushed() == Some(cid)
                &&& loaded(blocks, cid, conf, Seq::empty()) == Ok::<NodeModel, Failure>(
                    t.root_model(),
                )
                &&& forall|k: Seq<u8>|
                    #[trigger] t.lookup(blocks, k) == stored_lookup(
                        blocks,
                        cid,
                        conf,
                        k,
                    )
            },
            Err(e) => e is Store || (failure_of(e) matches Some(f) && loaded(
                blocks,
                cid,
                conf,
                Seq::empty(),
            ) == Err::<NodeModel, Failure>(f)),
        }
    }

    /// The trie that the store holds under `cid`. Only the root is read.
    pub fn load<S: Store>(store: &S, cid: &Cid, conf: Config) -> (r: Result<Self, Error>)
        requires
            conf.valid(),
        ensures
            Self::load_post(store.blocks(), cid@, conf, r),
    {
        let way: Vec<usize> = Vec::new();
        assert(way_of(way@) =~= Seq::<nat>::empty());
        match ops::load_node(store, cid, &conf, &way) {
            Ok(root) => {
                proof {
                    lemma_flat_node(root.model(), store.blocks(), conf, Seq::empty());
                }
                Ok(Trie { root, conf, flushed_cid: Some(cid.clone()) })
            },
            Err(e) => Err(e),
        }
    }

    /// Whether the root holds nothing.
    pub fn is_empty(&self) -> (r: bool)
        ensures
            r == node_is_empty(self.root_model()),
    {
        let ghost m = self.root.model();
        let mut i: usize = 0;
        while i < self.root.slots.len()
            invariant
                i <= self.root.slots@.len(),
                m == self.root.model(),
                forall|j: int| 0 <= j < i ==> #[trigger] m.slots[j] is None,
            decreases self.root.slots@.len() - i,
        {
            assert(m.slots[i as int] == slot_model(self.root.slots@[i as int]));
            if self.root.slots[i].is_some() {
                return false;
            }
            i += 1;
        }
        true
    }

    /// In a trie whose root holds nothing every lookup finds nothing.
    pub proof fn lemma_empty_lookups(&self, blocks: Blocks)
        requires
            self.inv(blocks),
            node_is_empty(self.root_model()),
        ensures
            forall|k: Seq<u8>|
                #[trigger] self.lookup(blocks, k) == Ok::<
                    Option<Seq<u8>>,
                    Failure,
                >(None),
    {
        assert forall|k: Seq<u8>| #[trigger] self.lookup(blocks, k) == Ok::<
            Option<Seq<u8>>,
            Failure,
        >(None) by {
            lookup::lemma_reaches_root(k, self.conf);
            lookup::lemma_depth_limit(self.conf);
            lookup::lemma_find_slot(self.root.model(), blocks, self.conf, Seq::empty(), k);
        }
    }

    /// Whether `keys` are as many as a bucket holds, all different, all
    /// other keys than `key` whose hashes select the same slots as that of
    /// `key` at every depth, and all keys that have a value in the trie.
    pub open spec fn jam(&self, keys: Seq<Seq<u8>>, blocks: Blocks, key: Seq<u8>) -> bool {
        &&& keys.len() == self.config().bucket_size
        &&& forall|i: int, j: int|
            0 <= i < keys.len() && 0 <= j < keys.len() && i != j ==> #[trigger] keys[i]
                != #[trigger] keys[j]
        &&& forall|i: int|
            0 <= i < keys.len() ==> (#[trigger] keys[i]) != key && key_route(
                keys[i],
                self.config().bit_width as nat,
            ) == key_route(key, self.config().bit_width as nat) && (self.lookup(blocks, keys[i])
                matches Ok(Some(_)))
    }

    /// Whether the trie has no room for `key`: it holds as many other keys
    /// as a bucket holds whose hashes no depth parts from that of `key`.
    pub open spec fn jammed(&self, blocks: Blocks, key: Seq<u8>) -> bool {
        exists|keys: Seq<Seq<u8>>| #[trigger] self.jam(keys, blocks, key)
    }

    /// A trie does not hold more keys than a bucket holds whose hashes no
    /// depth parts: of one more such keys than a bucket holds, one has no
    /// value in the trie.
    pub proof fn lemma_room_bounded(&self, blocks: Blocks, keys: Seq<Seq<u8>>)
        requires
            self.inv(blocks),
            keys.len() == self.config().bucket_size + 1,
            forall|i: int, j: int|
                0 <= i < keys.len() && 0 <= j < keys.len() && i != j ==> #[trigger] keys[i]
                    != #[trigger] keys[j],
            forall|i: int|
                0 <= i < keys.len() ==> key_route(
                    #[trigger] keys[i],
                    self.config().bit_width as nat,
                ) == key_route(keys[0], self.config().bit_width as nat),
        ensures
            exists|i: int|
                0 <= i < keys.len() && !(#[trigger] self.lookup(blocks, keys[i]) matches Ok(
                    Some(_),
                )),
    {
        assert forall|i: int| 0 <= i < keys.len() implies reaches(
            #[trigger] keys[i],
            self.conf,
            Seq::empty(),
        ) by {
            hash::lemma_all_hashed(keys[i]);
            lookup::lemma_reaches_root(keys[i], self.conf);
        }
        unique::lemma_room_bounded(self.root.model(), blocks, self.conf, Seq::empty(), keys);
        let i = choose|i: int|
            0 <= i < keys.len() && !(#[trigger] find(
                self.root.model(),
                blocks,
                self.conf,
                Seq::empty(),
                keys[i],
            ) matches Ok(Some(_)));
        assert(!(self.lookup(blocks, keys[i]) matches Ok(Some(_))));
    }

    /// What a lookup promises: the trie keeps its invariant, its
    /// configuration, its identifier and what every lookup finds; the
    /// result is what the lookup of the key finds, or the store's failure.
    pub open spec fn get_post(
        before: &Self,
        after: &Self,
        blocks: Blocks,
        key: Seq<u8>,
        r: Result<Option<Vec<u8>>, Error>,
    ) -> bool {
        &&& after.inv(blocks)
        &&& after.config() == before.config()
        &&& after.flushed() == before.flushed()
        &&& after.same_as(before, blocks)
        &&& before.canonical(blocks) ==> after.canonical(blocks)
        &&& match r {
            Ok(v) => before.lookup(blocks, key) == Ok::<Option<Seq<u8>>, Failure>(value_model(v)),
            Err(e) => !before.canonical(blocks) && (e is Store || (failure_of(e) matches Some(f)
                && before.lookup(blocks, key) == Err::<Option<Seq<u8>>, Failure>(f))),
        }
    }

    /// The value of `key`, if it has one. Nodes on the way that were only
    /// in the store are read and kept.
    pub fn get<S: Store>(&mut self, store: &S, key: &[u8]) -> (r: Result<Option<Vec<u8>>, Error>)
        requires
            old(self).inv(store.blocks()),
        ensures
            Self::get_post(old(self), final(self), store.blocks(), key@, r),
    {
        let hash = hash_key(key);
        let mut way: Vec<usize> = Vec::new();
        assert(way_of(way@) =~= Seq::<nat>::empty());
        proof {
            lookup::lemma_reaches_root(key@, self.conf);
        }
        let r = ops::lookup(&mut self.root, store, &self.conf, hash.as_slice(), key, &mut way);
        proof {
            assert forall|k: Seq<u8>| #[trigger] self.lookup(store.blocks(), k)
                == old(self).lookup(store.blocks(), k) by {
                lookup::lemma_reaches_root(k, self.conf);
            }
        }
        r
    }

    /// What an insertion promises. On success: the value that the key had,
    /// whether the pair was stored, and that lookups then find the value for
    /// the key and what they found for every other key. On failure: that
    /// every lookup finds what it found, and why the insertion failed.
    pub open spec fn put_post(
        before: &Self,
        after: &Self,
        blocks: Blocks,
        key: Seq<u8>,
        value: Seq<u8>,
        overwrite: bool,
        r: Result<(Option<Vec<u8>>, bool), Error>,
    ) -> bool {
        &&& after.inv(blocks)
        &&& after.config() == before.config()
        &&& before.canonical(blocks) ==> after.canonical(blocks)
        &&& match r {
            Ok((previous, stored)) => {
                &&& takes(key, value)
                &&& before.lookup(blocks, key) == Ok::<Option<Seq<u8>>, Failure>(
                    value_model(previous),
                )
                &&& stored == insertion_changes(value_model(previous), value, overwrite)
                &&& stored ==> after.differs_at(before, blocks, key, Some(value))
                    && after.flushed() is None
                &&& !stored ==> after.same_as(before, blocks) && after.flushed()
                    == before.flushed()
            },
            Err(e) => {
                &&& after.same_as(before, blocks)
                &&& after.flushed() == before.flushed()
                &&& match e {
                    Error::NotAnItem => !is_item(value),
                    Error::KeyTooLong => key.len() > MAX_KEY_LEN,
                    Error::MaxDepth => takes(key, value) && before.jammed(blocks, key) && (
                    before.lookup(blocks, key) == Ok::<Option<Seq<u8>>, Failure>(None)
                        || before.lookup(blocks, key) == Err::<Option<Seq<u8>>, Failure>(
                        Failure::MaxDepth,
                    )),
                    Error::Store(_) => takes(key, value) && !before.canonical(blocks),
                    _ => takes(key, value) && !before.canonical(blocks) && (failure_of(e) matches Some(
                        f,
                    ) && before.lookup(blocks, key) == Err::<Option<Seq<u8>>, Failure>(f)),
                }
            },
        }
    }

    /// Stores `value` under `key`; with `overwrite` off, only where the key
    /// has no value yet. Returns the value that the key had and whether the
    /// pair was stored.
    pub fn put<S: Store>(&mut self, store: &S, key: &[u8], value: &[u8], overwrite: bool) -> (r:
        Result<(Option<Vec<u8>>, bool), Error>)
        requires
            old(self).inv(store.blocks()),
        ensures
            Self::put_post(old(self), final(self), store.blocks(), key@, value@, overwrite, r),
    {
        if key.len() > MAX_KEY_LEN {
            return Err(Error::KeyTooLong);
        }
        if !value_is_item(value) {
            return Err(Error::NotAnItem);
        }
        let hash = hash_key(key);
        let mut way: Vec<usize> = Vec::new();
        assert(way_of(way@) =~= Seq::<nat>::empty());
        proof {
            lookup::lemma_reaches_root(key@, self.conf);
        }
        let r = ops::insert(
            &mut self.root,
            store,
            &self.conf,
            hash.as_slice(),
            key,
            value,
            &mut way,
            overwrite,
        );
        let stored = match &r {
            Ok((_, stored)) => *stored,
            Err(_) => false,
        };
        if stored {
            self.flushed_cid = None;
        }
        proof {
            let blocks = store.blocks();
            if r is Err && r->Err_0 is MaxDepth {
                let keys = choose|keys: Seq<Seq<u8>>| #[trigger]
                    canon::jam(keys, old(self).root.model(), blocks, self.conf, Seq::empty(), key@);
                assert(old(self).jam(keys, blocks, key@));
            }
            if stored {
                assert forall|k: Seq<u8>| #[trigger] self.lookup(blocks, k)
                    == if k == key@ {
                    Ok(Some(value@))
                } else {
                    old(self).lookup(blocks, k)
                } by {
                    lookup::lemma_reaches_root(k, self.conf);
                }
            } else {
                assert forall|k: Seq<u8>| #[trigger] self.lookup(blocks, k)
                    == old(self).lookup(blocks, k) by {
                    lookup::lemma_reaches_root(k, self.conf);
                }
            }
        }
        r
    }

    /// What a removal promises. On success: the value that the key had, and
    /// that lookups then find nothing for the key and what they found for
    /// every other key. On failure: that every lookup finds what it found.
    pub open spec fn remove_post(
        before: &Self,
        after: &Self,
        blocks: Blocks,
        key: Seq<u8>,
        r: Result<Option<Vec<u8>>, Error>,
    ) -> bool {
        &&& after.inv(blocks)
        &&& after.config() == before.config()
        &&& before.canonical(blocks) ==> after.canonical(blocks)
        &&& match r {
            Ok(Some(v)) => before.lookup(blocks, key) == Ok::<Option<Seq<u8>>, Failure>(
                Some(v@),
            ) && after.differs_at(before, blocks, key, None) && after.flushed() is None,
            Ok(None) => before.lookup(blocks, key) == Ok::<Option<Seq<u8>>, Failure>(None)
                && after.same_as(before, blocks) && after.flushed() == before.flushed(),
            Err(e) => after.same_as(before, blocks) && after.flushed() == before.flushed()
                && !before.canonical(blocks) && (e is Store || (failure_of(e) matches Some(f)
                && before.lookup(blocks, key) == Err::<Option<Seq<u8>>, Failure>(f))),
        }
    }

    /// Removes `key` and returns the value that it had.
    pub fn remove<S: Store>(&mut self, store: &S, key: &[u8]) -> (r: Result<Option<Vec<u8>>, Error>)
        requires
            old(self).inv(store.blocks()),
        ensures
            Self::remove_post(old(self), final(self), store.blocks(), key@, r),
    {
        let hash = hash_key(key);
        let mut way: Vec<usize> = Vec::new();
        assert(way_of(way@) =~= Seq::<nat>::empty());
        proof {
            lookup::lemma_reaches_root(key@, self.conf);
        }
        let r = ops::remove(&mut self.root, store, &self.conf, hash.as_slice(), key, &mut way);
        let removed = match &r {
            Ok(Some(_)) => true,
            _ => false,
        };
        if removed {
            self.flushed_cid = None;
        }
        proof {
            let blocks = store.blocks();
            if removed {
                assert forall|k: Seq<u8>| #[trigger] self.lookup(blocks, k)
                    == if k == key@ {
                    Ok(None)
                } else {
                    old(self).lookup(blocks, k)
                } by {
                    lookup::lemma_reaches_root(k, self.conf);
                }
            } else {
                assert forall|k: Seq<u8>| #[trigger] self.lookup(blocks, k)
                    == old(self).lookup(blocks, k) by {
                    lookup::lemma_reaches_root(k, self.conf);
                }
            }
        }
        r
    }

    /// The pairs of the trie in the order of a walk through it: slot by
    /// slot, the pairs of a bucket in the order of their keys, and the pairs
    /// of a child where the child stands.
    pub closed spec fn walk(&self, blocks: Blocks) -> Result<Seq<Pair>, Failure> {
        pairs_from(self.root.model(), blocks, self.conf, Seq::empty(), 0)
    }

    /// The pairs of a walk are the pairs that lookups find: each pair of
    /// the walk is found, and each pair that is found is in the walk.
    pub proof fn lemma_walk_is_lookup(&self, blocks: Blocks)
        requires
            self.inv(blocks),
            self.walk(blocks) is Ok,
        ensures
            forall|j: int|
                0 <= j < self.walk(blocks)->Ok_0.len() ==> self.lookup(
                    blocks,
                    (#[trigger] self.walk(blocks)->Ok_0[j]).0,
                ) == Ok::<Option<Seq<u8>>, Failure>(Some(self.walk(blocks)->Ok_0[j].1)),
            forall|k: Seq<u8>, v: Seq<u8>|
                self.lookup(blocks, k) == Ok::<Option<Seq<u8>>, Failure>(Some(v))
                    ==> #[trigger] holds_pair(self.walk(blocks)->Ok_0, k, v),
    {
        walk::lemma_walk_from(self.root.model(), blocks, self.conf, Seq::empty(), 0);
        assert forall|k: Seq<u8>, v: Seq<u8>|
            self.lookup(blocks, k) == Ok::<Option<Seq<u8>>, Failure>(
                Some(v),
            ) implies #[trigger] holds_pair(self.walk(blocks)->Ok_0, k, v) by {
            hash::lemma_all_hashed(k);
            lookup::lemma_reaches_root(k, self.conf);
        }
    }

    /// Copies of the pairs of the trie, in the order of a walk through it.
    /// Nodes that are only in the store are read for the walk and not kept.
    pub fn entries<S: Store>(&self, store: &S) -> (r: Result<Vec<KeyValue>, Error>)
        requires
            self.config().valid(),
        ensures
            match r {
                Ok(pairs) => self.walk(store.blocks()) == Ok::<Seq<Pair>, Failure>(
                    pairs_model(pairs@),
                ),
                Err(e) => e is Store || (failure_of(e) matches Some(f) && self.walk(
                    store.blocks(),
                ) == Err::<Seq<Pair>, Failure>(f)),
            },
            self.inv(store.blocks()) && self.canonical(store.blocks()) ==> r is Ok,
    {
        let mut way: Vec<usize> = Vec::new();
        assert(way_of(way@) =~= Seq::<nat>::empty());
        let mut out: Vec<KeyValue> = Vec::new();
        assert(pairs_model(out@) =~= Seq::<Pair>::empty());
        match walk::collect(&self.root, store, &self.conf, &mut way, &mut out) {
            Ok(()) => {
                assert(Seq::<Pair>::empty() + self.walk(store.blocks())->Ok_0 =~= self.walk(
                    store.blocks(),
                )->Ok_0);
                Ok(out)
            },
            Err(e) => Err(e),
        }
    }

    /// What writing the trie promises. The store only gains blocks, and
    /// gains none but the written forms of nodes of the trie; every lookup
    /// that succeeded finds what it found. On success the identifier
    /// returned is kept, and the store holds the written root under it;
    /// where the trie had not changed since it was last written, that
    /// identifier is returned again and the store is left alone.
    pub open spec fn flush_post(
        before: &Self,
        blocks_before: Blocks,
        after: &Self,
        blocks_after: Blocks,
        r: Result<Cid, Error>,
    ) -> bool {
        &&& after.inv(blocks_after)
        &&& after.config() == before.config()
        &&& blocks_before.submap_of(blocks_after)
        &&& after.keeps(blocks_after, before, blocks_before)
        &&& before.canonical(blocks_before) ==> after.canonical(blocks_after)
        &&& flush::wrote_only(
            blocks_before,
            blocks_after,
            after.root_model(),
            flush::own_cid(r),
        )
        &&& match r {
            Ok(cid) => {
                &&& after.flushed() == Some(cid@)
                &&& before.flushed() matches Some(kept) ==> cid@ == kept && blocks_after
                    == blocks_before && after.root_model() == before.root_model()
                &&& before.flushed() is None ==> cid@ == crate::store::block_cid_bytes(
                    crate::store::DAG_CBOR,
                    codec::node_encoding(after.root_model()),
                )
                &&& loaded(blocks_after, cid@, after.config(), Seq::empty()) == Ok::<
                    NodeModel,
                    Failure,
                >(flatten(after.root_model()))
                &&& node_clean(after.root_model())
            },
            Err(e) => e is Put && before.flushed() is None && after.flushed() is None,
        }
    }

    /// Writes the nodes that have changed since the trie was last written
    /// and returns the identifier of the root.
    pub fn flush<S: Store>(&mut self, store: &mut S) -> (r: Result<Cid, Error>)
        requires
            old(self).inv(old(store).blocks()),
        ensures
            Self::flush_post(old(self), old(store).blocks(), final(self), final(store).blocks(), r),
            old(self).flushed() is Some ==> *final(store) == *old(store),
    {
        proof {
            lemma_kept_grow(
                self.root.model(),
                store.blocks(),
                store.blocks(),
                self.conf,
                Seq::empty(),
            );
        }
        match &self.flushed_cid {
            Some(cid) => {
                return Ok(cid.clone());
            },
            None => {},
        }
        let mut way: Vec<usize> = Vec::new();
        assert(way_of(way@) =~= Seq::<nat>::empty());
        let r = flush::flush(&mut self.root, store, &self.conf, &mut way);
        let r = match r {
            Ok(cid) => {
                self.flushed_cid = Some(cid.clone());
                Ok(cid)
            },
            Err(e) => Err(e),
        };
        proof {
            assert forall|k: Seq<u8>|
                old(self).lookup(old(store).blocks(), k) is Ok implies #[trigger]
                self.lookup(store.blocks(), k) == old(self).lookup(old(store).blocks(), k) by {
                lookup::lemma_reaches_root(k, self.conf);
            }
        }
        r
    }
}

/// A persistent map from byte strings to CBOR items, over a block store.
///
/// The map is a trie over the SHA-256 hashes of its keys. Nodes that have
/// been written are read from the store when a lookup first comes to them and
/// are then kept in memory; `flush` writes the nodes that have changed.
pub struct Hamt<S> {
    trie: Trie,
    store: S,
}

impl<S: Store> Hamt<S> {
    /// The invariant of the map: that of its trie over its store.
    pub open spec fn inv(&self) -> bool {
        self.trie_model().inv(self.blocks())
    }

    /// The blocks of the store that the map is kept in.
    pub open spec fn blocks(&self) -> Blocks {
        self.store_model().blocks()
    }

    /// The store that the map is kept in.
    pub closed spec fn store_model(&self) -> S {
        self.store
    }

    /// The trie of the map.
    pub closed spec fn trie_model(&self) -> Trie {
        self.trie
    }

    /// The configuration of the map.
    pub open spec fn config(&self) -> Config {
        self.trie_model().config()
    }

    /// What a lookup of `key` finds: its value, nothing, or the failure that
    /// ends the lookup.
    pub open spec fn lookup(&self, key: Seq<u8>) -> Result<Option<Seq<u8>>, Failure> {
        self.trie_model().lookup(self.blocks(), key)
    }

    /// The identifier of the root as last written, where the map has not
    /// changed since.
    pub open spec fn flushed(&self) -> Option<Seq<u8>> {
        self.trie_model().flushed()
    }

    /// Every lookup finds in `self` what it finds in `other`.
    pub open spec fn same_as(&self, other: &Self) -> bool {
        forall|k: Seq<u8>| #[trigger] self.lookup(k) == other.lookup(k)
    }

    /// Every lookup finds in `self` what it finds in `other`, but for `key`,
    /// for which it finds `now`.
    pub open spec fn differs_at(&self, other: &Self, key: Seq<u8>, now: Option<Seq<u8>>) -> bool {
        &&& self.lookup(key) == Ok::<Option<Seq<u8>>, Failure>(now)
        &&& forall|k: Seq<u8>|
            #[trigger] self.lookup(k) == if k == key {
                Ok(now)
            } else {
                other.lookup(k)
            }
    }

    /// Whether the map is in canonical form, as a new map is and as every
    /// operation but loading keeps it.
    pub open spec fn canonical(&self) -> bool {
        self.trie_model().canonical(self.blocks())
    }

    /// Whether the map is a new one over `store`: in it every lookup finds
    /// nothing.
    pub open spec fn is_new(&self, store: S, conf: Config) -> bool {
        &&& self.inv()
        &&& self.store_model() == store
        &&& self.trie_model().is_new(store.blocks(), conf)
    }

    /// An empty map with the default configuration.
    pub fn new(store: S) -> (h: Self)
        ensures
            h.is_new(store, hash::default_config()),
    {
        Self::new_with_config(store, Config::default())
    }

    /// An empty map with the given configuration.
    pub fn new_with_config(store: S, conf: Config) -> (h: Self)
        requires
            conf.valid(),
        ensures
            h.is_new(store, conf),
    {
        let trie = Trie::new(conf);
        assert(trie.is_new(store.blocks(), conf));
        Hamt { trie, store }
    }

    /// An empty map with the given bit width and the default bucket size.
    pub fn new_with_bit_width(store: S, bit_width: u32) -> (h: Self)
        requires
            1 <= bit_width <= 8,
        ensures
            h.is_new(store, (Config { bit_width, bucket_size: hash::DEFAULT_BUCKET_SIZE })),
    {
        Self::new_with_config(store, Config { bit_width, bucket_size: hash::DEFAULT_BUCKET_SIZE })
    }

    /// What loading promises: on success a map over the given store in
    /// which every lookup finds what it finds in the stored trie; on failure
    /// why the stored root could not be had.
    pub open spec fn load_post(cid: Seq<u8>, store: S, conf: Config, r: Result<Self, Error>) -> bool {
        match r {
            Ok(h) => h.inv() && h.store_model() == store && Trie::load_post(
                store.blocks(),
                cid,
                conf,
                Ok::<Trie, Error>(h.trie_model()),
            ),
            Err(e) => Trie::load_post(store.blocks(), cid, conf, Err::<Trie, Error>(e)),
        }
    }

    /// The map that the store holds under `cid`, with the default
    /// configuration. Only the root is read.
    pub fn load(cid: &Cid, store: S) -> (r: Result<Self, Error>)
        ensures
            Self::load_post(cid@, store, hash::default_config(), r),
    {
        Self::load_with_config(cid, store, Config::default())
    }

    /// The map that the store holds under `cid`, with the given
    /// configuration. Only the root is read.
    pub fn load_with_config(cid: &Cid, store: S, conf: Config) -> (r: Result<Self, Error>)
        requires
            conf.valid(),
        ensures
            Self::load_post(cid@, store, conf, r),
    {
        match Trie::load(&store, cid, conf) {
            Ok(trie) => Ok(Hamt { trie, store }),
            Err(e) => Err(e),
        }
    }

    /// The map that the store holds under `cid`, with the given bit width
    /// and the default bucket size.
    pub fn load_with_bit_width(cid: &Cid, store: S, bit_width: u32) -> (r: Result<Self, Error>)
        requires
            1 <= bit_width <= 8,
        ensures
            Self::load_post(
                cid@,
                store,
                (Config { bit_width, bucket_size: hash::DEFAULT_BUCKET_SIZE }),
                r,
            ),
    {
        Self::load_with_config(
            cid,
            store,
            Config { bit_width, bucket_size: hash::DEFAULT_BUCKET_SIZE },
        )
    }

    /// Replaces the map by the one that the store holds under `cid`, with
    /// the same configuration. On failure the map stays as it is.
    pub fn set_root(&mut self, cid: &Cid) -> (r: Result<(), Error>)
        requires
            old(self).inv(),
        ensures
            final(self).inv(),
            final(self).store_model() == old(self).store_model(),
            match r {
                Ok(()) => Trie::load_post(
                    old(self).blocks(),
                    cid@,
                    old(self).config(),
                    Ok::<Trie, Error>(final(self).trie_model()),
                ),
                Err(e) => final(self).trie_model() == old(self).trie_model() && Trie::load_post(
                    old(self).blocks(),
                    cid@,
                    old(self).config(),
                    Err::<Trie, Error>(e),
                ),
            },
    {
        let conf = self.trie.conf;
        match Trie::load(&self.store, cid, conf) {
            Ok(trie) => {
                self.trie = trie;
                Ok(())
            },
            Err(e) => Err(e),
        }
    }

    /// The store that the map is kept in.
    pub fn store(&self) -> (s: &S)
        ensures
            *s == self.store_model(),
    {
        &self.store
    }

    /// Gives up the map for the store that it is kept in.
    pub fn into_store(self) -> (s: S)
        ensures
            s == self.store_model(),
    {
        self.store
    }

    /// Whether no lookup in the map finds anything.
    pub open spec fn holds_nothing(&self) -> bool {
        forall|k: Seq<u8>| #[trigger] self.lookup(k) == Ok::<Option<Seq<u8>>, Failure>(None)
    }

    /// Whether the root of the map holds nothing; lookups in such a map find
    /// nothing. A map in canonical form is empty exactly where no lookup
    /// finds anything.
    pub fn is_empty(&self) -> (r: bool)
        requires
            self.inv(),
        ensures
            r == node_is_empty(self.trie_model().root_model()),
            r ==> self.holds_nothing(),
            self.canonical() ==> (r <==> self.holds_nothing()),
    {
        proof {
            if node_is_empty(self.trie.root_model()) {
                self.trie.lemma_empty_lookups(self.store.blocks());
                assert forall|k: Seq<u8>| #[trigger] self.lookup(k) == Ok::<
                    Option<Seq<u8>>,
                    Failure,
                >(None) by {
                    hash::lemma_all_hashed(k);
                }
            }
            if self.canonical() && self.holds_nothing() {
                assert forall|k: Seq<u8>| #[trigger] self.trie.lookup(
                    self.store.blocks(),
                    k,
                ) == Ok::<Option<Seq<u8>>, Failure>(None) by {
                    assert(self.lookup(k) == Ok::<Option<Seq<u8>>, Failure>(None));
                }
                self.trie.lemma_nothing_found(self.store.blocks());
            }
        }
        self.trie.is_empty()
    }

    /// The value of `key`, if it has one. Nodes on the way that were only
    /// in the store are read and kept.
    pub fn get(&mut self, key: &[u8]) -> (r: Result<Option<Vec<u8>>, Error>)
        requires
            old(self).inv(),
        ensures
            final(self).inv(),
            final(self).store_model() == old(self).store_model(),
            final(self).same_as(old(self)),
            final(self).lookup(key@) == old(self).lookup(key@),
            r matches Ok(v) ==> old(self).lookup(key@) == Ok::<Option<Seq<u8>>, Failure>(
                value_model(v),
            ),
            Trie::get_post(
                &old(self).trie_model(),
                &final(self).trie_model(),
                old(self).blocks(),
                key@,
                r,
            ),
    {
        self.trie.get(&self.store, key)
    }

    /// Whether `key` has a value.
    pub fn contains_key(&mut self, key: &[u8]) -> (r: Result<bool, Error>)
        requires
            old(self).inv(),
        ensures
            final(self).inv(),
            final(self).store_model() == old(self).store_model(),
            final(self).config() == old(self).config(),
            final(self).flushed() == old(self).flushed(),
            final(self).same_as(old(self)),
            final(self).lookup(key@) == old(self).lookup(key@),
            old(self).canonical() ==> final(self).canonical(),
            match r {
                Ok(b) => old(self).lookup(key@) is Ok && b == (old(self).lookup(key@)->Ok_0
                    is Some),
                Err(e) => !old(self).canonical() && (e is Store || (failure_of(e) matches Some(f)
                    && old(self).lookup(key@) == Err::<Option<Seq<u8>>, Failure>(f))),
            },
    {
        match self.trie.get(&self.store, key) {
            Ok(v) => Ok(v.is_some()),
            Err(e) => Err(e),
        }
    }

    /// Stores `value` under `key` and returns the value that the key had.
    /// Afterwards a lookup of the key finds the value, and every other
    /// lookup finds what it found.
    pub fn set(&mut self, key: &[u8], value: &[u8]) -> (r: Result<Option<Vec<u8>>, Error>)
        requires
            old(self).inv(),
        ensures
            final(self).inv(),
            final(self).store_model() == old(self).store_model(),
            final(self).config() == old(self).config(),
            old(self).canonical() ==> final(self).canonical(),
            r is Err ==> final(self).same_as(old(self))
                && final(self).lookup(key@) == old(self).lookup(key@),
            match r {
                Ok(previous) => takes(key@, value@) && old(self).lookup(key@) == Ok::<
                    Option<Seq<u8>>,
                    Failure,
                >(value_model(previous)) && final(self).differs_at(
                    old(self),
                    key@,
                    Some(value@),
                ) && final(self).flushed() == if value_model(previous) == Some(value@) {
                    old(self).flushed()
                } else {
                    None
                },
                Err(e) => Trie::put_post(
                    &old(self).trie_model(),
                    &final(self).trie_model(),
                    old(self).blocks(),
                    key@,
                    value@,
                    true,
                    Err::<(Option<Vec<u8>>, bool), Error>(e),
                ),
            },
    {
        match self.trie.put(&self.store, key, value, true) {
            Ok((previous, stored)) => {
                proof {
                    if !stored {
                        assert forall|k: Seq<u8>| #[trigger] self.lookup(k)
                            == if k == key@ {
                            Ok(Some(value@))
                        } else {
                            old(self).lookup(k)
                        } by {}
                    }
                }
                Ok(previous)
            },
            Err(e) => Err(e),
        }
    }

    /// Stores `value` under `key` where the key has no value yet; returns
    /// whether it did so.
    pub fn set_if_absent(&mut self, key: &[u8], value: &[u8]) -> (r: Result<bool, Error>)
        requires
            old(self).inv(),
        ensures
            final(self).inv(),
            final(self).store_model() == old(self).store_model(),
            final(self).config() == old(self).config(),
            old(self).canonical() ==> final(self).canonical(),
            !(r matches Ok(true)) ==> final(self).same_as(old(self))
                && final(self).lookup(key@) == old(self).lookup(key@),
            match r {
                Ok(stored) => takes(key@, value@) && old(self).lookup(key@) is Ok && stored == (
                old(self).lookup(key@)->Ok_0 is None) && if stored {
                    final(self).differs_at(old(self), key@, Some(value@)) && final(self).flushed()
                        is None
                } else {
                    final(self).same_as(old(self)) && final(self).flushed() == old(self).flushed()
                },
                Err(e) => Trie::put_post(
                    &old(self).trie_model(),
                    &final(self).trie_model(),
                    old(self).blocks(),
                    key@,
                    value@,
                    false,
                    Err::<(Option<Vec<u8>>, bool), Error>(e),
                ),
            },
    {
        match self.trie.put(&self.store, key, value, false) {
            Ok((_, stored)) => Ok(stored),
            Err(e) => Err(e),
        }
    }

    /// Removes `key` and returns the pair that it had.
    pub fn delete(&mut self, key: &[u8]) -> (r: Result<Option<(Vec<u8>, Vec<u8>)>, Error>)
        requires
            old(self).inv(),
        ensures
            final(self).inv(),
            final(self).store_model() == old(self).store_model(),
            final(self).config() == old(self).config(),
            old(self).canonical() ==> final(self).canonical(),
            !(r matches Ok(Some(_))) ==> final(self).same_as(old(self))
                && final(self).lookup(key@) == old(self).lookup(key@),
            match r {
                Ok(Some((k, v))) => k@ == key@ && old(self).lookup(key@) == Ok::<
                    Option<Seq<u8>>,
                    Failure,
                >(Some(v@)) && final(self).differs_at(old(self), key@, None) && final(self).flushed() is None,
                Ok(None) => old(self).lookup(key@) == Ok::<Option<Seq<u8>>, Failure>(None)
                    && final(self).same_as(old(self)) && final(self).flushed() == old(self).flushed(),
                Err(e) => final(self).same_as(old(self)) && final(self).flushed()
                    == old(self).flushed() && !old(self).canonical() && (e is Store || (failure_of(
                    e,
                ) matches Some(f) && old(self).lookup(key@) == Err::<Option<Seq<u8>>, Failure>(
                    f,
                ))),
            },
    {
        match self.trie.remove(&self.store, key) {
            Ok(Some(v)) => Ok(Some((bytes_copy(key), v))),
            Ok(None) => Ok(None),
            Err(e) => Err(e),
        }
    }

    /// Copies of the pairs of the map, in the order of a walk through its
    /// trie. Each is a pair that a lookup finds, and each pair that a lookup
    /// finds is among them.
    pub fn entries(&self) -> (r: Result<Vec<KeyValue>, Error>)
        requires
            self.inv(),
        ensures
            match r {
                Ok(pairs) => {
                    &&& self.trie_model().walk(self.blocks()) == Ok::<Seq<Pair>, Failure>(
                        pairs_model(pairs@),
                    )
                    &&& forall|j: int|
                        0 <= j < pairs@.len() ==> self.lookup((#[trigger] pairs@[j]).key@) == Ok::<
                            Option<Seq<u8>>,
                            Failure,
                        >(Some(pairs@[j].value@))
                    &&& forall|k: Seq<u8>, v: Seq<u8>|
                        self.lookup(k) == Ok::<Option<Seq<u8>>, Failure>(Some(v))
                            ==> #[trigger] holds_pair(pairs_model(pairs@), k, v)
                },
                Err(e) => !self.canonical() && (e is Store || (failure_of(e) matches Some(f)
                    && self.trie_model().walk(self.blocks()) == Err::<Seq<Pair>, Failure>(f))),
            },
    {
        proof {
            self.trie.lemma_config_valid(self.store.blocks());
        }
        let r = self.trie.entries(&self.store);
        proof {
            if r is Ok {
                self.trie.lemma_walk_is_lookup(self.store.blocks());
                let pairs = r->Ok_0;
                assert forall|j: int| 0 <= j < pairs@.len() implies self.lookup(
                    (#[trigger] pairs@[j]).key@,
                ) == Ok::<Option<Seq<u8>>, Failure>(Some(pairs@[j].value@)) by {
                    assert(pairs_model(pairs@)[j] == pairs@[j]@);
                }
            }
        }
        r
    }

    /// Goes through the pairs of the map in the order of a walk through its
    /// trie and hands each to `f`, until `f` fails. On success `f` was
    /// content with every pair of the walk.
    pub fn for_each<F, E>(&self, f: F) -> (r: Result<(), Visit<E>>) where
        F: Fn(&Vec<u8>, &Vec<u8>) -> Result<(), E>,

        requires
            self.inv(),
            forall|k: Vec<u8>, v: Vec<u8>| #[trigger] call_requires(f, (&k, &v)),
        ensures
            match r {
                Ok(()) => exists|pairs: Seq<KeyValue>|
                    self.trie_model().walk(self.blocks()) == Ok::<Seq<Pair>, Failure>(
                        pairs_model(pairs),
                    ) && #[trigger] visited(f, pairs, pairs.len() as int),
                Err(Visit::Trie(e)) => !self.canonical() && (e is Store || (failure_of(e)
                    matches Some(failure) && self.trie_model().walk(self.blocks()) == Err::<
                    Seq<Pair>,
                    Failure,
                >(failure))),
                Err(Visit::Visitor(e)) => exists|pairs: Seq<KeyValue>, i: int|
                    self.trie_model().walk(self.blocks()) == Ok::<Seq<Pair>, Failure>(
                        pairs_model(pairs),
                    ) && 0 <= i < pairs.len() && #[trigger] visited(f, pairs, i) && call_ensures(
                        f,
                        (&pairs[i].key, &pairs[i].value),
                        Err::<(), E>(e),
                    ),
                Err(Visit::Malformed(_)) => false,
            },
    {
        let pairs = match self.entries() {
            Ok(pairs) => pairs,
            Err(e) => {
                return Err(Visit::Trie(e));
            },
        };
        let mut i: usize = 0;
        while i < pairs.len()
            invariant
                i <= pairs@.len(),
                self.trie_model().walk(self.blocks()) == Ok::<Seq<Pair>, Failure>(
                    pairs_model(pairs@),
                ),
                forall|k: Vec<u8>, v: Vec<u8>| #[trigger] call_requires(f, (&k, &v)),
                visited(f, pairs@, i as int),
            decreases pairs@.len() - i,
        {
            let kv = &pairs[i];
            let answer = f(&kv.key, &kv.value);
            let ghost answered = answer;
            assert(call_ensures(f, (&pairs@[i as int].key, &pairs@[i as int].value), answered));
            match answer {
                Ok(done) => {
                    assert(answered == Ok::<(), E>(()));
                },
                Err(e) => {
                    assert(visited(f, pairs@, i as int) && call_ensures(
                        f,
                        (&pairs@[i as int].key, &pairs@[i as int].value),
                        Err::<(), E>(e),
                    ));
                    return Err(Visit::Visitor(e));
                },
            }
            assert forall|j: int| 0 <= j < i + 1 implies call_ensures(
                f,
                (&(#[trigger] pairs@[j]).key, &pairs@[j].value),
                Ok::<(), E>(()),
            ) by {
                if j < i {
                    assert(visited(f, pairs@, i as int));
                }
            }
            i += 1;
        }
        assert(visited(f, pairs@, pairs@.len() as int));
        Ok(())
    }

    /// Writes the nodes that have changed since the map was last written and
    /// returns the identifier of the root. Where nothing has changed, the
    /// identifier kept from the last writing is returned and the store is
    /// left alone.
    pub fn flush(&mut self) -> (r: Result<Cid, Error>)
        requires
            old(self).inv(),
        ensures
            final(self).inv(),
            Trie::flush_post(
                &old(self).trie_model(),
                old(self).blocks(),
                &final(self).trie_model(),
                final(self).blocks(),
                r,
            ),
            old(self).flushed() is Some ==> final(self).store_model() == old(self).store_model(),
    {
        self.trie.flush(&mut self.store)
    }
}

} // verus!
