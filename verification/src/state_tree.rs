//! The state tree: the actors of the chain by their identifiers, kept in a
//! trie in the block store, with a cache in front of it and transactions
//! that can be reverted.

use crate::actor::{
    actor_decoding, actor_encoding, actor_ok, balance_fits, lemma_actor_round_trip, ActorState,
    ActorView,
};
use crate::address::{address_id, id_address, id_key, Address};
use crate::cbor::{head, MAJOR_ARRAY, MAJOR_UINT};
use crate::cid::{is_cid, Cid};
use crate::error::{read_only_error, ErrorNumber, ExecutionError, Fatal};
use crate::hamt::codec::{bare_link, write_link};
use crate::hamt::hash::hashed;
use crate::hamt::lookup::Blocks;
use crate::hamt::model::Failure;
use crate::hamt::roundtrip::lemma_head_at;
use crate::hamt::model::Pair;
use crate::hamt::tree::pairs_model;
use crate::hamt::{stored_lookup, Trie, Visit};
use crate::history_map::{
    extends, lemma_extends_insert, lemma_extends_self, lemma_rolled_back_holds, record_of,
    rolled_back, HistoryMap,
};
use crate::init_actor::{
    lemma_state_round_trip, resolves, state_decoding, state_encoding, tree_conf, tree_config,
    MapError, ResolveFailure, State as InitState, StateView as InitView, INIT_ACTOR_ID,
};
use crate::ipld::{
    array_at, lemma_link_at, lemma_uint_at, link_at, read_array, read_link, read_uint, uint_at,
};
use crate::store::{block_cid_bytes, put_block, PutError, Store, DAG_CBOR};
use crate::version::StateTreeVersion;
use vstd::prelude::*;

verus! {

/// An entry of the cache of actors.
#[derive(Debug)]
pub struct ActorCacheEntry {
    /// Whether the entry has yet to be written to the trie.
    pub dirty: bool,
    /// The record of the actor, or none where there is no such actor or it
    /// has been deleted.
    pub actor: Option<ActorState>,
}

/// The place in the histories of the caches at which a transaction began.
#[derive(Debug, Clone, Copy)]
pub struct StateSnapLayer {
    pub actor_cache_height: usize,
    pub resolve_cache_height: usize,
}

/// The state tree.
pub struct StateTree<S> {
    actors: Trie,
    store: S,
    version: StateTreeVersion,
    info: Option<Cid>,
    /// The cache of actors, with its undo history.
    actor_cache: HistoryMap<u64, ActorCacheEntry>,
    /// The cache of the identifiers of addresses, with its undo history.
    resolve_cache: HistoryMap<Address, u64>,
    /// The transactions that are open, the innermost last.
    layers: Vec<StateSnapLayer>,
    /// How many read-only transactions are open on top of them.
    read_only_layers: u32,
}

/// The record of an actor that may be absent, as plain values.
pub open spec fn actor_model(actor: Option<ActorState>) -> Option<ActorView> {
    match actor {
        Some(a) => Some(a@),
        None => None,
    }
}

/// Why the actor of an identifier could not be had from the trie.
pub enum ActorFailure {
    /// The trie failed.
    Trie(Failure),
    /// The trie holds under the identifier what is no record of an actor.
    Malformed,
}

/// The actor that a lookup in the trie stands for.
pub open spec fn decoded_actor(found: Result<Option<Seq<u8>>, Failure>) -> Result<
    Option<ActorView>,
    ActorFailure,
> {
    match found {
        Ok(Some(bytes)) => match actor_decoding(bytes) {
            Some(a) => Ok(Some(a)),
            None => Err(ActorFailure::Malformed),
        },
        Ok(None) => Ok(None),
        Err(f) => Err(ActorFailure::Trie(f)),
    }
}

/// Whether a pair is the record of an actor, as it is written, under the
/// address of its identifier.
pub open spec fn actor_pair(key: Seq<u8>, value: Seq<u8>) -> bool {
    exists|id: u64, a: ActorView| #[trigger]
        actor_written(key, value, id, a)
}

/// Whether a pair is the record `a`, as it is written, under the address of
/// the identifier `id`.
pub open spec fn actor_written(key: Seq<u8>, value: Seq<u8>, id: u64, a: ActorView) -> bool {
    key == id_address(id) && actor_ok(a) && balance_fits(a.balance) && value == actor_encoding(a)
}

/// Whether a trie is wholly in memory, in canonical form, and holds none
/// but records of actors under the addresses of their identifiers, as the
/// trie of a state tree that was made new does: no lookup in it asks the
/// store, and none finds what is no record.
pub open spec fn plain(trie: Trie, blocks: Blocks) -> bool {
    &&& trie.canonical(blocks)
    &&& forall|k: Seq<u8>, v: Seq<u8>|
        trie.lookup(blocks, k) == Ok::<Option<Seq<u8>>, Failure>(Some(v)) ==> #[trigger] actor_pair(
            k,
            v,
        )
}

/// A plain trie stays plain where every lookup finds what it found.
pub proof fn lemma_plain_kept(before: Trie, blocks_before: Blocks, after: Trie, blocks_after: Blocks)
    requires
        before.inv(blocks_before),
        plain(before, blocks_before),
        after.canonical(blocks_after),
        after.keeps(blocks_after, &before, blocks_before),
    ensures
        plain(after, blocks_after),
{
    before.lemma_canonical_lookup(blocks_before);
    assert forall|k: Seq<u8>, v: Seq<u8>|
        after.lookup(blocks_after, k) == Ok::<Option<Seq<u8>>, Failure>(
            Some(v),
        ) implies #[trigger] actor_pair(k, v) by {
        crate::hamt::hash::lemma_all_hashed(k);
        assert(before.lookup(blocks_before, k) is Ok);
        assert(after.lookup(blocks_after, k) == before.lookup(blocks_before, k));
    }
}

/// A plain trie stays plain where one key has changed, to nothing or to the
/// record of an actor under its address.
pub proof fn lemma_plain_changed(
    before: Trie,
    after: Trie,
    blocks: Blocks,
    key: Seq<u8>,
    now: Option<Seq<u8>>,
)
    requires
        plain(before, blocks),
        after.canonical(blocks),
        after.differs_at(&before, blocks, key, now),
        now matches Some(v) ==> actor_pair(key, v),
    ensures
        plain(after, blocks),
{
    assert forall|k: Seq<u8>, v: Seq<u8>|
        after.lookup(blocks, k) == Ok::<Option<Seq<u8>>, Failure>(
            Some(v),
        ) implies #[trigger] actor_pair(k, v) by {
        crate::hamt::hash::lemma_all_hashed(k);
        assert(after.lookup(blocks, k) == if k == key {
            Ok(now)
        } else {
            before.lookup(blocks, k)
        });
    }
}

/// A plain trie stays plain where every lookup finds the same.
pub proof fn lemma_plain_same(before: Trie, after: Trie, blocks: Blocks)
    requires
        plain(before, blocks),
        after.canonical(blocks),
        after.same_as(&before, blocks),
    ensures
        plain(after, blocks),
{
    assert forall|k: Seq<u8>, v: Seq<u8>|
        after.lookup(blocks, k) == Ok::<Option<Seq<u8>>, Failure>(
            Some(v),
        ) implies #[trigger] actor_pair(k, v) by {
        crate::hamt::hash::lemma_all_hashed(k);
        assert(after.lookup(blocks, k) == before.lookup(blocks, k));
    }
}

/// Every pair of a walk through a plain trie is the record of an actor
/// under an address.
pub proof fn lemma_plain_walk(trie: Trie, blocks: Blocks, i: int)
    requires
        trie.inv(blocks),
        plain(trie, blocks),
        trie.walk(blocks) is Ok,
        0 <= i < trie.walk(blocks)->Ok_0.len(),
    ensures
        crate::address::is_address(trie.walk(blocks)->Ok_0[i].0),
        actor_decoding(trie.walk(blocks)->Ok_0[i].1) is Some,
{
    trie.lemma_walk_is_lookup(blocks);
    let pair = trie.walk(blocks)->Ok_0[i];
    assert(trie.lookup(blocks, pair.0) == Ok::<Option<Seq<u8>>, Failure>(Some(pair.1)));
    assert(actor_pair(pair.0, pair.1));
    let (id, a) = choose|id: u64, a: ActorView| #[trigger] actor_written(pair.0, pair.1, id, a);
    lemma_actor_round_trip(a);
    crate::address::lemma_id_address(id);
}

/// A tree whose trie of actors is plain shows every actor or its absence:
/// no lookup fails.
pub proof fn lemma_plain_shown<S: Store>(t: StateTree<S>, id: u64)
    requires
        t.inv(),
        t.in_memory(),
    ensures
        t.actor(id) is Ok,
{
    lemma_plain_stored(t.trie(), t.blocks(), id);
}

/// In a plain trie the lookup of an actor succeeds.
pub proof fn lemma_plain_stored(trie: Trie, blocks: Blocks, id: u64)
    requires
        trie.inv(blocks),
        plain(trie, blocks),
    ensures
        stored_actor_in(trie, blocks, id) is Ok,
{
    trie.lemma_canonical_lookup(blocks);
    crate::hamt::hash::lemma_all_hashed(id_address(id));
    let found = trie.lookup(blocks, id_address(id));
    assert(found is Ok);
    if found matches Ok(Some(_)) {
        let v = found->Ok_0->Some_0;
        assert(actor_pair(id_address(id), v));
        let (i, a) = choose|i: u64, a: ActorView| #[trigger]
            actor_written(id_address(id), v, i, a);
        lemma_actor_round_trip(a);
    }
}

/// The actor with identifier `id` as a trie of actors holds it.
pub open spec fn stored_actor_in(trie: Trie, blocks: Blocks, id: u64) -> Result<
    Option<ActorView>,
    ActorFailure,
> {
    decoded_actor(trie.lookup(blocks, id_address(id)))
}

/// Whether an entry of the cache for `id`, if it is clean, says what the
/// trie holds for `id`.
pub open spec fn entry_agrees(trie: Trie, blocks: Blocks, id: u64, entry: ActorCacheEntry) -> bool {
    !entry.dirty ==> stored_actor_in(trie, blocks, id) == Ok::<Option<ActorView>, ActorFailure>(
        actor_model(entry.actor),
    )
}

/// The actor with identifier `id` as a tree with this cache and this trie
/// shows it: what the cache holds for it, or else what the trie holds.
pub open spec fn shown_actor(
    cache: Map<u64, ActorCacheEntry>,
    trie: Trie,
    blocks: Blocks,
    id: u64,
) -> Result<Option<ActorView>, ActorFailure> {
    if cache.contains_key(id) {
        Ok(actor_model(cache[id].actor))
    } else {
        stored_actor_in(trie, blocks, id)
    }
}

/// Whether every entry of a cache agrees with the trie.
pub open spec fn cache_agrees(trie: Trie, blocks: Blocks, cache: Map<u64, ActorCacheEntry>) -> bool {
    forall|id: u64| cache.contains_key(id) ==> #[trigger] entry_agrees(trie, blocks, id, cache[id])
}

/// Whether every entry recorded in a history at or above `floor` agrees
/// with the trie.
pub open spec fn history_agrees(
    trie: Trie,
    blocks: Blocks,
    history: Seq<(u64, Option<ActorCacheEntry>)>,
    floor: nat,
) -> bool {
    forall|i: int|
        floor <= i < history.len() ==> ((#[trigger] history[i]).1 matches Some(entry)
            ==> entry_agrees(trie, blocks, history[i].0, entry))
}

/// Whether the open transactions began at places that lie within the
/// histories, each no earlier than the one below it.
pub open spec fn layers_ordered(layers: Seq<StateSnapLayer>, actors: nat, addresses: nat) -> bool {
    &&& forall|i: int|
        0 <= i < layers.len() ==> (#[trigger] layers[i]).actor_cache_height <= actors
            && layers[i].resolve_cache_height <= addresses
    &&& forall|i: int, j: int|
        0 <= i <= j < layers.len() ==> (#[trigger] layers[i]).actor_cache_height <= (
        #[trigger] layers[j]).actor_cache_height && layers[i].resolve_cache_height
            <= layers[j].resolve_cache_height
}

/// The record of an empty state tree as it is written: an empty array.
pub open spec fn info_encoding() -> Seq<u8> {
    head(MAJOR_ARRAY, 0)
}

/// How the root of a state tree is written: the array of its version, the
/// link to the trie of actors and the link to the record of the tree.
pub open spec fn root_encoding(version: u64, actors: Seq<u8>, info: Seq<u8>) -> Seq<u8> {
    head(MAJOR_ARRAY, 3) + head(MAJOR_UINT, version) + bare_link(actors) + bare_link(info)
}

/// The version, the link to the trie of actors and the link to the record
/// of the tree that `bytes` are the writing of, where they are a root.
pub open spec fn root_decoding(bytes: Seq<u8>) -> Option<(u64, Seq<u8>, Seq<u8>)> {
    match array_at(bytes, 0, 3) {
        Some(p1) => match uint_at(bytes, p1) {
            Some((version, p2)) => match link_at(bytes, p2) {
                Some((actors, p3)) => match link_at(bytes, p3) {
                    Some((info, end)) => if end == bytes.len() {
                        Some((version, actors, info))
                    } else {
                        None
                    },
                    None => None,
                },
                None => None,
            },
            None => None,
        },
        None => None,
    }
}

/// A written root is read back as it was.
pub proof fn lemma_root_round_trip(version: u64, actors: Seq<u8>, info: Seq<u8>)
    requires
        is_cid(actors),
        is_cid(info),
    ensures
        root_decoding(root_encoding(version, actors, info)) == Some((version, actors, info)),
{
    let h = head(MAJOR_ARRAY, 3);
    let v = head(MAJOR_UINT, version);
    let a = bare_link(actors);
    let i = bare_link(info);
    let none = Seq::<u8>::empty();
    let bytes = root_encoding(version, actors, info);
    assert(bytes =~= none + h + (v + a + i));
    lemma_head_at(none, MAJOR_ARRAY, 3, v + a + i);
    assert(bytes =~= (none + h) + v + (a + i));
    lemma_uint_at(none + h, version, a + i);
    assert(bytes =~= (none + h + v) + a + i);
    lemma_link_at(none + h + v, actors, i);
    assert(bytes =~= (none + h + v + a) + i + none);
    lemma_link_at(none + h + v + a, info, none);
}

/// Why the root of a state tree could not be had from the store.
pub enum RootFailure {
    /// The store holds nothing under the identifier.
    NotFound,
    /// What the store holds under the identifier is no root.
    Malformed,
    /// The version of the tree is not supported.
    Unsupported(u64),
}

/// The links to the trie of actors and to the record of the tree of the
/// root that the store holds under `cid`.
pub open spec fn stored_root(blocks: Blocks, cid: Seq<u8>) -> Result<(Seq<u8>, Seq<u8>), RootFailure> {
    if !blocks.contains_key(cid) {
        Err(RootFailure::NotFound)
    } else {
        match root_decoding(blocks[cid]) {
            Some((version, actors, info)) => if version == 5 {
                Ok((actors, info))
            } else {
                Err(RootFailure::Unsupported(version))
            },
            None => Err(RootFailure::Malformed),
        }
    }
}

/// The actor with identifier `id` in the state tree that the store holds
/// under `root`.
pub open spec fn root_actor(blocks: Blocks, root: Seq<u8>, id: u64) -> Result<
    Option<ActorView>,
    ActorFailure,
> {
    decoded_actor(stored_lookup(blocks, stored_root(blocks, root)->Ok_0.0, tree_config(), id_address(id)))
}

fn write_root(version: u64, actors: &Cid, info: &Cid) -> (bytes: Vec<u8>)
    ensures
        bytes@ == root_encoding(version, actors@, info@),
{
    let mut out: Vec<u8> = Vec::new();
    crate::cbor::write_head(&mut out, MAJOR_ARRAY, 3);
    crate::cbor::write_head(&mut out, MAJOR_UINT, version);
    write_link(&mut out, actors);
    write_link(&mut out, info);
    assert(out@ =~= root_encoding(version, actors@, info@));
    out
}

fn read_root(bytes: &[u8]) -> (r: Option<(u64, Cid, Cid)>)
    ensures
        match root_decoding(bytes@) {
            Some((version, actors, info)) => r matches Some((v, a, i)) && v == version && a@
                == actors && i@ == info,
            None => r is None,
        },
{
    let p1 = match read_array(bytes, 0, 3) {
        Some(p) => p,
        None => {
            return None;
        },
    };
    let (version, p2) = match read_uint(bytes, p1) {
        Some(r) => r,
        None => {
            return None;
        },
    };
    let (actors, p3) = match read_link(bytes, p2) {
        Some(r) => r,
        None => {
            return None;
        },
    };
    let (info, end) = match read_link(bytes, p3) {
        Some(r) => r,
        None => {
            return None;
        },
    };
    if end != bytes.len() {
        return None;
    }
    Some((version, actors, info))
}

impl<S: Store> StateTree<S> {
    /// The trie of actors.
    pub closed spec fn trie(&self) -> Trie {
        self.actors
    }

    /// The store.
    pub closed spec fn store_model(&self) -> S {
        self.store
    }

    /// The blocks that the store holds.
    pub open spec fn blocks(&self) -> Blocks {
        self.store_model().blocks()
    }

    /// The entries of the cache of actors.
    pub closed spec fn cache(&self) -> Map<u64, ActorCacheEntry> {
        self.actor_cache.contents()
    }

    /// The undo history of the cache of actors.
    pub closed spec fn cache_history(&self) -> Seq<(u64, Option<ActorCacheEntry>)> {
        self.actor_cache.history()
    }

    /// The identifiers of addresses that are cached.
    pub closed spec fn resolved(&self) -> Map<Seq<u8>, u64> {
        self.resolve_cache.contents()
    }

    /// The undo history of the cache of addresses.
    pub closed spec fn resolved_history(&self) -> Seq<(Seq<u8>, Option<u64>)> {
        self.resolve_cache.history()
    }

    /// The transactions that are open and can be reverted, innermost last.
    pub closed spec fn snapshots(&self) -> Seq<StateSnapLayer> {
        self.layers@
    }

    /// How many read-only transactions are open.
    pub closed spec fn read_only_count(&self) -> nat {
        self.read_only_layers as nat
    }

    /// The link to the record of the tree.
    pub closed spec fn info_model(&self) -> Option<Seq<u8>> {
        match self.info {
            Some(cid) => Some(cid@),
            None => None,
        }
    }

    /// The parts of the invariant that the accessors do not show.
    pub closed spec fn inner_inv(&self) -> bool {
        &&& self.version == StateTreeVersion::V5
        &&& self.info is Some
        &&& self.actor_cache.inv()
        &&& self.resolve_cache.inv()
    }

    /// The actor with identifier `id` as the trie holds it.
    #[verifier::inline]
    pub open spec fn stored_actor(&self, id: u64) -> Result<Option<ActorView>, ActorFailure> {
        stored_actor_in(self.trie(), self.blocks(), id)
    }

    /// The actor with identifier `id` as the tree shows it: what the cache
    /// holds for it, or else what the trie holds.
    #[verifier::inline]
    pub open spec fn actor(&self, id: u64) -> Result<Option<ActorView>, ActorFailure> {
        shown_actor(self.cache(), self.trie(), self.blocks(), id)
    }

    /// Whether the trie of actors is plain, as that of a tree is that was
    /// made new, whatever was done with it since: then no lookup of an actor
    /// asks the store, and none fails.
    pub open spec fn in_memory(&self) -> bool {
        plain(self.trie(), self.blocks())
    }

    /// Whether changes are refused.
    pub open spec fn read_only(&self) -> bool {
        self.read_only_count() > 0
    }

    /// Whether a transaction is open.
    pub open spec fn within_transaction(&self) -> bool {
        !(self.read_only_count() == 0 && self.snapshots().len() == 0)
    }

    /// The length of the history of the cache of actors below which no
    /// transaction that is open can roll back.
    pub open spec fn floor(&self) -> nat {
        if self.snapshots().len() > 0 {
            self.snapshots()[0].actor_cache_height as nat
        } else {
            self.cache_history().len()
        }
    }

    /// The invariant of the tree: the trie is well formed over the store;
    /// the open transactions began at places in the histories that lie
    /// within them and in order; and every clean entry of the cache, and
    /// every clean entry that a transaction could bring back, says what the
    /// trie holds.
    pub open spec fn inv(&self) -> bool {
        &&& self.inner_inv()
        &&& self.trie().inv(self.blocks())
        &&& self.trie().config() == tree_config()
        &&& layers_ordered(
            self.snapshots(),
            self.cache_history().len(),
            self.resolved_history().len(),
        )
        &&& cache_agrees(self.trie(), self.blocks(), self.cache())
        &&& history_agrees(self.trie(), self.blocks(), self.cache_history(), self.floor())
    }

    /// Whether the tree is a new one: idle, with nothing cached, recorded or
    /// resolved.
    pub open spec fn fresh(&self) -> bool {
        &&& self.inv()
        &&& self.cache() == Map::<u64, ActorCacheEntry>::empty()
        &&& self.cache_history().len() == 0
        &&& self.resolved() == Map::<Seq<u8>, u64>::empty()
        &&& self.resolved_history().len() == 0
        &&& self.snapshots().len() == 0
        &&& self.read_only_count() == 0
    }

    /// What making a new tree promises. It succeeds where the version is
    /// supported and the record of an empty tree can be written; the tree
    /// is then new, over the store with that record, and shows no actor.
    pub open spec fn new_post(store: S, version: StateTreeVersion, r: Result<Self, ExecutionError>)
        -> bool {
        match r {
            Ok(t) => {
                &&& version.supported()
                &&& t.fresh()
                &&& t.in_memory()
                &&& t.info_model() == Some(block_cid_bytes(DAG_CBOR, info_encoding()))
                &&& t.blocks() == store.blocks().insert(t.info_model()->Some_0, info_encoding())
                &&& store.blocks().submap_of(t.blocks())
                &&& forall|id: u64| #[trigger]
                    t.actor(id) == Ok::<Option<ActorView>, ActorFailure>(None)
            },
            Err(ExecutionError::Fatal(Fatal::UnsupportedVersion(n))) => !version.supported() && n
                == version.number(),
            Err(ExecutionError::Fatal(Fatal::PutStateInfo(e))) => version.supported(),
            Err(_) => false,
        }
    }

    /// A new, empty state tree over `store`. Only the latest version is
    /// supported.
    pub fn new(store: S, version: StateTreeVersion) -> (r: Result<Self, ExecutionError>)
        ensures
            Self::new_post(store, version, r),
    {
        if !version.is_supported() {
            return Err(ExecutionError::Fatal(Fatal::UnsupportedVersion(version.to_u64())));
        }
        let mut store = store;
        let mut record: Vec<u8> = Vec::new();
        crate::cbor::write_head(&mut record, MAJOR_ARRAY, 0);
        assert(record@ =~= info_encoding());
        let info = match put_block(&mut store, DAG_CBOR, record.as_slice()) {
            Ok(cid) => cid,
            Err(e) => {
                return Err(ExecutionError::Fatal(Fatal::PutStateInfo(e)));
            },
        };
        let actors = Trie::new(tree_conf());
        assert(actors.is_new(store.blocks(), tree_config()));
        let tree = StateTree {
            actors,
            store,
            version,
            info: Some(info),
            actor_cache: HistoryMap::new(),
            resolve_cache: HistoryMap::new(),
            layers: Vec::new(),
            read_only_layers: 0,
        };
        proof {
            assert forall|id: u64| #[trigger]
                tree.actor(id) == Ok::<Option<ActorView>, ActorFailure>(None) by {
                crate::address::lemma_id_address(id);
                tree.lemma_id_hashed(id);
            }
        }
        Ok(tree)
    }

    /// The histories of the caches are no longer than a machine can count.
    pub proof fn lemma_histories_bounded(&self)
        ensures
            self.cache_history().len() <= usize::MAX,
            self.resolved_history().len() <= usize::MAX,
    {
        self.actor_cache.lemma_history_bounded();
        self.resolve_cache.lemma_history_bounded();
    }

    /// The key of every identifier is one that the trie can look up.
    pub proof fn lemma_id_hashed(&self, id: u64)
        ensures
            hashed(id_address(id)),
    {
        crate::hamt::hash::lemma_all_hashed(id_address(id));
    }
}

impl<S: Store> StateTree<S> {
    /// What loading a tree promises. It succeeds where the store holds a
    /// root of the supported version under the identifier and the root of
    /// the trie of actors that it links to can be read; the tree is then
    /// new, over the store as it is, and shows the actors of the stored
    /// tree. Otherwise the failure says what was wrong.
    pub open spec fn load_post(store: S, cid: Seq<u8>, r: Result<Self, ExecutionError>) -> bool {
        match r {
            Ok(t) => {
                &&& t.fresh()
                &&& t.store_model() == store
                &&& stored_root(store.blocks(), cid) is Ok
                &&& t.info_model() == Some(stored_root(store.blocks(), cid)->Ok_0.1)
                &&& t.trie().flushed() == Some(stored_root(store.blocks(), cid)->Ok_0.0)
                &&& Trie::load_post(
                    store.blocks(),
                    stored_root(store.blocks(), cid)->Ok_0.0,
                    tree_config(),
                    Ok::<Trie, crate::hamt::ops::Error>(t.trie()),
                )
                &&& forall|id: u64| #[trigger] t.actor(id) == root_actor(store.blocks(), cid, id)
            },
            Err(ExecutionError::Fatal(Fatal::RootNotFound(c))) => c@ == cid && stored_root(
                store.blocks(),
                cid,
            ) == Err::<(Seq<u8>, Seq<u8>), RootFailure>(RootFailure::NotFound),
            Err(ExecutionError::Fatal(Fatal::RootLoad(c))) => c@ == cid && stored_root(
                store.blocks(),
                cid,
            ) == Err::<(Seq<u8>, Seq<u8>), RootFailure>(RootFailure::Malformed),
            Err(ExecutionError::Fatal(Fatal::UnsupportedVersion(n))) => stored_root(
                store.blocks(),
                cid,
            ) == Err::<(Seq<u8>, Seq<u8>), RootFailure>(RootFailure::Unsupported(n)),
            Err(ExecutionError::Fatal(Fatal::Store(_))) => true,
            Err(ExecutionError::Fatal(Fatal::LoadTree(e))) => stored_root(store.blocks(), cid)
                is Ok && Trie::load_post(
                store.blocks(),
                stored_root(store.blocks(), cid)->Ok_0.0,
                tree_config(),
                Err::<Trie, crate::hamt::ops::Error>(e),
            ),
            Err(_) => false,
        }
    }

    /// The state tree that the store holds under `cid`.
    pub fn new_from_root(store: S, cid: &Cid) -> (r: Result<Self, ExecutionError>)
        ensures
            Self::load_post(store, cid@, r),
    {
        let block = match store.get(cid) {
            Ok(Some(block)) => block,
            Ok(None) => {
                return Err(ExecutionError::Fatal(Fatal::RootNotFound(cid.clone())));
            },
            Err(e) => {
                return Err(ExecutionError::Fatal(Fatal::Store(e)));
            },
        };
        let (version, actors_cid, info) = match read_root(block.as_slice()) {
            Some(root) => root,
            None => {
                return Err(ExecutionError::Fatal(Fatal::RootLoad(cid.clone())));
            },
        };
        if version != 5 {
            return Err(ExecutionError::Fatal(Fatal::UnsupportedVersion(version)));
        }
        let actors = match Trie::load(&store, &actors_cid, tree_conf()) {
            Ok(actors) => actors,
            Err(e) => {
                return Err(ExecutionError::Fatal(Fatal::LoadTree(e)));
            },
        };
        let tree = StateTree {
            actors,
            store,
            version: StateTreeVersion::V5,
            info: Some(info),
            actor_cache: HistoryMap::new(),
            resolve_cache: HistoryMap::new(),
            layers: Vec::new(),
            read_only_layers: 0,
        };
        proof {
            assert forall|id: u64| #[trigger]
                tree.actor(id) == root_actor(store.blocks(), cid@, id) by {
                tree.lemma_id_hashed(id);
            }
        }
        Ok(tree)
    }

    /// The store.
    pub fn store(&self) -> (s: &S)
        ensures
            *s == self.store_model(),
    {
        &self.store
    }

    /// Gives up the tree for its store.
    pub fn into_store(self) -> (s: S)
        ensures
            s == self.store_model(),
    {
        self.store
    }

    /// Whether changes are refused: a read-only transaction is open.
    pub fn is_read_only(&self) -> (r: bool)
        ensures
            r == self.read_only(),
    {
        self.read_only_layers > 0
    }

    /// Whether a transaction is open.
    pub fn in_transaction(&self) -> (r: bool)
        ensures
            r == self.within_transaction(),
    {
        !(self.read_only_layers == 0 && self.layers.len() == 0)
    }

    /// Fails with `ReadOnly`, a failure that the caller can recover from,
    /// where changes are refused.
    fn assert_writable(&self) -> (r: Result<(), ExecutionError>)
        ensures
            match r {
                Ok(()) => !self.read_only(),
                Err(e) => self.read_only() && (e matches ExecutionError::Syscall(s) && s.number
                    == ErrorNumber::ReadOnly),
            },
    {
        if self.is_read_only() {
            Err(read_only_error())
        } else {
            Ok(())
        }
    }

    /// Whether `after` holds what `before` holds but for the transactions
    /// that are open and the histories of the caches.
    pub open spec fn same_state(before: &Self, after: &Self) -> bool {
        &&& after.trie() == before.trie()
        &&& after.store_model() == before.store_model()
        &&& after.info_model() == before.info_model()
        &&& after.cache() == before.cache()
        &&& after.resolved() == before.resolved()
    }

    /// What beginning a transaction promises. Nothing that the tree holds
    /// changes. A read-only transaction, and any transaction begun while
    /// the tree is read-only, is counted; any other is put on top of the
    /// open transactions with the lengths of the two histories.
    pub open spec fn begin_post(before: &Self, after: &Self, read_only: bool) -> bool {
        &&& after.inv()
        &&& Self::same_state(before, after)
        &&& after.cache_history() == before.cache_history()
        &&& after.resolved_history() == before.resolved_history()
        &&& if read_only || before.read_only() {
            after.read_only_count() == before.read_only_count() + 1 && after.snapshots()
                == before.snapshots()
        } else {
            after.read_only_count() == 0 && after.snapshots() == before.snapshots().push(
                (StateSnapLayer {
                    actor_cache_height: before.cache_history().len() as usize,
                    resolve_cache_height: before.resolved_history().len() as usize,
                }),
            )
        }
    }

    /// Begins a transaction. Transactions nest.
    pub fn begin_transaction(&mut self, read_only: bool)
        requires
            old(self).inv(),
            old(self).read_only_count() < u32::MAX,
        ensures
            Self::begin_post(old(self), final(self), read_only),
    {
        if read_only || self.is_read_only() {
            self.read_only_layers += 1;
        } else {
            let layer = StateSnapLayer {
                actor_cache_height: self.actor_cache.history_len(),
                resolve_cache_height: self.resolve_cache.history_len(),
            };
            let ghost before = self.layers@;
            self.layers.push(layer);
            proof {
                let after = self.layers@;
                assert forall|i: int| 0 <= i < before.len() implies after[i] == before[i] by {}
                if before.len() > 0 {
                    assert(after[0] == before[0]);
                }
            }
        }
    }

    /// What ending a transaction promises. It fails, and changes nothing,
    /// where no transaction is open. A read-only transaction is counted
    /// off. Any other is taken off the open transactions, and where it is
    /// reverted both caches are rolled back to where it began. Once no
    /// transaction is open any more, both histories are empty. The trie and
    /// the store stay as they are.
    pub open spec fn end_post(
        before: &Self,
        after: &Self,
        revert: bool,
        r: Result<(), ExecutionError>,
    ) -> bool {
        match r {
            Ok(()) => {
                &&& before.within_transaction()
                &&& after.inv()
                &&& after.trie() == before.trie()
                &&& after.store_model() == before.store_model()
                &&& after.info_model() == before.info_model()
                &&& if before.read_only() {
                    &&& after.read_only_count() == before.read_only_count() - 1
                    &&& after.snapshots() == before.snapshots()
                    &&& after.cache() == before.cache()
                    &&& after.resolved() == before.resolved()
                    &&& after.within_transaction() ==> after.cache_history()
                        == before.cache_history() && after.resolved_history()
                        == before.resolved_history()
                } else {
                    let layer = before.snapshots().last();
                    &&& after.read_only_count() == 0
                    &&& after.snapshots() == before.snapshots().drop_last()
                    &&& after.cache() == if revert {
                        rolled_back(
                            before.cache(),
                            before.cache_history(),
                            layer.actor_cache_height as nat,
                        )
                    } else {
                        before.cache()
                    }
                    &&& after.resolved() == if revert {
                        rolled_back(
                            before.resolved(),
                            before.resolved_history(),
                            layer.resolve_cache_height as nat,
                        )
                    } else {
                        before.resolved()
                    }
                    &&& after.within_transaction() ==> after.cache_history() == if revert {
                        before.cache_history().take(layer.actor_cache_height as int)
                    } else {
                        before.cache_history()
                    } && after.resolved_history() == if revert {
                        before.resolved_history().take(layer.resolve_cache_height as int)
                    } else {
                        before.resolved_history()
                    }
                }
                &&& !after.within_transaction() ==> after.cache_history().len() == 0
                    && after.resolved_history().len() == 0
            },
            Err(e) => !before.within_transaction() && *after == *before && e matches ExecutionError::Fatal(
                Fatal::NoTransaction,
            ),
        }
    }

    /// Ends the innermost transaction and reverts what was done in it where
    /// `revert` is set.
    pub fn end_transaction(&mut self, revert: bool) -> (r: Result<(), ExecutionError>)
        requires
            old(self).inv(),
        ensures
            Self::end_post(old(self), final(self), revert, r),
    {
        if self.is_read_only() {
            self.read_only_layers -= 1;
        } else {
            if self.layers.len() == 0 {
                return Err(ExecutionError::Fatal(Fatal::NoTransaction));
            }
            let ghost before = self.layers@;
            let layer = self.layers.pop().unwrap();
            proof {
                assert(layer == before[before.len() - 1]);
                assert(self.layers@ =~= before.drop_last());
                assert(before[0].actor_cache_height <= layer.actor_cache_height);
                assert forall|i: int| 0 <= i < self.layers@.len() implies self.layers@[i]
                    == before[i] && (#[trigger] self.layers@[i]).actor_cache_height
                    <= layer.actor_cache_height && self.layers@[i].resolve_cache_height
                    <= layer.resolve_cache_height by {
                    assert(self.layers@[i] == before[i]);
                }
            }
            if revert {
                proof {
                    lemma_rollback_agrees(
                        self.actors,
                        self.store.blocks(),
                        self.actor_cache.contents(),
                        self.actor_cache.history(),
                        layer.actor_cache_height as nat,
                    );
                }
                self.actor_cache.rollback(layer.actor_cache_height);
                self.resolve_cache.rollback(layer.resolve_cache_height);
                proof {
                    assert forall|i: int|
                        self.floor() <= i < self.cache_history().len() implies ((
                    #[trigger] self.cache_history()[i]).1 matches Some(entry) ==> entry_agrees(
                        self.actors,
                        self.store.blocks(),
                        self.cache_history()[i].0,
                        entry,
                    )) by {
                        assert(self.cache_history()[i] == old(self).cache_history()[i]);
                    }
                }
            }
        }
        if !self.in_transaction() {
            self.actor_cache.discard_history();
            self.resolve_cache.discard_history();
        }
        Ok(())
    }
}

/// Rolling the cache of actors back to a height at or above which every
/// recorded entry agrees with the trie leaves only entries that agree with
/// it.
proof fn lemma_rollback_agrees(
    trie: Trie,
    blocks: Blocks,
    cache: Map<u64, ActorCacheEntry>,
    history: Seq<(u64, Option<ActorCacheEntry>)>,
    height: nat,
)
    requires
        cache_agrees(trie, blocks, cache),
        history_agrees(trie, blocks, history, height),
    ensures
        cache_agrees(trie, blocks, rolled_back(cache, history, height)),
{
    let holds = |id: u64, entry: ActorCacheEntry| entry_agrees(trie, blocks, id, entry);
    assert forall|id: u64| cache.contains_key(id) implies #[trigger] holds(id, cache[id]) by {
        assert(entry_agrees(trie, blocks, id, cache[id]));
    }
    assert forall|i: int| height <= i < history.len() implies ((
    #[trigger] history[i]).1 matches Some(v) ==> holds(history[i].0, v)) by {}
    lemma_rolled_back_holds(cache, history, height, holds);
    let rolled = rolled_back(cache, history, height);
    assert forall|id: u64| rolled.contains_key(id) implies #[trigger] entry_agrees(
        trie,
        blocks,
        id,
        rolled[id],
    ) by {
        assert(holds(id, rolled[id]));
    }
}

/// What agreed with a trie agrees with a trie that keeps its lookups.
proof fn lemma_agrees_kept(
    before: Trie,
    blocks_before: Blocks,
    after: Trie,
    blocks_after: Blocks,
    cache: Map<u64, ActorCacheEntry>,
    history: Seq<(u64, Option<ActorCacheEntry>)>,
    floor: nat,
)
    requires
        after.keeps(blocks_after, &before, blocks_before),
        cache_agrees(before, blocks_before, cache),
        history_agrees(before, blocks_before, history, floor),
    ensures
        cache_agrees(after, blocks_after, cache),
        history_agrees(after, blocks_after, history, floor),
        forall|id: u64|
            stored_actor_in(before, blocks_before, id) is Ok ==> #[trigger] stored_actor_in(
                after,
                blocks_after,
                id,
            ) == stored_actor_in(before, blocks_before, id),
{
    assert forall|id: u64| stored_actor_in(before, blocks_before, id) is Ok implies #[trigger]
        stored_actor_in(after, blocks_after, id) == stored_actor_in(before, blocks_before, id) by {
        crate::hamt::hash::lemma_all_hashed(id_address(id));
        assert(before.lookup(blocks_before, id_address(id)) is Ok);
    }
    assert forall|id: u64| cache.contains_key(id) implies #[trigger] entry_agrees(
        after,
        blocks_after,
        id,
        cache[id],
    ) by {
        assert(entry_agrees(before, blocks_before, id, cache[id]));
    }
    assert forall|i: int| floor <= i < history.len() implies ((
    #[trigger] history[i]).1 matches Some(entry) ==> entry_agrees(
        after,
        blocks_after,
        history[i].0,
        entry,
    )) by {
        if history[i].1 is Some {
            assert(entry_agrees(before, blocks_before, history[i].0, history[i].1->Some_0));
        }
    }
}

/// A copy of a record that may be absent.
fn copy_actor(actor: &Option<ActorState>) -> (copy: Option<ActorState>)
    ensures
        actor_model(copy) == actor_model(*actor),
{
    match actor {
        Some(a) => Some(a.clone()),
        None => None,
    }
}

impl<S: Store> StateTree<S> {
    /// Whether `after` has come from `before` without a transaction having
    /// begun or ended: the same transactions are open, the store has only
    /// gained blocks, the trie holds what it held, and the caches have
    /// changed by what their histories record.
    pub open spec fn continues(after: &Self, before: &Self) -> bool {
        &&& before.in_memory() ==> after.in_memory()
        &&& after.snapshots() == before.snapshots()
        &&& after.read_only_count() == before.read_only_count()
        &&& after.info_model() == before.info_model()
        &&& before.blocks().submap_of(after.blocks())
        &&& extends(after.cache(), after.cache_history(), before.cache(), before.cache_history())
        &&& extends(
            after.resolved(),
            after.resolved_history(),
            before.resolved(),
            before.resolved_history(),
        )
        &&& forall|id: u64|
            before.stored_actor(id) is Ok ==> #[trigger] after.stored_actor(id)
                == before.stored_actor(id)
    }

    /// Whether the two trees show the same actors.
    pub open spec fn same_actors(after: &Self, before: &Self) -> bool {
        forall|id: u64| #[trigger] after.actor(id) == before.actor(id)
    }

    /// What a lookup of an actor that the cache had no entry for leaves in
    /// the cache: on success an entry for the actor that says what was
    /// found and that it needs no writing, and on failure what there was.
    pub open spec fn cached_clean(
        before: &Self,
        after: &Self,
        id: u64,
        r: Result<Option<ActorState>, ExecutionError>,
    ) -> bool {
        match r {
            Ok(a) => {
                &&& after.cache().dom() == before.cache().dom().insert(id)
                &&& !after.cache()[id].dirty
                &&& actor_model(after.cache()[id].actor) == actor_model(a)
                &&& forall|j: u64|
                    before.cache().contains_key(j) ==> #[trigger] after.cache()[j]
                        == before.cache()[j]
            },
            Err(_) => after.cache() == before.cache(),
        }
    }

    /// What looking an actor up promises. The tree shows the actors that it
    /// showed and its store is untouched. The result is the actor as the
    /// tree shows it; the lookup fails exactly where the cache has no entry
    /// for the actor and the trie fails or holds no record under its key.
    pub open spec fn get_post(
        before: &Self,
        after: &Self,
        id: u64,
        r: Result<Option<ActorState>, ExecutionError>,
    ) -> bool {
        &&& after.inv()
        &&& Self::continues(after, before)
        &&& Self::same_actors(after, before)
        &&& after.store_model() == before.store_model()
        &&& after.resolved() == before.resolved()
        &&& after.resolved_history() == before.resolved_history()
        &&& before.cache().contains_key(id) ==> r is Ok && after.cache() == before.cache()
        &&& before.in_memory() ==> r is Ok
        &&& after.trie().flushed() == before.trie().flushed()
        &&& before.clean() ==> after.clean()
        &&& !before.cache().contains_key(id) ==> Self::cached_clean(before, after, id, r)
        &&& match r {
            Ok(a) => before.actor(id) == Ok::<Option<ActorView>, ActorFailure>(actor_model(a)),
            Err(ExecutionError::Fatal(Fatal::ActorMalformed(i))) => i == id && before.actor(id)
                == Err::<Option<ActorView>, ActorFailure>(ActorFailure::Malformed),
            Err(ExecutionError::Fatal(Fatal::ActorLookup(i, Some(e)))) => i == id && (e is Store
                || (crate::hamt::ops::failure_of(e) matches Some(f) && before.actor(id) == Err::<
                Option<ActorView>,
                ActorFailure,
            >(ActorFailure::Trie(f)))),
            Err(_) => false,
        }
    }

    /// The actor with identifier `id`, if there is one. What the trie holds
    /// for an actor is cached when it is first looked up.
    pub fn get_actor(&mut self, id: u64) -> (r: Result<Option<ActorState>, ExecutionError>)
        requires
            old(self).inv(),
        ensures
            Self::get_post(old(self), final(self), id, r),
    {
        proof {
            lemma_extends_self(self.cache(), self.cache_history());
            lemma_extends_self(self.resolved(), self.resolved_history());
        }
        match self.actor_cache.get(&id) {
            Some(entry) => {
                return Ok(copy_actor(&entry.actor));
            },
            None => {},
        }
        let key = id_key(id);
        let ghost trie_before = self.actors;
        let found = self.actors.get(&self.store, key.as_slice());
        proof {
            let blocks = self.store.blocks();
            assert(self.actors.keeps(blocks, &trie_before, blocks));
            lemma_agrees_kept(
                trie_before,
                blocks,
                self.actors,
                blocks,
                self.cache(),
                self.cache_history(),
                self.floor(),
            );
            assert forall|j: u64| #[trigger] self.stored_actor(j) == old(self).stored_actor(j) by {
                crate::hamt::hash::lemma_all_hashed(id_address(j));
            }
            if old(self).in_memory() {
                lemma_plain_kept(trie_before, blocks, self.actors, blocks);
                lemma_plain_stored(trie_before, blocks, id);
            }
        }
        let actor = match found {
            Ok(Some(bytes)) => match ActorState::decode(bytes.as_slice()) {
                Some(actor) => Some(actor),
                None => {
                    return Err(ExecutionError::Fatal(Fatal::ActorMalformed(id)));
                },
            },
            Ok(None) => None,
            Err(e) => {
                return Err(ExecutionError::Fatal(Fatal::ActorLookup(id, Some(e))));
            },
        };
        let copy = copy_actor(&actor);
        let entry = ActorCacheEntry { dirty: false, actor };
        proof {
            lemma_extends_insert(self.cache(), self.cache_history(), id, entry);
        }
        self.actor_cache.insert(id, entry);
        proof {
            self.lemma_inserted(old(self), id, entry);
        }
        Ok(copy)
    }

    /// The invariant after an entry that agrees with the trie has been put
    /// in the cache of a tree that had all of the invariant but what is
    /// said of the cache.
    proof fn lemma_inserted(&self, before: &Self, id: u64, entry: ActorCacheEntry)
        requires
            self.inner_inv(),
            self.trie().inv(self.blocks()),
            self.trie().config() == tree_config(),
            self.snapshots() == before.snapshots(),
            layers_ordered(
                before.snapshots(),
                before.cache_history().len(),
                before.resolved_history().len(),
            ),
            self.resolved_history() == before.resolved_history(),
            cache_agrees(self.trie(), self.blocks(), before.cache()),
            history_agrees(self.trie(), self.blocks(), before.cache_history(), before.floor()),
            entry_agrees(self.trie(), self.blocks(), id, entry),
            self.cache() == before.cache().insert(id, entry),
            self.cache_history() == before.cache_history().push(record_of(before.cache(), id)),
        ensures
            self.inv(),
    {
        let trie = self.trie();
        let blocks = self.blocks();
        assert forall|j: u64| self.cache().contains_key(j) implies #[trigger] entry_agrees(
            trie,
            blocks,
            j,
            self.cache()[j],
        ) by {
            if j != id {
                assert(entry_agrees(trie, blocks, j, before.cache()[j]));
            }
        }
        let history = self.cache_history();
        assert forall|i: int| self.floor() <= i < history.len() implies ((
        #[trigger] history[i]).1 matches Some(e) ==> entry_agrees(trie, blocks, history[i].0, e)) by {
            if i < before.cache_history().len() {
                assert(history[i] == before.cache_history()[i]);
                if before.snapshots().len() == 0 {
                } else {
                    assert(self.floor() == before.floor());
                }
            } else {
                assert(history[i] == record_of(before.cache(), id));
                if before.cache().contains_key(id) {
                    assert(entry_agrees(trie, blocks, id, before.cache()[id]));
                }
            }
        }
    }

    /// What setting an actor promises. Where changes are refused, nothing
    /// changes and the failure is `ReadOnly`. Otherwise the tree shows the
    /// record for the actor and for every other actor what it showed.
    pub open spec fn set_post(
        before: &Self,
        after: &Self,
        id: u64,
        actor: Option<ActorView>,
        r: Result<(), ExecutionError>,
    ) -> bool {
        match r {
            Ok(()) => {
                &&& !before.read_only()
                &&& after.inv()
                &&& Self::continues(after, before)
                &&& after.store_model() == before.store_model()
                &&& after.trie() == before.trie()
                &&& after.resolved() == before.resolved()
                &&& after.cache().contains_key(id) && after.cache()[id].dirty && actor_model(
                    after.cache()[id].actor,
                ) == actor
                &&& after.actor(id) == Ok::<Option<ActorView>, ActorFailure>(actor)
                &&& forall|j: u64| j != id ==> #[trigger] after.actor(j) == before.actor(j)
            },
            Err(e) => before.read_only() && *after == *before && (e matches ExecutionError::Syscall(
                s,
            ) && s.number == ErrorNumber::ReadOnly),
        }
    }

    fn put_entry(&mut self, id: u64, actor: Option<ActorState>) -> (r: Result<(), ExecutionError>)
        requires
            old(self).inv(),
        ensures
            Self::set_post(old(self), final(self), id, actor_model(actor), r),
    {
        match self.assert_writable() {
            Ok(()) => {},
            Err(e) => {
                return Err(e);
            },
        }
        let entry = ActorCacheEntry { dirty: true, actor };
        proof {
            lemma_extends_insert(self.cache(), self.cache_history(), id, entry);
            lemma_extends_self(self.resolved(), self.resolved_history());
        }
        self.actor_cache.insert(id, entry);
        proof {
            self.lemma_inserted(old(self), id, entry);
        }
        Ok(())
    }

    /// Sets the record of the actor with identifier `id`.
    pub fn set_actor(&mut self, id: u64, actor: ActorState) -> (r: Result<(), ExecutionError>)
        requires
            old(self).inv(),
        ensures
            Self::set_post(old(self), final(self), id, Some(actor@), r),
    {
        self.put_entry(id, Some(actor))
    }

    /// Deletes the actor with identifier `id`. It is no failure if there is
    /// no such actor.
    pub fn delete_actor(&mut self, id: u64) -> (r: Result<(), ExecutionError>)
        requires
            old(self).inv(),
        ensures
            Self::set_post(old(self), final(self), id, None, r),
    {
        self.put_entry(id, None)
    }
}

impl<S: Store> StateTree<S> {
    /// Whether no entry of the cache has yet to be written.
    pub open spec fn clean(&self) -> bool {
        forall|id: u64| self.cache().contains_key(id) ==> !(#[trigger] self.cache()[id]).dirty
    }

    /// What writing one entry of the cache promises: the tree is idle as
    /// it was, shows the actors that it showed, and on success the entry is
    /// clean and every entry that was clean stays so.
    pub open spec fn written_one(before: &Self, after: &Self, id: u64, ok: bool) -> bool {
        &&& after.inv()
        &&& after.store_model() == before.store_model()
        &&& after.info_model() == before.info_model()
        &&& after.resolved() == before.resolved()
        &&& after.resolved_history() == before.resolved_history()
        &&& after.cache_history() == before.cache_history()
        &&& after.snapshots() == before.snapshots()
        &&& after.read_only_count() == before.read_only_count()
        &&& after.cache().dom() == before.cache().dom()
        &&& Self::same_actors(after, before)
        &&& before.in_memory() ==> after.in_memory()
        &&& forall|j: u64|
            before.cache().contains_key(j) && !before.cache()[j].dirty ==> !(
            #[trigger] after.cache()[j]).dirty
        &&& ok ==> !after.cache()[id].dirty
    }

    /// Writes the entry at place `i` of the cache to the trie, where it has
    /// yet to be written, and marks it clean.
    fn write_entry(&mut self, i: usize) -> (r: Result<(), ExecutionError>)
        requires
            old(self).inv(),
            !old(self).within_transaction(),
            i < old(self).actor_cache.key_order().len(),
        ensures
            final(self).actor_cache.key_order() == old(self).actor_cache.key_order(),
            Self::written_one(
                old(self),
                final(self),
                old(self).actor_cache.key_order()[i as int],
                r is Ok,
            ),
            !old(self).cache()[old(self).actor_cache.key_order()[i as int]].dirty ==> r is Ok
                && final(self).trie() == old(self).trie(),
            match r {
                Ok(()) => true,
                Err(ExecutionError::Fatal(Fatal::ActorUnwritable(id))) => {
                    &&& old(self).cache().contains_key(id)
                    &&& old(self).cache()[id].dirty
                    &&& old(self).cache()[id].actor matches Some(a) && !balance_fits(a@.balance)
                },
                Err(ExecutionError::Fatal(Fatal::Trie(e))) => true,
                Err(_) => false,
            },
    {
        let id = *self.actor_cache.key_at(i);
        let entry = self.actor_cache.value_at(i);
        if !entry.dirty {
            return Ok(());
        }
        let key = id_key(id);
        let ghost trie_before = self.actors;
        let ghost blocks = self.store.blocks();
        let ghost shown = actor_model(entry.actor);
        let copy = copy_actor(&entry.actor);
        proof {
            crate::hamt::hash::lemma_all_hashed(id_address(id));
        }
        match &copy {
            Some(actor) => {
                let bytes = match actor.encode() {
                    Some(bytes) => bytes,
                    None => {
                        return Err(ExecutionError::Fatal(Fatal::ActorUnwritable(id)));
                    },
                };
                proof {
                    crate::actor::lemma_actor_round_trip(actor@);
                }
                match self.actors.put(&self.store, key.as_slice(), bytes.as_slice(), true) {
                    Ok((_, stored)) => {
                        proof {
                            if old(self).in_memory() {
                                assert(actor_written(id_address(id), bytes@, id, actor@));
                                if stored {
                                    lemma_plain_changed(
                                        trie_before,
                                        self.actors,
                                        blocks,
                                        id_address(id),
                                        Some(bytes@),
                                    );
                                } else {
                                    lemma_plain_same(trie_before, self.actors, blocks);
                                }
                            }
                        }
                    },
                    Err(e) => {
                        proof {
                            self.lemma_trie_same(old(self));
                            if old(self).in_memory() {
                                lemma_plain_same(trie_before, self.actors, blocks);
                            }
                        }
                        return Err(ExecutionError::Fatal(Fatal::Trie(e)));
                    },
                }
            },
            None => {
                match self.actors.remove(&self.store, key.as_slice()) {
                    Ok(removed) => {
                        proof {
                            if old(self).in_memory() {
                                if removed is Some {
                                    lemma_plain_changed(
                                        trie_before,
                                        self.actors,
                                        blocks,
                                        id_address(id),
                                        None,
                                    );
                                } else {
                                    lemma_plain_same(trie_before, self.actors, blocks);
                                }
                            }
                        }
                    },
                    Err(e) => {
                        proof {
                            self.lemma_trie_same(old(self));
                            if old(self).in_memory() {
                                lemma_plain_same(trie_before, self.actors, blocks);
                            }
                        }
                        return Err(ExecutionError::Fatal(Fatal::Trie(e)));
                    },
                }
            },
        }
        proof {
            assert(self.actors.lookup(blocks, id_address(id)) == Ok::<
                Option<Seq<u8>>,
                Failure,
            >(
                match shown {
                    Some(a) => Some(actor_encoding(a)),
                    None => None,
                },
            ));
            assert forall|j: u64| j != id implies #[trigger] stored_actor_in(
                self.actors,
                blocks,
                j,
            ) == stored_actor_in(trie_before, blocks, j) by {
                crate::hamt::hash::lemma_all_hashed(id_address(j));
                if id_address(j) == id_address(id) {
                    crate::address::lemma_id_address_injective(j, id);
                }
            }
        }
        let written = ActorCacheEntry { dirty: false, actor: copy };
        let _ = self.actor_cache.replace_at(i, written);
        proof {
            let trie = self.actors;
            let before = old(self);
            assert(self.cache().dom() =~= before.cache().dom());
            assert forall|j: u64| self.cache().contains_key(j) implies #[trigger] entry_agrees(
                trie,
                blocks,
                j,
                self.cache()[j],
            ) by {
                if j != id {
                    assert(entry_agrees(trie_before, blocks, j, before.cache()[j]));
                }
            }
            assert forall|j: u64| #[trigger] self.actor(j) == before.actor(j) by {
                if j != id && !before.cache().contains_key(j) {
                    assert(stored_actor_in(trie, blocks, j) == stored_actor_in(
                        trie_before,
                        blocks,
                        j,
                    ));
                }
            }
        }
        Ok(())
    }

    /// A tree whose trie finds what the trie of an idle tree with the
    /// invariant found, and which is otherwise that tree, has the invariant
    /// and shows the same actors.
    proof fn lemma_trie_same(&self, before: &Self)
        requires
            before.inv(),
            !before.within_transaction(),
            self.inner_inv(),
            self.trie().inv(self.blocks()),
            self.trie().config() == tree_config(),
            self.trie().same_as(&before.trie(), self.blocks()),
            self.blocks() == before.blocks(),
            self.cache() == before.cache(),
            self.cache_history() == before.cache_history(),
            self.resolved_history() == before.resolved_history(),
            self.snapshots() == before.snapshots(),
        ensures
            self.inv(),
            Self::same_actors(self, before),
    {
        let blocks = self.blocks();
        assert forall|j: u64| #[trigger] stored_actor_in(self.trie(), blocks, j)
            == stored_actor_in(before.trie(), blocks, j) by {
            crate::hamt::hash::lemma_all_hashed(id_address(j));
        }
        assert forall|j: u64| self.cache().contains_key(j) implies #[trigger] entry_agrees(
            self.trie(),
            blocks,
            j,
            self.cache()[j],
        ) by {
            assert(entry_agrees(before.trie(), blocks, j, before.cache()[j]));
        }
        assert forall|j: u64| #[trigger] self.actor(j) == before.actor(j) by {
            assert(stored_actor_in(self.trie(), blocks, j) == stored_actor_in(
                before.trie(),
                blocks,
                j,
            ));
        }
    }
}

impl<S: Store> StateTree<S> {
    /// The root of the tree as it is written once the trie of actors has
    /// been written under `actors`.
    pub open spec fn root_bytes(&self, actors: Seq<u8>) -> Seq<u8> {
        root_encoding(5, actors, self.info_model()->Some_0)
    }

    /// Whether nothing has come into the store but the written forms of
    /// nodes of the trie of actors and the root that was returned.
    pub open spec fn wrote_only(before: &Self, after: &Self, r: Result<Cid, ExecutionError>)
        -> bool {
        forall|c: Seq<u8>|
            #[trigger] after.blocks().contains_key(c) && !before.blocks().contains_key(c) ==> {
                ||| crate::hamt::flush::names_child(after.trie().root_model(), c)
                ||| after.trie().flushed() == Some(c)
                ||| (r matches Ok(root) && root@ == c)
            }
    }

    /// What writing the tree promises.
    ///
    /// Where changes are refused it fails with `ReadOnly`, and inside of any
    /// other transaction it fails fatally; it then changes nothing. Otherwise the
    /// store only gains blocks, and the tree stays idle and shows every
    /// actor that it showed. On success no entry of its cache is left to be
    /// written, and the identifier returned is that of the written root,
    /// which the store holds and which links to the written trie of actors:
    /// the stored tree shows every actor that the tree showed. Where
    /// nothing was left to be written and the store held the root, the
    /// store is untouched.
    pub open spec fn flush_post(before: &Self, after: &Self, r: Result<Cid, ExecutionError>) -> bool {
        if before.read_only() {
            *after == *before && (r matches Err(ExecutionError::Syscall(s)) && s.number
                == ErrorNumber::ReadOnly)
        } else if before.within_transaction() {
            *after == *before && r matches Err(ExecutionError::Fatal(Fatal::FlushInTransaction))
        } else {
            &&& after.inv()
            &&& !after.within_transaction()
            &&& after.snapshots() == before.snapshots()
            &&& after.info_model() == before.info_model()
            &&& after.resolved() == before.resolved()
            &&& after.resolved_history() == before.resolved_history()
            &&& after.cache_history() == before.cache_history()
            &&& after.cache().dom() == before.cache().dom()
            &&& before.blocks().submap_of(after.blocks())
            &&& before.in_memory() ==> after.in_memory()
            &&& Self::wrote_only(before, after, r)
            &&& forall|id: u64|
                before.actor(id) is Ok ==> #[trigger] after.actor(id) == before.actor(id)
            &&& match r {
                Ok(root) => {
                    let actors = after.trie().flushed()->Some_0;
                    &&& after.clean()
                    &&& after.trie().flushed() is Some
                    &&& after.in_memory() ==> actors == block_cid_bytes(
                        DAG_CBOR,
                        crate::hamt::codec::node_encoding(after.trie().root_model()),
                    )
                    &&& root@ == block_cid_bytes(DAG_CBOR, after.root_bytes(actors))
                    &&& after.blocks().contains_key(root@)
                    &&& after.blocks()[root@] == after.root_bytes(actors)
                    &&& stored_root(after.blocks(), root@) == Ok::<
                        (Seq<u8>, Seq<u8>),
                        RootFailure,
                    >((actors, after.info_model()->Some_0))
                    &&& forall|id: u64|
                        before.actor(id) is Ok ==> #[trigger] root_actor(
                            after.blocks(),
                            root@,
                            id,
                        ) == before.actor(id)
                    &&& before.clean() && before.trie().flushed() is Some
                        && before.blocks().contains_key(
                        block_cid_bytes(
                            DAG_CBOR,
                            before.root_bytes(before.trie().flushed()->Some_0),
                        ),
                    ) ==> after.store_model() == before.store_model() && after.trie().flushed()
                        == before.trie().flushed()
                },
                Err(ExecutionError::Fatal(Fatal::ActorUnwritable(id))) => before.cache().contains_key(
                    id,
                ) && before.cache()[id].dirty && (before.cache()[id].actor matches Some(a)
                    && !balance_fits(a@.balance)),
                Err(ExecutionError::Fatal(Fatal::Trie(e))) => !(before.clean()
                    && before.trie().flushed() is Some),
                Err(ExecutionError::Fatal(Fatal::Put(e))) => true,
                Err(_) => false,
            }
        }
    }

    /// What writing entries of the cache promises: the tree is idle as it
    /// was, shows the actors that it showed, and every entry that was clean
    /// stays so.
    pub open spec fn written_many(before: &Self, after: &Self) -> bool {
        &&& after.inv()
        &&& after.store_model() == before.store_model()
        &&& after.info_model() == before.info_model()
        &&& after.resolved() == before.resolved()
        &&& after.resolved_history() == before.resolved_history()
        &&& after.cache_history() == before.cache_history()
        &&& after.snapshots() == before.snapshots()
        &&& after.read_only_count() == before.read_only_count()
        &&& after.cache().dom() == before.cache().dom()
        &&& Self::same_actors(after, before)
        &&& before.in_memory() ==> after.in_memory()
        &&& forall|j: u64|
            before.cache().contains_key(j) && !before.cache()[j].dirty ==> !(
            #[trigger] after.cache()[j]).dirty
    }

    /// Writing one more entry after writing some is writing entries.
    proof fn lemma_written_step(before: &Self, mid: &Self, after: &Self, id: u64, ok: bool)
        requires
            Self::written_many(before, mid),
            Self::written_one(mid, after, id, ok),
        ensures
            Self::written_many(before, after),
    {
        assert forall|j: u64| #[trigger] after.actor(j) == before.actor(j) by {
            assert(mid.actor(j) == before.actor(j));
            assert(after.actor(j) == mid.actor(j));
        }
        assert forall|j: u64|
            before.cache().contains_key(j) && !before.cache()[j].dirty implies !(
        #[trigger] after.cache()[j]).dirty by {
            assert(!mid.cache()[j].dirty);
            assert(mid.cache().contains_key(j));
        }
    }

    /// Writes every entry of the cache that has yet to be written to the
    /// trie of actors, in the order in which the cache holds them.
    fn write_all(&mut self) -> (r: Result<(), ExecutionError>)
        requires
            old(self).inv(),
            !old(self).within_transaction(),
        ensures
            Self::written_many(old(self), final(self)),
            old(self).clean() ==> r is Ok && final(self).trie() == old(self).trie(),
            match r {
                Ok(()) => final(self).clean(),
                Err(ExecutionError::Fatal(Fatal::ActorUnwritable(id))) => {
                    &&& old(self).cache().contains_key(id)
                    &&& old(self).cache()[id].dirty
                    &&& old(self).cache()[id].actor matches Some(a) && !balance_fits(a@.balance)
                },
                Err(ExecutionError::Fatal(Fatal::Trie(e))) => true,
                Err(_) => false,
            },
    {
        let ghost order = self.actor_cache.key_order();
        let mut i: usize = 0;
        while i < self.actor_cache.len()
            invariant
                old(self).inv(),
                Self::written_many(old(self), self),
                !self.within_transaction(),
                self.actor_cache.key_order() == order,
                i <= order.len(),
                forall|k: int| 0 <= k < i ==> !(#[trigger] self.cache()[order[k]]).dirty,
                old(self).clean() ==> self.trie() == old(self).trie(),
            decreases order.len() - i,
        {
            let ghost mid = *self;
            proof {
                mid.actor_cache.lemma_places();
            }
            let r = self.write_entry(i);
            proof {
                Self::lemma_written_step(old(self), &mid, self, order[i as int], r is Ok);
                assert forall|k: int| 0 <= k < i implies !(
                #[trigger] self.cache()[order[k]]).dirty by {
                    assert(mid.cache().contains_key(order[k]));
                    assert(!mid.cache()[order[k]].dirty);
                }
            }
            match r {
                Ok(()) => {},
                Err(e) => {
                    proof {
                        match e {
                            ExecutionError::Fatal(Fatal::ActorUnwritable(id)) => {
                                self.lemma_still_unwritable(old(self), &mid, id);
                            },
                            _ => {},
                        }
                    }
                    return Err(e);
                },
            }
            i += 1;
        }
        proof {
            self.actor_cache.lemma_places();
            assert forall|id: u64| self.cache().contains_key(id) implies !(
            #[trigger] self.cache()[id]).dirty by {
                let k = self.actor_cache.place_of(id);
                assert(!self.cache()[order[k]].dirty);
            }
        }
        Ok(())
    }

    /// An entry that cannot be written after some entries have been written
    /// could not be written before.
    proof fn lemma_still_unwritable(&self, before: &Self, mid: &Self, id: u64)
        requires
            Self::written_many(before, mid),
            mid.cache().contains_key(id),
            mid.cache()[id].dirty,
            mid.cache()[id].actor matches Some(a) && !balance_fits(a@.balance),
        ensures
            before.cache().contains_key(id),
            before.cache()[id].dirty,
            before.cache()[id].actor matches Some(a) && !balance_fits(a@.balance),
    {
        assert(before.cache().dom().contains(id));
        assert(mid.actor(id) == before.actor(id));
    }

    /// Writes the trie of actors and then the root of the tree, once no
    /// entry of the cache is left to be written.
    fn write_root_block(&mut self) -> (r: Result<Cid, ExecutionError>)
        requires
            old(self).inv(),
            !old(self).within_transaction(),
            old(self).clean(),
        ensures
            Self::flush_post(old(self), final(self), r),
            final(self).cache() == old(self).cache(),
    {
        let ghost written = *self;
        let actors = match self.actors.flush(&mut self.store) {
            Ok(cid) => cid,
            Err(e) => {
                proof {
                    self.lemma_trie_kept(&written);
                }
                return Err(ExecutionError::Fatal(Fatal::Trie(e)));
            },
        };
        proof {
            self.lemma_trie_kept(&written);
        }
        let ghost flushed = *self;
        let info = match &self.info {
            Some(info) => info,
            None => {
                assert(false);
                return Err(ExecutionError::Fatal(Fatal::FlushInTransaction));
            },
        };
        let bytes = write_root(5, &actors, info);
        let _ = actors.as_bytes();
        let _ = info.as_bytes();
        let ghost trie = self.actors;
        match put_block(&mut self.store, DAG_CBOR, bytes.as_slice()) {
            Ok(root) => {
                proof {
                    let more = self.store.blocks();
                    trie.lemma_grow(flushed.blocks(), more);
                    if flushed.in_memory() {
                        trie.lemma_canonical_grow(flushed.blocks(), more);
                    }
                    self.lemma_trie_kept(&flushed);
                    trie.lemma_flushed_lookup(more);
                    if self.in_memory() {
                        trie.lemma_canonical_flushed(more);
                    }
                    lemma_root_round_trip(5, actors@, info@);
                    vstd::map_lib::lemma_submap_of_trans(
                        written.blocks(),
                        flushed.blocks(),
                        more,
                    );
                    assert forall|id: u64| old(self).actor(id) is Ok implies #[trigger] root_actor(
                        more,
                        root@,
                        id,
                    ) == old(self).actor(id) by {
                        crate::hamt::hash::lemma_all_hashed(id_address(id));
                        assert(flushed.actor(id) == written.actor(id));
                        assert(self.actor(id) == flushed.actor(id));
                        if self.cache().contains_key(id) {
                            assert(entry_agrees(trie, more, id, self.cache()[id]));
                        }
                    }
                    assert forall|id: u64| old(self).actor(id) is Ok implies #[trigger] self.actor(
                        id,
                    ) == old(self).actor(id) by {
                        assert(flushed.actor(id) == written.actor(id));
                    }
                }
                Ok(root)
            },
            Err(e) => {
                proof {
                    let more = self.store.blocks();
                    trie.lemma_grow(flushed.blocks(), more);
                    if flushed.in_memory() {
                        trie.lemma_canonical_grow(flushed.blocks(), more);
                    }
                    self.lemma_trie_kept(&flushed);
                    vstd::map_lib::lemma_submap_of_trans(
                        written.blocks(),
                        flushed.blocks(),
                        more,
                    );
                    assert forall|id: u64| old(self).actor(id) is Ok implies #[trigger] self.actor(
                        id,
                    ) == old(self).actor(id) by {
                        assert(flushed.actor(id) == written.actor(id));
                    }
                }
                Err(ExecutionError::Fatal(Fatal::Put(e)))
            },
        }
    }

    /// Writes every entry of the cache that has yet to be written to the
    /// trie of actors, writes the trie, and writes the root of the tree.
    /// Returns the identifier of the root.
    pub fn flush(&mut self) -> (r: Result<Cid, ExecutionError>)
        requires
            old(self).inv(),
        ensures
            Self::flush_post(old(self), final(self), r),
    {
        match self.assert_writable() {
            Ok(()) => {},
            Err(e) => {
                return Err(e);
            },
        }
        if self.in_transaction() {
            return Err(ExecutionError::Fatal(Fatal::FlushInTransaction));
        }
        match self.write_all() {
            Ok(()) => {},
            Err(e) => {
                return Err(e);
            },
        }
        let ghost written = *self;
        let r = self.write_root_block();
        proof {
            assert forall|id: u64| old(self).actor(id) is Ok implies #[trigger] self.actor(id)
                == old(self).actor(id) by {
                assert(written.actor(id) == old(self).actor(id));
            }
            if r is Ok {
                let root = r->Ok_0;
                assert forall|id: u64| old(self).actor(id) is Ok implies #[trigger] root_actor(
                    self.blocks(),
                    root@,
                    id,
                ) == old(self).actor(id) by {
                    assert(written.actor(id) == old(self).actor(id));
                }
            }
        }
        r
    }

    /// A tree whose trie keeps, over a store that has only gained blocks,
    /// what the trie of an idle tree with the invariant found, and which is
    /// otherwise that tree, has the invariant and shows every actor that
    /// the other showed.
    proof fn lemma_trie_kept(&self, before: &Self)
        requires
            before.inv(),
            !before.within_transaction(),
            self.inner_inv(),
            self.trie().inv(self.blocks()),
            self.trie().config() == tree_config(),
            self.trie().keeps(self.blocks(), &before.trie(), before.blocks()),
            before.blocks().submap_of(self.blocks()),
            self.cache() == before.cache(),
            self.cache_history() == before.cache_history(),
            self.resolved_history() == before.resolved_history(),
            self.snapshots() == before.snapshots(),
        ensures
            self.inv(),
            forall|id: u64| before.actor(id) is Ok ==> #[trigger] self.actor(id) == before.actor(id),
            before.in_memory() && self.trie().canonical(self.blocks()) ==> self.in_memory(),
    {
        if before.in_memory() && self.trie().canonical(self.blocks()) {
            lemma_plain_kept(before.trie(), before.blocks(), self.trie(), self.blocks());
        }
        lemma_agrees_kept(
            before.trie(),
            before.blocks(),
            self.trie(),
            self.blocks(),
            self.cache(),
            self.cache_history(),
            self.floor(),
        );
        assert forall|id: u64| before.actor(id) is Ok implies #[trigger] self.actor(id)
            == before.actor(id) by {
            if !before.cache().contains_key(id) {
                assert(stored_actor_in(self.trie(), self.blocks(), id) == stored_actor_in(
                    before.trie(),
                    before.blocks(),
                    id,
                ));
            }
        }
    }
}

/// Why the state of the actor that gives identifiers to addresses could
/// not be had.
pub enum InitFailure {
    /// The actor could not be looked up.
    Actor(ActorFailure),
    /// There is no such actor.
    NoActor,
    /// The store does not hold the state that the actor links to.
    NoState,
    /// What the store holds under that link is no such state.
    Malformed,
    /// The trie of addresses failed or holds what is no identifier.
    Resolve(ResolveFailure),
}

impl<S: Store> StateTree<S> {
    /// The state of the actor that gives identifiers to addresses, as the
    /// tree shows the actor and the store holds its state.
    pub open spec fn init_state(&self) -> Result<InitView, InitFailure> {
        match self.actor(INIT_ACTOR_ID) {
            Ok(Some(a)) => if !self.blocks().contains_key(a.state) {
                Err(InitFailure::NoState)
            } else {
                match state_decoding(self.blocks()[a.state]) {
                    Some(s) => Ok(s),
                    None => Err(InitFailure::Malformed),
                }
            },
            Ok(None) => Err(InitFailure::NoActor),
            Err(f) => Err(InitFailure::Actor(f)),
        }
    }

    /// The identifier that the actor that gives identifiers to addresses
    /// has given to the address with binary form `address`.
    pub open spec fn init_resolves(&self, address: Seq<u8>) -> Result<Option<u64>, InitFailure> {
        match self.init_state() {
            Ok(s) => match resolves(self.blocks(), s.address_map, address) {
                Ok(found) => Ok(found),
                Err(f) => Err(InitFailure::Resolve(f)),
            },
            Err(f) => Err(f),
        }
    }

    /// Whether a failure is one of the store or of a trie, not of what the
    /// tree holds.
    pub open spec fn is_fatal(e: ExecutionError) -> bool {
        e is Fatal
    }

    /// The state of the actor that gives identifiers to addresses, with the
    /// record of the actor.
    fn load_init(&mut self) -> (r: Result<(InitState, ActorState), ExecutionError>)
        requires
            old(self).inv(),
        ensures
            final(self).inv(),
            Self::continues(final(self), old(self)),
            Self::same_actors(final(self), old(self)),
            final(self).store_model() == old(self).store_model(),
            final(self).resolved() == old(self).resolved(),
            final(self).resolved_history() == old(self).resolved_history(),
            final(self).trie().flushed() == old(self).trie().flushed(),
            old(self).clean() ==> final(self).clean(),
            match r {
                Ok((state, actor)) => old(self).actor(INIT_ACTOR_ID) == Ok::<
                    Option<ActorView>,
                    ActorFailure,
                >(Some(actor@)) && old(self).init_state() == Ok::<InitView, InitFailure>(state@),
                Err(e) => e is Fatal && (old(self).init_state() is Err || e matches ExecutionError::Fatal(
                    Fatal::Store(_),
                ) || e matches ExecutionError::Fatal(Fatal::ActorLookup(_, Some(_)))),
            },
    {
        let actor = match self.get_actor(INIT_ACTOR_ID) {
            Ok(Some(actor)) => actor,
            Ok(None) => {
                return Err(ExecutionError::Fatal(Fatal::InitActorMissing));
            },
            Err(e) => {
                return Err(e);
            },
        };
        let block = match self.store.get(&actor.state) {
            Ok(Some(block)) => block,
            Ok(None) => {
                return Err(ExecutionError::Fatal(Fatal::InitStateMissing(actor.state.clone())));
            },
            Err(e) => {
                return Err(ExecutionError::Fatal(Fatal::Store(e)));
            },
        };
        match InitState::decode(block.as_slice()) {
            Some(state) => Ok((state, actor)),
            None => Err(ExecutionError::Fatal(Fatal::InitStateMalformed(actor.state.clone()))),
        }
    }

    /// What resolving an address promises. The tree shows the actors that
    /// it showed and its store is untouched. An address that carries an
    /// identifier resolves to it. Any other resolves to what the cache of
    /// addresses holds for it, or else to what the actor that gives
    /// identifiers has given it, which is then cached.
    pub open spec fn lookup_post(
        before: &Self,
        after: &Self,
        address: Seq<u8>,
        r: Result<Option<u64>, ExecutionError>,
    ) -> bool {
        &&& after.inv()
        &&& Self::continues(after, before)
        &&& Self::same_actors(after, before)
        &&& after.store_model() == before.store_model()
        &&& after.trie().flushed() == before.trie().flushed()
        &&& before.clean() ==> after.clean()
        &&& if address_id(address) is Some {
            r matches Ok(Some(id)) && id == address_id(address)->Some_0 && after.resolved()
                == before.resolved()
        } else if before.resolved().contains_key(address) {
            r matches Ok(Some(id)) && id == before.resolved()[address] && after.resolved()
                == before.resolved()
        } else {
            match r {
                Ok(Some(id)) => before.init_resolves(address) == Ok::<Option<u64>, InitFailure>(
                    Some(id),
                ) && after.resolved() == before.resolved().insert(address, id),
                Ok(None) => before.init_resolves(address) == Ok::<Option<u64>, InitFailure>(None)
                    && after.resolved() == before.resolved(),
                Err(e) => e is Fatal && after.resolved() == before.resolved() && (
                before.init_resolves(address) is Err || e matches ExecutionError::Fatal(
                    Fatal::Store(_),
                ) || e matches ExecutionError::Fatal(Fatal::ActorLookup(_, Some(_)))
                    || e matches ExecutionError::Fatal(Fatal::AddressMap(_))),
            }
        }
    }

    /// The identifier of the actor with the given address, if it has one.
    pub fn lookup_id(&mut self, addr: &Address) -> (r: Result<Option<u64>, ExecutionError>)
        requires
            old(self).inv(),
        ensures
            Self::lookup_post(old(self), final(self), addr@, r),
    {
        proof {
            lemma_extends_self(self.cache(), self.cache_history());
            lemma_extends_self(self.resolved(), self.resolved_history());
        }
        match addr.id() {
            Some(id) => {
                return Ok(Some(id));
            },
            None => {},
        }
        match self.resolve_cache.get(addr) {
            Some(id) => {
                return Ok(Some(*id));
            },
            None => {},
        }
        let (state, _) = match self.load_init() {
            Ok(loaded) => loaded,
            Err(e) => {
                return Err(e);
            },
        };
        let found = match state.resolve_address(&self.store, addr) {
            Ok(found) => found,
            Err(MapError::Trie(e)) => {
                return Err(ExecutionError::Fatal(Fatal::AddressMap(e)));
            },
            Err(_) => {
                return Err(ExecutionError::Fatal(Fatal::AddressMalformed));
            },
        };
        match found {
            Some(id) => {
                let ghost mid = *self;
                proof {
                    lemma_extends_insert(self.resolved(), self.resolved_history(), addr@, id);
                }
                self.resolve_cache.insert(addr.clone(), id);
                proof {
                    crate::history_map::lemma_extends_trans(
                        self.resolved(),
                        self.resolved_history(),
                        mid.resolved(),
                        mid.resolved_history(),
                        old(self).resolved(),
                        old(self).resolved_history(),
                    );
                    assert forall|j: u64| #[trigger] self.actor(j) == old(self).actor(j) by {
                        assert(mid.actor(j) == old(self).actor(j));
                    }
                }
                Ok(Some(id))
            },
            None => Ok(None),
        }
    }

    /// Whether `after` has come from `before` by resolving `address` to
    /// `found` and then, where it has an identifier, looking the actor with
    /// that identifier up, which gave `r`.
    pub open spec fn resolved_and_got(
        before: &Self,
        after: &Self,
        address: Seq<u8>,
        found: Option<u64>,
        r: Result<Option<ActorState>, ExecutionError>,
    ) -> bool {
        exists|looked: Self| #[trigger]
            Self::lookup_post(before, &looked, address, Ok::<Option<u64>, ExecutionError>(found))
                && match found {
                Some(id) => Self::get_post(&looked, after, id, r),
                None => *after == looked && r matches Ok(None),
            }
    }

    /// What looking an actor up by its address promises: the address is
    /// resolved, and where it has an identifier the actor with that
    /// identifier is looked up; an address without an identifier has no
    /// actor. The failure is that of the resolving or that of the lookup.
    pub open spec fn by_address_post(
        before: &Self,
        after: &Self,
        address: Seq<u8>,
        r: Result<Option<ActorState>, ExecutionError>,
    ) -> bool {
        &&& after.inv()
        &&& Self::same_actors(after, before)
        &&& after.store_model() == before.store_model()
        &&& after.trie().flushed() == before.trie().flushed()
        &&& before.clean() ==> after.clean()
        &&& address_id(address) is Some && before.in_memory() ==> r is Ok
        &&& (exists|found: Option<u64>| #[trigger]
            Self::resolved_and_got(before, after, address, found, r)) || (r matches Err(e)
            && Self::lookup_post(before, after, address, Err::<Option<u64>, ExecutionError>(e)))
    }

    /// The actor with the given address, if the address has an identifier
    /// and there is an actor with it.
    pub fn get_actor_by_address(&mut self, addr: &Address) -> (r: Result<
        Option<ActorState>,
        ExecutionError,
    >)
        requires
            old(self).inv(),
        ensures
            Self::by_address_post(old(self), final(self), addr@, r),
    {
        let id = match self.lookup_id(addr) {
            Ok(Some(id)) => id,
            Ok(None) => {
                assert(Self::resolved_and_got(
                    old(self),
                    self,
                    addr@,
                    None,
                    Ok::<Option<ActorState>, ExecutionError>(None),
                )) by {
                    assert(Self::lookup_post(
                        old(self),
                        self,
                        addr@,
                        Ok::<Option<u64>, ExecutionError>(None),
                    ));
                }
                return Ok(None);
            },
            Err(e) => {
                return Err(e);
            },
        };
        let ghost mid = *self;
        let r = self.get_actor(id);
        proof {
            assert forall|j: u64| #[trigger] self.actor(j) == old(self).actor(j) by {
                assert(mid.actor(j) == old(self).actor(j));
                assert(self.actor(j) == mid.actor(j));
            }
            assert(Self::resolved_and_got(old(self), self, addr@, Some(id), r)) by {
                assert(Self::lookup_post(
                    old(self),
                    &mid,
                    addr@,
                    Ok::<Option<u64>, ExecutionError>(Some(id)),
                ));
            }
        }
        r
    }
}

impl<S: Store> StateTree<S> {
    /// A tree that is another with the invariant but for its store, which
    /// has only gained blocks, has the invariant and shows every actor that
    /// the other showed.
    proof fn lemma_store_grew(&self, before: &Self)
        requires
            before.inv(),
            self.inner_inv(),
            self.trie() == before.trie(),
            before.blocks().submap_of(self.blocks()),
            self.cache() == before.cache(),
            self.cache_history() == before.cache_history(),
            self.resolved() == before.resolved(),
            self.resolved_history() == before.resolved_history(),
            self.snapshots() == before.snapshots(),
            self.read_only_count() == before.read_only_count(),
            self.info_model() == before.info_model(),
        ensures
            self.inv(),
            Self::continues(self, before),
            forall|id: u64|
                before.actor(id) is Ok ==> #[trigger] self.actor(id) == before.actor(id),
    {
        before.trie().lemma_grow(before.blocks(), self.blocks());
        lemma_agrees_kept(
            before.trie(),
            before.blocks(),
            self.trie(),
            self.blocks(),
            self.cache(),
            self.cache_history(),
            self.floor(),
        );
        lemma_extends_self(self.cache(), self.cache_history());
        lemma_extends_self(self.resolved(), self.resolved_history());
        if before.in_memory() {
            before.trie().lemma_canonical_grow(before.blocks(), self.blocks());
            lemma_plain_kept(before.trie(), before.blocks(), self.trie(), self.blocks());
        }
    }

    /// What registering an address promises. Where changes are refused,
    /// nothing changes and the failure is `ReadOnly`. On success the
    /// identifier is the one that was next; the address resolves to it in
    /// the new trie of addresses, which the new state of the actor that
    /// gives identifiers links to; that state is in the store and the actor
    /// links to it; and every other actor is shown as it was. On any other
    /// failure the store has at most gained blocks and every actor is shown
    /// as it was.
    pub open spec fn register_post(
        before: &Self,
        after: &Self,
        address: Seq<u8>,
        r: Result<u64, ExecutionError>,
    ) -> bool {
        if before.read_only() {
            *after == *before && (r matches Err(ExecutionError::Syscall(s)) && s.number
                == ErrorNumber::ReadOnly)
        } else {
            &&& after.inv()
            &&& Self::continues(after, before)
            &&& after.resolved() == before.resolved()
            &&& match r {
                Ok(id) => {
                    &&& before.init_state() matches Ok(s) && id == s.next_id && id < u64::MAX
                    &&& after.init_state() matches Ok(s) && s.next_id == id + 1 && s.network_name
                        == before.init_state()->Ok_0.network_name && resolves(
                        after.blocks(),
                        s.address_map,
                        address,
                    ) == Ok::<Option<u64>, ResolveFailure>(Some(id))
                    &&& after.init_resolves(address) == Ok::<Option<u64>, InitFailure>(Some(id))
                    &&& forall|other: Seq<u8>|
                        other != address && before.init_resolves(other) is Ok
                            ==> #[trigger] after.init_resolves(other) == before.init_resolves(
                            other,
                        )
                    &&& before.actor(INIT_ACTOR_ID) matches Ok(Some(a)) && (after.actor(
                        INIT_ACTOR_ID,
                    ) matches Ok(Some(b)) && b == (ActorView { state: b.state, ..a }))
                    &&& forall|j: u64|
                        j != INIT_ACTOR_ID && before.actor(j) is Ok ==> #[trigger] after.actor(j)
                            == before.actor(j)
                },
                Err(e) => e is Fatal && forall|j: u64|
                    before.actor(j) is Ok ==> #[trigger] after.actor(j) == before.actor(j),
            }
        }
    }

    /// Has the actor that gives identifiers to addresses give the next
    /// identifier to `addr`, and returns the identifier.
    pub fn register_new_address(&mut self, addr: &Address) -> (r: Result<u64, ExecutionError>)
        requires
            old(self).inv(),
        ensures
            Self::register_post(old(self), final(self), addr@, r),
    {
        match self.assert_writable() {
            Ok(()) => {},
            Err(e) => {
                return Err(e);
            },
        }
        let (mut state, mut actor) = match self.load_init() {
            Ok(loaded) => loaded,
            Err(e) => {
                return Err(e);
            },
        };
        let ghost loaded = *self;
        let ghost state_before = state@;
        let ghost actor_before = actor@;
        let id = match state.map_address_to_new_id(&mut self.store, addr) {
            Ok(id) => id,
            Err(e) => {
                proof {
                    self.lemma_store_grew(&loaded);
                    Self::lemma_continues_trans(self, &loaded, old(self));
                }
                return Err(
                    ExecutionError::Fatal(
                        match e {
                            MapError::Trie(e) => Fatal::AddressMap(e),
                            MapError::Malformed => Fatal::AddressMalformed,
                            MapError::Exhausted => Fatal::IdentifiersExhausted,
                        },
                    ),
                );
            },
        };
        proof {
            self.lemma_store_grew(&loaded);
            Self::lemma_continues_trans(self, &loaded, old(self));
        }
        let ghost mapped = *self;
        let bytes = state.encode();
        let _ = state.address_map.as_bytes();
        let cid = match put_block(&mut self.store, DAG_CBOR, bytes.as_slice()) {
            Ok(cid) => cid,
            Err(e) => {
                proof {
                    self.lemma_store_grew(&mapped);
                    Self::lemma_continues_trans(self, &mapped, old(self));
                }
                return Err(ExecutionError::Fatal(Fatal::Put(e)));
            },
        };
        proof {
            self.lemma_store_grew(&mapped);
            Self::lemma_continues_trans(self, &mapped, old(self));
            lemma_state_round_trip(state@);
        }
        let ghost put = *self;
        actor.state = cid;
        let ghost actor_after = actor@;
        match self.set_actor(INIT_ACTOR_ID, actor) {
            Ok(()) => {},
            Err(e) => {
                assert(false);
                return Err(e);
            },
        }
        proof {
            Self::lemma_continues_trans(self, &put, old(self));
            let blocks = self.blocks();
            assert(blocks.contains_key(cid@) && blocks[cid@] == state_encoding(state@));
            crate::init_actor::lemma_resolves_grow(
                mapped.blocks(),
                blocks,
                state@.address_map,
                addr@,
            );
            assert forall|other: Seq<u8>|
                other != addr@ && old(self).init_resolves(other) is Ok implies #[trigger]
                self.init_resolves(other) == old(self).init_resolves(other) by {
                crate::hamt::hash::lemma_all_hashed(other);
                crate::init_actor::lemma_resolves_grow(
                    mapped.blocks(),
                    blocks,
                    state@.address_map,
                    other,
                );
            }
        }
        Ok(id)
    }

    /// Coming from a tree that has come from a third is coming from the
    /// third.
    pub proof fn lemma_continues_trans(c: &Self, b: &Self, a: &Self)
        requires
            Self::continues(c, b),
            Self::continues(b, a),
        ensures
            Self::continues(c, a),
    {
        vstd::map_lib::lemma_submap_of_trans(a.blocks(), b.blocks(), c.blocks());
        crate::history_map::lemma_extends_trans(
            c.cache(),
            c.cache_history(),
            b.cache(),
            b.cache_history(),
            a.cache(),
            a.cache_history(),
        );
        crate::history_map::lemma_extends_trans(
            c.resolved(),
            c.resolved_history(),
            b.resolved(),
            b.resolved_history(),
            a.resolved(),
            a.resolved_history(),
        );
        assert forall|id: u64| a.stored_actor(id) is Ok implies #[trigger] c.stored_actor(id)
            == a.stored_actor(id) by {
            assert(b.stored_actor(id) == a.stored_actor(id));
        }
    }
}

impl<S: Store> StateTree<S> {
    /// What changing an actor promises, `found` saying whether there was an
    /// actor to change.
    ///
    /// Where there is none, nothing is shown differently. Where there is
    /// one, `mutate` is called on its record, and the tree then shows the
    /// record that `mutate` returned for the actor, and every other actor as
    /// it was. The change fails where the lookup fails, where `mutate`
    /// fails, with its failure, and where changes are refused, with
    /// `ReadOnly`; the tree then shows every actor as it was.
    pub open spec fn mutate_post<F: FnOnce(ActorState) -> Result<ActorState, ExecutionError>>(
        before: &Self,
        after: &Self,
        id: u64,
        mutate: F,
        r: Result<bool, ExecutionError>,
    ) -> bool {
        &&& after.inv()
        &&& Self::continues(after, before)
        &&& after.store_model() == before.store_model()
        &&& match r {
            Ok(true) => {
                &&& !before.read_only()
                &&& exists|a: ActorState, b: ActorState|
                    before.actor(id) == Ok::<Option<ActorView>, ActorFailure>(Some(a@))
                        && #[trigger] call_ensures(
                        mutate,
                        (a,),
                        Ok::<ActorState, ExecutionError>(b),
                    ) && after.actor(id) == Ok::<Option<ActorView>, ActorFailure>(Some(b@))
                &&& after.cache().contains_key(id)
                &&& forall|j: u64| j != id ==> #[trigger] after.actor(j) == before.actor(j)
            },
            Ok(false) => before.actor(id) == Ok::<Option<ActorView>, ActorFailure>(None)
                && Self::same_actors(after, before),
            Err(e) => {
                &&& Self::same_actors(after, before)
                &&& {
                    ||| Self::lookup_failed(before, id, e)
                    ||| exists|a: ActorState|
                        before.actor(id) == Ok::<Option<ActorView>, ActorFailure>(Some(a@))
                            && #[trigger] call_ensures(
                            mutate,
                            (a,),
                            Err::<ActorState, ExecutionError>(e),
                        )
                    ||| before.read_only() && (e matches ExecutionError::Syscall(s) && s.number
                        == ErrorNumber::ReadOnly) && exists|a: ActorState, b: ActorState|
                        before.actor(id) == Ok::<Option<ActorView>, ActorFailure>(Some(a@))
                            && #[trigger] call_ensures(
                            mutate,
                            (a,),
                            Ok::<ActorState, ExecutionError>(b),
                        )
                }
            },
        }
    }

    /// Whether `e` is the failure of a lookup of the actor: its record is
    /// malformed, the store failed, or the trie is broken on the way to it.
    /// No lookup fails for an actor that the cache holds, nor in a tree
    /// whose trie of actors is plain.
    pub open spec fn lookup_failed(before: &Self, id: u64, e: ExecutionError) -> bool {
        !before.cache().contains_key(id) && !before.in_memory() && match e {
            ExecutionError::Fatal(Fatal::ActorMalformed(i)) => i == id && before.actor(id) == Err::<
                Option<ActorView>,
                ActorFailure,
            >(ActorFailure::Malformed),
            ExecutionError::Fatal(Fatal::ActorLookup(i, Some(e))) => i == id && (e is Store || (
            crate::hamt::ops::failure_of(e) matches Some(f) && before.actor(id) == Err::<
                Option<ActorView>,
                ActorFailure,
            >(ActorFailure::Trie(f)))),
            _ => false,
        }
    }

    /// Changes the actor with identifier `id` by `mutate`, where there is
    /// such an actor; returns whether there is.
    pub fn maybe_mutate_actor_id<F>(&mut self, id: u64, mutate: F) -> (r: Result<
        bool,
        ExecutionError,
    >) where F: FnOnce(ActorState) -> Result<ActorState, ExecutionError>
        requires
            old(self).inv(),
            forall|a: ActorState|
                old(self).actor(id) == Ok::<Option<ActorView>, ActorFailure>(Some(a@))
                    ==> #[trigger] call_requires(mutate, (a,)),
        ensures
            Self::mutate_post(old(self), final(self), id, mutate, r),
    {
        let actor = match self.get_actor(id) {
            Ok(Some(actor)) => actor,
            Ok(None) => {
                return Ok(false);
            },
            Err(e) => {
                return Err(e);
            },
        };
        let ghost looked = *self;
        let ghost found = actor;
        let changed = match mutate(actor) {
            Ok(changed) => changed,
            Err(e) => {
                assert(call_ensures(mutate, (found,), Err::<ActorState, ExecutionError>(e)));
                return Err(e);
            },
        };
        assert(call_ensures(mutate, (found,), Ok::<ActorState, ExecutionError>(changed)));
        let ghost after = changed;
        match self.set_actor(id, changed) {
            Ok(()) => {},
            Err(e) => {
                assert(old(self).read_only() && old(self).actor(id) == Ok::<
                    Option<ActorView>,
                    ActorFailure,
                >(Some(found@)) && call_ensures(
                    mutate,
                    (found,),
                    Ok::<ActorState, ExecutionError>(after),
                ));
                return Err(e);
            },
        }
        proof {
            Self::lemma_continues_trans(self, &looked, old(self));
            assert(old(self).actor(id) == Ok::<Option<ActorView>, ActorFailure>(Some(found@))
                && call_ensures(mutate, (found,), Ok::<ActorState, ExecutionError>(after))
                && self.actor(id) == Ok::<Option<ActorView>, ActorFailure>(Some(after@)));
        }
        Ok(true)
    }

    /// Changes the actor with identifier `id` by `mutate`. It is a fatal
    /// failure if there is no such actor.
    pub fn mutate_actor<F>(&mut self, id: u64, mutate: F) -> (r: Result<(), ExecutionError>) where
        F: FnOnce(ActorState) -> Result<ActorState, ExecutionError>,

        requires
            old(self).inv(),
            forall|a: ActorState|
                old(self).actor(id) == Ok::<Option<ActorView>, ActorFailure>(Some(a@))
                    ==> #[trigger] call_requires(mutate, (a,)),
        ensures
            match r {
                Ok(()) => Self::mutate_post(
                    old(self),
                    final(self),
                    id,
                    mutate,
                    Ok::<bool, ExecutionError>(true),
                ),
                Err(e) => Self::mutate_post(
                    old(self),
                    final(self),
                    id,
                    mutate,
                    Err::<bool, ExecutionError>(e),
                ) || (e matches ExecutionError::Fatal(Fatal::ActorLookup(i, None)) && i == id
                    && Self::mutate_post(
                    old(self),
                    final(self),
                    id,
                    mutate,
                    Ok::<bool, ExecutionError>(false),
                )),
            },
    {
        let r = self.maybe_mutate_actor_id(id, mutate);
        match r {
            Ok(found) => {
                if found {
                    Ok(())
                } else {
                    Err(ExecutionError::Fatal(Fatal::ActorLookup(id, None)))
                }
            },
            Err(e) => Err(e),
        }
    }
}

/// Whether a visitor was handed the actor of a pair of the trie of actors,
/// under the address that is its key, and was content with it.
pub open spec fn shown_to<F: Fn(Address, &ActorState) -> Result<(), E>, E>(f: F, pair: Pair)
    -> bool {
    exists|address: Address, actor: ActorState|
        address@ == pair.0 && actor_decoding(pair.1) == Some(actor@) && #[trigger] call_ensures(
            f,
            (address, &actor),
            Ok::<(), E>(()),
        )
}

/// Whether a visitor was content with each of the first `count` pairs.
pub open spec fn all_shown<F: Fn(Address, &ActorState) -> Result<(), E>, E>(
    f: F,
    pairs: Seq<Pair>,
    count: int,
) -> bool {
    forall|j: int| 0 <= j < count ==> shown_to(f, #[trigger] pairs[j])
}

/// Whether the pair at place `i` has the key `key` and is no actor under an
/// address.
pub open spec fn malformed_at(pairs: Seq<Pair>, i: int, key: Seq<u8>) -> bool {
    0 <= i < pairs.len() && pairs[i].0 == key && (!crate::address::is_address(pairs[i].0)
        || actor_decoding(pairs[i].1) is None)
}

/// Whether a visitor failed with `e` on the actor of the pair at place `i`.
pub open spec fn failed_at<F: Fn(Address, &ActorState) -> Result<(), E>, E>(
    f: F,
    pairs: Seq<Pair>,
    i: int,
    address: Address,
    actor: ActorState,
    e: E,
) -> bool {
    0 <= i < pairs.len() && address@ == pairs[i].0 && actor_decoding(pairs[i].1) == Some(actor@)
        && call_ensures(f, (address, &actor), Err::<(), E>(e))
}

/// Whether a walk ended at a pair with the key `key` that is no actor under
/// an address, after the visitor was content with every pair before it.
pub open spec fn ended_malformed<F: Fn(Address, &ActorState) -> Result<(), E>, E>(
    f: F,
    pairs: Seq<Pair>,
    key: Seq<u8>,
) -> bool {
    exists|i: int| all_shown(f, pairs, i) && #[trigger] malformed_at(pairs, i, key)
}

/// Whether a walk ended with the visitor failing with `e`, after it was
/// content with every pair before.
pub open spec fn ended_failed<F: Fn(Address, &ActorState) -> Result<(), E>, E>(
    f: F,
    pairs: Seq<Pair>,
    e: E,
) -> bool {
    exists|i: int, address: Address, actor: ActorState|
        all_shown(f, pairs, i) && #[trigger] failed_at(f, pairs, i, address, actor, e)
}

impl<S: Store> StateTree<S> {
    /// How many read-only transactions are open.
    pub fn read_only_depth(&self) -> (n: u32)
        ensures
            n == self.read_only_count(),
    {
        self.read_only_layers
    }

    /// What putting a block promises: on success the store holds the block
    /// under its identifier, which is returned, and on failure what it
    /// held. The tree shows every actor that it showed.
    pub open spec fn block_post(
        before: &Self,
        after: &Self,
        codec: u64,
        data: Seq<u8>,
        r: Result<Cid, PutError>,
    ) -> bool {
        &&& after.inv()
        &&& Self::continues(after, before)
        &&& after.cache() == before.cache()
        &&& after.resolved() == before.resolved()
        &&& after.trie() == before.trie()
        &&& after.read_only_count() == before.read_only_count()
        &&& forall|id: u64| before.actor(id) is Ok ==> #[trigger] after.actor(id) == before.actor(id)
        &&& match r {
            Ok(cid) => cid@ == block_cid_bytes(codec, data) && after.blocks()
                == before.blocks().insert(cid@, data),
            Err(_) => after.blocks() == before.blocks(),
        }
    }

    /// Puts a block in the store of the tree and returns its identifier.
    pub fn put_block(&mut self, codec: u64, data: &[u8]) -> (r: Result<Cid, PutError>)
        requires
            old(self).inv(),
        ensures
            Self::block_post(old(self), final(self), codec, data@, r),
    {
        let r = put_block(&mut self.store, codec, data);
        proof {
            self.lemma_store_grew(old(self));
        }
        r
    }

    /// Goes through the actors that the trie of actors holds, in the order
    /// of a walk through it, and hands each with its address to `f`, until
    /// `f` fails. What is only in the cache is not visited. On success `f`
    /// was content with every actor of the walk.
    pub fn for_each<F, E>(&self, f: F) -> (r: Result<(), Visit<E>>) where
        F: Fn(Address, &ActorState) -> Result<(), E>,

        requires
            self.inv(),
            forall|address: Address, actor: ActorState| #[trigger]
                call_requires(f, (address, &actor)),
        ensures
            match r {
                Ok(()) => self.trie().walk(self.blocks()) is Ok && all_shown(
                    f,
                    self.trie().walk(self.blocks())->Ok_0,
                    self.trie().walk(self.blocks())->Ok_0.len() as int,
                ),
                Err(Visit::Trie(e)) => !self.in_memory() && (e is Store || (
                crate::hamt::ops::failure_of(e) matches Some(failure) && self.trie().walk(
                    self.blocks(),
                ) == Err::<Seq<Pair>, Failure>(failure))),
                Err(Visit::Malformed(key)) => !self.in_memory() && self.trie().walk(self.blocks())
                    is Ok && ended_malformed(f, self.trie().walk(self.blocks())->Ok_0, key@),
                Err(Visit::Visitor(e)) => self.trie().walk(self.blocks()) is Ok && ended_failed(
                    f,
                    self.trie().walk(self.blocks())->Ok_0,
                    e,
                ),
            },
    {
        proof {
            self.actors.lemma_config_valid(self.store.blocks());
        }
        let entries = match self.actors.entries(&self.store) {
            Ok(entries) => entries,
            Err(e) => {
                return Err(Visit::Trie(e));
            },
        };
        let ghost pairs = pairs_model(entries@);
        let mut i: usize = 0;
        while i < entries.len()
            invariant
                i <= entries@.len(),
                self.inv(),
                pairs == pairs_model(entries@),
                self.trie().walk(self.blocks()) == Ok::<Seq<Pair>, Failure>(pairs),
                forall|address: Address, actor: ActorState| #[trigger]
                    call_requires(f, (address, &actor)),
                all_shown(f, pairs, i as int),
            decreases entries@.len() - i,
        {
            let kv = &entries[i];
            assert(pairs[i as int] == kv@);
            proof {
                if self.in_memory() {
                    lemma_plain_walk(self.trie(), self.blocks(), i as int);
                }
            }
            let address = match Address::from_bytes(kv.key.as_slice()) {
                Some(address) => address,
                None => {
                    let key = crate::bytes::bytes_copy(kv.key.as_slice());
                    assert(malformed_at(pairs, i as int, key@) && all_shown(f, pairs, i as int));
                    assert(ended_malformed(f, pairs, key@));
                    return Err(Visit::Malformed(key));
                },
            };
            let actor = match ActorState::decode(kv.value.as_slice()) {
                Some(actor) => actor,
                None => {
                    let key = crate::bytes::bytes_copy(kv.key.as_slice());
                    assert(malformed_at(pairs, i as int, key@) && all_shown(f, pairs, i as int));
                    assert(ended_malformed(f, pairs, key@));
                    return Err(Visit::Malformed(key));
                },
            };
            let ghost shown_address = address;
            let answer = f(address, &actor);
            let ghost answered = answer;
            assert(call_ensures(f, (shown_address, &actor), answered));
            match answer {
                Ok(done) => {
                    assert(answered == Ok::<(), E>(()));
                    assert(shown_to(f, pairs[i as int]));
                },
                Err(e) => {
                    assert(failed_at(f, pairs, i as int, shown_address, actor, e) && all_shown(
                        f,
                        pairs,
                        i as int,
                    ));
                    assert(ended_failed(f, pairs, e));
                    return Err(Visit::Visitor(e));
                },
            }
            i += 1;
        }
        Ok(())
    }
}

} // verus!
