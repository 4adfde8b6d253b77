//! The state of the actor that gives identifiers to addresses: a trie from
//! addresses to identifiers, and the next identifier to give.

use crate::address::Address;
use crate::cbor::{head, is_item, MAJOR_ARRAY, MAJOR_UINT};
use crate::cid::{is_cid, Cid};
use crate::hamt::codec::{bare_link, write_link};
use crate::hamt::hash::{Config, DEFAULT_BUCKET_SIZE};
use crate::hamt::lookup::Blocks;
use crate::hamt::model::Failure;
use crate::hamt::ops::Error as TrieError;
use crate::hamt::roundtrip::lemma_head_at;
use crate::hamt::{stored_lookup, Trie};
use crate::ipld::{
    array_at, lemma_link_at, lemma_plain_item, lemma_text_at, lemma_uint_at, link_at, read_array,
    read_link, read_text, read_uint, text_at, text_item, uint_at, write_text,
};
use crate::store::{Store, DAG_CBOR};
use vstd::prelude::*;

verus! {

/// The identifier of the actor that gives identifiers to addresses.
pub const INIT_ACTOR_ID: u64 = 1;

/// The first identifier that is given to an address.
pub const FIRST_NON_SINGLETON_ADDR: u64 = 100;

/// The bit width of the tries of the state tree.
pub const HAMT_BIT_WIDTH: u32 = 5;

/// The configuration of the tries of the state tree.
pub open spec fn tree_config() -> Config {
    Config { bit_width: HAMT_BIT_WIDTH, bucket_size: DEFAULT_BUCKET_SIZE }
}

/// The configuration of the tries of the state tree.
pub fn tree_conf() -> (conf: Config)
    ensures
        conf == tree_config(),
        conf.valid(),
{
    Config { bit_width: HAMT_BIT_WIDTH, bucket_size: DEFAULT_BUCKET_SIZE }
}

/// The state of the actor that gives identifiers to addresses.
#[derive(Debug)]
pub struct State {
    /// The root of the trie from addresses to identifiers.
    pub address_map: Cid,
    /// The identifier that the next address gets.
    pub next_id: u64,
    /// The name of the network, as text.
    pub network_name: Vec<u8>,
}

/// The state as plain values.
pub struct StateView {
    pub address_map: Seq<u8>,
    pub next_id: u64,
    pub network_name: Seq<u8>,
}

impl View for State {
    type V = StateView;

    open spec fn view(&self) -> StateView {
        StateView {
            address_map: self.address_map@,
            next_id: self.next_id,
            network_name: self.network_name@,
        }
    }
}

/// How the state is written: the array of the link to the trie, the next
/// identifier and the name of the network.
pub open spec fn state_encoding(s: StateView) -> Seq<u8> {
    head(MAJOR_ARRAY, 3) + bare_link(s.address_map) + head(MAJOR_UINT, s.next_id) + text_item(
        s.network_name,
    )
}

/// The state that `bytes` are the writing of, where they are one.
pub open spec fn state_decoding(bytes: Seq<u8>) -> Option<StateView> {
    match array_at(bytes, 0, 3) {
        Some(p1) => match link_at(bytes, p1) {
            Some((address_map, p2)) => match uint_at(bytes, p2) {
                Some((next_id, p3)) => match text_at(bytes, p3) {
                    Some((network_name, end)) => if end == bytes.len() && network_name.len()
                        <= 0xffff_ffff {
                        Some(StateView { address_map, next_id, network_name })
                    } else {
                        None
                    },
                    None => None,
                },
                None => None,
            },
            None => None,
        },
        None => None,
    }
}

/// A written state is read back as the state.
pub proof fn lemma_state_round_trip(s: StateView)
    requires
        is_cid(s.address_map),
        s.network_name.len() <= 0xffff_ffff,
    ensures
        state_decoding(state_encoding(s)) == Some(s),
{
    let h = head(MAJOR_ARRAY, 3);
    let m = bare_link(s.address_map);
    let n = head(MAJOR_UINT, s.next_id);
    let t = text_item(s.network_name);
    let none = Seq::<u8>::empty();
    let bytes = state_encoding(s);
    assert(bytes =~= none + h + (m + n + t));
    lemma_head_at(none, MAJOR_ARRAY, 3, m + n + t);
    assert(bytes =~= (none + h) + m + (n + t));
    lemma_link_at(none + h, s.address_map, n + t);
    assert(bytes =~= (none + h + m) + n + t);
    lemma_uint_at(none + h + m, s.next_id, t);
    assert(bytes =~= (none + h + m + n) + t + none);
    lemma_text_at(none + h + m + n, s.network_name, none);
}

/// How an identifier is written as the value of an address.
pub open spec fn id_encoding(id: u64) -> Seq<u8> {
    head(MAJOR_UINT, id)
}

/// The identifier that `bytes` are the writing of, where they are one.
pub open spec fn id_decoding(bytes: Seq<u8>) -> Option<u64> {
    match uint_at(bytes, 0) {
        Some((id, end)) => if end == bytes.len() {
            Some(id)
        } else {
            None
        },
        None => None,
    }
}

/// A written identifier is read back as the identifier, and is one item.
pub proof fn lemma_id_round_trip(id: u64)
    ensures
        id_decoding(id_encoding(id)) == Some(id),
        is_item(id_encoding(id)),
{
    let none = Seq::<u8>::empty();
    assert(id_encoding(id) =~= none + head(MAJOR_UINT, id) + none);
    lemma_uint_at(none, id, none);
    lemma_plain_item(MAJOR_UINT, id);
}

/// Why an address could not be resolved.
pub enum ResolveFailure {
    /// The trie failed.
    Trie(Failure),
    /// The trie holds under the address what is no identifier.
    Malformed,
}

/// What an address with binary form `address` resolves to in the trie
/// stored under `address_map`: its identifier, nothing, or the failure.
pub open spec fn resolves(blocks: Blocks, address_map: Seq<u8>, address: Seq<u8>) -> Result<
    Option<u64>,
    ResolveFailure,
> {
    match stored_lookup(blocks, address_map, tree_config(), address) {
        Ok(Some(bytes)) => match id_decoding(bytes) {
            Some(id) => Ok(Some(id)),
            None => Err(ResolveFailure::Malformed),
        },
        Ok(None) => Ok(None),
        Err(f) => Err(ResolveFailure::Trie(f)),
    }
}

/// Why the state engine could not get an answer from the trie of addresses.
#[derive(Debug)]
pub enum MapError {
    /// The trie failed.
    Trie(TrieError),
    /// The trie holds under the address what is no identifier.
    Malformed,
    /// There is no identifier left to give.
    Exhausted,
}

/// Reads an identifier.
pub fn decode_id(bytes: &[u8]) -> (r: Option<u64>)
    ensures
        r == id_decoding(bytes@),
{
    match read_uint(bytes, 0) {
        Some((id, end)) => if end == bytes.len() {
            Some(id)
        } else {
            None
        },
        None => None,
    }
}

/// Writes an identifier.
pub fn encode_id(id: u64) -> (bytes: Vec<u8>)
    ensures
        bytes@ == id_encoding(id),
{
    let mut out: Vec<u8> = Vec::new();
    crate::cbor::write_head(&mut out, MAJOR_UINT, id);
    assert(out@ =~= id_encoding(id));
    out
}

/// The state in which no address has an identifier yet, for a network
/// named `test`: its trie of addresses is the empty trie, and the first
/// identifier that is not kept for a single actor is next.
pub open spec fn new_test_state() -> StateView {
    StateView {
        address_map: crate::store::block_cid_bytes(
            DAG_CBOR,
            crate::hamt::codec::node_encoding(crate::hamt::model::empty_node(tree_config())),
        ),
        next_id: FIRST_NON_SINGLETON_ADDR,
        network_name: seq![0x74u8, 0x65u8, 0x73u8, 0x74u8],
    }
}

impl State {
    /// A state in which no address has an identifier yet, over an empty
    /// trie that is written to the store, for a network named `test`.
    pub fn new_test<S: Store>(store: &mut S) -> (r: Result<State, TrieError>)
        ensures
            old(store).blocks().submap_of(final(store).blocks()),
            r matches Ok(state) ==> state@ == new_test_state() && forall|address: Seq<u8>| #[trigger]
                resolves(final(store).blocks(), state.address_map@, address) == Ok::<
                    Option<u64>,
                    ResolveFailure,
                >(None),
            r matches Err(e) ==> e is Put,
    {
        let mut map = Trie::new(tree_conf());
        assert(map.is_new(store.blocks(), tree_config()));
        let ghost empty = map;
        let ghost blocks = store.blocks();
        let address_map = match map.flush(store) {
            Ok(cid) => cid,
            Err(e) => {
                return Err(e);
            },
        };
        proof {
            map.lemma_flushed_lookup(store.blocks());
            assert forall|address: Seq<u8>| #[trigger]
                resolves(store.blocks(), address_map@, address) == Ok::<
                    Option<u64>,
                    ResolveFailure,
                >(None) by {
                crate::hamt::hash::lemma_all_hashed(address);
                assert(empty.lookup(blocks, address) == Ok::<Option<Seq<u8>>, Failure>(None));
                assert(map.lookup(store.blocks(), address) == empty.lookup(blocks, address));
            }
            assert forall|k: Seq<u8>| #[trigger] map.lookup(store.blocks(), k)
                == Ok::<Option<Seq<u8>>, Failure>(None) by {
                assert(empty.lookup(blocks, k) == Ok::<Option<Seq<u8>>, Failure>(None));
            }
            map.lemma_nothing_found(store.blocks());
        }
        let mut network_name: Vec<u8> = Vec::new();
        network_name.push(0x74);
        network_name.push(0x65);
        network_name.push(0x73);
        network_name.push(0x74);
        assert(network_name@ =~= new_test_state().network_name);
        Ok(State { address_map, next_id: FIRST_NON_SINGLETON_ADDR, network_name })
    }

    /// Writes the state.
    pub fn encode(&self) -> (bytes: Vec<u8>)
        ensures
            bytes@ == state_encoding(self@),
    {
        let mut out: Vec<u8> = Vec::new();
        crate::cbor::write_head(&mut out, MAJOR_ARRAY, 3);
        write_link(&mut out, &self.address_map);
        crate::cbor::write_head(&mut out, MAJOR_UINT, self.next_id);
        write_text(&mut out, self.network_name.as_slice());
        assert(out@ =~= state_encoding(self@));
        out
    }

    /// Reads a state.
    pub fn decode(bytes: &[u8]) -> (r: Option<State>)
        ensures
            match state_decoding(bytes@) {
                Some(s) => r matches Some(state) && state@ == s,
                None => r is None,
            },
    {
        let p1 = match read_array(bytes, 0, 3) {
            Some(p) => p,
            None => {
                return None;
            },
        };
        let (address_map, p2) = match read_link(bytes, p1) {
            Some(r) => r,
            None => {
                return None;
            },
        };
        let (next_id, p3) = match read_uint(bytes, p2) {
            Some(r) => r,
            None => {
                return None;
            },
        };
        let (network_name, end) = match read_text(bytes, p3) {
            Some(r) => r,
            None => {
                return None;
            },
        };
        if end != bytes.len() || network_name.len() > 0xffff_ffff {
            return None;
        }
        Some(State { address_map, next_id, network_name })
    }

    /// The identifier of `addr` in the trie of addresses, if it has one.
    /// An address that carries its identifier resolves to it.
    pub fn resolve_address<S: Store>(&self, store: &S, addr: &Address) -> (r: Result<
        Option<u64>,
        MapError,
    >)
        ensures
            crate::address::address_id(addr@) matches Some(id) ==> r matches Ok(Some(found))
                && found == id,
            crate::address::address_id(addr@) is None ==> match r {
                Ok(found) => resolves(store.blocks(), self.address_map@, addr@) == Ok::<
                    Option<u64>,
                    ResolveFailure,
                >(found),
                Err(MapError::Malformed) => resolves(store.blocks(), self.address_map@, addr@)
                    == Err::<Option<u64>, ResolveFailure>(ResolveFailure::Malformed),
                Err(MapError::Trie(e)) => e is Store || (crate::hamt::ops::failure_of(e) matches Some(
                    f,
                ) && resolves(store.blocks(), self.address_map@, addr@) == Err::<
                    Option<u64>,
                    ResolveFailure,
                >(ResolveFailure::Trie(f))),
                Err(MapError::Exhausted) => false,
            },
    {
        match addr.id() {
            Some(id) => {
                return Ok(Some(id));
            },
            None => {},
        }
        let mut map = match Trie::load(store, &self.address_map, tree_conf()) {
            Ok(map) => map,
            Err(e) => {
                return Err(MapError::Trie(e));
            },
        };
        match map.get(store, addr.as_bytes()) {
            Ok(Some(bytes)) => match decode_id(bytes.as_slice()) {
                Some(id) => Ok(Some(id)),
                None => Err(MapError::Malformed),
            },
            Ok(None) => Ok(None),
            Err(e) => Err(MapError::Trie(e)),
        }
    }
}

impl State {
    /// What giving an identifier to an address promises. The store only
    /// gains blocks. On success the identifier is the one that was next, the
    /// one after it is next now, the address resolves to the identifier, and
    /// every other address that resolved resolves as it did. On failure the
    /// state is what it was.
    pub open spec fn map_post(
        before: &Self,
        blocks_before: Blocks,
        after: &Self,
        blocks_after: Blocks,
        address: Seq<u8>,
        r: Result<u64, MapError>,
    ) -> bool {
        &&& blocks_before.submap_of(blocks_after)
        &&& match r {
            Ok(id) => {
                &&& id == before.next_id
                &&& id < u64::MAX
                &&& after.next_id == id + 1
                &&& after.network_name == before.network_name
                &&& resolves(blocks_after, after.address_map@, address) == Ok::<
                    Option<u64>,
                    ResolveFailure,
                >(Some(id))
                &&& forall|other: Seq<u8>|
                    other != address && resolves(
                        blocks_before,
                        before.address_map@,
                        other,
                    ) is Ok ==> #[trigger] resolves(blocks_after, after.address_map@, other)
                        == resolves(blocks_before, before.address_map@, other)
            },
            Err(e) => after@ == before@ && (e is Exhausted <==> before.next_id == u64::MAX) && !(e
                is Malformed),
        }
    }

    /// Gives the next identifier to `addr`: stores it under the address in
    /// the trie of addresses, writes the trie, and returns the identifier.
    pub fn map_address_to_new_id<S: Store>(&mut self, store: &mut S, addr: &Address) -> (r: Result<
        u64,
        MapError,
    >)
        ensures
            Self::map_post(old(self), old(store).blocks(), final(self), final(store).blocks(), addr@, r),
    {
        let id = self.next_id;
        if id == u64::MAX {
            return Err(MapError::Exhausted);
        }
        let ghost blocks = store.blocks();
        let mut map = match Trie::load(store, &self.address_map, tree_conf()) {
            Ok(map) => map,
            Err(e) => {
                return Err(MapError::Trie(e));
            },
        };
        let ghost loaded_map = map;
        let value = encode_id(id);
        proof {
            lemma_id_round_trip(id);
        }
        match map.put(store, addr.as_bytes(), value.as_slice(), true) {
            Ok(_) => {},
            Err(e) => {
                return Err(MapError::Trie(e));
            },
        }
        let ghost changed = map;
        let cid = match map.flush(store) {
            Ok(cid) => cid,
            Err(e) => {
                return Err(MapError::Trie(e));
            },
        };
        proof {
            let more = store.blocks();
            map.lemma_flushed_lookup(more);
            assert forall|other: Seq<u8>|
                other != addr@ && resolves(blocks, self.address_map@, other)
                    is Ok implies #[trigger] resolves(more, cid@, other) == resolves(
                blocks,
                self.address_map@,
                other,
            ) by {
                assert(loaded_map.lookup(blocks, other) == stored_lookup(
                    blocks,
                    self.address_map@,
                    tree_config(),
                    other,
                ));
                assert(changed.lookup(blocks, other) == loaded_map.lookup(blocks, other));
                assert(map.lookup(more, other) == changed.lookup(blocks, other));
                assert(stored_lookup(more, cid@, tree_config(), other) == map.lookup(more, other));
            }
            assert(changed.lookup(blocks, addr@) == Ok::<Option<Seq<u8>>, Failure>(
                Some(value@),
            ));
            assert(map.lookup(more, addr@) == changed.lookup(blocks, addr@));
            assert(stored_lookup(more, cid@, tree_config(), addr@) == map.lookup(more, addr@));
        }
        self.address_map = cid;
        self.next_id = id + 1;
        Ok(id)
    }
}

/// An address that resolved in a stored trie resolves to the same when the
/// store has gained blocks.
pub proof fn lemma_resolves_grow(blocks: Blocks, more: Blocks, address_map: Seq<u8>, address: Seq<u8>)
    requires
        blocks.submap_of(more),
        resolves(blocks, address_map, address) is Ok,
    ensures
        resolves(more, address_map, address) == resolves(blocks, address_map, address),
{
    let conf = tree_config();
    let way = Seq::<nat>::empty();
    if blocks.contains_key(address_map) {
        crate::hamt::grow::lemma_loaded_grow(blocks, more, address_map, conf, way);
        let root = crate::hamt::lookup::loaded(blocks, address_map, conf, way);
        if root is Ok {
            crate::hamt::grow::lemma_get_grow(
                root->Ok_0,
                blocks,
                more,
                conf,
                crate::hamt::hash::key_route(address, conf.bit_width as nat),
                address,
                0,
            );
        }
    }
}

} // verus!
