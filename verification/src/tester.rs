//! A harness that populates a state tree for trials: with the actors that
//! every state has, with accounts, and with actors of any code.

use crate::actor::{ActorState, ActorView};
use crate::address::{Address, PROTOCOL_ACTOR, PROTOCOL_DELEGATED, PROTOCOL_ID, SECP_PUB_LEN};
use crate::amount::TokenAmount;
use crate::cbor::{byte_string, head, write_byte_string, write_head, MAJOR_ARRAY};
use crate::cid::Cid;
use crate::error::{ErrorNumber, ExecutionError};
use crate::hamt::codec::{bare_link, write_link};
use crate::hamt::ops::Error as TrieError;
use crate::init_actor::{State as InitState, INIT_ACTOR_ID};
use crate::ipld::{array_at, link_at, read_array, read_link, read_uint, uint_at};
use crate::manifest::{
    code_named, manifest_decoding, Builtin, Manifest, ManifestError, IPLD_RAW,
};
use crate::state_tree::{ActorFailure, StateTree};
use crate::store::{block_cid_bytes, PutError, Store, StoreError, DAG_CBOR};
use crate::version::StateTreeVersion;
use rand_chacha::ChaCha8Rng;
use vstd::prelude::*;

verus! {

/// The tokens that new accounts are given, in the smallest unit.
pub const INITIAL_ACCOUNT_BALANCE: u64 = 10000;

/// The identifier of the system actor.
pub const SYSTEM_ACTOR_ID: u64 = 0;

/// The identifier of the actor that manages addresses.
pub const EAM_ACTOR_ID: u64 = 10;

/// The seed of the keys of the accounts that are made in numbers.
pub const ACCOUNTS_SEED: u64 = 8;

/// The length of a secp256k1 private key.
pub const SECRET_KEY_LEN: usize = 32;

/// An account: its identifier and its address.
pub type Account = (u64, Address);

#[verifier::external_type_specification]
#[verifier::external_body]
pub struct ExChaCha8Rng(ChaCha8Rng);

/// Calls `SeedableRng::seed_from_u64` of `ChaCha8Rng`. Nothing is stated of
/// the generator.
#[verifier::external_body]
fn seeded(seed: u64) -> (rng: ChaCha8Rng) {
    rand::SeedableRng::seed_from_u64(seed)
}

/// Calls `SecretKey::random` of `libsecp256k1` with the generator and
/// `serialize` on the key, which gives its 32 bytes. Which key is drawn is
/// left open. The contract states the number of the bytes, and that they
/// are a private key: `random` draws bytes until `parse` takes them, and
/// `serialize` gives back the bytes that were parsed.
#[verifier::external_body]
fn random_secret(rng: &mut ChaCha8Rng) -> (secret: Vec<u8>)
    ensures
        secret@.len() == SECRET_KEY_LEN,
        secp_public_key(secret@) is Some,
{
    libsecp256k1::SecretKey::random(rng).serialize().to_vec()
}

/// The public key of a secp256k1 private key in its full form, as
/// `libsecp256k1` derives it; `None` where the bytes are no private key.
pub uninterp spec fn secp_public_key(secret: Seq<u8>) -> Option<Seq<u8>>;

/// Calls `SecretKey::parse_slice` of `libsecp256k1` on the bytes,
/// `PublicKey::from_secret_key` on the key and `serialize` on the public
/// key, which gives its 65 bytes. The contract names the result and states
/// that length.
#[verifier::external_body]
fn public_key_of(secret: &[u8]) -> (r: Option<Vec<u8>>)
    ensures
        match r {
            Some(key) => secp_public_key(secret@) == Some(key@) && key@.len() == SECP_PUB_LEN,
            None => secp_public_key(secret@) is None,
        },
{
    match libsecp256k1::SecretKey::parse_slice(secret) {
        Ok(key) => Some(libsecp256k1::PublicKey::from_secret_key(&key).serialize().to_vec()),
        Err(_) => None,
    }
}

/// Why the harness failed.
#[derive(Debug)]
pub enum TesterError {
    /// The harness has given its state tree away.
    NoStateTree,
    /// The store holds nothing under the identifier of the built-in actors.
    NoManifestInformation(Cid),
    /// What the store holds under the identifier of the built-in actors is
    /// no pair of a version and a link.
    ManifestInformation(Cid),
    /// The store failed.
    Store(StoreError),
    /// The manifest could not be had.
    Manifest(ManifestError),
    /// The trie of addresses could not be written.
    AddressMap(TrieError),
    /// A block could not be written.
    State(PutError),
    /// The state tree failed.
    Tree(ExecutionError),
    /// There is no account with this identifier.
    NoSuchAccount(u64),
    /// The bytes are no private key.
    InvalidKey,
}

/// The version of a manifest and the link to its entries, as the block of
/// the built-in actors holds them: one array of the two, with nothing
/// after it.
pub open spec fn info_decoding(bytes: Seq<u8>) -> Option<(u32, Seq<u8>)> {
    match array_at(bytes, 0, 2) {
        Some(p1) => match uint_at(bytes, p1) {
            Some((version, p2)) => match link_at(bytes, p2) {
                Some((entries, end)) => if end == bytes.len() && version <= u32::MAX {
                    Some((version as u32, entries))
                } else {
                    None
                },
                None => None,
            },
            None => None,
        },
        None => None,
    }
}

/// Reads the version of a manifest and the link to its entries.
pub fn decode_info(bytes: &[u8]) -> (r: Option<(u32, Cid)>)
    ensures
        match r {
            Some((version, entries)) => info_decoding(bytes@) == Some((version, entries@)),
            None => info_decoding(bytes@) is None,
        },
{
    let p1 = match read_array(bytes, 0, 2) {
        Some(p) => p,
        None => {
            return None;
        },
    };
    let (version, p2) = match read_uint(bytes, p1) {
        Some(v) => v,
        None => {
            return None;
        },
    };
    let (entries, end) = match read_link(bytes, p2) {
        Some(l) => l,
        None => {
            return None;
        },
    };
    if end != bytes.len() || version > 0xffff_ffff {
        return None;
    }
    Some((version as u32, entries))
}

/// The state of the system actor: the link to the built-in actors.
pub open spec fn system_state(builtin_actors: Seq<u8>) -> Seq<u8> {
    head(MAJOR_ARRAY, 1) + bare_link(builtin_actors)
}

/// The state of an account: its address.
pub open spec fn account_state(address: Seq<u8>) -> Seq<u8> {
    head(MAJOR_ARRAY, 1) + byte_string(address)
}

/// `count` zeros, each written as an unsigned integer.
pub open spec fn zeros(count: nat) -> Seq<u8> {
    Seq::new(count, |i: int| 0u8)
}

/// The state of a placeholder: an array of 32 zeros.
pub open spec fn placeholder_state() -> Seq<u8> {
    head(MAJOR_ARRAY, 32) + zeros(32)
}

/// The state of an actor that has none: an empty array.
pub open spec fn empty_state() -> Seq<u8> {
    head(MAJOR_ARRAY, 0)
}

/// The delegated address of an actor that is deployed at `address`: the
/// address itself, unless it is the address of an identifier or of an
/// actor.
pub open spec fn delegated_of(address: Seq<u8>) -> Option<Seq<u8>> {
    if address[0] == PROTOCOL_ID || address[0] == PROTOCOL_ACTOR {
        None
    } else {
        Some(address)
    }
}

/// What the store holds of the built-in actors under `builtin_actors`: the
/// entries of their manifest, where the block under the identifier is a
/// version and a link to the entries, and the version is one.
pub open spec fn stored_manifest(blocks: Map<Seq<u8>, Seq<u8>>, builtin_actors: Seq<u8>) -> Option<
    crate::manifest::Entries,
> {
    if !blocks.contains_key(builtin_actors) {
        None
    } else {
        match info_decoding(blocks[builtin_actors]) {
            Some((version, entries)) => if version == 1 && blocks.contains_key(entries) {
                manifest_decoding(blocks[entries])
            } else {
                None
            },
            None => None,
        }
    }
}

/// What loading the manifest of the built-in actors gives: the manifest
/// that the entries make, or why there is none.
pub open spec fn codes_post(
    blocks: Map<Seq<u8>, Seq<u8>>,
    builtin_actors: Seq<u8>,
    r: Result<Manifest, TesterError>,
) -> bool {
    match r {
        Ok(m) => stored_manifest(blocks, builtin_actors) matches Some(entries) && m.made_of(
            entries,
        ),
        Err(TesterError::Store(_)) => true,
        Err(TesterError::NoManifestInformation(cid)) => cid@ == builtin_actors
            && !blocks.contains_key(builtin_actors),
        Err(TesterError::ManifestInformation(cid)) => cid@ == builtin_actors && blocks.contains_key(
            builtin_actors,
        ) && info_decoding(blocks[builtin_actors]) is None,
        Err(TesterError::Manifest(e)) => blocks.contains_key(builtin_actors) && (info_decoding(
            blocks[builtin_actors],
        ) matches Some((version, entries)) && Manifest::load_post(
            blocks,
            entries,
            version,
            Err::<Manifest, ManifestError>(e),
        )),
        Err(_) => false,
    }
}

/// The manifest of the built-in actors that the store holds under
/// `builtin_actors`.
pub fn load_codes<S: Store>(store: &S, builtin_actors: &Cid) -> (r: Result<Manifest, TesterError>)
    ensures
        codes_post(store.blocks(), builtin_actors@, r),
{
    let block = match store.get(builtin_actors) {
        Ok(Some(block)) => block,
        Ok(None) => {
            return Err(TesterError::NoManifestInformation(builtin_actors.clone()));
        },
        Err(e) => {
            return Err(TesterError::Store(e));
        },
    };
    let (version, entries) = match decode_info(block.as_slice()) {
        Some(info) => info,
        None => {
            return Err(TesterError::ManifestInformation(builtin_actors.clone()));
        },
    };
    match Manifest::load(store, &entries, version) {
        Ok(m) => Ok(m),
        Err(e) => Err(TesterError::Manifest(e)),
    }
}

/// The record of an actor with the given code and state that holds no
/// tokens and has sent no message.
pub open spec fn plain_actor(code: Seq<u8>, state: Seq<u8>) -> ActorView {
    ActorView {
        code,
        state: block_cid_bytes(DAG_CBOR, state),
        sequence: 0,
        balance: 0,
        delegated_address: None,
    }
}

/// Puts `state` in the store of the tree and sets the actor with the given
/// code, whose state it is, under `id`.
fn set_up<S: Store>(tree: &mut StateTree<S>, id: u64, code: Cid, state: &[u8]) -> (r: Result<
    (),
    TesterError,
>)
    requires
        old(tree).inv(),
        !old(tree).read_only(),
    ensures
        final(tree).inv(),
        StateTree::continues(final(tree), old(tree)),
        final(tree).resolved() == old(tree).resolved(),
        forall|j: u64|
            j != id && old(tree).actor(j) is Ok ==> #[trigger] final(tree).actor(j) == old(tree).actor(j),
        match r {
            Ok(()) => {
                &&& final(tree).actor(id) == Ok::<Option<ActorView>, ActorFailure>(
                    Some(plain_actor(code@, state@)),
                )
                &&& final(tree).blocks().contains_key(block_cid_bytes(DAG_CBOR, state@))
                &&& final(tree).blocks()[block_cid_bytes(DAG_CBOR, state@)] == state@
            },
            Err(e) => e is State && (old(tree).actor(id) is Ok
                ==> final(tree).actor(id) == old(tree).actor(id)),
        },
{
    let ghost before = *tree;
    let cid = match tree.put_block(DAG_CBOR, state) {
        Ok(cid) => cid,
        Err(e) => {
            return Err(TesterError::State(e));
        },
    };
    let ghost stored = *tree;
    let actor = ActorState::new(code, cid, TokenAmount::zero(), 0, None);
    match tree.set_actor(id, actor) {
        Ok(()) => {},
        Err(e) => {
            assert(false);
            return Err(TesterError::Tree(e));
        },
    }
    proof {
        StateTree::lemma_continues_trans(tree, &stored, &before);
    }
    Ok(())
}

/// Whether the tree shows the three first actors with the given codes and
/// no other actor.
pub open spec fn first_actors_shown<S: Store>(
    tree: &StateTree<S>,
    system_code: Seq<u8>,
    init_code: Seq<u8>,
    eam_code: Seq<u8>,
    builtin_actors: Seq<u8>,
) -> bool {
    &&& tree.actor(SYSTEM_ACTOR_ID) == Ok::<Option<ActorView>, ActorFailure>(
        Some(plain_actor(system_code, system_state(builtin_actors))),
    )
    &&& tree.actor(INIT_ACTOR_ID) == Ok::<Option<ActorView>, ActorFailure>(
        Some(
            plain_actor(
                init_code,
                crate::init_actor::state_encoding(crate::init_actor::new_test_state()),
            ),
        ),
    )
    &&& tree.actor(EAM_ACTOR_ID) == Ok::<Option<ActorView>, ActorFailure>(
        Some(plain_actor(eam_code, empty_state())),
    )
    &&& forall|id: u64|
        id != SYSTEM_ACTOR_ID && id != INIT_ACTOR_ID && id != EAM_ACTOR_ID ==> #[trigger] tree.actor(
            id,
        ) == Ok::<Option<ActorView>, ActorFailure>(None)
}

/// Puts the three first actors in a new state tree.
fn first_actors<S: Store>(
    tree: &mut StateTree<S>,
    system_code: Cid,
    init_code: Cid,
    eam_code: Cid,
    builtin_actors: &Cid,
    init_state: &InitState,
) -> (r: Result<(), TesterError>)
    requires
        old(tree).fresh(),
        forall|id: u64| #[trigger]
            old(tree).actor(id) == Ok::<Option<ActorView>, ActorFailure>(None),
        init_state@ == crate::init_actor::new_test_state(),
    ensures
        final(tree).inv(),
        StateTree::continues(final(tree), old(tree)),
        match r {
            Ok(()) => {
                let key = block_cid_bytes(
                    DAG_CBOR,
                    crate::init_actor::state_encoding(crate::init_actor::new_test_state()),
                );
                &&& first_actors_shown(
                    final(tree),
                    system_code@,
                    init_code@,
                    eam_code@,
                    builtin_actors@,
                )
                &&& final(tree).blocks().contains_key(key)
                &&& final(tree).blocks()[key] == crate::init_actor::state_encoding(
                    crate::init_actor::new_test_state(),
                )
            },
            Err(e) => e is State,
        },
{
    let mut sys_state: Vec<u8> = Vec::new();
    write_head(&mut sys_state, MAJOR_ARRAY, 1);
    write_link(&mut sys_state, builtin_actors);
    assert(sys_state@ =~= system_state(builtin_actors@));
    let mut eam_state: Vec<u8> = Vec::new();
    write_head(&mut eam_state, MAJOR_ARRAY, 0);
    assert(eam_state@ =~= empty_state());
    let init_bytes = init_state.encode();
    let ghost fresh = *tree;
    match set_up(tree, SYSTEM_ACTOR_ID, system_code, sys_state.as_slice()) {
        Ok(()) => {},
        Err(e) => {
            return Err(e);
        },
    }
    let ghost first = *tree;
    match set_up(tree, INIT_ACTOR_ID, init_code, init_bytes.as_slice()) {
        Ok(()) => {},
        Err(e) => {
            proof {
                StateTree::lemma_continues_trans(tree, &first, &fresh);
            }
            return Err(e);
        },
    }
    let ghost second = *tree;
    proof {
        StateTree::lemma_continues_trans(&second, &first, &fresh);
    }
    match set_up(tree, EAM_ACTOR_ID, eam_code, eam_state.as_slice()) {
        Ok(()) => {},
        Err(e) => {
            proof {
                StateTree::lemma_continues_trans(tree, &second, &fresh);
            }
            return Err(e);
        },
    }
    proof {
        StateTree::lemma_continues_trans(tree, &second, &fresh);
        let key = block_cid_bytes(
            DAG_CBOR,
            crate::init_actor::state_encoding(crate::init_actor::new_test_state()),
        );
        assert(second.blocks().contains_key(key));
        assert(second.blocks().submap_of(tree.blocks()));
        assert(second.blocks().dom().contains(key));
        assert(tree.blocks().contains_key(key) && tree.blocks()[key] == second.blocks()[key]);
        assert forall|id: u64|
            id != SYSTEM_ACTOR_ID && id != INIT_ACTOR_ID && id != EAM_ACTOR_ID implies #[trigger]
            tree.actor(id) == Ok::<Option<ActorView>, ActorFailure>(None) by {
            assert(fresh.actor(id) == Ok::<Option<ActorView>, ActorFailure>(None));
            assert(first.actor(id) == fresh.actor(id));
            assert(second.actor(id) == first.actor(id));
        }
        assert(first.actor(INIT_ACTOR_ID) == fresh.actor(INIT_ACTOR_ID));
        assert(second.actor(SYSTEM_ACTOR_ID) == first.actor(SYSTEM_ACTOR_ID));
        assert(tree.actor(SYSTEM_ACTOR_ID) == second.actor(SYSTEM_ACTOR_ID));
        assert(tree.actor(INIT_ACTOR_ID) == second.actor(INIT_ACTOR_ID));
    }
    Ok(())
}

/// In a tree that shows the actor that gives identifiers to addresses with
/// the state in which none has been given, no address has an identifier.
proof fn lemma_init_in_place<S: Store>(
    tree: &StateTree<S>,
    init_code: Seq<u8>,
    mapped: Map<Seq<u8>, Seq<u8>>,
)
    requires
        mapped.submap_of(tree.blocks()),
        forall|address: Seq<u8>| #[trigger]
            crate::init_actor::resolves(
                mapped,
                crate::init_actor::new_test_state().address_map,
                address,
            ) == Ok::<Option<u64>, crate::init_actor::ResolveFailure>(None),
        crate::cid::is_cid(crate::init_actor::new_test_state().address_map),
        tree.actor(INIT_ACTOR_ID) == Ok::<Option<ActorView>, ActorFailure>(
            Some(
                plain_actor(
                    init_code,
                    crate::init_actor::state_encoding(crate::init_actor::new_test_state()),
                ),
            ),
        ),
        tree.blocks().contains_key(
            block_cid_bytes(
                DAG_CBOR,
                crate::init_actor::state_encoding(crate::init_actor::new_test_state()),
            ),
        ),
        tree.blocks()[block_cid_bytes(
            DAG_CBOR,
            crate::init_actor::state_encoding(crate::init_actor::new_test_state()),
        )] == crate::init_actor::state_encoding(crate::init_actor::new_test_state()),
    ensures
        tree.init_state() == Ok::<crate::init_actor::StateView, crate::state_tree::InitFailure>(
            crate::init_actor::new_test_state(),
        ),
        forall|address: Seq<u8>| #[trigger]
            tree.init_resolves(address) == Ok::<Option<u64>, crate::state_tree::InitFailure>(None),
{
    let state = crate::init_actor::new_test_state();
    crate::init_actor::lemma_state_round_trip(state);
    assert forall|address: Seq<u8>| #[trigger]
        tree.init_resolves(address) == Ok::<Option<u64>, crate::state_tree::InitFailure>(
            None,
        ) by {
        crate::init_actor::lemma_resolves_grow(mapped, tree.blocks(), state.address_map, address);
    }
}

/// The harness.
pub struct Tester<S: Store> {
    /// The code of account actors.
    pub accounts_code_cid: Cid,
    /// The code of placeholder actors.
    pub placeholder_code_cid: Cid,
    /// The codes that were deployed.
    pub code_cids: Vec<Cid>,
    /// The state tree that is populated, until it is given away.
    pub state_tree: Option<StateTree<S>>,
}

impl<S: Store> Tester<S> {
    /// The code of account actors.
    pub open spec fn accounts_code(&self) -> Seq<u8> {
        self.accounts_code_cid@
    }

    /// The code of placeholder actors.
    pub open spec fn placeholder_code(&self) -> Seq<u8> {
        self.placeholder_code_cid@
    }

    /// The codes that were deployed, in their order.
    pub open spec fn codes(&self) -> Seq<Seq<u8>> {
        Seq::new(self.code_cids@.len(), |i: int| self.code_cids@[i]@)
    }

    /// The state tree.
    pub open spec fn tree(&self) -> StateTree<S> {
        self.state_tree->Some_0
    }

    /// The invariant of the harness: that of its state tree.
    pub open spec fn inv(&self) -> bool {
        self.state_tree matches Some(t) ==> t.inv()
    }

    /// Whether the harness has the codes that `other` has.
    pub open spec fn same_codes(&self, other: &Self) -> bool {
        &&& self.accounts_code() == other.accounts_code()
        &&& self.placeholder_code() == other.placeholder_code()
        &&& self.codes() == other.codes()
    }

    /// Whether the harness is a new one over a store that held `blocks`,
    /// for the built-in actors under `builtin_actors`. Its codes are those
    /// of the manifest and none has been deployed. Its state tree is idle
    /// and shows three actors and no other: the system actor, whose state
    /// links to the built-in actors; the actor that gives identifiers to
    /// addresses, which has given none; and the actor that manages
    /// addresses, which has an empty state.
    pub open spec fn is_new(
        &self,
        blocks: Map<Seq<u8>, Seq<u8>>,
        builtin_actors: Seq<u8>,
    ) -> bool {
        &&& self.inv()
        &&& self.state_tree is Some
        &&& self.codes().len() == 0
        &&& !self.tree().within_transaction()
        &&& blocks.submap_of(self.tree().blocks())
        &&& stored_manifest(blocks, builtin_actors) matches Some(entries) && {
            &&& code_named(entries, Builtin::Account.text()) == Some(self.accounts_code())
            &&& code_named(entries, Builtin::Placeholder.text()) == Some(self.placeholder_code())
            &&& first_actors_shown(
                &self.tree(),
                code_named(entries, Builtin::System.text())->Some_0,
                code_named(entries, Builtin::Init.text())->Some_0,
                code_named(entries, Builtin::Eam.text())->Some_0,
                builtin_actors,
            )
        }
        &&& self.tree().init_state() == Ok::<
            crate::init_actor::StateView,
            crate::state_tree::InitFailure,
        >(crate::init_actor::new_test_state())
        &&& forall|address: Seq<u8>| #[trigger]
            self.tree().init_resolves(address) == Ok::<
                Option<u64>,
                crate::state_tree::InitFailure,
            >(None)
    }

    /// What making a harness promises: a new harness, or why there is
    /// none. The manifest comes first, then the trie of addresses, then the
    /// state tree, then the states of the actors.
    pub open spec fn new_post(
        stv: StateTreeVersion,
        builtin_actors: Seq<u8>,
        blocks: Map<Seq<u8>, Seq<u8>>,
        r: Result<Self, TesterError>,
    ) -> bool {
        match r {
            Ok(t) => stv.supported() && t.is_new(blocks, builtin_actors),
            Err(TesterError::AddressMap(_)) => stored_manifest(blocks, builtin_actors) is Some,
            Err(TesterError::Tree(e)) => stored_manifest(blocks, builtin_actors) is Some && (
            e matches ExecutionError::Fatal(f) && match f {
                crate::error::Fatal::UnsupportedVersion(n) => !stv.supported() && n == stv.number(),
                crate::error::Fatal::PutStateInfo(_) => stv.supported(),
                _ => false,
            }),
            Err(TesterError::State(_)) => stv.supported() && stored_manifest(blocks, builtin_actors)
                is Some,
            Err(TesterError::NoStateTree) => false,
            Err(TesterError::NoSuchAccount(_)) => false,
            Err(TesterError::InvalidKey) => false,
            Err(e) => codes_post(blocks, builtin_actors, Err::<Manifest, TesterError>(e)),
        }
    }

    /// A harness over `blockstore`, which holds the built-in actors under
    /// `builtin_actors`, with a state tree of the given version in which
    /// the first actors are in place.
    pub fn new(stv: StateTreeVersion, builtin_actors: Cid, blockstore: S) -> (r: Result<
        Self,
        TesterError,
    >)
        ensures
            Self::new_post(stv, builtin_actors@, blockstore.blocks(), r),
    {
        let mut blockstore = blockstore;
        let ghost blocks = blockstore.blocks();
        let manifest = match load_codes(&blockstore, &builtin_actors) {
            Ok(m) => m,
            Err(e) => {
                return Err(e);
            },
        };
        let ghost entries = stored_manifest(blocks, builtin_actors@)->Some_0;
        let sys_code_cid = manifest.get_system_code().clone();
        let init_code_cid = manifest.get_init_code().clone();
        let eam_code_cid = manifest.get_eam_code().clone();
        let accounts_code_cid = manifest.get_account_code().clone();
        let placeholder_code_cid = manifest.get_placeholder_code().clone();
        proof {
            assert(code_named(entries, Builtin::System.text()) == Some(sys_code_cid@));
            assert(code_named(entries, Builtin::Init.text()) == Some(init_code_cid@));
            assert(code_named(entries, Builtin::Eam.text()) == Some(eam_code_cid@));
            assert(code_named(entries, Builtin::Account.text()) == Some(accounts_code_cid@));
            assert(code_named(entries, Builtin::Placeholder.text()) == Some(
                placeholder_code_cid@,
            ));
        }
        let init_state = match InitState::new_test(&mut blockstore) {
            Ok(state) => state,
            Err(e) => {
                return Err(TesterError::AddressMap(e));
            },
        };
        let ghost mapped = blockstore.blocks();
        let _ = init_state.address_map.as_bytes();
        let mut state_tree = match StateTree::new(blockstore, stv) {
            Ok(t) => t,
            Err(e) => {
                return Err(TesterError::Tree(e));
            },
        };
        let ghost fresh = state_tree;
        match first_actors(
            &mut state_tree,
            sys_code_cid,
            init_code_cid,
            eam_code_cid,
            &builtin_actors,
            &init_state,
        ) {
            Ok(()) => {},
            Err(e) => {
                return Err(e);
            },
        }
        proof {
            vstd::map_lib::lemma_submap_of_trans(blocks, mapped, fresh.blocks());
            vstd::map_lib::lemma_submap_of_trans(blocks, fresh.blocks(), state_tree.blocks());
            vstd::map_lib::lemma_submap_of_trans(mapped, fresh.blocks(), state_tree.blocks());
            lemma_init_in_place(&state_tree, init_code_cid@, mapped);
        }
        let t = Tester {
            accounts_code_cid,
            placeholder_code_cid,
            code_cids: Vec::new(),
            state_tree: Some(state_tree),
        };
        proof {
            assert(t.codes() =~= Seq::<Seq<u8>>::empty());
        }
        Ok(t)
    }

    /// The store of the state tree.
    pub fn blockstore(&self) -> (s: &S)
        requires
            self.state_tree is Some,
        ensures
            *s == self.tree().store_model(),
    {
        match &self.state_tree {
            Some(t) => t.store(),
            None => vstd::pervasive::unreached(),
        }
    }

    /// Puts an encoded state in the store and returns its identifier.
    pub fn set_state(&mut self, state: &[u8]) -> (r: Result<Cid, TesterError>)
        requires
            old(self).inv(),
            old(self).state_tree is Some,
        ensures
            final(self).inv(),
            final(self).state_tree is Some,
            final(self).same_codes(old(self)),
            match r {
                Ok(cid) => StateTree::block_post(
                    &old(self).tree(),
                    &final(self).tree(),
                    DAG_CBOR,
                    state@,
                    Ok::<Cid, PutError>(cid),
                ),
                Err(TesterError::State(e)) => StateTree::block_post(
                    &old(self).tree(),
                    &final(self).tree(),
                    DAG_CBOR,
                    state@,
                    Err::<Cid, PutError>(e),
                ),
                Err(_) => false,
            },
    {
        match &mut self.state_tree {
            Some(t) => match t.put_block(DAG_CBOR, state) {
                Ok(cid) => Ok(cid),
                Err(e) => Err(TesterError::State(e)),
            },
            None => vstd::pervasive::unreached(),
        }
    }

    /// What setting the sequence of an account promises: the tree shows the
    /// account with the new sequence and every other actor as it did. It
    /// fails where the harness has no state tree, where there is no such
    /// account, where the lookup fails and where changes are refused.
    pub open spec fn sequence_post(
        before: &Self,
        after: &Self,
        id: u64,
        new_sequence: u64,
        r: Result<(), TesterError>,
    ) -> bool {
        &&& after.inv()
        &&& after.same_codes(before)
        &&& after.state_tree is Some == before.state_tree is Some
        &&& match r {
            Ok(()) => {
                &&& before.state_tree is Some
                &&& !before.tree().read_only()
                &&& before.tree().actor(id) matches Ok(Some(a)) && after.tree().actor(id) == Ok::<
                    Option<ActorView>,
                    ActorFailure,
                >(Some(ActorView { sequence: new_sequence, ..a }))
                &&& forall|j: u64|
                    j != id ==> #[trigger] after.tree().actor(j) == before.tree().actor(j)
            },
            Err(TesterError::NoStateTree) => before.state_tree is None,
            Err(TesterError::NoSuchAccount(i)) => i == id && before.state_tree is Some
                && before.tree().actor(id) == Ok::<Option<ActorView>, ActorFailure>(None)
                && StateTree::same_actors(&after.tree(), &before.tree()),
            Err(TesterError::Tree(e)) => before.state_tree is Some && StateTree::same_actors(
                &after.tree(),
                &before.tree(),
            ) && (StateTree::lookup_failed(&before.tree(), id, e) || (before.tree().read_only() && (
            before.tree().actor(id) matches Ok(Some(_))) && (e matches ExecutionError::Syscall(s)
                && s.number == ErrorNumber::ReadOnly))),
            Err(_) => false,
        }
    }

    /// Sets the sequence of an account.
    pub fn set_account_sequence(&mut self, id: u64, new_sequence: u64) -> (r: Result<
        (),
        TesterError,
    >)
        requires
            old(self).inv(),
        ensures
            Self::sequence_post(old(self), final(self), id, new_sequence, r),
    {
        let state_tree = match &mut self.state_tree {
            Some(t) => t,
            None => {
                return Err(TesterError::NoStateTree);
            },
        };
        let ghost before = *state_tree;
        let mut state = match state_tree.get_actor(id) {
            Ok(Some(state)) => state,
            Ok(None) => {
                return Err(TesterError::NoSuchAccount(id));
            },
            Err(e) => {
                return Err(TesterError::Tree(e));
            },
        };
        state.sequence = new_sequence;
        match state_tree.set_actor(id, state) {
            Ok(()) => Ok(()),
            Err(e) => Err(TesterError::Tree(e)),
        }
    }

    /// Whether `after` has come from `before` by registering `address`,
    /// which was given `id`, putting the block `state`, and setting `actor`,
    /// whose state the block is, as the actor with that identifier.
    pub open spec fn registered(
        before: &StateTree<S>,
        after: &StateTree<S>,
        address: Seq<u8>,
        id: u64,
        state: Seq<u8>,
        actor: ActorView,
    ) -> bool {
        exists|registered: StateTree<S>, stored: StateTree<S>, cid: Cid|
            StateTree::register_post(before, &registered, address, Ok::<u64, ExecutionError>(id))
                && #[trigger] StateTree::block_post(
                &registered,
                &stored,
                DAG_CBOR,
                state,
                Ok::<Cid, PutError>(cid),
            ) && actor.state == cid@ && StateTree::set_post(
                &stored,
                after,
                id,
                Some(actor),
                Ok::<(), ExecutionError>(()),
            )
    }

    /// Whether `after` has come from `before` by registering `address` and
    /// failing with `e` to put the block `state`.
    pub open spec fn registered_only(
        before: &StateTree<S>,
        after: &StateTree<S>,
        address: Seq<u8>,
        state: Seq<u8>,
        e: PutError,
    ) -> bool {
        exists|registered: StateTree<S>, id: u64| #[trigger]
            StateTree::register_post(before, &registered, address, Ok::<u64, ExecutionError>(id))
                && StateTree::block_post(
                &registered,
                after,
                DAG_CBOR,
                state,
                Err::<Cid, PutError>(e),
            )
    }

    /// What making an actor at a new address promises. On success the
    /// address was registered, the state was put and the actor was set
    /// under the identifier that the address was given. It fails where the
    /// harness has no state tree, where the address cannot be registered,
    /// and where the state cannot be put.
    pub open spec fn made_post(
        before: &Self,
        after: &Self,
        address: Seq<u8>,
        state: Seq<u8>,
        actor: ActorView,
        r: Result<u64, TesterError>,
    ) -> bool {
        &&& after.inv()
        &&& after.same_codes(before)
        &&& after.state_tree is Some == before.state_tree is Some
        &&& match r {
            Ok(id) => before.state_tree is Some && Self::registered(
                &before.tree(),
                &after.tree(),
                address,
                id,
                state,
                (ActorView { state: block_cid_bytes(DAG_CBOR, state), ..actor }),
            ),
            Err(TesterError::NoStateTree) => before.state_tree is None,
            Err(TesterError::Tree(e)) => before.state_tree is Some && StateTree::register_post(
                &before.tree(),
                &after.tree(),
                address,
                Err::<u64, ExecutionError>(e),
            ),
            Err(TesterError::State(e)) => before.state_tree is Some && Self::registered_only(
                &before.tree(),
                &after.tree(),
                address,
                state,
                e,
            ),
            Err(_) => false,
        }
    }

    /// Registers `address`, puts `state` and sets the actor with the given
    /// code, state, balance and delegated address, which has sent no
    /// message, under the identifier that the address was given.
    fn make_actor(
        &mut self,
        address: &Address,
        state: &[u8],
        code: Cid,
        balance: TokenAmount,
        delegated: Option<Address>,
    ) -> (r: Result<u64, TesterError>)
        requires
            old(self).inv(),
        ensures
            Self::made_post(
                old(self),
                final(self),
                address@,
                state@,
                (ActorView {
                    code: code@,
                    state: Seq::empty(),
                    sequence: 0,
                    balance: balance@,
                    delegated_address: match delegated {
                        Some(a) => Some(a@),
                        None => None,
                    },
                }),
                r,
            ),
    {
        let state_tree = match &mut self.state_tree {
            Some(t) => t,
            None => {
                return Err(TesterError::NoStateTree);
            },
        };
        let ghost before = *state_tree;
        let id = match state_tree.register_new_address(address) {
            Ok(id) => id,
            Err(e) => {
                return Err(TesterError::Tree(e));
            },
        };
        let ghost registered = *state_tree;
        let cid = match state_tree.put_block(DAG_CBOR, state) {
            Ok(cid) => cid,
            Err(e) => {
                assert(Self::registered_only(&before, state_tree, address@, state@, e)) by {
                    assert(StateTree::register_post(
                        &before,
                        &registered,
                        address@,
                        Ok::<u64, ExecutionError>(id),
                    ));
                }
                return Err(TesterError::State(e));
            },
        };
        let ghost stored = *state_tree;
        let actor_state = ActorState::new(code, cid, balance, 0, delegated);
        let ghost actor = actor_state@;
        match state_tree.set_actor(id, actor_state) {
            Ok(()) => {},
            Err(e) => {
                assert(false);
                return Err(TesterError::Tree(e));
            },
        }
        proof {
            assert(StateTree::block_post(
                &registered,
                &stored,
                DAG_CBOR,
                state@,
                Ok::<Cid, PutError>(cid),
            ));
            assert(Self::registered(&before, state_tree, address@, id, state@, actor));
        }
        Ok(id)
    }

    /// Makes a placeholder at a delegated address, with the given tokens.
    pub fn create_placeholder(&mut self, address: &Address, init_balance: TokenAmount) -> (r:
        Result<u64, TesterError>)
        requires
            old(self).inv(),
            address@[0] == PROTOCOL_DELEGATED,
        ensures
            Self::made_post(
                old(self),
                final(self),
                address@,
                placeholder_state(),
                (ActorView {
                    code: old(self).placeholder_code(),
                    state: Seq::empty(),
                    sequence: 0,
                    balance: init_balance@,
                    delegated_address: Some(address@),
                }),
                r,
            ),
    {
        let mut state: Vec<u8> = Vec::new();
        write_head(&mut state, MAJOR_ARRAY, 32);
        let ghost start = state@;
        let mut i: usize = 0;
        while i < 32
            invariant
                i <= 32,
                state@ == start + zeros(i as nat),
            decreases 32 - i,
        {
            state.push(0);
            i = i + 1;
            assert(state@ =~= start + zeros(i as nat));
        }
        assert(state@ =~= placeholder_state());
        let code = self.placeholder_code_cid.clone();
        self.make_actor(address, state.as_slice(), code, init_balance, Some(address.clone()))
    }

    /// Makes an account for the private key, with the given tokens, at the
    /// address made from the public key of the private key. Returns its
    /// identifier and its address.
    pub fn make_secp256k1_account(&mut self, priv_key: &[u8], init_balance: TokenAmount) -> (r:
        Result<Account, TesterError>)
        requires
            old(self).inv(),
        ensures
            match secp_public_key(priv_key@) {
                None => r matches Err(TesterError::InvalidKey) && *final(self) == *old(self),
                Some(public_key) => {
                    let address = crate::address::secp_address(public_key);
                    &&& r matches Ok(account) ==> account.1@ == address
                    &&& Self::made_post(
                        old(self),
                        final(self),
                        address,
                        account_state(address),
                        (ActorView {
                            code: old(self).accounts_code(),
                            state: Seq::empty(),
                            sequence: 0,
                            balance: init_balance@,
                            delegated_address: None,
                        }),
                        match r {
                            Ok(account) => Ok(account.0),
                            Err(e) => Err(e),
                        },
                    )
                },
            },
    {
        let public_key = match public_key_of(priv_key) {
            Some(key) => key,
            None => {
                return Err(TesterError::InvalidKey);
            },
        };
        let address = match Address::new_secp256k1(public_key.as_slice()) {
            Some(address) => address,
            None => {
                assert(false);
                return Err(TesterError::InvalidKey);
            },
        };
        let mut state: Vec<u8> = Vec::new();
        write_head(&mut state, MAJOR_ARRAY, 1);
        write_byte_string(&mut state, address.as_bytes());
        assert(state@ =~= account_state(address@));
        let code = self.accounts_code_cid.clone();
        match self.make_actor(&address, state.as_slice(), code, init_balance, None) {
            Ok(id) => Ok((id, address)),
            Err(e) => Err(e),
        }
    }

    /// Whether `after` has come from `before` by finding the identifier
    /// `id` for `address`: the one that it carries, or else the one that it
    /// is given when it is registered.
    pub open spec fn placed(
        before: &StateTree<S>,
        after: &StateTree<S>,
        address: Seq<u8>,
        id: u64,
    ) -> bool {
        match crate::address::address_id(address) {
            Some(carried) => id == carried && *after == *before,
            None => StateTree::register_post(before, after, address, Ok::<u64, ExecutionError>(id)),
        }
    }

    /// The record of an actor that is deployed at `address`.
    pub open spec fn deployed_actor(
        code: Seq<u8>,
        state: Seq<u8>,
        address: Seq<u8>,
        balance: nat,
    ) -> ActorView {
        ActorView { code, state, sequence: 1, balance, delegated_address: delegated_of(address) }
    }

    /// Whether `after` has come from `before` by finding the identifier
    /// for `address`, putting the code `wasm_bin` and setting the actor
    /// with that code, the given state and the given tokens.
    pub open spec fn deployed(
        before: &StateTree<S>,
        after: &StateTree<S>,
        wasm_bin: Seq<u8>,
        state: Seq<u8>,
        address: Seq<u8>,
        balance: nat,
        cid: Cid,
    ) -> bool {
        exists|found: StateTree<S>, stored: StateTree<S>, id: u64|
            #![trigger
                Self::placed(before, &found, address, id),
                StateTree::block_post(&found, &stored, IPLD_RAW, wasm_bin, Ok::<Cid, PutError>(cid)),
            ]
            Self::placed(before, &found, address, id) && StateTree::block_post(
                &found,
                &stored,
                IPLD_RAW,
                wasm_bin,
                Ok::<Cid, PutError>(cid),
            ) && StateTree::set_post(
                &stored,
                after,
                id,
                Some(Self::deployed_actor(cid@, state, address, balance)),
                Ok::<(), ExecutionError>(()),
            )
    }

    /// Whether `after` has come from `before` by finding the identifier
    /// for `address` and putting the code `wasm_bin`, or failing to.
    pub open spec fn code_put(
        before: &StateTree<S>,
        after: &StateTree<S>,
        wasm_bin: Seq<u8>,
        address: Seq<u8>,
        r: Result<Cid, PutError>,
    ) -> bool {
        exists|found: StateTree<S>, id: u64| #[trigger]
            Self::placed(before, &found, address, id) && StateTree::block_post(
                &found,
                after,
                IPLD_RAW,
                wasm_bin,
                r,
            )
    }

    /// What deploying an actor promises. On success the identifier for the
    /// address was found, the code was put in the store, its identifier was
    /// added to the codes that were deployed and is returned, and the actor
    /// was set. Where the address cannot be registered or the code cannot
    /// be put, no code is added; where the actor cannot be set, because
    /// changes are refused, the code has been added.
    pub open spec fn deploy_post(
        before: &Self,
        after: &Self,
        wasm_bin: Seq<u8>,
        state: Seq<u8>,
        address: Seq<u8>,
        balance: nat,
        r: Result<Cid, TesterError>,
    ) -> bool {
        let code = block_cid_bytes(IPLD_RAW, wasm_bin);
        &&& after.inv()
        &&& after.state_tree is Some
        &&& after.accounts_code() == before.accounts_code()
        &&& after.placeholder_code() == before.placeholder_code()
        &&& match r {
            Ok(cid) => {
                &&& cid@ == code
                &&& after.codes() == before.codes().push(code)
                &&& Self::deployed(
                    &before.tree(),
                    &after.tree(),
                    wasm_bin,
                    state,
                    address,
                    balance,
                    cid,
                )
            },
            Err(TesterError::State(e)) => {
                &&& after.codes() == before.codes()
                &&& Self::code_put(
                    &before.tree(),
                    &after.tree(),
                    wasm_bin,
                    address,
                    Err::<Cid, PutError>(e),
                )
            },
            Err(TesterError::Tree(e)) => {
                ||| after.codes() == before.codes() && crate::address::address_id(address) is None
                    && StateTree::register_post(
                    &before.tree(),
                    &after.tree(),
                    address,
                    Err::<u64, ExecutionError>(e),
                )
                ||| after.codes() == before.codes().push(code) && after.tree().read_only() && (
                e matches ExecutionError::Syscall(s) && s.number == ErrorNumber::ReadOnly)
                    && exists|cid: Cid| #[trigger]
                    Self::code_put(
                        &before.tree(),
                        &after.tree(),
                        wasm_bin,
                        address,
                        Ok::<Cid, PutError>(cid),
                    )
            },
            Err(_) => false,
        }
    }

    /// Deploys an actor with the given code, state and tokens at the given
    /// address, and returns the identifier of its code.
    pub fn set_actor_from_bin(
        &mut self,
        wasm_bin: &[u8],
        state_cid: Cid,
        actor_address: Address,
        balance: TokenAmount,
    ) -> (r: Result<Cid, TesterError>)
        requires
            old(self).inv(),
            old(self).state_tree is Some,
        ensures
            Self::deploy_post(
                old(self),
                final(self),
                wasm_bin@,
                state_cid@,
                actor_address@,
                balance@,
                r,
            ),
    {
        let state_tree = match &mut self.state_tree {
            Some(t) => t,
            None => vstd::pervasive::unreached(),
        };
        let ghost before = *state_tree;
        // The identifier of the actor: that of its address, or a new one.
        let actor_id = match actor_address.id() {
            Some(id) => id,
            None => match state_tree.register_new_address(&actor_address) {
                Ok(id) => id,
                Err(e) => {
                    return Err(TesterError::Tree(e));
                },
            },
        };
        let ghost found = *state_tree;
        assert(Self::placed(&before, &found, actor_address@, actor_id));
        // The code goes into the store.
        let code_cid = match state_tree.put_block(IPLD_RAW, wasm_bin) {
            Ok(cid) => cid,
            Err(e) => {
                assert(Self::code_put(
                    &before,
                    state_tree,
                    wasm_bin@,
                    actor_address@,
                    Err::<Cid, PutError>(e),
                ));
                return Err(TesterError::State(e));
            },
        };
        let ghost stored = *state_tree;
        assert(Self::code_put(
            &before,
            &stored,
            wasm_bin@,
            actor_address@,
            Ok::<Cid, PutError>(code_cid),
        ));
        self.code_cids.push(code_cid.clone());
        let protocol = actor_address.protocol();
        let delegated = if protocol == PROTOCOL_ID || protocol == PROTOCOL_ACTOR {
            None
        } else {
            Some(actor_address)
        };
        let actor_state = ActorState::new(code_cid.clone(), state_cid, balance, 1, delegated);
        assert(actor_state@ == Self::deployed_actor(
            code_cid@,
            state_cid@,
            actor_address@,
            balance@,
        ));
        match state_tree.set_actor(actor_id, actor_state) {
            Ok(()) => {},
            Err(e) => {
                assert(self.codes() =~= old(self).codes().push(code_cid@));
                assert(self.tree() == stored);
                assert(Self::code_put(
                    &old(self).tree(),
                    &self.tree(),
                    wasm_bin@,
                    actor_address@,
                    Ok::<Cid, PutError>(code_cid),
                ));
                assert(Self::deploy_post(
                    old(self),
                    self,
                    wasm_bin@,
                    state_cid@,
                    actor_address@,
                    balance@,
                    Err::<Cid, TesterError>(TesterError::Tree(e)),
                ));
                return Err(TesterError::Tree(e));
            },
        }
        proof {
            assert(self.codes() =~= old(self).codes().push(code_cid@));
            assert(StateTree::block_post(
                &found,
                &stored,
                IPLD_RAW,
                wasm_bin@,
                Ok::<Cid, PutError>(code_cid),
            ));
            assert(Self::deployed(
                &before,
                &self.tree(),
                wasm_bin@,
                state_cid@,
                actor_address@,
                balance@,
                code_cid,
            ));
        }
        Ok(code_cid)
    }

    /// The record of a new account with the given code at `address`.
    pub open spec fn new_account(code: Seq<u8>, address: Seq<u8>) -> ActorView {
        ActorView {
            code,
            state: block_cid_bytes(DAG_CBOR, account_state(address)),
            sequence: 0,
            balance: INITIAL_ACCOUNT_BALANCE as nat,
            delegated_address: None,
        }
    }

    /// Whether `trees` are the state trees that the harness had while the
    /// accounts were made one after the other, each at its address and
    /// under the identifier that its address was given.
    pub open spec fn accounts_made(
        trees: Seq<StateTree<S>>,
        accounts: Seq<Account>,
        code: Seq<u8>,
    ) -> bool {
        &&& trees.len() == accounts.len() + 1
        &&& forall|i: int|
            0 <= i < accounts.len() ==> Self::registered(
                &trees[i],
                &trees[i + 1],
                (#[trigger] accounts[i]).1@,
                accounts[i].0,
                account_state(accounts[i].1@),
                Self::new_account(code, accounts[i].1@),
            )
    }

    /// The record that is asked for a new account with the given code,
    /// before its state is put.
    pub open spec fn account_asked(code: Seq<u8>) -> ActorView {
        ActorView {
            code,
            state: Seq::empty(),
            sequence: 0,
            balance: INITIAL_ACCOUNT_BALANCE as nat,
            delegated_address: None,
        }
    }

    /// Whether all of the accounts were made, one after the other, between
    /// `before` and `after`.
    pub open spec fn accounts_done(before: &Self, after: &Self, accounts: Seq<Account>) -> bool {
        exists|trees: Seq<StateTree<S>>|
            trees[0] == before.tree() && trees.last() == after.tree()
                && #[trigger] Self::accounts_made(trees, accounts, before.accounts_code())
    }

    /// Whether fewer than `count` accounts were made, one after the other,
    /// and the making of the next, at some address made from a private
    /// key, then failed with `e` and left the harness as `after`.
    pub open spec fn accounts_failed(before: &Self, after: &Self, count: nat, e: TesterError)
        -> bool {
        exists|trees: Seq<StateTree<S>>, made: Seq<Account>, mid: Self, address: Seq<u8>|
            #![trigger
                Self::accounts_made(trees, made, before.accounts_code()),
                Self::made_post(
                    &mid,
                    after,
                    address,
                    account_state(address),
                    Self::account_asked(before.accounts_code()),
                    Err::<u64, TesterError>(e),
                ),
            ]
            made.len() < count && mid.inv() && mid.same_codes(before) && (mid.state_tree is Some)
                == (before.state_tree is Some) && trees[0] == before.tree() && trees.last()
                == mid.tree() && Self::accounts_made(trees, made, before.accounts_code())
                && Self::made_post(
                &mid,
                after,
                address,
                account_state(address),
                Self::account_asked(before.accounts_code()),
                Err::<u64, TesterError>(e),
            )
    }

    /// Makes `N` accounts, each with the initial tokens, for private keys
    /// that are drawn with a fixed seed. Returns their identifiers and
    /// addresses.
    ///
    /// To make no account always succeeds, and without a state tree the
    /// first cannot be made. Otherwise the accounts are made one after the
    /// other for whatever keys are drawn, each registered at the address of
    /// its key, until all are made or the making of one fails: the failure
    /// is that of the state tree or of the store at that account, and the
    /// accounts before it stay made.
    pub fn create_accounts<const N: usize>(&mut self) -> (r: Result<Vec<Account>, TesterError>)
        requires
            old(self).inv(),
        ensures
            final(self).inv(),
            final(self).same_codes(old(self)),
            final(self).state_tree is Some == old(self).state_tree is Some,
            N == 0 ==> r is Ok,
            N > 0 && old(self).state_tree is None ==> r matches Err(TesterError::NoStateTree),
            match r {
                Ok(accounts) => accounts@.len() == N && Self::accounts_done(
                    old(self),
                    final(self),
                    accounts@,
                ),
                Err(e) => Self::accounts_failed(old(self), final(self), N as nat, e),
            },
    {
        let mut rng = seeded(ACCOUNTS_SEED);
        let mut ret: Vec<Account> = Vec::new();
        let ghost mut trees: Seq<StateTree<S>> = seq![self.tree()];
        let mut i: usize = 0;
        while i < N
            invariant
                i <= N,
                ret@.len() == i,
                self.inv(),
                self.same_codes(old(self)),
                self.state_tree is Some == old(self).state_tree is Some,
                i > 0 ==> old(self).state_tree is Some,
                trees[0] == old(self).tree(),
                trees.last() == self.tree(),
                Self::accounts_made(trees, ret@, old(self).accounts_code()),
            decreases N - i,
        {
            let priv_key = random_secret(&mut rng);
            let ghost before = *self;
            let account = match self.make_secp256k1_account(
                priv_key.as_slice(),
                TokenAmount::from_atto(INITIAL_ACCOUNT_BALANCE),
            ) {
                Ok(account) => account,
                Err(e) => {
                    proof {
                        let address = crate::address::secp_address(
                            secp_public_key(priv_key@)->Some_0,
                        );
                        assert(Self::made_post(
                            &before,
                            self,
                            address,
                            account_state(address),
                            Self::account_asked(old(self).accounts_code()),
                            Err::<u64, TesterError>(e),
                        ));
                        assert(Self::accounts_failed(old(self), self, N as nat, e));
                    }
                    return Err(e);
                },
            };
            proof {
                let earlier = trees;
                let made = ret@;
                trees = trees.push(self.tree());
                let now = made.push(account);
                assert forall|j: int| 0 <= j < now.len() implies Self::registered(
                    &trees[j],
                    &trees[j + 1],
                    (#[trigger] now[j]).1@,
                    now[j].0,
                    account_state(now[j].1@),
                    Self::new_account(old(self).accounts_code(), now[j].1@),
                ) by {
                    if j < made.len() {
                        assert(now[j] == made[j]);
                        assert(trees[j] == earlier[j] && trees[j + 1] == earlier[j + 1]);
                    } else {
                        assert(trees[j] == before.tree());
                    }
                }
            }
            ret.push(account);
            i = i + 1;
        }
        assert(Self::accounts_done(old(self), self, ret@));
        Ok(ret)
    }

    /// Whether writing the state tree `before` gave `r`, and left `store`
    /// as the store of the tree.
    pub open spec fn written(before: &StateTree<S>, store: S, r: Result<Cid, ExecutionError>)
        -> bool {
        exists|flushed: StateTree<S>| #[trigger]
            StateTree::flush_post(before, &flushed, r) && store == flushed.store_model()
    }

    /// Writes the state tree and gives it up for its store: returns the
    /// root of the state and the store, in which the state is. The harness
    /// has no state tree afterwards, also where writing fails.
    pub fn flush_state(&mut self) -> (r: Result<(Cid, S), TesterError>)
        requires
            old(self).inv(),
            old(self).state_tree is Some,
        ensures
            final(self).state_tree is None,
            final(self).same_codes(old(self)),
            match r {
                Ok(done) => Self::written(
                    &old(self).tree(),
                    done.1,
                    Ok::<Cid, ExecutionError>(done.0),
                ),
                Err(TesterError::Tree(e)) => exists|store: S| #[trigger]
                    Self::written(&old(self).tree(), store, Err::<Cid, ExecutionError>(e)),
                Err(_) => false,
            },
    {
        let mut state_tree = match self.state_tree.take() {
            Some(t) => t,
            None => vstd::pervasive::unreached(),
        };
        let ghost before = state_tree;
        let flushed = state_tree.flush();
        let ghost after = state_tree;
        assert(Self::written(&before, after.store_model(), flushed)) by {
            assert(StateTree::flush_post(&before, &after, flushed));
        }
        match flushed {
            Ok(state_root) => {
                let blockstore = state_tree.into_store();
                assert(Self::written(
                    &old(self).tree(),
                    blockstore,
                    Ok::<Cid, ExecutionError>(state_root),
                ));
                Ok((state_root, blockstore))
            },
            Err(e) => {
                assert(Self::written(
                    &old(self).tree(),
                    after.store_model(),
                    Err::<Cid, ExecutionError>(e),
                ));
                Err(TesterError::Tree(e))
            },
        }
    }
}

} // verus!
