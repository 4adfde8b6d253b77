use fvm::actor::ActorState;
use fvm::address::{id_key, Address};
use fvm::amount::TokenAmount;
use fvm::cid::Cid;
use fvm::error::{ExecutionError, Fatal};
use fvm::hamt::ops::Error;
use fvm::hamt::Hamt;
use fvm::init_actor::{encode_id, State as InitState, INIT_ACTOR_ID};
use fvm::kernel::{BlockError, DefaultKernel};
use fvm::manifest::{Manifest, ManifestError};
use fvm::state_tree::StateTree;
use fvm::store::{block_cid, put_block, Guarded, PutError, Store, DAG_CBOR};
use fvm::tester::{Tester, TesterError};
use fvm::version::StateTreeVersion;
use fvm_ipld_blockstore::MemoryBlockstore;
use fvm_ipld_encoding::{from_slice, to_vec};

/// A store over `inner` that gives out the blocks on the list only.
fn kept(inner: MemoryBlockstore, readable: Vec<Cid>) -> Guarded<MemoryBlockstore> {
    Guarded { inner, readable: Some(readable), writable: true }
}

/// A store over `inner` that takes no blocks.
fn closed(inner: MemoryBlockstore) -> Guarded<MemoryBlockstore> {
    Guarded { inner, readable: None, writable: false }
}

/// The links of the root of a state tree: to the trie of actors and to the
/// record of the tree.
fn links_of(store: &MemoryBlockstore, root: &Cid) -> (Cid, Cid) {
    let block = store.get(root).unwrap().unwrap();
    let shared: fvm_shared::state::StateRoot = from_slice(&block).unwrap();
    (
        Cid::from_bytes(&shared.actors.to_bytes()).unwrap(),
        Cid::from_bytes(&shared.info.to_bytes()).unwrap(),
    )
}

fn outside(c: &Cid) -> cid::Cid {
    cid::Cid::try_from(c.to_bytes().as_slice()).unwrap()
}

fn code(name: &[u8]) -> Cid {
    Cid::wrapping(0x55, 0, name)
}

fn account(sequence: u64) -> ActorState {
    ActorState::new(code(b"code"), code(b"state"), TokenAmount::from_atto(1), sequence, None)
}

fn secp(fill: u8) -> Address {
    Address::new_secp256k1(&[fill; 65]).unwrap()
}

/// A flushed state tree with many actors, and its root.
fn written_tree() -> (MemoryBlockstore, Cid) {
    let mut tree = StateTree::new(MemoryBlockstore::default(), StateTreeVersion::V5).unwrap();
    for id in 0..200u64 {
        tree.set_actor(id, account(id)).unwrap();
    }
    let root = tree.flush().unwrap();
    (tree.into_store(), root)
}

/// A state tree whose init actor has the given state block.
fn tree_with_init_state(state: Option<Vec<u8>>) -> StateTree<MemoryBlockstore> {
    let mut store = MemoryBlockstore::default();
    let state_cid = match state {
        Some(bytes) => put_block(&mut store, DAG_CBOR, &bytes).unwrap(),
        None => block_cid(DAG_CBOR, b"not in the store"),
    };
    let mut tree = StateTree::new(store, StateTreeVersion::V5).unwrap();
    let init = ActorState::new(code(b"init"), state_cid, TokenAmount::zero(), 0, None);
    tree.set_actor(INIT_ACTOR_ID, init).unwrap();
    tree
}

fn fatal<T>(r: Result<T, ExecutionError>) -> Fatal {
    match r {
        Err(ExecutionError::Fatal(f)) => f,
        Err(other) => panic!("expected a fatal failure, not {:?}", other),
        Ok(_) => panic!("expected a fatal failure"),
    }
}

#[test]
fn a_store_that_takes_no_blocks_fails_what_writes() {
    let mut store = closed(MemoryBlockstore::default());
    assert!(matches!(put_block(&mut store, DAG_CBOR, b"block"), Err(PutError::Store(_))));
    assert!(matches!(InitState::new_test(&mut store), Err(Error::Put(PutError::Store(_)))));
    assert!(matches!(
        fatal(StateTree::new(store, StateTreeVersion::V5)),
        Fatal::PutStateInfo(PutError::Store(_))
    ));

    let mut map = Hamt::new(closed(MemoryBlockstore::default()));
    map.set(b"key", &[0x01]).unwrap();
    assert_eq!(map.get(b"key").unwrap(), Some(vec![0x01]));
    assert!(matches!(map.flush(), Err(Error::Put(PutError::Store(_)))));
    assert_eq!(map.get(b"key").unwrap(), Some(vec![0x01]));

    let (memory, root) = written_tree();
    let mut tree = StateTree::new_from_root(closed(memory), &root).unwrap();
    assert_eq!(tree.flush().unwrap(), root);
    tree.set_actor(1, account(1000)).unwrap();
    assert!(matches!(fatal(tree.flush()), Fatal::Trie(Error::Put(PutError::Store(_)))));
    assert!(matches!(tree.put_block(DAG_CBOR, b"block"), Err(PutError::Store(_))));
    // What was set is still shown, and is written once the store takes it.
    assert_eq!(tree.get_actor(1).unwrap(), Some(account(1000)));
    let mut open = StateTree::new_from_root(tree.into_store().inner, &root).unwrap();
    assert_eq!(open.get_actor(1).unwrap(), Some(account(1)));
    open.set_actor(1, account(1000)).unwrap();
    let next = open.flush().unwrap();
    assert_ne!(next, root);
}

#[test]
fn a_store_that_gives_no_blocks_out_fails_what_reads() {
    let (memory, root) = written_tree();
    let (actors, info) = links_of(&memory, &root);

    // The root is kept.
    let store = kept(memory, vec![]);
    assert!(matches!(fatal(StateTree::new_from_root(store, &root)), Fatal::Store(_)));

    // The nodes below the root of the trie of actors are kept.
    let (memory, _) = written_tree();
    let store = kept(memory, vec![root.clone(), actors.clone(), info]);
    let mut tree = StateTree::new_from_root(store, &root).unwrap();
    match fatal(tree.get_actor(150)) {
        Fatal::ActorLookup(150, Some(Error::Store(_))) => {}
        other => panic!("expected a failure of the store, not {:?}", other),
    }
    assert!(matches!(
        fatal(tree.mutate_actor(151, |a| Ok(a))),
        Fatal::ActorLookup(151, Some(Error::Store(_)))
    ));
    // What is set is shown without the store.
    tree.set_actor(150, account(1)).unwrap();
    assert_eq!(tree.get_actor(150).unwrap(), Some(account(1)));
    let mut open = StateTree::new_from_root(tree.into_store().inner, &root).unwrap();
    assert_eq!(open.get_actor(150).unwrap(), Some(account(150)));

    let mut map = Hamt::new_with_bit_width(MemoryBlockstore::default(), 2);
    for n in 0..100u64 {
        map.set(&n.to_be_bytes(), &[0x01]).unwrap();
    }
    let map_root = map.flush().unwrap();
    let store = kept(map.into_store(), vec![map_root.clone()]);
    let mut loaded = Hamt::load_with_bit_width(&map_root, store, 2).unwrap();
    assert!(matches!(loaded.get(&5u64.to_be_bytes()), Err(Error::Store(_))));
    assert!(matches!(loaded.contains_key(&5u64.to_be_bytes()), Err(Error::Store(_))));
    assert!(matches!(loaded.set(&5u64.to_be_bytes(), &[0x02]), Err(Error::Store(_))));
    assert!(matches!(loaded.delete(&5u64.to_be_bytes()), Err(Error::Store(_))));
    assert!(matches!(loaded.entries(), Err(Error::Store(_))));
    assert!(matches!(loaded.set_root(&block_cid(DAG_CBOR, b"other")), Err(Error::Store(_))));
    let mut open = Hamt::load_with_bit_width(&map_root, loaded.into_store().inner, 2).unwrap();
    assert_eq!(open.get(&5u64.to_be_bytes()).unwrap(), Some(vec![0x01]));
    assert_eq!(open.entries().unwrap().len(), 100);

    let store = kept(MemoryBlockstore::default(), vec![]);
    assert!(matches!(
        Manifest::load(&store, &block_cid(DAG_CBOR, b"entries"), 1),
        Err(ManifestError::Store(_))
    ));
    assert!(matches!(
        Tester::new(StateTreeVersion::V5, block_cid(DAG_CBOR, b"actors"), store),
        Err(TesterError::Store(_))
    ));

    let (memory, root) = written_tree();
    let tree = StateTree::new_from_root(kept(memory, vec![root.clone()]), &root);
    assert!(matches!(fatal(tree), Fatal::LoadTree(Error::Store(_))));
    let tree = StateTree::new(kept(MemoryBlockstore::default(), vec![]), StateTreeVersion::V5);
    assert!(matches!(fatal(tree), Fatal::PutStateInfo(PutError::Store(_))));
    let (memory, root) = written_tree();
    let (actors, _) = links_of(&memory, &root);
    let tree = StateTree::new_from_root(kept(memory, vec![root.clone(), actors]), &root).unwrap();
    let mut kernel = DefaultKernel::new(tree, 1, 2, 0, TokenAmount::zero());
    assert!(matches!(
        kernel.block_open(&block_cid(DAG_CBOR, b"block")),
        Err(BlockError::Internal(_))
    ));
    assert_eq!(kernel.block_open(&root).unwrap(), 1);
}

#[test]
fn what_is_no_actor_in_the_trie_of_actors_is_reported() {
    let mut actors = Hamt::new_with_bit_width(MemoryBlockstore::default(), 5);
    actors.set(&id_key(7), &[0x80]).unwrap();
    actors.set(&id_key(8), &account(8).encode().unwrap()).unwrap();
    let actors_root = actors.flush().unwrap();
    let mut store = actors.into_store();
    let info = put_block(&mut store, DAG_CBOR, &[0x80]).unwrap();
    let root_block = to_vec(&(5u64, outside(&actors_root), outside(&info))).unwrap();
    let root = put_block(&mut store, DAG_CBOR, &root_block).unwrap();
    let mut tree = StateTree::new_from_root(store, &root).unwrap();
    assert_eq!(tree.get_actor(8).unwrap(), Some(account(8)));
    assert!(matches!(fatal(tree.get_actor(7)), Fatal::ActorMalformed(7)));
    assert_eq!(
        ExecutionError::Fatal(Fatal::ActorMalformed(7)).message(),
        "failed to decode actor 7"
    );
    assert_eq!(tree.get_actor(9).unwrap(), None);
}

#[test]
fn a_balance_too_large_to_be_written_fails_the_writing() {
    let mut tree = StateTree::new(MemoryBlockstore::default(), StateTreeVersion::V5).unwrap();
    let huge = TokenAmount::from_bytes_be(&[0xff; 200]);
    let rich = ActorState::new(code(b"code"), code(b"state"), huge, 0, None);
    assert_eq!(rich.encode(), None);
    tree.set_actor(3, rich).unwrap();
    assert!(matches!(fatal(tree.flush()), Fatal::ActorUnwritable(3)));
    // Once the actor is gone the tree is written.
    tree.delete_actor(3).unwrap();
    tree.flush().unwrap();
}

#[test]
fn a_root_that_links_to_no_trie_of_actors_is_not_loaded() {
    let mut store = MemoryBlockstore::default();
    let info = put_block(&mut store, DAG_CBOR, &[0x80]).unwrap();
    let absent = block_cid(DAG_CBOR, b"no trie");
    let root_block = to_vec(&(5u64, outside(&absent), outside(&info))).unwrap();
    let root = put_block(&mut store, DAG_CBOR, &root_block).unwrap();
    assert!(matches!(
        fatal(StateTree::new_from_root(store, &root)),
        Fatal::LoadTree(Error::CidNotFound(_))
    ));

    let mut store = MemoryBlockstore::default();
    let info = put_block(&mut store, DAG_CBOR, &[0x80]).unwrap();
    let no_node = put_block(&mut store, DAG_CBOR, &[0x01]).unwrap();
    let root_block = to_vec(&(5u64, outside(&no_node), outside(&info))).unwrap();
    let root = put_block(&mut store, DAG_CBOR, &root_block).unwrap();
    assert!(matches!(
        fatal(StateTree::new_from_root(store, &root)),
        Fatal::LoadTree(Error::Malformed(_))
    ));
}

#[test]
fn addresses_are_not_resolved_without_the_actor_that_gives_identifiers() {
    let mut tree = StateTree::new(MemoryBlockstore::default(), StateTreeVersion::V5).unwrap();
    assert!(matches!(fatal(tree.lookup_id(&secp(1))), Fatal::InitActorMissing));
    assert!(matches!(fatal(tree.register_new_address(&secp(1))), Fatal::InitActorMissing));
    // An address that carries its identifier needs no resolving.
    assert_eq!(tree.lookup_id(&Address::new_id(5)).unwrap(), Some(5));

    let mut tree = tree_with_init_state(None);
    assert!(matches!(fatal(tree.lookup_id(&secp(1))), Fatal::InitStateMissing(_)));
    assert!(matches!(fatal(tree.register_new_address(&secp(1))), Fatal::InitStateMissing(_)));

    let mut tree = tree_with_init_state(Some(vec![0x80]));
    assert!(matches!(fatal(tree.lookup_id(&secp(1))), Fatal::InitStateMalformed(_)));
    assert!(matches!(fatal(tree.register_new_address(&secp(1))), Fatal::InitStateMalformed(_)));
}

#[test]
fn a_trie_of_addresses_that_holds_no_identifier_is_reported() {
    let mut addresses = Hamt::new_with_bit_width(MemoryBlockstore::default(), 5);
    addresses.set(&secp(1).to_bytes(), &[0x80]).unwrap();
    addresses.set(&secp(2).to_bytes(), &encode_id(77)).unwrap();
    let address_map = addresses.flush().unwrap();
    let mut store = addresses.into_store();
    let state = InitState { address_map, next_id: u64::MAX, network_name: b"test".to_vec() };
    let state_cid = put_block(&mut store, DAG_CBOR, &state.encode()).unwrap();
    let mut tree = StateTree::new(store, StateTreeVersion::V5).unwrap();
    let init = ActorState::new(code(b"init"), state_cid, TokenAmount::zero(), 0, None);
    tree.set_actor(INIT_ACTOR_ID, init).unwrap();

    assert_eq!(tree.lookup_id(&secp(2)).unwrap(), Some(77));
    assert_eq!(tree.lookup_id(&secp(3)).unwrap(), None);
    assert!(matches!(fatal(tree.lookup_id(&secp(1))), Fatal::AddressMalformed));
    // The last identifier has been given.
    assert!(matches!(fatal(tree.register_new_address(&secp(3))), Fatal::IdentifiersExhausted));
    assert_eq!(tree.lookup_id(&secp(3)).unwrap(), None);
}

#[test]
fn a_harness_over_a_store_that_takes_no_blocks_makes_nothing() {
    let names = [
        "system",
        "init",
        "eam",
        "ethaccount",
        "account",
        "placeholder",
        "storagemarket",
        "storagepower",
        "datacap",
        "verifiedregistry",
        "reward",
    ];
    let mut memory = MemoryBlockstore::default();
    let entries: Vec<(String, cid::Cid)> =
        names.iter().map(|name| (name.to_string(), outside(&code(name.as_bytes())))).collect();
    let data = put_block(&mut memory, DAG_CBOR, &to_vec(&entries).unwrap()).unwrap();
    let info = to_vec(&(1u32, outside(&data))).unwrap();
    let builtin_actors = put_block(&mut memory, DAG_CBOR, &info).unwrap();
    assert!(matches!(
        Tester::new(StateTreeVersion::V5, builtin_actors, closed(memory)),
        Err(TesterError::AddressMap(Error::Put(PutError::Store(_))))
    ));

    let (memory, root) = written_tree();
    let tree = StateTree::new_from_root(closed(memory), &root).unwrap();
    let mut harness = Tester {
        accounts_code_cid: code(b"account"),
        placeholder_code_cid: code(b"placeholder"),
        code_cids: Vec::new(),
        state_tree: Some(tree),
    };
    // A block that the store holds needs no writing.
    assert_eq!(harness.set_state(&[0x80]).unwrap(), block_cid(DAG_CBOR, &[0x80]));
    assert!(matches!(
        harness.set_state(&[0x81, 0x01]),
        Err(TesterError::State(PutError::Store(_)))
    ));
    assert!(matches!(
        harness.set_actor_from_bin(b"wasm", code(b"state"), Address::new_id(300), TokenAmount::zero()),
        Err(TesterError::State(PutError::Store(_)))
    ));
    assert!(harness.code_cids.is_empty());
    assert_eq!(harness.state_tree.as_mut().unwrap().get_actor(300).unwrap(), None);
    // The sequence of an account is set without the store.
    harness.set_account_sequence(5, 50).unwrap();
    assert_eq!(harness.state_tree.as_mut().unwrap().get_actor(5).unwrap(), Some(account(50)));
}
