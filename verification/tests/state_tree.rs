use cid::multihash::Multihash;
use fvm::actor::ActorState;
use fvm::address::Address;
use fvm::amount::TokenAmount;
use fvm::cid::Cid;
use fvm::error::{ErrorNumber, ExecutionError};
use fvm::history_map::HistoryMap;
use fvm::init_actor::{State as InitState, INIT_ACTOR_ID};
use fvm::state_tree::StateTree;
use fvm::store::{put_block, DAG_CBOR};
use fvm::version::StateTreeVersion;
use fvm_ipld_blockstore::MemoryBlockstore;
use fvm_shared::address::SECP_PUB_LEN;
use fvm_shared::{IDENTITY_HASH, IPLD_RAW};

fn lib_cid(c: cid::Cid) -> Cid {
    Cid::from_bytes(&c.to_bytes()).unwrap()
}

fn dummy_account_actor_code_id() -> Cid {
    lib_cid(cid::Cid::new_v1(
        IPLD_RAW,
        Multihash::wrap(IDENTITY_HASH, b"fil/test/dummyaccount").unwrap(),
    ))
}

fn dummy_init_actor_code_id() -> Cid {
    lib_cid(cid::Cid::new_v1(
        IPLD_RAW,
        Multihash::wrap(IDENTITY_HASH, b"fil/test/dummyinit").unwrap(),
    ))
}

fn empty_cid() -> Cid {
    lib_cid(cid::Cid::new_v1(
        fvm_ipld_encoding::DAG_CBOR,
        Multihash::wrap(IDENTITY_HASH, &[]).unwrap(),
    ))
}

fn secp_address(fill: u8) -> Address {
    let a = fvm_shared::address::Address::new_secp256k1(&[fill; SECP_PUB_LEN]).unwrap();
    Address::from_bytes(&a.to_bytes()).unwrap()
}

fn account(atto: u64, sequence: u64) -> ActorState {
    ActorState::new(
        dummy_account_actor_code_id(),
        dummy_account_actor_code_id(),
        TokenAmount::from_atto(atto),
        sequence,
        None,
    )
}

#[test]
fn get_set_cache() {
    let act_s = ActorState::new(empty_cid(), empty_cid(), Default::default(), 1, None);
    let act_a = ActorState::new(empty_cid(), empty_cid(), Default::default(), 2, None);
    let actor_id = 1;
    let store = MemoryBlockstore::default();
    let mut tree = StateTree::new(store, StateTreeVersion::V5).unwrap();

    // test address not in cache
    assert_eq!(tree.get_actor(actor_id).unwrap(), None);
    // test successful insert
    assert!(tree.set_actor(actor_id, act_s).is_ok());
    // test inserting with different data
    assert!(tree.set_actor(actor_id, act_a.clone()).is_ok());
    // Assert insert with same data returns ok
    assert!(tree.set_actor(actor_id, act_a.clone()).is_ok());
    // test getting set item
    assert_eq!(tree.get_actor(actor_id).unwrap().unwrap(), act_a);
}

#[test]
fn delete_actor() {
    let store = MemoryBlockstore::default();
    let mut tree = StateTree::new(store, StateTreeVersion::V5).unwrap();

    let actor_id = 3;
    let act_s = ActorState::new(empty_cid(), empty_cid(), Default::default(), 1, None);
    tree.set_actor(actor_id, act_s.clone()).unwrap();
    assert_eq!(tree.get_actor(actor_id).unwrap(), Some(act_s));
    tree.delete_actor(actor_id).unwrap();
    assert_eq!(tree.get_actor(actor_id).unwrap(), None);
}

#[test]
fn get_set_non_id() {
    let mut store = MemoryBlockstore::default();
    let init_state = InitState::new_test(&mut store).unwrap();
    let state_cid = put_block(&mut store, DAG_CBOR, &init_state.encode()).unwrap();
    let mut tree = StateTree::new(store, StateTreeVersion::V5).unwrap();

    let act_s = ActorState::new(
        dummy_init_actor_code_id(),
        state_cid.clone(),
        Default::default(),
        1,
        None,
    );

    tree.begin_transaction(false);
    tree.set_actor(INIT_ACTOR_ID, act_s).unwrap();

    // Test mutate function
    tree.mutate_actor(INIT_ACTOR_ID, |mut actor| {
        actor.sequence = 2;
        Ok(actor)
    })
    .unwrap();
    let new_init_s = tree.get_actor(INIT_ACTOR_ID).unwrap();
    assert_eq!(
        new_init_s,
        Some(ActorState {
            code: dummy_init_actor_code_id(),
            state: state_cid,
            balance: Default::default(),
            sequence: 2,
            delegated_address: None
        })
    );

    // Register new address
    let addr = secp_address(2);
    let assigned_addr = tree.register_new_address(&addr).unwrap();

    assert_eq!(assigned_addr, 100);
}

#[test]
fn test_transactions() {
    let store = MemoryBlockstore::default();
    let mut tree = StateTree::new(store, StateTreeVersion::V5).unwrap();

    let addresses: &[u64] = &[101, 102, 103];

    tree.begin_transaction(false);
    tree.set_actor(addresses[0], account(55, 1)).unwrap();
    tree.set_actor(addresses[1], account(55, 1)).unwrap();
    tree.set_actor(addresses[2], account(55, 1)).unwrap();
    tree.end_transaction(false).unwrap();
    tree.flush().unwrap();

    assert_eq!(tree.get_actor(addresses[0]).unwrap().unwrap(), account(55, 1));
    assert_eq!(tree.get_actor(addresses[1]).unwrap().unwrap(), account(55, 1));
    assert_eq!(tree.get_actor(addresses[2]).unwrap().unwrap(), account(55, 1));
}

#[test]
fn revert_transaction() {
    let store = MemoryBlockstore::default();
    let mut tree = StateTree::new(store, StateTreeVersion::V5).unwrap();

    let actor_id: u64 = 1;

    tree.begin_transaction(false);
    tree.set_actor(actor_id, account(55, 1)).unwrap();
    tree.end_transaction(true).unwrap();

    tree.flush().unwrap();

    assert_eq!(tree.get_actor(actor_id).unwrap(), None);
}

#[test]
fn unsupported_versions() {
    let unsupported = vec![
        StateTreeVersion::V0,
        StateTreeVersion::V1,
        StateTreeVersion::V2,
        StateTreeVersion::V3,
        StateTreeVersion::V4,
    ];
    for v in unsupported {
        let store = MemoryBlockstore::default();
        // expect a fatal error.
        let err = StateTree::new(store, v).err().unwrap();
        assert!(err.is_fatal());
    }
}

#[test]
fn history_map() {
    let mut map = HistoryMap::<i32, &'static str>::default();

    // Basic history tests.
    assert_eq!(map.get(&1), None);
    assert_eq!(map.history_len(), 0);
    map.insert(1, "foo");
    assert_eq!(map.history_len(), 1);
    assert_eq!(map.get(&1), Some(&"foo"));
    map.insert(2, "bar");
    assert_eq!(map.history_len(), 2);
    assert_eq!(map.get(&1), Some(&"foo"));
    assert_eq!(map.get(&2), Some(&"bar"));
    map.insert(1, "baz");
    assert_eq!(map.history_len(), 3);
    assert_eq!(map.get(&1), Some(&"baz"));
    map.rollback(4); // doesn't panic.
    assert_eq!(map.history_len(), 3);
    map.rollback(3); // no-op.
    assert_eq!(map.history_len(), 3);
    assert_eq!(map.get(&1), Some(&"baz"));
    map.rollback(2); // undoes the insert of 1 -> baz
    assert_eq!(map.history_len(), 2);
    assert_eq!(map.get(&1), Some(&"foo"));
    assert_eq!(map.get(&2), Some(&"bar"));
    map.rollback(1); // undoes the insert of 2 -> bar
    assert_eq!(map.history_len(), 1);
    assert_eq!(map.get(&1), Some(&"foo"));
    assert_eq!(map.get(&2), None);
    map.rollback(0); // empties the map
    assert_eq!(map.history_len(), 0);
    assert_eq!(map.get(&1), None);

    // Inserts
    assert_eq!(
        map.get_or_try_insert_with(1, || -> Result<_, ()> { Ok("foo") })
            .unwrap(),
        &"foo",
    );
    assert_eq!(map.get(&1), Some(&"foo"));
    assert_eq!(map.history_len(), 1);

    // Doing it again changes nothing.
    assert_eq!(
        map.get_or_try_insert_with(1, || -> Result<_, ()> { panic!() })
            .unwrap(),
        &"foo",
    );
    assert_eq!(map.history_len(), 1);

    // Bubbles the error and changes nothing.
    assert_eq!(
        map.get_or_try_insert_with(2, || { Err("err") })
            .unwrap_err(),
        "err",
    );
    assert_eq!(map.get(&2), None);
    assert_eq!(map.history_len(), 1);

    // Undo the first insertion.
    map.rollback(0); // empties the map
    assert_eq!(map.history_len(), 0);
    assert_eq!(map.get(&1), None);
}

#[test]
fn mutate_missing_actor_is_fatal() {
    let store = MemoryBlockstore::default();
    let mut tree = StateTree::new(store, StateTreeVersion::V5).unwrap();
    let err = tree
        .mutate_actor(99, |mut actor| {
            actor.sequence += 1;
            Ok(actor)
        })
        .unwrap_err();
    assert!(err.is_fatal());
    assert_eq!(err.message(), "failed to lookup actor 99");
}

#[test]
fn delete_then_flush_and_load() {
    let store = MemoryBlockstore::default();
    let mut tree = StateTree::new(store, StateTreeVersion::V5).unwrap();
    let a = account(7, 1);
    tree.set_actor(3, a).unwrap();
    tree.delete_actor(3).unwrap();
    assert_eq!(tree.get_actor(3).unwrap(), None);
    let root = tree.flush().unwrap();
    let store = tree.into_store();
    let mut loaded = StateTree::new_from_root(store, &root).unwrap();
    assert_eq!(loaded.get_actor(3).unwrap(), None);
}

#[test]
fn commit_flush_load_shows_the_actors() {
    let store = MemoryBlockstore::default();
    let mut tree = StateTree::new(store, StateTreeVersion::V5).unwrap();
    tree.begin_transaction(false);
    tree.set_actor(1, account(1, 10)).unwrap();
    tree.set_actor(2, account(2, 20)).unwrap();
    tree.set_actor(3, account(3, 30)).unwrap();
    tree.end_transaction(false).unwrap();
    let root = tree.flush().unwrap();
    let store = tree.into_store();
    let mut loaded = StateTree::new_from_root(store, &root).unwrap();
    assert_eq!(loaded.get_actor(1).unwrap(), Some(account(1, 10)));
    assert_eq!(loaded.get_actor(2).unwrap(), Some(account(2, 20)));
    assert_eq!(loaded.get_actor(3).unwrap(), Some(account(3, 30)));
    assert_eq!(loaded.get_actor(4).unwrap(), None);
}

#[test]
fn many_actors_survive_flush_and_load() {
    let store = MemoryBlockstore::default();
    let mut tree = StateTree::new(store, StateTreeVersion::V5).unwrap();
    for id in 0..500u64 {
        tree.set_actor(id, account(id * 3, id)).unwrap();
    }
    let root = tree.flush().unwrap();
    for id in (0..500u64).step_by(7) {
        tree.delete_actor(id).unwrap();
    }
    let root2 = tree.flush().unwrap();
    assert_ne!(root, root2);
    let store = tree.into_store();
    let mut first = StateTree::new_from_root(store, &root).unwrap();
    for id in 0..500u64 {
        assert_eq!(first.get_actor(id).unwrap(), Some(account(id * 3, id)));
    }
    let store = first.into_store();
    let mut second = StateTree::new_from_root(store, &root2).unwrap();
    for id in 0..500u64 {
        let expected = if id % 7 == 0 { None } else { Some(account(id * 3, id)) };
        assert_eq!(second.get_actor(id).unwrap(), expected);
    }
}

#[test]
fn read_only_frame_refuses_changes() {
    let store = MemoryBlockstore::default();
    let mut tree = StateTree::new(store, StateTreeVersion::V5).unwrap();
    tree.set_actor(5, account(5, 5)).unwrap();
    tree.begin_transaction(true);
    assert!(tree.is_read_only());
    assert!(tree.in_transaction());
    let err = tree.set_actor(1, account(1, 1)).unwrap_err();
    assert!(err.is_recoverable());
    match &err {
        ExecutionError::Syscall(e) => assert_eq!(e.number, ErrorNumber::ReadOnly),
        _ => panic!("expected a syscall error"),
    }
    let err = tree.delete_actor(5).unwrap_err();
    assert!(err.is_recoverable());
    let err = tree.register_new_address(&secp_address(1)).unwrap_err();
    assert!(err.is_recoverable());
    let err = tree.flush().unwrap_err();
    assert!(err.is_recoverable());
    match &err {
        ExecutionError::Syscall(e) => assert_eq!(e.number, ErrorNumber::ReadOnly),
        _ => panic!("expected a syscall error"),
    }
    assert_eq!(err.message(), "cannot mutate state while in read-only mode");
    // A transaction begun inside of a read-only one is read-only too.
    tree.begin_transaction(false);
    assert!(tree.set_actor(1, account(1, 1)).is_err());
    tree.end_transaction(false).unwrap();
    assert!(tree.is_read_only());
    assert_eq!(tree.get_actor(5).unwrap(), Some(account(5, 5)));
    assert_eq!(tree.get_actor(1).unwrap(), None);
    tree.end_transaction(false).unwrap();
    assert!(!tree.is_read_only());
    assert!(!tree.in_transaction());
    assert!(tree.set_actor(1, account(1, 1)).is_ok());
    assert_eq!(tree.get_actor(1).unwrap(), Some(account(1, 1)));
}

#[test]
fn flush_inside_of_a_transaction_is_fatal() {
    let store = MemoryBlockstore::default();
    let mut tree = StateTree::new(store, StateTreeVersion::V5).unwrap();
    tree.begin_transaction(false);
    tree.set_actor(1, account(1, 1)).unwrap();
    let err = tree.flush().unwrap_err();
    assert!(err.is_fatal());
    assert_eq!(err.message(), "cannot flush while inside of a transaction");
    assert_eq!(tree.get_actor(1).unwrap(), Some(account(1, 1)));
    tree.end_transaction(false).unwrap();
    tree.flush().unwrap();
}

#[test]
fn end_without_begin_is_fatal() {
    let store = MemoryBlockstore::default();
    let mut tree = StateTree::new(store, StateTreeVersion::V5).unwrap();
    let err = tree.end_transaction(false).unwrap_err();
    assert!(err.is_fatal());
    assert_eq!(err.message(), "state snapshots empty");
}

#[test]
fn nested_transactions_revert_innermost_only() {
    let store = MemoryBlockstore::default();
    let mut tree = StateTree::new(store, StateTreeVersion::V5).unwrap();
    tree.set_actor(1, account(1, 1)).unwrap();
    tree.begin_transaction(false);
    tree.set_actor(1, account(2, 2)).unwrap();
    tree.set_actor(2, account(2, 2)).unwrap();
    tree.begin_transaction(false);
    tree.set_actor(1, account(3, 3)).unwrap();
    tree.delete_actor(2).unwrap();
    tree.set_actor(3, account(3, 3)).unwrap();
    assert_eq!(tree.get_actor(2).unwrap(), None);
    tree.end_transaction(true).unwrap();
    assert!(tree.in_transaction());
    assert_eq!(tree.get_actor(1).unwrap(), Some(account(2, 2)));
    assert_eq!(tree.get_actor(2).unwrap(), Some(account(2, 2)));
    assert_eq!(tree.get_actor(3).unwrap(), None);
    tree.end_transaction(true).unwrap();
    assert!(!tree.in_transaction());
    assert_eq!(tree.get_actor(1).unwrap(), Some(account(1, 1)));
    assert_eq!(tree.get_actor(2).unwrap(), None);
}

#[test]
fn flush_twice_returns_the_same_root_and_writes_nothing() {
    let store = MemoryBlockstore::default();
    let mut tree = StateTree::new(store, StateTreeVersion::V5).unwrap();
    for id in 0..40u64 {
        tree.set_actor(id, account(id, id)).unwrap();
    }
    let first = tree.flush().unwrap();
    let blocks = block_count(tree.store());
    let second = tree.flush().unwrap();
    assert_eq!(first, second);
    assert_eq!(block_count(tree.store()), blocks);
}

fn block_count(store: &MemoryBlockstore) -> usize {
    let copy = MemoryBlockstore::default();
    store.copy_to(&copy).unwrap();
    format!("{:?}", copy).matches("Cid(").count()
}

#[test]
fn register_addresses_and_look_them_up() {
    let mut store = MemoryBlockstore::default();
    let init_state = InitState::new_test(&mut store).unwrap();
    let state_cid = put_block(&mut store, DAG_CBOR, &init_state.encode()).unwrap();
    let mut tree = StateTree::new(store, StateTreeVersion::V5).unwrap();
    let init = ActorState::new(dummy_init_actor_code_id(), state_cid, Default::default(), 0, None);
    tree.set_actor(INIT_ACTOR_ID, init).unwrap();

    let first = secp_address(1);
    let second = secp_address(2);
    assert_eq!(tree.lookup_id(&first).unwrap(), None);
    assert_eq!(tree.register_new_address(&first).unwrap(), 100);
    assert_eq!(tree.register_new_address(&second).unwrap(), 101);
    assert_eq!(tree.lookup_id(&first).unwrap(), Some(100));
    assert_eq!(tree.lookup_id(&second).unwrap(), Some(101));
    // The second lookup is answered from the cache.
    assert_eq!(tree.lookup_id(&first).unwrap(), Some(100));
    assert_eq!(tree.lookup_id(&Address::new_id(7)).unwrap(), Some(7));
    assert_eq!(tree.lookup_id(&secp_address(3)).unwrap(), None);

    tree.set_actor(100, account(9, 9)).unwrap();
    assert_eq!(tree.get_actor_by_address(&first).unwrap(), Some(account(9, 9)));
    assert_eq!(tree.get_actor_by_address(&second).unwrap(), None);

    // The registrations survive a flush and a load.
    let root = tree.flush().unwrap();
    let store = tree.into_store();
    let mut loaded = StateTree::new_from_root(store, &root).unwrap();
    assert_eq!(loaded.lookup_id(&first).unwrap(), Some(100));
    assert_eq!(loaded.lookup_id(&second).unwrap(), Some(101));
    assert_eq!(loaded.register_new_address(&secp_address(3)).unwrap(), 102);
}

#[test]
fn reverted_registration_is_forgotten() {
    let mut store = MemoryBlockstore::default();
    let init_state = InitState::new_test(&mut store).unwrap();
    let state_cid = put_block(&mut store, DAG_CBOR, &init_state.encode()).unwrap();
    let mut tree = StateTree::new(store, StateTreeVersion::V5).unwrap();
    let init = ActorState::new(dummy_init_actor_code_id(), state_cid, Default::default(), 0, None);
    tree.set_actor(INIT_ACTOR_ID, init).unwrap();
    let first = secp_address(1);
    tree.begin_transaction(false);
    assert_eq!(tree.register_new_address(&first).unwrap(), 100);
    assert_eq!(tree.lookup_id(&first).unwrap(), Some(100));
    tree.end_transaction(true).unwrap();
    assert_eq!(tree.lookup_id(&first).unwrap(), None);
    assert_eq!(tree.register_new_address(&first).unwrap(), 100);
}

#[test]
fn load_fails_on_missing_and_malformed_roots() {
    let mut store = MemoryBlockstore::default();
    let not_a_root = put_block(&mut store, DAG_CBOR, &[0x80]).unwrap();
    let err = StateTree::new_from_root(store, &empty_cid()).err().unwrap();
    assert!(err.is_fatal());
    let mut store = MemoryBlockstore::default();
    put_block(&mut store, DAG_CBOR, &[0x80]).unwrap();
    let err = StateTree::new_from_root(store, &not_a_root).err().unwrap();
    assert!(err.is_fatal());
}

#[test]
fn history_is_discarded_after_outermost_end() {
    let store = MemoryBlockstore::default();
    let mut tree = StateTree::new(store, StateTreeVersion::V5).unwrap();
    tree.begin_transaction(false);
    tree.set_actor(1, account(1, 1)).unwrap();
    tree.begin_transaction(false);
    tree.set_actor(2, account(2, 2)).unwrap();
    tree.end_transaction(false).unwrap();
    tree.end_transaction(false).unwrap();
    // Nothing is left to roll back: a new transaction that is reverted at
    // once changes nothing.
    tree.begin_transaction(false);
    tree.end_transaction(true).unwrap();
    assert_eq!(tree.get_actor(1).unwrap(), Some(account(1, 1)));
    assert_eq!(tree.get_actor(2).unwrap(), Some(account(2, 2)));
}

#[test]
fn for_each_visits_the_actors_of_the_trie() {
    let store = MemoryBlockstore::default();
    let mut tree = StateTree::new(store, StateTreeVersion::V5).unwrap();
    for id in 0..30u64 {
        tree.set_actor(id, account(id, id)).unwrap();
    }
    let seen = std::cell::RefCell::new(Vec::new());
    // Nothing has been written to the trie yet.
    tree.for_each(|a: Address, s: &ActorState| -> Result<(), ()> {
        seen.borrow_mut().push((a.id().unwrap(), s.clone()));
        Ok(())
    })
    .unwrap();
    assert!(seen.borrow().is_empty());
    tree.flush().unwrap();
    tree.set_actor(100, account(1, 1)).unwrap();
    tree.for_each(|a: Address, s: &ActorState| -> Result<(), ()> {
        seen.borrow_mut().push((a.id().unwrap(), s.clone()));
        Ok(())
    })
    .unwrap();
    let mut seen = seen.into_inner();
    seen.sort_by_key(|(id, _)| *id);
    let expected: Vec<(u64, ActorState)> = (0..30u64).map(|id| (id, account(id, id))).collect();
    assert_eq!(seen, expected);
}

#[test]
fn blocks_put_through_the_tree_are_in_its_store() {
    let store = MemoryBlockstore::default();
    let mut tree = StateTree::new(store, StateTreeVersion::V5).unwrap();
    tree.begin_transaction(false);
    tree.set_actor(1, account(1, 1)).unwrap();
    let cid = tree.put_block(DAG_CBOR, &[0x01]).unwrap();
    assert_eq!(fvm::store::Store::get(tree.store(), &cid).unwrap(), Some(vec![0x01]));
    assert_eq!(tree.get_actor(1).unwrap(), Some(account(1, 1)));
    assert_eq!(tree.read_only_depth(), 0);
    tree.begin_transaction(true);
    assert_eq!(tree.read_only_depth(), 1);
    tree.end_transaction(false).unwrap();
    tree.end_transaction(true).unwrap();
    assert_eq!(tree.get_actor(1).unwrap(), None);
}

#[test]
fn a_tree_emptied_again_is_written_under_the_root_of_a_new_tree() {
    let mut fresh = StateTree::new(MemoryBlockstore::default(), StateTreeVersion::V5).unwrap();
    let empty_root = fresh.flush().unwrap();

    let mut tree = StateTree::new(MemoryBlockstore::default(), StateTreeVersion::V5).unwrap();
    for id in 0..50u64 {
        tree.set_actor(id, account(id, id)).unwrap();
    }
    let full_root = tree.flush().unwrap();
    assert_ne!(full_root, empty_root);
    for id in 0..50u64 {
        tree.delete_actor(id).unwrap();
    }
    let emptied_root = tree.flush().unwrap();
    assert_eq!(emptied_root, empty_root);

    let store = tree.into_store();
    let mut emptied = StateTree::new_from_root(store, &emptied_root).unwrap();
    assert_eq!(emptied.get_actor(3).unwrap(), None);
    let mut full = StateTree::new_from_root(emptied.into_store(), &full_root).unwrap();
    assert_eq!(full.get_actor(3).unwrap(), Some(account(3, 3)));
}

#[test]
fn the_root_depends_on_the_actors_shown_alone() {
    let mut one = StateTree::new(MemoryBlockstore::default(), StateTreeVersion::V5).unwrap();
    let mut other = StateTree::new(MemoryBlockstore::default(), StateTreeVersion::V5).unwrap();
    for id in 0..40u64 {
        one.set_actor(id, account(id, 1)).unwrap();
    }
    for id in (0..40u64).rev() {
        other.set_actor(id, account(0, 0)).unwrap();
        other.set_actor(id, account(id, 1)).unwrap();
    }
    other.flush().unwrap();
    other.set_actor(77, account(7, 7)).unwrap();
    other.begin_transaction(false);
    other.set_actor(5, account(9, 9)).unwrap();
    other.end_transaction(true).unwrap();
    other.delete_actor(77).unwrap();
    assert_eq!(one.flush().unwrap(), other.flush().unwrap());
}

#[test]
fn a_reverted_transaction_leaves_the_root_as_it_was() {
    let mut tree = StateTree::new(MemoryBlockstore::default(), StateTreeVersion::V5).unwrap();
    tree.set_actor(1, account(1, 1)).unwrap();
    let before = tree.flush().unwrap();
    tree.begin_transaction(false);
    tree.set_actor(1, account(2, 2)).unwrap();
    tree.set_actor(2, account(2, 2)).unwrap();
    tree.delete_actor(1).unwrap();
    tree.end_transaction(true).unwrap();
    assert_eq!(tree.get_actor(1).unwrap(), Some(account(1, 1)));
    assert_eq!(tree.get_actor(2).unwrap(), None);
    assert_eq!(tree.flush().unwrap(), before);
}
