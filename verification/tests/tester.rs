use fvm::actor::ActorState;
use fvm::address::Address;
use fvm::amount::TokenAmount;
use fvm::cid::Cid;
use fvm::error::{ErrorNumber, ExecutionError};
use fvm::init_actor::State as InitState;
use fvm::manifest::{Builtin, ManifestError};
use fvm::state_tree::StateTree;
use fvm::store::{block_cid, put_block, Store, DAG_CBOR};
use fvm::tester::{decode_info, Tester, TesterError, INITIAL_ACCOUNT_BALANCE};
use fvm::version::StateTreeVersion;
use fvm_ipld_blockstore::MemoryBlockstore;
use fvm_ipld_encoding::to_vec;
use libsecp256k1::{PublicKey, SecretKey};
use rand::SeedableRng;

const NAMES: [&str; 11] = [
    "system",
    "init",
    "eam",
    "ethaccount",
    "account",
    "placeholder",
    "storagemarket",
    "storagepower",
    "datacap",
    "verifiedregistry",
    "reward",
];

fn code(name: &str) -> Cid {
    Cid::wrapping(0x55, 0, format!("fil/test/{name}").as_bytes())
}

fn outside(c: &Cid) -> cid::Cid {
    cid::Cid::try_from(c.to_bytes().as_slice()).unwrap()
}

fn lib_address(a: &fvm_shared::address::Address) -> Address {
    Address::from_bytes(&a.to_bytes()).unwrap()
}

fn store_with_manifest(names: &[&str], version: u32) -> (MemoryBlockstore, Cid) {
    let mut store = MemoryBlockstore::default();
    let entries: Vec<(String, cid::Cid)> =
        names.iter().map(|name| (name.to_string(), outside(&code(name)))).collect();
    let data = put_block(&mut store, DAG_CBOR, &to_vec(&entries).unwrap()).unwrap();
    let info = to_vec(&(version, outside(&data))).unwrap();
    let builtin_actors = put_block(&mut store, DAG_CBOR, &info).unwrap();
    (store, builtin_actors)
}

fn tester() -> Tester<MemoryBlockstore> {
    let (store, builtin_actors) = store_with_manifest(&NAMES, 1);
    Tester::new(StateTreeVersion::V5, builtin_actors, store).unwrap()
}

fn block_of(t: &Tester<MemoryBlockstore>, cid: &Cid) -> Vec<u8> {
    t.blockstore().get(cid).unwrap().unwrap()
}

fn actor(t: &mut Tester<MemoryBlockstore>, id: u64) -> Option<ActorState> {
    t.state_tree.as_mut().unwrap().get_actor(id).unwrap()
}

#[test]
fn a_new_harness_has_the_first_actors_in_place() {
    let (store, builtin_actors) = store_with_manifest(&NAMES, 1);
    let mut t = Tester::new(StateTreeVersion::V5, builtin_actors.clone(), store).unwrap();
    assert_eq!(t.accounts_code_cid, code("account"));
    assert_eq!(t.placeholder_code_cid, code("placeholder"));
    assert!(t.code_cids.is_empty());

    let system = actor(&mut t, 0).unwrap();
    assert_eq!(system.code, code("system"));
    assert_eq!((system.sequence, system.balance.to_u128()), (0, Some(0)));
    assert_eq!(system.delegated_address, None);
    assert_eq!(block_of(&t, &system.state), to_vec(&(outside(&builtin_actors),)).unwrap());

    let init = actor(&mut t, 1).unwrap();
    assert_eq!(init.code, code("init"));
    let state = InitState::decode(&block_of(&t, &init.state)).unwrap();
    assert_eq!(state.next_id, 100);
    assert_eq!(state.network_name, b"test".to_vec());
    assert_eq!(block_of(&t, &state.address_map), vec![0x82, 0x40, 0x80]);

    let eam = actor(&mut t, 10).unwrap();
    assert_eq!(eam.code, code("eam"));
    assert_eq!(block_of(&t, &eam.state), vec![0x80]);

    for id in [2u64, 3, 9, 11, 99, 100, u64::MAX] {
        assert_eq!(actor(&mut t, id), None);
    }
    assert!(!t.state_tree.as_ref().unwrap().in_transaction());
}

#[test]
fn a_harness_needs_the_manifest_of_the_built_in_actors() {
    let absent = block_cid(DAG_CBOR, b"nothing");
    match Tester::new(StateTreeVersion::V5, absent.clone(), MemoryBlockstore::default()) {
        Err(TesterError::NoManifestInformation(c)) => assert_eq!(c, absent),
        _ => panic!("the store holds no built-in actors"),
    }

    let mut store = MemoryBlockstore::default();
    let no_info = put_block(&mut store, DAG_CBOR, &[0x80]).unwrap();
    match Tester::new(StateTreeVersion::V5, no_info.clone(), store) {
        Err(TesterError::ManifestInformation(c)) => assert_eq!(c, no_info),
        _ => panic!("the block is no version and link"),
    }

    let (store, builtin_actors) = store_with_manifest(&NAMES, 2);
    assert!(matches!(
        Tester::new(StateTreeVersion::V5, builtin_actors, store),
        Err(TesterError::Manifest(ManifestError::UnsupportedVersion(2)))
    ));

    let (store, builtin_actors) = store_with_manifest(&NAMES[..10], 1);
    assert!(matches!(
        Tester::new(StateTreeVersion::V5, builtin_actors, store),
        Err(TesterError::Manifest(ManifestError::Missing(Builtin::Reward)))
    ));

    let (store, builtin_actors) = store_with_manifest(&NAMES, 1);
    assert!(matches!(
        Tester::new(StateTreeVersion::V4, builtin_actors, store),
        Err(TesterError::Tree(ExecutionError::Fatal(_)))
    ));
}

#[test]
fn the_version_and_the_link_of_a_manifest_are_read() {
    let data = code("data");
    let info = to_vec(&(1u32, outside(&data))).unwrap();
    assert_eq!(decode_info(&info), Some((1, data.clone())));
    let info = to_vec(&(u32::MAX, outside(&data))).unwrap();
    assert_eq!(decode_info(&info), Some((u32::MAX, data.clone())));
    let too_great = to_vec(&(u32::MAX as u64 + 1, outside(&data))).unwrap();
    assert_eq!(decode_info(&too_great), None);
    let mut longer = to_vec(&(1u32, outside(&data))).unwrap();
    longer.push(0);
    assert_eq!(decode_info(&longer), None);
    assert_eq!(decode_info(&to_vec(&(outside(&data), 1u32)).unwrap()), None);
    assert_eq!(decode_info(&[]), None);
}

#[test]
fn an_account_is_made_for_a_private_key() {
    let mut t = tester();
    let secret = [1u8; 32];
    let (id, address) = t.make_secp256k1_account(&secret, TokenAmount::from_atto(77)).unwrap();
    assert_eq!(id, 100);

    let key = SecretKey::parse_slice(&secret).unwrap();
    let public = PublicKey::from_secret_key(&key).serialize();
    let shared = fvm_shared::address::Address::new_secp256k1(&public).unwrap();
    assert_eq!(address.to_bytes(), shared.to_bytes());
    assert_eq!(address, Address::new_secp256k1(&public).unwrap());
    assert_eq!(address.protocol(), 1);

    let account = actor(&mut t, id).unwrap();
    assert_eq!(account.code, code("account"));
    assert_eq!(account.sequence, 0);
    assert_eq!(account.balance, TokenAmount::from_atto(77));
    assert_eq!(account.delegated_address, None);
    assert_eq!(block_of(&t, &account.state), to_vec(&(shared,)).unwrap());
    assert_eq!(t.state_tree.as_mut().unwrap().lookup_id(&address).unwrap(), Some(id));
}

#[test]
fn what_is_no_private_key_makes_no_account() {
    let mut t = tester();
    for secret in [vec![0u8; 32], vec![0xffu8; 32], vec![1u8; 31], vec![1u8; 33], vec![]] {
        assert!(matches!(
            t.make_secp256k1_account(&secret, TokenAmount::zero()),
            Err(TesterError::InvalidKey)
        ));
    }
    assert_eq!(actor(&mut t, 100), None);
    assert_eq!(Address::new_secp256k1(&[4u8; 64]), None);
    assert_eq!(Address::new_secp256k1(&[4u8; 66]), None);
}

#[test]
fn accounts_are_made_in_numbers_with_keys_of_a_fixed_seed() {
    let mut t = tester();
    let accounts = t.create_accounts::<3>().unwrap();
    assert_eq!(accounts.len(), 3);
    let mut rng = rand_chacha::ChaCha8Rng::seed_from_u64(8);
    for (at, (id, address)) in accounts.iter().enumerate() {
        assert_eq!(*id, 100 + at as u64);
        let key = SecretKey::random(&mut rng);
        let public = PublicKey::from_secret_key(&key).serialize();
        let shared = fvm_shared::address::Address::new_secp256k1(&public).unwrap();
        assert_eq!(address.to_bytes(), shared.to_bytes());
        let account = actor(&mut t, *id).unwrap();
        assert_eq!(account.code, code("account"));
        assert_eq!(account.balance, TokenAmount::from_atto(INITIAL_ACCOUNT_BALANCE));
        assert_eq!(account.balance.to_u128(), Some(10000));
        assert_eq!(t.state_tree.as_mut().unwrap().lookup_id(address).unwrap(), Some(*id));
    }
    assert_ne!(accounts[0].1, accounts[1].1);
    assert_eq!(t.create_accounts::<0>().unwrap().len(), 0);
    // The keys of a later lot are those of the first.
    let again = tester().create_accounts::<2>().unwrap();
    assert_eq!(again[0], accounts[0]);
    assert_eq!(again[1], accounts[1]);
}

#[test]
fn the_sequence_of_an_account_is_set() {
    let mut t = tester();
    let (id, _) = t.make_secp256k1_account(&[2u8; 32], TokenAmount::from_atto(5)).unwrap();
    t.set_account_sequence(id, 41).unwrap();
    let account = actor(&mut t, id).unwrap();
    assert_eq!(account.sequence, 41);
    assert_eq!(account.balance, TokenAmount::from_atto(5));
    assert_eq!(account.code, code("account"));
    match t.set_account_sequence(500, 1) {
        Err(TesterError::NoSuchAccount(500)) => {}
        _ => panic!("there is no such account"),
    }
    t.state_tree.as_mut().unwrap().begin_transaction(true);
    match t.set_account_sequence(id, 42) {
        Err(TesterError::Tree(ExecutionError::Syscall(e))) => {
            assert_eq!(e.number, ErrorNumber::ReadOnly)
        }
        _ => panic!("changes are refused"),
    }
    assert_eq!(actor(&mut t, id).unwrap().sequence, 41);
}

#[test]
fn a_placeholder_is_made_at_a_delegated_address() {
    let mut t = tester();
    let shared = fvm_shared::address::Address::new_delegated(10, b"placeholder").unwrap();
    let address = lib_address(&shared);
    let id = t.create_placeholder(&address, TokenAmount::from_atto(9)).unwrap();
    assert_eq!(id, 100);
    let placeholder = actor(&mut t, id).unwrap();
    assert_eq!(placeholder.code, code("placeholder"));
    assert_eq!(placeholder.sequence, 0);
    assert_eq!(placeholder.balance, TokenAmount::from_atto(9));
    assert_eq!(placeholder.delegated_address, Some(address.clone()));
    let state = block_of(&t, &placeholder.state);
    assert_eq!(state, to_vec(&[0u8; 32]).unwrap());
    assert_eq!(state.len(), 34);
    assert_eq!(t.state_tree.as_mut().unwrap().lookup_id(&address).unwrap(), Some(id));
}

#[test]
fn an_actor_is_deployed_with_its_code() {
    let mut t = tester();
    let state = t.set_state(&[0x80]).unwrap();
    assert_eq!(state, block_cid(DAG_CBOR, &[0x80]));
    assert_eq!(block_of(&t, &state), vec![0x80]);

    // At the address of an identifier.
    let at_id = Address::new_id(200);
    let first = t
        .set_actor_from_bin(b"wasm one", state.clone(), at_id, TokenAmount::from_atto(3))
        .unwrap();
    assert_eq!(first, block_cid(0x55, b"wasm one"));
    assert_eq!(block_of(&t, &first), b"wasm one".to_vec());
    let deployed = actor(&mut t, 200).unwrap();
    assert_eq!(
        deployed,
        ActorState::new(first.clone(), state.clone(), TokenAmount::from_atto(3), 1, None)
    );

    // At a delegated address, which is registered and kept.
    let delegated =
        lib_address(&fvm_shared::address::Address::new_delegated(10, b"contract").unwrap());
    let second = t
        .set_actor_from_bin(b"wasm two", state.clone(), delegated.clone(), TokenAmount::zero())
        .unwrap();
    let deployed = actor(&mut t, 100).unwrap();
    assert_eq!(
        deployed,
        ActorState::new(
            second.clone(),
            state.clone(),
            TokenAmount::zero(),
            1,
            Some(delegated.clone())
        )
    );

    // At the address of an actor, which is registered and not kept.
    let of_actor = lib_address(&fvm_shared::address::Address::new_actor(b"an actor"));
    let third = t
        .set_actor_from_bin(b"wasm two", state.clone(), of_actor.clone(), TokenAmount::zero())
        .unwrap();
    assert_eq!(third, second);
    let deployed = actor(&mut t, 101).unwrap();
    assert_eq!(deployed.delegated_address, None);
    assert_eq!(deployed.sequence, 1);
    assert_eq!(t.code_cids, vec![first, second.clone(), third]);
    assert_eq!(t.state_tree.as_mut().unwrap().lookup_id(&of_actor).unwrap(), Some(101));
    assert_eq!(t.state_tree.as_mut().unwrap().lookup_id(&delegated).unwrap(), Some(100));
}

#[test]
fn the_state_is_written_and_handed_over_with_its_store() {
    let mut t = tester();
    let (id, address) = t.make_secp256k1_account(&[3u8; 32], TokenAmount::from_atto(8)).unwrap();
    let (root, store) = t.flush_state().unwrap();
    assert!(t.state_tree.is_none());
    assert!(store.get(&root).unwrap().is_some());
    let mut tree = StateTree::new_from_root(store, &root).unwrap();
    let account = tree.get_actor(id).unwrap().unwrap();
    assert_eq!(account.balance, TokenAmount::from_atto(8));
    assert_eq!(tree.lookup_id(&address).unwrap(), Some(id));
    assert_eq!(tree.get_actor(0).unwrap().unwrap().code, code("system"));

    // Without its state tree the harness makes nothing.
    assert!(matches!(
        t.make_secp256k1_account(&[3u8; 32], TokenAmount::zero()),
        Err(TesterError::NoStateTree)
    ));
    assert!(matches!(t.set_account_sequence(id, 1), Err(TesterError::NoStateTree)));
    assert!(matches!(t.create_accounts::<1>(), Err(TesterError::NoStateTree)));
    assert_eq!(t.create_accounts::<0>().unwrap().len(), 0);

    // Inside of a transaction the state is not written.
    let mut t = tester();
    t.state_tree.as_mut().unwrap().begin_transaction(false);
    assert!(matches!(t.flush_state(), Err(TesterError::Tree(ExecutionError::Fatal(_)))));
    assert!(t.state_tree.is_none());
}
