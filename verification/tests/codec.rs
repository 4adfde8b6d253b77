use cid::multihash::Multihash;
use fvm::actor::ActorState;
use fvm::address::{id_key, Address};
use fvm::amount::TokenAmount;
use fvm::cbor::{read_byte_string, read_head, skip_item, write_byte_string, write_head};
use fvm::cid::Cid;
use fvm::error::{read_only_error, ErrorNumber, ExecutionError, Fatal};
use fvm::hamt::hash::hash_key;
use fvm::init_actor::{decode_id, encode_id, State as InitState};
use fvm::state_tree::StateTree;
use fvm::store::{block_cid, put_block, PutError, Store, DAG_CBOR};
use fvm::varint::{read_uvarint, write_uvarint};
use fvm::version::StateTreeVersion;
use fvm_ipld_blockstore::{Blockstore, MemoryBlockstore};
use fvm_ipld_encoding::{from_slice, to_vec};
use fvm_shared::bigint::BigInt;
use fvm_shared::{IDENTITY_HASH, IPLD_RAW};
use multihash_codetable::{Code, MultihashDigest};

fn lib_cid(c: &cid::Cid) -> Cid {
    Cid::from_bytes(&c.to_bytes()).unwrap()
}

fn some_cid(data: &[u8]) -> cid::Cid {
    cid::Cid::new_v1(fvm_ipld_encoding::DAG_CBOR, Code::Blake2b256.digest(data))
}

fn shared_address(a: &fvm_shared::address::Address) -> Address {
    Address::from_bytes(&a.to_bytes()).unwrap()
}

fn big(decimal: &str) -> BigInt {
    BigInt::parse_bytes(decimal.as_bytes(), 10).unwrap()
}

fn lib_amount(n: &BigInt) -> TokenAmount {
    TokenAmount::from_bytes_be(&n.to_bytes_be().1)
}

#[test]
fn actor_state_is_written_as_fvm_shared_writes_it() {
    let code = some_cid(b"code");
    let state = some_cid(b"state");
    let delegated = fvm_shared::address::Address::new_delegated(10, b"hello").unwrap();
    let secp = fvm_shared::address::Address::new_secp256k1(&[7u8; 65]).unwrap();
    let balances = [
        "0",
        "1",
        "255",
        "256",
        "55",
        "18446744073709551615",
        "18446744073709551616",
        "2000000000000000000000000000",
    ];
    let addresses = [None, Some(delegated), Some(secp)];
    for decimal in balances {
        for address in addresses.iter() {
            for sequence in [0u64, 1, 23, 24, 255, 256, 65535, 65536, u64::MAX] {
                let balance = big(decimal);
                let shared = fvm_shared::state::ActorState {
                    code,
                    state,
                    sequence,
                    balance: fvm_shared::econ::TokenAmount::from_atto(balance.clone()),
                    delegated_address: *address,
                };
                let expected = to_vec(&shared).unwrap();
                let ours = ActorState::new(
                    lib_cid(&code),
                    lib_cid(&state),
                    lib_amount(&balance),
                    sequence,
                    address.as_ref().map(shared_address),
                );
                let bytes = ours.encode().unwrap();
                assert_eq!(bytes, expected);
                assert_eq!(ActorState::decode(&expected), Some(ours));
                let back: fvm_shared::state::ActorState = from_slice(&bytes).unwrap();
                assert_eq!(back, shared);
            }
        }
    }
}

#[test]
fn actor_state_with_a_balance_too_large_is_not_written() {
    let code = lib_cid(&some_cid(b"code"));
    let ok = ActorState::new(
        code.clone(),
        code.clone(),
        TokenAmount::from_bytes_be(&[0xff; 127]),
        0,
        None,
    );
    assert!(ok.encode().is_some());
    let too_large =
        ActorState::new(code.clone(), code, TokenAmount::from_bytes_be(&[0xff; 128]), 0, None);
    assert_eq!(too_large.encode(), None);
}

#[test]
fn actor_state_decoding_refuses_what_is_no_record() {
    let code = lib_cid(&some_cid(b"code"));
    let actor = ActorState::new(code.clone(), code, TokenAmount::from_atto(5), 1, None);
    let bytes = actor.encode().unwrap();
    assert_eq!(ActorState::decode(&bytes), Some(actor));
    assert_eq!(ActorState::decode(&bytes[..bytes.len() - 1]), None);
    let mut longer = bytes.clone();
    longer.push(0);
    assert_eq!(ActorState::decode(&longer), None);
    assert_eq!(ActorState::decode(&[]), None);
    assert_eq!(ActorState::decode(&[0x80]), None);
    // A balance with a sign byte of one is negative.
    let mut negative = bytes.clone();
    let at = negative.len() - 4;
    assert_eq!(&negative[at..], &[0x42, 0x00, 0x05, 0xf6]);
    negative[at + 1] = 1;
    assert_eq!(ActorState::decode(&negative), None);
}

#[test]
fn state_root_and_info_are_written_as_fvm_shared_writes_them() {
    let store = MemoryBlockstore::default();
    let mut tree = StateTree::new(store, StateTreeVersion::V5).unwrap();
    let code = lib_cid(&some_cid(b"code"));
    tree.set_actor(1, ActorState::new(code.clone(), code, TokenAmount::from_atto(5), 1, None))
        .unwrap();
    let root = tree.flush().unwrap();
    let store = tree.into_store();
    let root_cid = cid::Cid::try_from(root.to_bytes().as_slice()).unwrap();
    let block = Blockstore::get(&store, &root_cid).unwrap().unwrap();
    let shared: fvm_shared::state::StateRoot = from_slice(&block).unwrap();
    assert_eq!(shared.version, fvm_shared::state::StateTreeVersion::V5);
    assert_eq!(to_vec(&shared).unwrap(), block);
    assert_eq!(root_cid, some_cid(&block));
    let info = Blockstore::get(&store, &shared.info).unwrap().unwrap();
    assert_eq!(info, to_vec(&fvm_shared::state::StateInfo0::default()).unwrap());
    assert_eq!(info, vec![0x80]);
    assert!(Blockstore::get(&store, &shared.actors).unwrap().is_some());
}

#[test]
fn init_state_is_written_as_a_tuple() {
    let mut store = MemoryBlockstore::default();
    let state = InitState::new_test(&mut store).unwrap();
    let bytes = state.encode();
    let (address_map, next_id, name): (cid::Cid, u64, String) = from_slice(&bytes).unwrap();
    assert_eq!(next_id, 100);
    assert_eq!(name, "test");
    assert_eq!(lib_cid(&address_map), state.address_map);
    assert_eq!(bytes, to_vec(&(address_map, 100u64, "test".to_string())).unwrap());
    let back = InitState::decode(&bytes).unwrap();
    assert_eq!(back.address_map, state.address_map);
    assert_eq!(back.next_id, 100);
    assert_eq!(back.network_name, b"test".to_vec());
    assert!(InitState::decode(&bytes[1..]).is_none());
}

#[test]
fn identifiers_are_written_as_unsigned_integers() {
    for id in [0u64, 1, 23, 24, 100, 255, 256, 65536, u64::MAX] {
        let bytes = encode_id(id);
        assert_eq!(bytes, to_vec(&id).unwrap());
        assert_eq!(decode_id(&bytes), Some(id));
    }
    assert_eq!(encode_id(100), vec![0x18, 100]);
    assert_eq!(decode_id(&[0x18, 100, 0]), None);
    assert_eq!(decode_id(&[0x40]), None);
}

#[test]
fn keys_of_identifiers_are_their_addresses() {
    for id in [0u64, 1, 99, 127, 128, 300, 16383, 16384, 1 << 35, u64::MAX - 1, u64::MAX] {
        let shared = fvm_shared::address::Address::new_id(id);
        assert_eq!(id_key(id), shared.to_bytes());
        let ours = Address::new_id(id);
        assert_eq!(ours.to_bytes(), shared.to_bytes());
        assert_eq!(ours.id(), Some(id));
        assert_eq!(ours.protocol(), 0);
        assert_eq!(Address::from_bytes(&shared.to_bytes()), Some(ours));
    }
    assert_eq!(id_key(1), vec![0, 1]);
    assert_eq!(id_key(128), vec![0, 0x80, 0x01]);
}

#[test]
fn addresses_of_every_protocol_are_taken() {
    let secp = fvm_shared::address::Address::new_secp256k1(&[3u8; 65]).unwrap();
    let actor = fvm_shared::address::Address::new_actor(b"data");
    let bls = fvm_shared::address::Address::new_bls(&[9u8; 48]).unwrap();
    let delegated = fvm_shared::address::Address::new_delegated(32, &[1u8; 54]).unwrap();
    for (shared, protocol) in [(secp, 1u8), (actor, 2), (bls, 3), (delegated, 4)] {
        let bytes = shared.to_bytes();
        let ours = Address::from_bytes(&bytes).unwrap();
        assert_eq!(ours.to_bytes(), bytes);
        assert_eq!(ours.protocol(), protocol);
        assert_eq!(ours.id(), None);
        assert!(ours.same(&ours.clone()));
    }
}

#[test]
fn what_is_no_address_is_refused() {
    assert!(Address::from_bytes(&[]).is_none());
    assert!(Address::from_bytes(&[0]).is_none());
    assert!(Address::from_bytes(&[5, 1, 2]).is_none());
    assert!(Address::from_bytes(&[1; 20]).is_none());
    assert!(Address::from_bytes(&[1; 22]).is_none());
    assert!(Address::from_bytes(&[3; 48]).is_none());
    // A padded identifier.
    assert!(Address::from_bytes(&[0, 0x80, 0x00]).is_none());
    // Bytes after the identifier.
    assert!(Address::from_bytes(&[0, 1, 2]).is_none());
    // A delegated address with too long a subaddress.
    let mut long = vec![4u8, 32];
    long.extend_from_slice(&[1u8; 55]);
    assert!(Address::from_bytes(&long).is_none());
    long.pop();
    assert!(Address::from_bytes(&long).is_some());
}

#[test]
fn identifiers_of_blocks_are_those_of_the_encoding_crate() {
    for data in [&b""[..], b"a", b"hello world", &[0u8; 1000]] {
        let ours = block_cid(DAG_CBOR, data);
        assert_eq!(ours.to_bytes(), some_cid(data).to_bytes());
        assert_eq!(ours.to_text(), some_cid(data).to_string());
        let raw = block_cid(IPLD_RAW, data);
        assert_eq!(
            raw.to_bytes(),
            cid::Cid::new_v1(IPLD_RAW, Code::Blake2b256.digest(data)).to_bytes()
        );
        assert_ne!(raw, ours);
    }
    let a = block_cid(DAG_CBOR, b"a");
    let b = block_cid(DAG_CBOR, b"b");
    assert!(!a.same(&b));
    assert!(a.same(&a.clone()));
}

#[test]
fn what_is_no_identifier_of_a_block_is_refused() {
    let good = some_cid(b"x").to_bytes();
    assert!(Cid::from_bytes(&good).is_some());
    assert!(Cid::from_bytes(&[]).is_none());
    assert!(Cid::from_bytes(&good[..good.len() - 1]).is_none());
    let mut trailing = good.clone();
    trailing.push(0);
    assert!(Cid::from_bytes(&trailing).is_none());
    assert!(Cid::from_bytes(&[0xff; 40]).is_none());
    // An identifier of version 0 is one too.
    let v0 = cid::Cid::new_v0(Code::Sha2_256.digest(b"x")).unwrap();
    assert_eq!(Cid::from_bytes(&v0.to_bytes()).unwrap().to_bytes(), v0.to_bytes());
    // So is one with an identity hash.
    let id = cid::Cid::new_v1(IPLD_RAW, Multihash::wrap(IDENTITY_HASH, b"abc").unwrap());
    assert_eq!(Cid::from_bytes(&id.to_bytes()).unwrap().to_bytes(), id.to_bytes());
}

#[test]
fn the_store_holds_what_was_put() {
    let mut store = MemoryBlockstore::default();
    let cid = put_block(&mut store, DAG_CBOR, b"block").unwrap();
    assert_eq!(Store::get(&store, &cid).unwrap(), Some(b"block".to_vec()));
    let other = block_cid(DAG_CBOR, b"other");
    assert_eq!(Store::get(&store, &other).unwrap(), None);
    // The store itself sees the block under the same identifier.
    let shared = cid::Cid::try_from(cid.to_bytes().as_slice()).unwrap();
    assert_eq!(Blockstore::get(&store, &shared).unwrap(), Some(b"block".to_vec()));
    // Putting it again changes nothing.
    assert_eq!(put_block(&mut store, DAG_CBOR, b"block").unwrap(), cid);
    // Other bytes under the identifier are a collision.
    Store::put_keyed(&mut store, &other, b"not other").unwrap();
    assert_eq!(Store::get(&store, &other).unwrap(), Some(b"not other".to_vec()));
    match put_block(&mut store, DAG_CBOR, b"other") {
        Err(PutError::Collision(c)) => assert_eq!(c, other),
        r => panic!("expected a collision, got {:?}", r),
    }
    assert_eq!(Store::get(&store, &other).unwrap(), Some(b"not other".to_vec()));
}

#[test]
fn keys_are_hashed_with_sha_256() {
    for key in [&b""[..], b"a", b"key", &[0u8; 100]] {
        let expected = Code::Sha2_256.digest(key);
        assert_eq!(hash_key(key), expected.digest().to_vec());
        assert_eq!(hash_key(key).len(), 32);
    }
    assert_eq!(
        hash_key(b"abc")[..4],
        [0xba, 0x78, 0x16, 0xbf]
    );
}

#[test]
fn token_amounts_are_natural_numbers() {
    let a = TokenAmount::from_atto(55);
    let b = TokenAmount::from_atto(45);
    assert_eq!(a.plus(&b), TokenAmount::from_atto(100));
    assert_eq!(a.minus(&b), Some(TokenAmount::from_atto(10)));
    assert_eq!(b.minus(&a), None);
    assert_eq!(a.minus(&a), Some(TokenAmount::zero()));
    assert!(b.less_than(&a));
    assert!(!a.less_than(&b));
    assert!(!a.less_than(&a));
    assert!(a.same(&TokenAmount::from_atto(55)));
    assert!(!a.same(&b));
    assert!(TokenAmount::zero().is_zero());
    assert!(TokenAmount::default().is_zero());
    assert!(!a.is_zero());
    assert_eq!(TokenAmount::from_atto(0), TokenAmount::zero());
    assert_eq!(TokenAmount::from_atto(0).to_bytes_be(), Vec::<u8>::new());
    assert_eq!(TokenAmount::from_atto(1).to_bytes_be(), vec![1]);
    assert_eq!(TokenAmount::from_atto(256).to_bytes_be(), vec![1, 0]);
    assert_eq!(TokenAmount::from_atto(u64::MAX).to_bytes_be(), vec![0xff; 8]);
    assert_eq!(TokenAmount::from_bytes_be(&[0, 0, 1, 0]), TokenAmount::from_atto(256));
    let max = TokenAmount::from_atto(u64::MAX);
    let sum = max.plus(&TokenAmount::from_atto(1));
    assert_eq!(sum.to_bytes_be(), vec![1, 0, 0, 0, 0, 0, 0, 0, 0]);
    assert_eq!(sum.minus(&max), Some(TokenAmount::from_atto(1)));
    assert_eq!(sum.to_text(), "18.446744073709551616");
    assert_eq!(a.to_text(), "0.000000000000000055");
    assert_eq!(TokenAmount::zero().to_text(), "0.0");
    assert_eq!(TokenAmount::from_atto(1_500_000_000_000_000_000).to_text(), "1.5");
    let big = big("2000000000000000000000000000");
    assert_eq!(lib_amount(&big).to_text(), "2000000000.0");
    assert_eq!(lib_amount(&big).plus(&lib_amount(&big)).to_text(), "4000000000.0");
    for atto in [0u64, 1, 10, 999, 1_000_000_000_000_000_000, u64::MAX] {
        assert_eq!(
            TokenAmount::from_atto(atto).to_text(),
            fvm_shared::econ::TokenAmount::from_atto(atto).to_string()
        );
    }
}

#[test]
fn failures_are_put_in_words() {
    let fatal = |f: Fatal| ExecutionError::Fatal(f).message();
    assert_eq!(fatal(Fatal::UnsupportedVersion(0)), "unsupported state tree version: 0");
    assert_eq!(fatal(Fatal::UnsupportedVersion(10)), "unsupported state tree version: 10");
    assert_eq!(fatal(Fatal::ActorLookup(99, None)), "failed to lookup actor 99");
    assert_eq!(
        fatal(Fatal::ActorMalformed(u64::MAX)),
        "failed to decode actor 18446744073709551615"
    );
    assert_eq!(fatal(Fatal::ActorUnwritable(1234)), "failed to encode actor 1234");
    let root = some_cid(b"root");
    assert_eq!(
        fatal(Fatal::RootNotFound(lib_cid(&root))),
        format!("failed to find state tree {root}")
    );
    assert_eq!(
        fatal(Fatal::RootLoad(lib_cid(&root))),
        format!("failed to load state tree {root}")
    );
    assert_eq!(fatal(Fatal::NoTransaction), "state snapshots empty");
    assert_eq!(ExecutionError::OutOfGas.message(), "out of gas");
    assert_eq!(
        read_only_error().message(),
        "cannot mutate state while in read-only mode"
    );
}

#[test]
fn funds_are_deducted_and_deposited() {
    let code = lib_cid(&some_cid(b"code"));
    let mut actor = ActorState::new(code.clone(), code.clone(), TokenAmount::from_atto(10), 3, None);
    actor.deposit_funds(&TokenAmount::from_atto(5));
    assert_eq!(actor.balance, TokenAmount::from_atto(15));
    actor.deduct_funds(&TokenAmount::from_atto(15)).unwrap();
    assert_eq!(actor.balance, TokenAmount::zero());
    actor.deposit_funds(&TokenAmount::from_atto(7));
    let err = actor.deduct_funds(&TokenAmount::from_atto(8)).unwrap_err();
    assert!(err.is_recoverable());
    match &err {
        ExecutionError::Syscall(e) => {
            assert_eq!(e.number, ErrorNumber::InsufficientFunds);
            assert_eq!(e.number.code(), 5);
            assert_eq!(
                e.message,
                "when deducting funds (0.000000000000000008) from balance (0.000000000000000007)"
            );
            assert_eq!(
                e.message,
                format!(
                    "when deducting funds ({}) from balance ({})",
                    fvm_shared::econ::TokenAmount::from_atto(8),
                    fvm_shared::econ::TokenAmount::from_atto(7)
                )
            );
        }
        _ => panic!("expected a syscall error"),
    }
    assert_eq!(actor.balance, TokenAmount::from_atto(7));
    assert_eq!(actor.sequence, 3);
    let empty = ActorState::new_empty(code.clone(), None);
    let empty_array = lib_cid(&fvm_shared::EMPTY_ARR_CID);
    assert_eq!(empty_array, block_cid(DAG_CBOR, &[0x80]));
    assert_eq!(empty, ActorState::new(code, empty_array, TokenAmount::zero(), 0, None));
    assert_eq!(ErrorNumber::ReadOnly.code(), 13);
    assert_eq!(ErrorNumber::NotFound.code(), 6);
}

#[test]
fn variable_length_integers_round_trip() {
    for n in [0u64, 1, 127, 128, 255, 300, 16383, 16384, u64::MAX / 2, u64::MAX] {
        let mut out = vec![9u8];
        write_uvarint(&mut out, n);
        let mut buf = unsigned_buffer(n);
        buf.insert(0, 9);
        assert_eq!(out, buf);
        out.push(0xaa);
        assert_eq!(read_uvarint(&out, 1), Some((n, out.len() - 1)));
    }
    assert_eq!(read_uvarint(&[], 0), None);
    assert_eq!(read_uvarint(&[0x80], 0), None);
    assert_eq!(read_uvarint(&[0x80, 0x00], 0), None);
    assert_eq!(read_uvarint(&[0x81, 0x00], 0), None);
    assert_eq!(read_uvarint(&[0x00], 0), Some((0, 1)));
    assert_eq!(read_uvarint(&[0xac, 0x02], 0), Some((300, 2)));
    // Ten bytes spell at most the largest 64-bit number.
    let mut too_large = vec![0xff; 9];
    too_large.push(0x02);
    assert_eq!(read_uvarint(&too_large, 0), None);
    let mut eleven = vec![0x80; 10];
    eleven.push(0x01);
    assert_eq!(read_uvarint(&eleven, 0), None);
}

fn unsigned_buffer(mut n: u64) -> Vec<u8> {
    let mut v = Vec::new();
    while n >= 128 {
        v.push((n % 128) as u8 + 128);
        n /= 128;
    }
    v.push(n as u8);
    v
}

#[test]
fn heads_are_written_in_the_shortest_form() {
    let cases: [(u8, u64, &[u8]); 9] = [
        (0, 0, &[0x00]),
        (0, 23, &[0x17]),
        (0, 24, &[0x18, 24]),
        (0, 255, &[0x18, 255]),
        (0, 256, &[0x19, 1, 0]),
        (2, 65535, &[0x59, 0xff, 0xff]),
        (4, 65536, &[0x9a, 0, 1, 0, 0]),
        (6, 42, &[0xd8, 42]),
        (0, u64::MAX, &[0x1b, 0xff, 0xff, 0xff, 0xff, 0xff, 0xff, 0xff, 0xff]),
    ];
    for (major, n, expected) in cases {
        let mut out = Vec::new();
        write_head(&mut out, major, n);
        assert_eq!(out, expected);
        let head = read_head(&out, 0).unwrap();
        assert_eq!((head.major, head.arg, head.end), (major, n, expected.len()));
    }
    assert!(read_head(&[], 0).is_none());
    assert!(read_head(&[0x18], 0).is_none());
    assert!(read_head(&[0x1c], 0).is_none());
    assert!(read_head(&[0x5f], 0).is_none());
    let mut out = Vec::new();
    write_byte_string(&mut out, b"abc");
    assert_eq!(out, vec![0x43, b'a', b'b', b'c']);
    assert_eq!(read_byte_string(&out, 0), Some((b"abc".to_vec(), 4)));
    assert_eq!(read_byte_string(&out[..3], 0), None);
}

#[test]
fn items_are_skipped_whole() {
    let values: Vec<Vec<u8>> = vec![
        to_vec(&5u64).unwrap(),
        to_vec(&"text").unwrap(),
        to_vec(&(1u8, "two", (3u8, 4u8))).unwrap(),
        to_vec(&vec![vec![1u8, 2], vec![], vec![3]]).unwrap(),
        to_vec(&Some(some_cid(b"x"))).unwrap(),
        to_vec(&None::<u8>).unwrap(),
        to_vec(&true).unwrap(),
        to_vec(&(-7i64)).unwrap(),
        to_vec(&std::collections::BTreeMap::from([("a", 1u8), ("b", 2u8)])).unwrap(),
    ];
    for value in values {
        assert_eq!(skip_item(&value, 0), Some(value.len()));
        let mut more = vec![0xffu8];
        more.extend_from_slice(&value);
        more.push(0x01);
        assert_eq!(skip_item(&more, 1), Some(more.len() - 1));
        assert_eq!(skip_item(&value[..value.len() - 1], 0), None);
    }
    assert_eq!(skip_item(&[], 0), None);
    assert_eq!(skip_item(&[0x82, 0x01], 0), None);
    assert_eq!(skip_item(&[0x9f, 0x01, 0xff], 0), None);
}

#[test]
fn versions_have_their_numbers() {
    let all = [
        StateTreeVersion::V0,
        StateTreeVersion::V1,
        StateTreeVersion::V2,
        StateTreeVersion::V3,
        StateTreeVersion::V4,
        StateTreeVersion::V5,
    ];
    for (n, v) in all.iter().enumerate() {
        assert_eq!(v.to_u64(), n as u64);
        assert_eq!(StateTreeVersion::from_u64(n as u64), Some(*v));
        assert_eq!(v.is_supported(), n == 5);
    }
    assert_eq!(StateTreeVersion::from_u64(6), None);
}
