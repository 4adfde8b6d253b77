use fvm::actor::ActorState;
use fvm::amount::TokenAmount;
use fvm::cid::Cid;
use fvm::error::{ErrorNumber, ExecutionError, Fatal};
use fvm::kernel::{BlockError, BlockStat, DefaultKernel};
use fvm::state_tree::StateTree;
use fvm::store::{block_cid, put_block, DAG_CBOR};
use fvm::version::StateTreeVersion;
use fvm_ipld_blockstore::MemoryBlockstore;
use multihash_codetable::{Code, MultihashDigest};

const RECEIVER: u64 = 7;

fn code(name: &[u8]) -> Cid {
    Cid::wrapping(0x55, 0, name)
}

fn receiver() -> ActorState {
    ActorState::new(code(b"code"), code(b"state"), TokenAmount::from_atto(5), 3, None)
}

fn kernel_over(store: MemoryBlockstore, with_receiver: bool) -> DefaultKernel<MemoryBlockstore> {
    let mut tree = StateTree::new(store, StateTreeVersion::V5).unwrap();
    if with_receiver {
        tree.set_actor(RECEIVER, receiver()).unwrap();
    }
    DefaultKernel::new(tree, 1, RECEIVER, 42, TokenAmount::from_atto(1000))
}

fn kernel() -> DefaultKernel<MemoryBlockstore> {
    kernel_over(MemoryBlockstore::default(), true)
}

#[test]
fn the_kernel_tells_of_its_message() {
    let k = kernel();
    assert_eq!(k.msg_caller(), 1);
    assert_eq!(k.msg_receiver(), RECEIVER);
    assert_eq!(k.msg_method_number(), 42);
    assert_eq!(k.msg_method_params(), 0);
    assert_eq!(k.msg_value_received(), 1000);
    let mut tree = k.take();
    assert_eq!(tree.get_actor(RECEIVER).unwrap(), Some(receiver()));
}

#[test]
fn amounts_that_fit_are_numbers_of_128_bits() {
    assert_eq!(TokenAmount::zero().to_u128(), Some(0));
    assert_eq!(TokenAmount::from_atto(u64::MAX).to_u128(), Some(u64::MAX as u128));
    assert_eq!(TokenAmount::from_bytes_be(&[0xff; 16]).to_u128(), Some(u128::MAX));
    assert_eq!(
        TokenAmount::from_bytes_be(&[1, 2, 3, 4, 5, 6, 7, 8, 9, 10]).to_u128(),
        Some(0x0102_0304_0506_0708_090a)
    );
    let mut more = vec![1u8];
    more.extend_from_slice(&[0; 16]);
    assert_eq!(TokenAmount::from_bytes_be(&more).to_u128(), None);
    let mut padded = vec![0u8; 4];
    padded.extend_from_slice(&[0xff; 16]);
    assert_eq!(TokenAmount::from_bytes_be(&padded).to_u128(), Some(u128::MAX));
}

#[test]
fn the_root_of_the_receiver_is_read_and_set() {
    let mut k = kernel();
    assert_eq!(k.root().unwrap(), code(b"state"));
    k.set_root(code(b"next")).unwrap();
    assert_eq!(k.root().unwrap(), code(b"next"));
    let mut tree = k.take();
    let actor = tree.get_actor(RECEIVER).unwrap().unwrap();
    assert_eq!(actor.state, code(b"next"));
    assert_eq!(actor.code, code(b"code"));
    assert_eq!(actor.sequence, 3);
    assert_eq!(actor.balance, TokenAmount::from_atto(5));
    assert_eq!(actor.delegated_address, None);
}

#[test]
fn a_receiver_that_is_no_actor_has_no_root() {
    let mut k = kernel_over(MemoryBlockstore::default(), false);
    match k.root() {
        Err(ExecutionError::Fatal(Fatal::ActorLookup(id, None))) => assert_eq!(id, RECEIVER),
        _ => panic!("the receiver is no actor"),
    }
    match k.set_root(code(b"next")) {
        Err(ExecutionError::Fatal(Fatal::ActorLookup(id, None))) => assert_eq!(id, RECEIVER),
        _ => panic!("the receiver is no actor"),
    }
    assert_eq!(k.take().get_actor(RECEIVER).unwrap(), None);
}

#[test]
fn the_root_is_not_set_while_changes_are_refused() {
    let mut tree = StateTree::new(MemoryBlockstore::default(), StateTreeVersion::V5).unwrap();
    tree.set_actor(RECEIVER, receiver()).unwrap();
    tree.begin_transaction(true);
    let mut k = DefaultKernel::new(tree, 1, RECEIVER, 0, TokenAmount::zero());
    match k.set_root(code(b"next")) {
        Err(ExecutionError::Syscall(e)) => assert_eq!(e.number, ErrorNumber::ReadOnly),
        _ => panic!("changes are refused"),
    }
    assert_eq!(k.root().unwrap(), code(b"state"));
}

#[test]
fn blocks_are_opened_under_handles_that_count_from_one() {
    let mut k = kernel();
    assert_eq!(k.block_create(0x71, b"first").unwrap(), 1);
    assert_eq!(k.block_create(0x55, b"").unwrap(), 2);
    assert_eq!(k.block_create(0x55, b"third block").unwrap(), 3);
    assert_eq!(k.block_stat(1).unwrap(), BlockStat { codec: 0x71, size: 5 });
    assert_eq!(k.block_stat(2).unwrap(), BlockStat { codec: 0x55, size: 0 });
    assert_eq!(k.block_stat(3).unwrap(), BlockStat { codec: 0x55, size: 11 });
    for id in [0u32, 4, u32::MAX] {
        assert!(matches!(k.block_stat(id), Err(BlockError::InvalidHandle(i)) if i == id));
        let mut buf = [0u8; 2];
        assert!(matches!(
            k.block_read(id, 0, &mut buf),
            Err(BlockError::InvalidHandle(i)) if i == id
        ));
        assert_eq!(buf, [0, 0]);
        assert!(matches!(
            k.block_link(id, 0xb220, 32),
            Err(BlockError::InvalidHandle(i)) if i == id
        ));
    }
}

#[test]
fn a_block_is_read_from_an_offset() {
    let mut k = kernel();
    let id = k.block_create(0x55, b"third block").unwrap();
    let mut all = [0u8; 11];
    assert_eq!(k.block_read(id, 0, &mut all).unwrap(), 11);
    assert_eq!(&all, b"third block");
    let mut part = [0u8; 5];
    assert_eq!(k.block_read(id, 6, &mut part).unwrap(), 5);
    assert_eq!(&part, b"block");
    let mut inner = [0u8; 3];
    assert_eq!(k.block_read(id, 2, &mut inner).unwrap(), 3);
    assert_eq!(&inner, b"ird");
    let mut none: [u8; 0] = [];
    assert_eq!(k.block_read(id, 4, &mut none).unwrap(), 0);
    // From the end on nothing is copied, whatever the buffer.
    let mut kept = [9u8; 4];
    assert_eq!(k.block_read(id, 11, &mut kept).unwrap(), 0);
    assert_eq!(k.block_read(id, 500, &mut kept).unwrap(), 0);
    assert_eq!(kept, [9; 4]);
}

#[test]
fn a_block_of_the_store_is_opened_with_the_codec_of_its_identifier() {
    let mut store = MemoryBlockstore::default();
    let cbor = put_block(&mut store, DAG_CBOR, &[0x80]).unwrap();
    let raw = put_block(&mut store, 0x55, b"raw bytes").unwrap();
    let mut k = kernel_over(store, true);
    let first = k.block_open(&cbor).unwrap();
    let second = k.block_open(&raw).unwrap();
    assert_eq!((first, second), (1, 2));
    assert_eq!(k.block_stat(first).unwrap(), BlockStat { codec: 0x71, size: 1 });
    assert_eq!(k.block_stat(second).unwrap(), BlockStat { codec: 0x55, size: 9 });
    let mut buf = [0u8; 9];
    assert_eq!(k.block_read(second, 0, &mut buf).unwrap(), 9);
    assert_eq!(&buf, b"raw bytes");

    let absent = block_cid(DAG_CBOR, b"nothing");
    match k.block_open(&absent) {
        Err(BlockError::MissingState(c)) => assert_eq!(c, absent),
        _ => panic!("the store holds no such block"),
    }
    assert!(matches!(k.block_stat(3), Err(BlockError::InvalidHandle(3))));
}

#[test]
fn a_block_is_linked_under_a_hash_function() {
    let mut k = kernel();
    let data = b"some block";
    let id = k.block_create(DAG_CBOR, data).unwrap();

    let whole = k.block_link(id, 0xb220, 32).unwrap();
    assert_eq!(whole, block_cid(DAG_CBOR, data));
    let outside = cid::Cid::new_v1(DAG_CBOR, Code::Blake2b256.digest(data));
    assert_eq!(whole.to_bytes(), outside.to_bytes());

    let cut = k.block_link(id, 0x12, 20).unwrap();
    let outside = cid::Cid::new_v1(DAG_CBOR, Code::Sha2_256.digest(data).truncate(20));
    assert_eq!(cut.to_bytes(), outside.to_bytes());
    assert_eq!(cut.to_bytes().len(), 4 + 20);

    let none = k.block_link(id, 0x12, 0).unwrap();
    assert_eq!(none.to_bytes(), vec![0x01, 0x71, 0x12, 0x00]);

    assert!(matches!(
        k.block_link(id, 0x12, 33),
        Err(BlockError::InvalidMultihashSpec { code: 0x12, length: 33 })
    ));
    assert!(matches!(
        k.block_link(id, 0xb220, u32::MAX),
        Err(BlockError::InvalidMultihashSpec { code: 0xb220, length: u32::MAX })
    ));
    assert!(matches!(
        k.block_link(id, 0xffff_ffff_ffff, 32),
        Err(BlockError::InvalidMultihashSpec { code: 0xffff_ffff_ffff, length: 32 })
    ));
}

#[test]
fn returned_values_are_taken_the_latest_first() {
    let mut k = kernel();
    assert_eq!(k.return_size(), 0);
    k.return_discard();
    let mut nothing: [u8; 0] = [];
    assert_eq!(k.return_pop(&mut nothing), 0);

    k.return_push(b"first".to_vec());
    k.return_push(b"second value".to_vec());
    k.return_push(b"third".to_vec());
    assert_eq!(k.return_size(), 5);
    k.return_discard();
    assert_eq!(k.return_size(), 12);
    let mut part = [0u8; 6];
    assert_eq!(k.return_pop(&mut part), 6);
    assert_eq!(&part, b"second");
    assert_eq!(k.return_size(), 5);
    let mut all = [0u8; 5];
    assert_eq!(k.return_pop(&mut all), 5);
    assert_eq!(&all, b"first");
    assert_eq!(k.return_size(), 0);
}

#[test]
fn what_a_failed_sending_changed_is_undone() {
    let mut k = kernel();
    k.send_begin();
    k.set_root(code(b"next")).unwrap();
    assert_eq!(k.root().unwrap(), code(b"next"));
    k.send_end(true).unwrap();
    assert_eq!(k.root().unwrap(), code(b"state"));

    k.send_begin();
    k.set_root(code(b"next")).unwrap();
    k.send_end(false).unwrap();
    assert_eq!(k.root().unwrap(), code(b"next"));

    match k.send_end(false) {
        Err(ExecutionError::Fatal(Fatal::NoTransaction)) => {}
        _ => panic!("no transaction is open"),
    }
    assert!(!k.state_tree().in_transaction());
}
