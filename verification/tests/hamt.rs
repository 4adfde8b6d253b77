use fvm::cid::Cid;
use fvm::hamt::codec::{decode_node, encode_node};
use fvm::hamt::hash::{hash_key, slot_at, Config};
use fvm::hamt::ops::Error;
use fvm::hamt::tree::Pointer;
use fvm::hamt::{Hamt, Visit};
use fvm::store::{block_cid, Store, DAG_CBOR};
use fvm_ipld_blockstore::MemoryBlockstore;
use fvm_ipld_encoding::to_vec;

fn key(n: u64) -> Vec<u8> {
    format!("key-{}", n).into_bytes()
}

fn value(n: u64) -> Vec<u8> {
    to_vec(&(n, format!("value-{}", n))).unwrap()
}

fn block_count(store: &MemoryBlockstore) -> usize {
    let copy = MemoryBlockstore::default();
    store.copy_to(&copy).unwrap();
    format!("{:?}", copy).matches("Cid(").count()
}

#[test]
fn set_get_delete() {
    let mut map = Hamt::new(MemoryBlockstore::default());
    assert!(map.is_empty());
    assert_eq!(map.get(b"a").unwrap(), None);
    assert_eq!(map.set(b"a", &value(1)).unwrap(), None);
    assert!(!map.is_empty());
    assert_eq!(map.get(b"a").unwrap(), Some(value(1)));
    assert_eq!(map.set(b"a", &value(2)).unwrap(), Some(value(1)));
    assert_eq!(map.set(b"a", &value(2)).unwrap(), Some(value(2)));
    assert_eq!(map.get(b"a").unwrap(), Some(value(2)));
    assert_eq!(map.contains_key(b"a").unwrap(), true);
    assert_eq!(map.contains_key(b"b").unwrap(), false);
    assert_eq!(map.delete(b"b").unwrap(), None);
    assert_eq!(map.delete(b"a").unwrap(), Some((b"a".to_vec(), value(2))));
    assert_eq!(map.delete(b"a").unwrap(), None);
    assert_eq!(map.get(b"a").unwrap(), None);
    assert!(map.is_empty());
}

#[test]
fn set_if_absent_keeps_what_is_there() {
    let mut map = Hamt::new(MemoryBlockstore::default());
    assert_eq!(map.set_if_absent(b"k", &value(1)).unwrap(), true);
    assert_eq!(map.set_if_absent(b"k", &value(2)).unwrap(), false);
    assert_eq!(map.get(b"k").unwrap(), Some(value(1)));
    assert_eq!(map.set_if_absent(b"l", &value(3)).unwrap(), true);
    assert_eq!(map.get(b"l").unwrap(), Some(value(3)));
}

#[test]
fn values_must_be_one_item() {
    let mut map = Hamt::new(MemoryBlockstore::default());
    assert!(matches!(map.set(b"k", &[]), Err(Error::NotAnItem)));
    assert!(matches!(map.set(b"k", &[0x01, 0x02]), Err(Error::NotAnItem)));
    assert!(matches!(map.set(b"k", &[0x82, 0x01]), Err(Error::NotAnItem)));
    assert!(matches!(map.set_if_absent(b"k", &[0x5f]), Err(Error::NotAnItem)));
    assert_eq!(map.get(b"k").unwrap(), None);
    assert!(map.is_empty());
    assert_eq!(map.set(b"k", &[0x82, 0x01, 0x02]).unwrap(), None);
}

#[test]
fn many_keys_with_every_bit_width() {
    for bit_width in 1..=8u32 {
        let mut map = Hamt::new_with_bit_width(MemoryBlockstore::default(), bit_width);
        for n in 0..300 {
            assert_eq!(map.set(&key(n), &value(n)).unwrap(), None);
        }
        for n in 0..300 {
            assert_eq!(map.get(&key(n)).unwrap(), Some(value(n)));
        }
        assert_eq!(map.get(&key(300)).unwrap(), None);
        let cid = map.flush().unwrap();
        let store = map.into_store();
        let mut loaded = Hamt::load_with_bit_width(&cid, store, bit_width).unwrap();
        for n in 0..300 {
            assert_eq!(loaded.get(&key(n)).unwrap(), Some(value(n)));
        }
        assert_eq!(loaded.get(&key(300)).unwrap(), None);
        for n in (0..300).step_by(2) {
            assert_eq!(loaded.delete(&key(n)).unwrap(), Some((key(n), value(n))));
        }
        for n in 0..300 {
            let expected = if n % 2 == 0 { None } else { Some(value(n)) };
            assert_eq!(loaded.get(&key(n)).unwrap(), expected);
        }
        assert_eq!(loaded.flush().unwrap(), loaded.flush().unwrap());
    }
}

#[test]
fn small_buckets_and_large_buckets() {
    for bucket_size in [1usize, 2, 3, 8] {
        let conf = Config { bit_width: 3, bucket_size };
        assert!(conf.is_valid());
        let mut map = Hamt::new_with_config(MemoryBlockstore::default(), conf);
        for n in 0..200 {
            map.set(&key(n), &value(n)).unwrap();
        }
        let cid = map.flush().unwrap();
        let mut loaded = Hamt::load_with_config(&cid, map.into_store(), conf).unwrap();
        for n in 0..200 {
            assert_eq!(loaded.get(&key(n)).unwrap(), Some(value(n)));
            assert_eq!(loaded.delete(&key(n)).unwrap(), Some((key(n), value(n))));
        }
        assert!(loaded.is_empty());
    }
    assert!(!Config { bit_width: 0, bucket_size: 3 }.is_valid());
    assert!(!Config { bit_width: 9, bucket_size: 3 }.is_valid());
    assert!(!Config { bit_width: 5, bucket_size: 0 }.is_valid());
    assert_eq!(Config::default(), Config { bit_width: 8, bucket_size: 3 });
}

#[test]
fn the_root_depends_on_the_pairs_alone() {
    let mut forward = Hamt::new_with_bit_width(MemoryBlockstore::default(), 5);
    for n in 0..400 {
        forward.set(&key(n), &value(n)).unwrap();
    }
    let mut backward = Hamt::new_with_bit_width(MemoryBlockstore::default(), 5);
    for n in (0..400).rev() {
        backward.set(&key(n), &value(n + 1)).unwrap();
    }
    for n in 0..400 {
        backward.set(&key(n), &value(n)).unwrap();
    }
    // A detour over keys that are deleted again.
    let mut detour = Hamt::new_with_bit_width(MemoryBlockstore::default(), 5);
    for n in 200..800 {
        detour.set(&key(n), &value(n)).unwrap();
    }
    detour.flush().unwrap();
    for n in 0..200 {
        detour.set(&key(n), &value(n)).unwrap();
    }
    for n in 400..800 {
        detour.delete(&key(n)).unwrap();
    }
    let cid = forward.flush().unwrap();
    assert_eq!(backward.flush().unwrap(), cid);
    assert_eq!(detour.flush().unwrap(), cid);
    // The same pairs after a load.
    let mut loaded = Hamt::load_with_bit_width(&cid, forward.into_store(), 5).unwrap();
    loaded.set(&key(1000), &value(1000)).unwrap();
    assert_ne!(loaded.flush().unwrap(), cid);
    loaded.delete(&key(1000)).unwrap();
    assert_eq!(loaded.flush().unwrap(), cid);
}

#[test]
fn deleting_every_key_gives_the_empty_tree() {
    let mut fresh = Hamt::new_with_bit_width(MemoryBlockstore::default(), 5);
    let empty = fresh.flush().unwrap();
    assert_eq!(empty, block_cid(DAG_CBOR, &[0x82, 0x40, 0x80]));
    for count in [1u64, 3, 4, 50, 700] {
        let mut map = Hamt::new_with_bit_width(MemoryBlockstore::default(), 5);
        for n in 0..count {
            map.set(&key(n), &value(n)).unwrap();
        }
        assert_ne!(map.flush().unwrap(), empty);
        for n in 0..count {
            assert!(map.delete(&key(n)).unwrap().is_some());
        }
        assert!(map.is_empty());
        assert_eq!(map.flush().unwrap(), empty);
    }
}

#[test]
fn flush_without_changes_writes_nothing() {
    let mut map = Hamt::new(MemoryBlockstore::default());
    for n in 0..100 {
        map.set(&key(n), &value(n)).unwrap();
    }
    let first = map.flush().unwrap();
    let blocks = block_count(map.store());
    assert!(blocks >= 1);
    assert_eq!(map.flush().unwrap(), first);
    assert_eq!(map.get(&key(5)).unwrap(), Some(value(5)));
    assert_eq!(map.set(&key(5), &value(5)).unwrap(), Some(value(5)));
    assert_eq!(map.set_if_absent(&key(5), &value(6)).unwrap(), false);
    assert_eq!(map.delete(&key(1000)).unwrap(), None);
    assert_eq!(map.flush().unwrap(), first);
    assert_eq!(block_count(map.store()), blocks);
    map.set(&key(5), &value(6)).unwrap();
    let second = map.flush().unwrap();
    assert_ne!(second, first);
    assert!(block_count(map.store()) > blocks);
}

#[test]
fn loading_what_is_not_there_fails() {
    let missing = block_cid(DAG_CBOR, b"missing");
    match Hamt::load(&missing, MemoryBlockstore::default()) {
        Err(Error::CidNotFound(c)) => assert_eq!(c, missing),
        _ => panic!("expected CidNotFound"),
    }
    let mut store = MemoryBlockstore::default();
    let junk = fvm::store::put_block(&mut store, DAG_CBOR, b"junk").unwrap();
    match Hamt::load(&junk, store) {
        Err(Error::Malformed(c)) => assert_eq!(c, junk),
        _ => panic!("expected Malformed"),
    }
    let mut map = Hamt::new(MemoryBlockstore::default());
    map.set(b"a", &value(1)).unwrap();
    assert!(map.set_root(&missing).is_err());
    assert_eq!(map.get(b"a").unwrap(), Some(value(1)));
}

#[test]
fn a_missing_child_is_reported_when_it_is_needed() {
    let mut map = Hamt::new_with_bit_width(MemoryBlockstore::default(), 2);
    for n in 0..100 {
        map.set(&key(n), &value(n)).unwrap();
    }
    let cid = map.flush().unwrap();
    // A store with the root alone.
    let root = Store::get(map.store(), &cid).unwrap().unwrap();
    let mut store = MemoryBlockstore::default();
    assert_eq!(fvm::store::put_block(&mut store, DAG_CBOR, &root).unwrap(), cid);
    let mut loaded = Hamt::load_with_bit_width(&cid, store, 2).unwrap();
    assert!(matches!(loaded.get(&key(0)), Err(Error::CidNotFound(_))));
    assert!(matches!(loaded.set(&key(0), &value(9)), Err(Error::CidNotFound(_))));
    assert!(matches!(loaded.delete(&key(0)), Err(Error::CidNotFound(_))));
    assert_eq!(loaded.flush().unwrap(), cid);
}

#[test]
fn set_root_replaces_the_map() {
    let mut first = Hamt::new(MemoryBlockstore::default());
    first.set(b"a", &value(1)).unwrap();
    let a = first.flush().unwrap();
    first.set(b"b", &value(2)).unwrap();
    first.delete(b"a").unwrap();
    let b = first.flush().unwrap();
    first.set_root(&a).unwrap();
    assert_eq!(first.get(b"a").unwrap(), Some(value(1)));
    assert_eq!(first.get(b"b").unwrap(), None);
    assert_eq!(first.flush().unwrap(), a);
    first.set_root(&b).unwrap();
    assert_eq!(first.get(b"a").unwrap(), None);
    assert_eq!(first.get(b"b").unwrap(), Some(value(2)));
}

#[test]
fn a_node_is_written_as_bitmap_and_pointers() {
    let conf = Config { bit_width: 5, bucket_size: 3 };
    let mut map = Hamt::new_with_config(MemoryBlockstore::default(), conf);
    map.set(b"k", &[0x05]).unwrap();
    let cid = map.flush().unwrap();
    let block = Store::get(map.store(), &cid).unwrap().unwrap();
    let slot = slot_at(&hash_key(b"k"), 0, &conf).unwrap();
    assert!(slot < 32);
    // The bitmap is the number with the bit of the slot set, big-endian,
    // without leading zero bytes.
    let mut bitmap = vec![1u8 << (slot % 8)];
    bitmap.extend(std::iter::repeat(0u8).take(slot / 8));
    let mut expected = vec![0x82, 0x40 + bitmap.len() as u8];
    expected.extend_from_slice(&bitmap);
    // One pointer: the map {"0": [[h'6b', 5]]}.
    expected.extend_from_slice(&[0x81, 0xa1, 0x61, 0x30, 0x81, 0x82, 0x41, 0x6b, 0x05]);
    assert_eq!(block, expected);
    let node = decode_node(&block, &conf).unwrap();
    assert_eq!(node.slots.len(), 32);
    for (i, s) in node.slots.iter().enumerate() {
        match s {
            Some(Pointer::Values(pairs)) => {
                assert_eq!(i, slot);
                assert_eq!(pairs.len(), 1);
                assert_eq!(pairs[0].key, b"k".to_vec());
                assert_eq!(pairs[0].value, vec![0x05]);
            }
            None => assert_ne!(i, slot),
            _ => panic!("unexpected pointer"),
        }
    }
    assert_eq!(encode_node(&node), block);
    assert!(decode_node(&block[..block.len() - 1], &conf).is_none());
    assert!(decode_node(&block, &Config { bit_width: 2, bucket_size: 3 }).is_none());
}

#[test]
fn a_link_is_written_as_a_tagged_identifier() {
    let conf = Config { bit_width: 1, bucket_size: 1 };
    let mut map = Hamt::new_with_config(MemoryBlockstore::default(), conf);
    for n in 0..8 {
        map.set(&key(n), &[0x00]).unwrap();
    }
    let cid = map.flush().unwrap();
    let block = Store::get(map.store(), &cid).unwrap().unwrap();
    // Both slots of the root hold children: bitmap 3, two pointers, each the
    // map {"1": 42(h'00' + identifier)}.
    assert_eq!(&block[..4], &[0x82, 0x41, 0x03, 0x82]);
    let node = decode_node(&block, &conf).unwrap();
    let mut rest = &block[4..];
    for s in node.slots.iter() {
        match s {
            Some(Pointer::Link(child)) => {
                let id: Vec<u8> = child.to_bytes();
                let mut expected = vec![0xa1, 0x61, 0x31, 0xd8, 0x2a, 0x58, id.len() as u8 + 1, 0x00];
                expected.extend_from_slice(&id);
                assert_eq!(&rest[..expected.len()], &expected[..]);
                rest = &rest[expected.len()..];
                assert!(Store::get(map.store(), child).unwrap().is_some());
                assert_eq!(Cid::from_bytes(&id).unwrap(), *child);
            }
            _ => panic!("expected a link"),
        }
    }
    assert!(rest.is_empty());
}

#[test]
fn slots_are_the_bits_of_the_hash() {
    let hash: Vec<u8> = vec![0b1010_0101, 0b1100_0011, 0xff, 0x00];
    let conf = |bit_width| Config { bit_width, bucket_size: 3 };
    assert_eq!(slot_at(&hash, 0, &conf(8)), Some(0b1010_0101));
    assert_eq!(slot_at(&hash, 1, &conf(8)), Some(0b1100_0011));
    assert_eq!(slot_at(&hash, 3, &conf(8)), Some(0));
    assert_eq!(slot_at(&hash, 4, &conf(8)), None);
    assert_eq!(slot_at(&hash, 0, &conf(5)), Some(0b10100));
    assert_eq!(slot_at(&hash, 1, &conf(5)), Some(0b10111));
    assert_eq!(slot_at(&hash, 2, &conf(5)), Some(0b00001));
    assert_eq!(slot_at(&hash, 3, &conf(5)), Some(0b11111));
    assert_eq!(slot_at(&hash, 4, &conf(5)), Some(0b11110));
    assert_eq!(slot_at(&hash, 5, &conf(5)), Some(0));
    assert_eq!(slot_at(&hash, 6, &conf(5)), None);
    assert_eq!(slot_at(&hash, 0, &conf(1)), Some(1));
    assert_eq!(slot_at(&hash, 1, &conf(1)), Some(0));
    assert_eq!(slot_at(&hash, 31, &conf(1)), Some(0));
    assert_eq!(slot_at(&hash, 32, &conf(1)), None);
    assert_eq!(slot_at(&hash, usize::MAX, &conf(3)), None);
}

#[test]
fn entries_are_the_pairs_of_the_map() {
    let mut map = Hamt::new_with_bit_width(MemoryBlockstore::default(), 3);
    assert!(map.entries().unwrap().is_empty());
    for n in 0..200 {
        map.set(&key(n), &value(n)).unwrap();
    }
    let mut pairs: Vec<(Vec<u8>, Vec<u8>)> =
        map.entries().unwrap().into_iter().map(|kv| (kv.key, kv.value)).collect();
    let in_order = pairs.clone();
    pairs.sort();
    let mut expected: Vec<(Vec<u8>, Vec<u8>)> = (0..200).map(|n| (key(n), value(n))).collect();
    expected.sort();
    assert_eq!(pairs, expected);
    // The walk is the same after a flush and a load, when no node is in
    // memory.
    let cid = map.flush().unwrap();
    let loaded = Hamt::load_with_bit_width(&cid, map.into_store(), 3).unwrap();
    let again: Vec<(Vec<u8>, Vec<u8>)> =
        loaded.entries().unwrap().into_iter().map(|kv| (kv.key, kv.value)).collect();
    assert_eq!(again, in_order);
    // And it does not depend on the order of insertion.
    let mut other = Hamt::new_with_bit_width(MemoryBlockstore::default(), 3);
    for n in (0..200).rev() {
        other.set(&key(n), &value(n)).unwrap();
    }
    let reversed: Vec<(Vec<u8>, Vec<u8>)> =
        other.entries().unwrap().into_iter().map(|kv| (kv.key, kv.value)).collect();
    assert_eq!(reversed, in_order);
}

#[test]
fn for_each_visits_every_pair_until_the_visitor_fails() {
    let mut map = Hamt::new(MemoryBlockstore::default());
    for n in 0..50 {
        map.set(&key(n), &value(n)).unwrap();
    }
    let count = std::cell::Cell::new(0usize);
    map.for_each(|k: &Vec<u8>, v: &Vec<u8>| -> Result<(), ()> {
        assert!(k.starts_with(b"key-"));
        assert!(!v.is_empty());
        count.set(count.get() + 1);
        Ok(())
    })
    .unwrap();
    assert_eq!(count.get(), 50);
    let seen = std::cell::Cell::new(0usize);
    let r = map.for_each(|_: &Vec<u8>, _: &Vec<u8>| -> Result<(), &'static str> {
        seen.set(seen.get() + 1);
        if seen.get() == 10 {
            Err("enough")
        } else {
            Ok(())
        }
    });
    assert!(matches!(r, Err(Visit::Visitor("enough"))));
    assert_eq!(seen.get(), 10);
}
