use cid::multihash::Multihash;
use fvm::cid::Cid;
use fvm::manifest::{decode_entries, Builtin, Manifest, ManifestError};
use fvm::store::{put_block, DAG_CBOR};
use fvm::syscalls::{exit, Abort, ExitMessage};
use fvm_ipld_blockstore::MemoryBlockstore;
use fvm_ipld_encoding::to_vec;
use fvm_shared::{IDENTITY_HASH, IPLD_RAW};

const NAMES: [&str; 11] = [
    "account",
    "system",
    "init",
    "placeholder",
    "eam",
    "ethaccount",
    "storagemarket",
    "storagepower",
    "verifiedregistry",
    "datacap",
    "reward",
];

fn outside_id_cid(path: &[u8]) -> cid::Cid {
    cid::Cid::new_v1(IPLD_RAW, Multihash::wrap(IDENTITY_HASH, path).unwrap())
}

fn id_cid(path: &str) -> Cid {
    Cid::from_bytes(&outside_id_cid(path.as_bytes()).to_bytes()).unwrap()
}

fn entries_without(left_out: &[&str]) -> Vec<(String, Cid)> {
    NAMES
        .iter()
        .filter(|name| !left_out.contains(name))
        .map(|name| (name.to_string(), id_cid(&format!("code/{name}"))))
        .collect()
}

#[test]
fn an_identifier_that_wraps_a_digest_has_the_bytes_of_its_parts() {
    let c = Cid::wrapping(IPLD_RAW, IDENTITY_HASH, b"fil/test/system");
    let mut expected = vec![0x01u8, 0x55, 0x00, 15];
    expected.extend_from_slice(b"fil/test/system");
    assert_eq!(c.to_bytes(), expected);
    assert_eq!(c.to_bytes(), outside_id_cid(b"fil/test/system").to_bytes());

    let digest = [7u8; 64];
    let long = Cid::wrapping(0x71, 0xb220, &digest);
    let outside = cid::Cid::new_v1(0x71, Multihash::<64>::wrap(0xb220, &digest).unwrap());
    assert_eq!(long.to_bytes(), outside.to_bytes());
    assert_eq!(&long.to_bytes()[..5], &[0x01, 0x71, 0xa0, 0xe4, 0x02]);

    let empty = Cid::wrapping(IPLD_RAW, IDENTITY_HASH, b"");
    assert_eq!(empty.to_bytes(), vec![0x01, 0x55, 0x00, 0x00]);
}

#[test]
fn the_manifest_for_trials_names_every_actor() {
    let m = Manifest::dummy();
    assert_eq!(m.get_system_code(), &id_cid("fil/test/system"));
    assert_eq!(m.get_init_code(), &id_cid("fil/test/init"));
    assert_eq!(m.get_eam_code(), &id_cid("fil/test/eam"));
    assert_eq!(m.get_ethaccount_code(), &id_cid("fil/test/ethaccount"));
    assert_eq!(m.get_account_code(), &id_cid("fil/test/account"));
    assert_eq!(m.get_placeholder_code(), &id_cid("fil/test/placeholder"));
    assert_eq!(m.get_storagemarket_code(), &id_cid("fil/test/storagemarket"));
    assert_eq!(m.get_storagepower_code(), &id_cid("fil/test/storagepower"));
    assert_eq!(m.get_datacap_code(), &id_cid("fil/test/datacap"));
    assert_eq!(m.get_verifiedregistry_code(), &id_cid("fil/test/verifiedregistry"));
    assert_eq!(m.get_reward_code(), &id_cid("fil/test/reward"));
    assert_eq!(m.code(Builtin::Reward), &id_cid("fil/test/reward"));

    assert_eq!(m.builtin_actor_codes().len(), 13);
    assert_eq!(m.code_by_id(0), None);
    assert_eq!(m.code_by_id(1), Some(&id_cid("fil/test/system")));
    assert_eq!(m.code_by_id(5), Some(&id_cid("fil/test/cron")));
    assert_eq!(m.code_by_id(8), Some(&id_cid("fil/test/embryo")));
    assert_eq!(m.code_by_id(13), Some(&id_cid("fil/test/reward")));
    assert_eq!(m.code_by_id(14), None);
    assert_eq!(m.code_by_id(u32::MAX), None);

    assert_eq!(m.id_by_code(&id_cid("fil/test/system")), 1);
    assert_eq!(m.id_by_code(&id_cid("fil/test/account")), 6);
    assert_eq!(m.id_by_code(&id_cid("fil/test/reward")), 13);
    assert_eq!(m.id_by_code(&id_cid("fil/test/other")), 0);
}

#[test]
fn a_code_is_told_from_the_others() {
    let m = Manifest::dummy();
    let account = id_cid("fil/test/account");
    let reward = id_cid("fil/test/reward");
    assert!(m.is_account_actor(&account));
    assert!(!m.is_account_actor(&reward));
    assert!(m.is_reward_actor(&reward));
    assert!(!m.is_reward_actor(&account));
    assert!(m.is_placeholder_actor(&id_cid("fil/test/placeholder")));
    assert!(!m.is_placeholder_actor(&id_cid("fil/test/embryo")));
    assert!(m.is_ethaccount_actor(&id_cid("fil/test/ethaccount")));
    assert!(m.is_storagemarket_actor(&id_cid("fil/test/storagemarket")));
    assert!(m.is_storagepower_actor(&id_cid("fil/test/storagepower")));
    assert!(m.is_verifiedregistry_actor(&id_cid("fil/test/verifiedregistry")));
    assert!(m.is_datacap_actor(&id_cid("fil/test/datacap")));
    assert!(!m.is_datacap_actor(&id_cid("fil/test/storagepower")));
}

#[test]
fn the_first_actor_that_is_not_named_is_reported() {
    assert!(matches!(
        Manifest::new(Vec::new()),
        Err(ManifestError::Missing(Builtin::Account))
    ));
    for (at, name) in NAMES.iter().enumerate() {
        let r = Manifest::new(entries_without(&[name]));
        match r {
            Err(ManifestError::Missing(actor)) => assert_eq!(actor.name(), *name),
            _ => panic!("an actor is missing"),
        }
        if at + 1 < NAMES.len() {
            let r = Manifest::new(entries_without(&[name, "reward"]));
            match r {
                Err(ManifestError::Missing(actor)) => assert_eq!(actor.name(), *name),
                _ => panic!("two actors are missing"),
            }
        }
    }
    assert!(Manifest::new(entries_without(&[])).is_ok());
}

#[test]
fn a_name_or_code_that_comes_again_takes_the_place_of_the_one_before() {
    let mut entries = entries_without(&[]);
    entries.push(("account".to_string(), id_cid("code/second")));
    entries.push(("other".to_string(), id_cid("code/system")));
    let m = Manifest::new(entries).unwrap();
    assert_eq!(m.get_account_code(), &id_cid("code/second"));
    assert!(m.is_account_actor(&id_cid("code/second")));
    assert!(!m.is_account_actor(&id_cid("code/account")));
    assert_eq!(m.id_by_code(&id_cid("code/account")), 1);
    assert_eq!(m.id_by_code(&id_cid("code/second")), 12);
    assert_eq!(m.id_by_code(&id_cid("code/system")), 13);
    assert_eq!(m.code_by_id(2), Some(&id_cid("code/system")));
    assert_eq!(m.code_by_id(13), Some(&id_cid("code/system")));
}

#[test]
fn a_manifest_is_loaded_from_the_list_that_the_store_holds() {
    let outside: Vec<(String, cid::Cid)> = NAMES
        .iter()
        .map(|name| (name.to_string(), outside_id_cid(format!("code/{name}").as_bytes())))
        .collect();
    let block = to_vec(&outside).unwrap();
    let mut store = MemoryBlockstore::default();
    let root = put_block(&mut store, DAG_CBOR, &block).unwrap();

    let m = Manifest::load(&store, &root, 1).unwrap();
    assert_eq!(m.get_init_code(), &id_cid("code/init"));
    assert_eq!(m.id_by_code(&id_cid("code/reward")), 11);
    assert_eq!(m.builtin_actor_codes().len(), 11);

    assert!(matches!(
        Manifest::load(&store, &root, 2),
        Err(ManifestError::UnsupportedVersion(2))
    ));
    assert!(matches!(
        Manifest::load(&store, &root, 0),
        Err(ManifestError::UnsupportedVersion(0))
    ));
    let absent = id_cid("nothing");
    match Manifest::load(&store, &absent, 1) {
        Err(ManifestError::RootNotFound(c)) => assert_eq!(c, absent),
        _ => panic!("nothing is stored under the root"),
    }

    let short: Vec<(String, cid::Cid)> = outside[..10].to_vec();
    let root = put_block(&mut store, DAG_CBOR, &to_vec(&short).unwrap()).unwrap();
    assert!(matches!(
        Manifest::load(&store, &root, 1),
        Err(ManifestError::Missing(Builtin::Reward))
    ));

    let root = put_block(&mut store, DAG_CBOR, &[0x82, 0x01, 0x02]).unwrap();
    assert!(matches!(Manifest::load(&store, &root, 1), Err(ManifestError::Malformed)));
}

#[test]
fn entries_are_read_as_they_were_written() {
    let outside: Vec<(String, cid::Cid)> = vec![
        ("account".to_string(), outside_id_cid(b"a")),
        ("caf\u{e9} \u{4e2d}\u{6587} \u{1f600}".to_string(), outside_id_cid(b"b")),
        (String::new(), outside_id_cid(b"")),
    ];
    let block = to_vec(&outside).unwrap();
    let entries = decode_entries(&block).unwrap();
    assert_eq!(entries.len(), 3);
    for (read, written) in entries.iter().zip(outside.iter()) {
        assert_eq!(read.0, written.0);
        assert_eq!(read.1.to_bytes(), written.1.to_bytes());
    }
    assert_eq!(decode_entries(&[0x80]).unwrap().len(), 0);

    // A name that is no UTF-8.
    let mut bad = vec![0x81, 0x82, 0x62, 0xc3, 0x28];
    let link = to_vec(&outside_id_cid(b"a")).unwrap();
    bad.extend_from_slice(&link);
    assert!(decode_entries(&bad).is_none());
    // The same with a name that is UTF-8.
    let mut good = vec![0x81, 0x82, 0x62, 0xc3, 0xa9];
    good.extend_from_slice(&link);
    assert_eq!(decode_entries(&good).unwrap()[0].0, "\u{e9}");
    // Bytes after the list, a list that ends early, a pair of three.
    let mut longer = block.clone();
    longer.push(0);
    assert!(decode_entries(&longer).is_none());
    assert!(decode_entries(&block[..block.len() - 1]).is_none());
    assert!(decode_entries(&[]).is_none());
    assert!(decode_entries(&[0xa0]).is_none());
    let mut three = vec![0x81, 0x83, 0x61, 0x61];
    three.extend_from_slice(&link);
    three.push(0x00);
    assert!(decode_entries(&three).is_none());
}

#[test]
fn an_actor_exits_with_a_code_that_it_may_use() {
    for code in [0u32, 16, 17, 1000, u32::MAX] {
        let Abort::Exit(with, text, blk) = exit(code, 7, ExitMessage::Absent);
        assert_eq!((with, text.as_str(), blk), (code, "actor aborted", 7));
        let Abort::Exit(with, text, blk) = exit(code, 0, ExitMessage::Text("done".to_string()));
        assert_eq!((with, text.as_str(), blk), (code, "done", 0));
        let Abort::Exit(with, text, blk) =
            exit(code, 3, ExitMessage::Unreadable("out of bounds".to_string()));
        assert_eq!(
            (with, text.as_str(), blk),
            (code, "failed to extract error message: out of bounds", 3)
        );
    }
    for code in 1u32..16 {
        let Abort::Exit(with, text, blk) = exit(code, 5, ExitMessage::Text("done".to_string()));
        assert_eq!(with, 9);
        assert_eq!(text, format!("actor aborted with code {code}"));
        assert_eq!(blk, 5);
        let outside = fvm_shared::error::ExitCode::new(code);
        assert!(!outside.is_success() && outside.is_system_error());
        assert_eq!(text, format!("actor aborted with code {outside}"));
    }
    assert_eq!(fvm_shared::error::ExitCode::SYS_ILLEGAL_EXIT_CODE.value(), 9);
    assert_eq!(fvm_shared::error::ExitCode::FIRST_USER_EXIT_CODE, 16);
}

#[test]
fn an_identifier_tells_its_codec() {
    assert_eq!(Cid::wrapping(IPLD_RAW, IDENTITY_HASH, b"raw").codec(), 0x55);
    assert_eq!(Cid::wrapping(0x71, 0xb220, &[1u8; 32]).codec(), 0x71);
    assert_eq!(Cid::wrapping(u64::MAX, 0x12, &[]).codec(), u64::MAX);
    assert_eq!(fvm::store::block_cid(DAG_CBOR, b"block").codec(), DAG_CBOR);
    // An identifier of version zero has the codec of its version.
    let mut v0 = vec![0x12u8, 0x20];
    v0.extend_from_slice(&[7u8; 32]);
    let old = Cid::from_bytes(&v0).unwrap();
    assert_eq!(old.codec(), 0x70);
    assert_eq!(old.codec(), cid::Cid::try_from(v0.as_slice()).unwrap().codec());
}
