//! The manifest of the built-in actors: which code each of them runs, and
//! the number of each code.

use crate::cbor::{read_head, MAJOR_ARRAY};
use crate::cid::{cid_v1_bytes, Cid, MAX_DIGEST_LEN};
use crate::hamt::codec::head_at;
use crate::ipld::{array_at, link_at, read_array, read_link, read_text, text_at};
use crate::store::{Store, StoreError};
use std::collections::HashMap;
use vstd::prelude::*;
use vstd::utf8::{decode_utf8, encode_utf8, is_ascii_chars_encode_utf8, valid_utf8};

verus! {

/// The built-in actors that a manifest must name.
#[derive(Debug, Clone, Copy, PartialEq, Eq)]
pub enum Builtin {
    Account,
    System,
    Init,
    Placeholder,
    Eam,
    EthAccount,
    StorageMarket,
    StoragePower,
    VerifiedRegistry,
    DataCap,
    Reward,
}

impl Builtin {
    /// The name under which a manifest lists the actor.
    pub open spec fn text(self) -> Seq<char> {
        match self {
            Builtin::Account => "account"@,
            Builtin::System => "system"@,
            Builtin::Init => "init"@,
            Builtin::Placeholder => "placeholder"@,
            Builtin::Eam => "eam"@,
            Builtin::EthAccount => "ethaccount"@,
            Builtin::StorageMarket => "storagemarket"@,
            Builtin::StoragePower => "storagepower"@,
            Builtin::VerifiedRegistry => "verifiedregistry"@,
            Builtin::DataCap => "datacap"@,
            Builtin::Reward => "reward"@,
        }
    }

    /// The name under which a manifest lists the actor.
    pub fn name(&self) -> (r: &'static str)
        ensures
            r@ == self.text(),
    {
        match self {
            Builtin::Account => "account",
            Builtin::System => "system",
            Builtin::Init => "init",
            Builtin::Placeholder => "placeholder",
            Builtin::Eam => "eam",
            Builtin::EthAccount => "ethaccount",
            Builtin::StorageMarket => "storagemarket",
            Builtin::StoragePower => "storagepower",
            Builtin::VerifiedRegistry => "verifiedregistry",
            Builtin::DataCap => "datacap",
            Builtin::Reward => "reward",
        }
    }

    /// The place of the actor in the order in which a manifest is searched
    /// for the actors that it must name.
    pub open spec fn rank(self) -> nat {
        match self {
            Builtin::Account => 0,
            Builtin::System => 1,
            Builtin::Init => 2,
            Builtin::Placeholder => 3,
            Builtin::Eam => 4,
            Builtin::EthAccount => 5,
            Builtin::StorageMarket => 6,
            Builtin::StoragePower => 7,
            Builtin::VerifiedRegistry => 8,
            Builtin::DataCap => 9,
            Builtin::Reward => 10,
        }
    }
}

/// The entries of a manifest in the model: names and the binary forms of
/// the identifiers of the codes.
pub type Entries = Seq<(Seq<char>, Seq<u8>)>;

/// The entries that a vector of names and codes stands for.
pub open spec fn entries_model(entries: Seq<(String, Cid)>) -> Entries {
    Seq::new(entries.len(), |i: int| (entries[i].0@, entries[i].1@))
}

/// The codes of the entries, in their order.
pub open spec fn codes_of(entries: Entries) -> Seq<Seq<u8>> {
    Seq::new(entries.len(), |i: int| entries[i].1)
}

/// The code listed under `name`: that of the last entry of that name.
pub open spec fn code_named(entries: Entries, name: Seq<char>) -> Option<Seq<u8>>
    decreases entries.len(),
{
    if entries.len() == 0 {
        None
    } else if entries.last().0 == name {
        Some(entries.last().1)
    } else {
        code_named(entries.drop_last(), name)
    }
}

/// The number of a code: the place, counted from one, of the last entry
/// with that code; zero where there is none.
pub open spec fn code_number(codes: Seq<Seq<u8>>, code: Seq<u8>) -> nat
    decreases codes.len(),
{
    if codes.len() == 0 {
        0
    } else if codes.last() == code {
        codes.len()
    } else {
        code_number(codes.drop_last(), code)
    }
}

/// Whether the entries name the actor.
pub open spec fn names(entries: Entries, actor: Builtin) -> bool {
    code_named(entries, actor.text()) is Some
}

/// Whether `actor` is the first that the entries do not name.
pub open spec fn first_missing(entries: Entries, actor: Builtin) -> bool {
    &&& !names(entries, actor)
    &&& forall|earlier: Builtin| earlier.rank() < actor.rank() ==> names(entries, earlier)
}

/// Why a manifest could not be had.
#[derive(Debug)]
pub enum ManifestError {
    /// The version is not one.
    UnsupportedVersion(u32),
    /// The store holds nothing under the root.
    RootNotFound(Cid),
    /// The store failed.
    Store(StoreError),
    /// The block under the root is no list of names and codes.
    Malformed,
    /// The entries do not name the actor.
    Missing(Builtin),
}

/// The entries that `count` pairs of a name and a link from position `pos`
/// hold, and the position after them.
pub open spec fn entries_at(bytes: Seq<u8>, pos: nat, count: nat) -> Option<(Entries, nat)>
    decreases count,
{
    if count == 0 {
        Some((Seq::empty(), pos))
    } else {
        match array_at(bytes, pos, 2) {
            Some(p1) => match text_at(bytes, p1) {
                Some((t, p2)) => match link_at(bytes, p2) {
                    Some((code, p3)) => match entries_at(bytes, p3, (count - 1) as nat) {
                        Some((rest, end)) => if valid_utf8(t) {
                            Some((seq![(decode_utf8(t), code)] + rest, end))
                        } else {
                            None
                        },
                        None => None,
                    },
                    None => None,
                },
                None => None,
            },
            None => None,
        }
    }
}

/// The entries that a block holds: it is one array of pairs of a name and
/// a link, with nothing after it.
pub open spec fn manifest_decoding(bytes: Seq<u8>) -> Option<Entries> {
    match head_at(bytes, 0) {
        Some((major, n, p)) => if major == MAJOR_ARRAY {
            match entries_at(bytes, p, n as nat) {
                Some((entries, end)) => if end == bytes.len() {
                    Some(entries)
                } else {
                    None
                },
                None => None,
            }
        } else {
            None
        },
        None => None,
    }
}

/// Calls `String::from_utf8`: the text that the bytes encode as UTF-8, and
/// none where they encode none.
#[verifier::external_body]
fn text_of(bytes: Vec<u8>) -> (r: Option<String>)
    ensures
        match r {
            Some(s) => valid_utf8(bytes@) && s@ == decode_utf8(bytes@),
            None => !valid_utf8(bytes@),
        },
{
    match String::from_utf8(bytes) {
        Ok(s) => Some(s),
        Err(_) => None,
    }
}

/// Reading `count` entries that end at `end` is reading one entry and then
/// the others.
proof fn lemma_entries_step(bytes: Seq<u8>, pos: nat, count: nat)
    requires
        count > 0,
    ensures
        entries_at(bytes, pos, count) == match array_at(bytes, pos, 2) {
            Some(p1) => match text_at(bytes, p1) {
                Some((t, p2)) => match link_at(bytes, p2) {
                    Some((code, p3)) => match entries_at(bytes, p3, (count - 1) as nat) {
                        Some((rest, end)) => if valid_utf8(t) {
                            Some((seq![(decode_utf8(t), code)] + rest, end))
                        } else {
                            None
                        },
                        None => None,
                    },
                    None => None,
                },
                None => None,
            },
            None => None,
        },
{
}

/// What is still to be read joins what has been read.
pub open spec fn entries_joined(read: Entries, rest: Option<(Entries, nat)>) -> Option<
    (Entries, nat),
> {
    match rest {
        Some((more, end)) => Some((read + more, end)),
        None => None,
    }
}

/// The names and codes that a block holds; `None` where it is no list of
/// them.
pub fn decode_entries(bytes: &[u8]) -> (r: Option<Vec<(String, Cid)>>)
    ensures
        match r {
            Some(entries) => manifest_decoding(bytes@) == Some(entries_model(entries@)),
            None => manifest_decoding(bytes@) is None,
        },
{
    let h = match read_head(bytes, 0) {
        Some(h) => h,
        None => {
            return None;
        },
    };
    if h.major != MAJOR_ARRAY {
        return None;
    }
    let ghost start = h.end as nat;
    let ghost total = h.arg as nat;
    let mut entries: Vec<(String, Cid)> = Vec::new();
    let mut pos: usize = h.end;
    let mut left: u64 = h.arg;
    assert(entries_model(entries@) + Seq::<(Seq<char>, Seq<u8>)>::empty() =~= entries_model(
        entries@,
    ));
    while left > 0
        invariant
            pos <= bytes@.len(),
            left <= total,
            entries_at(bytes@, start, total) == entries_joined(
                entries_model(entries@),
                entries_at(bytes@, pos as nat, left as nat),
            ),
            entries_at(bytes@, start, total) is None ==> manifest_decoding(bytes@) is None,
            head_at(bytes@, 0) == Some((MAJOR_ARRAY, total as u64, start)),
            total <= u64::MAX,
        decreases left,
    {
        proof {
            lemma_entries_step(bytes@, pos as nat, left as nat);
        }
        let p1 = match read_array(bytes, pos, 2) {
            Some(p) => p,
            None => {
                return None;
            },
        };
        let (name_bytes, p2) = match read_text(bytes, p1) {
            Some(t) => t,
            None => {
                return None;
            },
        };
        let (code, p3) = match read_link(bytes, p2) {
            Some(l) => l,
            None => {
                return None;
            },
        };
        let ghost t = name_bytes@;
        let name = match text_of(name_bytes) {
            Some(s) => s,
            None => {
                return None;
            },
        };
        let ghost before = entries_model(entries@);
        entries.push((name, code));
        proof {
            let one = seq![(decode_utf8(t), code@)];
            assert(entries_model(entries@) =~= before + one);
            match entries_at(bytes@, p3 as nat, (left - 1) as nat) {
                Some((rest, end)) => {
                    assert(before + (one + rest) =~= (before + one) + rest);
                },
                None => {},
            }
        }
        pos = p3;
        left = left - 1;
    }
    proof {
        assert(entries_model(entries@) + Seq::<(Seq<char>, Seq<u8>)>::empty() =~= entries_model(
            entries@,
        ));
    }
    if pos != bytes.len() {
        return None;
    }
    Some(entries)
}

/// The number of a code is that of an entry with that code, and no entry
/// after it has the code.
proof fn lemma_code_number(codes: Seq<Seq<u8>>, code: Seq<u8>)
    ensures
        code_number(codes, code) <= codes.len(),
        code_number(codes, code) > 0 ==> codes[code_number(codes, code) - 1] == code,
        forall|i: int| code_number(codes, code) <= i < codes.len() ==> #[trigger] codes[i] != code,
    decreases codes.len(),
{
    if codes.len() > 0 && codes.last() != code {
        lemma_code_number(codes.drop_last(), code);
        assert forall|i: int| code_number(codes, code) <= i < codes.len() implies #[trigger]
            codes[i] != code by {
            if i < codes.len() - 1 {
                assert(codes.drop_last()[i] == codes[i]);
            }
        }
        if code_number(codes, code) > 0 {
            assert(codes.drop_last()[code_number(codes, code) - 1] == codes[code_number(
                codes,
                code,
            ) - 1]);
        }
    }
}

/// The code listed under a name is that of the entry of that name after
/// which no entry has the name.
pub proof fn lemma_code_named_last(entries: Entries, name: Seq<char>, at: int)
    requires
        0 <= at < entries.len(),
        entries[at].0 == name,
        forall|j: int| at < j < entries.len() ==> (#[trigger] entries[j]).0 != name,
    ensures
        code_named(entries, name) == Some(entries[at].1),
    decreases entries.len(),
{
    if at < entries.len() - 1 {
        assert(entries.last() == entries[entries.len() - 1]);
        let fewer = entries.drop_last();
        assert forall|j: int| at < j < fewer.len() implies (#[trigger] fewer[j]).0 != name by {
            assert(fewer[j] == entries[j]);
        }
        lemma_code_named_last(fewer, name, at);
    }
}

/// The code that the entries list under `name`.
fn find_named(entries: &Vec<(String, Cid)>, name: &str) -> (r: Option<Cid>)
    ensures
        match r {
            Some(code) => code_named(entries_model(entries@), name@) == Some(code@),
            None => code_named(entries_model(entries@), name@) is None,
        },
{
    let wanted = name.to_owned();
    let ghost model = entries_model(entries@);
    let mut i: usize = entries.len();
    assert(model.take(i as int) =~= model);
    while i > 0
        invariant
            i <= entries.len(),
            model == entries_model(entries@),
            wanted@ == name@,
            code_named(model, name@) == code_named(model.take(i as int), name@),
        decreases i,
    {
        let ghost part = model.take(i as int);
        assert(part.last() == model[i - 1]);
        assert(part.drop_last() =~= model.take(i - 1));
        if entries[i - 1].0 == wanted {
            return Some(entries[i - 1].1.clone());
        }
        i = i - 1;
    }
    None
}

/// The codec of a block of plain bytes.
pub const IPLD_RAW: u64 = 0x55;

/// The hash code of a digest that is the data itself.
pub const IDENTITY_HASH: u64 = 0;

/// The code that stands in for an actor in trials: the identifier that
/// holds `path` itself in place of a digest.
pub open spec fn dummy_code(path: Seq<char>) -> Seq<u8> {
    cid_v1_bytes(IPLD_RAW, IDENTITY_HASH, encode_utf8(path))
}

/// The path that the code of an actor holds in the manifest for trials.
pub open spec fn dummy_path(actor: Builtin) -> Seq<char> {
    match actor {
        Builtin::Account => "fil/test/account"@,
        Builtin::System => "fil/test/system"@,
        Builtin::Init => "fil/test/init"@,
        Builtin::Placeholder => "fil/test/placeholder"@,
        Builtin::Eam => "fil/test/eam"@,
        Builtin::EthAccount => "fil/test/ethaccount"@,
        Builtin::StorageMarket => "fil/test/storagemarket"@,
        Builtin::StoragePower => "fil/test/storagepower"@,
        Builtin::VerifiedRegistry => "fil/test/verifiedregistry"@,
        Builtin::DataCap => "fil/test/datacap"@,
        Builtin::Reward => "fil/test/reward"@,
    }
}

/// The entries of the manifest for trials.
pub open spec fn dummy_entries() -> Entries {
    seq![
        ("system"@, dummy_code("fil/test/system"@)),
        ("init"@, dummy_code("fil/test/init"@)),
        ("eam"@, dummy_code("fil/test/eam"@)),
        ("ethaccount"@, dummy_code("fil/test/ethaccount"@)),
        ("cron"@, dummy_code("fil/test/cron"@)),
        ("account"@, dummy_code("fil/test/account"@)),
        ("placeholder"@, dummy_code("fil/test/placeholder"@)),
        ("embryo"@, dummy_code("fil/test/embryo"@)),
        ("storagemarket"@, dummy_code("fil/test/storagemarket"@)),
        ("storagepower"@, dummy_code("fil/test/storagepower"@)),
        ("datacap"@, dummy_code("fil/test/datacap"@)),
        ("verifiedregistry"@, dummy_code("fil/test/verifiedregistry"@)),
        ("reward"@, dummy_code("fil/test/reward"@)),
    ]
}

/// The identifier that holds `path` itself in place of a digest.
fn id_cid(path: &str) -> (c: Cid)
    requires
        encode_utf8(path@).len() <= MAX_DIGEST_LEN,
    ensures
        c@ == dummy_code(path@),
{
    Cid::wrapping(IPLD_RAW, IDENTITY_HASH, path.as_bytes())
}

/// The codes of the built-in actors, and the number of each code.
pub struct Manifest {
    account_code: Cid,
    placeholder_code: Cid,
    system_code: Cid,
    init_code: Cid,
    eam_code: Cid,
    ethaccount_code: Cid,
    storagemarket_code: Cid,
    storagepower_code: Cid,
    verifiedregistry_code: Cid,
    datacap_code: Cid,
    reward_code: Cid,
    /// The code of each number; the numbers count from one.
    by_id: HashMap<u32, Cid>,
    /// How many codes are numbered.
    count: u32,
}

/// The fewest entries that cannot all be numbered.
pub const MAX_ENTRIES: usize = 0xffff_ffff;

impl Manifest {
    #[verifier::type_invariant]
    spec fn numbered(&self) -> bool {
        forall|id: u32| #[trigger] self.by_id@.contains_key(id) <==> 1 <= id <= self.count
    }

    /// The code of a built-in actor.
    pub closed spec fn code_of(&self, actor: Builtin) -> Seq<u8> {
        match actor {
            Builtin::Account => self.account_code@,
            Builtin::System => self.system_code@,
            Builtin::Init => self.init_code@,
            Builtin::Placeholder => self.placeholder_code@,
            Builtin::Eam => self.eam_code@,
            Builtin::EthAccount => self.ethaccount_code@,
            Builtin::StorageMarket => self.storagemarket_code@,
            Builtin::StoragePower => self.storagepower_code@,
            Builtin::VerifiedRegistry => self.verifiedregistry_code@,
            Builtin::DataCap => self.datacap_code@,
            Builtin::Reward => self.reward_code@,
        }
    }

    /// The codes in the order of their numbers, which count from one.
    pub closed spec fn codes(&self) -> Seq<Seq<u8>> {
        Seq::new(self.count as nat, |i: int| self.by_id@[(i + 1) as u32]@)
    }

    /// Whether the manifest is the one that the entries make: each built-in
    /// actor has the code listed under its name, and the codes are numbered
    /// in the order of the entries.
    pub open spec fn made_of(&self, entries: Entries) -> bool {
        &&& self.codes() == codes_of(entries)
        &&& forall|actor: Builtin| #[trigger]
            code_named(entries, actor.text()) == Some(self.code_of(actor))
    }

    /// What making a manifest gives: the manifest of the entries where they
    /// name every built-in actor, and else the first that they do not name.
    pub open spec fn new_post(entries: Entries, r: Result<Manifest, ManifestError>) -> bool {
        match r {
            Ok(m) => m.made_of(entries),
            Err(e) => e matches ManifestError::Missing(actor) && first_missing(entries, actor),
        }
    }

    /// The manifest of the given names and codes. The codes are numbered
    /// from one in their order; a name or a code that comes again takes the
    /// place of the one before.
    pub fn new(entries: Vec<(String, Cid)>) -> (r: Result<Manifest, ManifestError>)
        requires
            entries@.len() < MAX_ENTRIES,
        ensures
            Self::new_post(entries_model(entries@), r),
    {
        let ghost model = entries_model(entries@);
        let mut by_id: HashMap<u32, Cid> = HashMap::new();
        let mut i: usize = 0;
        while i < entries.len()
            invariant
                i <= entries.len() < MAX_ENTRIES,
                forall|id: u32| #[trigger] by_id@.contains_key(id) <==> 1 <= id <= i,
                forall|j: int| 0 <= j < i ==> by_id@[(j + 1) as u32]@ == (#[trigger] entries@[j]).1@,
            decreases entries.len() - i,
        {
            by_id.insert((i + 1) as u32, entries[i].1.clone());
            i = i + 1;
        }
        let count = entries.len() as u32;
        let account_code = match find_named(&entries, Builtin::Account.name()) {
            Some(code) => code,
            None => {
                return Err(ManifestError::Missing(Builtin::Account));
            },
        };
        let system_code = match find_named(&entries, Builtin::System.name()) {
            Some(code) => code,
            None => {
                return Err(ManifestError::Missing(Builtin::System));
            },
        };
        let init_code = match find_named(&entries, Builtin::Init.name()) {
            Some(code) => code,
            None => {
                return Err(ManifestError::Missing(Builtin::Init));
            },
        };
        let placeholder_code = match find_named(&entries, Builtin::Placeholder.name()) {
            Some(code) => code,
            None => {
                return Err(ManifestError::Missing(Builtin::Placeholder));
            },
        };
        let eam_code = match find_named(&entries, Builtin::Eam.name()) {
            Some(code) => code,
            None => {
                return Err(ManifestError::Missing(Builtin::Eam));
            },
        };
        let ethaccount_code = match find_named(&entries, Builtin::EthAccount.name()) {
            Some(code) => code,
            None => {
                return Err(ManifestError::Missing(Builtin::EthAccount));
            },
        };
        let storagemarket_code = match find_named(&entries, Builtin::StorageMarket.name()) {
            Some(code) => code,
            None => {
                return Err(ManifestError::Missing(Builtin::StorageMarket));
            },
        };
        let storagepower_code = match find_named(&entries, Builtin::StoragePower.name()) {
            Some(code) => code,
            None => {
                return Err(ManifestError::Missing(Builtin::StoragePower));
            },
        };
        let verifiedregistry_code = match find_named(&entries, Builtin::VerifiedRegistry.name()) {
            Some(code) => code,
            None => {
                return Err(ManifestError::Missing(Builtin::VerifiedRegistry));
            },
        };
        let datacap_code = match find_named(&entries, Builtin::DataCap.name()) {
            Some(code) => code,
            None => {
                return Err(ManifestError::Missing(Builtin::DataCap));
            },
        };
        let reward_code = match find_named(&entries, Builtin::Reward.name()) {
            Some(code) => code,
            None => {
                return Err(ManifestError::Missing(Builtin::Reward));
            },
        };
        let m = Manifest {
            account_code,
            placeholder_code,
            system_code,
            init_code,
            eam_code,
            ethaccount_code,
            storagemarket_code,
            storagepower_code,
            verifiedregistry_code,
            datacap_code,
            reward_code,
            by_id,
            count,
        };
        proof {
            assert(m.codes() =~= codes_of(model)) by {
                assert forall|j: int| 0 <= j < model.len() implies m.codes()[j] == codes_of(
                    model,
                )[j] by {
                    assert(by_id@[(j + 1) as u32]@ == entries@[j].1@);
                }
            }
        }
        Ok(m)
    }

    /// The manifest for trials: every actor has a code that holds a path
    /// in place of a digest.
    pub fn dummy() -> (m: Manifest)
        ensures
            m.made_of(dummy_entries()),
            forall|actor: Builtin| #[trigger] m.code_of(actor) == dummy_code(dummy_path(actor)),
    {
        let mut entries: Vec<(String, Cid)> = Vec::new();
        proof {
            reveal_strlit("fil/test/system");
            is_ascii_chars_encode_utf8("fil/test/system"@);
        }
        entries.push(("system".to_owned(), id_cid("fil/test/system")));
        proof {
            reveal_strlit("fil/test/init");
            is_ascii_chars_encode_utf8("fil/test/init"@);
        }
        entries.push(("init".to_owned(), id_cid("fil/test/init")));
        proof {
            reveal_strlit("fil/test/eam");
            is_ascii_chars_encode_utf8("fil/test/eam"@);
        }
        entries.push(("eam".to_owned(), id_cid("fil/test/eam")));
        proof {
            reveal_strlit("fil/test/ethaccount");
            is_ascii_chars_encode_utf8("fil/test/ethaccount"@);
        }
        entries.push(("ethaccount".to_owned(), id_cid("fil/test/ethaccount")));
        proof {
            reveal_strlit("fil/test/cron");
            is_ascii_chars_encode_utf8("fil/test/cron"@);
        }
        entries.push(("cron".to_owned(), id_cid("fil/test/cron")));
        proof {
            reveal_strlit("fil/test/account");
            is_ascii_chars_encode_utf8("fil/test/account"@);
        }
        entries.push(("account".to_owned(), id_cid("fil/test/account")));
        proof {
            reveal_strlit("fil/test/placeholder");
            is_ascii_chars_encode_utf8("fil/test/placeholder"@);
        }
        entries.push(("placeholder".to_owned(), id_cid("fil/test/placeholder")));
        proof {
            reveal_strlit("fil/test/embryo");
            is_ascii_chars_encode_utf8("fil/test/embryo"@);
        }
        entries.push(("embryo".to_owned(), id_cid("fil/test/embryo")));
        proof {
            reveal_strlit("fil/test/storagemarket");
            is_ascii_chars_encode_utf8("fil/test/storagemarket"@);
        }
        entries.push(("storagemarket".to_owned(), id_cid("fil/test/storagemarket")));
        proof {
            reveal_strlit("fil/test/storagepower");
            is_ascii_chars_encode_utf8("fil/test/storagepower"@);
        }
        entries.push(("storagepower".to_owned(), id_cid("fil/test/storagepower")));
        proof {
            reveal_strlit("fil/test/datacap");
            is_ascii_chars_encode_utf8("fil/test/datacap"@);
        }
        entries.push(("datacap".to_owned(), id_cid("fil/test/datacap")));
        proof {
            reveal_strlit("fil/test/verifiedregistry");
            is_ascii_chars_encode_utf8("fil/test/verifiedregistry"@);
        }
        entries.push(("verifiedregistry".to_owned(), id_cid("fil/test/verifiedregistry")));
        proof {
            reveal_strlit("fil/test/reward");
            is_ascii_chars_encode_utf8("fil/test/reward"@);
        }
        entries.push(("reward".to_owned(), id_cid("fil/test/reward")));
        let ghost model = entries_model(entries@);
        proof {
            assert(model =~= dummy_entries());
            reveal_strlit("system");
            reveal_strlit("init");
            reveal_strlit("eam");
            reveal_strlit("ethaccount");
            reveal_strlit("cron");
            reveal_strlit("account");
            reveal_strlit("placeholder");
            reveal_strlit("embryo");
            reveal_strlit("storagemarket");
            reveal_strlit("storagepower");
            reveal_strlit("datacap");
            reveal_strlit("verifiedregistry");
            reveal_strlit("reward");
            assert(model[6].0.len() != "account"@.len());
            assert(model[7].0.len() != "account"@.len());
            assert(model[8].0.len() != "account"@.len());
            assert(model[9].0.len() != "account"@.len());
            assert(model[10].0[0] != "account"@[0]);
            assert(model[11].0.len() != "account"@.len());
            assert(model[12].0.len() != "account"@.len());
            lemma_code_named_last(model, Builtin::Account.text(), 5);
            assert(names(model, Builtin::Account));
            assert(model[1].0.len() != "system"@.len());
            assert(model[2].0.len() != "system"@.len());
            assert(model[3].0.len() != "system"@.len());
            assert(model[4].0.len() != "system"@.len());
            assert(model[5].0.len() != "system"@.len());
            assert(model[6].0.len() != "system"@.len());
            assert(model[7].0[0] != "system"@[0]);
            assert(model[8].0.len() != "system"@.len());
            assert(model[9].0.len() != "system"@.len());
            assert(model[10].0.len() != "system"@.len());
            assert(model[11].0.len() != "system"@.len());
            assert(model[12].0[0] != "system"@[0]);
            lemma_code_named_last(model, Builtin::System.text(), 0);
            assert(names(model, Builtin::System));
            assert(model[2].0.len() != "init"@.len());
            assert(model[3].0.len() != "init"@.len());
            assert(model[4].0[0] != "init"@[0]);
            assert(model[5].0.len() != "init"@.len());
            assert(model[6].0.len() != "init"@.len());
            assert(model[7].0.len() != "init"@.len());
            assert(model[8].0.len() != "init"@.len());
            assert(model[9].0.len() != "init"@.len());
            assert(model[10].0.len() != "init"@.len());
            assert(model[11].0.len() != "init"@.len());
            assert(model[12].0.len() != "init"@.len());
            lemma_code_named_last(model, Builtin::Init.text(), 1);
            assert(names(model, Builtin::Init));
            assert(model[7].0.len() != "placeholder"@.len());
            assert(model[8].0.len() != "placeholder"@.len());
            assert(model[9].0.len() != "placeholder"@.len());
            assert(model[10].0.len() != "placeholder"@.len());
            assert(model[11].0.len() != "placeholder"@.len());
            assert(model[12].0.len() != "placeholder"@.len());
            lemma_code_named_last(model, Builtin::Placeholder.text(), 6);
            assert(names(model, Builtin::Placeholder));
            assert(model[3].0.len() != "eam"@.len());
            assert(model[4].0.len() != "eam"@.len());
            assert(model[5].0.len() != "eam"@.len());
            assert(model[6].0.len() != "eam"@.len());
            assert(model[7].0.len() != "eam"@.len());
            assert(model[8].0.len() != "eam"@.len());
            assert(model[9].0.len() != "eam"@.len());
            assert(model[10].0.len() != "eam"@.len());
            assert(model[11].0.len() != "eam"@.len());
            assert(model[12].0.len() != "eam"@.len());
            lemma_code_named_last(model, Builtin::Eam.text(), 2);
            assert(names(model, Builtin::Eam));
            assert(model[4].0.len() != "ethaccount"@.len());
            assert(model[5].0.len() != "ethaccount"@.len());
            assert(model[6].0.len() != "ethaccount"@.len());
            assert(model[7].0.len() != "ethaccount"@.len());
            assert(model[8].0.len() != "ethaccount"@.len());
            assert(model[9].0.len() != "ethaccount"@.len());
            assert(model[10].0.len() != "ethaccount"@.len());
            assert(model[11].0.len() != "ethaccount"@.len());
            assert(model[12].0.len() != "ethaccount"@.len());
            lemma_code_named_last(model, Builtin::EthAccount.text(), 3);
            assert(names(model, Builtin::EthAccount));
            assert(model[9].0.len() != "storagemarket"@.len());
            assert(model[10].0.len() != "storagemarket"@.len());
            assert(model[11].0.len() != "storagemarket"@.len());
            assert(model[12].0.len() != "storagemarket"@.len());
            lemma_code_named_last(model, Builtin::StorageMarket.text(), 8);
            assert(names(model, Builtin::StorageMarket));
            assert(model[10].0.len() != "storagepower"@.len());
            assert(model[11].0.len() != "storagepower"@.len());
            assert(model[12].0.len() != "storagepower"@.len());
            lemma_code_named_last(model, Builtin::StoragePower.text(), 9);
            assert(names(model, Builtin::StoragePower));
            assert(model[12].0.len() != "verifiedregistry"@.len());
            lemma_code_named_last(model, Builtin::VerifiedRegistry.text(), 11);
            assert(names(model, Builtin::VerifiedRegistry));
            assert(model[11].0.len() != "datacap"@.len());
            assert(model[12].0.len() != "datacap"@.len());
            lemma_code_named_last(model, Builtin::DataCap.text(), 10);
            assert(names(model, Builtin::DataCap));
            lemma_code_named_last(model, Builtin::Reward.text(), 12);
            assert(names(model, Builtin::Reward));
        }
        match Manifest::new(entries) {
            Ok(m) => {
                proof {
                    assert forall|actor: Builtin| #[trigger]
                        m.code_of(actor) == dummy_code(dummy_path(actor)) by {
                        assert(code_named(model, actor.text()) == Some(m.code_of(actor)));
                    }
                }
                m
            },
            Err(_) => vstd::pervasive::unreached(),
        }
    }

    /// What loading gives. The version must be one and the store must hold
    /// under the root a list of names and codes; the manifest is then the
    /// one that they make.
    pub open spec fn load_post(
        blocks: Map<Seq<u8>, Seq<u8>>,
        root: Seq<u8>,
        version: u32,
        r: Result<Manifest, ManifestError>,
    ) -> bool {
        match r {
            Ok(m) => {
                &&& version == 1
                &&& blocks.contains_key(root)
                &&& manifest_decoding(blocks[root]) matches Some(entries) && m.made_of(entries)
            },
            Err(ManifestError::UnsupportedVersion(v)) => v == version && version != 1,
            Err(ManifestError::RootNotFound(cid)) => version == 1 && cid@ == root
                && !blocks.contains_key(root),
            Err(ManifestError::Store(_)) => version == 1,
            Err(ManifestError::Malformed) => {
                &&& version == 1
                &&& blocks.contains_key(root)
                &&& match manifest_decoding(blocks[root]) {
                    Some(entries) => entries.len() >= MAX_ENTRIES,
                    None => true,
                }
            },
            Err(ManifestError::Missing(actor)) => {
                &&& version == 1
                &&& blocks.contains_key(root)
                &&& manifest_decoding(blocks[root]) matches Some(entries) && first_missing(
                    entries,
                    actor,
                )
            },
        }
    }

    /// The manifest that the store holds under `root`.
    pub fn load<S: Store>(store: &S, root: &Cid, version: u32) -> (r: Result<
        Manifest,
        ManifestError,
    >)
        ensures
            Self::load_post(store.blocks(), root@, version, r),
    {
        if version != 1 {
            return Err(ManifestError::UnsupportedVersion(version));
        }
        let block = match store.get(root) {
            Ok(Some(block)) => block,
            Ok(None) => {
                return Err(ManifestError::RootNotFound(root.clone()));
            },
            Err(e) => {
                return Err(ManifestError::Store(e));
            },
        };
        let entries = match decode_entries(block.as_slice()) {
            Some(entries) => entries,
            None => {
                return Err(ManifestError::Malformed);
            },
        };
        if entries.len() >= MAX_ENTRIES {
            return Err(ManifestError::Malformed);
        }
        Manifest::new(entries)
    }

    /// The code with the given number.
    pub fn code_by_id(&self, id: u32) -> (r: Option<&Cid>)
        ensures
            match r {
                Some(code) => 1 <= id <= self.codes().len() && code@ == self.codes()[id - 1],
                None => id == 0 || id > self.codes().len(),
            },
    {
        proof {
            use_type_invariant(self);
        }
        self.by_id.get(&id)
    }

    /// The number of the code; zero where it is the code of no built-in
    /// actor.
    pub fn id_by_code(&self, code: &Cid) -> (id: u32)
        ensures
            id == code_number(self.codes(), code@),
            id <= self.codes().len(),
            id > 0 ==> self.codes()[id - 1] == code@,
            forall|i: int| id <= i < self.codes().len() ==> #[trigger] self.codes()[i] != code@,
    {
        proof {
            use_type_invariant(self);
            lemma_code_number(self.codes(), code@);
        }
        let ghost codes = self.codes();
        let mut i: u32 = self.count;
        assert(codes.take(i as int) =~= codes);
        while i > 0
            invariant
                i <= self.count,
                self.numbered(),
                codes == self.codes(),
                code_number(codes, code@) == code_number(codes.take(i as int), code@),
            decreases i,
        {
            let ghost part = codes.take(i as int);
            assert(part.last() == codes[i - 1]);
            assert(part.drop_last() =~= codes.take(i - 1));
            assert(self.by_id@.contains_key(i));
            match self.by_id.get(&i) {
                Some(held) => {
                    if held.same(code) {
                        proof {
                            lemma_code_number(codes, code@);
                        }
                        return i;
                    }
                },
                None => {},
            }
            i = i - 1;
        }
        0
    }

    /// The codes of the built-in actors, in the order of their numbers.
    pub fn builtin_actor_codes(&self) -> (codes: Vec<Cid>)
        ensures
            codes@.len() == self.codes().len(),
            forall|i: int| 0 <= i < codes@.len() ==> (#[trigger] codes@[i])@ == self.codes()[i],
    {
        proof {
            use_type_invariant(self);
        }
        let mut codes: Vec<Cid> = Vec::new();
        let mut i: u32 = 0;
        while i < self.count
            invariant
                i <= self.count,
                self.numbered(),
                codes@.len() == i,
                forall|j: int| 0 <= j < i ==> (#[trigger] codes@[j])@ == self.codes()[j],
            decreases self.count - i,
        {
            assert(self.by_id@.contains_key((i + 1) as u32));
            match self.by_id.get(&(i + 1)) {
                Some(held) => {
                    codes.push(held.clone());
                },
                None => {
                    assert(false);
                },
            }
            i = i + 1;
        }
        codes
    }

    /// The code of a built-in actor.
    pub fn code(&self, actor: Builtin) -> (code: &Cid)
        ensures
            code@ == self.code_of(actor),
    {
        match actor {
            Builtin::Account => &self.account_code,
            Builtin::System => &self.system_code,
            Builtin::Init => &self.init_code,
            Builtin::Placeholder => &self.placeholder_code,
            Builtin::Eam => &self.eam_code,
            Builtin::EthAccount => &self.ethaccount_code,
            Builtin::StorageMarket => &self.storagemarket_code,
            Builtin::StoragePower => &self.storagepower_code,
            Builtin::VerifiedRegistry => &self.verifiedregistry_code,
            Builtin::DataCap => &self.datacap_code,
            Builtin::Reward => &self.reward_code,
        }
    }

    /// Whether `cid` is the code of the account actor.
    pub fn is_account_actor(&self, cid: &Cid) -> (r: bool)
        ensures
            r == (cid@ == self.code_of(Builtin::Account)),
    {
        self.account_code.same(cid)
    }

    /// Whether `cid` is the code of the placeholder actor.
    pub fn is_placeholder_actor(&self, cid: &Cid) -> (r: bool)
        ensures
            r == (cid@ == self.code_of(Builtin::Placeholder)),
    {
        self.placeholder_code.same(cid)
    }

    /// Whether `cid` is the code of the Ethereum account actor.
    pub fn is_ethaccount_actor(&self, cid: &Cid) -> (r: bool)
        ensures
            r == (cid@ == self.code_of(Builtin::EthAccount)),
    {
        self.ethaccount_code.same(cid)
    }

    /// Whether `cid` is the code of the storage market actor.
    pub fn is_storagemarket_actor(&self, cid: &Cid) -> (r: bool)
        ensures
            r == (cid@ == self.code_of(Builtin::StorageMarket)),
    {
        self.storagemarket_code.same(cid)
    }

    /// Whether `cid` is the code of the storage power actor.
    pub fn is_storagepower_actor(&self, cid: &Cid) -> (r: bool)
        ensures
            r == (cid@ == self.code_of(Builtin::StoragePower)),
    {
        self.storagepower_code.same(cid)
    }

    /// Whether `cid` is the code of the verified registry actor.
    pub fn is_verifiedregistry_actor(&self, cid: &Cid) -> (r: bool)
        ensures
            r == (cid@ == self.code_of(Builtin::VerifiedRegistry)),
    {
        self.verifiedregistry_code.same(cid)
    }

    /// Whether `cid` is the code of the data cap actor.
    pub fn is_datacap_actor(&self, cid: &Cid) -> (r: bool)
        ensures
            r == (cid@ == self.code_of(Builtin::DataCap)),
    {
        self.datacap_code.same(cid)
    }

    /// Whether `cid` is the code of the reward actor.
    pub fn is_reward_actor(&self, cid: &Cid) -> (r: bool)
        ensures
            r == (cid@ == self.code_of(Builtin::Reward)),
    {
        self.reward_code.same(cid)
    }

    /// The code of the account actor.
    pub fn get_account_code(&self) -> (code: &Cid)
        ensures
            code@ == self.code_of(Builtin::Account),
    {
        &self.account_code
    }

    /// The code of the init actor.
    pub fn get_init_code(&self) -> (code: &Cid)
        ensures
            code@ == self.code_of(Builtin::Init),
    {
        &self.init_code
    }

    /// The code of the system actor.
    pub fn get_system_code(&self) -> (code: &Cid)
        ensures
            code@ == self.code_of(Builtin::System),
    {
        &self.system_code
    }

    /// The code of the address manager actor.
    pub fn get_eam_code(&self) -> (code: &Cid)
        ensures
            code@ == self.code_of(Builtin::Eam),
    {
        &self.eam_code
    }

    /// The code of the placeholder actor.
    pub fn get_placeholder_code(&self) -> (code: &Cid)
        ensures
            code@ == self.code_of(Builtin::Placeholder),
    {
        &self.placeholder_code
    }

    /// The code of the Ethereum account actor.
    pub fn get_ethaccount_code(&self) -> (code: &Cid)
        ensures
            code@ == self.code_of(Builtin::EthAccount),
    {
        &self.ethaccount_code
    }

    /// The code of the storage market actor.
    pub fn get_storagemarket_code(&self) -> (code: &Cid)
        ensures
            code@ == self.code_of(Builtin::StorageMarket),
    {
        &self.storagemarket_code
    }

    /// The code of the storage power actor.
    pub fn get_storagepower_code(&self) -> (code: &Cid)
        ensures
            code@ == self.code_of(Builtin::StoragePower),
    {
        &self.storagepower_code
    }

    /// The code of the verified registry actor.
    pub fn get_verifiedregistry_code(&self) -> (code: &Cid)
        ensures
            code@ == self.code_of(Builtin::VerifiedRegistry),
    {
        &self.verifiedregistry_code
    }

    /// The code of the data cap actor.
    pub fn get_datacap_code(&self) -> (code: &Cid)
        ensures
            code@ == self.code_of(Builtin::DataCap),
    {
        &self.datacap_code
    }

    /// The code of the reward actor.
    pub fn get_reward_code(&self) -> (code: &Cid)
        ensures
            code@ == self.code_of(Builtin::Reward),
    {
        &self.reward_code
    }
}

} // verus!
