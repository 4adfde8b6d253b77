//! The block store: blocks of bytes kept under their content identifiers.

use crate::bytes::bytes_eq;
use crate::cid::{cid_codec, cid_v1_bytes, is_cid, Cid};
use crate::digest::{digest_with, multihash_digest, BLAKE2B_256};
use fvm_ipld_blockstore::MemoryBlockstore;
use vstd::prelude::*;

verus! {

/// The codec of blocks that hold DAG-CBOR.
pub const DAG_CBOR: u64 = 0x71;

/// A failure of the block store itself.
#[derive(Debug, PartialEq, Eq)]
pub struct StoreError {
    pub message: String,
}

/// A content-addressed block store. `blocks` is what it holds: the bytes of
/// each block under the binary form of its identifier.
pub trait Store: Sized {
    /// The blocks held.
    spec fn blocks(&self) -> Map<Seq<u8>, Seq<u8>>;

    /// The block stored under `cid`, if there is one. A failure leaves open
    /// whether there is one.
    fn get(&self, cid: &Cid) -> (r: Result<Option<Vec<u8>>, StoreError>)
        ensures
            match r {
                Ok(Some(block)) => self.blocks().contains_key(cid@) && self.blocks()[cid@]
                    == block@,
                Ok(None) => !self.blocks().contains_key(cid@),
                Err(_) => true,
            },
    ;

    /// Stores `block` under `cid`, in place of what was there. On failure the
    /// store is unchanged.
    fn put_keyed(&mut self, cid: &Cid, block: &[u8]) -> (r: Result<(), StoreError>)
        ensures
            match r {
                Ok(()) => final(self).blocks() == old(self).blocks().insert(cid@, block@),
                Err(_) => final(self).blocks() == old(self).blocks(),
            },
    ;
}

#[verifier::external_type_specification]
#[verifier::external_body]
pub struct ExMemoryBlockstore(MemoryBlockstore);

/// What a `MemoryBlockstore` holds: each block under the binary form of the
/// identifier it was stored under.
pub uninterp spec fn memory_blocks(store: MemoryBlockstore) -> Map<Seq<u8>, Seq<u8>>;

/// Calls `Blockstore::get` of `MemoryBlockstore`, which looks the identifier
/// up in its map and returns a copy of the block found, and never fails.
#[verifier::external_body]
fn memory_get(store: &MemoryBlockstore, cid: &[u8]) -> (r: Option<Vec<u8>>)
    requires
        is_cid(cid@),
    ensures
        match r {
            Some(block) => memory_blocks(*store).contains_key(cid@) && memory_blocks(*store)[cid@]
                == block@,
            None => !memory_blocks(*store).contains_key(cid@),
        },
{
    let key = ::cid::Cid::try_from(cid).ok()?;
    fvm_ipld_blockstore::Blockstore::get(store, &key).ok().flatten()
}

/// Calls `Blockstore::put_keyed` of `MemoryBlockstore`, which inserts a copy
/// of the block into its map under the identifier, replacing what was there,
/// and never fails.
#[verifier::external_body]
fn memory_put_keyed(store: &mut MemoryBlockstore, cid: &[u8], block: &[u8])
    requires
        is_cid(cid@),
    ensures
        memory_blocks(*final(store)) == memory_blocks(*old(store)).insert(cid@, block@),
{
    if let Ok(key) = ::cid::Cid::try_from(cid) {
        let _ = fvm_ipld_blockstore::Blockstore::put_keyed(store, &key, block);
    }
}

impl Store for MemoryBlockstore {
    open spec fn blocks(&self) -> Map<Seq<u8>, Seq<u8>> {
        memory_blocks(*self)
    }

    /// A store in memory never fails to answer.
    fn get(&self, cid: &Cid) -> (r: Result<Option<Vec<u8>>, StoreError>)
        ensures
            r is Ok,
    {
        Ok(memory_get(self, cid.as_bytes()))
    }

    /// A store in memory never fails to take a block.
    fn put_keyed(&mut self, cid: &Cid, block: &[u8]) -> (r: Result<(), StoreError>)
        ensures
            r is Ok,
    {
        memory_put_keyed(self, cid.as_bytes(), block);
        Ok(())
    }
}

/// A store over another that gives out none but the blocks that it is told
/// to, and takes blocks only where it is told to: a store with which the
/// failures of a store are tried.
pub struct Guarded<S: Store> {
    /// The store that holds the blocks.
    pub inner: S,
    /// The identifiers of the blocks that are given out; all where there
    /// is no list.
    pub readable: Option<Vec<Cid>>,
    /// Whether blocks are taken.
    pub writable: bool,
}

/// Whether `cid` is on the list.
pub open spec fn listed(list: Seq<Cid>, cid: Seq<u8>) -> bool {
    exists|i: int| 0 <= i < list.len() && (#[trigger] list[i])@ == cid
}

/// Whether `cid` is on the list.
fn is_listed(list: &Vec<Cid>, cid: &Cid) -> (r: bool)
    ensures
        r == listed(list@, cid@),
{
    let mut i: usize = 0;
    while i < list.len()
        invariant
            i <= list@.len(),
            forall|j: int| 0 <= j < i ==> (#[trigger] list@[j])@ != cid@,
        decreases list@.len() - i,
    {
        if list[i].same(cid) {
            assert(list@[i as int]@ == cid@);
            return true;
        }
        i = i + 1;
    }
    false
}

impl<S: Store> Guarded<S> {
    /// Whether the block under `cid` is given out: there is no list, or
    /// the identifier is on it.
    pub open spec fn lets(&self, cid: Seq<u8>) -> bool {
        match self.readable {
            None => true,
            Some(list) => listed(list@, cid),
        }
    }

    /// Whether the block under `cid` is given out.
    pub fn gives(&self, cid: &Cid) -> (r: bool)
        ensures
            r == self.lets(cid@),
    {
        match &self.readable {
            None => true,
            Some(list) => is_listed(list, cid),
        }
    }
}

impl<S: Store> Store for Guarded<S> {
    open spec fn blocks(&self) -> Map<Seq<u8>, Seq<u8>> {
        self.inner.blocks()
    }

    /// Fails where the block is not given out, and else answers what the
    /// store that holds the blocks answers.
    fn get(&self, cid: &Cid) -> (r: Result<Option<Vec<u8>>, StoreError>)
        ensures
            if self.lets(cid@) {
                call_ensures(S::get, (&self.inner, cid), r)
            } else {
                r is Err
            },
    {
        if !self.gives(cid) {
            return Err(StoreError { message: "the block is kept from being read".to_owned() });
        }
        self.inner.get(cid)
    }

    /// Fails where blocks are not taken, and else hands the block to the
    /// store that holds the blocks, which takes it or fails. What is given
    /// out and whether blocks are taken stays as it is.
    fn put_keyed(&mut self, cid: &Cid, block: &[u8]) -> (r: Result<(), StoreError>)
        ensures
            final(self).readable == old(self).readable,
            final(self).writable == old(self).writable,
            if old(self).writable {
                exists|held: &mut S|
                    mut_ref_current(held) == old(self).inner
                        && mut_ref_future(held) == final(self).inner
                        && #[trigger] call_ensures(S::put_keyed, (held, cid, block), r)
            } else {
                r is Err && final(self).inner == old(self).inner
            },
    {
        if !self.writable {
            return Err(StoreError { message: "the store takes no blocks".to_owned() });
        }
        self.inner.put_keyed(cid, block)
    }
}

/// The BLAKE2b-256 digest of `data`.
pub open spec fn blake2b_256(data: Seq<u8>) -> Seq<u8> {
    match multihash_digest(BLAKE2B_256, data) {
        Some(digest) => digest,
        None => Seq::empty(),
    }
}

/// The binary form of the identifier of a block with the given codec and
/// bytes: version 1, the codec, and the BLAKE2b-256 multihash of the bytes.
pub open spec fn block_cid_bytes(codec: u64, data: Seq<u8>) -> Seq<u8> {
    cid_v1_bytes(codec, BLAKE2B_256, blake2b_256(data))
}

/// Why a block could not be stored.
#[derive(Debug, PartialEq, Eq)]
pub enum PutError {
    /// The store already holds different bytes under the block's identifier.
    Collision(Cid),
    /// The store failed.
    Store(StoreError),
}

/// The identifier of a block with the given codec and bytes.
pub fn block_cid(codec: u64, data: &[u8]) -> (c: Cid)
    ensures
        c@ == block_cid_bytes(codec, data@),
        cid_codec(c@) == codec,
{
    match digest_with(BLAKE2B_256, data) {
        Some(digest) => Cid::wrapping(codec, BLAKE2B_256, digest.as_slice()),
        None => vstd::pervasive::unreached(),
    }
}

/// What `put_block` does with a block whose identifier is `cid`, given what
/// the store answered when asked for that identifier.
pub open spec fn put_outcome(
    before: Map<Seq<u8>, Seq<u8>>,
    cid: Seq<u8>,
    data: Seq<u8>,
) -> bool {
    !before.contains_key(cid) || before[cid] == data
}

/// Stores a block under the identifier computed from its codec and bytes and
/// returns the identifier. A block that the store already holds is not written
/// again; where the store holds other bytes under that identifier, nothing is
/// written and `Collision` is returned. The store therefore only ever grows.
pub fn put_block<S: Store>(store: &mut S, codec: u64, data: &[u8]) -> (r: Result<Cid, PutError>)
    ensures
        old(store).blocks().submap_of(final(store).blocks()),
        old(store).blocks().contains_key(block_cid_bytes(codec, data@)) ==> *final(store) == *old(store),
        match r {
            Ok(cid) => cid@ == block_cid_bytes(codec, data@) && put_outcome(
                old(store).blocks(),
                cid@,
                data@,
            ) && final(store).blocks() == old(store).blocks().insert(cid@, data@),
            Err(e) => final(store).blocks() == old(store).blocks() && match e {
                PutError::Collision(cid) => cid@ == block_cid_bytes(codec, data@) && !put_outcome(
                    old(store).blocks(),
                    cid@,
                    data@,
                ),
                PutError::Store(_) => true,
            },
        },
{
    let cid = block_cid(codec, data);
    match store.get(&cid) {
        Ok(Some(held)) => {
            if bytes_eq(held.as_slice(), data) {
                assert(store.blocks().insert(cid@, data@) =~= store.blocks());
                Ok(cid)
            } else {
                Err(PutError::Collision(cid))
            }
        },
        Ok(None) => {
            match store.put_keyed(&cid, data) {
                Ok(()) => Ok(cid),
                Err(e) => Err(PutError::Store(e)),
            }
        },
        Err(e) => Err(PutError::Store(e)),
    }
}

} // verus!
