//! The kernel's view of one invocation: the message that is executed, the
//! blocks that the actor has opened, and the values returned to it.

use crate::actor::{ActorState, ActorView};
use crate::amount::TokenAmount;
use crate::bytes::{bytes_copy, bytes_slice};
use crate::cid::{cid_codec, cid_v1_bytes, Cid};
use crate::digest::{digest_with, multihash_digest};
use crate::error::{ExecutionError, Fatal};
use crate::state_tree::{ActorFailure, StateTree};
use crate::store::{Store, StoreError};
use std::collections::VecDeque;
use vstd::prelude::*;

verus! {

/// The handle of a block that the actor has opened.
pub type BlockId = u32;

/// The number of a method of an actor.
pub type MethodNum = u64;

/// Copies `from` over `into`.
fn fill(into: &mut [u8], from: &[u8])
    requires
        old(into)@.len() == from@.len(),
    ensures
        final(into)@ == from@,
{
    let mut i: usize = 0;
    while i < from.len()
        invariant
            i <= from@.len(),
            into@.len() == from@.len(),
            forall|j: int| 0 <= j < i ==> into@[j] == from@[j],
        decreases from@.len() - i,
    {
        into[i] = from[i];
        i = i + 1;
    }
    assert(into@ =~= from@);
}

/// What went wrong with a block.
#[derive(Debug)]
pub enum BlockError {
    /// There is no block with this handle.
    InvalidHandle(BlockId),
    /// The store holds no block under this identifier.
    MissingState(Cid),
    /// The hash function is not known, or the length asked for is greater
    /// than that of its digests.
    InvalidMultihashSpec { code: u64, length: u32 },
    /// The store failed.
    Internal(StoreError),
    /// No handle is left, or the block is too large for its size to be
    /// told.
    TooManyBlocks,
}

/// What is known of a block without reading it.
#[derive(Debug, Clone, Copy, PartialEq, Eq)]
pub struct BlockStat {
    pub codec: u64,
    pub size: u32,
}

/// A block with its codec.
#[derive(Debug)]
pub struct Block {
    pub codec: u64,
    pub data: Vec<u8>,
}

/// A block in the model.
pub struct BlockView {
    pub codec: u64,
    pub data: Seq<u8>,
}

impl View for Block {
    type V = BlockView;

    open spec fn view(&self) -> BlockView {
        BlockView { codec: self.codec, data: self.data@ }
    }
}

/// The greatest number of blocks that are open at a time.
pub const MAX_BLOCKS: usize = 0xffff_fffe;

/// The greatest length of a block that is opened.
pub const MAX_BLOCK_LEN: usize = 0xffff_ffff;

/// The identifier of a block under a hash function, with the digest cut to
/// a length: `None` where the hash function is not known or its digests
/// are shorter.
pub open spec fn block_link_of(block: BlockView, hash_fun: u64, hash_len: u32) -> Option<Seq<u8>> {
    match multihash_digest(hash_fun, block.data) {
        Some(digest) => if digest.len() < hash_len {
            None
        } else {
            Some(cid_v1_bytes(block.codec, hash_fun, digest.take(hash_len as int)))
        },
        None => None,
    }
}

/// The kernel of one invocation over a state tree.
pub struct DefaultKernel<S: Store> {
    from: u64,
    to: u64,
    method: MethodNum,
    value_received: TokenAmount,
    state_tree: StateTree<S>,
    /// The blocks that the actor has opened; the handle of a block is its
    /// place here plus one.
    blocks: Vec<Block>,
    /// The values returned by system calls that the actor has yet to take.
    return_stack: VecDeque<Vec<u8>>,
}

impl<S: Store> DefaultKernel<S> {
    /// The state tree.
    pub closed spec fn tree(&self) -> StateTree<S> {
        self.state_tree
    }

    /// The blocks that the actor has opened, in the order of their handles,
    /// which count from one.
    pub closed spec fn opened(&self) -> Seq<BlockView> {
        Seq::new(self.blocks@.len(), |i: int| self.blocks@[i]@)
    }

    /// The values returned by system calls that the actor has yet to take,
    /// the latest last.
    pub closed spec fn returned(&self) -> Seq<Seq<u8>> {
        Seq::new(self.return_stack@.len(), |i: int| self.return_stack@[i]@)
    }

    /// The sender of the message.
    pub closed spec fn caller(&self) -> u64 {
        self.from
    }

    /// The receiver of the message.
    pub closed spec fn receiver(&self) -> u64 {
        self.to
    }

    /// The method that the message calls.
    pub closed spec fn method_number(&self) -> MethodNum {
        self.method
    }

    /// The value received with the message.
    pub closed spec fn value(&self) -> nat {
        self.value_received@
    }

    /// The invariant of the kernel: that of its state tree, and that every
    /// open block has a handle and a size that can be told.
    pub open spec fn inv(&self) -> bool {
        &&& self.tree().inv()
        &&& self.opened().len() <= MAX_BLOCKS
        &&& forall|i: int|
            0 <= i < self.opened().len() ==> (#[trigger] self.opened()[i]).data.len()
                <= MAX_BLOCK_LEN
    }

    /// Whether the kernels differ in nothing but their state trees.
    pub open spec fn same_invocation(&self, other: &Self) -> bool {
        &&& self.opened() == other.opened()
        &&& self.returned() == other.returned()
        &&& self.caller() == other.caller()
        &&& self.receiver() == other.receiver()
        &&& self.method_number() == other.method_number()
        &&& self.value() == other.value()
    }

    /// Whether the kernels differ in nothing but their open blocks.
    pub open spec fn same_but_blocks(&self, other: &Self) -> bool {
        &&& self.tree() == other.tree()
        &&& self.returned() == other.returned()
        &&& self.caller() == other.caller()
        &&& self.receiver() == other.receiver()
        &&& self.method_number() == other.method_number()
        &&& self.value() == other.value()
    }

    /// The block with the handle `id`, if one is open under it.
    pub open spec fn block_at(&self, id: BlockId) -> Option<BlockView> {
        if 1 <= id <= self.opened().len() {
            Some(self.opened()[id - 1])
        } else {
            None
        }
    }

    /// A kernel for the execution of one message, with no block open and
    /// nothing returned.
    pub fn new(
        state_tree: StateTree<S>,
        from: u64,
        to: u64,
        method: MethodNum,
        value_received: TokenAmount,
    ) -> (k: Self)
        requires
            state_tree.inv(),
        ensures
            k.inv(),
            k.tree() == state_tree,
            k.opened().len() == 0,
            k.returned().len() == 0,
            k.caller() == from,
            k.receiver() == to,
            k.method_number() == method,
            k.value() == value_received@,
    {
        DefaultKernel {
            state_tree,
            blocks: Vec::new(),
            return_stack: VecDeque::new(),
            from,
            to,
            method,
            value_received,
        }
    }

    /// The state tree.
    pub fn state_tree(&self) -> (t: &StateTree<S>)
        ensures
            *t == self.tree(),
    {
        &self.state_tree
    }

    /// Gives up the kernel for its state tree.
    pub fn take(self) -> (t: StateTree<S>)
        ensures
            t == self.tree(),
    {
        self.state_tree
    }

    /// What asking for the root promises: the link to the state of the
    /// receiver as the tree shows it. It is a fatal failure where the
    /// receiver is no actor or the lookup fails. The tree shows every actor
    /// as it did.
    pub open spec fn root_post(before: &Self, after: &Self, r: Result<Cid, ExecutionError>)
        -> bool {
        &&& after.inv()
        &&& after.same_invocation(before)
        &&& StateTree::same_actors(&after.tree(), &before.tree())
        &&& after.tree().store_model() == before.tree().store_model()
        &&& match r {
            Ok(state) => before.tree().actor(before.receiver()) matches Ok(Some(a)) && a.state
                == state@,
            Err(ExecutionError::Fatal(Fatal::ActorLookup(id, None))) => id == before.receiver()
                && before.tree().actor(id) == Ok::<Option<ActorView>, ActorFailure>(None),
            Err(e) => StateTree::lookup_failed(&before.tree(), before.receiver(), e),
        }
    }

    /// The root of the state of the receiver.
    pub fn root(&mut self) -> (r: Result<Cid, ExecutionError>)
        requires
            old(self).inv(),
        ensures
            Self::root_post(old(self), final(self), r),
    {
        match self.state_tree.get_actor(self.to) {
            Ok(Some(actor)) => Ok(actor.state),
            Ok(None) => Err(ExecutionError::Fatal(Fatal::ActorLookup(self.to, None))),
            Err(e) => Err(e),
        }
    }

    /// What setting the root promises. On success the tree shows the
    /// receiver with the new link to its state, and every other actor as it
    /// did. It fails where the receiver is no actor, where the lookup
    /// fails, and where changes are refused; the tree then shows every
    /// actor as it did.
    pub open spec fn set_root_post(
        before: &Self,
        after: &Self,
        new: Seq<u8>,
        r: Result<(), ExecutionError>,
    ) -> bool {
        let id = before.receiver();
        &&& after.inv()
        &&& after.same_invocation(before)
        &&& after.tree().store_model() == before.tree().store_model()
        &&& match r {
            Ok(()) => {
                &&& !before.tree().read_only()
                &&& before.tree().actor(id) matches Ok(Some(a)) && after.tree().actor(id) == Ok::<
                    Option<ActorView>,
                    ActorFailure,
                >(Some(ActorView { state: new, ..a }))
                &&& forall|j: u64|
                    j != id ==> #[trigger] after.tree().actor(j) == before.tree().actor(j)
            },
            Err(e) => {
                &&& StateTree::same_actors(&after.tree(), &before.tree())
                &&& {
                    ||| StateTree::lookup_failed(&before.tree(), id, e)
                    ||| (e matches ExecutionError::Fatal(Fatal::ActorLookup(i, None)) && i == id)
                        && before.tree().actor(id) == Ok::<Option<ActorView>, ActorFailure>(None)
                    ||| before.tree().read_only() && (before.tree().actor(id) matches Ok(Some(_)))
                        && (e matches ExecutionError::Syscall(s) && s.number
                        == crate::error::ErrorNumber::ReadOnly)
                }
            },
        }
    }

    /// Sets the root of the state of the receiver.
    pub fn set_root(&mut self, new: Cid) -> (r: Result<(), ExecutionError>)
        requires
            old(self).inv(),
        ensures
            Self::set_root_post(old(self), final(self), new@, r),
    {
        let ghost link = new@;
        let change = move |actor: ActorState| -> (changed: Result<ActorState, ExecutionError>)
            ensures
                changed matches Ok(a) && a@ == (ActorView { state: link, ..actor@ }),
            {
                let mut actor = actor;
                actor.state = new;
                Ok(actor)
            };
        self.state_tree.mutate_actor(self.to, change)
    }

    /// The block with the handle `id`.
    fn block(&self, id: BlockId) -> (r: Result<&Block, BlockError>)
        ensures
            match r {
                Ok(b) => self.block_at(id) == Some(b@),
                Err(e) => self.block_at(id) is None && e == BlockError::InvalidHandle(id),
            },
    {
        if id == 0 || id as usize > self.blocks.len() {
            return Err(BlockError::InvalidHandle(id));
        }
        Ok(&self.blocks[(id - 1) as usize])
    }

    /// What opening a block promises: the block is the last of the open
    /// blocks and its handle is their number; or nothing changes, because
    /// no handle is left or the block is too large.
    pub open spec fn put_post(
        before: &Self,
        after: &Self,
        block: BlockView,
        r: Result<BlockId, BlockError>,
    ) -> bool {
        &&& after.inv()
        &&& after.same_but_blocks(before)
        &&& match r {
            Ok(id) => before.opened().len() < MAX_BLOCKS && block.data.len() <= MAX_BLOCK_LEN
                && after.opened() == before.opened().push(block) && id == after.opened().len(),
            Err(e) => after.opened() == before.opened() && e is TooManyBlocks && (
            before.opened().len() >= MAX_BLOCKS || block.data.len() > MAX_BLOCK_LEN),
        }
    }

    fn put(&mut self, block: Block) -> (r: Result<BlockId, BlockError>)
        requires
            old(self).inv(),
        ensures
            Self::put_post(old(self), final(self), block@, r),
    {
        if self.blocks.len() >= MAX_BLOCKS || block.data.len() > MAX_BLOCK_LEN {
            return Err(BlockError::TooManyBlocks);
        }
        self.blocks.push(block);
        proof {
            assert(self.opened() =~= old(self).opened().push(block@));
            assert(self.returned() =~= old(self).returned());
        }
        Ok(self.blocks.len() as BlockId)
    }

    /// Opens the block that the store holds under `cid`, with the codec of
    /// the identifier. Where the store holds none or fails, no block is
    /// opened.
    pub fn block_open(&mut self, cid: &Cid) -> (r: Result<BlockId, BlockError>)
        requires
            old(self).inv(),
        ensures
            final(self).inv(),
            final(self).same_but_blocks(old(self)),
            match r {
                Err(BlockError::MissingState(missing)) => missing@ == cid@ && final(self).opened()
                    == old(self).opened() && !old(self).tree().blocks().contains_key(cid@),
                Err(BlockError::Internal(_)) => final(self).opened() == old(self).opened(),
                _ => old(self).tree().blocks().contains_key(cid@) && Self::put_post(
                    old(self),
                    final(self),
                    (BlockView {
                        codec: cid_codec(cid@),
                        data: old(self).tree().blocks()[cid@],
                    }),
                    r,
                ),
            },
    {
        let data = match self.state_tree.store().get(cid) {
            Ok(Some(data)) => data,
            Ok(None) => {
                return Err(BlockError::MissingState(cid.clone()));
            },
            Err(e) => {
                return Err(BlockError::Internal(e));
            },
        };
        let codec = cid.codec();
        self.put(Block { codec, data })
    }

    /// Makes a block of the given bytes and opens it.
    pub fn block_create(&mut self, codec: u64, data: &[u8]) -> (r: Result<BlockId, BlockError>)
        requires
            old(self).inv(),
        ensures
            Self::put_post(old(self), final(self), (BlockView { codec, data: data@ }), r),
    {
        self.put(Block { codec, data: bytes_copy(data) })
    }

    /// The identifier of an open block under the given hash function, with
    /// the digest cut to the given length.
    pub fn block_link(&self, id: BlockId, hash_fun: u64, hash_len: u32) -> (r: Result<
        Cid,
        BlockError,
    >)
        ensures
            match r {
                Ok(cid) => self.block_at(id) matches Some(b) && block_link_of(b, hash_fun, hash_len)
                    == Some(cid@),
                Err(BlockError::InvalidHandle(i)) => i == id && self.block_at(id) is None,
                Err(BlockError::InvalidMultihashSpec { code, length }) => code == hash_fun
                    && length == hash_len && (self.block_at(id) matches Some(b) && block_link_of(
                    b,
                    hash_fun,
                    hash_len,
                ) is None),
                Err(_) => false,
            },
    {
        let block = match self.block(id) {
            Ok(block) => block,
            Err(e) => {
                return Err(e);
            },
        };
        let digest = match digest_with(hash_fun, block.data.as_slice()) {
            Some(digest) => digest,
            None => {
                return Err(BlockError::InvalidMultihashSpec { code: hash_fun, length: hash_len });
            },
        };
        if digest.len() < hash_len as usize {
            return Err(BlockError::InvalidMultihashSpec { code: hash_fun, length: hash_len });
        }
        let cut = bytes_slice(digest.as_slice(), 0, hash_len as usize);
        assert(cut@ =~= digest@.take(hash_len as int));
        Ok(Cid::wrapping(block.codec, hash_fun, cut.as_slice()))
    }

    /// Whether a block can be read from `offset` on into a buffer of the
    /// given length: from an offset within the block, the buffer must not
    /// be longer than what is left of the block.
    pub open spec fn readable(&self, id: BlockId, offset: u32, len: nat) -> bool {
        self.block_at(id) matches Some(b) ==> offset >= b.data.len() || len <= b.data.len()
            - offset
    }

    /// Fills `buf` from an open block, from `offset` on; returns how many
    /// bytes were copied. From an offset at or after the end of the block
    /// nothing is copied.
    pub fn block_read(&self, id: BlockId, offset: u32, buf: &mut [u8]) -> (r: Result<
        u32,
        BlockError,
    >)
        requires
            self.inv(),
            self.readable(id, offset, old(buf)@.len()),
        ensures
            final(buf)@.len() == old(buf)@.len(),
            match r {
                Ok(n) => self.block_at(id) matches Some(b) && if offset >= b.data.len() {
                    n == 0 && final(buf)@ == old(buf)@
                } else {
                    n == old(buf)@.len() && final(buf)@ == b.data.subrange(
                        offset as int,
                        offset + n,
                    )
                },
                Err(e) => e == BlockError::InvalidHandle(id) && self.block_at(id) is None
                    && final(buf)@ == old(buf)@,
            },
    {
        let block = match self.block(id) {
            Ok(block) => block,
            Err(e) => {
                return Err(e);
            },
        };
        assert(self.opened()[id - 1].data.len() <= MAX_BLOCK_LEN);
        if offset as usize >= block.data.len() {
            return Ok(0);
        }
        let len = buf.len();
        let part = bytes_slice(block.data.as_slice(), offset as usize, offset as usize + len);
        fill(buf, part.as_slice());
        Ok(len as u32)
    }

    /// The codec and the size of an open block.
    pub fn block_stat(&self, id: BlockId) -> (r: Result<BlockStat, BlockError>)
        requires
            self.inv(),
        ensures
            match r {
                Ok(stat) => self.block_at(id) matches Some(b) && stat.codec == b.codec
                    && stat.size == b.data.len(),
                Err(e) => e == BlockError::InvalidHandle(id) && self.block_at(id) is None,
            },
    {
        match self.block(id) {
            Ok(b) => {
                assert(self.opened()[id - 1].data.len() <= MAX_BLOCK_LEN);
                Ok(BlockStat { codec: b.codec, size: b.data.len() as u32 })
            },
            Err(e) => Err(e),
        }
    }

    /// The sender of the message.
    pub fn msg_caller(&self) -> (id: u64)
        ensures
            id == self.caller(),
    {
        self.from
    }

    /// The receiver of the message.
    pub fn msg_receiver(&self) -> (id: u64)
        ensures
            id == self.receiver(),
    {
        self.to
    }

    /// The method that the message calls.
    pub fn msg_method_number(&self) -> (method: MethodNum)
        ensures
            method == self.method_number(),
    {
        self.method
    }

    /// The handle of the block of the parameters of the message.
    pub fn msg_method_params(&self) -> (id: BlockId)
        ensures
            id == 0,
    {
        0
    }

    /// The value received with the message, which must fit 128 bits.
    pub fn msg_value_received(&self) -> (value: u128)
        requires
            self.value() <= u128::MAX,
        ensures
            value == self.value(),
    {
        match self.value_received.to_u128() {
            Some(value) => value,
            None => vstd::pervasive::unreached(),
        }
    }

    /// The size of the value returned last; zero where there is none.
    pub fn return_size(&self) -> (size: u64)
        ensures
            size == if self.returned().len() == 0 {
                0
            } else {
                self.returned().last().len()
            },
    {
        let count = self.return_stack.len();
        if count == 0 {
            0
        } else {
            self.return_stack[count - 1].len() as u64
        }
    }

    /// Discards the value returned last, where there is one.
    pub fn return_discard(&mut self)
        ensures
            final(self).tree() == old(self).tree(),
            final(self).opened() == old(self).opened(),
            final(self).returned() == if old(self).returned().len() == 0 {
                old(self).returned()
            } else {
                old(self).returned().drop_last()
            },
    {
        let _ = self.return_stack.pop_back();
        proof {
            assert(self.opened() =~= old(self).opened());
            if old(self).returned().len() == 0 {
                assert(self.returned() =~= old(self).returned());
            } else {
                assert(self.returned() =~= old(self).returned().drop_last());
            }
        }
    }

    /// The value returned last; nothing where there is none.
    pub open spec fn top(&self) -> Seq<u8> {
        if self.returned().len() == 0 {
            Seq::empty()
        } else {
            self.returned().last()
        }
    }

    /// Takes the value returned last and fills `into` from its first bytes;
    /// returns how many bytes were copied. The buffer must not be longer
    /// than the value.
    pub fn return_pop(&mut self, into: &mut [u8]) -> (n: u64)
        requires
            old(into)@.len() <= old(self).top().len(),
        ensures
            final(self).tree() == old(self).tree(),
            final(self).opened() == old(self).opened(),
            final(self).returned() == if old(self).returned().len() == 0 {
                old(self).returned()
            } else {
                old(self).returned().drop_last()
            },
            n == old(into)@.len(),
            final(into)@ == old(self).top().take(n as int),
    {
        let ret: Vec<u8> = match self.return_stack.pop_back() {
            Some(ret) => ret,
            None => Vec::new(),
        };
        proof {
            assert(self.opened() =~= old(self).opened());
            if old(self).returned().len() == 0 {
                assert(self.returned() =~= old(self).returned());
            } else {
                assert(self.returned() =~= old(self).returned().drop_last());
            }
        }
        let len = into.len();
        let part = bytes_slice(ret.as_slice(), 0, len);
        fill(into, part.as_slice());
        assert(into@ =~= old(self).top().take(len as int));
        len as u64
    }

    /// Puts a value on the values returned to the actor.
    pub fn return_push(&mut self, value: Vec<u8>)
        ensures
            final(self).tree() == old(self).tree(),
            final(self).opened() == old(self).opened(),
            final(self).returned() == old(self).returned().push(value@),
    {
        self.return_stack.push_back(value);
        proof {
            assert(self.opened() =~= old(self).opened());
            assert(self.returned() =~= old(self).returned().push(value@));
        }
    }

    /// Begins the transaction in which a message is sent on: what the
    /// receiver of that message changes is undone where the sending fails.
    pub fn send_begin(&mut self)
        requires
            old(self).inv(),
            old(self).tree().read_only_count() < u32::MAX,
        ensures
            final(self).inv(),
            final(self).same_invocation(old(self)),
            StateTree::begin_post(&old(self).tree(), &final(self).tree(), false),
    {
        self.state_tree.begin_transaction(false);
    }

    /// Ends the transaction in which a message was sent on, and undoes what
    /// was changed in it where the sending failed.
    pub fn send_end(&mut self, failed: bool) -> (r: Result<(), ExecutionError>)
        requires
            old(self).inv(),
        ensures
            final(self).same_invocation(old(self)),
            StateTree::end_post(&old(self).tree(), &final(self).tree(), failed, r),
    {
        self.state_tree.end_transaction(failed)
    }
}

} // verus!
