//! The failures of the state engine: those that the caller can recover from
//! and those that end the execution.

use crate::cid::{cid_shown, Cid};
use crate::hamt::ops::Error as TrieError;
use crate::store::{PutError, StoreError};
use vstd::prelude::*;

verus! {

/// The number of a failure that a caller can recover from.
#[derive(Debug, Clone, Copy, PartialEq, Eq, Structural)]
pub enum ErrorNumber {
    IllegalArgument,
    IllegalOperation,
    LimitExceeded,
    AssertionFailed,
    InsufficientFunds,
    NotFound,
    InvalidHandle,
    IllegalCid,
    IllegalCodec,
    Serialization,
    Forbidden,
    BufferTooSmall,
    ReadOnly,
}

impl ErrorNumber {
    /// The number as it is handed to actors.
    pub fn code(self) -> (n: u32)
        ensures
            1 <= n <= 13,
            n == 13 <==> self == ErrorNumber::ReadOnly,
            n == 5 <==> self == ErrorNumber::InsufficientFunds,
            n == 6 <==> self == ErrorNumber::NotFound,
    {
        match self {
            ErrorNumber::IllegalArgument => 1,
            ErrorNumber::IllegalOperation => 2,
            ErrorNumber::LimitExceeded => 3,
            ErrorNumber::AssertionFailed => 4,
            ErrorNumber::InsufficientFunds => 5,
            ErrorNumber::NotFound => 6,
            ErrorNumber::InvalidHandle => 7,
            ErrorNumber::IllegalCid => 8,
            ErrorNumber::IllegalCodec => 9,
            ErrorNumber::Serialization => 10,
            ErrorNumber::Forbidden => 11,
            ErrorNumber::BufferTooSmall => 12,
            ErrorNumber::ReadOnly => 13,
        }
    }
}

/// A failure that the caller can recover from.
#[derive(Debug)]
pub struct SyscallError {
    pub number: ErrorNumber,
    pub message: String,
}

/// A failure that ends the execution.
#[derive(Debug)]
pub enum Fatal {
    /// The version of the state tree is not supported.
    UnsupportedVersion(u64),
    /// The record of an empty state tree could not be written.
    PutStateInfo(PutError),
    /// The store holds no root of a state tree under this identifier.
    RootNotFound(Cid),
    /// The root of the state tree under this identifier could not be had
    /// from the store or is no root of a state tree.
    RootLoad(Cid),
    /// The trie of actors could not be loaded.
    LoadTree(TrieError),
    /// The actor could not be looked up, for want of it or because the trie
    /// failed.
    ActorLookup(u64, Option<TrieError>),
    /// The trie of actors holds under the key of this actor what is no
    /// record of an actor.
    ActorMalformed(u64),
    /// The record of the actor cannot be written: its balance takes too
    /// many bytes.
    ActorUnwritable(u64),
    /// A flush was asked for inside of a transaction.
    FlushInTransaction,
    /// A transaction was ended where none had begun.
    NoTransaction,
    /// The trie failed while the state tree was written.
    Trie(TrieError),
    /// A block could not be written.
    Put(PutError),
    /// The store failed.
    Store(StoreError),
    /// The actor that maps addresses to identifiers is not there.
    InitActorMissing,
    /// The state of the actor that maps addresses to identifiers is not in
    /// the store.
    InitStateMissing(Cid),
    /// The state of the actor that maps addresses to identifiers is no such
    /// state.
    InitStateMalformed(Cid),
    /// The actor that maps addresses to identifiers has no identifier left.
    IdentifiersExhausted,
    /// The trie of addresses failed.
    AddressMap(TrieError),
    /// The trie of addresses holds under an address what is no identifier.
    AddressMalformed,
}

/// A failure of the state engine.
#[derive(Debug)]
pub enum ExecutionError {
    OutOfGas,
    Syscall(SyscallError),
    Fatal(Fatal),
}

/// The digit for a number below ten.
pub open spec fn digit(d: nat) -> char {
    "0123456789"@[d as int]
}

/// The decimal digits of a number.
pub open spec fn decimal(n: nat) -> Seq<char>
    decreases n,
{
    if n < 10 {
        seq![digit(n)]
    } else {
        decimal(n / 10).push(digit(n % 10))
    }
}

/// Calls `format!` to put a number after a text: the text, then the decimal
/// digits of the number.
#[verifier::external_body]
pub(crate) fn text_and_number(text: &str, n: u64) -> (r: String)
    ensures
        r@ == text@ + decimal(n as nat),
{
    format!("{}{}", text, n)
}

/// Calls `format!` to put a text after a text.
#[verifier::external_body]
pub(crate) fn text_and_text(text: &str, more: &str) -> (r: String)
    ensures
        r@ == text@ + more@,
{
    format!("{}{}", text, more)
}

impl Fatal {
    /// The failure in words.
    pub open spec fn text(self) -> Seq<char> {
        match self {
            Fatal::UnsupportedVersion(n) => "unsupported state tree version: "@ + decimal(n as nat),
            Fatal::PutStateInfo(_) => "failed to put state info"@,
            Fatal::RootNotFound(cid) => "failed to find state tree "@ + cid_shown(cid@),
            Fatal::RootLoad(cid) => "failed to load state tree "@ + cid_shown(cid@),
            Fatal::LoadTree(_) => "failed to load state tree"@,
            Fatal::ActorLookup(id, _) => "failed to lookup actor "@ + decimal(id as nat),
            Fatal::ActorMalformed(id) => "failed to decode actor "@ + decimal(id as nat),
            Fatal::ActorUnwritable(id) => "failed to encode actor "@ + decimal(id as nat),
            Fatal::FlushInTransaction => "cannot flush while inside of a transaction"@,
            Fatal::NoTransaction => "state snapshots empty"@,
            Fatal::Trie(_) => "failed to update the state tree"@,
            Fatal::Put(_) => "failed to write a block"@,
            Fatal::Store(_) => "the block store failed"@,
            Fatal::InitActorMissing => "init actor address could not be resolved"@,
            Fatal::InitStateMissing(_) => "init actor state not found"@,
            Fatal::InitStateMalformed(_) => "init actor state could not be decoded"@,
            Fatal::IdentifiersExhausted => "no actor identifier is left"@,
            Fatal::AddressMap(_) => "failed to read the address map"@,
            Fatal::AddressMalformed => "the address map holds no identifier"@,
        }
    }

    /// The failure in words.
    pub fn message(&self) -> (r: String)
        ensures
            r@ == self.text(),
    {
        match self {
            Fatal::UnsupportedVersion(n) => text_and_number("unsupported state tree version: ", *n),
            Fatal::PutStateInfo(_) => "failed to put state info".to_owned(),
            Fatal::RootNotFound(cid) => text_and_text("failed to find state tree ", cid.to_text().as_str()),
            Fatal::RootLoad(cid) => text_and_text("failed to load state tree ", cid.to_text().as_str()),
            Fatal::LoadTree(_) => "failed to load state tree".to_owned(),
            Fatal::ActorLookup(id, _) => text_and_number("failed to lookup actor ", *id),
            Fatal::ActorMalformed(id) => text_and_number("failed to decode actor ", *id),
            Fatal::ActorUnwritable(id) => text_and_number("failed to encode actor ", *id),
            Fatal::FlushInTransaction => "cannot flush while inside of a transaction".to_owned(),
            Fatal::NoTransaction => "state snapshots empty".to_owned(),
            Fatal::Trie(_) => "failed to update the state tree".to_owned(),
            Fatal::Put(_) => "failed to write a block".to_owned(),
            Fatal::Store(_) => "the block store failed".to_owned(),
            Fatal::InitActorMissing => "init actor address could not be resolved".to_owned(),
            Fatal::InitStateMissing(_) => "init actor state not found".to_owned(),
            Fatal::InitStateMalformed(_) => "init actor state could not be decoded".to_owned(),
            Fatal::IdentifiersExhausted => "no actor identifier is left".to_owned(),
            Fatal::AddressMap(_) => "failed to read the address map".to_owned(),
            Fatal::AddressMalformed => "the address map holds no identifier".to_owned(),
        }
    }
}

impl ExecutionError {
    /// Whether the failure ends the execution.
    pub fn is_fatal(&self) -> (r: bool)
        ensures
            r == (*self is Fatal),
    {
        match self {
            ExecutionError::Fatal(_) => true,
            _ => false,
        }
    }

    /// Whether the caller can recover from the failure.
    pub fn is_recoverable(&self) -> (r: bool)
        ensures
            r == !(*self is Fatal),
    {
        !self.is_fatal()
    }

    /// The failure in words.
    pub open spec fn text(self) -> Seq<char> {
        match self {
            ExecutionError::OutOfGas => "out of gas"@,
            ExecutionError::Syscall(e) => e.message@,
            ExecutionError::Fatal(f) => f.text(),
        }
    }

    /// The failure in words.
    pub fn message(&self) -> (r: String)
        ensures
            r@ == self.text(),
    {
        match self {
            ExecutionError::OutOfGas => "out of gas".to_owned(),
            ExecutionError::Syscall(e) => e.message.clone(),
            ExecutionError::Fatal(f) => f.message(),
        }
    }
}

/// The failure of a change that was tried while the state is read-only.
pub fn read_only_error() -> (e: ExecutionError)
    ensures
        e matches ExecutionError::Syscall(s) && s.number == ErrorNumber::ReadOnly && s.message@
            == "cannot mutate state while in read-only mode"@,
{
    ExecutionError::Syscall(
        SyscallError {
            number: ErrorNumber::ReadOnly,
            message: "cannot mutate state while in read-only mode".to_owned(),
        },
    )
}

/// The failure of deducting more funds than there are.
pub fn insufficient_funds_error(amount: String, balance: String) -> (e: ExecutionError)
    ensures
        e matches ExecutionError::Syscall(s) && s.number == ErrorNumber::InsufficientFunds
            && s.message@ == "when deducting funds ("@ + amount@ + ") from balance ("@ + balance@
            + ")"@,
{
    let first = text_and_text("when deducting funds (", amount.as_str());
    let second = text_and_text(first.as_str(), ") from balance (");
    let third = text_and_text(second.as_str(), balance.as_str());
    ExecutionError::Syscall(
        SyscallError {
            number: ErrorNumber::InsufficientFunds,
            message: text_and_text(third.as_str(), ")"),
        },
    )
}

} // verus!
