//! Addresses of actors, held as their binary form.

use crate::bytes::{bytes_copy, bytes_eq};
use crate::history_map::Key;
use crate::varint::{
    lemma_uvarint_len, lemma_uvarint_parse_encode, read_uvarint, uvarint, uvarint_parse_u64,
    write_uvarint,
};
use vstd::prelude::*;

verus! {

/// The protocol of addresses that carry the identifier of the actor.
pub const PROTOCOL_ID: u8 = 0;

/// The protocol of addresses made from a secp256k1 public key.
pub const PROTOCOL_SECP256K1: u8 = 1;

/// The protocol of addresses made from the data of an actor.
pub const PROTOCOL_ACTOR: u8 = 2;

/// The protocol of addresses that are a BLS public key.
pub const PROTOCOL_BLS: u8 = 3;

/// The protocol of addresses delegated to an address manager.
pub const PROTOCOL_DELEGATED: u8 = 4;

/// The length of the hash in an address made from a key or from data.
pub const PAYLOAD_HASH_LEN: usize = 20;

/// The length of a BLS public key.
pub const BLS_PUB_LEN: usize = 48;

/// The greatest length of the part of a delegated address after its
/// namespace.
pub const MAX_SUBADDRESS_LEN: usize = 54;

/// Whether `b` is the binary form of an address: the byte of its protocol,
/// and after it what the protocol asks for. An identifier and a namespace
/// are variable-length integers in their shortest form.
pub open spec fn is_address(b: Seq<u8>) -> bool {
    b.len() >= 2 && if b[0] == PROTOCOL_ID {
        uvarint_parse_u64(b.skip(1)) matches Some((_, l)) && l == b.len() - 1
    } else if b[0] == PROTOCOL_SECP256K1 || b[0] == PROTOCOL_ACTOR {
        b.len() == 1 + PAYLOAD_HASH_LEN
    } else if b[0] == PROTOCOL_BLS {
        b.len() == 1 + BLS_PUB_LEN
    } else if b[0] == PROTOCOL_DELEGATED {
        uvarint_parse_u64(b.skip(1)) matches Some((_, l)) && b.len() - 1 - l <= MAX_SUBADDRESS_LEN
    } else {
        false
    }
}

/// The binary form of the address of the actor with identifier `id`.
pub open spec fn id_address(id: u64) -> Seq<u8> {
    seq![PROTOCOL_ID] + uvarint(id as nat)
}

/// The identifier that an address with binary form `b` carries, if it is of
/// the protocol that carries one.
pub open spec fn address_id(b: Seq<u8>) -> Option<u64> {
    if b.len() >= 1 && b[0] == PROTOCOL_ID {
        match uvarint_parse_u64(b.skip(1)) {
            Some((id, _)) => Some(id),
            None => None,
        }
    } else {
        None
    }
}

/// The address of an identifier is an address and carries the identifier.
pub proof fn lemma_id_address(id: u64)
    ensures
        is_address(id_address(id)),
        address_id(id_address(id)) == Some(id),
        id_address(id).len() <= 11,
{
    let b = id_address(id);
    assert(b.skip(1) =~= uvarint(id as nat) + Seq::<u8>::empty());
    lemma_uvarint_parse_encode(id as nat, Seq::empty());
    lemma_uvarint_len(id as nat);
}

/// Different identifiers have different addresses.
pub proof fn lemma_id_address_injective(a: u64, b: u64)
    requires
        id_address(a) == id_address(b),
    ensures
        a == b,
{
    lemma_id_address(a);
    lemma_id_address(b);
}

/// The length of a secp256k1 public key in its full form.
pub const SECP_PUB_LEN: usize = 65;

/// The binary form of the address made from a secp256k1 public key, as
/// `fvm_shared` makes it: the byte of the protocol, then a hash of the key.
pub uninterp spec fn secp_address(public_key: Seq<u8>) -> Seq<u8>;

/// Calls `fvm_shared::address::Address::new_secp256k1` on the key and
/// `to_bytes` on the address. The contract names the result, claims that
/// it is the byte of the protocol and twenty bytes after it, and that there
/// is an address exactly where the key has the length of a public key.
#[verifier::external_body]
fn secp_address_bytes(public_key: &[u8]) -> (r: Option<Vec<u8>>)
    ensures
        r matches Some(bytes) ==> bytes@ == secp_address(public_key@) && bytes@.len() == 1
            + PAYLOAD_HASH_LEN && bytes@[0] == PROTOCOL_SECP256K1,
        r is Some <==> public_key@.len() == SECP_PUB_LEN,
{
    match fvm_shared::address::Address::new_secp256k1(public_key) {
        Ok(address) => Some(address.to_bytes()),
        Err(_) => None,
    }
}

/// An address. Its view is its binary form.
#[derive(Debug, PartialEq, Eq, Hash)]
pub struct Address {
    bytes: Vec<u8>,
}

impl View for Address {
    type V = Seq<u8>;

    closed spec fn view(&self) -> Seq<u8> {
        self.bytes@
    }
}

impl Clone for Address {
    fn clone(&self) -> (copy: Self)
        ensures
            copy@ == self@,
    {
        proof {
            use_type_invariant(self);
        }
        Address { bytes: bytes_copy(self.bytes.as_slice()) }
    }
}

impl Key for Address {
    fn key_eq(&self, other: &Self) -> (same: bool) {
        bytes_eq(self.bytes.as_slice(), other.bytes.as_slice())
    }

    fn key_clone(&self) -> (copy: Self) {
        self.clone()
    }
}

impl Address {
    #[verifier::type_invariant]
    spec fn valid(&self) -> bool {
        is_address(self.bytes@)
    }

    /// The address with the given binary form, if it is one.
    pub fn from_bytes(bytes: &[u8]) -> (r: Option<Address>)
        ensures
            r is Some <==> is_address(bytes@),
            r matches Some(a) ==> a@ == bytes@,
    {
        if bytes.len() < 2 {
            return None;
        }
        let protocol = bytes[0];
        let ok = if protocol == PROTOCOL_ID {
            match read_uvarint(bytes, 1) {
                Some((_, end)) => end == bytes.len(),
                None => false,
            }
        } else if protocol == PROTOCOL_SECP256K1 || protocol == PROTOCOL_ACTOR {
            bytes.len() == 1 + PAYLOAD_HASH_LEN
        } else if protocol == PROTOCOL_BLS {
            bytes.len() == 1 + BLS_PUB_LEN
        } else if protocol == PROTOCOL_DELEGATED {
            match read_uvarint(bytes, 1) {
                Some((_, end)) => bytes.len() - end <= MAX_SUBADDRESS_LEN,
                None => false,
            }
        } else {
            false
        };
        if ok {
            Some(Address { bytes: bytes_copy(bytes) })
        } else {
            None
        }
    }

    /// The address made from a secp256k1 public key; `None` where the key
    /// has not the length of a public key.
    pub fn new_secp256k1(public_key: &[u8]) -> (r: Option<Address>)
        ensures
            match r {
                Some(a) => public_key@.len() == SECP_PUB_LEN && a@ == secp_address(public_key@)
                    && a@[0] == PROTOCOL_SECP256K1,
                None => public_key@.len() != SECP_PUB_LEN,
            },
    {
        match secp_address_bytes(public_key) {
            Some(bytes) => Some(Address { bytes }),
            None => None,
        }
    }

    /// The address of the actor with identifier `id`.
    pub fn new_id(id: u64) -> (a: Address)
        ensures
            a@ == id_address(id),
    {
        let mut bytes: Vec<u8> = Vec::new();
        bytes.push(PROTOCOL_ID);
        write_uvarint(&mut bytes, id);
        proof {
            lemma_id_address(id);
            assert(bytes@ =~= id_address(id));
        }
        Address { bytes }
    }

    /// The binary form.
    pub fn to_bytes(&self) -> (bytes: Vec<u8>)
        ensures
            bytes@ == self@,
            is_address(bytes@),
    {
        proof {
            use_type_invariant(self);
        }
        bytes_copy(self.bytes.as_slice())
    }

    /// The binary form, borrowed.
    pub fn as_bytes(&self) -> (bytes: &[u8])
        ensures
            bytes@ == self@,
            is_address(bytes@),
    {
        proof {
            use_type_invariant(self);
        }
        self.bytes.as_slice()
    }

    /// The byte of the protocol.
    pub fn protocol(&self) -> (p: u8)
        ensures
            p == self@[0],
            p <= PROTOCOL_DELEGATED,
    {
        proof {
            use_type_invariant(self);
        }
        self.bytes[0]
    }

    /// The identifier that the address carries, if it is of the protocol
    /// that carries one.
    pub fn id(&self) -> (r: Option<u64>)
        ensures
            r == address_id(self@),
    {
        proof {
            use_type_invariant(self);
        }
        if self.bytes[0] != PROTOCOL_ID {
            return None;
        }
        match read_uvarint(self.bytes.as_slice(), 1) {
            Some((id, _)) => Some(id),
            None => None,
        }
    }

    /// Whether the two addresses are the same.
    pub fn same(&self, other: &Address) -> (same: bool)
        ensures
            same == (self@ == other@),
    {
        bytes_eq(self.bytes.as_slice(), other.bytes.as_slice())
    }
}

/// The key of the actor with identifier `id` in the trie of actors: the
/// binary form of its address.
pub fn id_key(id: u64) -> (key: Vec<u8>)
    ensures
        key@ == id_address(id),
        key@.len() <= 11,
{
    let mut bytes: Vec<u8> = Vec::new();
    bytes.push(PROTOCOL_ID);
    write_uvarint(&mut bytes, id);
    proof {
        lemma_id_address(id);
        assert(bytes@ =~= id_address(id));
    }
    bytes
}

} // verus!
