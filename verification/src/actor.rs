//! The record of an actor and how it is written in the trie of actors.

use crate::address::{is_address, Address};
use crate::amount::{be_min, be_value, lemma_be_min_value, token_text, TokenAmount};
use crate::bytes::{bytes_append, bytes_slice};
use crate::cbor::{
    byte_string, head, is_item, lemma_head_len, read_byte_string, write_byte_string, write_head,
    MAJOR_ARRAY, MAJOR_UINT, NULL_BYTE,
};
use crate::cid::{is_cid, Cid};
use crate::error::{insufficient_funds_error, ExecutionError};
use crate::hamt::codec::{bare_link, bytes_at, write_link};
use crate::hamt::roundtrip::{lemma_bytes_at, lemma_head_at};
use crate::ipld::{
    array_at, lemma_array_item, lemma_byte_string_item, lemma_items_concat, lemma_link_at,
    lemma_link_item, lemma_null_item, lemma_plain_item, lemma_uint_at, link_at, read_array,
    read_link, read_uint, uint_at,
};
use crate::store::{block_cid, block_cid_bytes, DAG_CBOR};
use vstd::prelude::*;

verus! {

/// The most bytes that the balance of a record may take where it is written,
/// the byte of its sign counted.
pub const MAX_BALANCE_LEN: usize = 128;

/// The identifier of the block that holds an empty array, which is the
/// state of an actor that has none.
pub open spec fn empty_array_cid() -> Seq<u8> {
    block_cid_bytes(DAG_CBOR, head(MAJOR_ARRAY, 0))
}

/// The record of an actor.
#[derive(Debug, PartialEq, Eq)]
pub struct ActorState {
    /// The link to the code of the actor.
    pub code: Cid,
    /// The link to the state of the actor.
    pub state: Cid,
    /// How many messages the actor has sent.
    pub sequence: u64,
    /// The tokens that the actor holds.
    pub balance: TokenAmount,
    /// The delegated address of the actor, if it was given one. It is set
    /// when the actor is made and never changed.
    pub delegated_address: Option<Address>,
}

/// The record of an actor as plain values.
pub struct ActorView {
    pub code: Seq<u8>,
    pub state: Seq<u8>,
    pub sequence: u64,
    pub balance: nat,
    pub delegated_address: Option<Seq<u8>>,
}

impl View for ActorState {
    type V = ActorView;

    open spec fn view(&self) -> ActorView {
        ActorView {
            code: self.code@,
            state: self.state@,
            sequence: self.sequence,
            balance: self.balance@,
            delegated_address: match self.delegated_address {
                Some(a) => Some(a@),
                None => None,
            },
        }
    }
}

impl Clone for ActorState {
    fn clone(&self) -> (copy: Self)
        ensures
            copy@ == self@,
    {
        ActorState {
            code: self.code.clone(),
            state: self.state.clone(),
            sequence: self.sequence,
            balance: self.balance.clone(),
            delegated_address: match &self.delegated_address {
                Some(a) => Some(a.clone()),
                None => None,
            },
        }
    }
}

/// Whether the plain values are those of a record: its links are
/// identifiers and its delegated address, if it has one, is an address.
pub open spec fn actor_ok(a: ActorView) -> bool {
    &&& is_cid(a.code)
    &&& is_cid(a.state)
    &&& a.delegated_address matches Some(b) ==> is_address(b) && b.len() <= 0xffff
}

/// The bytes of a balance where it is written: none for zero, else a zero
/// byte for the sign and the shortest spelling of the number.
pub open spec fn balance_bytes(balance: nat) -> Seq<u8> {
    if balance == 0 {
        Seq::empty()
    } else {
        seq![0u8] + be_min(balance)
    }
}

/// Whether a record with this balance can be written.
pub open spec fn balance_fits(balance: nat) -> bool {
    balance_bytes(balance).len() <= MAX_BALANCE_LEN
}

/// The last field of a record where it is written: the address as a byte
/// string, or `null`.
pub open spec fn address_field(address: Option<Seq<u8>>) -> Seq<u8> {
    match address {
        Some(b) => byte_string(b),
        None => seq![NULL_BYTE],
    }
}

/// How a record is written: the array of its code, its state, its
/// sequence, its balance and its delegated address.
pub open spec fn actor_encoding(a: ActorView) -> Seq<u8> {
    head(MAJOR_ARRAY, 5) + bare_link(a.code) + bare_link(a.state) + head(MAJOR_UINT, a.sequence)
        + byte_string(balance_bytes(a.balance)) + address_field(a.delegated_address)
}

/// The balance that the bytes of a written balance stand for, where they
/// stand for one: no bytes, or a zero byte and the shortest spelling of a
/// number above zero.
pub open spec fn balance_of(b: Seq<u8>) -> Option<nat> {
    if b.len() == 0 {
        Some(0nat)
    } else if b.len() >= 2 && b.len() <= MAX_BALANCE_LEN && b[0] == 0 && b[1] != 0 {
        Some(be_value(b.skip(1)))
    } else {
        None
    }
}

/// The delegated address at position `pos`, or none where `null` stands
/// there, and the position after it.
pub open spec fn address_at(bytes: Seq<u8>, pos: nat) -> Option<(Option<Seq<u8>>, nat)> {
    if pos < bytes.len() && bytes[pos as int] == NULL_BYTE {
        Some((None, pos + 1))
    } else {
        match bytes_at(bytes, pos) {
            Some((b, end)) => if is_address(b) && b.len() <= 0xffff {
                Some((Some(b), end))
            } else {
                None
            },
            None => None,
        }
    }
}

/// The record that `bytes` are the writing of, where they are one.
pub open spec fn actor_decoding(bytes: Seq<u8>) -> Option<ActorView> {
    match array_at(bytes, 0, 5) {
        Some(p1) => match link_at(bytes, p1) {
            Some((code, p2)) => match link_at(bytes, p2) {
                Some((state, p3)) => match uint_at(bytes, p3) {
                    Some((sequence, p4)) => match bytes_at(bytes, p4) {
                        Some((b, p5)) => match balance_of(b) {
                            Some(balance) => match address_at(bytes, p5) {
                                Some((delegated_address, end)) => if end == bytes.len() {
                                    Some(
                                        ActorView {
                                            code,
                                            state,
                                            sequence,
                                            balance,
                                            delegated_address,
                                        },
                                    )
                                } else {
                                    None
                                },
                                None => None,
                            },
                            None => None,
                        },
                        None => None,
                    },
                    None => None,
                },
                None => None,
            },
            None => None,
        },
        None => None,
    }
}

/// The written balance is read back as the balance.
pub proof fn lemma_balance_round_trip(balance: nat)
    requires
        balance_fits(balance),
    ensures
        balance_of(balance_bytes(balance)) == Some(balance),
{
    if balance > 0 {
        lemma_be_min_value(balance);
        let b = balance_bytes(balance);
        assert(b.skip(1) =~= be_min(balance));
        assert(b[1] == be_min(balance)[0]);
    }
}

/// A written record is read back as the record, and is one item.
#[verifier::rlimit(60)]
pub proof fn lemma_actor_round_trip(a: ActorView)
    requires
        actor_ok(a),
        balance_fits(a.balance),
    ensures
        actor_decoding(actor_encoding(a)) == Some(a),
        is_item(actor_encoding(a)),
{
    let h = head(MAJOR_ARRAY, 5);
    let c = bare_link(a.code);
    let s = bare_link(a.state);
    let q = head(MAJOR_UINT, a.sequence);
    let b = byte_string(balance_bytes(a.balance));
    let d = address_field(a.delegated_address);
    let none = Seq::<u8>::empty();
    let bytes = actor_encoding(a);
    lemma_balance_round_trip(a.balance);
    assert(bytes =~= none + h + (c + s + q + b + d));
    lemma_head_at(none, MAJOR_ARRAY, 5, c + s + q + b + d);
    assert(bytes =~= (none + h) + c + (s + q + b + d));
    lemma_link_at(none + h, a.code, s + q + b + d);
    assert(bytes =~= (none + h + c) + s + (q + b + d));
    lemma_link_at(none + h + c, a.state, q + b + d);
    assert(bytes =~= (none + h + c + s) + q + (b + d));
    lemma_uint_at(none + h + c + s, a.sequence, b + d);
    assert(bytes =~= (none + h + c + s + q) + b + d);
    lemma_bytes_at(none + h + c + s + q, balance_bytes(a.balance), d);
    let p5 = (none + h + c + s + q + b).len();
    match a.delegated_address {
        Some(addr) => {
            assert(bytes =~= (none + h + c + s + q + b) + byte_string(addr) + none);
            lemma_bytes_at(none + h + c + s + q + b, addr, none);
            lemma_head_len(crate::cbor::MAJOR_BYTES, addr.len() as u64);
            assert(bytes[p5 as int] == byte_string(addr)[0]);
            assert(bytes[p5 as int] != NULL_BYTE) by {
                lemma_byte_string_first(addr);
            }
            lemma_byte_string_item(addr);
        },
        None => {
            assert(bytes[p5 as int] == NULL_BYTE);
            lemma_null_item();
        },
    }
    lemma_link_item(a.code);
    lemma_link_item(a.state);
    lemma_plain_item(MAJOR_UINT, a.sequence);
    lemma_byte_string_item(balance_bytes(a.balance));
    lemma_items_concat(c, 1, s, 1);
    lemma_items_concat(c + s, 2, q, 1);
    lemma_items_concat(c + s + q, 3, b, 1);
    lemma_items_concat(c + s + q + b, 4, d, 1);
    assert(bytes =~= h + (c + s + q + b + d));
    lemma_array_item(5, c + s + q + b + d);
}

/// A byte string does not begin with the byte of `null`.
proof fn lemma_byte_string_first(b: Seq<u8>)
    ensures
        byte_string(b).len() > 0,
        byte_string(b)[0] != NULL_BYTE,
{
    reveal(head);
    let h = head(crate::cbor::MAJOR_BYTES, b.len() as u64);
    assert(byte_string(b)[0] == h[0]);
}

impl ActorState {
    /// A record with the given fields.
    pub fn new(
        code: Cid,
        state: Cid,
        balance: TokenAmount,
        sequence: u64,
        address: Option<Address>,
    ) -> (a: Self)
        ensures
            a.code == code,
            a.state == state,
            a.sequence == sequence,
            a.balance == balance,
            a.delegated_address == address,
    {
        ActorState { code, state, sequence, balance, delegated_address: address }
    }

    /// The record of a new actor with the given code, whose state is the
    /// empty array, with no tokens and no messages sent.
    pub fn new_empty(code: Cid, delegated_address: Option<Address>) -> (a: Self)
        ensures
            a.code == code,
            a.state@ == empty_array_cid(),
            a.sequence == 0,
            a.balance@ == 0,
            a.delegated_address == delegated_address,
    {
        let mut empty: Vec<u8> = Vec::new();
        write_head(&mut empty, MAJOR_ARRAY, 0);
        assert(empty@ =~= head(MAJOR_ARRAY, 0));
        ActorState {
            code,
            state: block_cid(DAG_CBOR, empty.as_slice()),
            sequence: 0,
            balance: TokenAmount::zero(),
            delegated_address,
        }
    }

    /// Takes `amount` from the balance. Where the balance is less, nothing
    /// changes and the failure is `InsufficientFunds`.
    pub fn deduct_funds(&mut self, amount: &TokenAmount) -> (r: Result<(), ExecutionError>)
        ensures
            match r {
                Ok(()) => amount@ <= old(self).balance@ && final(self)@ == (ActorView {
                    balance: (old(self).balance@ - amount@) as nat,
                    ..old(self)@
                }),
                Err(e) => amount@ > old(self).balance@ && *final(self) == *old(self) && (e
                    matches ExecutionError::Syscall(s) && s.number
                    == crate::error::ErrorNumber::InsufficientFunds && s.message@
                    == "when deducting funds ("@ + token_text(be_min(amount@))
                    + ") from balance ("@ + token_text(be_min(old(self).balance@)) + ")"@),
            },
    {
        match self.balance.minus(amount) {
            Some(rest) => {
                self.balance = rest;
                Ok(())
            },
            None => Err(insufficient_funds_error(amount.to_text(), self.balance.to_text())),
        }
    }

    /// Adds `amount` to the balance.
    pub fn deposit_funds(&mut self, amount: &TokenAmount)
        ensures
            final(self)@ == (ActorView {
                balance: old(self).balance@ + amount@,
                ..old(self)@
            }),
    {
        self.balance = self.balance.plus(amount);
    }

    /// Writes the record; `None` where its balance takes too many bytes.
    pub fn encode(&self) -> (r: Option<Vec<u8>>)
        ensures
            actor_ok(self@),
            match r {
                Some(bytes) => balance_fits(self@.balance) && bytes@ == actor_encoding(self@),
                None => !balance_fits(self@.balance),
            },
    {
        let magnitude = self.balance.to_bytes_be();
        let mut payload: Vec<u8> = Vec::new();
        if magnitude.len() > 0 {
            payload.push(0);
            bytes_append(&mut payload, magnitude.as_slice());
        }
        proof {
            lemma_be_min_value(self@.balance);
            assert(payload@ =~= balance_bytes(self@.balance));
        }
        let _ = self.code.as_bytes();
        let _ = self.state.as_bytes();
        match &self.delegated_address {
            Some(a) => {
                let b = a.as_bytes();
                assert(b@.len() <= 0xffff) by {
                    lemma_address_len(b@);
                }
            },
            None => {},
        }
        if payload.len() > MAX_BALANCE_LEN {
            return None;
        }
        let mut out: Vec<u8> = Vec::new();
        write_head(&mut out, MAJOR_ARRAY, 5);
        write_link(&mut out, &self.code);
        write_link(&mut out, &self.state);
        write_head(&mut out, MAJOR_UINT, self.sequence);
        write_byte_string(&mut out, payload.as_slice());
        match &self.delegated_address {
            Some(a) => {
                write_byte_string(&mut out, a.as_bytes());
            },
            None => {
                out.push(NULL_BYTE);
            },
        }
        assert(out@ =~= actor_encoding(self@));
        Some(out)
    }

    /// Reads a record.
    pub fn decode(bytes: &[u8]) -> (r: Option<ActorState>)
        ensures
            match actor_decoding(bytes@) {
                Some(a) => r matches Some(s) && s@ == a,
                None => r is None,
            },
    {
        let p1 = match read_array(bytes, 0, 5) {
            Some(p) => p,
            None => {
                return None;
            },
        };
        let (code, p2) = match read_link(bytes, p1) {
            Some(r) => r,
            None => {
                return None;
            },
        };
        let (state, p3) = match read_link(bytes, p2) {
            Some(r) => r,
            None => {
                return None;
            },
        };
        let (sequence, p4) = match read_uint(bytes, p3) {
            Some(r) => r,
            None => {
                return None;
            },
        };
        let (b, p5) = match read_byte_string(bytes, p4) {
            Some(r) => r,
            None => {
                return None;
            },
        };
        let balance = if b.len() == 0 {
            TokenAmount::zero()
        } else if b.len() >= 2 && b.len() <= MAX_BALANCE_LEN && b[0] == 0 && b[1] != 0 {
            let magnitude = bytes_slice(b.as_slice(), 1, b.len());
            assert(magnitude@ =~= b@.skip(1));
            TokenAmount::from_bytes_be(magnitude.as_slice())
        } else {
            return None;
        };
        let (delegated_address, end) = if p5 < bytes.len() && bytes[p5] == NULL_BYTE {
            (None, p5 + 1)
        } else {
            match read_byte_string(bytes, p5) {
                Some((a, end)) => {
                    if a.len() > 0xffff {
                        return None;
                    }
                    match Address::from_bytes(a.as_slice()) {
                        Some(address) => (Some(address), end),
                        None => {
                            return None;
                        },
                    }
                },
                None => {
                    return None;
                },
            }
        };
        if end != bytes.len() {
            return None;
        }
        Some(ActorState { code, state, sequence, balance, delegated_address })
    }
}

/// An address is short.
pub proof fn lemma_address_len(b: Seq<u8>)
    requires
        is_address(b),
    ensures
        b.len() <= 66,
{
    if b[0] == crate::address::PROTOCOL_ID || b[0] == crate::address::PROTOCOL_DELEGATED {
        let s = b.skip(1);
        crate::varint::lemma_uvarint_encode_parse(s);
        let (v, l) = crate::varint::uvarint_parse(s)->Some_0;
        crate::varint::lemma_uvarint_len(v);
    }
}

} // verus!
