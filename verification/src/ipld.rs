//! The items that records are made of: unsigned integers, byte strings,
//! text, links and `null`, each with how it is written and read.

use crate::bytes::{bytes_append, bytes_slice};
use crate::cbor::{
    byte_string, head, head_parse, is_item, items_len, lemma_head_len, lemma_head_parse,
    lemma_items_len_extend, lemma_items_len_split, read_byte_string, read_head, write_head,
    MAJOR_ARRAY, MAJOR_BYTES, MAJOR_TAG, MAJOR_TEXT, MAJOR_UINT, NULL_BYTE, TAG_LINK,
};
use crate::cid::{is_cid, Cid};
use crate::hamt::codec::{bare_link, bytes_at, head_at};
use crate::hamt::roundtrip::{lemma_bytes_at, lemma_head_at};
use vstd::prelude::*;

verus! {

/// The link at position `pos`: the identifier and the position after it.
pub open spec fn link_at(bytes: Seq<u8>, pos: nat) -> Option<(Seq<u8>, nat)> {
    match head_at(bytes, pos) {
        Some((major, n, p1)) => if major == MAJOR_TAG && n == TAG_LINK {
            match bytes_at(bytes, p1) {
                Some((b, end)) => if b.len() >= 1 && b[0] == 0 && is_cid(b.skip(1)) {
                    Some((b.skip(1), end))
                } else {
                    None
                },
                None => None,
            }
        } else {
            None
        },
        None => None,
    }
}

/// The unsigned integer at position `pos` and the position after it.
pub open spec fn uint_at(bytes: Seq<u8>, pos: nat) -> Option<(u64, nat)> {
    match head_at(bytes, pos) {
        Some((major, n, end)) => if major == MAJOR_UINT {
            Some((n, end))
        } else {
            None
        },
        None => None,
    }
}

/// The head of an array with `n` items at position `pos`: the position
/// after it.
pub open spec fn array_at(bytes: Seq<u8>, pos: nat, n: u64) -> Option<nat> {
    match head_at(bytes, pos) {
        Some((major, count, end)) => if major == MAJOR_ARRAY && count == n {
            Some(end)
        } else {
            None
        },
        None => None,
    }
}

/// A text: its head and its bytes.
pub open spec fn text_item(t: Seq<u8>) -> Seq<u8> {
    head(MAJOR_TEXT, t.len() as u64) + t
}

/// The text at position `pos`: its bytes and the position after it.
pub open spec fn text_at(bytes: Seq<u8>, pos: nat) -> Option<(Seq<u8>, nat)> {
    match head_at(bytes, pos) {
        Some((major, n, p1)) => if major == MAJOR_TEXT && p1 + n <= bytes.len() {
            Some((bytes.subrange(p1 as int, (p1 + n) as int), (p1 + n) as nat))
        } else {
            None
        },
        None => None,
    }
}

/// Reading a link gives the link that was written, whatever stands around.
pub proof fn lemma_link_at(pre: Seq<u8>, cid: Seq<u8>, rest: Seq<u8>)
    requires
        is_cid(cid),
    ensures
        link_at(pre + bare_link(cid) + rest, pre.len()) == Some(
            (cid, pre.len() + bare_link(cid).len()),
        ),
{
    let h = head(MAJOR_TAG, TAG_LINK);
    let payload = seq![0u8] + cid;
    let body = byte_string(payload);
    let bytes = pre + bare_link(cid) + rest;
    assert(bytes =~= pre + h + (body + rest));
    lemma_head_at(pre, MAJOR_TAG, TAG_LINK, body + rest);
    assert(bytes =~= (pre + h) + body + rest);
    lemma_bytes_at(pre + h, payload, rest);
    assert(payload.skip(1) =~= cid);
    assert(payload[0] == 0);
}

/// Reading an unsigned integer gives the one that was written.
pub proof fn lemma_uint_at(pre: Seq<u8>, n: u64, rest: Seq<u8>)
    ensures
        uint_at(pre + head(MAJOR_UINT, n) + rest, pre.len()) == Some(
            (n, pre.len() + head(MAJOR_UINT, n).len()),
        ),
{
    lemma_head_at(pre, MAJOR_UINT, n, rest);
}

/// Reading a text gives the text that was written.
pub proof fn lemma_text_at(pre: Seq<u8>, t: Seq<u8>, rest: Seq<u8>)
    requires
        t.len() <= 0xffff_ffff,
    ensures
        text_at(pre + text_item(t) + rest, pre.len()) == Some((t, pre.len() + text_item(t).len())),
{
    let h = head(MAJOR_TEXT, t.len() as u64);
    let bytes = pre + text_item(t) + rest;
    assert(bytes =~= pre + h + (t + rest));
    lemma_head_at(pre, MAJOR_TEXT, t.len() as u64, t + rest);
    let p1 = pre.len() + h.len();
    assert(bytes.subrange(p1 as int, (p1 + t.len()) as int) =~= t);
}

/// Items one after the other are as many items as there are together.
pub proof fn lemma_items_concat(a: Seq<u8>, count_a: nat, b: Seq<u8>, count_b: nat)
    requires
        items_len(a, count_a) == Some(a.len()),
        items_len(b, count_b) == Some(b.len()),
    ensures
        items_len(a + b, count_a + count_b) == Some((a + b).len()),
{
    lemma_items_len_extend(a, count_a, b);
    lemma_items_len_split(a + b, count_a, count_b);
    assert((a + b).skip(a.len() as int) =~= b);
}

/// A head with nothing inside or after it is one item.
pub proof fn lemma_plain_item(major: u8, n: u64)
    requires
        major == MAJOR_UINT || major == 1 || major == 7,
    ensures
        is_item(head(major, n)),
{
    reveal_with_fuel(items_len, 2);
    let h = head(major, n);
    lemma_head_parse(major, n, Seq::empty());
    assert(h + Seq::<u8>::empty() =~= h);
    lemma_head_len(major, n);
    assert(h.skip(h.len() as int) =~= Seq::<u8>::empty());
}

/// The byte of `null` is one item.
pub proof fn lemma_null_item()
    ensures
        is_item(seq![NULL_BYTE]),
{
    reveal(head_parse);
    reveal_with_fuel(items_len, 2);
    let s = seq![NULL_BYTE];
    assert(s[0] == NULL_BYTE);
    assert(s.skip(1) =~= Seq::<u8>::empty());
}

/// A byte string is one item.
pub proof fn lemma_byte_string_item(b: Seq<u8>)
    requires
        b.len() <= 0xffff_ffff,
    ensures
        is_item(byte_string(b)),
{
    reveal_with_fuel(items_len, 2);
    let h = head(MAJOR_BYTES, b.len() as u64);
    let s = byte_string(b);
    lemma_head_parse(MAJOR_BYTES, b.len() as u64, b);
    lemma_head_len(MAJOR_BYTES, b.len() as u64);
    assert(s.skip(s.len() as int) =~= Seq::<u8>::empty());
}

/// A link is one item.
pub proof fn lemma_link_item(cid: Seq<u8>)
    requires
        cid.len() <= 0xffff,
    ensures
        is_item(bare_link(cid)),
{
    let h = head(MAJOR_TAG, TAG_LINK);
    let body = byte_string(seq![0u8] + cid);
    let s = bare_link(cid);
    lemma_byte_string_item(seq![0u8] + cid);
    lemma_head_parse(MAJOR_TAG, TAG_LINK, body);
    lemma_head_len(MAJOR_TAG, TAG_LINK);
    assert(s.skip(h.len() as int) =~= body);
}

/// An array head before as many items as it counts is one item.
pub proof fn lemma_array_item(n: u64, body: Seq<u8>)
    requires
        items_len(body, n as nat) == Some(body.len()),
    ensures
        is_item(head(MAJOR_ARRAY, n) + body),
{
    let h = head(MAJOR_ARRAY, n);
    let s = h + body;
    lemma_head_parse(MAJOR_ARRAY, n, body);
    lemma_head_len(MAJOR_ARRAY, n);
    assert(s.skip(h.len() as int) =~= body);
}

/// Reads the link at `bytes[pos..]`.
pub fn read_link(bytes: &[u8], pos: usize) -> (r: Option<(Cid, usize)>)
    requires
        pos <= bytes@.len(),
    ensures
        match link_at(bytes@, pos as nat) {
            Some((cid, end)) => r matches Some((c, e)) && c@ == cid && e == end && e
                <= bytes@.len(),
            None => r is None,
        },
{
    let h = match read_head(bytes, pos) {
        Some(h) => h,
        None => {
            return None;
        },
    };
    if h.major != MAJOR_TAG || h.arg != TAG_LINK {
        return None;
    }
    let (b, end) = match read_byte_string(bytes, h.end) {
        Some(r) => r,
        None => {
            return None;
        },
    };
    if b.len() < 1 || b[0] != 0 {
        return None;
    }
    let id = bytes_slice(b.as_slice(), 1, b.len());
    assert(id@ =~= b@.skip(1));
    match Cid::from_bytes(id.as_slice()) {
        Some(cid) => Some((cid, end)),
        None => None,
    }
}

/// Reads the unsigned integer at `bytes[pos..]`.
pub fn read_uint(bytes: &[u8], pos: usize) -> (r: Option<(u64, usize)>)
    requires
        pos <= bytes@.len(),
    ensures
        match uint_at(bytes@, pos as nat) {
            Some((n, end)) => r matches Some((m, e)) && m == n && e == end && e <= bytes@.len(),
            None => r is None,
        },
{
    match read_head(bytes, pos) {
        Some(h) => if h.major == MAJOR_UINT {
            Some((h.arg, h.end))
        } else {
            None
        },
        None => None,
    }
}

/// Reads the head of an array of `n` items at `bytes[pos..]`.
pub fn read_array(bytes: &[u8], pos: usize, n: u64) -> (r: Option<usize>)
    requires
        pos <= bytes@.len(),
    ensures
        match array_at(bytes@, pos as nat, n) {
            Some(end) => r matches Some(e) && e == end && e <= bytes@.len(),
            None => r is None,
        },
{
    match read_head(bytes, pos) {
        Some(h) => if h.major == MAJOR_ARRAY && h.arg == n {
            Some(h.end)
        } else {
            None
        },
        None => None,
    }
}

/// Reads the text at `bytes[pos..]`.
pub fn read_text(bytes: &[u8], pos: usize) -> (r: Option<(Vec<u8>, usize)>)
    requires
        pos <= bytes@.len(),
    ensures
        match text_at(bytes@, pos as nat) {
            Some((t, end)) => r matches Some((v, e)) && v@ == t && e == end && e <= bytes@.len(),
            None => r is None,
        },
{
    let h = match read_head(bytes, pos) {
        Some(h) => h,
        None => {
            return None;
        },
    };
    if h.major != MAJOR_TEXT {
        return None;
    }
    let remaining: usize = bytes.len() - h.end;
    if h.arg > remaining as u64 {
        return None;
    }
    let end: usize = h.end + h.arg as usize;
    Some((bytes_slice(bytes, h.end, end), end))
}

/// Appends a text.
pub fn write_text(out: &mut Vec<u8>, t: &[u8])
    ensures
        final(out)@ == old(out)@ + text_item(t@),
{
    write_head(out, MAJOR_TEXT, t.len() as u64);
    bytes_append(out, t);
    assert(out@ =~= old(out)@ + text_item(t@));
}

} // verus!
