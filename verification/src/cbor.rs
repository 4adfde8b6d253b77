//! The framing of CBOR data items: heads, byte strings, links, and the
//! length of an item whose contents are not looked into.

use crate::bytes::{bytes_append, bytes_slice};
use vstd::prelude::*;

verus! {

pub const MAJOR_UINT: u8 = 0;

pub const MAJOR_BYTES: u8 = 2;

pub const MAJOR_TEXT: u8 = 3;

pub const MAJOR_ARRAY: u8 = 4;

pub const MAJOR_MAP: u8 = 5;

pub const MAJOR_TAG: u8 = 6;

pub const MAJOR_SIMPLE: u8 = 7;

/// The tag that marks a link to another block.
pub const TAG_LINK: u64 = 42;

/// The single byte that stands for `null`.
pub const NULL_BYTE: u8 = 0xf6;

/// The head of an item: its major type and argument in the shortest form.
#[verifier::opaque]
pub open spec fn head(major: u8, n: u64) -> Seq<u8> {
    if n < 24 {
        seq![(major * 32 + n) as u8]
    } else if n < 0x100 {
        seq![(major * 32 + 24) as u8, n as u8]
    } else if n < 0x1_0000 {
        seq![(major * 32 + 25) as u8, (n / 0x100) as u8, (n % 0x100) as u8]
    } else if n < 0x1_0000_0000 {
        seq![
            (major * 32 + 26) as u8,
            (n / 0x100_0000) as u8,
            (n / 0x1_0000 % 0x100) as u8,
            (n / 0x100 % 0x100) as u8,
            (n % 0x100) as u8,
        ]
    } else {
        seq![
            (major * 32 + 27) as u8,
            (n / 0x100_0000_0000_0000) as u8,
            (n / 0x1_0000_0000_0000 % 0x100) as u8,
            (n / 0x100_0000_0000 % 0x100) as u8,
            (n / 0x1_0000_0000 % 0x100) as u8,
            (n / 0x100_0000 % 0x100) as u8,
            (n / 0x1_0000 % 0x100) as u8,
            (n / 0x100 % 0x100) as u8,
            (n % 0x100) as u8,
        ]
    }
}

/// The head that `s` begins with: major type, argument and length in bytes.
/// Heads of indefinite length are none. Longer forms than the shortest are
/// read too.
#[verifier::opaque]
pub open spec fn head_parse(s: Seq<u8>) -> Option<(u8, u64, nat)> {
    if s.len() == 0 {
        None
    } else {
        let major = s[0] / 32;
        let info = s[0] % 32;
        if info < 24 {
            Some((major, info as u64, 1nat))
        } else if info == 24 {
            if s.len() < 2 {
                None
            } else {
                Some((major, s[1] as u64, 2nat))
            }
        } else if info == 25 {
            if s.len() < 3 {
                None
            } else {
                Some((major, (s[1] * 0x100 + s[2]) as u64, 3nat))
            }
        } else if info == 26 {
            if s.len() < 5 {
                None
            } else {
                Some(
                    (
                        major,
                        (s[1] * 0x100_0000 + s[2] * 0x1_0000 + s[3] * 0x100 + s[4]) as u64,
                        5nat,
                    ),
                )
            }
        } else if info == 27 {
            if s.len() < 9 {
                None
            } else {
                Some(
                    (
                        major,
                        (s[1] * 0x100_0000_0000_0000 + s[2] * 0x1_0000_0000_0000 + s[3]
                            * 0x100_0000_0000 + s[4] * 0x1_0000_0000 + s[5] * 0x100_0000 + s[6]
                            * 0x1_0000 + s[7] * 0x100 + s[8]) as u64,
                        9nat,
                    ),
                )
            }
        } else {
            None
        }
    }
}

/// A head has between one and nine bytes.
pub proof fn lemma_head_len(major: u8, n: u64)
    ensures
        1 <= head(major, n).len() <= 9,
{
    reveal(head);
}

/// A head that is read has between one and nine bytes, all of them there,
/// and a major type below eight.
pub proof fn lemma_head_parse_len(s: Seq<u8>)
    ensures
        head_parse(s) matches Some((major, n, len)) ==> 1 <= len <= 9 && len <= s.len() && major
            < 8,
{
    reveal(head_parse);
}

/// What follows a head has no part in how it is read.
pub proof fn lemma_head_parse_extend(s: Seq<u8>, rest: Seq<u8>)
    requires
        head_parse(s) is Some,
    ensures
        head_parse(s + rest) == head_parse(s),
{
    reveal(head_parse);
    let t = s + rest;
    assert(t[0] == s[0]);
    assert(forall|i: int| 0 <= i < s.len() ==> t[i] == s[i]);
}

proof fn lemma_split2(n: u64)
    requires
        n < 0x1_0000,
    ensures
        n / 0x100 < 0x100,
        (n / 0x100) * 0x100 + n % 0x100 == n,
{
    assert(n < 0x1_0000 ==> n / 0x100 < 0x100 && (n / 0x100) * 0x100 + n % 0x100 == n)
        by (bit_vector);
}

proof fn lemma_split4(n: u64)
    requires
        n < 0x1_0000_0000,
    ensures
        n / 0x100_0000 < 0x100,
        (n / 0x100_0000) * 0x100_0000 + (n / 0x1_0000 % 0x100) * 0x1_0000 + (n / 0x100 % 0x100)
            * 0x100 + n % 0x100 == n,
{
    assert(n < 0x1_0000_0000 ==> n / 0x100_0000 < 0x100 && (n / 0x100_0000) * 0x100_0000 + (n
        / 0x1_0000 % 0x100) * 0x1_0000 + (n / 0x100 % 0x100) * 0x100 + n % 0x100 == n)
        by (bit_vector);
}

proof fn lemma_split8(n: u64)
    ensures
        n / 0x100_0000_0000_0000 < 0x100,
        (n / 0x100_0000_0000_0000) * 0x100_0000_0000_0000 + (n / 0x1_0000_0000_0000 % 0x100)
            * 0x1_0000_0000_0000 + (n / 0x100_0000_0000 % 0x100) * 0x100_0000_0000 + (n
            / 0x1_0000_0000 % 0x100) * 0x1_0000_0000 + (n / 0x100_0000 % 0x100) * 0x100_0000 + (n
            / 0x1_0000 % 0x100) * 0x1_0000 + (n / 0x100 % 0x100) * 0x100 + n % 0x100 == n,
{
    assert(n / 0x100_0000_0000_0000 < 0x100 && (n / 0x100_0000_0000_0000) * 0x100_0000_0000_0000
        + (n / 0x1_0000_0000_0000 % 0x100) * 0x1_0000_0000_0000 + (n / 0x100_0000_0000 % 0x100)
        * 0x100_0000_0000 + (n / 0x1_0000_0000 % 0x100) * 0x1_0000_0000 + (n / 0x100_0000
        % 0x100) * 0x100_0000 + (n / 0x1_0000 % 0x100) * 0x1_0000 + (n / 0x100 % 0x100) * 0x100
        + n % 0x100 == n) by (bit_vector);
}

/// Reading undoes writing, whatever follows the head.
pub proof fn lemma_head_parse(major: u8, n: u64, rest: Seq<u8>)
    requires
        major < 8,
    ensures
        head_parse(head(major, n) + rest) == Some((major, n, head(major, n).len())),
{
    reveal(head);
    reveal(head_parse);
    let s = head(major, n) + rest;
    let h = head(major, n);
    assert(s[0] == h[0]);
    if n < 24 {
    } else if n < 0x100 {
        assert(s[1] == h[1]);
    } else if n < 0x1_0000 {
        lemma_split2(n);
        assert(s[1] == h[1] && s[2] == h[2]);
    } else if n < 0x1_0000_0000 {
        lemma_split4(n);
        assert(s[1] == h[1] && s[2] == h[2] && s[3] == h[3] && s[4] == h[4]);
    } else {
        lemma_split8(n);
        assert(s[1] == h[1] && s[2] == h[2] && s[3] == h[3] && s[4] == h[4]);
        assert(s[5] == h[5] && s[6] == h[6] && s[7] == h[7] && s[8] == h[8]);
    }
}

/// Appends the head of an item.
pub fn write_head(out: &mut Vec<u8>, major: u8, n: u64)
    requires
        major < 8,
    ensures
        final(out)@ == old(out)@ + head(major, n),
{
    proof {
        reveal(head);
    }
    let m: u8 = major * 32;
    if n < 24 {
        out.push(m + n as u8);
    } else if n < 0x100 {
        out.push(m + 24);
        out.push(n as u8);
    } else if n < 0x1_0000 {
        out.push(m + 25);
        out.push((n / 0x100) as u8);
        out.push((n % 0x100) as u8);
    } else if n < 0x1_0000_0000 {
        out.push(m + 26);
        out.push((n / 0x100_0000) as u8);
        out.push((n / 0x1_0000 % 0x100) as u8);
        out.push((n / 0x100 % 0x100) as u8);
        out.push((n % 0x100) as u8);
    } else {
        out.push(m + 27);
        out.push((n / 0x100_0000_0000_0000) as u8);
        out.push((n / 0x1_0000_0000_0000 % 0x100) as u8);
        out.push((n / 0x100_0000_0000 % 0x100) as u8);
        out.push((n / 0x1_0000_0000 % 0x100) as u8);
        out.push((n / 0x100_0000 % 0x100) as u8);
        out.push((n / 0x1_0000 % 0x100) as u8);
        out.push((n / 0x100 % 0x100) as u8);
        out.push((n % 0x100) as u8);
    }
    assert(out@ =~= old(out)@ + head(major, n));
}

/// A head that was read: major type, argument, and the position after it.
pub struct Head {
    pub major: u8,
    pub arg: u64,
    pub end: usize,
}

/// Reads the head at `bytes[pos..]`.
pub fn read_head(bytes: &[u8], pos: usize) -> (r: Option<Head>)
    requires
        pos <= bytes@.len(),
    ensures
        match head_parse(bytes@.skip(pos as int)) {
            Some((major, n, len)) => r matches Some(h) && h.major == major && h.arg == n && h.end
                == pos + len && pos < h.end <= bytes@.len() && major < 8,
            None => r is None,
        },
{
    let ghost s = bytes@.skip(pos as int);
    proof {
        reveal(head_parse);
    }
    if pos >= bytes.len() {
        return None;
    }
    let remaining: usize = bytes.len() - pos;
    let first = bytes[pos];
    assert(s[0] == first);
    let major: u8 = first / 32;
    let info: u8 = first % 32;
    if info < 24 {
        Some(Head { major, arg: info as u64, end: pos + 1 })
    } else if info == 24 {
        if remaining < 2 {
            return None;
        }
        assert(s[1] == bytes@[pos + 1]);
        Some(Head { major, arg: bytes[pos + 1] as u64, end: pos + 2 })
    } else if info == 25 {
        if remaining < 3 {
            return None;
        }
        assert(s[1] == bytes@[pos + 1] && s[2] == bytes@[pos + 2]);
        let n: u64 = bytes[pos + 1] as u64 * 0x100 + bytes[pos + 2] as u64;
        Some(Head { major, arg: n, end: pos + 3 })
    } else if info == 26 {
        if remaining < 5 {
            return None;
        }
        assert(s[1] == bytes@[pos + 1] && s[2] == bytes@[pos + 2]);
        assert(s[3] == bytes@[pos + 3] && s[4] == bytes@[pos + 4]);
        let n: u64 = bytes[pos + 1] as u64 * 0x100_0000 + bytes[pos + 2] as u64 * 0x1_0000
            + bytes[pos + 3] as u64 * 0x100 + bytes[pos + 4] as u64;
        Some(Head { major, arg: n, end: pos + 5 })
    } else if info == 27 {
        if remaining < 9 {
            return None;
        }
        assert(s[1] == bytes@[pos + 1] && s[2] == bytes@[pos + 2]);
        assert(s[3] == bytes@[pos + 3] && s[4] == bytes@[pos + 4]);
        assert(s[5] == bytes@[pos + 5] && s[6] == bytes@[pos + 6]);
        assert(s[7] == bytes@[pos + 7] && s[8] == bytes@[pos + 8]);
        let n: u64 = bytes[pos + 1] as u64 * 0x100_0000_0000_0000 + bytes[pos + 2] as u64
            * 0x1_0000_0000_0000 + bytes[pos + 3] as u64 * 0x100_0000_0000 + bytes[pos
            + 4] as u64 * 0x1_0000_0000 + bytes[pos + 5] as u64 * 0x100_0000 + bytes[pos
            + 6] as u64 * 0x1_0000 + bytes[pos + 7] as u64 * 0x100 + bytes[pos + 8] as u64;
        Some(Head { major, arg: n, end: pos + 9 })
    } else {
        None
    }
}

/// How many bytes the first `count` items of `s` take together; `None` where
/// `s` does not begin with that many complete items. A byte or text string
/// takes its head and contents; an array, a map and a tag take their head and
/// the items inside them; everything else takes its head alone.
pub open spec fn items_len(s: Seq<u8>, count: nat) -> Option<nat>
    decreases s.len(),
{
    if count == 0 {
        Some(0nat)
    } else {
        match head_parse(s) {
            None => None,
            Some((major, n, len)) => {
                proof {
                    lemma_head_parse_len(s);
                }
                let contents: nat = if major == MAJOR_BYTES || major == MAJOR_TEXT {
                    n as nat
                } else {
                    0
                };
                let inside: nat = if major == MAJOR_ARRAY {
                    n as nat
                } else if major == MAJOR_MAP {
                    2 * n as nat
                } else if major == MAJOR_TAG {
                    1
                } else {
                    0
                };
                if len + contents > s.len() {
                    None
                } else {
                    match items_len(s.skip((len + contents) as int), (count - 1 + inside) as nat) {
                        Some(l) => Some(len + contents + l),
                        None => None,
                    }
                }
            },
        }
    }
}

/// Whether `s` is exactly one complete item.
pub open spec fn is_item(s: Seq<u8>) -> bool {
    items_len(s, 1) == Some(s.len())
}

/// The length of the item that `s` begins with.
pub open spec fn item_len(s: Seq<u8>) -> Option<nat> {
    items_len(s, 1)
}

/// Items that are complete stay so, and keep their length, when bytes follow.
pub proof fn lemma_items_len_extend(s: Seq<u8>, count: nat, rest: Seq<u8>)
    requires
        items_len(s, count) is Some,
    ensures
        items_len(s + rest, count) == items_len(s, count),
        items_len(s, count)->Some_0 <= s.len(),
    decreases s.len(),
{
    if count > 0 {
        let (major, n, len) = head_parse(s)->Some_0;
        lemma_head_parse_extend(s, rest);
        lemma_head_parse_len(s);
        let contents: nat = if major == MAJOR_BYTES || major == MAJOR_TEXT {
            n as nat
        } else {
            0
        };
        let inside: nat = if major == MAJOR_ARRAY {
            n as nat
        } else if major == MAJOR_MAP {
            2 * n as nat
        } else if major == MAJOR_TAG {
            1
        } else {
            0
        };
        assert((s + rest).skip((len + contents) as int) =~= s.skip((len + contents) as int)
            + rest);
        lemma_items_len_extend(
            s.skip((len + contents) as int),
            (count - 1 + inside) as nat,
            rest,
        );
    }
}

/// Taking `a` items and then `b` more is taking `a + b` items.
pub proof fn lemma_items_len_split(s: Seq<u8>, a: nat, b: nat)
    requires
        items_len(s, a) is Some,
    ensures
        items_len(s, a + b) == match items_len(s.skip(items_len(s, a)->Some_0 as int), b) {
            Some(l) => Some(items_len(s, a)->Some_0 + l),
            None => None,
        },
        items_len(s, a)->Some_0 <= s.len(),
    decreases s.len(), a,
{
    if a == 0 {
        assert(s.skip(0) =~= s);
    } else {
        lemma_head_parse_len(s);
        let (major, n, len) = head_parse(s)->Some_0;
        let contents: nat = if major == MAJOR_BYTES || major == MAJOR_TEXT {
            n as nat
        } else {
            0
        };
        let inside: nat = if major == MAJOR_ARRAY {
            n as nat
        } else if major == MAJOR_MAP {
            2 * n as nat
        } else if major == MAJOR_TAG {
            1
        } else {
            0
        };
        let t = s.skip((len + contents) as int);
        lemma_items_len_split(t, (a - 1 + inside) as nat, b);
        let la = items_len(t, (a - 1 + inside) as nat)->Some_0;
        assert(t.skip(la as int) =~= s.skip((len + contents + la) as int));
        assert((a - 1 + inside + b) as nat == (a + b - 1 + inside) as nat);
    }
}

/// The position after the item at `bytes[pos..]`.
pub fn skip_item(bytes: &[u8], pos: usize) -> (r: Option<usize>)
    requires
        pos <= bytes@.len(),
    ensures
        match item_len(bytes@.skip(pos as int)) {
            Some(l) => r matches Some(end) && end == pos + l && end <= bytes@.len(),
            None => r is None,
        },
{
    let mut at: usize = pos;
    let mut pending: u64 = 1;
    let ghost whole = bytes@.skip(pos as int);
    assert(whole.skip(0) =~= whole);
    while pending > 0
        invariant
            pos <= at <= bytes@.len(),
            whole == bytes@.skip(pos as int),
            item_len(whole) == match items_len(whole.skip(at - pos), pending as nat) {
                Some(l) => Some((at - pos + l) as nat),
                None => None,
            },
        decreases bytes@.len() - at,
    {
        let ghost s = whole.skip(at - pos);
        assert(s =~= bytes@.skip(at as int));
        let h = match read_head(bytes, at) {
            Some(h) => h,
            None => {
                return None;
            },
        };
        let contents: u64 = if h.major == MAJOR_BYTES || h.major == MAJOR_TEXT {
            h.arg
        } else {
            0
        };
        let remaining: usize = bytes.len() - h.end;
        if contents > remaining as u64 {
            return None;
        }
        let next: usize = h.end + contents as usize;
        assert(s.skip(next - at) =~= whole.skip(next - pos));
        let inside: u64 = if h.major == MAJOR_ARRAY {
            h.arg
        } else if h.major == MAJOR_MAP {
            if h.arg > u64::MAX / 2 {
                proof {
                    lemma_items_need_bytes(s.skip(next - at), (pending - 1 + 2 * h.arg) as nat);
                }
                return None;
            }
            2 * h.arg
        } else if h.major == MAJOR_TAG {
            1
        } else {
            0
        };
        if inside > u64::MAX - (pending - 1) {
            proof {
                lemma_items_need_bytes(s.skip(next - at), (pending - 1 + inside) as nat);
            }
            return None;
        }
        pending = pending - 1 + inside;
        at = next;
    }
    assert(items_len(whole.skip(at - pos), 0) == Some(0nat));
    Some(at)
}

/// Every item takes at least one byte.
pub proof fn lemma_items_need_bytes(s: Seq<u8>, count: nat)
    ensures
        items_len(s, count) matches Some(l) ==> l >= count && l <= s.len(),
    decreases s.len(),
{
    if count > 0 && head_parse(s) is Some {
        lemma_head_parse_len(s);
        let (major, n, len) = head_parse(s)->Some_0;
        let contents: nat = if major == MAJOR_BYTES || major == MAJOR_TEXT {
            n as nat
        } else {
            0
        };
        let inside: nat = if major == MAJOR_ARRAY {
            n as nat
        } else if major == MAJOR_MAP {
            2 * n as nat
        } else if major == MAJOR_TAG {
            1
        } else {
            0
        };
        if len + contents <= s.len() {
            lemma_items_need_bytes(s.skip((len + contents) as int), (count - 1 + inside) as nat);
        }
    }
}

/// A byte string: its head and its contents.
pub open spec fn byte_string(b: Seq<u8>) -> Seq<u8> {
    head(MAJOR_BYTES, b.len() as u64) + b
}

/// Appends a byte string.
pub fn write_byte_string(out: &mut Vec<u8>, b: &[u8])
    ensures
        final(out)@ == old(out)@ + byte_string(b@),
{
    write_head(out, MAJOR_BYTES, b.len() as u64);
    bytes_append(out, b);
    assert(out@ =~= old(out)@ + byte_string(b@));
}

/// The byte string that `s` begins with: its contents and its whole length.
pub open spec fn byte_string_parse(s: Seq<u8>) -> Option<(Seq<u8>, nat)> {
    match head_parse(s) {
        Some((major, n, len)) => if major == MAJOR_BYTES && len + n <= s.len() {
            Some((s.subrange(len as int, (len + n) as int), (len + n) as nat))
        } else {
            None
        },
        None => None,
    }
}

/// Reading a byte string undoes writing it, whatever follows.
pub proof fn lemma_byte_string_parse(b: Seq<u8>, rest: Seq<u8>)
    requires
        b.len() <= u64::MAX,
    ensures
        byte_string_parse(byte_string(b) + rest) == Some((b, byte_string(b).len())),
{
    let h = head(MAJOR_BYTES, b.len() as u64);
    let s = byte_string(b) + rest;
    lemma_head_len(MAJOR_BYTES, b.len() as u64);
    assert(s =~= h + (b + rest));
    lemma_head_parse(MAJOR_BYTES, b.len() as u64, b + rest);
    assert(s.subrange(h.len() as int, (h.len() + b.len()) as int) =~= b);
}

/// Reads the byte string at `bytes[pos..]`; returns its contents and the
/// position after it.
pub fn read_byte_string(bytes: &[u8], pos: usize) -> (r: Option<(Vec<u8>, usize)>)
    requires
        pos <= bytes@.len(),
    ensures
        match byte_string_parse(bytes@.skip(pos as int)) {
            Some((b, len)) => r matches Some((v, end)) && v@ == b && end == pos + len && end
                <= bytes@.len(),
            None => r is None,
        },
{
    let h = match read_head(bytes, pos) {
        Some(h) => h,
        None => {
            return None;
        },
    };
    if h.major != MAJOR_BYTES {
        return None;
    }
    let remaining: usize = bytes.len() - h.end;
    if h.arg > remaining as u64 {
        return None;
    }
    let end: usize = h.end + h.arg as usize;
    let v = bytes_slice(bytes, h.end, end);
    assert(bytes@.subrange(h.end as int, end as int) =~= bytes@.skip(pos as int).subrange(
        h.end - pos,
        end - pos,
    ));
    Some((v, end))
}

} // verus!
