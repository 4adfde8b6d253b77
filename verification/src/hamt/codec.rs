//! How a node is written as bytes and read back.
//!
//! A node is the array `[bitmap, pointers]`. The bitmap is a byte string: the
//! number with bit `i` set where slot `i` is occupied, big-endian, without
//! leading zero bytes. The pointers are those of the occupied slots in order.
//! A bucket is the map `{"0": [[key, value], ...]}` and a link is the map
//! `{"1": link}`, where a link is tag 42 on the byte string of a zero byte
//! and the identifier.

use super::hash::{lemma_two_pow_monotonic, lemma_two_pow_values, pow2_exec, two_pow, Config};
use super::model::{NodeModel, Pair, PointerModel};
use super::tree::{pairs_model, slot_model, KeyValue, Node, Pointer};
use crate::bytes::{bytes_append, bytes_slice};
use crate::cbor::{
    byte_string, byte_string_parse, head, head_parse, item_len, read_byte_string, read_head,
    skip_item, write_byte_string, write_head, MAJOR_ARRAY, MAJOR_MAP, MAJOR_TAG, MAJOR_TEXT,
    TAG_LINK,
};
use crate::cid::{is_cid, Cid};
use vstd::prelude::*;

verus! {

/// The text key of a bucket, the character `0`.
pub const KEY_BUCKET: u8 = 0x30;

/// The text key of a link, the character `1`.
pub const KEY_LINK: u8 = 0x31;

/// The head at position `pos`: major type, argument, and the position after
/// the head.
pub open spec fn head_at(bytes: Seq<u8>, pos: nat) -> Option<(u8, u64, nat)> {
    if pos > bytes.len() {
        None
    } else {
        match head_parse(bytes.skip(pos as int)) {
            Some((major, n, len)) => Some((major, n, pos + len)),
            None => None,
        }
    }
}

/// The byte string at position `pos`: its contents and the position after it.
pub open spec fn bytes_at(bytes: Seq<u8>, pos: nat) -> Option<(Seq<u8>, nat)> {
    if pos > bytes.len() {
        None
    } else {
        match byte_string_parse(bytes.skip(pos as int)) {
            Some((b, len)) => Some((b, pos + len)),
            None => None,
        }
    }
}

/// The position after the item at position `pos`.
pub open spec fn item_end(bytes: Seq<u8>, pos: nat) -> Option<nat> {
    if pos > bytes.len() {
        None
    } else {
        match item_len(bytes.skip(pos as int)) {
            Some(len) => Some(pos + len),
            None => None,
        }
    }
}

/// The pair at position `pos` and the position after it.
pub open spec fn pair_at(bytes: Seq<u8>, pos: nat) -> Option<(Pair, nat)> {
    match head_at(bytes, pos) {
        Some((major, n, p1)) => if major == MAJOR_ARRAY && n == 2 {
            match bytes_at(bytes, p1) {
                Some((key, p2)) => match item_end(bytes, p2) {
                    Some(p3) => if p2 <= p3 <= bytes.len() {
                        Some(((key, bytes.subrange(p2 as int, p3 as int)), p3))
                    } else {
                        None
                    },
                    None => None,
                },
                None => None,
            }
        } else {
            None
        },
        None => None,
    }
}

/// Reads `count` pairs from position `pos` on and appends them to `acc`.
pub open spec fn pairs_at(bytes: Seq<u8>, pos: nat, count: nat, acc: Seq<Pair>) -> Option<
    (Seq<Pair>, nat),
>
    decreases count,
{
    if count == 0 {
        Some((acc, pos))
    } else {
        match pair_at(bytes, pos) {
            Some((pair, next)) => pairs_at(bytes, next, (count - 1) as nat, acc.push(pair)),
            None => None,
        }
    }
}

/// The pointer at position `pos` and the position after it.
pub open spec fn pointer_at(bytes: Seq<u8>, pos: nat) -> Option<(PointerModel, nat)> {
    match head_at(bytes, pos) {
        Some((m0, n0, p1)) => if m0 == MAJOR_MAP && n0 == 1 {
            match head_at(bytes, p1) {
                Some((m1, n1, p2)) => if m1 == MAJOR_TEXT && n1 == 1 && p2 < bytes.len() {
                    if bytes[p2 as int] == KEY_BUCKET {
                        match head_at(bytes, p2 + 1) {
                            Some((m2, n2, p3)) => if m2 == MAJOR_ARRAY {
                                match pairs_at(bytes, p3, n2 as nat, Seq::empty()) {
                                    Some((pairs, end)) => Some((PointerModel::Values(pairs), end)),
                                    None => None,
                                }
                            } else {
                                None
                            },
                            None => None,
                        }
                    } else if bytes[p2 as int] == KEY_LINK {
                        match head_at(bytes, p2 + 1) {
                            Some((m2, n2, p3)) => if m2 == MAJOR_TAG && n2 == TAG_LINK {
                                match bytes_at(bytes, p3) {
                                    Some((b, end)) => if b.len() >= 1 && b[0] == 0 && is_cid(
                                        b.skip(1),
                                    ) {
                                        Some((PointerModel::Link(b.skip(1)), end))
                                    } else {
                                        None
                                    },
                                    None => None,
                                }
                            } else {
                                None
                            },
                            None => None,
                        }
                    } else {
                        None
                    }
                } else {
                    None
                },
                None => None,
            }
        } else {
            None
        },
        None => None,
    }
}

/// How many bytes a bitmap for `width` slots has before leading zero bytes
/// are left out.
pub open spec fn bitmap_len(width: nat) -> nat {
    if width <= 8 {
        1
    } else {
        width / 8
    }
}

/// Whether bit `i` is set in the bitmap `bm`.
pub open spec fn bit_set(bm: Seq<u8>, i: nat) -> bool {
    i / 8 < bm.len() && ((bm[bm.len() - 1 - i / 8] as nat) / two_pow(i % 8)) % 2 == 1
}

/// Whether `bm` is a bitmap for `width` slots in the shortest form: no
/// longer than the slots need, without a leading zero byte, and with no bit
/// set beyond the last slot.
pub open spec fn bitmap_ok(bm: Seq<u8>, width: nat) -> bool {
    &&& bm.len() <= bitmap_len(width)
    &&& bm.len() > 0 ==> bm[0] != 0
    &&& bm.len() > 0 && width < 8 ==> bm[0] < two_pow(width)
}

/// How many of the bits `0 .. i` are set.
pub open spec fn bits_set_below(bm: Seq<u8>, i: nat) -> nat
    decreases i,
{
    if i == 0 {
        0
    } else {
        bits_set_below(bm, (i - 1) as nat) + if bit_set(bm, (i - 1) as nat) {
            1nat
        } else {
            0nat
        }
    }
}

/// Reads the pointers of slots `i .. width` from position `pos` on, one for
/// each bit set in the bitmap, and appends the slots to `acc`.
pub open spec fn slots_at(
    bytes: Seq<u8>,
    pos: nat,
    bm: Seq<u8>,
    width: nat,
    i: nat,
    acc: Seq<Option<PointerModel>>,
) -> Option<(Seq<Option<PointerModel>>, nat)>
    decreases width - i,
{
    if i >= width {
        Some((acc, pos))
    } else if bit_set(bm, i) {
        match pointer_at(bytes, pos) {
            Some((p, next)) => slots_at(bytes, next, bm, width, i + 1, acc.push(Some(p))),
            None => None,
        }
    } else {
        slots_at(bytes, pos, bm, width, i + 1, acc.push(None))
    }
}

/// The node that `bytes` are the encoding of, for a trie with `width` slots
/// to a node.
pub open spec fn node_decoding(bytes: Seq<u8>, width: nat) -> Option<NodeModel> {
    match head_at(bytes, 0) {
        Some((m0, n0, p1)) => if m0 == MAJOR_ARRAY && n0 == 2 {
            match bytes_at(bytes, p1) {
                Some((bm, p2)) => if bitmap_ok(bm, width) {
                    match head_at(bytes, p2) {
                        Some((m1, n1, p3)) => if m1 == MAJOR_ARRAY && n1 == bits_set_below(
                            bm,
                            width,
                        ) {
                            match slots_at(bytes, p3, bm, width, 0, Seq::empty()) {
                                Some((slots, end)) => if end == bytes.len() {
                                    Some(NodeModel { slots })
                                } else {
                                    None
                                },
                                None => None,
                            }
                        } else {
                            None
                        },
                        None => None,
                    }
                } else {
                    None
                },
                None => None,
            }
        } else {
            None
        },
        None => None,
    }
}

fn read_pair(bytes: &[u8], pos: usize) -> (r: Option<(KeyValue, usize)>)
    requires
        pos <= bytes@.len(),
    ensures
        match pair_at(bytes@, pos as nat) {
            Some((pair, end)) => r matches Some((kv, e)) && kv@ == pair && e == end && e
                <= bytes@.len(),
            None => r is None,
        },
{
    let h = match read_head(bytes, pos) {
        Some(h) => h,
        None => {
            return None;
        },
    };
    if h.major != MAJOR_ARRAY || h.arg != 2 {
        return None;
    }
    let (key, p2) = match read_byte_string(bytes, h.end) {
        Some(r) => r,
        None => {
            return None;
        },
    };
    let p3 = match skip_item(bytes, p2) {
        Some(p) => p,
        None => {
            return None;
        },
    };
    assert(item_end(bytes@, p2 as nat) == Some(p3 as nat));
    let value = bytes_slice(bytes, p2, p3);
    Some((KeyValue { key, value }, p3))
}

#[verifier::loop_isolation(false)]
fn read_pointer(bytes: &[u8], pos: usize) -> (r: Option<(Pointer, usize)>)
    requires
        pos <= bytes@.len(),
    ensures
        match pointer_at(bytes@, pos as nat) {
            Some((p, end)) => r matches Some((ptr, e)) && ptr.model() == p && e == end && e
                <= bytes@.len(),
            None => r is None,
        },
{
    let h0 = match read_head(bytes, pos) {
        Some(h) => h,
        None => {
            return None;
        },
    };
    if h0.major != MAJOR_MAP || h0.arg != 1 {
        return None;
    }
    let h1 = match read_head(bytes, h0.end) {
        Some(h) => h,
        None => {
            return None;
        },
    };
    if h1.major != MAJOR_TEXT || h1.arg != 1 || h1.end >= bytes.len() {
        return None;
    }
    let which = bytes[h1.end];
    let h2 = match read_head(bytes, h1.end + 1) {
        Some(h) => h,
        None => {
            return None;
        },
    };
    if which == KEY_BUCKET {
        if h2.major != MAJOR_ARRAY {
            return None;
        }
        let mut pairs: Vec<KeyValue> = Vec::new();
        let mut at: usize = h2.end;
        let mut j: u64 = 0;
        assert(pairs_model(pairs@) =~= Seq::<Pair>::empty());
        while j < h2.arg
            invariant
                j <= h2.arg,
                at <= bytes@.len(),
                pairs_at(bytes@, h2.end as nat, h2.arg as nat, Seq::empty()) == pairs_at(
                    bytes@,
                    at as nat,
                    (h2.arg - j) as nat,
                    pairs_model(pairs@),
                ),
            decreases h2.arg - j,
        {
            let (kv, next) = match read_pair(bytes, at) {
                Some(r) => r,
                None => {
                    assert(pairs_at(
                        bytes@,
                        at as nat,
                        (h2.arg - j) as nat,
                        pairs_model(pairs@),
                    ) is None);
                    return None;
                },
            };
            let ghost before = pairs_model(pairs@);
            pairs.push(kv);
            assert(pairs_model(pairs@) =~= before.push(kv@));
            at = next;
            j += 1;
        }
        Some((Pointer::Values(pairs), at))
    } else if which == KEY_LINK {
        if h2.major != MAJOR_TAG || h2.arg != TAG_LINK {
            return None;
        }
        let (b, end) = match read_byte_string(bytes, h2.end) {
            Some(r) => r,
            None => {
                return None;
            },
        };
        if b.len() < 1 || b[0] != 0 {
            return None;
        }
        let id = bytes_slice(b.as_slice(), 1, b.len());
        assert(id@ =~= b@.skip(1));
        match Cid::from_bytes(id.as_slice()) {
            Some(cid) => Some((Pointer::Link(cid), end)),
            None => None,
        }
    } else {
        None
    }
}

/// Whether bit `i` is set in the bitmap.
fn test_bit(bm: &[u8], i: usize) -> (r: bool)
    requires
        i < 256,
    ensures
        r == bit_set(bm@, i as nat),
{
    let byte: usize = i / 8;
    if byte >= bm.len() {
        return false;
    }
    let b: u8 = bm[bm.len() - 1 - byte];
    let div: usize = pow2_exec((i % 8) as u32);
    proof {
        lemma_two_pow_monotonic(0, (i % 8) as nat);
    }
    (b as usize / div) % 2 == 1
}

/// Reads a node of a trie with the given configuration.
#[verifier::loop_isolation(false)]
pub fn decode_node(bytes: &[u8], conf: &Config) -> (r: Option<Node>)
    requires
        conf.valid(),
    ensures
        match node_decoding(bytes@, conf.width()) {
            Some(n) => r matches Some(node) && node.model() == n,
            None => r is None,
        },
{
    let width: usize = conf.slot_count();
    let h0 = match read_head(bytes, 0) {
        Some(h) => h,
        None => {
            return None;
        },
    };
    if h0.major != MAJOR_ARRAY || h0.arg != 2 {
        return None;
    }
    let (bm, p2) = match read_byte_string(bytes, h0.end) {
        Some(r) => r,
        None => {
            return None;
        },
    };
    let full: usize = if width <= 8 {
        1
    } else {
        width / 8
    };
    if bm.len() > full {
        return None;
    }
    if bm.len() > 0 {
        if bm[0] == 0 {
            return None;
        }
        if width < 8 {
            let bound = pow2_exec(width as u32);
            if bm[0] as usize >= bound {
                return None;
            }
        }
    }
    let h1 = match read_head(bytes, p2) {
        Some(h) => h,
        None => {
            return None;
        },
    };
    if h1.major != MAJOR_ARRAY {
        return None;
    }
    let mut slots: Vec<Option<Pointer>> = Vec::new();
    let mut at: usize = h1.end;
    let mut count: u64 = 0;
    let mut i: usize = 0;
    let ghost start = slots_at(bytes@, h1.end as nat, bm@, width as nat, 0, Seq::empty());
    assert(slots_model(slots@) =~= Seq::<Option<PointerModel>>::empty());
    while i < width
        invariant
            i <= width <= 256,
            at <= bytes@.len(),
            count == bits_set_below(bm@, i as nat),
            count <= i,
            start == slots_at(bytes@, at as nat, bm@, width as nat, i as nat, slots_model(slots@)),
        decreases width - i,
    {
        let ghost before = slots_model(slots@);
        if test_bit(bm.as_slice(), i) {
            let (p, next) = match read_pointer(bytes, at) {
                Some(r) => r,
                None => {
                    assert(start is None);
                    return None;
                },
            };
            slots.push(Some(p));
            assert(slots_model(slots@) =~= before.push(Some(p.model())));
            at = next;
            count += 1;
        } else {
            slots.push(None);
            assert(slots_model(slots@) =~= before.push(None));
        }
        i += 1;
    }
    if at != bytes.len() || count != h1.arg {
        return None;
    }
    let node = Node { slots };
    assert(node.model().slots =~= slots_model(node.slots@));
    Some(node)
}

/// The slots of a node in the model.
pub open spec fn slots_model(slots: Seq<Option<Pointer>>) -> Seq<Option<PointerModel>> {
    Seq::new(slots.len(), |i: int| slot_model(slots[i]))
}

/// The encoding of a pair.
pub open spec fn pair_encoding(pair: Pair) -> Seq<u8> {
    head(MAJOR_ARRAY, 2) + byte_string(pair.0) + pair.1
}

/// The encodings of pairs, one after the other.
pub open spec fn pairs_encoding(pairs: Seq<Pair>) -> Seq<u8>
    decreases pairs.len(),
{
    if pairs.len() == 0 {
        Seq::empty()
    } else {
        pairs_encoding(pairs.drop_last()) + pair_encoding(pairs.last())
    }
}

/// The encoding of a bucket.
pub open spec fn bucket_encoding(pairs: Seq<Pair>) -> Seq<u8> {
    head(MAJOR_MAP, 1) + head(MAJOR_TEXT, 1) + seq![KEY_BUCKET] + head(
        MAJOR_ARRAY,
        pairs.len() as u64,
    ) + pairs_encoding(pairs)
}

/// The encoding of a link to the block with identifier `cid`.
pub open spec fn link_encoding(cid: Seq<u8>) -> Seq<u8> {
    head(MAJOR_MAP, 1) + head(MAJOR_TEXT, 1) + seq![KEY_LINK] + head(MAJOR_TAG, TAG_LINK)
        + byte_string(seq![0u8] + cid)
}

/// The identifier that a pointer is written as a link to, where it has one.
pub open spec fn pointer_link(p: PointerModel) -> Option<Seq<u8>> {
    match p {
        PointerModel::Values(_) => None,
        PointerModel::Link(cid) => Some(cid),
        PointerModel::Resolved(_, stored) => stored,
    }
}

/// Whether a pointer can be written: it is a bucket, or a child with an
/// identifier.
pub open spec fn pointer_writable(p: PointerModel) -> bool {
    p is Values || pointer_link(p) is Some
}

/// The encoding of a pointer: a bucket as it is, a child as a link.
pub open spec fn pointer_encoding(p: PointerModel) -> Seq<u8> {
    match p {
        PointerModel::Values(pairs) => bucket_encoding(pairs),
        PointerModel::Link(cid) => link_encoding(cid),
        PointerModel::Resolved(_, Some(cid)) => link_encoding(cid),
        PointerModel::Resolved(_, None) => Seq::empty(),
    }
}

/// The encodings of the pointers of the occupied slots, in order.
pub open spec fn slots_encoding(slots: Seq<Option<PointerModel>>) -> Seq<u8>
    decreases slots.len(),
{
    if slots.len() == 0 {
        Seq::empty()
    } else {
        slots_encoding(slots.drop_last()) + match slots.last() {
            Some(p) => pointer_encoding(p),
            None => Seq::empty(),
        }
    }
}

/// How many slots are occupied.
pub open spec fn occupied(slots: Seq<Option<PointerModel>>) -> nat
    decreases slots.len(),
{
    if slots.len() == 0 {
        0
    } else {
        occupied(slots.drop_last()) + if slots.last() is Some {
            1nat
        } else {
            0nat
        }
    }
}

/// The byte of the bitmap that holds the bits of slots `base .. base + 8`,
/// built from its lowest `nbits` bits.
pub open spec fn bitmap_byte(slots: Seq<Option<PointerModel>>, base: int, nbits: nat) -> nat
    decreases nbits,
{
    if nbits == 0 {
        0
    } else {
        bitmap_byte(slots, base, (nbits - 1) as nat) + if base + nbits - 1 < slots.len()
            && slots[base + nbits - 1] is Some {
            two_pow((nbits - 1) as nat)
        } else {
            0
        }
    }
}

/// The bitmap of a node at full length: the highest slots come first.
pub open spec fn bitmap_full(slots: Seq<Option<PointerModel>>) -> Seq<u8> {
    Seq::new(
        bitmap_len(slots.len()),
        |j: int| bitmap_byte(slots, 8 * (bitmap_len(slots.len()) - 1 - j), 8) as u8,
    )
}

/// `s` without its leading zero bytes.
pub open spec fn strip_zeros(s: Seq<u8>) -> Seq<u8>
    decreases s.len(),
{
    if s.len() > 0 && s[0] == 0 {
        strip_zeros(s.skip(1))
    } else {
        s
    }
}

/// The bitmap of a node as it is written.
pub open spec fn bitmap_encoding(slots: Seq<Option<PointerModel>>) -> Seq<u8> {
    strip_zeros(bitmap_full(slots))
}

/// The encoding of a node.
pub open spec fn node_encoding(n: NodeModel) -> Seq<u8> {
    head(MAJOR_ARRAY, 2) + byte_string(bitmap_encoding(n.slots)) + head(
        MAJOR_ARRAY,
        occupied(n.slots) as u64,
    ) + slots_encoding(n.slots)
}

/// Whether a node can be written: each of its children has an identifier.
pub open spec fn node_writable(n: NodeModel) -> bool {
    forall|i: int|
        0 <= i < n.slots.len() ==> (#[trigger] n.slots[i] matches Some(p) ==> pointer_writable(p))
}

fn write_pointer(out: &mut Vec<u8>, p: &Pointer)
    requires
        pointer_writable(p.model()),
    ensures
        final(out)@ == old(out)@ + pointer_encoding(p.model()),
{
    write_head(out, MAJOR_MAP, 1);
    write_head(out, MAJOR_TEXT, 1);
    match p {
        Pointer::Values(pairs) => {
            out.push(KEY_BUCKET);
            write_head(out, MAJOR_ARRAY, pairs.len() as u64);
            let ghost start = out@;
            let mut j: usize = 0;
            assert(pairs_model(pairs@).take(0) =~= Seq::<Pair>::empty());
            while j < pairs.len()
                invariant
                    j <= pairs@.len(),
                    out@ == start + pairs_encoding(pairs_model(pairs@).take(j as int)),
                decreases pairs@.len() - j,
            {
                let ghost before = out@;
                let kv = &pairs[j];
                write_head(out, MAJOR_ARRAY, 2);
                write_byte_string(out, kv.key.as_slice());
                bytes_append(out, kv.value.as_slice());
                proof {
                    let pm = pairs_model(pairs@);
                    assert(pm.take(j + 1).drop_last() =~= pm.take(j as int));
                    assert(pm.take(j + 1).last() == kv@);
                    assert(out@ =~= before + pair_encoding(kv@));
                }
                j += 1;
            }
            assert(pairs_model(pairs@).take(pairs@.len() as int) =~= pairs_model(pairs@));
            assert(out@ =~= old(out)@ + bucket_encoding(pairs_model(pairs@)));
        },
        Pointer::Link(cid) => {
            out.push(KEY_LINK);
            write_link(out, cid);
            assert(out@ =~= old(out)@ + link_encoding(cid@));
        },
        Pointer::Resolved { node, stored } => {
            out.push(KEY_LINK);
            match stored {
                Some(cid) => {
                    write_link(out, cid);
                    assert(out@ =~= old(out)@ + link_encoding(cid@));
                },
                None => {
                    assert(false);
                },
            }
        },
    }
}

/// The encoding of a link without the map around it.
pub open spec fn bare_link(cid: Seq<u8>) -> Seq<u8> {
    head(MAJOR_TAG, TAG_LINK) + byte_string(seq![0u8] + cid)
}

/// Appends a link to the block with the given identifier.
pub fn write_link(out: &mut Vec<u8>, cid: &Cid)
    ensures
        final(out)@ == old(out)@ + bare_link(cid@),
{
    write_head(out, MAJOR_TAG, TAG_LINK);
    let mut b: Vec<u8> = Vec::new();
    b.push(0);
    bytes_append(&mut b, cid.as_bytes());
    assert(b@ =~= seq![0u8] + cid@);
    write_byte_string(out, b.as_slice());
    assert(out@ =~= old(out)@ + bare_link(cid@));
}

/// The bitmap of the node as it is written.
fn bitmap_of(node: &Node) -> (bm: Vec<u8>)
    requires
        2 <= node.slots@.len() <= 256,
    ensures
        bm@ == bitmap_encoding(node.model().slots),
{
    let width: usize = node.slots.len();
    let full: usize = if width <= 8 {
        1
    } else {
        width / 8
    };
    let ghost slots = node.model().slots;
    let mut bytes: Vec<u8> = Vec::new();
    let mut j: usize = 0;
    while j < full
        invariant
            j <= full,
            full == bitmap_len(width as nat),
            width == node.slots@.len(),
            2 <= width <= 256,
            slots == node.model().slots,
            bytes@.len() == j,
            forall|a: int| 0 <= a < j ==> bytes@[a] == bitmap_full(slots)[a],
        decreases full - j,
    {
        let base: usize = 8 * (full - 1 - j);
        let mut byte: usize = 0;
        let mut b: usize = 0;
        while b < 8
            invariant
                b <= 8,
                base <= 248,
                width == node.slots@.len(),
                slots == node.model().slots,
                byte == bitmap_byte(slots, base as int, b as nat),
                byte < two_pow(b as nat),
            decreases 8 - b,
        {
            proof {
                lemma_two_pow_monotonic(b as nat, 8);
                lemma_two_pow_values();
            }
            if base + b < width && node.slots[base + b].is_some() {
                byte = byte + pow2_exec(b as u32);
            }
            b += 1;
        }
        proof {
            lemma_two_pow_values();
        }
        bytes.push(byte as u8);
        j += 1;
    }
    assert(bytes@ =~= bitmap_full(slots));
    let mut k: usize = 0;
    assert(bytes@.skip(0) =~= bytes@);
    while k < bytes.len() && bytes[k] == 0
        invariant
            k <= bytes@.len(),
            strip_zeros(bytes@) == strip_zeros(bytes@.skip(k as int)),
        decreases bytes@.len() - k,
    {
        assert(bytes@.skip(k as int)[0] == bytes@[k as int]);
        assert(bytes@.skip(k as int).skip(1) =~= bytes@.skip(k + 1));
        k += 1;
    }
    proof {
        let rest = bytes@.skip(k as int);
        if rest.len() > 0 {
            assert(rest[0] == bytes@[k as int]);
        }
    }
    let bm = bytes_slice(bytes.as_slice(), k, bytes.len());
    assert(bm@ =~= bytes@.skip(k as int));
    bm
}

/// Writes a node whose children all have identifiers.
pub fn encode_node(node: &Node) -> (bytes: Vec<u8>)
    requires
        2 <= node.slots@.len() <= 256,
        node_writable(node.model()),
    ensures
        bytes@ == node_encoding(node.model()),
{
    let ghost slots = node.model().slots;
    let mut out: Vec<u8> = Vec::new();
    write_head(&mut out, MAJOR_ARRAY, 2);
    let bm = bitmap_of(node);
    write_byte_string(&mut out, bm.as_slice());
    let mut count: usize = 0;
    let mut i: usize = 0;
    assert(slots.take(0) =~= Seq::<Option<PointerModel>>::empty());
    while i < node.slots.len()
        invariant
            i <= node.slots@.len() <= 256,
            slots == node.model().slots,
            count == occupied(slots.take(i as int)),
            count <= i,
        decreases node.slots@.len() - i,
    {
        assert(slots.take(i + 1).drop_last() =~= slots.take(i as int));
        assert(slots.take(i + 1).last() == slots[i as int]);
        if node.slots[i].is_some() {
            count += 1;
        }
        i += 1;
    }
    assert(slots.take(slots.len() as int) =~= slots);
    write_head(&mut out, MAJOR_ARRAY, count as u64);
    let ghost start = out@;
    let mut i: usize = 0;
    while i < node.slots.len()
        invariant
            i <= node.slots@.len(),
            slots == node.model().slots,
            node_writable(node.model()),
            out@ == start + slots_encoding(slots.take(i as int)),
        decreases node.slots@.len() - i,
    {
        let ghost before = out@;
        assert(slots.take(i + 1).drop_last() =~= slots.take(i as int));
        assert(slots.take(i + 1).last() == slots[i as int]);
        match &node.slots[i] {
            Some(p) => {
                assert(slots[i as int] == Some(p.model()));
                write_pointer(&mut out, p);
            },
            None => {
                assert(out@ =~= before + Seq::<u8>::empty());
            },
        }
        i += 1;
    }
    assert(out@ =~= node_encoding(node.model()));
    out
}

} // verus!
