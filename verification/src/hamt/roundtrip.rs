//! Reading a node back gives the node that was written.

use super::codec::{
    bitmap_byte, bitmap_encoding, bitmap_full, bitmap_len, bitmap_ok, bit_set, bits_set_below,
    bucket_encoding, bytes_at, head_at, item_end, link_encoding, node_decoding, node_encoding,
    occupied, pair_at, pair_encoding, pairs_at, pairs_encoding, pointer_at, pointer_encoding,
    slots_at, slots_encoding, strip_zeros, KEY_BUCKET, KEY_LINK,
};
use super::hash::{lemma_two_pow_values, two_pow};
use super::model::{NodeModel, Pair, PointerModel};
use crate::cbor::{
    byte_string, head, is_item, lemma_byte_string_parse, lemma_head_parse, lemma_items_len_extend,
    MAJOR_ARRAY, MAJOR_MAP, MAJOR_TAG, MAJOR_TEXT, TAG_LINK,
};
use crate::cid::is_cid;
use vstd::prelude::*;

verus! {

/// The longest byte string that the lemmas here speak of.
pub open spec fn small(len: nat) -> bool {
    len <= 0xffff_ffff
}

/// Whether the pairs of a bucket can be written and read back: each key is
/// short enough for its length to be written and each value is one item.
pub open spec fn pairs_plain(pairs: Seq<Pair>) -> bool {
    forall|i: int| 0 <= i < pairs.len() ==> small((#[trigger] pairs[i]).0.len()) && is_item(
        pairs[i].1,
    )
}

/// Whether a pointer can be written and read back: a bucket of such pairs,
/// or a link.
pub open spec fn pointer_plain(p: PointerModel) -> bool {
    match p {
        PointerModel::Values(pairs) => small(pairs.len()) && pairs_plain(pairs),
        PointerModel::Link(cid) => is_cid(cid),
        PointerModel::Resolved(_, _) => false,
    }
}

/// Whether the slots hold only pointers that can be written and read back.
pub open spec fn slots_plain(slots: Seq<Option<PointerModel>>) -> bool {
    forall|i: int| 0 <= i < slots.len() ==> (#[trigger] slots[i] matches Some(p) ==> pointer_plain(p))
}

pub proof fn lemma_head_at(pre: Seq<u8>, major: u8, n: u64, rest: Seq<u8>)
    requires
        major < 8,
    ensures
        head_at(pre + head(major, n) + rest, pre.len()) == Some(
            (major, n, pre.len() + head(major, n).len()),
        ),
{
    let bytes = pre + head(major, n) + rest;
    assert(bytes.skip(pre.len() as int) =~= head(major, n) + rest);
    lemma_head_parse(major, n, rest);
}

pub proof fn lemma_bytes_at(pre: Seq<u8>, b: Seq<u8>, rest: Seq<u8>)
    requires
        small(b.len()),
    ensures
        bytes_at(pre + byte_string(b) + rest, pre.len()) == Some(
            (b, pre.len() + byte_string(b).len()),
        ),
{
    let bytes = pre + byte_string(b) + rest;
    assert(bytes.skip(pre.len() as int) =~= byte_string(b) + rest);
    lemma_byte_string_parse(b, rest);
}

pub proof fn lemma_item_end(pre: Seq<u8>, v: Seq<u8>, rest: Seq<u8>)
    requires
        is_item(v),
    ensures
        item_end(pre + v + rest, pre.len()) == Some(pre.len() + v.len()),
{
    let bytes = pre + v + rest;
    assert(bytes.skip(pre.len() as int) =~= v + rest);
    lemma_items_len_extend(v, 1, rest);
}

proof fn lemma_pair_at(pre: Seq<u8>, pair: Pair, rest: Seq<u8>)
    requires
        small(pair.0.len()),
        is_item(pair.1),
    ensures
        pair_at(pre + pair_encoding(pair) + rest, pre.len()) == Some(
            (pair, pre.len() + pair_encoding(pair).len()),
        ),
{
    let h = head(MAJOR_ARRAY, 2);
    let k = byte_string(pair.0);
    let v = pair.1;
    let bytes = pre + pair_encoding(pair) + rest;
    assert(bytes =~= pre + h + (k + v + rest));
    lemma_head_at(pre, MAJOR_ARRAY, 2, k + v + rest);
    assert(bytes =~= (pre + h) + k + (v + rest));
    lemma_bytes_at(pre + h, pair.0, v + rest);
    assert(bytes =~= (pre + h + k) + v + rest);
    lemma_item_end(pre + h + k, v, rest);
    let p2 = (pre + h + k).len();
    assert(bytes.subrange(p2 as int, (p2 + v.len()) as int) =~= v);
}

proof fn lemma_pairs_front(pairs: Seq<Pair>)
    requires
        pairs.len() > 0,
    ensures
        pairs_encoding(pairs) == pair_encoding(pairs[0]) + pairs_encoding(pairs.skip(1)),
    decreases pairs.len(),
{
    if pairs.len() == 1 {
        assert(pairs.drop_last() =~= Seq::<Pair>::empty());
        assert(pairs.skip(1) =~= Seq::<Pair>::empty());
        assert(pairs_encoding(pairs) =~= pair_encoding(pairs[0]) + pairs_encoding(pairs.skip(1)));
    } else {
        lemma_pairs_front(pairs.drop_last());
        assert(pairs.drop_last().skip(1) =~= pairs.skip(1).drop_last());
        assert(pairs.skip(1).last() == pairs.last());
        assert(pairs.drop_last()[0] == pairs[0]);
        assert(pairs_encoding(pairs) =~= pair_encoding(pairs[0]) + pairs_encoding(pairs.skip(1)));
    }
}

proof fn lemma_pairs_at(pre: Seq<u8>, pairs: Seq<Pair>, rest: Seq<u8>, acc: Seq<Pair>)
    requires
        pairs_plain(pairs),
    ensures
        pairs_at(pre + pairs_encoding(pairs) + rest, pre.len(), pairs.len(), acc) == Some(
            (acc + pairs, pre.len() + pairs_encoding(pairs).len()),
        ),
    decreases pairs.len(),
{
    let bytes = pre + pairs_encoding(pairs) + rest;
    if pairs.len() == 0 {
        assert(acc + pairs =~= acc);
    } else {
        lemma_pairs_front(pairs);
        let e0 = pair_encoding(pairs[0]);
        let tail = pairs.skip(1);
        assert(bytes =~= pre + e0 + (pairs_encoding(tail) + rest));
        lemma_pair_at(pre, pairs[0], pairs_encoding(tail) + rest);
        assert(bytes =~= (pre + e0) + pairs_encoding(tail) + rest);
        assert(pairs_plain(tail)) by {
            assert forall|i: int| 0 <= i < tail.len() implies small((#[trigger] tail[i]).0.len())
                && is_item(tail[i].1) by {
                assert(tail[i] == pairs[i + 1]);
            }
        }
        lemma_pairs_at(pre + e0, tail, rest, acc.push(pairs[0]));
        assert(acc.push(pairs[0]) + tail =~= acc + pairs);
    }
}

proof fn lemma_pointer_tag(pre: Seq<u8>, which: u8, tail: Seq<u8>)
    ensures
        head_at(pre + head(MAJOR_MAP, 1) + head(MAJOR_TEXT, 1) + seq![which] + tail, pre.len())
            == Some((MAJOR_MAP, 1u64, pre.len() + head(MAJOR_MAP, 1).len())),
        head_at(
            pre + head(MAJOR_MAP, 1) + head(MAJOR_TEXT, 1) + seq![which] + tail,
            pre.len() + head(MAJOR_MAP, 1).len(),
        ) == Some(
            (
                MAJOR_TEXT,
                1u64,
                pre.len() + head(MAJOR_MAP, 1).len() + head(MAJOR_TEXT, 1).len(),
            ),
        ),
        (pre + head(MAJOR_MAP, 1) + head(MAJOR_TEXT, 1) + seq![which] + tail)[(pre.len() + head(
            MAJOR_MAP,
            1,
        ).len() + head(MAJOR_TEXT, 1).len()) as int] == which,
{
    let h0 = head(MAJOR_MAP, 1);
    let h1 = head(MAJOR_TEXT, 1);
    let bytes = pre + h0 + h1 + seq![which] + tail;
    assert(bytes =~= pre + h0 + (h1 + seq![which] + tail));
    lemma_head_at(pre, MAJOR_MAP, 1, h1 + seq![which] + tail);
    assert(bytes =~= (pre + h0) + h1 + (seq![which] + tail));
    lemma_head_at(pre + h0, MAJOR_TEXT, 1, seq![which] + tail);
}

#[verifier::rlimit(40)]
proof fn lemma_bucket_at(pre: Seq<u8>, pairs: Seq<Pair>, rest: Seq<u8>)
    requires
        small(pairs.len()),
        pairs_plain(pairs),
    ensures
        pointer_at(pre + bucket_encoding(pairs) + rest, pre.len()) == Some(
            (PointerModel::Values(pairs), pre.len() + bucket_encoding(pairs).len()),
        ),
{
    let h0 = head(MAJOR_MAP, 1);
    let h1 = head(MAJOR_TEXT, 1);
    let h2 = head(MAJOR_ARRAY, pairs.len() as u64);
    let body = pairs_encoding(pairs);
    let bytes = pre + bucket_encoding(pairs) + rest;
    let pre3 = pre + h0 + h1 + seq![KEY_BUCKET];
    assert(bytes =~= pre + h0 + h1 + seq![KEY_BUCKET] + (h2 + body + rest));
    lemma_pointer_tag(pre, KEY_BUCKET, h2 + body + rest);
    assert(bytes =~= pre3 + h2 + (body + rest));
    lemma_head_at(pre3, MAJOR_ARRAY, pairs.len() as u64, body + rest);
    assert(bytes =~= (pre3 + h2) + body + rest);
    lemma_pairs_at(pre3 + h2, pairs, rest, Seq::empty());
    assert(Seq::<Pair>::empty() + pairs =~= pairs);
}

#[verifier::rlimit(40)]
proof fn lemma_link_at(pre: Seq<u8>, cid: Seq<u8>, rest: Seq<u8>)
    requires
        is_cid(cid),
    ensures
        pointer_at(pre + link_encoding(cid) + rest, pre.len()) == Some(
            (PointerModel::Link(cid), pre.len() + link_encoding(cid).len()),
        ),
{
    let h0 = head(MAJOR_MAP, 1);
    let h1 = head(MAJOR_TEXT, 1);
    let h2 = head(MAJOR_TAG, TAG_LINK);
    let payload = seq![0u8] + cid;
    let body = byte_string(payload);
    let bytes = pre + link_encoding(cid) + rest;
    let pre3 = pre + h0 + h1 + seq![KEY_LINK];
    assert(bytes =~= pre + h0 + h1 + seq![KEY_LINK] + (h2 + body + rest));
    lemma_pointer_tag(pre, KEY_LINK, h2 + body + rest);
    assert(bytes =~= pre3 + h2 + (body + rest));
    lemma_head_at(pre3, MAJOR_TAG, TAG_LINK, body + rest);
    assert(bytes =~= (pre3 + h2) + body + rest);
    lemma_bytes_at(pre3 + h2, payload, rest);
    assert(payload.skip(1) =~= cid);
    assert(payload[0] == 0);
}

proof fn lemma_pointer_at(pre: Seq<u8>, p: PointerModel, rest: Seq<u8>)
    requires
        pointer_plain(p),
    ensures
        pointer_at(pre + pointer_encoding(p) + rest, pre.len()) == Some(
            (p, pre.len() + pointer_encoding(p).len()),
        ),
{
    match p {
        PointerModel::Values(pairs) => {
            lemma_bucket_at(pre, pairs, rest);
        },
        PointerModel::Link(cid) => {
            lemma_link_at(pre, cid, rest);
        },
        PointerModel::Resolved(_, _) => {},
    }
}

/// The encoding of one slot: that of its pointer, or nothing.
pub open spec fn slot_encoding(slot: Option<PointerModel>) -> Seq<u8> {
    match slot {
        Some(p) => pointer_encoding(p),
        None => Seq::empty(),
    }
}

proof fn lemma_slots_front(slots: Seq<Option<PointerModel>>)
    requires
        slots.len() > 0,
    ensures
        slots_encoding(slots) == slot_encoding(slots[0]) + slots_encoding(slots.skip(1)),
    decreases slots.len(),
{
    if slots.len() == 1 {
        assert(slots.drop_last() =~= Seq::<Option<PointerModel>>::empty());
        assert(slots.skip(1) =~= Seq::<Option<PointerModel>>::empty());
        assert(slots_encoding(slots) =~= slot_encoding(slots[0]) + slots_encoding(slots.skip(1)));
    } else {
        lemma_slots_front(slots.drop_last());
        assert(slots.drop_last().skip(1) =~= slots.skip(1).drop_last());
        assert(slots.skip(1).last() == slots.last());
        assert(slots.drop_last()[0] == slots[0]);
        assert(slots_encoding(slots) =~= slot_encoding(slots[0]) + slots_encoding(slots.skip(1)));
    }
}

proof fn lemma_slots_at(
    pre: Seq<u8>,
    slots: Seq<Option<PointerModel>>,
    rest: Seq<u8>,
    bm: Seq<u8>,
    i: nat,
    acc: Seq<Option<PointerModel>>,
)
    requires
        i <= slots.len(),
        slots_plain(slots),
        forall|j: int| 0 <= j < slots.len() ==> bit_set(bm, j as nat) == (slots[j] is Some),
    ensures
        slots_at(
            pre + slots_encoding(slots.skip(i as int)) + rest,
            pre.len(),
            bm,
            slots.len(),
            i,
            acc,
        ) == Some(
            (acc + slots.skip(i as int), pre.len() + slots_encoding(slots.skip(i as int)).len()),
        ),
    decreases slots.len() - i,
{
    let tail = slots.skip(i as int);
    let bytes = pre + slots_encoding(tail) + rest;
    if i >= slots.len() {
        assert(tail =~= Seq::<Option<PointerModel>>::empty());
        assert(acc + tail =~= acc);
    } else {
        lemma_slots_front(tail);
        assert(tail[0] == slots[i as int]);
        assert(tail.skip(1) =~= slots.skip(i + 1 as int));
        let e0 = slot_encoding(slots[i as int]);
        let more = slots_encoding(slots.skip(i + 1 as int));
        assert(bytes =~= pre + e0 + (more + rest));
        assert(bytes =~= (pre + e0) + more + rest);
        match slots[i as int] {
            Some(p) => {
                lemma_pointer_at(pre, p, more + rest);
                lemma_slots_at(pre + e0, slots, rest, bm, i + 1, acc.push(Some(p)));
                assert(acc.push(Some(p)) + slots.skip(i + 1 as int) =~= acc + tail);
            },
            None => {
                assert(pre + e0 =~= pre);
                lemma_slots_at(pre, slots, rest, bm, i + 1, acc.push(None));
                assert(acc.push(None) + slots.skip(i + 1 as int) =~= acc + tail);
            },
        }
    }
}

/// Whether slot `i` is occupied.
pub open spec fn taken(slots: Seq<Option<PointerModel>>, i: int) -> bool {
    0 <= i < slots.len() && slots[i] is Some
}

/// In a byte that is the sum of eight bits, each bit is read back.
proof fn lemma_byte_bits(c0: u8, c1: u8, c2: u8, c3: u8, c4: u8, c5: u8, c6: u8, c7: u8, x: u8)
    requires
        c0 == 0 || c0 == 1,
        c1 == 0 || c1 == 2,
        c2 == 0 || c2 == 4,
        c3 == 0 || c3 == 8,
        c4 == 0 || c4 == 16,
        c5 == 0 || c5 == 32,
        c6 == 0 || c6 == 64,
        c7 == 0 || c7 == 128,
        x == c0 + c1 + c2 + c3 + c4 + c5 + c6 + c7,
    ensures
        ((x / 1) % 2 == 1) == (c0 == 1),
        ((x / 2) % 2 == 1) == (c1 == 2),
        ((x / 4) % 2 == 1) == (c2 == 4),
        ((x / 8) % 2 == 1) == (c3 == 8),
        ((x / 16) % 2 == 1) == (c4 == 16),
        ((x / 32) % 2 == 1) == (c5 == 32),
        ((x / 64) % 2 == 1) == (c6 == 64),
        ((x / 128) % 2 == 1) == (c7 == 128),
{
    assert(x == c0 | c1 | c2 | c3 | c4 | c5 | c6 | c7) by (bit_vector)
        requires
            c0 == 0 || c0 == 1,
            c1 == 0 || c1 == 2,
            c2 == 0 || c2 == 4,
            c3 == 0 || c3 == 8,
            c4 == 0 || c4 == 16,
            c5 == 0 || c5 == 32,
            c6 == 0 || c6 == 64,
            c7 == 0 || c7 == 128,
            x == c0 + c1 + c2 + c3 + c4 + c5 + c6 + c7,
    ;
    assert(((x / 1) % 2 == 1) == (c0 == 1) && ((x / 2) % 2 == 1) == (c1 == 2) && ((x / 4) % 2
        == 1) == (c2 == 4) && ((x / 8) % 2 == 1) == (c3 == 8) && ((x / 16) % 2 == 1) == (c4
        == 16) && ((x / 32) % 2 == 1) == (c5 == 32) && ((x / 64) % 2 == 1) == (c6 == 64) && ((x
        / 128) % 2 == 1) == (c7 == 128)) by (bit_vector)
        requires
            c0 == 0 || c0 == 1,
            c1 == 0 || c1 == 2,
            c2 == 0 || c2 == 4,
            c3 == 0 || c3 == 8,
            c4 == 0 || c4 == 16,
            c5 == 0 || c5 == 32,
            c6 == 0 || c6 == 64,
            c7 == 0 || c7 == 128,
            x == c0 | c1 | c2 | c3 | c4 | c5 | c6 | c7,
    ;
}

/// Bit `b` of a byte of the bitmap is set exactly where the slot is occupied.
proof fn lemma_bitmap_byte_bit(slots: Seq<Option<PointerModel>>, base: int, b: nat)
    requires
        b < 8,
        base >= 0,
    ensures
        bitmap_byte(slots, base, 8) < 256,
        ((bitmap_byte(slots, base, 8) / two_pow(b)) % 2 == 1) == taken(slots, base + b),
        bitmap_byte(slots, base, 8) == 0 ==> !taken(slots, base + b),
{
    lemma_two_pow_values();
    let c0: u8 = if taken(slots, base + 0) { 1 } else { 0 };
    let c1: u8 = if taken(slots, base + 1) { 2 } else { 0 };
    let c2: u8 = if taken(slots, base + 2) { 4 } else { 0 };
    let c3: u8 = if taken(slots, base + 3) { 8 } else { 0 };
    let c4: u8 = if taken(slots, base + 4) { 16 } else { 0 };
    let c5: u8 = if taken(slots, base + 5) { 32 } else { 0 };
    let c6: u8 = if taken(slots, base + 6) { 64 } else { 0 };
    let c7: u8 = if taken(slots, base + 7) { 128 } else { 0 };
    assert(bitmap_byte(slots, base, 0) == 0);
    assert(bitmap_byte(slots, base, 1) == c0);
    assert(bitmap_byte(slots, base, 2) == c0 + c1);
    assert(bitmap_byte(slots, base, 3) == c0 + c1 + c2);
    assert(bitmap_byte(slots, base, 4) == c0 + c1 + c2 + c3);
    assert(bitmap_byte(slots, base, 5) == c0 + c1 + c2 + c3 + c4);
    assert(bitmap_byte(slots, base, 6) == c0 + c1 + c2 + c3 + c4 + c5);
    assert(bitmap_byte(slots, base, 7) == c0 + c1 + c2 + c3 + c4 + c5 + c6);
    assert(bitmap_byte(slots, base, 8) == c0 + c1 + c2 + c3 + c4 + c5 + c6 + c7);
    let x: u8 = (c0 + c1 + c2 + c3 + c4 + c5 + c6 + c7) as u8;
    lemma_byte_bits(c0, c1, c2, c3, c4, c5, c6, c7, x);
}

/// A byte of the bitmap of which only the lowest bits can be set is small.
proof fn lemma_bitmap_byte_low(slots: Seq<Option<PointerModel>>, nbits: nat)
    requires
        slots.len() <= nbits <= 8,
    ensures
        bitmap_byte(slots, 0, nbits) == bitmap_byte(slots, 0, slots.len()),
        bitmap_byte(slots, 0, slots.len()) < two_pow(slots.len()),
    decreases nbits,
{
    if nbits > slots.len() {
        lemma_bitmap_byte_low(slots, (nbits - 1) as nat);
    } else {
        lemma_byte_bound(slots, 0, nbits);
    }
}

proof fn lemma_byte_bound(slots: Seq<Option<PointerModel>>, base: int, nbits: nat)
    ensures
        bitmap_byte(slots, base, nbits) < two_pow(nbits),
    decreases nbits,
{
    if nbits > 0 {
        lemma_byte_bound(slots, base, (nbits - 1) as nat);
    }
}

/// What is left of a byte string without its leading zero bytes: the bytes
/// from some place on, before which all are zero, and which do not begin
/// with a zero.
proof fn lemma_strip_zeros(s: Seq<u8>) -> (z: nat)
    ensures
        z <= s.len(),
        strip_zeros(s) == s.skip(z as int),
        forall|a: int| 0 <= a < z ==> s[a] == 0,
        z < s.len() ==> s[z as int] != 0,
    decreases s.len(),
{
    if s.len() > 0 && s[0] == 0 {
        let z1 = lemma_strip_zeros(s.skip(1));
        assert(s.skip(1).skip(z1 as int) =~= s.skip(z1 + 1 as int));
        assert forall|a: int| 0 <= a < z1 + 1 implies s[a] == 0 by {
            if a > 0 {
                assert(s.skip(1)[a - 1] == s[a]);
            }
        }
        if z1 + 1 < s.len() {
            assert(s.skip(1)[z1 as int] == s[z1 + 1 as int]);
        }
        z1 + 1
    } else {
        assert(s.skip(0) =~= s);
        0
    }
}

/// The bitmap that is written is well formed and has a bit set exactly for
/// each occupied slot.
proof fn lemma_bitmap(slots: Seq<Option<PointerModel>>)
    requires
        2 <= slots.len() <= 256,
        slots.len() == 2 || slots.len() == 4 || slots.len() % 8 == 0,
    ensures
        bitmap_ok(bitmap_encoding(slots), slots.len()),
        forall|i: int|
            0 <= i < slots.len() ==> bit_set(bitmap_encoding(slots), i as nat) == (slots[i]
                is Some),
{
    let width = slots.len();
    let full = bitmap_full(slots);
    let n = bitmap_len(width);
    let z = lemma_strip_zeros(full);
    let bm = bitmap_encoding(slots);
    assert(bm =~= full.skip(z as int));
    assert forall|j: int| 0 <= j < n implies full[j] == bitmap_byte(
        slots,
        8 * (n - 1 - j),
        8,
    ) by {
        lemma_bitmap_byte_bit(slots, 8 * (n - 1 - j), 0);
    }
    assert forall|i: int| 0 <= i < width implies bit_set(bm, i as nat) == (slots[i] is Some) by {
        let q = i / 8;
        let b = (i % 8) as nat;
        assert(q < n);
        let j = n - 1 - q;
        lemma_bitmap_byte_bit(slots, 8 * q, b);
        assert(full[j] == bitmap_byte(slots, 8 * q, 8));
        if q < bm.len() {
            assert(bm[bm.len() - 1 - q] == full[j]);
        } else {
            assert(j < z);
            assert(full[j] == 0);
        }
    }
    if bm.len() > 0 {
        assert(bm[0] == full[z as int]);
        if width < 8 {
            assert(n == 1 && z == 0);
            lemma_bitmap_byte_bit(slots, 0, 0);
            lemma_bitmap_byte_low(slots, 8);
        }
    }
}

/// As many bits are set in the bitmap as slots are occupied.
proof fn lemma_bits_count(slots: Seq<Option<PointerModel>>, bm: Seq<u8>, i: nat)
    requires
        i <= slots.len(),
        forall|j: int| 0 <= j < slots.len() ==> bit_set(bm, j as nat) == (slots[j] is Some),
    ensures
        bits_set_below(bm, i) == occupied(slots.take(i as int)),
    decreases i,
{
    if i > 0 {
        lemma_bits_count(slots, bm, (i - 1) as nat);
        assert(slots.take(i as int).drop_last() =~= slots.take(i - 1));
        assert(slots.take(i as int).last() == slots[i - 1]);
    } else {
        assert(slots.take(0) =~= Seq::<Option<PointerModel>>::empty());
    }
}

/// No more slots are occupied than there are.
pub proof fn lemma_occupied_bound(slots: Seq<Option<PointerModel>>)
    ensures
        occupied(slots) <= slots.len(),
    decreases slots.len(),
{
    if slots.len() > 0 {
        lemma_occupied_bound(slots.drop_last());
    }
}

/// Reading a node back gives the node that was written.
pub proof fn lemma_decode_encode(n: NodeModel)
    requires
        2 <= n.slots.len() <= 256,
        n.slots.len() == 2 || n.slots.len() == 4 || n.slots.len() % 8 == 0,
        slots_plain(n.slots),
    ensures
        node_decoding(node_encoding(n), n.slots.len()) == Some(n),
{
    let slots = n.slots;
    let width = slots.len();
    let bm = bitmap_encoding(slots);
    let h0 = head(MAJOR_ARRAY, 2);
    let b = byte_string(bm);
    lemma_occupied_bound(slots);
    let h1 = head(MAJOR_ARRAY, occupied(slots) as u64);
    let body = slots_encoding(slots);
    let bytes = node_encoding(n);
    let none = Seq::<u8>::empty();
    lemma_bitmap(slots);
    lemma_bits_count(slots, bm, width);
    assert(slots.take(width as int) =~= slots);
    assert(bytes =~= none + h0 + (b + h1 + body));
    lemma_head_at(none, MAJOR_ARRAY, 2, b + h1 + body);
    assert(bytes =~= (none + h0) + b + (h1 + body));
    assert(bm.len() <= 32);
    lemma_bytes_at(none + h0, bm, h1 + body);
    assert(bytes =~= (none + h0 + b) + h1 + (body + none));
    lemma_head_at(none + h0 + b, MAJOR_ARRAY, occupied(slots) as u64, body + none);
    assert(slots.skip(0) =~= slots);
    assert(bytes =~= (none + h0 + b + h1) + slots_encoding(slots.skip(0)) + none);
    lemma_slots_at(none + h0 + b + h1, slots, none, bm, 0, Seq::empty());
    assert(Seq::<Option<PointerModel>>::empty() + slots.skip(0) =~= slots);
}

} // verus!
