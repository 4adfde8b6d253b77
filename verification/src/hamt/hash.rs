//! The hash of a key, and the slot that it selects at each depth of the trie.

use crate::digest::{digest_with, multihash_digest, SHA2_256, SHA2_256_LEN};
use vstd::prelude::*;

verus! {

/// The SHA-256 digest of `data`.
pub open spec fn sha2_256(data: Seq<u8>) -> Seq<u8> {
    match multihash_digest(SHA2_256, data) {
        Some(digest) => digest,
        None => Seq::empty(),
    }
}

/// The length of a SHA-256 digest in bytes.
pub const HASH_LEN: usize = SHA2_256_LEN;

/// The parameters of a trie.
#[derive(Clone, Copy, Debug, PartialEq, Eq)]
pub struct Config {
    /// How many bits of the hash select a slot at each depth; a node has
    /// two to the power of `bit_width` slots.
    pub bit_width: u32,
    /// How many pairs a bucket holds at most.
    pub bucket_size: usize,
}

/// The bit width of a trie made without one.
pub const DEFAULT_BIT_WIDTH: u32 = 8;

/// The bucket size of a trie made without one.
pub const DEFAULT_BUCKET_SIZE: usize = 3;

/// The most pairs that a bucket may be made to hold: as many as a machine
/// word of 32 bits counts, which is also the longest key and the longest
/// array whose head a node is written and read back with.
pub const MAX_BUCKET_SIZE: usize = 0xffff_ffff;

impl Config {
    /// A configuration is usable where a slot index fits in a byte and a
    /// bucket holds at least one pair and no more than `MAX_BUCKET_SIZE`.
    pub open spec fn valid(&self) -> bool {
        1 <= self.bit_width <= 8 && 1 <= self.bucket_size <= MAX_BUCKET_SIZE
    }

    /// The number of slots of a node.
    pub open spec fn width(&self) -> nat {
        two_pow(self.bit_width as nat)
    }

    /// Whether the configuration is usable.
    pub fn is_valid(&self) -> (r: bool)
        ensures
            r == self.valid(),
    {
        1 <= self.bit_width && self.bit_width <= 8 && 1 <= self.bucket_size && self.bucket_size
            <= MAX_BUCKET_SIZE
    }

    /// The number of slots of a node.
    pub fn slot_count(&self) -> (n: usize)
        requires
            self.valid(),
        ensures
            n == self.width(),
            2 <= n <= 256,
    {
        let n = pow2_exec(self.bit_width);
        proof {
            lemma_two_pow_monotonic(1, self.bit_width as nat);
            lemma_two_pow_monotonic(self.bit_width as nat, 8);
            lemma_two_pow_values();
        }
        n
    }
}

/// The configuration of a trie made without one.
pub open spec fn default_config() -> Config {
    Config { bit_width: DEFAULT_BIT_WIDTH, bucket_size: DEFAULT_BUCKET_SIZE }
}

impl Default for Config {
    fn default() -> (conf: Self)
        ensures
            conf.valid(),
            conf == default_config(),
    {
        Config { bit_width: DEFAULT_BIT_WIDTH, bucket_size: DEFAULT_BUCKET_SIZE }
    }
}

/// Two to the power of `e`.
pub open spec fn two_pow(e: nat) -> nat
    decreases e,
{
    if e == 0 {
        1
    } else {
        2 * two_pow((e - 1) as nat)
    }
}

/// The small powers of two.
pub proof fn lemma_two_pow_values()
    ensures
        two_pow(0) == 1,
        two_pow(1) == 2,
        two_pow(2) == 4,
        two_pow(3) == 8,
        two_pow(4) == 16,
        two_pow(5) == 32,
        two_pow(6) == 64,
        two_pow(7) == 128,
        two_pow(8) == 256,
{
    reveal_with_fuel(two_pow, 10);
}

/// A larger exponent gives no smaller power.
pub proof fn lemma_two_pow_monotonic(a: nat, b: nat)
    requires
        a <= b,
    ensures
        1 <= two_pow(a) <= two_pow(b),
    decreases b,
{
    if b == 0 {
    } else if a == b {
        lemma_two_pow_monotonic((a - 1) as nat, (b - 1) as nat);
    } else {
        lemma_two_pow_monotonic(a, (b - 1) as nat);
    }
}

/// Two to the power of `e`, for exponents up to eight.
pub fn pow2_exec(e: u32) -> (n: usize)
    requires
        e <= 8,
    ensures
        n == two_pow(e as nat),
{
    proof {
        lemma_two_pow_values();
    }
    if e == 0 {
        1
    } else if e == 1 {
        2
    } else if e == 2 {
        4
    } else if e == 3 {
        8
    } else if e == 4 {
        16
    } else if e == 5 {
        32
    } else if e == 6 {
        64
    } else if e == 7 {
        128
    } else {
        256
    }
}

/// Bit `i` of a byte string, counted from the highest bit of the first byte.
pub open spec fn bit_at(h: Seq<u8>, i: nat) -> nat {
    ((h[(i / 8) as int] as nat) / two_pow((7 - i % 8) as nat)) % 2
}

/// The number whose binary digits are bits `start .. start + count` of `h`,
/// highest first.
pub open spec fn bits_value(h: Seq<u8>, start: nat, count: nat) -> nat
    decreases count,
{
    if count == 0 {
        0
    } else {
        2 * bits_value(h, start, (count - 1) as nat) + bit_at(h, (start + count - 1) as nat)
    }
}

/// How many depths the bits of a hash of `hash_len` bytes reach.
pub open spec fn levels(hash_len: nat, bit_width: nat) -> nat
    recommends
        bit_width >= 1,
{
    (8 * hash_len) / bit_width
}

/// The slots that a key with hash `h` selects, depth by depth: each is the
/// next `bit_width` bits of the hash. The hash has bits for `levels` depths.
pub open spec fn route(h: Seq<u8>, bit_width: nat) -> Seq<nat> {
    Seq::new(levels(h.len(), bit_width), |d: int| bits_value(h, (d * bit_width) as nat, bit_width))
}

/// `s` cut or filled with zero bytes to the length of a SHA-256 digest. A
/// digest is left as it is.
pub open spec fn fit(s: Seq<u8>) -> Seq<u8> {
    Seq::new(HASH_LEN as nat, |i: int| if i < s.len() { s[i] } else { 0u8 })
}

/// The hash of a key: its SHA-256 digest.
pub open spec fn key_hash(key: Seq<u8>) -> Seq<u8> {
    fit(sha2_256(key))
}

/// The hash of a key.
pub fn hash_key(key: &[u8]) -> (h: Vec<u8>)
    ensures
        h@ == key_hash(key@),
        h@.len() == HASH_LEN,
{
    match digest_with(SHA2_256, key) {
        Some(h) => {
            assert(h@ =~= fit(h@));
            h
        },
        None => vstd::pervasive::unreached(),
    }
}

/// The slots that `key` selects, depth by depth.
pub open spec fn key_route(key: Seq<u8>, bit_width: nat) -> Seq<nat> {
    route(key_hash(key), bit_width)
}

/// Whether the hash of `key` has the length of a SHA-256 digest, as the
/// hash of every key has.
pub open spec fn hashed(key: Seq<u8>) -> bool {
    key_hash(key).len() == HASH_LEN
}

/// The hash of every key has the length of a SHA-256 digest.
pub proof fn lemma_all_hashed(key: Seq<u8>)
    ensures
        hashed(key),
{
}

/// How many depths a trie can have: the depths for which a hash has bits.
pub open spec fn depth_limit(bit_width: nat) -> nat {
    levels(HASH_LEN as nat, bit_width)
}

/// Every slot of a route is one of the slots of a node.
pub proof fn lemma_route_slot(h: Seq<u8>, bit_width: nat, i: int)
    requires
        0 <= i < route(h, bit_width).len(),
    ensures
        route(h, bit_width)[i] < two_pow(bit_width),
{
    lemma_bits_value_bound(h, (i * bit_width) as nat, bit_width);
}

/// Whether `prefix` is how `route` begins.
pub open spec fn begins_with(route: Seq<nat>, prefix: Seq<nat>) -> bool {
    prefix.len() <= route.len() && route.take(prefix.len() as int) == prefix
}

/// A number of `count` bits is below two to the power of `count`.
pub proof fn lemma_bits_value_bound(h: Seq<u8>, start: nat, count: nat)
    ensures
        bits_value(h, start, count) < two_pow(count),
    decreases count,
{
    if count > 0 {
        lemma_bits_value_bound(h, start, (count - 1) as nat);
    }
}

/// The slot that the hash `h` selects at `depth`; `None` where the hash has
/// no bits left for that depth.
pub fn slot_at(h: &[u8], depth: usize, conf: &Config) -> (r: Option<usize>)
    requires
        conf.valid(),
        h@.len() <= 0xffff,
    ensures
        match r {
            Some(slot) => depth < route(h@, conf.bit_width as nat).len() && slot == route(
                h@,
                conf.bit_width as nat,
            )[depth as int] && slot < conf.width(),
            None => depth >= route(h@, conf.bit_width as nat).len(),
        },
{
    let w: usize = conf.bit_width as usize;
    if depth > 0xfffff {
        proof {
            lemma_levels(h@.len(), w as nat, depth as nat);
        }
        assert(8 * h@.len() < (depth + 1) * w) by (nonlinear_arith)
            requires
                h@.len() <= 0xffff,
                depth > 0xfffff,
                w >= 1,
        ;
        return None;
    }
    assert((depth + 1) * w <= 0x100000 * 8) by (nonlinear_arith)
        requires
            depth <= 0xfffff,
            w <= 8,
    ;
    assert(depth * w <= (depth + 1) * w) by (nonlinear_arith)
        requires
            w >= 0,
    ;
    proof {
        lemma_levels(h@.len(), w as nat, depth as nat);
    }
    if (depth + 1) * w > 8 * h.len() {
        return None;
    }
    let start: usize = depth * w;
    assert(start + w == (depth + 1) * w) by (nonlinear_arith)
        requires
            start == depth * w,
    ;
    let slot = read_bits(h, start, w);
    Some(slot)
}

/// A depth is within reach exactly when the hash has bits for it.
pub proof fn lemma_levels(hash_len: nat, w: nat, depth: nat)
    requires
        w >= 1,
    ensures
        depth < levels(hash_len, w) <==> (depth + 1) * w <= 8 * hash_len,
{
    let n = 8 * hash_len;
    vstd::arithmetic::div_mod::lemma_fundamental_div_mod(n as int, w as int);
    vstd::arithmetic::div_mod::lemma_mod_bound(n as int, w as int);
    let q = n / w;
    if depth < q {
        assert((depth + 1) * w <= q * w) by (nonlinear_arith)
            requires
                depth + 1 <= q,
                w >= 1,
        ;
        assert(q * w == w * q) by (nonlinear_arith);
    } else {
        assert((depth + 1) * w >= (q + 1) * w) by (nonlinear_arith)
            requires
                depth + 1 >= q + 1,
                w >= 1,
        ;
        assert((q + 1) * w == w * q + w) by (nonlinear_arith);
    }
}

/// The number that bits `start .. start + count` of `h` spell.
fn read_bits(h: &[u8], start: usize, count: usize) -> (r: usize)
    requires
        count <= 8,
        h@.len() <= 0xffff,
        start + count <= 8 * h@.len(),
    ensures
        r == bits_value(h@, start as nat, count as nat),
        r < two_pow(count as nat),
{
    let mut acc: usize = 0;
    let mut j: usize = 0;
    while j < count
        invariant
            j <= count <= 8,
            h@.len() <= 0xffff,
            start + count <= 8 * h@.len(),
            acc == bits_value(h@, start as nat, j as nat),
            acc < two_pow(j as nat),
        decreases count - j,
    {
        let i: usize = start + j;
        let byte: u8 = h[i / 8];
        let shift: u32 = (7 - i % 8) as u32;
        let div: usize = pow2_exec(shift);
        proof {
            lemma_two_pow_monotonic(0, shift as nat);
            lemma_two_pow_monotonic(j as nat, 8);
            lemma_two_pow_values();
        }
        let bit: usize = (byte as usize / div) % 2;
        acc = 2 * acc + bit;
        j += 1;
    }
    acc
}

} // verus!
