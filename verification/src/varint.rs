//! Unsigned LEB128 integers: seven bits to a byte, lowest first, with the
//! high bit set on every byte but the last.

use vstd::prelude::*;

verus! {

/// The encoding of `n`.
pub open spec fn uvarint(n: nat) -> Seq<u8>
    decreases n,
{
    if n < 128 {
        seq![n as u8]
    } else {
        seq![(128 + n % 128) as u8] + uvarint(n / 128)
    }
}

/// What the bytes at the start of `s` decode to: the number and how many
/// bytes it takes. `None` where `s` does not start with the encoding of any
/// number; padded encodings, which end in a zero byte, are no encodings.
pub open spec fn uvarint_parse(s: Seq<u8>) -> Option<(nat, nat)>
    decreases s.len(),
{
    if s.len() == 0 {
        None
    } else if s[0] < 128 {
        Some((s[0] as nat, 1nat))
    } else {
        match uvarint_parse(s.skip(1)) {
            Some((v, l)) => if v > 0 {
                Some(((s[0] - 128 + 128 * v) as nat, l + 1))
            } else {
                None
            },
            None => None,
        }
    }
}

/// What the bytes at the start of `s` decode to as a 64-bit number.
pub open spec fn uvarint_parse_u64(s: Seq<u8>) -> Option<(u64, nat)> {
    match uvarint_parse(s) {
        Some((v, l)) => if v <= u64::MAX {
            Some((v as u64, l))
        } else {
            None
        },
        None => None,
    }
}

/// An encoding is never empty and takes at most ten bytes for a 64-bit number.
pub proof fn lemma_uvarint_len(n: nat)
    ensures
        uvarint(n).len() >= 1,
        n <= u64::MAX ==> uvarint(n).len() <= 10,
    decreases n,
{
    if n >= 128 {
        lemma_uvarint_len(n / 128);
    }
    if n <= u64::MAX {
        assert(pow128(10) > u64::MAX) by {
            reveal_with_fuel(pow128, 11);
        }
        lemma_uvarint_len_bound(n, 10);
    }
}

/// The power of 128 with exponent `k`.
pub open spec fn pow128(k: nat) -> nat
    decreases k,
{
    if k == 0 {
        1
    } else {
        128 * pow128((k - 1) as nat)
    }
}

proof fn lemma_uvarint_len_bound(n: nat, k: nat)
    requires
        k >= 1,
        n < pow128(k),
    ensures
        uvarint(n).len() <= k,
    decreases k,
{
    if n >= 128 {
        assert(k >= 2) by {
            reveal_with_fuel(pow128, 2);
        }
        assert(n / 128 < pow128((k - 1) as nat));
        lemma_uvarint_len_bound(n / 128, (k - 1) as nat);
    }
}

/// Decoding undoes encoding, whatever follows the encoding.
pub proof fn lemma_uvarint_parse_encode(n: nat, rest: Seq<u8>)
    ensures
        uvarint_parse(uvarint(n) + rest) == Some((n, uvarint(n).len())),
    decreases n,
{
    let s = uvarint(n) + rest;
    if n < 128 {
        assert(s[0] == n as u8);
    } else {
        assert(s[0] == (128 + n % 128) as u8);
        assert(s.skip(1) =~= uvarint(n / 128) + rest);
        lemma_uvarint_parse_encode(n / 128, rest);
    }
}

/// What decodes to `v` in `l` bytes starts with the encoding of `v`, which
/// has `l` bytes.
pub proof fn lemma_uvarint_encode_parse(s: Seq<u8>)
    requires
        uvarint_parse(s) is Some,
    ensures
        ({
            let (v, l) = uvarint_parse(s)->Some_0;
            &&& 1 <= l <= s.len()
            &&& s.take(l as int) == uvarint(v)
            &&& v >= pow128((l - 1) as nat) || l == 1
        }),
    decreases s.len(),
{
    let (v, l) = uvarint_parse(s)->Some_0;
    if s[0] < 128 {
        assert(s.take(1) =~= seq![s[0]]);
    } else {
        lemma_uvarint_encode_parse(s.skip(1));
        let (v1, l1) = uvarint_parse(s.skip(1))->Some_0;
        assert(v == s[0] - 128 + 128 * v1);
        assert(v / 128 == v1 && v % 128 == s[0] - 128);
        assert(s.take(l as int) =~= seq![s[0]] + s.skip(1).take(l1 as int));
        if l1 > 1 {
            assert(v1 >= pow128((l1 - 1) as nat));
        } else {
            assert(pow128(1) == 128) by {
                reveal_with_fuel(pow128, 2);
            }
        }
    }
}

/// Appends the encoding of `n` to `out`.
pub fn write_uvarint(out: &mut Vec<u8>, n: u64)
    ensures
        final(out)@ == old(out)@ + uvarint(n as nat),
{
    let mut x: u64 = n;
    while x >= 128
        invariant
            out@ + uvarint(x as nat) == old(out)@ + uvarint(n as nat),
        decreases x,
    {
        let ghost before = out@;
        out.push((128 + x % 128) as u8);
        assert(out@ + uvarint((x / 128) as nat) =~= before + uvarint(x as nat));
        x = x / 128;
    }
    let ghost before = out@;
    out.push(x as u8);
    assert(out@ =~= before + uvarint(x as nat));
}

/// Reads the number encoded at `bytes[pos..]`; returns it with the position
/// after its last byte.
pub fn read_uvarint(bytes: &[u8], pos: usize) -> (r: Option<(u64, usize)>)
    requires
        pos <= bytes@.len(),
    ensures
        match uvarint_parse_u64(bytes@.skip(pos as int)) {
            Some((v, l)) => r matches Some((n, end)) && n == v && end == pos + l && end
                <= bytes@.len(),
            None => r is None,
        },
{
    read_uvarint_bounded(bytes, pos, 10)
}

fn read_uvarint_bounded(bytes: &[u8], pos: usize, limit: usize) -> (r: Option<(u64, usize)>)
    requires
        pos <= bytes@.len(),
        limit <= 10,
    ensures
        match uvarint_parse_u64(bytes@.skip(pos as int)) {
            Some((v, l)) => if l <= limit {
                r matches Some((n, end)) && n == v && end == pos + l && end <= bytes@.len()
            } else {
                r is None
            },
            None => r is None,
        },
        limit == 10 ==> (uvarint_parse_u64(bytes@.skip(pos as int)) matches Some((v, l)) ==> l
            <= 10),
    decreases limit,
{
    let ghost s = bytes@.skip(pos as int);
    proof {
        if uvarint_parse(s) is Some {
            lemma_uvarint_encode_parse(s);
            let (v, l) = uvarint_parse(s)->Some_0;
            if v <= u64::MAX {
                lemma_uvarint_len(v);
            }
        }
    }
    if limit == 0 || pos >= bytes.len() {
        return None;
    }
    let b = bytes[pos];
    assert(s[0] == b);
    if b < 128 {
        return Some((b as u64, pos + 1));
    }
    assert(s.skip(1) =~= bytes@.skip(pos + 1));
    match read_uvarint_bounded(bytes, pos + 1, limit - 1) {
        Some((rest, end)) => {
            if rest == 0 || rest > (u64::MAX - (b as u64 - 128)) / 128 {
                None
            } else {
                Some(((b as u64 - 128) + 128 * rest, end))
            }
        },
        None => {
            proof {
                if uvarint_parse(s.skip(1)) is Some {
                    lemma_uvarint_encode_parse(s.skip(1));
                }
            }
            None
        },
    }
}

} // verus!
