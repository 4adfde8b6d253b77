//! Content identifiers, held as their canonical binary form.

use crate::bytes::{bytes_copy, bytes_eq};
use crate::varint::{lemma_uvarint_len, lemma_uvarint_parse_encode, uvarint, uvarint_parse_u64};
use vstd::prelude::*;

verus! {

/// The canonical bytes of the content identifier that `bytes` begin with, as
/// the `cid` crate reads and writes it; `None` where it reads none.
pub uninterp spec fn cid_rewritten(bytes: Seq<u8>) -> Option<Seq<u8>>;

/// The longest binary form of an identifier that is accepted. An identifier
/// with a digest of 64 bytes, the longest that the `cid` crate holds, is
/// shorter.
pub const MAX_CID_LEN: usize = 100;

/// Whether `bytes` are exactly the canonical binary form of a content
/// identifier: they are no longer than `MAX_CID_LEN`, and the `cid` crate
/// reads them and writes the same bytes back.
pub open spec fn is_cid(bytes: Seq<u8>) -> bool {
    bytes.len() <= MAX_CID_LEN && cid_rewritten(bytes) == Some(bytes)
}

/// Calls `cid::Cid::try_from` on the bytes and `to_bytes` on what it read.
/// The contract only names the result: the bytes written back for the
/// identifier read, or `None` where reading failed.
#[verifier::external_body]
fn rewrite_cid(bytes: &[u8]) -> (r: Option<Vec<u8>>)
    ensures
        match r {
            Some(b) => cid_rewritten(bytes@) == Some(b@),
            None => cid_rewritten(bytes@) is None,
        },
{
    match ::cid::Cid::try_from(bytes) {
        Ok(c) => Some(c.to_bytes()),
        Err(_) => None,
    }
}

/// The text form of the identifier with the given binary form, as the
/// `cid` crate shows it.
pub uninterp spec fn cid_shown(bytes: Seq<u8>) -> Seq<char>;

/// Calls `cid::Cid::try_from` on the bytes and `Display` on the identifier.
/// The contract names the text, and claims that there is one where the
/// bytes are the binary form of an identifier.
#[verifier::external_body]
fn cid_text(bytes: &[u8]) -> (text: Option<String>)
    ensures
        text matches Some(t) ==> t@ == cid_shown(bytes@),
        is_cid(bytes@) ==> text is Some,
{
    match ::cid::Cid::try_from(bytes) {
        Ok(c) => Some(c.to_string()),
        Err(_) => None,
    }
}

/// The codec of identifiers of version zero.
pub const DAG_PB: u64 = 0x70;

/// The codec of the identifier with the given binary form. An identifier of
/// version zero is a SHA-256 multihash, which begins with the bytes 0x12
/// and 0x20, and has the codec `DAG_PB`; any other begins with its version
/// and its codec as varints.
pub open spec fn cid_codec(bytes: Seq<u8>) -> u64 {
    match uvarint_parse_u64(bytes) {
        Some((version, l)) => match uvarint_parse_u64(bytes.skip(l as int)) {
            Some((codec, _)) => if version == 0x12 && codec == 0x20 {
                DAG_PB
            } else {
                codec
            },
            None => 0,
        },
        None => 0,
    }
}

/// Calls `cid::Cid::try_from` on the bytes and `codec` on the identifier.
/// The contract claims that the binary form of an identifier has a codec,
/// and that it is the one that `cid_codec` reads from the bytes.
#[verifier::external_body]
fn codec_of(bytes: &[u8]) -> (codec: Option<u64>)
    ensures
        is_cid(bytes@) ==> codec == Some(cid_codec(bytes@)),
{
    match ::cid::Cid::try_from(bytes) {
        Ok(c) => Some(c.codec()),
        Err(_) => None,
    }
}

/// The longest digest that an identifier holds.
pub const MAX_DIGEST_LEN: usize = 64;

/// The binary form of the identifier of version one with the given codec
/// whose multihash holds `digest` under the hash code `code`: the version,
/// the codec, the hash code and the length of the digest as varints, then
/// the digest.
pub open spec fn cid_v1_bytes(codec: u64, code: u64, digest: Seq<u8>) -> Seq<u8> {
    uvarint(1) + uvarint(codec as nat) + uvarint(code as nat) + uvarint(digest.len()) + digest
}

/// Calls `multihash::Multihash::wrap` on the digest, `cid::Cid::new_v1` on
/// the multihash and `to_bytes` on the identifier. The contract claims that
/// the bytes are the version, the codec, the hash code and the length of
/// the digest as varints and then the digest, and that the `cid` crate
/// reads these bytes and writes the same bytes back. `wrap` refuses a
/// digest of more than 64 bytes, which is left out.
#[verifier::external_body]
fn wrap_digest(codec: u64, code: u64, digest: &[u8]) -> (r: Vec<u8>)
    requires
        digest@.len() <= MAX_DIGEST_LEN,
    ensures
        r@ == cid_v1_bytes(codec, code, digest@),
        cid_rewritten(r@) == Some(r@),
{
    let hash = ::multihash::Multihash::<64>::wrap(code, digest).unwrap();
    ::cid::Cid::new_v1(codec, hash).to_bytes()
}

/// The codec of an identifier of version one is the codec that it was made
/// with.
pub proof fn lemma_v1_codec(codec: u64, code: u64, digest: Seq<u8>)
    ensures
        cid_codec(cid_v1_bytes(codec, code, digest)) == codec,
{
    let bytes = cid_v1_bytes(codec, code, digest);
    let after_codec = uvarint(code as nat) + uvarint(digest.len()) + digest;
    let after_version = uvarint(codec as nat) + after_codec;
    assert(bytes =~= uvarint(1) + after_version);
    lemma_uvarint_parse_encode(1, after_version);
    assert(uvarint(1).len() == 1);
    assert(bytes.skip(1) =~= after_version);
    lemma_uvarint_parse_encode(codec as nat, after_codec);
}

/// A content identifier. Its view is its canonical binary form.
#[derive(Debug, PartialEq, Eq, Hash)]
pub struct Cid {
    bytes: Vec<u8>,
}

impl View for Cid {
    type V = Seq<u8>;

    closed spec fn view(&self) -> Seq<u8> {
        self.bytes@
    }
}

impl Clone for Cid {
    fn clone(&self) -> (copy: Self)
        ensures
            copy@ == self@,
    {
        proof {
            use_type_invariant(self);
        }
        Cid { bytes: bytes_copy(self.bytes.as_slice()) }
    }
}

impl Cid {
    #[verifier::type_invariant]
    spec fn valid(&self) -> bool {
        is_cid(self.bytes@)
    }

    /// The identifier with the given binary form; `None` unless the bytes are
    /// exactly the canonical form of an identifier.
    pub fn from_bytes(bytes: &[u8]) -> (r: Option<Cid>)
        ensures
            r is Some <==> is_cid(bytes@),
            r matches Some(c) ==> c@ == bytes@,
    {
        if bytes.len() > MAX_CID_LEN {
            return None;
        }
        match rewrite_cid(bytes) {
            Some(canonical) => {
                if bytes_eq(canonical.as_slice(), bytes) {
                    Some(Cid { bytes: canonical })
                } else {
                    None
                }
            },
            None => None,
        }
    }

    /// The identifier of version one with the given codec whose multihash
    /// holds `digest` under the hash code `code`.
    pub fn wrapping(codec: u64, code: u64, digest: &[u8]) -> (c: Cid)
        requires
            digest@.len() <= MAX_DIGEST_LEN,
        ensures
            c@ == cid_v1_bytes(codec, code, digest@),
            cid_codec(c@) == codec,
    {
        proof {
            lemma_uvarint_len(1);
            lemma_uvarint_len(codec as nat);
            lemma_uvarint_len(code as nat);
            lemma_uvarint_len(digest@.len());
            lemma_v1_codec(codec, code, digest@);
        }
        Cid { bytes: wrap_digest(codec, code, digest) }
    }

    /// The codec of the identifier.
    pub fn codec(&self) -> (codec: u64)
        ensures
            codec == cid_codec(self@),
    {
        proof {
            use_type_invariant(self);
        }
        match codec_of(self.bytes.as_slice()) {
            Some(codec) => codec,
            None => vstd::pervasive::unreached(),
        }
    }

    /// The binary form.
    pub fn to_bytes(&self) -> (bytes: Vec<u8>)
        ensures
            bytes@ == self@,
            is_cid(bytes@),
    {
        proof {
            use_type_invariant(self);
        }
        bytes_copy(self.bytes.as_slice())
    }

    /// The binary form, borrowed.
    pub fn as_bytes(&self) -> (bytes: &[u8])
        ensures
            bytes@ == self@,
            is_cid(bytes@),
    {
        proof {
            use_type_invariant(self);
        }
        self.bytes.as_slice()
    }

    /// Whether two identifiers are the same.
    pub fn same(&self, other: &Cid) -> (same: bool)
        ensures
            same == (self@ == other@),
    {
        bytes_eq(self.bytes.as_slice(), other.bytes.as_slice())
    }

    /// The text form of the identifier.
    pub fn to_text(&self) -> (text: String)
        ensures
            text@ == cid_shown(self@),
    {
        proof {
            use_type_invariant(self);
        }
        match cid_text(self.bytes.as_slice()) {
            Some(text) => text,
            None => vstd::pervasive::unreached(),
        }
    }
}

} // verus!
