//! Public keys and hashes as they stand in a script: by their bytes.

use std::str::FromStr;
use vstd::prelude::*;
use bitcoin::hashes::sha256d;
use crate::text::hex;

verus! {

/// A compressed secp256k1 public key, held as its 33-byte serialization.
#[derive(Clone, Copy, PartialEq, Eq, PartialOrd, Ord, Debug, Hash)]
pub struct PublicKey {
    pub bytes: [u8; 33],
}

/// A 32-byte hash that a hash check compares against, held in the order in
/// which a script pushes it. Its text is written as bitcoin writes a
/// `sha256d` hash: last byte first.
#[derive(Clone, Copy, PartialEq, Eq, PartialOrd, Ord, Debug, Hash)]
pub struct Sha256dHash {
    pub bytes: [u8; 32],
}

/// The compressed serialization of the key that a text names, if it names
/// one (33 or 65 bytes in hex of a point on the curve).
pub uninterp spec fn key_from_str(s: Seq<char>) -> Option<Seq<u8>>;

/// `<secp256k1::PublicKey as FromStr>::from_str`, then `serialize`: the key
/// that a hex text names, in compressed form. Which texts name a key (a
/// point on the curve) is named, not stated; the error's text is left open.
/// The compressed serialization of a key, in hex, names that key again:
/// `from_str` reads 33 bytes of hex and parses them as a serialized key,
/// and the library documents serializing and parsing as the way to store a
/// key and get it back. Every refusal is `Error::InvalidPublicKey`, whose
/// text is `malformed public key`.
#[verifier::external_body]
fn secp_key_from_str(s: &str) -> (r: Result<[u8; 33], String>)
    ensures
        match r {
            Ok(b) => key_from_str(s@) == Some(b@) && key_from_str(hex(b@)) == Some(b@),
            Err(e) => key_from_str(s@) is None && e@ == "malformed public key"@,
        },
{
    match secp256k1::PublicKey::from_str(s) {
        Ok(pk) => Ok(pk.serialize()),
        Err(e) => Err(e.to_string()),
    }
}

/// A lowercase hex digit.
pub open spec fn lower_hex_digit(c: char) -> bool {
    ('0' <= c && c <= '9') || ('a' <= c && c <= 'f')
}

/// The shape of the debug form of a `secp256k1::PublicKey`: `PublicKey(`,
/// 128 lowercase hex digits, `)`.
pub open spec fn raw_key_debug(t: Seq<char>) -> bool {
    &&& t.len() == 139
    &&& t.subrange(0, 10) == "PublicKey("@
    &&& t[138] == ')'
    &&& forall|i: int| 10 <= i < 138 ==> #[trigger] lower_hex_digit(t[i])
}

/// `format!("{:?}", ..)` of the `secp256k1::PublicKey` that `bytes`
/// serialize, if `PublicKey::from_slice` takes them (`from_str` hands the
/// bytes of its hex to `from_slice`, so a refusal here is one there). The
/// derived `Debug` prints `PublicKey(`, the 64 bytes of the key's internal
/// representation in lowercase hex (from `secp256k1-sys`), and `)`. That
/// representation is libsecp256k1's storage form, whose bytes differ
/// between machines: which digits come is not stated.
#[verifier::external_body]
pub(crate) fn secp_key_debug(bytes: &[u8; 33]) -> (r: Option<String>)
    ensures
        r matches Some(t) ==> raw_key_debug(t@),
        r is None ==> key_from_str(hex(bytes@)) != Some(bytes@),
{
    match secp256k1::PublicKey::from_slice(bytes) {
        Ok(pk) => Some(format!("{:?}", pk)),
        Err(_) => None,
    }
}

/// The value of a hex digit, if `c` is one (either case).
pub open spec fn hex_value(c: char) -> Option<nat> {
    if '0' <= c && c <= '9' {
        Some((c as nat - '0' as nat) as nat)
    } else if 'a' <= c && c <= 'f' {
        Some((c as nat - 'a' as nat + 10) as nat)
    } else if 'A' <= c && c <= 'F' {
        Some((c as nat - 'A' as nat + 10) as nat)
    } else {
        None
    }
}

/// The bytes that pairs of hex digits stand for.
pub open spec fn unhex(s: Seq<char>) -> Seq<u8>
    decreases s.len(),
{
    if s.len() < 2 {
        Seq::empty()
    } else {
        seq![(hex_value(s[0]).unwrap() * 16 + hex_value(s[1]).unwrap()) as u8] + unhex(s.subrange(2, s.len() as int))
    }
}

/// The hash that a text names: 64 hex digits, last byte first.
pub open spec fn hash_from_hex(s: Seq<char>) -> Option<Seq<u8>> {
    if s.len() == 64 && (forall|i: int| 0 <= i < s.len() ==> #[trigger] hex_value(s[i]) is Some) {
        Some(unhex(s).reverse())
    } else {
        None
    }
}

/// The text of the error for which a text names no `sha256d` hash.
pub uninterp spec fn hash_hex_error(s: Seq<char>) -> Seq<char>;

/// `<sha256d::Hash as FromStr>::from_str`: 64 hex digits of either case,
/// which give the bytes last first. The error's text, which depends on the
/// text alone, is named, not stated.
#[verifier::external_body]
fn sha256d_from_str(s: &str) -> (r: Result<[u8; 32], String>)
    ensures
        match r {
            Ok(b) => hash_from_hex(s@) == Some(b@),
            Err(e) => hash_from_hex(s@) is None && e@ == hash_hex_error(s@),
        },
{
    match sha256d::Hash::from_str(s) {
        Ok(h) => Ok(bitcoin::hashes::Hash::to_byte_array(h)),
        Err(e) => Err(e.to_string()),
    }
}

impl PublicKey {
    /// The key that a hex text names: 33 or 65 bytes of a curve point. A
    /// key read prints as a text that reads back as it.
    pub fn from_str(s: &str) -> (r: Result<PublicKey, String>)
        ensures
            match r {
                Ok(k) => key_from_str(s@) == Some(k.bytes@) && key_from_str(hex(k.bytes@)) == Some(k.bytes@),
                Err(e) => key_from_str(s@) is None && e@ == "malformed public key"@,
            },
    {
        match secp_key_from_str(s) {
            Ok(bytes) => Ok(PublicKey { bytes }),
            Err(e) => Err(e),
        }
    }
}

impl Sha256dHash {
    /// The hash that a text of 64 hex digits names, last byte first.
    pub fn from_hex(s: &str) -> (r: Result<Sha256dHash, String>)
        ensures
            match r {
                Ok(h) => hash_from_hex(s@) == Some(h.bytes@),
                Err(e) => hash_from_hex(s@) is None && e@ == hash_hex_error(s@),
            },
    {
        match sha256d_from_str(s) {
            Ok(bytes) => Ok(Sha256dHash { bytes }),
            Err(e) => Err(e),
        }
    }
}

} // verus!
