//! X-only public keys: validation, parsing, tweaking, and the unspendable
//! internal key.

use crate::bytes::copy_bytes;
use crate::hash::{sha256_digest, sha256_of};
use core::str::FromStr;
use sapio_miniscript::bitcoin::secp256k1::{Scalar, Secp256k1, XOnlyPublicKey};
use vstd::prelude::*;
use vstd::string::StringSliceAdditionalSpecFns;

verus! {

/// Length in bytes of an x-only public key.
pub const KEY_LEN: usize = 32;

/// How many candidates the search for the unspendable key tries.
pub const NUMS_ROUNDS: usize = 256;

/// Whether a byte string is the x coordinate of a point on the curve.
pub uninterp spec fn xonly_point(bytes: Seq<u8>) -> bool;

/// The key that a hexadecimal text stands for, or the parser's message.
pub uninterp spec fn xonly_from_hex(text: Seq<char>) -> Result<Seq<u8>, Seq<char>>;

/// The key `key + tweak * G`, where there is one.
pub uninterp spec fn xonly_tweak_add(key: Seq<u8>, tweak: Seq<u8>) -> Option<Seq<u8>>;

/// What the outcome of parsing a key stands for.
pub open spec fn spec_parsed_key(parsed: Result<Vec<u8>, String>) -> Result<Seq<u8>, Seq<char>> {
    match parsed {
        Ok(key) => Ok(key@),
        Err(message) => Err(message@),
    }
}

/// Calls `secp256k1::XOnlyPublicKey::from_slice` and reports whether it
/// accepted the bytes. Trusted: the answer is `xonly_point` of the bytes, and
/// only strings of 32 bytes are accepted.
#[verifier::external_body]
fn is_xonly_point(bytes: &[u8]) -> (valid: bool)
    ensures
        valid == xonly_point(bytes@),
        valid ==> bytes@.len() == KEY_LEN,
{
    XOnlyPublicKey::from_slice(bytes).is_ok()
}

/// Calls `secp256k1::XOnlyPublicKey::from_str` and hands out the key's 32
/// bytes or the error's text. Trusted: the outcome is `xonly_from_hex` of the
/// text, and a key that was parsed is a curve point of 32 bytes.
#[verifier::external_body]
fn parse_xonly_hex(text: &str) -> (parsed: Result<Vec<u8>, String>)
    ensures
        spec_parsed_key(parsed) == xonly_from_hex(text@),
        parsed matches Ok(key) ==> xonly_point(key@) && key@.len() == KEY_LEN,
{
    match XOnlyPublicKey::from_str(text) {
        Ok(key) => Ok(key.serialize().to_vec()),
        Err(error) => Err(error.to_string()),
    }
}

/// Calls `secp256k1::XOnlyPublicKey::add_tweak` on the key and on the scalar
/// that `secp256k1::Scalar::from_be_bytes` makes of the tweak, and hands out
/// the sum's 32 bytes. Trusted: the outcome is `xonly_tweak_add` of key and
/// tweak, and a sum is a curve point of 32 bytes.
#[verifier::external_body]
fn add_tweak(key: &[u8], tweak: &[u8]) -> (sum: Option<Vec<u8>>)
    ensures
        sum matches Some(point) ==> xonly_tweak_add(key@, tweak@) == Some(point@) && xonly_point(
            point@,
        ) && point@.len() == KEY_LEN,
        sum is None ==> xonly_tweak_add(key@, tweak@) is None,
{
    let point = XOnlyPublicKey::from_slice(key).ok()?;
    let scalar = Scalar::from_be_bytes(tweak.try_into().ok()?).ok()?;
    let secp = Secp256k1::verification_only();
    point.add_tweak(&secp, &scalar).ok().map(|(sum, _)| sum.serialize().to_vec())
}

/// An x-only public key: 32 bytes that are the x coordinate of a curve point.
pub struct PublicKey {
    bytes: Vec<u8>,
}

impl View for PublicKey {
    type V = Seq<u8>;

    closed spec fn view(&self) -> Seq<u8> {
        self.bytes@
    }
}

impl PublicKey {
    #[verifier::type_invariant]
    spec fn valid(&self) -> bool {
        xonly_point(self.bytes@) && self.bytes@.len() == KEY_LEN
    }

    /// Makes a key of the bytes of an x coordinate; none where the bytes are
    /// no curve point.
    pub fn from_slice(bytes: &[u8]) -> (key: Option<PublicKey>)
        ensures
            key is Some <==> xonly_point(bytes@),
            key matches Some(point) ==> point@ == bytes@,
    {
        if is_xonly_point(bytes) {
            Some(PublicKey { bytes: copy_bytes(bytes) })
        } else {
            None
        }
    }

    /// Parses a key from hexadecimal text.
    pub fn from_hex(text: &str) -> (key: Result<PublicKey, String>)
        ensures
            key matches Ok(point) ==> xonly_from_hex(text@) == Ok::<_, Seq<char>>(point@),
            key matches Err(message) ==> xonly_from_hex(text@) == Err::<Seq<u8>, _>(message@),
    {
        match parse_xonly_hex(text) {
            Ok(bytes) => Ok(PublicKey { bytes }),
            Err(message) => Err(message),
        }
    }

    /// The 32 bytes of the key.
    pub fn as_bytes(&self) -> (bytes: &[u8])
        ensures
            bytes@ == self@,
            bytes@.len() == KEY_LEN,
            xonly_point(bytes@),
    {
        proof {
            use_type_invariant(self);
        }
        self.bytes.as_slice()
    }

    /// A copy of the key.
    pub fn duplicate(&self) -> (copy: PublicKey)
        ensures
            copy@ == self@,
    {
        proof {
            use_type_invariant(self);
        }
        PublicKey { bytes: copy_bytes(self.bytes.as_slice()) }
    }

    /// The key `self + tweak * G`; none where the tweak is no scalar of the
    /// curve or the sum is no point.
    pub fn tweak_add(&self, tweak: &[u8]) -> (sum: Option<PublicKey>)
        ensures
            sum matches Some(point) ==> xonly_tweak_add(self@, tweak@) == Some(point@),
            sum is None ==> xonly_tweak_add(self@, tweak@) is None,
    {
        match add_tweak(self.bytes.as_slice(), tweak) {
            Some(bytes) => Some(PublicKey { bytes }),
            None => None,
        }
    }
}

/// The first curve point among `rounds` candidates, of which `start` is the
/// first and each next one the SHA-256 digest of the one before.
pub open spec fn spec_first_point(start: Seq<u8>, rounds: nat) -> Option<Seq<u8>>
    decreases rounds,
{
    if rounds == 0 {
        None
    } else if xonly_point(start) {
        Some(start)
    } else {
        spec_first_point(sha256_digest(start), (rounds - 1) as nat)
    }
}

/// The unspendable internal key: the first curve point found from the
/// SHA-256 digest of the text "Hello".
pub open spec fn spec_nums_point() -> Option<Seq<u8>> {
    spec_first_point(sha256_digest("Hello".spec_bytes()), NUMS_ROUNDS as nat)
}

/// Derives the unspendable internal key. The search is the same on every
/// run; it gives up, with none, after `NUMS_ROUNDS` candidates.
pub fn nums_point() -> (key: Option<PublicKey>)
    ensures
        key matches Some(point) ==> spec_nums_point() == Some(point@),
        key is None ==> spec_nums_point() is None,
{
    let mut candidate = sha256_of("Hello".as_bytes());
    let mut left: usize = NUMS_ROUNDS;
    while left > 0
        invariant
            spec_first_point(candidate@, left as nat) == spec_nums_point(),
        decreases left,
    {
        match PublicKey::from_slice(candidate.as_slice()) {
            Some(point) => {
                return Some(point);
            },
            None => {
                candidate = sha256_of(candidate.as_slice());
                left -= 1;
            },
        }
    }
    None
}

/// The unspendable key depends on nothing: two derivations give one key.
pub proof fn lemma_nums_point_is_fixed(one: Option<Seq<u8>>, other: Option<Seq<u8>>)
    requires
        one == spec_nums_point(),
        other == spec_nums_point(),
    ensures
        one == other,
{
}

/// The first curve point among candidates is a curve point.
pub proof fn lemma_first_point_is_a_point(start: Seq<u8>, rounds: nat)
    ensures
        spec_first_point(start, rounds) matches Some(point) ==> xonly_point(point),
    decreases rounds,
{
    if rounds > 0 && !xonly_point(start) {
        lemma_first_point_is_a_point(sha256_digest(start), (rounds - 1) as nat);
    }
}

} // verus!
