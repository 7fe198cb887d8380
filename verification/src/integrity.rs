//! Subresource integrity strings (`sha512-<base64>`): parsing, the cache key
//! they give, and checking downloaded bytes against them.

use vstd::prelude::*;
use base64::Engine;
use sha2::Digest;
use crate::text::{chars_of, split_once_at, split_once, string_of, is_literal, append_str, append_chars};

verus! {

/// What `base64::engine::general_purpose::STANDARD.decode` gives for the
/// bytes `input`, or `None` where it reports an error.
pub uninterp spec fn base64_decoded(input: Seq<u8>) -> Option<Seq<u8>>;

/// The SHA-1 digest of `data` (`sha1::Sha1::digest`).
pub uninterp spec fn sha1_of(data: Seq<u8>) -> Seq<u8>;

/// The SHA-256 digest of `data` (`sha2::Sha256::digest`).
pub uninterp spec fn sha256_of(data: Seq<u8>) -> Seq<u8>;

/// The SHA-512 digest of `data` (`sha2::Sha512::digest`).
pub uninterp spec fn sha512_of(data: Seq<u8>) -> Seq<u8>;

/// Decodes standard, padded base64 (`STANDARD.decode` of the `base64` crate).
///
/// Trusted: the result is the name [`base64_decoded`] of the UTF-8 bytes of
/// `input`, `None` exactly where the crate reports an error.
#[verifier::external_body]
pub(crate) fn decode_base64(input: &str) -> (r: Option<Vec<u8>>)
    ensures
        match r {
            Some(v) => base64_decoded(vstd::utf8::encode_utf8(input@)) == Some(v@),
            None => base64_decoded(vstd::utf8::encode_utf8(input@)) is None,
        },
{
    match base64::engine::general_purpose::STANDARD.decode(input) {
        Ok(v) => Some(v),
        Err(_) => None,
    }
}

/// SHA-1 of `data` (`Digest::digest` of `sha1::Sha1`).
///
/// Trusted: the result is the name [`sha1_of`] of `data`.
#[verifier::external_body]
pub(crate) fn sha1_digest(data: &[u8]) -> (r: Vec<u8>)
    ensures
        r@ == sha1_of(data@),
{
    sha1::Sha1::digest(data).to_vec()
}

/// SHA-256 of `data` (`Digest::digest` of `sha2::Sha256`).
///
/// Trusted: the result is the name [`sha256_of`] of `data`.
#[verifier::external_body]
pub(crate) fn sha256_digest(data: &[u8]) -> (r: Vec<u8>)
    ensures
        r@ == sha256_of(data@),
{
    sha2::Sha256::digest(data).to_vec()
}

/// SHA-512 of `data` (`Digest::digest` of `sha2::Sha512`).
///
/// Trusted: the result is the name [`sha512_of`] of `data`.
#[verifier::external_body]
pub(crate) fn sha512_digest(data: &[u8]) -> (r: Vec<u8>)
    ensures
        r@ == sha512_of(data@),
{
    sha2::Sha512::digest(data).to_vec()
}

/// The lowercase hexadecimal digit of `n` (below 16).
pub open spec fn hex_digit(n: u8) -> char {
    if n < 10 {
        ((n + 48) as u8) as char
    } else {
        ((n + 87) as u8) as char
    }
}

/// Lowercase hexadecimal text of `data`: two digits per byte, high half
/// first.
pub open spec fn hex_lower(data: Seq<u8>) -> Seq<char>
    decreases data.len(),
{
    if data.len() == 0 {
        seq![]
    } else {
        hex_lower(data.drop_last()) + seq![hex_digit(data.last() / 16), hex_digit(data.last() % 16)]
    }
}

/// `hex::encode`, which writes each byte as two lowercase hexadecimal digits,
/// high half first, as the `hex` crate documents.
#[verifier::external_body]
pub(crate) fn hex_encode(data: &[u8]) -> (r: String)
    ensures
        r@ == hex_lower(data@),
{
    hex::encode(data)
}

/// The hash algorithm of an integrity string.
#[derive(Clone, Copy, Debug, PartialEq, Eq)]
pub enum HashAlg {
    Sha256,
    Sha512,
    Sha1,
}

/// The name of `alg` in integrity strings.
pub open spec fn alg_name(alg: HashAlg) -> Seq<char> {
    match alg {
        HashAlg::Sha256 => "sha256"@,
        HashAlg::Sha512 => "sha512"@,
        HashAlg::Sha1 => "sha1"@,
    }
}

/// The digest of `data` under `alg`.
pub open spec fn digest_of(alg: HashAlg, data: Seq<u8>) -> Seq<u8> {
    match alg {
        HashAlg::Sha256 => sha256_of(data),
        HashAlg::Sha512 => sha512_of(data),
        HashAlg::Sha1 => sha1_of(data),
    }
}

/// A parsed integrity string: an algorithm and the expected digest.
pub struct Integrity {
    pub alg: HashAlg,
    pub digest: Vec<u8>,
}

/// Why an integrity string was refused.
pub enum IntegrityError {
    /// No `-` separates the algorithm from the digest.
    InvalidFormat { sri: String },
    /// The algorithm is none of `sha256`, `sha512`, `sha1`.
    UnsupportedAlgorithm { alg: String },
    /// The digest is not valid padded base64.
    InvalidBase64,
}

/// The algorithm named `name`, if it is one of the three.
pub open spec fn alg_named(name: Seq<char>) -> Option<HashAlg> {
    if name == "sha256"@ {
        Some(HashAlg::Sha256)
    } else if name == "sha512"@ {
        Some(HashAlg::Sha512)
    } else if name == "sha1"@ {
        Some(HashAlg::Sha1)
    } else {
        None
    }
}

/// What `Integrity::parse` gives for `sri`: the algorithm before the first
/// `-` and the base64-decoded digest after it.
pub open spec fn parsed_integrity(sri: Seq<char>) -> Option<(HashAlg, Seq<u8>)> {
    match split_once(sri, '-') {
        Some((name, b64)) => match (alg_named(name), base64_decoded(vstd::utf8::encode_utf8(b64))) {
            (Some(alg), Some(digest)) => Some((alg, digest)),
            _ => None,
        },
        None => None,
    }
}

impl Integrity {
    /// Parses `<alg>-<base64 digest>`.
    pub fn parse(sri: &str) -> (r: Result<Integrity, IntegrityError>)
        ensures
            match r {
                Ok(i) => parsed_integrity(sri@) == Some((i.alg, i.digest@)),
                Err(e) => parsed_integrity(sri@) is None && match e {
                    IntegrityError::InvalidFormat { sri: s } => s@ == sri@ && split_once(sri@, '-') is None,
                    IntegrityError::UnsupportedAlgorithm { alg } => split_once(sri@, '-') matches Some((name, _))
                        && alg@ == name && alg_named(name) is None,
                    IntegrityError::InvalidBase64 => split_once(sri@, '-') matches Some((name, b64))
                        && alg_named(name) is Some && base64_decoded(vstd::utf8::encode_utf8(b64)) is None,
                },
            },
    {
        let s = chars_of(sri);
        let (name, b64) = match split_once_at(&s, '-') {
            Some(p) => p,
            None => return Err(IntegrityError::InvalidFormat { sri: sri.to_owned() }),
        };
        let alg = if is_literal(&name, "sha256") {
            HashAlg::Sha256
        } else if is_literal(&name, "sha512") {
            HashAlg::Sha512
        } else if is_literal(&name, "sha1") {
            HashAlg::Sha1
        } else {
            return Err(IntegrityError::UnsupportedAlgorithm { alg: string_of(&name) });
        };
        let b64_text = string_of(&b64);
        match decode_base64(b64_text.as_str()) {
            Some(digest) => Ok(Integrity { alg, digest }),
            None => Err(IntegrityError::InvalidBase64),
        }
    }

    /// The name of the cache entry for this integrity: `<alg>-<hex digest>`.
    pub fn cache_key(&self) -> (r: String)
        ensures
            r@ == alg_name(self.alg) + "-"@ + hex_lower(self.digest@),
    {
        let mut out: Vec<char> = Vec::new();
        match self.alg {
            HashAlg::Sha256 => append_str(&mut out, "sha256"),
            HashAlg::Sha512 => append_str(&mut out, "sha512"),
            HashAlg::Sha1 => append_str(&mut out, "sha1"),
        }
        append_str(&mut out, "-");
        let hex = hex_encode(self.digest.as_slice());
        let hex_chars = chars_of(hex.as_str());
        append_chars(&mut out, &hex_chars);
        string_of(&out)
    }

    /// A verifier that checks data against this integrity.
    pub fn integrity_verifier(&self) -> (r: IntegrityVerifier)
        ensures
            r.alg() == self.alg,
            r.expected() == self.digest@,
            r.absorbed() == Seq::<u8>::empty(),
    {
        IntegrityVerifier { alg: self.alg, expected: copy_bytes(&self.digest), data: Vec::new() }
    }
}

/// A copy of `v`.
pub fn copy_bytes(v: &Vec<u8>) -> (r: Vec<u8>)
    ensures
        r@ == v@,
{
    let mut r: Vec<u8> = Vec::with_capacity(v.len());
    let mut i: usize = 0;
    while i < v.len()
        invariant
            i <= v@.len(),
            r@ == v@.take(i as int),
        decreases v@.len() - i,
    {
        r.push(v[i]);
        assert(v@.take(i + 1) =~= v@.take(i as int).push(v@[i as int]));
        i = i + 1;
    }
    assert(v@.take(v@.len() as int) =~= v@);
    r
}

/// Whether the two byte strings are equal.
pub fn same_bytes(a: &Vec<u8>, b: &Vec<u8>) -> (r: bool)
    ensures
        r == (a@ == b@),
{
    if a.len() != b.len() {
        return false;
    }
    let mut i: usize = 0;
    while i < a.len()
        invariant
            a@.len() == b@.len(),
            i <= a@.len(),
            forall|j: int| 0 <= j < i ==> a@[j] == b@[j],
        decreases a@.len() - i,
    {
        if a[i] != b[i] {
            return false;
        }
        i = i + 1;
    }
    assert(a@ =~= b@);
    true
}

/// Collects the data of a download and checks its digest at the end.
pub struct IntegrityVerifier {
    alg: HashAlg,
    expected: Vec<u8>,
    data: Vec<u8>,
}

impl IntegrityVerifier {
    /// The algorithm the verifier hashes with.
    pub closed spec fn alg(&self) -> HashAlg {
        self.alg
    }

    /// The digest the data must have.
    pub closed spec fn expected(&self) -> Seq<u8> {
        self.expected@
    }

    /// All data given to the verifier so far, in order.
    pub closed spec fn absorbed(&self) -> Seq<u8> {
        self.data@
    }

    /// Adds `data` to what the verifier has been given.
    pub fn update(&mut self, data: &[u8])
        ensures
            final(self).absorbed() == old(self).absorbed() + data@,
            final(self).alg() == old(self).alg(),
            final(self).expected() == old(self).expected(),
    {
        let mut i: usize = 0;
        let ghost before = self.data@;
        while i < data.len()
            invariant
                i <= data@.len(),
                self.data@ == before + data@.take(i as int),
                self.alg == old(self).alg,
                self.expected@ == old(self).expected@,
            decreases data@.len() - i,
        {
            self.data.push(data[i]);
            assert(data@.take(i + 1) =~= data@.take(i as int).push(data@[i as int]));
            i = i + 1;
        }
        assert(data@.take(data@.len() as int) =~= data@);
    }

    /// Whether the digest of all data given matches the expected digest.
    pub fn verify(self) -> (r: bool)
        ensures
            r == (digest_of(self.alg(), self.absorbed()) == self.expected()),
    {
        let computed = match self.alg {
            HashAlg::Sha1 => sha1_digest(self.data.as_slice()),
            HashAlg::Sha256 => sha256_digest(self.data.as_slice()),
            HashAlg::Sha512 => sha512_digest(self.data.as_slice()),
        };
        same_bytes(&computed, &self.expected)
    }
}

} // verus!
