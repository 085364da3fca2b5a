//! The source cache: entries named after their key, each with a stored
//! SHA-256 checksum of its content. An entry is valid only while the stored
//! checksum matches its content.
use vstd::prelude::*;
use vstd::string::*;

verus! {

/// The SHA-256 digest of `data`.
pub uninterp spec fn sha256_of(data: Seq<u8>) -> Seq<u8>;

/// The URL-safe base64 encoding, with padding, of `data`.
pub uninterp spec fn base64url_of(data: Seq<u8>) -> Seq<char>;

/// Relies on `sha2::Sha256::digest`: the SHA-256 digest of `data`, which
/// has 32 bytes.
#[verifier::external_body]
fn sha256(data: &[u8]) -> (r: Vec<u8>)
    ensures
        r@ == sha256_of(data@),
        r@.len() == 32,
{
    <sha2::Sha256 as sha2::Digest>::digest(data).to_vec()
}

/// Relies on `base64::Engine::encode` with the `URL_SAFE` engine: the
/// URL-safe base64 text of `data`.
#[verifier::external_body]
fn base64_encode(data: &[u8]) -> (r: String)
    ensures
        r@ == base64url_of(data@),
{
    base64::Engine::encode(&base64::engine::general_purpose::URL_SAFE, data)
}

/// Returns the checksum of the content `data` of an entry.
pub fn compute_checksum(data: &[u8]) -> (r: Vec<u8>)
    ensures
        r@ == sha256_of(data@),
        r@.len() == 32,
{
    sha256(data)
}

/// Returns the name of the file that holds the entry with key `key`.
pub fn encoded_key(key: &[u8]) -> (r: String)
    ensures
        r@ == base64url_of(key@),
{
    base64_encode(key)
}

/// Returns the name of the file that holds the checksum of the entry whose
/// file is named `encoded_key`: that name followed by `.checksum`.
pub fn checksum_file_name(encoded_key: &str) -> (r: String)
    ensures
        r@ == encoded_key@ + ".checksum"@,
{
    let mut out = String::from_str(encoded_key);
    out.append(".checksum");
    out
}

/// Whether a stored checksum (`None` when there is none) matches `digest`.
pub fn checksum_matches(digest: &[u8], stored: Option<&[u8]>) -> (r: bool)
    ensures
        r == (stored is Some && stored->Some_0@ == digest@),
{
    let s: &[u8] = match stored {
        None => {
            return false;
        },
        Some(s) => s,
    };
    let n = s.len();
    if n != digest.len() {
        return false;
    }
    let mut i: usize = 0;
    while i < n
        invariant
            n == s@.len(),
            stored == Some(s),
            s@.len() == digest@.len(),
            i <= n,
            forall|k: int| 0 <= k < i ==> s@[k] == digest@[k],
        decreases n - i,
    {
        if s[i] != digest[i] {
            return false;
        }
        i = i + 1;
    }
    assert(s@ =~= digest@);
    true
}

/// Whether an entry with content `data` and stored checksum `stored` is
/// valid: the stored checksum is the digest of the content.
pub fn is_cached(data: &[u8], stored: Option<&[u8]>) -> (r: bool)
    ensures
        r == (stored is Some && stored->Some_0@ == sha256_of(data@)),
{
    let digest = compute_checksum(data);
    checksum_matches(digest.as_slice(), stored)
}

} // verus!
