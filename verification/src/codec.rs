//! URL-safe base64 without padding and HMAC-SHA256, from the `base64`, `hmac` and
//! `sha2` crates.

use vstd::prelude::*;
use base64::engine::general_purpose::URL_SAFE_NO_PAD;
use base64::Engine;
use hmac::{Hmac, Mac};
use sha2::Sha256;

verus! {

/// What `URL_SAFE_NO_PAD.encode` makes of `bytes`.
pub uninterp spec fn base64url_encoded(bytes: Seq<u8>) -> Seq<char>;

/// What `URL_SAFE_NO_PAD.decode` makes of `text`: the decoded bytes, or `None` where the
/// crate reports an error.
pub uninterp spec fn base64url_decoded(text: Seq<char>) -> Option<Seq<u8>>;

/// The HMAC-SHA256 tag of `message` under `key`.
pub uninterp spec fn hmac_sha256(key: Seq<u8>, message: Seq<u8>) -> Seq<u8>;

/// A symbol of the URL-safe base64 alphabet.
pub open spec fn is_url_safe_symbol(c: char) -> bool {
    ('A' <= c && c <= 'Z') || ('a' <= c && c <= 'z') || ('0' <= c && c <= '9') || c == '-' || c
        == '_'
}

/// Calls `URL_SAFE_NO_PAD.encode` (base64 crate, `Engine::encode`). Trusted: the text is
/// the named encoding of `bytes`, every character of it is in the URL-safe alphabet
/// (the engine writes alphabet symbols and no padding), and decoding it with the same
/// engine gives `bytes` back. The crate panics only where the encoded length would
/// overflow `usize`, which no slice of at most `isize::MAX` bytes reaches.
#[verifier::external_body]
pub(crate) fn base64url_encode(bytes: &[u8]) -> (text: String)
    requires
        bytes@.len() <= isize::MAX,
    ensures
        text@ == base64url_encoded(bytes@),
        base64url_decoded(text@) == Some(bytes@),
        forall|i: int| 0 <= i < text@.len() ==> is_url_safe_symbol(#[trigger] text@[i]),
{
    URL_SAFE_NO_PAD.encode(bytes)
}

/// Calls `URL_SAFE_NO_PAD.decode` (base64 crate, `Engine::decode`). Trusted: the result is
/// the named decoding of `text`; an error becomes `None`.
#[verifier::external_body]
pub(crate) fn base64url_decode(text: &str) -> (bytes: Option<Vec<u8>>)
    ensures
        match bytes {
            Some(b) => base64url_decoded(text@) == Some(b@),
            None => base64url_decoded(text@) is None,
        },
{
    match URL_SAFE_NO_PAD.decode(text) {
        Ok(b) => Some(b),
        Err(_) => None,
    }
}

/// Computes HMAC-SHA256 with the `hmac` and `sha2` crates (`Mac::new_from_slice`,
/// `update`, `finalize`). Trusted: the tag is the named HMAC of `message` under `key` and
/// has the 32 bytes of a SHA-256 output. `new_from_slice` accepts keys of every length
/// for HMAC, so the `expect` never fires.
#[verifier::external_body]
pub(crate) fn hmac_sha256_tag(key: &[u8], message: &[u8]) -> (tag: Vec<u8>)
    ensures
        tag@ == hmac_sha256(key@, message@),
        tag@.len() == 32,
{
    let mut mac = <Hmac<Sha256> as Mac>::new_from_slice(key).expect("hmac key");
    mac.update(message);
    mac.finalize().into_bytes().to_vec()
}

/// Checks a tag with the `hmac` crate (`Mac::verify_slice`, which compares in constant
/// time). Trusted: the answer is whether `tag` equals the named HMAC of `message` under
/// `key` (`verify_slice` rejects a tag of another length and otherwise compares all bytes).
#[verifier::external_body]
pub(crate) fn hmac_sha256_matches(key: &[u8], message: &[u8], tag: &[u8]) -> (ok: bool)
    ensures
        ok == (tag@ == hmac_sha256(key@, message@)),
{
    let mut mac = <Hmac<Sha256> as Mac>::new_from_slice(key).expect("hmac key");
    mac.update(message);
    mac.verify_slice(tag).is_ok()
}

} // verus!
