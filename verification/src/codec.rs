//! Encodings and checksums that other crates compute, each behind one function.

use base64::Engine;
use sha2::Digest;
use vstd::prelude::*;
use vstd::utf8::{encode_utf8, valid_utf8};

verus! {

/// The text of `data` in base64, with the standard alphabet and padding.
pub uninterp spec fn base64_text(data: Seq<u8>) -> Seq<char>;

/// The bytes that `text` stands for in base64, with the standard alphabet and
/// padding, or the text of the error.
pub uninterp spec fn base64_bytes(text: Seq<char>) -> Result<Seq<u8>, Seq<char>>;

/// The SHA-256 checksum of `data`.
pub uninterp spec fn sha256(data: Seq<u8>) -> Seq<u8>;

/// The text of `bytes` read as UTF-8, with U+FFFD for what is not valid.
pub uninterp spec fn lossy_text(bytes: Seq<u8>) -> Seq<char>;

/// Whether the base64 text `text` stands for `data`.
pub open spec fn decodes_to(text: Seq<char>, data: Seq<u8>) -> bool {
    base64_bytes(text) == Ok::<Seq<u8>, Seq<char>>(data)
}

/// What a decoded value or the text of an error holds.
pub open spec fn decoded(r: Result<Vec<u8>, String>) -> Result<Seq<u8>, Seq<char>> {
    match r {
        Ok(v) => Ok(v@),
        Err(e) => Err(e@),
    }
}

/// Whether `result` is right for decoding `text`: where `text` is what some bytes
/// are encoded to, it is those bytes.
pub open spec fn undoes_encoding(text: Seq<char>, result: Result<Seq<u8>, Seq<char>>) -> bool {
    forall|data: Seq<u8>|
        fits_base64(data.len()) && #[trigger] base64_text(data) == text ==> result == Ok::<
            Seq<u8>,
            Seq<char>,
        >(data)
}

/// Whether `c` may stand in base64 text.
pub open spec fn is_base64_char(c: char) -> bool {
    ||| 'A' <= c <= 'Z'
    ||| 'a' <= c <= 'z'
    ||| '0' <= c <= '9'
    ||| c == '+'
    ||| c == '/'
    ||| c == '='
}

/// Whether `text` is made of such characters.
pub open spec fn is_base64(text: Seq<char>) -> bool {
    forall|i: int| 0 <= i < text.len() ==> is_base64_char(#[trigger] text[i])
}

/// Whether the base64 text of `n` bytes fits in memory.
pub open spec fn fits_base64(n: nat) -> bool {
    n / 3 * 4 + 4 <= isize::MAX
}

/// `Engine::encode` of `base64::engine::general_purpose::STANDARD`. The text
/// depends on the data alone, is made of the 64 characters and the padding, and
/// decodes to the data again. The length is bounded because `encode` panics where
/// its buffer cannot be allocated.
#[verifier::external_body]
pub(crate) fn base64_encode(data: &[u8]) -> (r: String)
    requires
        fits_base64(data@.len()),
    ensures
        r@ == base64_text(data@),
        decodes_to(r@, data@),
        is_base64(r@),
{
    base64::engine::general_purpose::STANDARD.encode(data)
}

/// `Engine::decode` of `base64::engine::general_purpose::STANDARD`, with the error
/// given as its text. The result depends on the text alone, and the text that
/// bytes are encoded to gives those bytes.
#[verifier::external_body]
pub(crate) fn base64_decode(text: &str) -> (r: Result<Vec<u8>, String>)
    ensures
        base64_bytes(text@) == decoded(r),
        undoes_encoding(text@, decoded(r)),
{
    base64::engine::general_purpose::STANDARD.decode(text).map_err(|e| e.to_string())
}

/// `Digest::digest` of `sha2::Sha256`. The checksum depends on the data alone and
/// has 32 bytes.
#[verifier::external_body]
pub(crate) fn sha256_digest(data: &[u8]) -> (r: Vec<u8>)
    ensures
        r@ == sha256(data@),
        r@.len() == 32,
{
    sha2::Sha256::digest(data).to_vec()
}

/// `String::from_utf8_lossy`. The text depends on the bytes alone; valid UTF-8
/// keeps its bytes.
#[verifier::external_body]
pub(crate) fn utf8_lossy(bytes: &[u8]) -> (r: String)
    ensures
        r@ == lossy_text(bytes@),
        valid_utf8(bytes@) ==> encode_utf8(r@) == bytes@,
{
    String::from_utf8_lossy(bytes).into_owned()
}

/// Whatever takes up to half of the memory can be encoded.
pub proof fn half_the_memory_can_be_encoded(n: nat)
    requires
        n <= isize::MAX / 2,
    ensures
        fits_base64(n),
{
}

} // verus!
