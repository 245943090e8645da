//! Keccak-256 digests of byte strings, as lowercase hexadecimal text.
use crypto::digest::Digest;
use crypto::sha3::Sha3;
use vstd::prelude::*;
use vstd::utf8::encode_utf8;

verus! {

/// The lowercase hexadecimal rendering of the Keccak-256 digest of `data`.
///
/// The function is computed by the `crypto` crate. Its values are not
/// spelled out here; they are determined by `data`.
pub uninterp spec fn keccak256_hex(data: Seq<u8>) -> Seq<char>;

/// `c` is one of `0` to `9` or `a` to `f`.
pub open spec fn is_hex_digit(c: char) -> bool {
    ('0' as u32 <= c as u32 <= '9' as u32) || ('a' as u32 <= c as u32 <= 'f' as u32)
}

/// `text` has the shape of a digest: 64 lowercase hexadecimal digits, two
/// for each of the 32 bytes of a Keccak-256 output.
pub open spec fn is_digest(text: Seq<char>) -> bool {
    &&& text.len() == 64
    &&& forall|i: int| 0 <= i < text.len() ==> is_hex_digit(#[trigger] text[i])
}

/// The digest of a record: the hash of the record's UTF-8 bytes.
pub open spec fn leaf_digest(record: Seq<char>) -> Seq<char> {
    keccak256_hex(encode_utf8(record))
}

/// The digest of a parent node: the hash of the left child's bytes followed
/// by the right child's bytes.
pub open spec fn combine(left: Seq<char>, right: Seq<char>) -> Seq<char> {
    keccak256_hex(encode_utf8(left) + encode_utf8(right))
}

/// Runs `crypto::sha3::Sha3` in Keccak-256 mode over `data`: a fresh hasher
/// from `Sha3::keccak256`, one `Digest::input` of the whole slice, and
/// `Digest::result_str` for the hexadecimal text.
///
/// Trusted: the returned text is the value that `keccak256_hex` names for
/// these bytes, and it has the shape of a digest: in this mode the hasher
/// puts out 256 bits, and `result_str` writes each byte as two digits taken
/// from `0123456789abcdef`. A fresh hasher is in its absorbing state, so
/// neither call panics.
#[verifier::external_body]
fn keccak256_hex_of(data: &[u8]) -> (digest: String)
    ensures
        digest@ == keccak256_hex(data@),
        is_digest(digest@),
{
    let mut hasher = Sha3::keccak256();
    hasher.input(data);
    hasher.result_str()
}

/// Hashes one string.
pub fn hash_text(text: &str) -> (digest: String)
    ensures
        digest@ == leaf_digest(text@),
        is_digest(digest@),
{
    keccak256_hex_of(text.as_bytes())
}

/// Hashes two strings as one message, left bytes first.
pub fn hash_pair(left: &str, right: &str) -> (digest: String)
    ensures
        digest@ == combine(left@, right@),
        is_digest(digest@),
{
    let mut message: Vec<u8> = Vec::new();
    message.extend_from_slice(left.as_bytes());
    message.extend_from_slice(right.as_bytes());
    assert(message@ =~= encode_utf8(left@) + encode_utf8(right@));
    keccak256_hex_of(message.as_slice())
}

} // verus!
