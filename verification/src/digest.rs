//! Digests of texts.
use crate::text::{digit_char, first_chars, hex, hex_text, law_hex, leading_chars};
use vstd::prelude::*;
use vstd::utf8::encode_utf8;

verus! {

/// How many characters of a digest name a project's directory.
pub const SHORT_DIGEST_CHARS: usize = 16;

/// The SHA-256 digest of bytes, as `sha2::Sha256::digest` computes it.
pub uninterp spec fn sha256(data: Seq<u8>) -> Seq<u8>;

/// `sha2::Sha256::digest`: the digest of the bytes, which has 32 bytes.
#[verifier::external_body]
pub(crate) fn sha256_digest(data: &[u8]) -> (r: Vec<u8>)
    ensures
        r@ == sha256(data@),
        r@.len() == 32,
{
    <sha2::Sha256 as sha2::Digest>::digest(data).to_vec()
}

/// The digest of a text's bytes in hexadecimal digits.
pub open spec fn text_digest(content: Seq<char>) -> Seq<char> {
    hex(sha256(encode_utf8(content)))
}

/// The digest of a file's content in hexadecimal digits.
pub fn sha256_file_content(content: &str) -> (r: String)
    ensures
        r@ == text_digest(content@),
        r@.len() == 64,
{
    let digest: Vec<u8> = sha256_digest(content.as_bytes());
    hex_text(digest.as_slice())
}

/// The name of the directory that holds a project's memory: the start of the digest of the
/// project's directory.
pub fn storage_name(project_dir: &str) -> (r: String)
    ensures
        r@ == leading_chars(text_digest(project_dir@), SHORT_DIGEST_CHARS as int),
        r@.len() == SHORT_DIGEST_CHARS,
{
    let digest: String = sha256_file_content(project_dir);
    first_chars(digest.as_str(), SHORT_DIGEST_CHARS)
}

/// A project's memory is named by sixteen hexadecimal digits: those that the digest of the
/// project's directory starts with. The digest has two for each of its bytes.
pub proof fn law_storage_name(project_dir: Seq<char>)
    ensures
        ({
            let digest = sha256(encode_utf8(project_dir));
            let name = leading_chars(text_digest(project_dir), SHORT_DIGEST_CHARS as int);
            &&& digest.len() >= 8 ==> name.len() == 16 && forall|i: int|
                0 <= i < 8 ==> name[2 * i] == digit_char(#[trigger] digest[i] as int / 16) && name[2 * i + 1]
                    == digit_char(digest[i] as int % 16)
        }),
{
    let digest = sha256(encode_utf8(project_dir));
    law_hex(digest, digest);
}

} // verus!
