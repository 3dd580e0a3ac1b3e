//! Template ids: the first eight bytes of the MD5 digest of a template,
//! in lower-case hexadecimal.
use vstd::prelude::*;
use md5::Digest;
use crate::text::{hex_lower, to_hex_lower};

verus! {

/// The MD5 digest of `data` (RFC 1321), 16 bytes.
pub uninterp spec fn md5_digest(data: Seq<u8>) -> Seq<u8>;

/// `md5::Md5::digest` (crate `md-5`): the 16-byte MD5 digest of `data`,
/// which [`md5_digest`] names.
#[verifier::external_body]
fn md5_of(data: &[u8]) -> (r: Vec<u8>)
    ensures
        r@ == md5_digest(data@),
        r@.len() == 16,
{
    md5::Md5::digest(data).to_vec()
}

/// The id of a template: the first 8 bytes of the MD5 digest of its UTF-8
/// encoding, as 16 lower-case hexadecimal digits.
pub open spec fn template_id_of(template: Seq<char>) -> Seq<char> {
    hex_lower(md5_digest(vstd::utf8::encode_utf8(template)).take(8))
}

/// The id of `template` (see [`template_id_of`]).
pub fn template_id(template: &str) -> (r: String)
    ensures
        r@ == template_id_of(template@),
{
    let bytes = template.as_bytes();
    let digest = md5_of(bytes);
    let mut first: Vec<u8> = Vec::new();
    let mut k: usize = 0;
    while k < 8
        invariant
            k <= 8,
            digest@.len() == 16,
            first@ =~= digest@.take(k as int),
        decreases 8 - k,
    {
        first.push(digest[k]);
        k = k + 1;
    }
    to_hex_lower(first.as_slice())
}

} // verus!
