//! Content digests: lines are matched by the MD5 digest of their text.

use vstd::prelude::*;
use vstd::string::StringSliceAdditionalSpecFns;
use vstd::utf8::encode_utf8;

verus! {

/// The MD5 digest of a sequence of bytes.
pub uninterp spec fn md5_digest(data: Seq<u8>) -> Seq<u8>;

/// The digest of a text: the MD5 digest of its UTF-8 encoding.
pub open spec fn text_digest(t: Seq<char>) -> Seq<u8> {
    md5_digest(encode_utf8(t))
}

/// Calls `md5::compute` and hands back the sixteen bytes of its digest. The
/// contract is taken on trust. It claims that the digest is a function of the
/// bytes alone, which it names `md5_digest`, and nothing else.
#[verifier::external_body]
fn md5_of(data: &[u8]) -> (d: [u8; 16])
    ensures
        d@ == md5_digest(data@),
{
    md5::compute(data).0
}

/// The digest of a text.
pub fn content_digest(text: &str) -> (d: [u8; 16])
    ensures
        d@ == text_digest(text@),
{
    md5_of(text.as_bytes())
}

/// Whether two digests are equal.
pub fn same_digest(a: &[u8; 16], b: &[u8; 16]) -> (r: bool)
    ensures
        r == (a@ == b@),
{
    let mut i: usize = 0;
    while i < 16
        invariant
            i <= 16,
            forall|j: int| 0 <= j < i ==> a@[j] == b@[j],
        decreases 16 - i,
    {
        if a[i] != b[i] {
            return false;
        }
        i += 1;
    }
    assert(a@ =~= b@);
    true
}

} // verus!
