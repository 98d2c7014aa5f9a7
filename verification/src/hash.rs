//! Object identifiers: the SHA-1 digest of a content, written in hexadecimal.

use sha1::{Digest, Sha1};
use vstd::prelude::*;

verus! {

/// The number of bytes of an object identifier.
pub const HASH_LEN: usize = 40;

/// The SHA-1 digest of `content` as forty lower-case hexadecimal digits.
pub uninterp spec fn sha1_hex(content: Seq<u8>) -> Seq<u8>;

/// One of `0` to `9` and `a` to `f`.
pub open spec fn is_lower_hex(b: u8) -> bool {
    (48 <= b && b <= 57) || (97 <= b && b <= 102)
}

/// A hexadecimal digit in either case.
pub open spec fn is_hex_digit(b: u8) -> bool {
    (48 <= b && b <= 57) || (97 <= b && b <= 102) || (65 <= b && b <= 70)
}

/// Forty hexadecimal digits: the form of a commit identifier.
pub open spec fn commit_hash_form(s: Seq<u8>) -> bool {
    s.len() == HASH_LEN && forall|i: int| 0 <= i < s.len() ==> is_hex_digit(#[trigger] s[i])
}

/// Calls `Sha1::new`, `update` and `finalize` of the `sha1` crate on `content`
/// and formats the digest with `{:x}`. Trusted: the result is the digest that
/// `sha1_hex` names, a function of the content alone; the digest has twenty
/// bytes and the formatting writes two lower-case hexadecimal digits for each.
#[verifier::external_body]
pub fn sha1_hash(content: &[u8]) -> (hash: Vec<u8>)
    ensures
        hash@ == sha1_hex(content@),
        hash@.len() == 40,
        forall|i: int| 0 <= i < 40 ==> is_lower_hex(#[trigger] hash@[i]),
{
    let mut hasher = Sha1::new();
    hasher.update(content);
    format!("{:x}", hasher.finalize()).into_bytes()
}

/// Whether `s` has the form of a commit identifier.
pub fn is_commit_hash(s: &[u8]) -> (r: bool)
    ensures
        r == commit_hash_form(s@),
{
    if s.len() != HASH_LEN {
        return false;
    }
    let mut i: usize = 0;
    while i < HASH_LEN
        invariant
            i <= HASH_LEN,
            s@.len() == HASH_LEN,
            forall|j: int| 0 <= j < i ==> is_hex_digit(#[trigger] s@[j]),
        decreases HASH_LEN - i,
    {
        let b: u8 = s[i];
        if !((48 <= b && b <= 57) || (97 <= b && b <= 102) || (65 <= b && b <= 70)) {
            return false;
        }
        i += 1;
    }
    true
}

/// The digest of `content`. It has the form of a commit identifier.
pub fn digest(content: &[u8]) -> (hash: Vec<u8>)
    ensures
        hash@ == sha1_hex(content@),
        commit_hash_form(hash@),
{
    sha1_hash(content)
}

} // verus!
