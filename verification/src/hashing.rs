//! Content hashing: the identity of every stored object is the hex digest of
//! its exact text.

use vstd::prelude::*;
use sha1::Digest;
use crate::chars::is_plain;

verus! {

/// The hex digest that identifies a sequence of characters in the object
/// store.  The digest is a function of the characters alone; nothing in this
/// crate states what it is on given values.
pub uninterp spec fn hash_of(s: Seq<char>) -> Seq<char>;

/// A lower-case hexadecimal digit, as the `{:x}` rendering of a byte
/// produces them.
pub open spec fn is_hex_char(c: char) -> bool {
    (('0' as u32) <= (c as u32) && (c as u32) <= ('9' as u32)) || (('a' as u32) <= (c as u32)
        && (c as u32) <= ('f' as u32))
}

/// The shape of a well-formed content hash: hexadecimal digits only, at
/// least one per digest byte.  In particular a hash is never empty and
/// contains neither the tab nor the newline characters that frame the
/// stored text formats.
pub open spec fn is_hash(h: Seq<char>) -> bool {
    h.len() >= 20 && forall|i: int| 0 <= i < h.len() ==> is_hex_char(#[trigger] h[i])
}

/// Relies on `sha1::Sha1::digest` (through the `digest` crate's `Digest`
/// trait): the SHA-1 digest of the input bytes is a function of those bytes
/// alone, and rendering each digest byte with `{:x}` yields lower-case
/// hexadecimal digits.
#[verifier::external_body]
pub fn hash_string(s: &String) -> (r: String)
    ensures
        r@ == hash_of(s@),
        is_hash(r@),
{
    sha1::Sha1::digest(s.as_bytes()).iter().map(|x| format!("{:x}", x)).collect()
}

/// A hash can stand as a field of the stored record formats.
pub proof fn lemma_hash_is_plain(h: Seq<char>)
    requires
        is_hash(h),
    ensures
        is_plain(h),
{
    if h.contains('\t') {
        let k = choose|k: int| 0 <= k < h.len() && h[k] == '\t';
        assert(is_hex_char(h[k]));
        assert(false);
    }
    if h.contains('\n') {
        let k = choose|k: int| 0 <= k < h.len() && h[k] == '\n';
        assert(is_hex_char(h[k]));
        assert(false);
    }
}

} // verus!
