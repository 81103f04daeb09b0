//! Content hashing: SHA-1 through the `sha1` crate and lower-case hex through the
//! `hex` crate — the two pieces of the content id the `reel` shell script computes too.
use crate::text::digit_char;
use vstd::prelude::*;

verus! {

/// The SHA-1 digest of a byte string, as the `sha1` crate computes it.
pub uninterp spec fn sha1_of(data: Seq<u8>) -> Seq<u8>;

/// Calls `sha1::Sha1::digest` (via the `Digest` trait) on `data`. The contract
/// claims only that the result is a function of `data` alone (named `sha1_of`) and
/// that it is twenty bytes long, as SHA-1 always is.
#[verifier::external_body]
pub(crate) fn sha1_digest(data: &[u8]) -> (d: Vec<u8>)
    ensures
        d@ == sha1_of(data@),
        d@.len() == 20,
{
    <sha1::Sha1 as sha1::Digest>::digest(data).to_vec()
}

/// One nibble as a lower-case hex digit.
pub open spec fn hex_digit(n: nat) -> char {
    if n < 10 { digit_char(n) } else if n == 10 { 'a' } else if n == 11 { 'b' } else if n == 12 { 'c' }
    else if n == 13 { 'd' } else if n == 14 { 'e' } else { 'f' }
}

/// Lower-case hex of `b`, two digits per byte, high nibble first.
pub open spec fn hex_of(b: Seq<u8>) -> Seq<char>
    decreases b.len(),
{
    if b.len() == 0 {
        Seq::empty()
    } else {
        hex_of(b.drop_last()) + seq![hex_digit((b.last() / 16) as nat), hex_digit((b.last() % 16) as nat)]
    }
}

/// Calls `hex::encode` on `data`: every byte as two lower-case hex digits, high
/// nibble first, as the crate documents.
#[verifier::external_body]
pub(crate) fn hex_encode(data: &[u8]) -> (s: String)
    ensures
        s@ == hex_of(data@),
{
    hex::encode(data)
}

} // verus!
