//! A secret derived from a point: the SHA-1 digest of the decimal text of its
//! x-coordinate, rendered as lowercase hexadecimal.

use crate::curve::CurvePoint;
use sha1::{Digest, Sha1};
use vstd::prelude::*;
use vstd::string::StrSliceExecFns;
use vstd::string::StringExecFns;

verus! {

/// The canonical decimal text of `n`, as ASCII bytes.
pub open spec fn decimal_text(n: nat) -> Seq<u8>
    decreases n,
{
    if n < 10 {
        seq![(48 + n) as u8]
    } else {
        decimal_text(n / 10).push((48 + n % 10) as u8)
    }
}

/// The lowercase hexadecimal digit of a value below 16.
pub open spec fn hex_digit(v: int) -> char {
    seq!['0', '1', '2', '3', '4', '5', '6', '7', '8', '9', 'a', 'b', 'c', 'd', 'e', 'f'][v]
}

/// Two lowercase hexadecimal digits per byte, high nibble first.
pub open spec fn hex_text(bytes: Seq<u8>) -> Seq<char> {
    Seq::new(
        2 * bytes.len(),
        |i: int|
            if i % 2 == 0 {
                hex_digit(bytes[i / 2] as int / 16)
            } else {
                hex_digit(bytes[i / 2] as int % 16)
            },
    )
}

/// The SHA-1 digest of a byte sequence.
pub uninterp spec fn sha1_of(data: Seq<u8>) -> Seq<u8>;

/// Relies on `sha1::Sha1` through `digest::Digest::digest`: the 20-byte SHA-1
/// digest of the input, which depends on the input alone.
#[verifier::external_body]
fn sha1_digest(data: &Vec<u8>) -> (r: Vec<u8>)
    ensures
        r@ == sha1_of(data@),
        r@.len() == 20,
{
    Sha1::digest(data.as_slice()).to_vec()
}

/// The decimal text of `n` as ASCII bytes, most significant digit first.
pub fn decimal_bytes(n: u128) -> (r: Vec<u8>)
    ensures
        r@ == decimal_text(n as nat),
    decreases n,
{
    if n < 10 {
        vec![48 + n as u8]
    } else {
        let mut v = decimal_bytes(n / 10);
        v.push(48 + (n % 10) as u8);
        v
    }
}

/// Renders `digest` as lowercase hexadecimal text.
pub fn digest_to_hex(digest: &Vec<u8>) -> (r: String)
    ensures
        r@ == hex_text(digest@),
{
    let digits = "0123456789abcdef";
    proof {
        reveal_strlit("0123456789abcdef");
    }
    assert(digits.is_ascii());
    let mut out = String::new();
    let mut i: usize = 0;
    while i < digest.len()
        invariant
            i <= digest@.len(),
            digits@ == seq!['0', '1', '2', '3', '4', '5', '6', '7', '8', '9', 'a', 'b', 'c', 'd', 'e', 'f'],
            digits.is_ascii(),
            out@ == hex_text(digest@.subrange(0, i as int)),
        decreases digest@.len() - i,
    {
        let byte = digest[i];
        let hi = (byte / 16) as usize;
        let lo = (byte % 16) as usize;
        out.append(digits.substring_ascii(hi, hi + 1));
        out.append(digits.substring_ascii(lo, lo + 1));
        assert(out@ =~= hex_text(digest@.subrange(0, i + 1)));
        i = i + 1;
    }
    assert(digest@.subrange(0, i as int) =~= digest@);
    out
}

/// The SHA-1 digest, in lowercase hexadecimal, of the decimal text of the
/// point's x-coordinate; `None` for the identity, which has no coordinates.
pub fn hash_point(point: &CurvePoint) -> (r: Option<String>)
    ensures
        match *point {
            CurvePoint::Identity => r is None,
            CurvePoint::Affine { x, y: _ } => r is Some && r->Some_0@ == hex_text(
                sha1_of(decimal_text(x as nat)),
            ) && r->Some_0@.len() == 40,
        },
{
    match *point {
        CurvePoint::Identity => None,
        CurvePoint::Affine { x, y: _ } => {
            let text = decimal_bytes(x);
            let digest = sha1_digest(&text);
            Some(digest_to_hex(&digest))
        },
    }
}

} // verus!
