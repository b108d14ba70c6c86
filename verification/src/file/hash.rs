use vstd::prelude::*;

use crate::fmt::string_from_chars;

verus! {

/// The SHA-256 digest of `bytes`.
pub uninterp spec fn sha256_of(bytes: Seq<u8>) -> Seq<u8>;

/// The SHA-512 digest of `bytes`.
pub uninterp spec fn sha512_of(bytes: Seq<u8>) -> Seq<u8>;

/// The MD5 digest of `bytes`.
pub uninterp spec fn md5_of(bytes: Seq<u8>) -> Seq<u8>;

/// Computes the SHA-256 digest with `sha2::Sha256::digest`. Claimed: the
/// result is `sha256_of` the input, and 32 bytes long (the digest's
/// output size in the crate).
#[verifier::external_body]
fn sha256_digest(bytes: &[u8]) -> (r: Vec<u8>)
    ensures
        r@ == sha256_of(bytes@),
        r@.len() == 32,
{
    <sha2::Sha256 as sha2::Digest>::digest(bytes).to_vec()
}

/// Computes the SHA-512 digest with `sha2::Sha512::digest`. Claimed: the
/// result is `sha512_of` the input, and 64 bytes long (the digest's
/// output size in the crate).
#[verifier::external_body]
fn sha512_digest(bytes: &[u8]) -> (r: Vec<u8>)
    ensures
        r@ == sha512_of(bytes@),
        r@.len() == 64,
{
    <sha2::Sha512 as sha2::Digest>::digest(bytes).to_vec()
}

/// Computes the MD5 digest with `md5::Md5::digest`. Claimed: the result
/// is `md5_of` the input, and 16 bytes long (the digest's output size in
/// the crate).
#[verifier::external_body]
fn md5_digest(bytes: &[u8]) -> (r: Vec<u8>)
    ensures
        r@ == md5_of(bytes@),
        r@.len() == 16,
{
    <md5::Md5 as md5::Digest>::digest(bytes).to_vec()
}

/// The lowercase hexadecimal digit of `d`, which is below 16.
pub open spec fn hex_digit(d: nat) -> char {
    if d < 10 {
        (48 + d) as char
    } else {
        (87 + d) as char
    }
}

/// Bytes in lowercase hexadecimal, two digits a byte, most significant
/// digit first.
pub open spec fn hex_text(bytes: Seq<u8>) -> Seq<char>
    decreases bytes.len(),
{
    if bytes.len() == 0 {
        Seq::empty()
    } else {
        hex_text(bytes.drop_last()) + seq![
            hex_digit(bytes.last() as nat / 16),
            hex_digit(bytes.last() as nat % 16),
        ]
    }
}

fn hex_char(d: u8) -> (c: char)
    requires
        d < 16,
    ensures
        c == hex_digit(d as nat),
{
    if d < 10 {
        (48 + d) as char
    } else {
        (87 + d) as char
    }
}

/// Formats bytes in lowercase hexadecimal, two digits a byte.
///
/// # Examples
/// ```
/// use kwik::file::hash;
///
/// assert_eq!(hash::to_hex(&[10, 20, 30]), "0a141e");
/// ```
pub fn to_hex(bytes: &[u8]) -> (s: String)
    ensures
        s@ == hex_text(bytes@),
{
    let mut out: Vec<char> = Vec::new();
    let n = bytes.len();
    let mut i: usize = 0;
    while i < n
        invariant
            i <= n,
            n == bytes@.len(),
            out@ == hex_text(bytes@.take(i as int)),
        decreases n - i,
    {
        let b = bytes[i];
        out.push(hex_char(b / 16));
        out.push(hex_char(b % 16));
        proof {
            let t = bytes@.take(i + 1);
            assert(t.drop_last() =~= bytes@.take(i as int));
            assert(t.last() == b);
        }
        i = i + 1;
        proof {
            assert(out@ =~= hex_text(bytes@.take(i as int)));
        }
    }
    proof {
        assert(bytes@.take(n as int) =~= bytes@);
    }
    string_from_chars(&out)
}

/// Computes the SHA-256 digest of the supplied bytes, in lowercase
/// hexadecimal.
pub fn sha256_hex(bytes: &[u8]) -> (s: String)
    ensures
        s@ == hex_text(sha256_of(bytes@)),
        s@.len() == 64,
{
    let digest = sha256_digest(bytes);
    proof {
        lemma_hex_len(digest@);
    }
    to_hex(digest.as_slice())
}

/// Computes the SHA-512 digest of the supplied bytes, in lowercase
/// hexadecimal.
pub fn sha512_hex(bytes: &[u8]) -> (s: String)
    ensures
        s@ == hex_text(sha512_of(bytes@)),
        s@.len() == 128,
{
    let digest = sha512_digest(bytes);
    proof {
        lemma_hex_len(digest@);
    }
    to_hex(digest.as_slice())
}

/// Computes the MD5 digest of the supplied bytes, in lowercase
/// hexadecimal.
pub fn md5_hex(bytes: &[u8]) -> (s: String)
    ensures
        s@ == hex_text(md5_of(bytes@)),
        s@.len() == 32,
{
    let digest = md5_digest(bytes);
    proof {
        lemma_hex_len(digest@);
    }
    to_hex(digest.as_slice())
}

/// Hexadecimal text takes two digits a byte.
pub proof fn lemma_hex_len(bytes: Seq<u8>)
    ensures
        hex_text(bytes).len() == 2 * bytes.len(),
    decreases bytes.len(),
{
    if bytes.len() > 0 {
        lemma_hex_len(bytes.drop_last());
    }
}

} // verus!
