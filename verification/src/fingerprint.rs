//! Fingerprints of file content: the first seven characters of the SHA-256
//! digest written in lowercase hexadecimal.

use sha2::{Digest, Sha256};
use vstd::prelude::*;
use vstd::string::StringExecFns;

verus! {

/// The SHA-256 digest of `data`.
pub uninterp spec fn sha256(data: Seq<u8>) -> Seq<u8>;

/// The lowercase hexadecimal digit of `n`, for `n` below 16.
pub open spec fn hex_digit(n: int) -> char {
    seq!['0', '1', '2', '3', '4', '5', '6', '7', '8', '9', 'a', 'b', 'c', 'd', 'e', 'f'][n]
}

/// The value of the hexadecimal digit at index `i` of the text that writes
/// each byte of `bytes` with two digits, the higher one first.
pub open spec fn nibble(bytes: Seq<u8>, i: int) -> int {
    if i % 2 == 0 {
        bytes[i / 2] as int / 16
    } else {
        bytes[i / 2] as int % 16
    }
}

/// `bytes` in lowercase hexadecimal, two digits each.
pub open spec fn hex_lower(bytes: Seq<u8>) -> Seq<char> {
    Seq::new(2 * bytes.len(), |i: int| hex_digit(nibble(bytes, i)))
}

/// The number of characters of a fingerprint.
pub open spec fn fingerprint_len() -> nat {
    7
}

/// The fingerprint of `data`: the first seven hexadecimal digits of its
/// digest.
pub open spec fn fingerprint_of(data: Seq<u8>) -> Seq<char> {
    Seq::new(fingerprint_len(), |i: int| hex_digit(nibble(sha256(data), i)))
}

/// A fingerprint has seven characters, and the same bytes have the same
/// fingerprint.
pub proof fn lemma_fingerprint_deterministic(first: Seq<u8>, second: Seq<u8>)
    requires
        first == second,
    ensures
        fingerprint_of(first) == fingerprint_of(second),
        fingerprint_of(first).len() == 7,
{
}

/// A fingerprint is the beginning of the digest's hexadecimal text.
pub proof fn lemma_fingerprint_is_prefix(data: Seq<u8>)
    requires
        sha256(data).len() >= 4,
    ensures
        fingerprint_of(data) == hex_lower(sha256(data)).take(7),
{
    assert(fingerprint_of(data) =~= hex_lower(sha256(data)).take(7));
}

/// Calls `Sha256::digest` of the crate `sha2`. Its result is the SHA-256
/// digest of `data`, which has 32 bytes.
#[verifier::external_body]
fn sha256_digest(data: &[u8]) -> (digest: Vec<u8>)
    ensures
        digest@ == sha256(data@),
        digest@.len() == 32,
{
    Sha256::digest(data).to_vec()
}

/// The lowercase hexadecimal digit of `n`, as text.
fn hex_text(n: u8) -> (digit: &'static str)
    requires
        n < 16,
    ensures
        digit@ == seq![hex_digit(n as int)],
{
    proof {
        reveal_strlit("0");
        reveal_strlit("1");
        reveal_strlit("2");
        reveal_strlit("3");
        reveal_strlit("4");
        reveal_strlit("5");
        reveal_strlit("6");
        reveal_strlit("7");
        reveal_strlit("8");
        reveal_strlit("9");
        reveal_strlit("a");
        reveal_strlit("b");
        reveal_strlit("c");
        reveal_strlit("d");
        reveal_strlit("e");
        reveal_strlit("f");
    }
    let digit = match n {
        0 => "0",
        1 => "1",
        2 => "2",
        3 => "3",
        4 => "4",
        5 => "5",
        6 => "6",
        7 => "7",
        8 => "8",
        9 => "9",
        10 => "a",
        11 => "b",
        12 => "c",
        13 => "d",
        14 => "e",
        _ => "f",
    };
    assert(digit@ =~= seq![hex_digit(n as int)]);
    digit
}

/// The fingerprint of `content`.
pub fn hash(content: &[u8]) -> (fingerprint: String)
    ensures
        fingerprint@ == fingerprint_of(content@),
        fingerprint@.len() == 7,
{
    let digest = sha256_digest(content);
    let mut fingerprint = String::new();
    let mut i: usize = 0;
    while i < 7
        invariant
            i <= 7,
            digest@ == sha256(content@),
            digest@.len() == 32,
            fingerprint@ =~= fingerprint_of(content@).take(i as int),
        decreases 7 - i,
    {
        let byte = digest[i / 2];
        let n: u8 = if i % 2 == 0 {
            byte / 16
        } else {
            byte % 16
        };
        fingerprint.append(hex_text(n));
        i += 1;
    }
    fingerprint
}

} // verus!
