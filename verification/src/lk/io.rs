//! Identifiers and timestamps of world records.

use vstd::prelude::*;
use rand::Rng;
use sha2::{Digest, Sha256};

verus! {

/// The characters of a record identifier.
pub open spec fn id_alphabet() -> Seq<char> {
    seq!['a', 'b', 'c', 'd', 'e', 'f', 'g', 'h', 'i', 'j', 'k', 'l', 'm', 'n', 'o', 'p', 'q',
        'r', 's', 't', 'u', 'v', 'w', 'x', 'y', 'z', '0', '1', '2', '3', '4', '5', '6', '7', '8',
        '9']
}

/// A well-formed record identifier: eight lowercase letters or digits.
pub open spec fn is_record_id(s: Seq<char>) -> bool {
    &&& s.len() == 8
    &&& forall|i: int| 0 <= i < s.len() ==> id_alphabet().contains(#[trigger] s[i])
}

/// `rand::rng().random_range(0..n)`: a number drawn from `0..n`. Which one is
/// left to chance, so nothing more is said of it.
#[verifier::external_body]
fn random_below(n: usize) -> (r: usize)
    requires
        n > 0,
    ensures
        r < n,
{
    rand::rng().random_range(0..n)
}

/// `chrono::Utc::now().to_rfc3339()`: the current time as RFC 3339 text,
/// which chrono always writes out in full (date, time and offset), so it is
/// never empty. Which time it holds depends on the clock and is left unsaid.
#[verifier::external_body]
pub(crate) fn now_rfc3339() -> (r: String)
    ensures
        r@.len() > 0,
{
    chrono::Utc::now().to_rfc3339()
}

/// A fresh identifier in Legend Keeper's format: eight characters drawn from
/// the lowercase letters and the digits.
pub fn generate_id() -> (r: String)
    ensures
        is_record_id(r@),
{
    let alphabet: [char; 36] = ['a', 'b', 'c', 'd', 'e', 'f', 'g', 'h', 'i', 'j', 'k', 'l', 'm',
        'n', 'o', 'p', 'q', 'r', 's', 't', 'u', 'v', 'w', 'x', 'y', 'z', '0', '1', '2', '3', '4',
        '5', '6', '7', '8', '9'];
    assert(alphabet@ =~= id_alphabet());
    let mut r = String::new();
    let mut k: usize = 0;
    while k < 8
        invariant
            k <= 8,
            r@.len() == k,
            alphabet@ == id_alphabet(),
            forall|i: int| 0 <= i < r@.len() ==> id_alphabet().contains(#[trigger] r@[i]),
        decreases 8 - k,
    {
        let j = random_below(36);
        let c = alphabet[j];
        assert(id_alphabet()[j as int] == c);
        r.push(c);
        k = k + 1;
    }
    r
}

/// The SHA-256 digest of the UTF-8 bytes of a text.
pub uninterp spec fn sha256(text: Seq<char>) -> Seq<u8>;

/// `sha2::Sha256` over the bytes of `text`: its 32-byte digest.
#[verifier::external_body]
fn sha256_digest(text: &str) -> (r: Vec<u8>)
    ensures
        r@ == sha256(text@),
        r@.len() == 32,
{
    let mut hasher = Sha256::new();
    hasher.update(text.as_bytes());
    hasher.finalize().to_vec()
}

pub open spec fn hex_digit(d: int) -> char {
    if d < 10 {
        ((d + 48) as u32) as char
    } else {
        ((d + 87) as u32) as char
    }
}

/// Bytes as lowercase hexadecimal, two digits each.
pub open spec fn hex_lower(bytes: Seq<u8>) -> Seq<char>
    decreases bytes.len(),
{
    if bytes.len() == 0 {
        seq![]
    } else {
        let b = bytes.last() as int;
        hex_lower(bytes.drop_last()).push(hex_digit(b / 16)).push(hex_digit(b % 16))
    }
}

fn hex_digit_exec(d: u8) -> (c: char)
    requires
        d < 16,
    ensures
        c == hex_digit(d as int),
{
    let digits: [char; 16] = ['0', '1', '2', '3', '4', '5', '6', '7', '8', '9', 'a', 'b', 'c', 'd',
        'e', 'f'];
    let c = digits[d as usize];
    assert(c == hex_digit(d as int)) by {
        assert(digits@[d as int] == c);
    }
    c
}

/// The hash stored in an exported world: the SHA-256 of `resources_json`,
/// the compact JSON of its resources, in lowercase hexadecimal.
pub fn compute_hash(resources_json: &str) -> (r: String)
    ensures
        r@ == hex_lower(sha256(resources_json@)),
        r@.len() == 64,
{
    let digest = sha256_digest(resources_json);
    let mut out = String::new();
    let mut i: usize = 0;
    while i < digest.len()
        invariant
            i <= digest.len(),
            digest@.len() == 32,
            out@ == hex_lower(digest@.take(i as int)),
            out@.len() == 2 * i,
        decreases digest.len() - i,
    {
        let b = digest[i];
        assert(digest@.take(i + 1).drop_last() =~= digest@.take(i as int));
        out.push(hex_digit_exec(b / 16));
        out.push(hex_digit_exec(b % 16));
        i = i + 1;
    }
    assert(digest@.take(32) =~= digest@);
    out
}

} // verus!
