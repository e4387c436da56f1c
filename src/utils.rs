//! Digests and hexadecimal text.
use sha2::{Digest, Sha256};
use vstd::prelude::*;

verus! {

/// The SHA-256 digest of a byte sequence.
pub uninterp spec fn sha256_of(data: Seq<u8>) -> Seq<u8>;

/// Relies on sha2's `Sha256` (update, then finalize): the digest of `data`,
/// which is always 32 bytes long.
#[verifier::external_body]
pub fn compute_sha256(data: &[u8]) -> (r: Vec<u8>)
    ensures
        r@ == sha256_of(data@),
        r@.len() == 32,
{
    let mut hasher = Sha256::new();
    hasher.update(data);
    hasher.finalize().to_vec()
}

/// The lower-case hexadecimal digit for a value below 16.
pub open spec fn hex_digit(n: int) -> char {
    if n < 10 {
        (48 + n) as char
    } else {
        (87 + n) as char
    }
}

/// Two lower-case hexadecimal digits per byte, most significant first.
pub open spec fn hex_of(b: Seq<u8>) -> Seq<char>
    decreases b.len(),
{
    if b.len() == 0 {
        seq![]
    } else {
        hex_of(b.drop_last()) + seq![hex_digit(b.last() as int / 16), hex_digit(b.last() as int % 16)]
    }
}

pub open spec fn is_hex_char(c: char) -> bool {
    ||| 48 <= c as int <= 57
    ||| 97 <= c as int <= 102
    ||| 65 <= c as int <= 70
}

/// The value of a hexadecimal digit of either case.
pub open spec fn hex_val(c: char) -> int {
    if 48 <= c as int <= 57 {
        c as int - 48
    } else if 97 <= c as int <= 102 {
        c as int - 87
    } else {
        c as int - 55
    }
}

/// Text that decodes as hexadecimal: an even number of hexadecimal digits.
pub open spec fn is_hex(s: Seq<char>) -> bool {
    &&& s.len() % 2 == 0
    &&& forall|i: int| 0 <= i < s.len() ==> is_hex_char(#[trigger] s[i])
}

/// The bytes that hexadecimal text stands for, one per pair of digits.
pub open spec fn unhex(s: Seq<char>) -> Seq<u8>
    decreases s.len(),
{
    if s.len() < 2 {
        seq![]
    } else {
        unhex(s.subrange(0, s.len() - 2)) + seq![
            (hex_val(s[s.len() - 2]) * 16 + hex_val(s[s.len() - 1])) as u8,
        ]
    }
}

/// Relies on hex::encode: two lower-case digits for each byte, in order.
#[verifier::external_body]
pub fn hex_string(vec: &Vec<u8>) -> (r: String)
    ensures
        r@ == hex_of(vec@),
{
    hex::encode(vec)
}

/// Relies on hex::decode: text of an even number of digits of either case
/// decodes pair by pair; any other text is refused, and gives no bytes here.
#[verifier::external_body]
pub fn string_hex(s: &String) -> (r: Vec<u8>)
    ensures
        is_hex(s@) ==> r@ == unhex(s@),
        !is_hex(s@) ==> r@ == Seq::<u8>::empty(),
{
    match hex::decode(s) {
        Ok(data) => data,
        Err(_) => Vec::new(),
    }
}

proof fn lemma_hex_digit(n: int)
    requires
        0 <= n < 16,
    ensures
        is_hex_char(hex_digit(n)),
        hex_val(hex_digit(n)) == n,
{
}

/// Hexadecimal text of bytes is twice as long, valid, and decodes to them.
pub proof fn lemma_hex_round_trip(b: Seq<u8>)
    ensures
        hex_of(b).len() == 2 * b.len(),
        is_hex(hex_of(b)),
        unhex(hex_of(b)) == b,
    decreases b.len(),
{
    if b.len() > 0 {
        let p = b.drop_last();
        let x = b.last() as int;
        lemma_hex_round_trip(p);
        lemma_hex_digit(x / 16);
        lemma_hex_digit(x % 16);
        let h = hex_of(b);
        assert(h == hex_of(p) + seq![hex_digit(x / 16), hex_digit(x % 16)]);
        assert(h.subrange(0, h.len() - 2) =~= hex_of(p));
        assert forall|i: int| 0 <= i < h.len() implies is_hex_char(#[trigger] h[i]) by {
            if i < hex_of(p).len() {
                assert(h[i] == hex_of(p)[i]);
            }
        }
        assert(unhex(h) =~= b);
    }
}

} // verus!
