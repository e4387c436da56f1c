//! Byte-level pieces of the binary format: little-endian integers, and byte
//! strings and text behind a 64-bit length.
use vstd::prelude::*;
use vstd::utf8::*;

verus! {

pub open spec fn pow256(k: nat) -> nat
    decreases k,
{
    if k == 0 {
        1
    } else {
        256 * pow256((k - 1) as nat)
    }
}

/// The `k` least significant bytes of `n`, least significant first.
pub open spec fn le_bytes(n: nat, k: nat) -> Seq<u8>
    decreases k,
{
    if k == 0 {
        seq![]
    } else {
        seq![(n % 256) as u8] + le_bytes(n / 256, (k - 1) as nat)
    }
}

/// The number that bytes stand for, least significant first.
pub open spec fn le_value(s: Seq<u8>) -> nat
    decreases s.len(),
{
    if s.len() == 0 {
        0
    } else {
        s[0] as nat + 256 * le_value(s.drop_first())
    }
}

/// A length or a count, as eight bytes.
pub open spec fn enc_len(n: nat) -> Seq<u8> {
    le_bytes(n, 8)
}

pub open spec fn enc_u32(n: u32) -> Seq<u8> {
    le_bytes(n as nat, 4)
}

/// A signed integer in two's complement.
pub open spec fn enc_i32(n: i32) -> Seq<u8> {
    le_bytes((n as u32) as nat, 4)
}

pub open spec fn enc_i64(n: i64) -> Seq<u8> {
    le_bytes((n as u64) as nat, 8)
}

/// A byte string behind its length.
pub open spec fn enc_bytes(s: Seq<u8>) -> Seq<u8> {
    enc_len(s.len()) + s
}

/// Text as its UTF-8 bytes behind their length.
pub open spec fn enc_str(s: Seq<char>) -> Seq<u8> {
    enc_bytes(encode_utf8(s))
}

/// Reads `k` bytes at `p` as a little-endian number.
pub open spec fn parse_le(s: Seq<u8>, p: int, k: nat) -> Option<(nat, int)> {
    if 0 <= p && p + k <= s.len() {
        Some((le_value(s.subrange(p, p + k)), p + k))
    } else {
        None
    }
}

pub open spec fn parse_bytes(s: Seq<u8>, p: int) -> Option<(Seq<u8>, int)> {
    match parse_le(s, p, 8) {
        Some((n, q)) => if q + n <= s.len() {
            Some((s.subrange(q, q + n), q + n))
        } else {
            None
        },
        None => None,
    }
}

pub open spec fn parse_str(s: Seq<u8>, p: int) -> Option<(Seq<char>, int)> {
    match parse_bytes(s, p) {
        Some((b, q)) => if valid_utf8(b) {
            Some((decode_utf8(b), q))
        } else {
            None
        },
        None => None,
    }
}

pub proof fn lemma_pow256_mono(a: nat, b: nat)
    requires
        a <= b,
    ensures
        1 <= pow256(a) <= pow256(b),
    decreases b,
{
    if b > a {
        lemma_pow256_mono(a, (b - 1) as nat);
    } else if a > 0 {
        lemma_pow256_mono((a - 1) as nat, (a - 1) as nat);
    }
}

pub proof fn lemma_pow256_values()
    ensures
        pow256(4) == 0x1_0000_0000,
        pow256(8) == 0x1_0000_0000_0000_0000,
{
    reveal_with_fuel(pow256, 9);
}

pub proof fn lemma_le_round_trip(n: nat, k: nat)
    requires
        n < pow256(k),
    ensures
        le_bytes(n, k).len() == k,
        le_value(le_bytes(n, k)) == n,
    decreases k,
{
    if k > 0 {
        let q = n / 256;
        let p = pow256((k - 1) as nat);
        assert(q < p) by (nonlinear_arith)
            requires
                n < 256 * p,
                q == n / 256,
        ;
        lemma_le_round_trip(q, (k - 1) as nat);
        let s = le_bytes(n, k);
        assert(s.drop_first() =~= le_bytes(q, (k - 1) as nat));
        assert(n == n % 256 + 256 * q) by (nonlinear_arith)
            requires
                q == n / 256,
        ;
    }
}

/// Bytes that start where a piece was written read back as that piece.
pub proof fn lemma_split_at(s: Seq<u8>, p: int, a: Seq<u8>, b: Seq<u8>)
    requires
        0 <= p,
        p + a.len() + b.len() <= s.len(),
        s.subrange(p, p + a.len() + b.len()) == a + b,
    ensures
        s.subrange(p, p + a.len()) == a,
        s.subrange(p + a.len(), p + a.len() + b.len()) == b,
{
    let t = s.subrange(p, p + a.len() + b.len());
    assert(s.subrange(p, p + a.len()) =~= t.subrange(0, a.len() as int));
    assert(s.subrange(p + a.len(), p + a.len() + b.len()) =~= t.subrange(
        a.len() as int,
        t.len() as int,
    ));
    assert((a + b).subrange(0, a.len() as int) =~= a);
    assert((a + b).subrange(a.len() as int, (a + b).len() as int) =~= b);
}

pub proof fn lemma_parse_len(s: Seq<u8>, p: int, n: nat)
    requires
        n < pow256(8),
        0 <= p,
        p + 8 <= s.len(),
        s.subrange(p, p + 8) == enc_len(n),
    ensures
        parse_le(s, p, 8) == Some((n, p + 8)),
{
    lemma_le_round_trip(n, 8);
}

pub proof fn lemma_parse_bytes(s: Seq<u8>, p: int, b: Seq<u8>)
    requires
        b.len() < pow256(8),
        0 <= p,
        p + enc_bytes(b).len() <= s.len(),
        s.subrange(p, p + enc_bytes(b).len()) == enc_bytes(b),
    ensures
        enc_bytes(b).len() == 8 + b.len(),
        parse_bytes(s, p) == Some((b, p + 8 + b.len())),
{
    lemma_le_round_trip(b.len(), 8);
    lemma_split_at(s, p, enc_len(b.len()), b);
    lemma_parse_len(s, p, b.len());
}

pub proof fn lemma_parse_str(s: Seq<u8>, p: int, c: Seq<char>)
    requires
        encode_utf8(c).len() < pow256(8),
        0 <= p,
        p + enc_str(c).len() <= s.len(),
        s.subrange(p, p + enc_str(c).len()) == enc_str(c),
    ensures
        enc_str(c).len() == 8 + encode_utf8(c).len(),
        parse_str(s, p) == Some((c, p + enc_str(c).len())),
{
    lemma_parse_bytes(s, p, encode_utf8(c));
    encode_utf8_valid_utf8(c);
    encode_utf8_decode_utf8(c);
}

/// Appends the `k` least significant bytes of `n`, least significant first.
pub fn push_le(out: &mut Vec<u8>, n: u64, k: usize)
    ensures
        final(out)@ == old(out)@ + le_bytes(n as nat, k as nat),
{
    let mut m: u64 = n;
    let mut i: usize = 0;
    while i < k
        invariant
            i <= k,
            out@ + le_bytes(m as nat, (k - i) as nat) == old(out)@ + le_bytes(n as nat, k as nat),
        decreases k - i,
    {
        let ghost before = out@;
        let ghost rest = le_bytes((m / 256) as nat, (k - i - 1) as nat);
        assert(le_bytes(m as nat, (k - i) as nat) == seq![(m % 256) as u8] + rest);
        out.push((m % 256) as u8);
        assert(out@ + rest =~= before + (seq![(m % 256) as u8] + rest));
        m = m / 256;
        i = i + 1;
    }
    assert(out@ =~= out@ + le_bytes(m as nat, 0));
}

/// Reads `k` bytes at `pos` as a little-endian number.
pub fn read_le(b: &Vec<u8>, pos: usize, k: usize) -> (r: u64)
    requires
        k <= 8,
        pos + k <= b@.len(),
    ensures
        r as nat == le_value(b@.subrange(pos as int, pos + k)),
        (r as nat) < pow256(k as nat),
{
    let mut v: u64 = 0;
    let mut i: usize = k;
    proof {
        lemma_pow256_values();
    }
    assert(b@.subrange(pos + k, pos + k) =~= Seq::<u8>::empty());
    while i > 0
        invariant
            i <= k <= 8,
            pos + k <= b.len(),
            v as nat == le_value(b@.subrange(pos + i, pos + k)),
            (v as nat) < pow256((k - i) as nat),
            pow256(8) == 0x1_0000_0000_0000_0000,
        decreases i,
    {
        i = i - 1;
        let byte = b[pos + i];
        let ghost sub = b@.subrange(pos + i, pos + k);
        assert(sub.drop_first() =~= b@.subrange(pos + i + 1, pos + k));
        assert(sub[0] == byte);
        proof {
            lemma_pow256_mono((k - i) as nat, 8);
            let p = pow256((k - i - 1) as nat);
            assert(v * 256 + byte < 256 * p) by (nonlinear_arith)
                requires
                    v < p,
                    byte < 256,
            ;
        }
        v = v * 256 + byte as u64;
    }
    v
}

/// Appends the bytes of a slice.
pub fn push_slice(out: &mut Vec<u8>, s: &[u8])
    ensures
        final(out)@ == old(out)@ + s@,
{
    let mut i: usize = 0;
    while i < s.len()
        invariant
            i <= s@.len(),
            out@ == old(out)@ + s@.subrange(0, i as int),
        decreases s@.len() - i,
    {
        out.push(s[i]);
        assert(s@.subrange(0, i + 1) =~= s@.subrange(0, i as int).push(s@[i as int]));
        i = i + 1;
    }
    assert(s@.subrange(0, i as int) =~= s@);
}

/// Appends a byte string behind its length.
pub fn push_bytes(out: &mut Vec<u8>, s: &[u8])
    ensures
        final(out)@ == old(out)@ + enc_bytes(s@),
        s@.len() < pow256(8),
{
    proof {
        lemma_pow256_values();
    }
    push_le(out, s.len() as u64, 8);
    push_slice(out, s);
    assert(final(out)@ =~= old(out)@ + enc_bytes(s@));
}

/// Appends text as its UTF-8 bytes behind their length.
pub fn push_str(out: &mut Vec<u8>, s: &str)
    ensures
        final(out)@ == old(out)@ + enc_str(s@),
        encode_utf8(s@).len() < pow256(8),
{
    push_bytes(out, s.as_bytes());
}

/// Relies on String::from_utf8: it accepts exactly the valid UTF-8 byte
/// sequences, and the text holds the characters that they encode.
#[verifier::external_body]
fn string_from_utf8(v: Vec<u8>) -> (r: Option<String>)
    ensures
        r is Some <==> valid_utf8(v@),
        r matches Some(t) ==> t@ == decode_utf8(v@),
{
    String::from_utf8(v).ok()
}

/// Reads a little-endian number of `k` bytes at `pos`, if they are there.
pub fn read_num(b: &Vec<u8>, pos: usize, k: usize) -> (r: Option<(u64, usize)>)
    requires
        k <= 8,
    ensures
        match r {
            Some((v, q)) => parse_le(b@, pos as int, k as nat) == Some((v as nat, q as int))
                && (v as nat) < pow256(k as nat),
            None => parse_le(b@, pos as int, k as nat) is None,
        },
{
    if pos <= b.len() && k <= b.len() - pos {
        let v = read_le(b, pos, k);
        Some((v, pos + k))
    } else {
        None
    }
}

/// Reads a byte string behind its length at `pos`.
pub fn read_bytes(b: &Vec<u8>, pos: usize) -> (r: Option<(Vec<u8>, usize)>)
    ensures
        match r {
            Some((v, q)) => parse_bytes(b@, pos as int) == Some((v@, q as int)),
            None => parse_bytes(b@, pos as int) is None,
        },
{
    let (n, start) = match read_num(b, pos, 8) {
        Some(x) => x,
        None => return None,
    };
    if n > (b.len() - start) as u64 {
        return None;
    }
    let n = n as usize;
    let mut v: Vec<u8> = Vec::new();
    let mut i: usize = 0;
    while i < n
        invariant
            start + n <= b.len(),
            i <= n,
            v@ == b@.subrange(start as int, start + i),
        decreases n - i,
    {
        v.push(b[start + i]);
        assert(b@.subrange(start as int, start + i + 1) =~= b@.subrange(
            start as int,
            start + i,
        ).push(b@[start + i]));
        i = i + 1;
    }
    Some((v, start + n))
}

/// Reads text behind its byte length at `pos`.
pub fn read_string(b: &Vec<u8>, pos: usize) -> (r: Option<(String, usize)>)
    ensures
        match r {
            Some((t, q)) => parse_str(b@, pos as int) == Some((t@, q as int)),
            None => parse_str(b@, pos as int) is None,
        },
{
    let (v, q) = match read_bytes(b, pos) {
        Some(x) => x,
        None => return None,
    };
    match string_from_utf8(v) {
        Some(t) => Some((t, q)),
        None => None,
    }
}

pub proof fn lemma_signed_casts(a: i32, b: i64)
    ensures
        ((a as u32) as i32) == a,
        ((b as u64) as i64) == b,
{
    assert(((a as u32) as i32) == a) by (bit_vector);
    assert(((b as u64) as i64) == b) by (bit_vector);
}

} // verus!
