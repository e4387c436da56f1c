//! The proof-of-work puzzle: a nonce that brings the digest of a block's
//! header under a fixed target.
use crate::block::{txs_digest_of, Block, BlockModel};
use crate::codec::{le_bytes, push_le, push_slice};
use crate::error::LedgerError;
use crate::utils::{compute_sha256, sha256_of};
use num_bigint::BigUint;
use vstd::prelude::*;

verus! {

/// The difficulty: a header digest must be below 2^(256 - TARGET_BITS).
pub const TARGET_BITS: u16 = 3;

/// Nonces are tried from 0 up to, not including, this bound.
pub const MAX_NONCE: u32 = 0xffff_ffff;

pub open spec fn pow2(n: nat) -> nat
    decreases n,
{
    if n == 0 {
        1
    } else {
        2 * pow2((n - 1) as nat)
    }
}

/// The number that bytes stand for, most significant first.
pub open spec fn be_value(s: Seq<u8>) -> nat
    decreases s.len(),
{
    if s.len() == 0 {
        0
    } else {
        be_value(s.drop_last()) * 256 + s.last() as nat
    }
}

/// A digest meets the target when, read as a big-endian number, it is below
/// 2^(256 - TARGET_BITS).
pub open spec fn meets_target(h: Seq<u8>) -> bool {
    be_value(h) < pow2((256 - TARGET_BITS) as nat)
}

/// The bytes that are hashed for a block and a nonce: previous hash,
/// transactions digest, time stamp, difficulty and nonce, the numbers
/// little-endian.
pub open spec fn header_of(m: BlockModel, nonce: u32) -> Seq<u8> {
    m.prev_block_hash + txs_digest_of(m.transactions) + le_bytes((m.time_stamp as u64) as nat, 8)
        + le_bytes(TARGET_BITS as nat, 2) + le_bytes(nonce as nat, 4)
}

pub open spec fn header_hash(m: BlockModel, nonce: u32) -> Seq<u8> {
    sha256_of(header_of(m, nonce))
}

/// The block's own nonce makes its header meet the target.
pub open spec fn pow_valid(m: BlockModel) -> bool {
    meets_target(header_hash(m, m.nonce))
}

/// `n` is the first nonce, counting from 0, that meets the target for `m`.
pub open spec fn first_valid_nonce(m: BlockModel, n: u32) -> bool {
    &&& n < MAX_NONCE
    &&& meets_target(header_hash(m, n))
    &&& forall|k: u32| k < n ==> !meets_target(#[trigger] header_hash(m, k))
}

/// No nonce below `MAX_NONCE` makes the header of `m` meet the target.
pub open spec fn no_valid_nonce(m: BlockModel) -> bool {
    forall|k: u32| k < MAX_NONCE ==> !meets_target(#[trigger] header_hash(m, k))
}

/// Relies on num_bigint's BigUint: `from_bytes_be` reads bytes as a
/// big-endian number, `1 << exp` is 2^exp, and `<` compares the numbers.
#[verifier::external_body]
fn be_below_pow2(bytes: &[u8], exp: usize) -> (r: bool)
    ensures
        r == (be_value(bytes@) < pow2(exp as nat)),
{
    BigUint::from_bytes_be(bytes) < (BigUint::from(1u32) << exp)
}

pub struct ProofOfWork<'a> {
    block: &'a Block,
}

impl<'a> ProofOfWork<'a> {
    pub fn new(block: &'a Block) -> (r: Self)
        ensures
            r.block() == block,
    {
        ProofOfWork { block }
    }

    pub closed spec fn block(&self) -> &'a Block {
        self.block
    }

    fn prepare_data(&self, nonce: u32) -> (r: Vec<u8>)
        ensures
            r@ == header_of(self.block@, nonce),
    {
        let mut data: Vec<u8> = Vec::new();
        push_slice(&mut data, self.block.prev_block_hash.as_slice());
        let digest = self.block.hash_transaction();
        push_slice(&mut data, digest.as_slice());
        push_le(&mut data, self.block.time_stamp as u64, 8);
        push_le(&mut data, TARGET_BITS as u64, 2);
        push_le(&mut data, nonce as u64, 4);
        data
    }

    /// Tries nonces from 0 upward and returns the first that meets the
    /// target, with the header digest that it gives.
    pub fn run(&self) -> (r: Result<(u32, Vec<u8>), LedgerError>)
        ensures
            match r {
                Ok((nonce, hash)) => first_valid_nonce(self.block()@, nonce) && hash@ == header_hash(
                    self.block()@,
                    nonce,
                ) && hash@.len() == 32,
                Err(e) => e == LedgerError::ProofOfWorkExhausted && no_valid_nonce(self.block()@),
            },
    {
        let exp: usize = (256 - TARGET_BITS) as usize;
        let mut nonce: u32 = 0;
        while nonce < MAX_NONCE
            invariant
                exp == 256 - TARGET_BITS,
                forall|k: u32| k < nonce ==> !meets_target(#[trigger] header_hash(self.block@, k)),
            decreases MAX_NONCE - nonce,
        {
            let data = self.prepare_data(nonce);
            let hash = compute_sha256(data.as_slice());
            if be_below_pow2(hash.as_slice(), exp) {
                return Ok((nonce, hash));
            }
            nonce = nonce + 1;
        }
        Err(LedgerError::ProofOfWorkExhausted)
    }

    /// The digest of the block's header with its own nonce.
    pub fn header_digest(&self) -> (r: Vec<u8>)
        ensures
            r@ == header_hash(self.block()@, self.block()@.nonce),
    {
        let data = self.prepare_data(self.block.nonce);
        compute_sha256(data.as_slice())
    }

    /// Whether the block's own nonce makes its header meet the target.
    pub fn validate(&self) -> (r: bool)
        ensures
            r == pow_valid(self.block()@),
    {
        let data = self.prepare_data(self.block.nonce);
        let hash = compute_sha256(data.as_slice());
        be_below_pow2(hash.as_slice(), (256 - TARGET_BITS) as usize)
    }
}

} // verus!
