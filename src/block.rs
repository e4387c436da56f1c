//! Blocks: transactions sealed under a proof-of-work hash, linked to the
//! block before them.
use crate::codec::{
    enc_bytes, enc_i64, enc_len, enc_u32, lemma_le_round_trip, lemma_parse_bytes, lemma_parse_len,
    lemma_pow256_values, lemma_signed_casts, lemma_split_at, parse_bytes, parse_le, pow256,
    push_bytes, push_le, read_bytes, read_num,
};
use crate::error::LedgerError;
use crate::proofofwork::{
    first_valid_nonce, header_hash, header_of, meets_target, no_valid_nonce, pow_valid, ProofOfWork,
};
use crate::transaction::{enc_tx, lemma_parse_tx, parse_tx, tx_fits, Transaction, TxModel};
use crate::utils::{compute_sha256, sha256_of};
use vstd::prelude::*;

verus! {

#[derive(Clone, Debug)]
pub struct Block {
    /// Seconds since the epoch.
    pub time_stamp: i64,
    pub transaction: Vec<Transaction>,
    /// Empty for the genesis block only.
    pub prev_block_hash: Vec<u8>,
    pub hash: Vec<u8>,
    pub nonce: u32,
}

pub ghost struct BlockModel {
    pub time_stamp: i64,
    pub transactions: Seq<TxModel>,
    pub prev_block_hash: Seq<u8>,
    pub hash: Seq<u8>,
    pub nonce: u32,
}

pub open spec fn txs_view(v: Seq<Transaction>) -> Seq<TxModel> {
    v.map_values(|t: Transaction| t@)
}

impl View for Block {
    type V = BlockModel;

    open spec fn view(&self) -> BlockModel {
        BlockModel {
            time_stamp: self.time_stamp,
            transactions: txs_view(self.transaction@),
            prev_block_hash: self.prev_block_hash@,
            hash: self.hash@,
            nonce: self.nonce,
        }
    }
}

/// A block before mining: no hash, nonce 0.
pub open spec fn unmined(time_stamp: i64, transactions: Seq<TxModel>, prev: Seq<u8>) -> BlockModel {
    BlockModel { time_stamp, transactions, prev_block_hash: prev, hash: seq![], nonce: 0 }
}

/// The ids of the transactions, one after the other.
pub open spec fn concat_ids(txs: Seq<TxModel>) -> Seq<u8>
    decreases txs.len(),
{
    if txs.len() == 0 {
        seq![]
    } else {
        concat_ids(txs.drop_last()) + txs.last().id
    }
}

/// The digest that commits a block to its transactions.
pub open spec fn txs_digest_of(txs: Seq<TxModel>) -> Seq<u8> {
    sha256_of(concat_ids(txs))
}

pub open spec fn enc_txs(s: Seq<TxModel>) -> Seq<u8>
    decreases s.len(),
{
    if s.len() == 0 {
        seq![]
    } else {
        enc_txs(s.drop_last()) + enc_tx(s.last())
    }
}

/// A block: time stamp, transactions behind their count, previous hash,
/// hash and nonce.
pub open spec fn enc_block(m: BlockModel) -> Seq<u8> {
    enc_i64(m.time_stamp) + enc_len(m.transactions.len()) + enc_txs(m.transactions) + enc_bytes(
        m.prev_block_hash,
    ) + enc_bytes(m.hash) + enc_u32(m.nonce)
}

pub open spec fn block_fits(m: BlockModel) -> bool {
    &&& m.transactions.len() < pow256(8)
    &&& forall|i: int| 0 <= i < m.transactions.len() ==> tx_fits(#[trigger] m.transactions[i])
    &&& m.prev_block_hash.len() < pow256(8)
    &&& m.hash.len() < pow256(8)
}

pub open spec fn parse_txs(s: Seq<u8>, p: int, n: nat) -> Option<(Seq<TxModel>, int)>
    decreases n,
{
    if n == 0 {
        Some((seq![], p))
    } else {
        match parse_txs(s, p, (n - 1) as nat) {
            Some((l, q)) => match parse_tx(s, q) {
                Some((x, r)) => Some((l.push(x), r)),
                None => None,
            },
            None => None,
        }
    }
}

pub open spec fn parse_block(s: Seq<u8>, p: int) -> Option<(BlockModel, int)> {
    match parse_le(s, p, 8) {
        Some((ts, at1)) => match parse_le(s, at1, 8) {
            Some((n, at2)) => match parse_txs(s, at2, n) {
                Some((txs, at3)) => match parse_bytes(s, at3) {
                    Some((prev, at4)) => match parse_bytes(s, at4) {
                        Some((hash, at5)) => match parse_le(s, at5, 4) {
                            Some((nonce, at6)) => Some(
                                (
                                    BlockModel {
                                        time_stamp: (ts as u64) as i64,
                                        transactions: txs,
                                        prev_block_hash: prev,
                                        hash,
                                        nonce: nonce as u32,
                                    },
                                    at6,
                                ),
                            ),
                            None => None,
                        },
                        None => None,
                    },
                    None => None,
                },
                None => None,
            },
            None => None,
        },
        None => None,
    }
}

proof fn lemma_parse_txs(s: Seq<u8>, p: int, l: Seq<TxModel>)
    requires
        forall|i: int| 0 <= i < l.len() ==> tx_fits(#[trigger] l[i]),
        0 <= p,
        p + enc_txs(l).len() <= s.len(),
        s.subrange(p, p + enc_txs(l).len()) == enc_txs(l),
    ensures
        parse_txs(s, p, l.len()) == Some((l, p + enc_txs(l).len())),
    decreases l.len(),
{
    if l.len() > 0 {
        let init = l.drop_last();
        lemma_split_at(s, p, enc_txs(init), enc_tx(l.last()));
        assert forall|i: int| 0 <= i < init.len() implies tx_fits(#[trigger] init[i]) by {
            assert(init[i] == l[i]);
        }
        lemma_parse_txs(s, p, init);
        lemma_parse_tx(s, p + enc_txs(init).len(), l.last());
        assert(init.push(l.last()) =~= l);
    }
}

proof fn lemma_parse_txs_stops(s: Seq<u8>, p: int, n: nat, m: nat)
    requires
        n <= m,
        parse_txs(s, p, n) is None,
    ensures
        parse_txs(s, p, m) is None,
    decreases m,
{
    if m > n {
        lemma_parse_txs_stops(s, p, n, (m - 1) as nat);
    }
}

/// Decoding undoes encoding: a block whose lengths fit the format reads back
/// whole from its bytes.
pub proof fn lemma_block_round_trip(m: BlockModel)
    requires
        block_fits(m),
    ensures
        parse_block(enc_block(m), 0) == Some((m, enc_block(m).len() as int)),
{
    let s = enc_block(m);
    let a = enc_i64(m.time_stamp);
    let b = enc_len(m.transactions.len());
    let c = enc_txs(m.transactions);
    let d = enc_bytes(m.prev_block_hash);
    let e = enc_bytes(m.hash);
    let f = enc_u32(m.nonce);
    assert(s == ((((a + b) + c) + d) + e) + f);
    assert(s.subrange(0, s.len() as int) =~= s);
    lemma_split_at(s, 0, (((a + b) + c) + d) + e, f);
    lemma_split_at(s, 0, ((a + b) + c) + d, e);
    lemma_split_at(s, 0, (a + b) + c, d);
    lemma_split_at(s, 0, a + b, c);
    lemma_split_at(s, 0, a, b);
    lemma_pow256_values();
    lemma_le_round_trip((m.time_stamp as u64) as nat, 8);
    lemma_signed_casts(0, m.time_stamp);
    lemma_le_round_trip(m.transactions.len(), 8);
    lemma_parse_len(s, a.len() as int, m.transactions.len());
    lemma_parse_txs(s, (a.len() + b.len()) as int, m.transactions);
    lemma_parse_bytes(s, (a.len() + b.len() + c.len()) as int, m.prev_block_hash);
    lemma_parse_bytes(s, (a.len() + b.len() + c.len() + d.len()) as int, m.hash);
    lemma_le_round_trip(m.nonce as nat, 4);
}

impl Block {
    /// Mines a block of `transaction` on top of `prev_block_hash`, stamped
    /// `time_stamp`: the nonce is the first that meets the target.
    pub fn new(transaction: Vec<Transaction>, prev_block_hash: Vec<u8>, time_stamp: i64) -> (r:
        Result<Block, LedgerError>)
        ensures
            match r {
                Ok(b) => {
                    &&& b@.time_stamp == time_stamp
                    &&& b@.transactions == txs_view(transaction@)
                    &&& b@.prev_block_hash == prev_block_hash@
                    &&& first_valid_nonce(b@, b@.nonce)
                    &&& b@.hash == header_hash(b@, b@.nonce)
                    &&& b@.hash.len() == 32
                    &&& pow_valid(b@)
                },
                Err(e) => e == LedgerError::ProofOfWorkExhausted && no_valid_nonce(
                    unmined(time_stamp, txs_view(transaction@), prev_block_hash@),
                ),
            },
    {
        let mut block = Block {
            time_stamp,
            transaction,
            prev_block_hash,
            hash: Vec::new(),
            nonce: 0,
        };
        let found = {
            let pow = ProofOfWork::new(&block);
            pow.run()
        };
        match found {
            Ok((nonce, hash)) => {
                let ghost before = block@;
                block.nonce = nonce;
                block.hash = hash;
                assert forall|k: u32| #[trigger]
                    header_hash(block@, k) == header_hash(before, k) by {
                    assert(header_of(block@, k) == header_of(before, k));
                }
                assert(meets_target(header_hash(block@, nonce)));
                assert(pow_valid(block@));
                Ok(block)
            },
            Err(e) => {
                let ghost m = BlockModel {
                    time_stamp,
                    transactions: block@.transactions,
                    prev_block_hash: block@.prev_block_hash,
                    hash: seq![],
                    nonce: 0,
                };
                assert(block@ =~= m);
                Err(e)
            },
        }
    }

    /// The first block of a chain: it has no predecessor.
    pub fn new_genesis_block(coinbase: Vec<Transaction>, time_stamp: i64) -> (r: Result<Block, LedgerError>)
        ensures
            match r {
                Ok(b) => {
                    &&& b@.time_stamp == time_stamp
                    &&& b@.transactions == txs_view(coinbase@)
                    &&& b@.prev_block_hash.len() == 0
                    &&& first_valid_nonce(b@, b@.nonce)
                    &&& b@.hash == header_hash(b@, b@.nonce)
                    &&& b@.hash.len() == 32
                    &&& pow_valid(b@)
                },
                Err(e) => e == LedgerError::ProofOfWorkExhausted && no_valid_nonce(
                    unmined(time_stamp, txs_view(coinbase@), seq![]),
                ),
            },
    {
        Block::new(coinbase, Vec::new(), time_stamp)
    }

    /// The digest of the transactions' ids, one after the other.
    pub fn hash_transaction(&self) -> (r: Vec<u8>)
        ensures
            r@ == txs_digest_of(self@.transactions),
            r@.len() == 32,
    {
        let mut tx_hashes: Vec<u8> = Vec::new();
        let mut i: usize = 0;
        while i < self.transaction.len()
            invariant
                i <= self.transaction@.len(),
                tx_hashes@ == concat_ids(self@.transactions.take(i as int)),
            decreases self.transaction@.len() - i,
        {
            let ghost t = self@.transactions.take(i + 1);
            assert(t.drop_last() =~= self@.transactions.take(i as int));
            crate::codec::push_slice(&mut tx_hashes, self.transaction[i].id.as_slice());
            i = i + 1;
        }
        assert(self@.transactions.take(i as int) =~= self@.transactions);
        compute_sha256(tx_hashes.as_slice())
    }

    /// The block's bytes in the ledger's binary format.
    pub fn serialize(&self) -> (r: Vec<u8>)
        ensures
            r@ == enc_block(self@),
            block_fits(self@),
    {
        proof {
            lemma_pow256_values();
        }
        let mut out: Vec<u8> = Vec::new();
        push_le(&mut out, self.time_stamp as u64, 8);
        push_le(&mut out, self.transaction.len() as u64, 8);
        let ghost mid = out@;
        let mut i: usize = 0;
        while i < self.transaction.len()
            invariant
                i <= self.transaction@.len(),
                out@ == mid + enc_txs(self@.transactions.take(i as int)),
                forall|j: int| 0 <= j < i ==> tx_fits(#[trigger] self@.transactions[j]),
            decreases self.transaction@.len() - i,
        {
            self.transaction[i].encode(&mut out);
            let ghost t = self@.transactions.take(i + 1);
            assert(t.drop_last() =~= self@.transactions.take(i as int));
            i = i + 1;
        }
        assert(self@.transactions.take(i as int) =~= self@.transactions);
        push_bytes(&mut out, self.prev_block_hash.as_slice());
        push_bytes(&mut out, self.hash.as_slice());
        push_le(&mut out, self.nonce as u64, 4);
        assert(out@ =~= enc_block(self@));
        out
    }

    /// Reads a block from the start of `bytes`; `None` where they do not hold one.
    pub fn deserialize(bytes: &Vec<u8>) -> (r: Option<Block>)
        ensures
            match r {
                Some(b) => parse_block(bytes@, 0) matches Some((m, _)) && m == b@,
                None => parse_block(bytes@, 0) is None,
            },
    {
        let (ts, at1) = match read_num(bytes, 0, 8) {
            Some(x) => x,
            None => return None,
        };
        let (n, at2) = match read_num(bytes, at1, 8) {
            Some(x) => x,
            None => return None,
        };
        let mut txs: Vec<Transaction> = Vec::new();
        let mut p: usize = at2;
        let mut i: u64 = 0;
        while i < n
            invariant
                i <= n,
                parse_le(bytes@, 0, 8) == Some((ts as nat, at1 as int)),
                parse_le(bytes@, at1 as int, 8) == Some((n as nat, at2 as int)),
                parse_txs(bytes@, at2 as int, i as nat) == Some((txs_view(txs@), p as int)),
            decreases n - i,
        {
            match Transaction::decode(bytes, p) {
                Some((x, q)) => {
                    txs.push(x);
                    assert(txs_view(txs@) =~= txs_view(txs@).drop_last().push(x@));
                    p = q;
                },
                None => {
                    proof {
                        lemma_parse_txs_stops(bytes@, at2 as int, (i + 1) as nat, n as nat);
                    }
                    return None;
                },
            }
            i = i + 1;
        }
        let (prev, at4) = match read_bytes(bytes, p) {
            Some(x) => x,
            None => return None,
        };
        let (hash, at5) = match read_bytes(bytes, at4) {
            Some(x) => x,
            None => return None,
        };
        let (nonce, _at6) = match read_num(bytes, at5, 4) {
            Some(x) => x,
            None => return None,
        };
        proof {
            lemma_pow256_values();
        }
        Some(
            Block {
                time_stamp: ts as i64,
                transaction: txs,
                prev_block_hash: prev,
                hash,
                nonce: nonce as u32,
            },
        )
    }
}

} // verus!
