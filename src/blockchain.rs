//! The ledger: a chain of blocks kept in a store, walked from the tip back to
//! the genesis block.
use crate::bcdb::{bytes_eq, copy_bytes, BlockchainDb};
use crate::block::{block_fits, lemma_block_round_trip, parse_block, txs_view, unmined, Block, BlockModel};
use crate::error::LedgerError;
use crate::proofofwork::{first_valid_nonce, header_hash, no_valid_nonce, pow_valid, ProofOfWork};
use crate::transaction::{new_coinbase_tx, tx_id_of, InputModel, OutputModel, Transaction, TxModel};
use vstd::prelude::*;

verus! {

/// The text of the genesis block's coinbase input.
pub const GENESIS_COINBASE_DATA: &'static str =
    "The Times 03/Jan/2009 Chancellor on brink of second bailout for banks";

/// The key under which the store keeps the hash of the tip: the byte `l`.
pub open spec fn tip_key() -> Seq<u8> {
    seq![108u8]
}

fn tip_key_bytes() -> (r: Vec<u8>)
    ensures
        r@ == tip_key(),
{
    let mut k: Vec<u8> = Vec::new();
    k.push(108u8);
    assert(k@ =~= tip_key());
    k
}

/// A block entry: a 32-byte key, and a value that decodes to a block whose
/// hash is that key and which meets the proof-of-work target.
pub open spec fn entry_ok(k: Seq<u8>, v: Seq<u8>) -> bool {
    &&& k.len() == 32
    &&& parse_block(v, 0) matches Some((b, _)) && block_ok(k, b)
}

/// A block that may stand under key `k`: its hash is `k` and the digest of
/// its header, it meets the target, and it names no predecessor or a 32-byte one.
pub open spec fn block_ok(k: Seq<u8>, b: BlockModel) -> bool {
    &&& b.hash == k
    &&& b.hash == header_hash(b, b.nonce)
    &&& pow_valid(b)
    &&& b.prev_block_hash.len() == 0 || b.prev_block_hash.len() == 32
}

/// Every key but the tip's holds a sound block entry.
pub open spec fn store_ok(m: Map<Seq<u8>, Seq<u8>>) -> bool {
    forall|k: Seq<u8>| #[trigger] m.contains_key(k) && k != tip_key() ==> entry_ok(k, m[k])
}

/// A store that holds a chain whose tip is `tip`.
pub open spec fn ledger_ok(m: Map<Seq<u8>, Seq<u8>>, tip: Seq<u8>) -> bool {
    &&& m.contains_key(tip_key())
    &&& m[tip_key()] == tip
    &&& tip != tip_key()
    &&& m.contains_key(tip)
    &&& store_ok(m)
}

/// The store names a tip that is a stored block which misses the
/// proof-of-work target.
pub open spec fn tip_fails_target(m: Map<Seq<u8>, Seq<u8>>) -> bool {
    let t = m[tip_key()];
    &&& t != tip_key()
    &&& m.contains_key(t)
    &&& parse_block(m[t], 0) matches Some((b, _)) && !pow_valid(b)
}

/// The blocks met walking back from `h`, newest first, taking at most `fuel`
/// steps; `None` where a block is missing or does not decode, or the walk
/// does not reach a block without predecessor.
pub open spec fn chain_from(m: Map<Seq<u8>, Seq<u8>>, h: Seq<u8>, fuel: nat) -> Option<
    Seq<BlockModel>,
>
    decreases fuel,
{
    if fuel == 0 || !m.contains_key(h) {
        None
    } else {
        match parse_block(m[h], 0) {
            Some((b, _)) => if b.prev_block_hash.len() == 0 {
                Some(seq![b])
            } else {
                prepend(b, chain_from(m, b.prev_block_hash, (fuel - 1) as nat))
            },
            None => None,
        }
    }
}

pub open spec fn prepend(b: BlockModel, rest: Option<Seq<BlockModel>>) -> Option<Seq<BlockModel>> {
    match rest {
        Some(s) => Some(seq![b] + s),
        None => None,
    }
}

/// The chain of a store: the walk from its tip, with as many steps as the
/// store has keys.
pub open spec fn chain_of(m: Map<Seq<u8>, Seq<u8>>) -> Option<Seq<BlockModel>> {
    chain_from(m, m[tip_key()], m.dom().len())
}

pub open spec fn blocks_view(v: Seq<Block>) -> Seq<BlockModel> {
    v.map_values(|b: Block| b@)
}

/// The coinbase transaction of the genesis block of a ledger started for
/// `address`.
pub open spec fn genesis_coinbase(address: Seq<char>) -> TxModel {
    let vin = seq![InputModel { txid: seq![], vout: -1i32, script_sig: GENESIS_COINBASE_DATA@ }];
    let vout = seq![OutputModel { value: crate::transaction::SUBSIDY, script_pub_key: address }];
    TxModel { id: tx_id_of(vin, vout), vin, vout }
}

/// The genesis block of a ledger started for `address` at `time_stamp`.
pub open spec fn is_genesis_for(g: BlockModel, address: Seq<char>, time_stamp: i64) -> bool {
    &&& g.time_stamp == time_stamp
    &&& g.prev_block_hash.len() == 0
    &&& g.transactions == seq![genesis_coinbase(address)]
    &&& first_valid_nonce(g, g.nonce)
    &&& g.hash == header_hash(g, g.nonce)
    &&& g.hash.len() == 32
    &&& block_fits(g)
}

/// `b` is the block that mining `transactions` at `time_stamp` on top of
/// `tip` gives: the first nonce that meets the target, and the header digest
/// for it as its 32-byte hash.
pub open spec fn mined_onto(b: BlockModel, time_stamp: i64, transactions: Seq<TxModel>, tip: Seq<u8>) -> bool {
    &&& b.time_stamp == time_stamp
    &&& b.transactions == transactions
    &&& b.prev_block_hash == tip
    &&& first_valid_nonce(b, b.nonce)
    &&& b.hash == header_hash(b, b.nonce)
    &&& b.hash.len() == 32
    &&& block_fits(b)
}

/// `n` is `m` with block `b` stored under its hash and made the tip.
pub open spec fn appended(m: Map<Seq<u8>, Seq<u8>>, b: BlockModel, n: Map<Seq<u8>, Seq<u8>>) -> bool {
    n == m.insert(b.hash, crate::block::enc_block(b)).insert(tip_key(), b.hash)
}

/// Whether every key but the tip's holds a sound block entry.
fn check_store(db: &BlockchainDb) -> (r: bool)
    requires
        db.wf(),
    ensures
        r == store_ok(db.view()),
{
    let tkey = tip_key_bytes();
    let n = db.len();
    let mut i: usize = 0;
    while i < n
        invariant
            db.wf(),
            n == db.view().dom().len(),
            i <= n,
            tkey@ == tip_key(),
            forall|j: int|
                0 <= j < i && #[trigger] db.key_at(j) != tip_key() ==> entry_ok(
                    db.key_at(j),
                    db.view()[db.key_at(j)],
                ),
        decreases n - i,
    {
        let (key, value) = db.entry(i);
        if !bytes_eq(key.as_slice(), tkey.as_slice()) {
            if key.len() != 32 {
                return false;
            }
            match Block::deserialize(value) {
                Some(b) => {
                    if !bytes_eq(b.hash.as_slice(), key.as_slice()) {
                        return false;
                    }
                    if b.prev_block_hash.len() != 0 && b.prev_block_hash.len() != 32 {
                        return false;
                    }
                    let pow = ProofOfWork::new(&b);
                    if !pow.validate() {
                        return false;
                    }
                    let digest = pow.header_digest();
                    if !bytes_eq(b.hash.as_slice(), digest.as_slice()) {
                        return false;
                    }
                },
                None => {
                    return false;
                },
            }
        }
        i = i + 1;
    }
    proof {
        assert forall|k: Seq<u8>| #[trigger]
            db.view().contains_key(k) && k != tip_key() implies entry_ok(k, db.view()[k]) by {
            db.lemma_entries_cover(k);
            let j = choose|j: int| 0 <= j < db.view().dom().len() && #[trigger] db.key_at(j) == k;
        }
    }
    true
}

pub struct Blockchain {
    tip: Vec<u8>,
    db: BlockchainDb,
}

impl Blockchain {
    pub closed spec fn db_view(&self) -> Map<Seq<u8>, Seq<u8>> {
        self.db.view()
    }

    pub closed spec fn tip_view(&self) -> Seq<u8> {
        self.tip@
    }

    pub closed spec fn wf(&self) -> bool {
        &&& self.db.wf()
        &&& ledger_ok(self.db.view(), self.tip@)
    }

    /// The store that holds the chain.
    pub fn store(&self) -> (r: &BlockchainDb)
        requires
            self.wf(),
        ensures
            r.wf(),
            r.view() == self.db_view(),
    {
        &self.db
    }

    /// Opens the ledger that `db` holds; when it holds none, starts one whose
    /// genesis block, stamped `time_stamp`, rewards `address`.
    pub fn new(db: BlockchainDb, address: &str, time_stamp: i64) -> (r: Result<Blockchain, LedgerError>)
        requires
            db.wf(),
        ensures
            r matches Ok(bc) ==> bc.wf(),
            db.view().contains_key(tip_key()) ==> {
                &&& r is Ok <==> ledger_ok(db.view(), db.view()[tip_key()])
                &&& r matches Ok(bc) ==> bc.db_view() == db.view() && bc.tip_view() == db.view()[tip_key()]
                &&& tip_fails_target(db.view()) ==> (r matches Err(e) && e
                    == LedgerError::InvalidProofOfWork)
                &&& !tip_fails_target(db.view()) ==> (r matches Err(e) ==> e
                    == LedgerError::CorruptChain)
            },
            !db.view().contains_key(tip_key()) ==> {
                &&& address@.len() == 0 ==> r == Err::<Blockchain, LedgerError>(
                    LedgerError::NotInitialized,
                )
                &&& address@.len() > 0 && !store_ok(db.view()) ==> r == Err::<
                    Blockchain,
                    LedgerError,
                >(LedgerError::CorruptChain)
                &&& address@.len() > 0 && store_ok(db.view()) ==> match r {
                    Ok(bc) => exists|g: BlockModel|
                        is_genesis_for(g, address@, time_stamp) && bc.tip_view() == g.hash && appended(
                            db.view(),
                            g,
                            #[trigger] bc.db_view(),
                        ) && (db.view() == Map::<Seq<u8>, Seq<u8>>::empty() ==> chain_of(bc.db_view())
                            == Some(seq![g])),
                    Err(e) => e == LedgerError::ProofOfWorkExhausted && no_valid_nonce(
                        unmined(time_stamp, seq![genesis_coinbase(address@)], seq![]),
                    ),
                }
            },
    {
        let mut db = db;
        let tkey = tip_key_bytes();
        match db.read_db(tkey.as_slice()) {
            Some(last_hash) => {
                if bytes_eq(last_hash.as_slice(), tkey.as_slice()) {
                    return Err(LedgerError::CorruptChain);
                }
                let tip_bytes = match db.read_db(last_hash.as_slice()) {
                    Some(v) => v,
                    None => return Err(LedgerError::CorruptChain),
                };
                let tip_block = match Block::deserialize(&tip_bytes) {
                    Some(b) => b,
                    None => return Err(LedgerError::CorruptChain),
                };
                let tip_valid = {
                    let pow = ProofOfWork::new(&tip_block);
                    pow.validate()
                };
                if !tip_valid {
                    return Err(LedgerError::InvalidProofOfWork);
                }
                if !check_store(&db) {
                    return Err(LedgerError::CorruptChain);
                }
                Ok(Blockchain { tip: last_hash, db })
            },
            None => {
                if address.is_empty() {
                    return Err(LedgerError::NotInitialized);
                }
                if !check_store(&db) {
                    return Err(LedgerError::CorruptChain);
                }
                let coinbase = new_coinbase_tx(address, GENESIS_COINBASE_DATA);
                proof {
                    reveal_strlit(
                        "The Times 03/Jan/2009 Chancellor on brink of second bailout for banks",
                    );
                }
                let ghost cb = coinbase@;
                let mut txs: Vec<Transaction> = Vec::new();
                txs.push(coinbase);
                let ghost cbs = txs_view(txs@);
                assert(cbs =~= seq![cb]);
                let genesis = match Block::new_genesis_block(txs, time_stamp) {
                    Ok(b) => b,
                    Err(e) => {
                        assert(cb == genesis_coinbase(address@));
                        return Err(e);
                    },
                };
                assert(genesis@.transactions[0] == cb);
                let encoded = genesis.serialize();
                proof {
                    lemma_block_round_trip(genesis@);
                }
                let ghost before = db.view();
                db.write_db(genesis.hash.as_slice(), encoded.as_slice());
                db.write_db(tkey.as_slice(), genesis.hash.as_slice());
                assert(appended(before, genesis@, db.view()));
                proof {
                    lemma_append_keeps_store(before, genesis@);
                }
                assert(GENESIS_COINBASE_DATA@.len() > 0);
                assert(cb.vin[0].script_sig == GENESIS_COINBASE_DATA@);
                assert(cb == genesis_coinbase(address@));
                assert(genesis@.transactions =~= seq![genesis_coinbase(address@)]);
                assert(is_genesis_for(genesis@, address@, time_stamp));
                proof {
                    if before == Map::<Seq<u8>, Seq<u8>>::empty() {
                        lemma_genesis_chain(genesis@, db.view());
                    }
                }
                let bc = Blockchain { tip: genesis.hash, db };
                assert(appended(before, genesis@, bc.db_view()));
                Ok(bc)
            },
        }
    }

    /// Mines a block of `transaction`, stamped `time_stamp`, on top of the
    /// tip, stores it and makes it the tip.
    pub fn mine_block(&mut self, transaction: Vec<Transaction>, time_stamp: i64) -> (r: Result<(), LedgerError>)
        requires
            old(self).wf(),
        ensures
            final(self).wf(),
            match r {
                Ok(()) => exists|b: BlockModel|
                    {
                        &&& mined_onto(b, time_stamp, txs_view(transaction@), old(self).tip_view())
                        &&& !old(self).db_view().contains_key(b.hash)
                        &&& final(self).tip_view() == b.hash
                        &&& appended(old(self).db_view(), b, #[trigger] final(self).db_view())
                        &&& chain_of(old(self).db_view()) matches Some(c) ==> chain_of(
                            final(self).db_view(),
                        ) == Some(seq![b] + c)
                    },
                Err(e) => {
                    &&& final(self).db_view() == old(self).db_view()
                    &&& final(self).tip_view() == old(self).tip_view()
                    &&& e == LedgerError::ProofOfWorkExhausted && no_valid_nonce(
                        unmined(time_stamp, txs_view(transaction@), old(self).tip_view()),
                    ) || e == LedgerError::CorruptChain && exists|b: BlockModel|
                        #[trigger] mined_onto(b, time_stamp, txs_view(transaction@), old(self).tip_view())
                            && old(self).db_view().contains_key(b.hash)
                },
            },
    {
        let tkey = tip_key_bytes();
        let last_hash = match self.db.read_db(tkey.as_slice()) {
            Some(h) => h,
            None => return Err(LedgerError::CorruptChain),
        };
        let bytes = match self.db.read_db(last_hash.as_slice()) {
            Some(v) => v,
            None => return Err(LedgerError::CorruptChain),
        };
        let last_block = match Block::deserialize(&bytes) {
            Some(b) => b,
            None => return Err(LedgerError::CorruptChain),
        };
        let valid = {
            let pow = ProofOfWork::new(&last_block);
            pow.validate()
        };
        if !valid {
            return Err(LedgerError::InvalidProofOfWork);
        }
        let new_block = match Block::new(transaction, last_hash, time_stamp) {
            Ok(b) => b,
            Err(e) => return Err(e),
        };
        let encoded = new_block.serialize();
        assert(mined_onto(new_block@, time_stamp, txs_view(transaction@), old(self).tip_view()));
        if self.db.read_db(new_block.hash.as_slice()).is_some() {
            return Err(LedgerError::CorruptChain);
        }
        proof {
            lemma_block_round_trip(new_block@);
            self.db.lemma_finite();
        }
        let ghost before = self.db.view();
        self.db.write_db(new_block.hash.as_slice(), encoded.as_slice());
        self.db.write_db(tkey.as_slice(), new_block.hash.as_slice());
        assert(appended(before, new_block@, self.db.view()));
        proof {
            lemma_append_keeps_store(before, new_block@);
            if chain_of(before) is Some {
                lemma_append_extends_chain(before, old(self).tip_view(), new_block@, self.db.view());
            }
        }
        self.tip = new_block.hash;
        assert(appended(old(self).db_view(), new_block@, self.db_view()));
        Ok(())
    }
}

/// Appending a mined block keeps every entry sound and makes it the tip.
proof fn lemma_append_keeps_store(m: Map<Seq<u8>, Seq<u8>>, b: BlockModel)
    requires
        store_ok(m),
        b.hash.len() == 32,
        pow_valid(b),
        b.hash == header_hash(b, b.nonce),
        b.prev_block_hash.len() == 0 || b.prev_block_hash.len() == 32,
        parse_block(crate::block::enc_block(b), 0) matches Some((x, _)) && x == b,
    ensures
        ledger_ok(m.insert(b.hash, crate::block::enc_block(b)).insert(tip_key(), b.hash), b.hash),
{
    let n = m.insert(b.hash, crate::block::enc_block(b)).insert(tip_key(), b.hash);
    assert(b.hash != tip_key());
    assert forall|k: Seq<u8>| #[trigger] n.contains_key(k) && k != tip_key() implies entry_ok(
        k,
        n[k],
    ) by {
        if k != b.hash {
            assert(m.contains_key(k));
        }
    }
}

/// `p` followed by the blocks of `rest`, if there are any.
pub open spec fn prefixed(p: Seq<BlockModel>, rest: Option<Seq<BlockModel>>) -> Option<Seq<BlockModel>> {
    match rest {
        Some(s) => Some(p + s),
        None => None,
    }
}

/// Walks a store backward, one block at a time, from a hash.
pub struct BlockchainIterator<'a> {
    prev_block_hash: Vec<u8>,
    db: &'a BlockchainDb,
    fuel: usize,
    done: bool,
}

impl<'a> BlockchainIterator<'a> {
    /// The hash under which the next block is looked up.
    pub closed spec fn current(&self) -> Seq<u8> {
        self.prev_block_hash@
    }

    /// Whether the genesis block has been handed out.
    pub closed spec fn finished(&self) -> bool {
        self.done
    }

    /// How many more blocks the walk may take.
    pub closed spec fn fuel_left(&self) -> nat {
        self.fuel as nat
    }

    /// The blocks that are still to come, or `None` where the walk breaks.
    pub open spec fn remaining(&self) -> Option<Seq<BlockModel>> {
        if self.finished() {
            Some(seq![])
        } else {
            chain_from(self.store().view(), self.current(), self.fuel_left())
        }
    }

    /// What the next step yields: `None` where it breaks, `Some(None)` after
    /// the genesis block, else the block stored under the current hash.
    pub open spec fn step(&self) -> Option<Option<BlockModel>> {
        if self.finished() {
            Some(None)
        } else if self.fuel_left() == 0 || !self.store().view().contains_key(self.current()) {
            None
        } else {
            match parse_block(self.store().view()[self.current()], 0) {
                Some((b, _)) => Some(Some(b)),
                None => None,
            }
        }
    }

    pub open spec fn measure(&self) -> nat {
        if self.finished() {
            0
        } else {
            self.fuel_left() + 1
        }
    }

    pub closed spec fn store(&self) -> &'a BlockchainDb {
        self.db
    }

    /// An iterator over the walk from `start` in `db`, of at most as many
    /// steps as `db` has keys.
    pub fn new(db: &'a BlockchainDb, start: &[u8]) -> (r: Self)
        requires
            db.wf(),
        ensures
            r.store() == db,
            r.current() == start@,
            !r.finished(),
            r.fuel_left() == db.view().dom().len(),
            r.remaining() == chain_from(db.view(), start@, db.view().dom().len()),
    {
        BlockchainIterator { prev_block_hash: copy_bytes(start), db, fuel: db.len(), done: false }
    }

    /// The next block of the walk: `Ok(None)` after the genesis block,
    /// `Err` where a block is missing, does not decode, or the walk runs
    /// longer than the store.
    pub fn next(&mut self) -> (r: Result<Option<Block>, LedgerError>)
        requires
            old(self).store().wf(),
        ensures
            final(self).store() == old(self).store(),
            r is Err <==> old(self).step() is None,
            r matches Ok(x) ==> old(self).step() == Some(
                match x {
                    Some(b) => Some(b@),
                    None => None::<BlockModel>,
                },
            ),
            match r {
                Ok(Some(b)) => old(self).remaining() == prepend(b@, final(self).remaining())
                    && final(self).measure() < old(self).measure(),
                Ok(None) => old(self).remaining() == Some(Seq::<BlockModel>::empty()),
                Err(e) => e == LedgerError::CorruptChain && old(self).remaining() is None,
            },
    {
        if self.done {
            return Ok(None);
        }
        if self.fuel == 0 {
            return Err(LedgerError::CorruptChain);
        }
        let bytes = match self.db.read_db(self.prev_block_hash.as_slice()) {
            Some(v) => v,
            None => return Err(LedgerError::CorruptChain),
        };
        let block = match Block::deserialize(&bytes) {
            Some(b) => b,
            None => return Err(LedgerError::CorruptChain),
        };
        if block.prev_block_hash.len() == 0 {
            self.done = true;
        } else {
            self.prev_block_hash = copy_bytes(block.prev_block_hash.as_slice());
            self.fuel = self.fuel - 1;
        }
        Ok(Some(block))
    }
}

impl Blockchain {
    /// An iterator from the tip.
    pub fn iter(&self) -> (r: BlockchainIterator<'_>)
        requires
            self.wf(),
        ensures
            r.store().wf(),
            r.store().view() == self.db_view(),
            r.current() == self.tip_view(),
            !r.finished(),
            r.fuel_left() == self.db_view().dom().len(),
            r.remaining() == chain_of(self.db_view()),
    {
        BlockchainIterator::new(&self.db, self.tip.as_slice())
    }

    /// The blocks of the chain, from the tip back to the genesis block.
    pub fn blocks(&self) -> (r: Result<Vec<Block>, LedgerError>)
        requires
            self.wf(),
        ensures
            match r {
                Ok(v) => chain_of(self.db_view()) == Some(blocks_view(v@)),
                Err(e) => e == LedgerError::CorruptChain && chain_of(self.db_view()) is None,
            },
    {
        let mut it = self.iter();
        let mut out: Vec<Block> = Vec::new();
        loop
            invariant
                it.store().wf(),
                chain_of(self.db_view()) == prefixed(blocks_view(out@), it.remaining()),
            decreases it.measure(),
        {
            match it.next() {
                Ok(Some(b)) => {
                    let ghost before = out@;
                    out.push(b);
                    assert(blocks_view(out@) =~= blocks_view(before) + seq![b@]);
                    proof {
                        match it.remaining() {
                            Some(s) => {
                                assert(blocks_view(before) + (seq![b@] + s) =~= blocks_view(out@)
                                    + s);
                            },
                            None => {},
                        }
                    }
                },
                Ok(None) => {
                    assert(blocks_view(out@) + Seq::<BlockModel>::empty() =~= blocks_view(out@));
                    return Ok(out);
                },
                Err(e) => {
                    return Err(e);
                },
            }
        }
    }
}

/// Block `b` is what the store holds under `k`.
pub open spec fn stored_block(m: Map<Seq<u8>, Seq<u8>>, k: Seq<u8>, b: BlockModel) -> bool {
    &&& m.contains_key(k)
    &&& parse_block(m[k], 0) matches Some((x, _)) && x == b
}

/// The hash under which the `i`-th block of a walk from `h` was found.
pub open spec fn walk_key(h: Seq<u8>, s: Seq<BlockModel>, i: int) -> Seq<u8> {
    if i == 0 {
        h
    } else {
        s[i - 1].prev_block_hash
    }
}

proof fn lemma_chain_step(m: Map<Seq<u8>, Seq<u8>>, h: Seq<u8>, f: nat)
    requires
        chain_from(m, h, f) is Some,
    ensures
        ({
            let s = chain_from(m, h, f)->0;
            &&& f > 0
            &&& s.len() >= 1
            &&& stored_block(m, h, s[0])
            &&& s[0].prev_block_hash.len() == 0 ==> s.len() == 1
            &&& s[0].prev_block_hash.len() != 0 ==> chain_from(
                m,
                s[0].prev_block_hash,
                (f - 1) as nat,
            ) == Some(s.drop_first())
        }),
{
    let s = chain_from(m, h, f)->0;
    let pair = parse_block(m[h], 0)->0;
    let b = pair.0;
    if b.prev_block_hash.len() != 0 {
        let t = chain_from(m, b.prev_block_hash, (f - 1) as nat)->0;
        assert(s == seq![b] + t);
        assert(s.drop_first() =~= t);
    }
}

proof fn lemma_chain_det(m: Map<Seq<u8>, Seq<u8>>, h: Seq<u8>, f1: nat, f2: nat)
    requires
        chain_from(m, h, f1) is Some,
        chain_from(m, h, f2) is Some,
    ensures
        chain_from(m, h, f1) == chain_from(m, h, f2),
    decreases f1,
{
    lemma_chain_step(m, h, f1);
    lemma_chain_step(m, h, f2);
    let s1 = chain_from(m, h, f1)->0;
    let s2 = chain_from(m, h, f2)->0;
    assert(s1[0] == s2[0]);
    if s1[0].prev_block_hash.len() != 0 {
        lemma_chain_det(m, s1[0].prev_block_hash, (f1 - 1) as nat, (f2 - 1) as nat);
        assert(s1 =~= seq![s1[0]] + s1.drop_first());
        assert(s2 =~= seq![s2[0]] + s2.drop_first());
    } else {
        assert(s1 =~= s2);
    }
}

proof fn lemma_chain_suffix(m: Map<Seq<u8>, Seq<u8>>, h: Seq<u8>, f: nat, i: int)
    requires
        chain_from(m, h, f) is Some,
        0 <= i < chain_from(m, h, f)->0.len(),
    ensures
        i < f,
        chain_from(m, walk_key(h, chain_from(m, h, f)->0, i), (f - i) as nat) == Some(
            chain_from(m, h, f)->0.subrange(i, chain_from(m, h, f)->0.len() as int),
        ),
        stored_block(m, walk_key(h, chain_from(m, h, f)->0, i), chain_from(m, h, f)->0[i]),
        i < chain_from(m, h, f)->0.len() - 1 ==> chain_from(m, h, f)->0[i].prev_block_hash.len()
            > 0,
        i == chain_from(m, h, f)->0.len() - 1 ==> chain_from(m, h, f)->0[i].prev_block_hash.len()
            == 0,
    decreases f,
{
    let s = chain_from(m, h, f)->0;
    lemma_chain_step(m, h, f);
    if i == 0 {
        assert(s.subrange(0, s.len() as int) =~= s);
        if s[0].prev_block_hash.len() != 0 {
            lemma_chain_step(m, s[0].prev_block_hash, (f - 1) as nat);
        }
    } else {
        let h2 = s[0].prev_block_hash;
        let t = s.drop_first();
        lemma_chain_suffix(m, h2, (f - 1) as nat, i - 1);
        assert(walk_key(h2, t, i - 1) == walk_key(h, s, i));
        assert(t.subrange(i - 1, t.len() as int) =~= s.subrange(i, s.len() as int));
        assert(t[i - 1] == s[i]);
    }
}

/// Facts of every walk that succeeds: it ends at a block without
/// predecessor, no earlier block lacks one, each block is the one stored
/// under its key, and no key comes twice.
pub proof fn lemma_walk_shape(m: Map<Seq<u8>, Seq<u8>>, h: Seq<u8>, f: nat)
    requires
        chain_from(m, h, f) is Some,
    ensures
        ({
            let s = chain_from(m, h, f)->0;
            &&& s.len() >= 1
            &&& s.last().prev_block_hash.len() == 0
            &&& forall|i: int| 0 <= i < s.len() - 1 ==> #[trigger] s[i].prev_block_hash.len() > 0
            &&& forall|i: int| 0 <= i < s.len() ==> stored_block(m, #[trigger] walk_key(h, s, i), s[i])
            &&& forall|i: int, j: int|
                0 <= i < j < s.len() ==> #[trigger] walk_key(h, s, i) != #[trigger] walk_key(
                    h,
                    s,
                    j,
                )
        }),
{
    let s = chain_from(m, h, f)->0;
    lemma_chain_step(m, h, f);
    assert forall|i: int| 0 <= i < s.len() implies stored_block(m, #[trigger] walk_key(h, s, i), s[i]) by {
        lemma_chain_suffix(m, h, f, i);
    }
    assert forall|i: int| 0 <= i < s.len() - 1 implies #[trigger] s[i].prev_block_hash.len()
        > 0 by {
        lemma_chain_suffix(m, h, f, i);
    }
    lemma_chain_suffix(m, h, f, s.len() - 1);
    assert forall|i: int, j: int| 0 <= i < j < s.len() implies #[trigger] walk_key(h, s, i)
        != #[trigger] walk_key(h, s, j) by {
        if walk_key(h, s, i) == walk_key(h, s, j) {
            lemma_chain_suffix(m, h, f, i);
            lemma_chain_suffix(m, h, f, j);
            lemma_chain_det(m, walk_key(h, s, i), (f - i) as nat, (f - j) as nat);
            assert(s.subrange(i, s.len() as int).len() != s.subrange(j, s.len() as int).len());
        }
    }
}

proof fn lemma_walk_keys_sound(m: Map<Seq<u8>, Seq<u8>>, tip: Seq<u8>, s: Seq<BlockModel>, i: int)
    requires
        ledger_ok(m, tip),
        0 <= i < s.len(),
        forall|j: int| 0 <= j < s.len() - 1 ==> #[trigger] s[j].prev_block_hash.len() > 0,
        forall|j: int| 0 <= j < s.len() ==> stored_block(m, #[trigger] walk_key(tip, s, j), s[j]),
    ensures
        walk_key(tip, s, i) != tip_key(),
        block_ok(walk_key(tip, s, i), s[i]),
    decreases i,
{
    let k = walk_key(tip, s, i);
    if i > 0 {
        lemma_walk_keys_sound(m, tip, s, i - 1);
        assert(s[i - 1].prev_block_hash.len() > 0);
    }
    assert(stored_block(m, k, s[i]));
    assert(m.contains_key(k));
    assert(entry_ok(k, m[k]));
}

/// The walk from the tip of a sound ledger ends at the genesis block, the
/// only block on it without predecessor; it meets each block once, newest
/// first, each block being the one that the block before it names.
pub proof fn lemma_chain_from_tip(m: Map<Seq<u8>, Seq<u8>>, tip: Seq<u8>)
    requires
        ledger_ok(m, tip),
        chain_of(m) is Some,
    ensures
        ({
            let s = chain_of(m)->0;
            &&& s.len() >= 1
            &&& s[0].hash == tip
            &&& s.last().prev_block_hash.len() == 0
            &&& forall|i: int| 0 <= i < s.len() - 1 ==> #[trigger] s[i].prev_block_hash.len() > 0
            &&& forall|i: int|
                0 <= i < s.len() - 1 ==> #[trigger] s[i + 1].hash == s[i].prev_block_hash
            &&& forall|i: int, j: int| 0 <= i < j < s.len() ==> #[trigger] s[i].hash != #[trigger] s[j].hash
            &&& forall|i: int| 0 <= i < s.len() ==> pow_valid(#[trigger] s[i])
        }),
{
    let s = chain_of(m)->0;
    lemma_walk_shape(m, tip, m.dom().len());
    assert forall|i: int| 0 <= i < s.len() implies #[trigger] s[i].hash == walk_key(tip, s, i)
        && pow_valid(s[i]) by {
        lemma_walk_keys_sound(m, tip, s, i);
    }
    assert forall|i: int| 0 <= i < s.len() implies pow_valid(#[trigger] s[i]) by {
        lemma_walk_keys_sound(m, tip, s, i);
    }
    assert(s[0].hash == walk_key(tip, s, 0));
    assert forall|i: int| 0 <= i < s.len() - 1 implies #[trigger] s[i + 1].hash
        == s[i].prev_block_hash by {
        assert(s[i + 1].hash == walk_key(tip, s, i + 1));
    }
    assert forall|i: int, j: int| 0 <= i < j < s.len() implies #[trigger] s[i].hash
        != #[trigger] s[j].hash by {
        assert(s[i].hash == walk_key(tip, s, i));
        assert(s[j].hash == walk_key(tip, s, j));
    }
}

/// The walk from the tip of a ledger, when it succeeds, starts at the tip,
/// ends at the genesis block, the only block on it without predecessor, and
/// meets each block once, newest first, each the one that the block before
/// it names; every block on it meets the target.
pub proof fn lemma_ledger_chain(bc: &Blockchain)
    requires
        bc.wf(),
        chain_of(bc.db_view()) is Some,
    ensures
        ({
            let s = chain_of(bc.db_view())->0;
            &&& s.len() >= 1
            &&& s[0].hash == bc.tip_view()
            &&& s.last().prev_block_hash.len() == 0
            &&& forall|i: int| 0 <= i < s.len() - 1 ==> #[trigger] s[i].prev_block_hash.len() > 0
            &&& forall|i: int|
                0 <= i < s.len() - 1 ==> #[trigger] s[i + 1].hash == s[i].prev_block_hash
            &&& forall|i: int, j: int| 0 <= i < j < s.len() ==> #[trigger] s[i].hash != #[trigger] s[j].hash
            &&& forall|i: int| 0 <= i < s.len() ==> pow_valid(#[trigger] s[i])
        }),
{
    lemma_chain_from_tip(bc.db_view(), bc.tip_view());
}

proof fn lemma_chain_agree(m: Map<Seq<u8>, Seq<u8>>, n: Map<Seq<u8>, Seq<u8>>, h: Seq<u8>, f: nat)
    requires
        store_ok(m),
        h != tip_key(),
        chain_from(m, h, f) is Some,
        forall|k: Seq<u8>| #[trigger] m.contains_key(k) && k != tip_key() ==> n.contains_key(k) && n[k] == m[k],
    ensures
        chain_from(n, h, f) == chain_from(m, h, f),
    decreases f,
{
    lemma_chain_step(m, h, f);
    assert(m.contains_key(h) && h != tip_key());
    assert(entry_ok(h, m[h]));
    let s = chain_from(m, h, f)->0;
    if s[0].prev_block_hash.len() != 0 {
        assert(s[0].prev_block_hash != tip_key());
        lemma_chain_agree(m, n, s[0].prev_block_hash, (f - 1) as nat);
    }
}

/// Mining onto an intact chain extends it by exactly the new block: the walk
/// from the new tip is the new block followed by the old walk. Stated for a
/// block whose hash is not yet a key of the store.
pub proof fn lemma_append_extends_chain(m: Map<Seq<u8>, Seq<u8>>, tip: Seq<u8>, b: BlockModel, n: Map<Seq<u8>, Seq<u8>>)
    requires
        m.dom().finite(),
        ledger_ok(m, tip),
        chain_of(m) is Some,
        appended(m, b, n),
        b.prev_block_hash == tip,
        b.hash.len() == 32,
        !m.contains_key(b.hash),
        block_fits(b),
    ensures
        chain_of(n) == Some(seq![b] + chain_of(m)->0),
{
    lemma_block_round_trip(b);
    assert(b.hash != tip_key());
    assert(n.dom() =~= m.dom().insert(b.hash));
    let f = m.dom().len();
    assert(n.dom().len() == f + 1);
    assert(n[tip_key()] == b.hash);
    assert(tip != tip_key());
    assert(entry_ok(tip, m[tip]));
    assert(tip.len() == 32);
    assert forall|k: Seq<u8>| #[trigger] m.contains_key(k) && k != tip_key() implies n.contains_key(k)
        && n[k] == m[k] by {
        assert(k != b.hash);
    }
    lemma_chain_agree(m, n, tip, f);
    assert(m[tip_key()] == tip);
    assert(n.contains_key(b.hash) && n[b.hash] == crate::block::enc_block(b));
    assert(chain_from(n, b.hash, (f + 1) as nat) == prepend(b, chain_from(n, tip, f)));
}

/// A ledger's store is finite and holds a chain whose tip is the ledger's.
pub proof fn lemma_ledger_store(bc: &Blockchain)
    requires
        bc.wf(),
    ensures
        bc.db_view().dom().finite(),
        ledger_ok(bc.db_view(), bc.tip_view()),
{
    bc.db.lemma_finite();
}

/// A ledger started on an empty store holds a chain of its genesis block
/// alone.
pub proof fn lemma_genesis_chain(g: BlockModel, n: Map<Seq<u8>, Seq<u8>>)
    requires
        appended(Map::empty(), g, n),
        g.prev_block_hash.len() == 0,
        g.hash.len() == 32,
        block_fits(g),
    ensures
        chain_of(n) == Some(seq![g]),
{
    lemma_block_round_trip(g);
    assert(g.hash != tip_key());
    assert(n.dom() =~= set![g.hash, tip_key()]);
    assert(n.dom().len() == 2);
    assert(n[tip_key()] == g.hash);
    assert(n[g.hash] == crate::block::enc_block(g));
}

/// Every block that a sound ledger holds meets the proof-of-work target.
pub proof fn lemma_persisted_blocks_valid(bc: &Blockchain, k: Seq<u8>)
    requires
        bc.wf(),
        bc.db_view().contains_key(k),
        k != tip_key(),
    ensures
        parse_block(bc.db_view()[k], 0) matches Some((b, _)) && b.hash == k && pow_valid(b),
{
}

} // verus!
