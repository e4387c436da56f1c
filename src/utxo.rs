//! Unspent outputs: which transactions of the chain still hold value for an
//! address, which outputs cover an amount, and the transfer that spends them.
use crate::bcdb::bytes_eq;
use crate::block::{unmined, BlockModel};
use crate::blockchain::{appended, blocks_view, chain_of, mined_onto, Blockchain};
use crate::error::LedgerError;
use crate::proofofwork::no_valid_nonce;
use crate::utils::{hex_of, lemma_hex_round_trip, string_hex};
use crate::transaction::{
    inputs_view, is_coinbase_model, outputs_view, tx_id_of, OutputModel, TXInput, TXOutput,
    Transaction, TxModel,
};
use vstd::prelude::*;

verus! {

/// The transactions of a chain in walking order: newest block first, each
/// block's transactions in their order.
pub open spec fn all_txs(c: Seq<BlockModel>) -> Seq<TxModel>
    decreases c.len(),
{
    if c.len() == 0 {
        seq![]
    } else {
        all_txs(c.drop_last()) + c.last().transactions
    }
}

/// The outputs that a transaction's inputs spend, as (transaction id,
/// output index); none for a coinbase.
pub open spec fn spent_by(tx: TxModel) -> Set<(Seq<u8>, int)> {
    if is_coinbase_model(tx) {
        Set::empty()
    } else {
        Set::new(
            |p: (Seq<u8>, int)|
                exists|i: int| 0 <= i < tx.vin.len() && p == (tx.vin[i].txid, tx.vin[i].vout as int),
        )
    }
}

/// The indices below `k` of the outputs of `tx` that are locked to `addr`
/// and not among `spent`, in order.
pub open spec fn free_idx(tx: TxModel, addr: Seq<char>, spent: Set<(Seq<u8>, int)>, k: nat) -> Seq<int>
    decreases k,
{
    if k == 0 {
        seq![]
    } else {
        free_idx(tx, addr, spent, (k - 1) as nat) + if tx.vout[k - 1].script_pub_key == addr
            && !spent.contains((tx.id, k - 1)) {
            seq![k - 1]
        } else {
            seq![]
        }
    }
}

/// The walk over `txs` that records each transaction holding outputs for
/// `addr` not yet known to be spent, with the indices of those outputs, and
/// learns what each transaction spends.
pub open spec fn unspent_entries(txs: Seq<TxModel>, addr: Seq<char>, spent: Set<(Seq<u8>, int)>) -> Seq<
    (TxModel, Seq<int>),
>
    decreases txs.len(),
{
    if txs.len() == 0 {
        seq![]
    } else {
        let tx = txs[0];
        let f = free_idx(tx, addr, spent, tx.vout.len());
        (if f.len() > 0 {
            seq![(tx, f)]
        } else {
            seq![]
        }) + unspent_entries(txs.drop_first(), addr, spent.union(spent_by(tx)))
    }
}

/// The unspent outputs of chain `c` for `addr`, grouped by transaction.
pub open spec fn entries_of(c: Seq<BlockModel>, addr: Seq<char>) -> Seq<(TxModel, Seq<int>)> {
    unspent_entries(all_txs(c), addr, Set::empty())
}

/// The transactions of chain `c` that hold unspent value for `addr`.
pub open spec fn unspent_of(c: Seq<BlockModel>, addr: Seq<char>) -> Seq<TxModel> {
    entries_of(c, addr).map_values(|e: (TxModel, Seq<int>)| e.0)
}

pub open spec fn entry_outputs(e: (TxModel, Seq<int>)) -> Seq<OutputModel> {
    e.1.map_values(|i: int| e.0.vout[i])
}

/// The outputs that the entries name, in order.
pub open spec fn utxos_of(es: Seq<(TxModel, Seq<int>)>) -> Seq<OutputModel>
    decreases es.len(),
{
    if es.len() == 0 {
        seq![]
    } else {
        utxos_of(es.drop_last()) + entry_outputs(es.last())
    }
}

/// The unspent outputs of chain `c` locked to `addr`.
pub open spec fn utxos_for(c: Seq<BlockModel>, addr: Seq<char>) -> Seq<OutputModel> {
    utxos_of(entries_of(c, addr))
}

pub open spec fn sum_values(outs: Seq<OutputModel>) -> int
    decreases outs.len(),
{
    if outs.len() == 0 {
        0
    } else {
        sum_values(outs.drop_last()) + outs.last().value
    }
}

/// The balance of `addr` on chain `c`.
pub open spec fn balance_of(c: Seq<BlockModel>, addr: Seq<char>) -> int {
    sum_values(utxos_for(c, addr))
}

/// The `k`-th spent pair of a list, as (transaction id, output index).
pub open spec fn pair_at(v: Seq<(Vec<u8>, i32)>, k: int) -> (Seq<u8>, int) {
    (v[k].0@, v[k].1 as int)
}

pub open spec fn spent_view(v: Seq<(Vec<u8>, i32)>) -> Set<(Seq<u8>, int)> {
    Set::new(|p: (Seq<u8>, int)| exists|j: int| 0 <= j < v.len() && p == #[trigger] pair_at(v, j))
}

/// Whether output `tx_output_index` of transaction `txid` is among `spent_txo`.
fn is_spent_output(tx_output_index: usize, spent_txo: &Vec<(Vec<u8>, i32)>, txid: &Vec<u8>) -> (r:
    bool)
    ensures
        r == spent_view(spent_txo@).contains((txid@, tx_output_index as int)),
{
    let mut j: usize = 0;
    while j < spent_txo.len()
        invariant
            j <= spent_txo@.len(),
            forall|k: int|
                0 <= k < j ==> #[trigger] pair_at(spent_txo@, k) != (txid@, tx_output_index as int),
        decreases spent_txo@.len() - j,
    {
        let out = spent_txo[j].1;
        if out >= 0 && out as usize == tx_output_index && bytes_eq(
            spent_txo[j].0.as_slice(),
            txid.as_slice(),
        ) {
            assert(spent_view(spent_txo@).contains((txid@, tx_output_index as int))) by {
                assert(0 <= j < spent_txo@.len() && (txid@, tx_output_index as int) == pair_at(
                    spent_txo@,
                    j as int,
                ));
            }
            return true;
        }
        j = j + 1;
    }
    false
}

/// The transactions of `blocks`, newest block first.
fn flatten_txs(blocks: &Vec<crate::block::Block>) -> (r: Vec<Transaction>)
    ensures
        crate::block::txs_view(r@) == all_txs(blocks_view(blocks@)),
{
    let ghost c = blocks_view(blocks@);
    let mut out: Vec<Transaction> = Vec::new();
    let mut i: usize = 0;
    while i < blocks.len()
        invariant
            i <= blocks@.len(),
            c == blocks_view(blocks@),
            crate::block::txs_view(out@) == all_txs(c.take(i as int)),
        decreases blocks@.len() - i,
    {
        let txs = &blocks[i].transaction;
        let ghost base = out@;
        let mut j: usize = 0;
        while j < txs.len()
            invariant
                j <= txs@.len(),
                txs == &blocks@[i as int].transaction,
                crate::block::txs_view(out@) == crate::block::txs_view(base) + crate::block::txs_view(
                    txs@,
                ).take(j as int),
            decreases txs@.len() - j,
        {
            let ghost before = out@;
            out.push(txs[j].duplicate());
            assert(crate::block::txs_view(out@) =~= crate::block::txs_view(before).push(
                txs@[j as int]@,
            ));
            assert(crate::block::txs_view(txs@).take(j + 1) =~= crate::block::txs_view(txs@).take(
                j as int,
            ).push(txs@[j as int]@));
            j = j + 1;
        }
        assert(c.take(i + 1).drop_last() =~= c.take(i as int));
        assert(crate::block::txs_view(txs@).take(j as int) =~= c[i as int].transactions);
        i = i + 1;
    }
    assert(c.take(i as int) =~= c);
    out
}

pub open spec fn entries_view(v: Seq<(Transaction, Vec<usize>)>) -> Seq<(TxModel, Seq<int>)> {
    v.map_values(|e: (Transaction, Vec<usize>)| (e.0@, e.1@.map_values(|i: usize| i as int)))
}

impl Blockchain {
    /// The walk of the chain for `address`: each transaction that holds
    /// unspent outputs for it, with their indices.
    fn unspent_entries_of(&self, address: &str) -> (r: Result<Vec<(Transaction, Vec<usize>)>, LedgerError>)
        requires
            self.wf(),
        ensures
            match r {
                Ok(v) => chain_of(self.db_view()) matches Some(c) && entries_view(v@)
                    == entries_of(c, address@),
                Err(e) => e == LedgerError::CorruptChain && chain_of(self.db_view()) is None,
            },
    {
        let blocks = match self.blocks() {
            Ok(b) => b,
            Err(e) => return Err(e),
        };
        let txs = flatten_txs(&blocks);
        let ghost all = crate::block::txs_view(txs@);
        let mut unspend_txs: Vec<(Transaction, Vec<usize>)> = Vec::new();
        let mut spent_txo: Vec<(Vec<u8>, i32)> = Vec::new();
        let mut i: usize = 0;
        assert(spent_view(spent_txo@) =~= Set::<(Seq<u8>, int)>::empty());
        assert(all.subrange(0, all.len() as int) =~= all);
        assert(entries_view(unspend_txs@) =~= Seq::<(TxModel, Seq<int>)>::empty());
        assert(Seq::<(TxModel, Seq<int>)>::empty() + unspent_entries(all, address@, Set::empty())
            =~= unspent_entries(all, address@, Set::empty()));
        while i < txs.len()
            invariant
                i <= txs@.len(),
                all == crate::block::txs_view(txs@),
                entries_view(unspend_txs@) + unspent_entries(
                    all.subrange(i as int, all.len() as int),
                    address@,
                    spent_view(spent_txo@),
                ) == unspent_entries(all, address@, Set::empty()),
            decreases txs@.len() - i,
        {
            let tx = &txs[i];
            let ghost rest = all.subrange(i as int, all.len() as int);
            let ghost spent = spent_view(spent_txo@);
            assert(rest[0] == tx@);
            assert(rest.drop_first() =~= all.subrange(i + 1, all.len() as int));
            let mut free: Vec<usize> = Vec::new();
            let mut k: usize = 0;
            while k < tx.vout.len()
                invariant
                    k <= tx.vout@.len(),
                    spent == spent_view(spent_txo@),
                    free@.map_values(|i: usize| i as int) == free_idx(tx@, address@, spent, k as nat),
                decreases tx.vout@.len() - k,
            {
                let c = !is_spent_output(k, &spent_txo, &tx.id) && tx.vout[k].can_be_unlocked_with(
                    address,
                );
                proof {
                    assert(tx@.vout[k as int] == tx.vout@[k as int]@);
                    if c {
                        assert(!spent.contains((tx@.id, k as int)) && tx@.vout[k as int].script_pub_key
                            == address@);
                    } else {
                        assert(!(!spent.contains((tx@.id, k as int)) && tx@.vout[k as int].script_pub_key
                            == address@));
                    }
                }
                let ghost fb = free@;
                if c {
                    free.push(k);
                    assert(free@.map_values(|i: usize| i as int) =~= fb.map_values(|i: usize| i as int).push(k as int));
                } else {
                    assert(fb.map_values(|i: usize| i as int) + Seq::<int>::empty() =~= fb.map_values(|i: usize| i as int));
                }
                k = k + 1;
            }
            let ghost fv = free@.map_values(|i: usize| i as int);
            if free.len() > 0 {
                let ghost before = unspend_txs@;
                unspend_txs.push((tx.duplicate(), free));
                assert(entries_view(unspend_txs@) =~= entries_view(before) + seq![(tx@, fv)]);
            } else {
                assert(fv.len() == 0);
            }
            if !tx.is_coinbase() {
                let mut n: usize = 0;
                let ghost base = spent_txo@;
                while n < tx.vin.len()
                    invariant
                        n <= tx.vin@.len(),
                        base.len() <= spent_txo@.len(),
                        spent_txo@.len() == base.len() + n,
                        forall|q: int| 0 <= q < base.len() ==> #[trigger] spent_txo@[q] == base[q],
                        forall|q: int|
                            0 <= q < n ==> (#[trigger] spent_txo@[base.len() + q]).0@
                                == tx@.vin[q].txid && spent_txo@[base.len() + q].1 == tx@.vin[q].vout,
                    decreases tx.vin@.len() - n,
                {
                    spent_txo.push((crate::bcdb::copy_bytes(tx.vin[n].txid.as_slice()), tx.vin[n].vout));
                    n = n + 1;
                }
                assert(spent_view(spent_txo@) =~= spent.union(spent_by(tx@))) by {
                    assert forall|p: (Seq<u8>, int)| #[trigger]
                        spent_view(spent_txo@).contains(p) implies spent.union(
                            spent_by(tx@),
                        ).contains(p) by {
                        let j = choose|j: int| 0 <= j < spent_txo@.len() && p == pair_at(spent_txo@, j);
                        if j < base.len() {
                            assert(spent_txo@[j] == base[j]);
                            assert(pair_at(base, j) == p);
                        } else {
                            let q = j - base.len();
                            assert(spent_txo@[base.len() + q] == spent_txo@[j]);
                        }
                    }
                    assert forall|p: (Seq<u8>, int)| #[trigger]
                        spent.union(spent_by(tx@)).contains(p) implies spent_view(
                            spent_txo@,
                        ).contains(p) by {
                        if spent.contains(p) {
                            let j = choose|j: int| 0 <= j < base.len() && p == pair_at(base, j);
                            assert(spent_txo@[j] == base[j]);
                            assert(pair_at(spent_txo@, j) == p);
                        } else {
                            let q = choose|q: int|
                                0 <= q < tx@.vin.len() && p == (tx@.vin[q].txid, tx@.vin[q].vout as int);
                            let w = spent_txo@[base.len() + q];
                            assert(p == (w.0@, w.1 as int));
                            assert(pair_at(spent_txo@, base.len() + q) == p);
                        }
                    }
                }
            } else {
                assert(spent.union(spent_by(tx@)) =~= spent);
            }
            i = i + 1;
        }
        assert(all.subrange(i as int, all.len() as int) =~= Seq::<TxModel>::empty());
        assert(entries_view(unspend_txs@) + Seq::<(TxModel, Seq<int>)>::empty() =~= entries_view(unspend_txs@));
        Ok(unspend_txs)
    }

    /// The transactions of the chain that hold an output for `address` not
    /// yet spent, in walking order.
    pub fn find_unspend_transaction(&self, address: &str) -> (r: Result<Vec<Transaction>, LedgerError>)
        requires
            self.wf(),
        ensures
            match r {
                Ok(v) => chain_of(self.db_view()) matches Some(c) && crate::block::txs_view(v@)
                    == unspent_of(c, address@),
                Err(e) => e == LedgerError::CorruptChain && chain_of(self.db_view()) is None,
            },
    {
        let entries = match self.unspent_entries_of(address) {
            Ok(e) => e,
            Err(e) => return Err(e),
        };
        let ghost ev = entries_view(entries@);
        let mut out: Vec<Transaction> = Vec::new();
        let mut i: usize = 0;
        while i < entries.len()
            invariant
                i <= entries@.len(),
                ev == entries_view(entries@),
                crate::block::txs_view(out@) == ev.map_values(|e: (TxModel, Seq<int>)| e.0).take(i as int),
            decreases entries@.len() - i,
        {
            let ghost before = out@;
            out.push(entries[i].0.duplicate());
            assert(crate::block::txs_view(out@) =~= crate::block::txs_view(before).push(ev[i as int].0));
            assert(ev.map_values(|e: (TxModel, Seq<int>)| e.0).take(i + 1) =~= ev.map_values(
                |e: (TxModel, Seq<int>)| e.0,
            ).take(i as int).push(ev[i as int].0));
            i = i + 1;
        }
        assert(ev.map_values(|e: (TxModel, Seq<int>)| e.0).take(i as int) =~= ev.map_values(
            |e: (TxModel, Seq<int>)| e.0,
        ));
        Ok(out)
    }
}

/// The outputs that an entry names, as (transaction id, index, value).
pub open spec fn entry_cands(e: (TxModel, Seq<int>)) -> Seq<(Seq<u8>, int, i32)> {
    e.1.map_values(|i: int| (e.0.id, i, e.0.vout[i].value))
}

/// The unspent outputs that the entries name, in order, as (transaction id,
/// index, value).
pub open spec fn candidates(es: Seq<(TxModel, Seq<int>)>) -> Seq<(Seq<u8>, int, i32)>
    decreases es.len(),
{
    if es.len() == 0 {
        seq![]
    } else {
        candidates(es.drop_last()) + entry_cands(es.last())
    }
}

/// Every index that `free_idx` gives names an output of `tx` locked to
/// `addr` and not among `spent`.
proof fn lemma_free_idx_valid(tx: TxModel, addr: Seq<char>, spent: Set<(Seq<u8>, int)>, k: nat)
    requires
        k <= tx.vout.len(),
    ensures
        forall|m: int|
            0 <= m < free_idx(tx, addr, spent, k).len() ==> {
                let i = #[trigger] free_idx(tx, addr, spent, k)[m];
                &&& 0 <= i < k
                &&& tx.vout[i].script_pub_key == addr
                &&& !spent.contains((tx.id, i))
            },
    decreases k,
{
    if k > 0 {
        lemma_free_idx_valid(tx, addr, spent, (k - 1) as nat);
        let f = free_idx(tx, addr, spent, k);
        let g = free_idx(tx, addr, spent, (k - 1) as nat);
        assert forall|m: int| 0 <= m < f.len() implies {
            let i = #[trigger] f[m];
            &&& 0 <= i < k
            &&& tx.vout[i].script_pub_key == addr
            &&& !spent.contains((tx.id, i))
        } by {
            if m < g.len() {
                assert(f[m] == g[m]);
            }
        }
    }
}

/// Each entry of the walk holds a transaction of `txs` and indices of its
/// outputs locked to `addr`.
proof fn lemma_entries_valid(txs: Seq<TxModel>, addr: Seq<char>, spent: Set<(Seq<u8>, int)>, n: int)
    requires
        0 <= n < unspent_entries(txs, addr, spent).len(),
    ensures
        ({
            let e = unspent_entries(txs, addr, spent)[n];
            &&& exists|j: int| 0 <= j < txs.len() && txs[j] == e.0
            &&& forall|m: int|
                0 <= m < e.1.len() ==> 0 <= #[trigger] e.1[m] < e.0.vout.len()
                    && e.0.vout[e.1[m]].script_pub_key == addr
        }),
    decreases txs.len(),
{
    let tx = txs[0];
    let f = free_idx(tx, addr, spent, tx.vout.len());
    let head: Seq<(TxModel, Seq<int>)> = if f.len() > 0 {
        seq![(tx, f)]
    } else {
        seq![]
    };
    let rest = unspent_entries(txs.drop_first(), addr, spent.union(spent_by(tx)));
    assert(unspent_entries(txs, addr, spent) == head + rest);
    if n < head.len() {
        lemma_free_idx_valid(tx, addr, spent, tx.vout.len());
        assert(unspent_entries(txs, addr, spent)[n] == (tx, f));
        assert(txs[0] == tx);
    } else {
        lemma_entries_valid(txs.drop_first(), addr, spent.union(spent_by(tx)), n - head.len());
        assert(unspent_entries(txs, addr, spent)[n] == rest[n - head.len()]);
        let j = choose|j: int|
            0 <= j < txs.drop_first().len() && txs.drop_first()[j] == rest[n - head.len()].0;
        assert(txs[j + 1] == txs.drop_first()[j]);
    }
}

/// First-fit selection: candidates are taken in order, each adding its value,
/// while the total `acc` is below `amount`. The final total, and the
/// (transaction id, index) of each candidate taken.
pub open spec fn select(c: Seq<(Seq<u8>, int, i32)>, amount: int, acc: int) -> (int, Seq<
    (Seq<u8>, int),
>)
    decreases c.len(),
{
    if c.len() == 0 || acc >= amount {
        (acc, seq![])
    } else {
        let r = select(c.drop_first(), amount, acc + c[0].2);
        (r.0, seq![(c[0].0, c[0].1)] + r.1)
    }
}

/// The selection that `find_spendable_outputs` makes for `addr` on chain `c`.
pub open spec fn spendable(c: Seq<BlockModel>, addr: Seq<char>, amount: int) -> (int, Seq<
    (Seq<u8>, int),
>) {
    select(candidates(entries_of(c, addr)), amount, 0)
}

/// A selection as the resolver hands it out: hexadecimal id and index.
pub open spec fn selection_view(s: Seq<(Seq<u8>, int)>) -> Seq<(Seq<char>, i32)> {
    s.map_values(|p: (Seq<u8>, int)| (hex_of(p.0), p.1 as i32))
}

pub open spec fn pairs_view(v: Seq<(String, i32)>) -> Seq<(Seq<char>, i32)> {
    v.map_values(|p: (String, i32)| (p.0@, p.1))
}

/// A total that starts no more than `i32::MAX` above `amount` stays so.
proof fn lemma_select_overshoot(c: Seq<(Seq<u8>, int, i32)>, amount: int, acc: int)
    requires
        acc - amount <= i32::MAX,
    ensures
        select(c, amount, acc).0 - amount <= i32::MAX,
    decreases c.len(),
{
    if c.len() > 0 && acc < amount {
        lemma_select_overshoot(c.drop_first(), amount, acc + c[0].2);
    }
}

/// The inputs of a transfer from `from`: one for each selected output.
pub open spec fn transfer_inputs(sel: Seq<(Seq<u8>, int)>, from: Seq<char>) -> Seq<
    crate::transaction::InputModel,
> {
    sel.map_values(
        |p: (Seq<u8>, int)|
            crate::transaction::InputModel { txid: p.0, vout: p.1 as i32, script_sig: from },
    )
}

/// The outputs of a transfer: `amount` to `to`, and the change, if any,
/// back to `from`.
pub open spec fn transfer_outputs(from: Seq<char>, to: Seq<char>, amount: i32, acc: int) -> Seq<
    OutputModel,
> {
    seq![OutputModel { value: amount, script_pub_key: to }] + if acc > amount {
        seq![OutputModel { value: (acc - amount) as i32, script_pub_key: from }]
    } else {
        seq![]
    }
}

impl Blockchain {
    /// The unspent outputs locked to `address`, in walking order.
    pub fn find_utxo(&self, address: &str) -> (r: Result<Vec<TXOutput>, LedgerError>)
        requires
            self.wf(),
        ensures
            match r {
                Ok(v) => chain_of(self.db_view()) matches Some(c) && outputs_view(v@) == utxos_for(
                    c,
                    address@,
                ),
                Err(e) => e == LedgerError::CorruptChain && chain_of(self.db_view()) is None,
            },
    {
        let entries = match self.unspent_entries_of(address) {
            Ok(e) => e,
            Err(e) => return Err(e),
        };
        let ghost ev = entries_view(entries@);
        let ghost c = chain_of(self.db_view())->0;
        let mut utxos: Vec<TXOutput> = Vec::new();
        let mut i: usize = 0;
        while i < entries.len()
            invariant
                i <= entries@.len(),
                ev == entries_view(entries@),
                ev == entries_of(c, address@),
                outputs_view(utxos@) == utxos_of(ev.take(i as int)),
            decreases entries@.len() - i,
        {
            let tx = &entries[i].0;
            let idx = &entries[i].1;
            let ghost e = ev[i as int];
            assert(e.0 == tx@ && e.1 == idx@.map_values(|q: usize| q as int));
            proof {
                lemma_entries_valid(all_txs(c), address@, Set::empty(), i as int);
            }
            let ghost base = outputs_view(utxos@);
            let mut k: usize = 0;
            while k < idx.len()
                invariant
                    k <= idx@.len(),
                    e.0 == tx@,
                    e.1 == idx@.map_values(|q: usize| q as int),
                    forall|m: int| 0 <= m < e.1.len() ==> 0 <= #[trigger] e.1[m] < e.0.vout.len(),
                    outputs_view(utxos@) == base + entry_outputs(e).take(k as int),
                decreases idx@.len() - k,
            {
                let n = idx[k];
                assert(e.1[k as int] == n as int);
                assert(tx@.vout[n as int] == tx.vout@[n as int]@);
                let ghost before = outputs_view(utxos@);
                utxos.push(tx.vout[n].duplicate());
                assert(outputs_view(utxos@) =~= before.push(tx.vout@[n as int]@));
                assert(entry_outputs(e).take(k + 1) =~= entry_outputs(e).take(k as int).push(
                    e.0.vout[e.1[k as int]],
                ));
                k = k + 1;
            }
            assert(entry_outputs(e).take(k as int) =~= entry_outputs(e));
            assert(ev.take(i + 1).drop_last() =~= ev.take(i as int));
            i = i + 1;
        }
        assert(ev.take(i as int) =~= ev);
        Ok(utxos)
    }

    /// The sum of the values of the unspent outputs locked to `address`.
    pub fn get_balance(&self, address: &str) -> (r: Result<i128, LedgerError>)
        requires
            self.wf(),
        ensures
            match r {
                Ok(b) => chain_of(self.db_view()) matches Some(c) && b as int == balance_of(
                    c,
                    address@,
                ),
                Err(e) => e == LedgerError::CorruptChain && chain_of(self.db_view()) is None,
            },
    {
        let utxos = match self.find_utxo(address) {
            Ok(u) => u,
            Err(e) => return Err(e),
        };
        let ghost ov = outputs_view(utxos@);
        let mut balance: i128 = 0;
        let mut i: usize = 0;
        while i < utxos.len()
            invariant
                i <= utxos@.len(),
                ov == outputs_view(utxos@),
                balance as int == sum_values(ov.take(i as int)),
                -(i as int) * 0x8000_0000 <= balance <= (i as int) * 0x8000_0000,
            decreases utxos@.len() - i,
        {
            assert(ov.take(i + 1).drop_last() =~= ov.take(i as int));
            assert(-((i + 1) as int) * 0x8000_0000 == -(i as int) * 0x8000_0000 - 0x8000_0000);
            balance = balance + utxos[i].value as i128;
            i = i + 1;
        }
        assert(ov.take(i as int) =~= ov);
        Ok(balance)
    }

    /// Walks the unspent transactions of `address` in order and takes its
    /// outputs, first fit, until their values reach `amount`: the total
    /// taken, and the hexadecimal id and index of each output taken.
    pub fn find_spendable_outputs(&self, address: &str, amount: i32) -> (r: Result<
        (i128, Vec<(String, i32)>),
        LedgerError,
    >)
        requires
            self.wf(),
        ensures
            match r {
                Ok((acc, sel)) => chain_of(self.db_view()) matches Some(c) && acc as int
                    == spendable(c, address@, amount as int).0 && pairs_view(sel@)
                    == selection_view(spendable(c, address@, amount as int).1),
                Err(e) => e == LedgerError::CorruptChain && chain_of(self.db_view()) is None,
            },
    {
        let entries = match self.unspent_entries_of(address) {
            Ok(e) => e,
            Err(e) => return Err(e),
        };
        let ghost ev = entries_view(entries@);
        let ghost c = chain_of(self.db_view())->0;
        let mut cands: Vec<(&Vec<u8>, usize, i32)> = Vec::new();
        let mut i: usize = 0;
        while i < entries.len()
            invariant
                i <= entries@.len(),
                ev == entries_view(entries@),
                ev == entries_of(c, address@),
                cands@.map_values(|p: (&Vec<u8>, usize, i32)| (p.0@, p.1 as int, p.2))
                    == candidates(ev.take(i as int)),
            decreases entries@.len() - i,
        {
            let tx = &entries[i].0;
            let idx = &entries[i].1;
            let ghost e = ev[i as int];
            assert(e.0 == tx@ && e.1 == idx@.map_values(|q: usize| q as int));
            proof {
                lemma_entries_valid(all_txs(c), address@, Set::empty(), i as int);
            }
            let ghost base = cands@.map_values(|p: (&Vec<u8>, usize, i32)| (p.0@, p.1 as int, p.2));
            let mut k: usize = 0;
            while k < idx.len()
                invariant
                    k <= idx@.len(),
                    e.0 == tx@,
                    e.1 == idx@.map_values(|q: usize| q as int),
                    forall|m: int| 0 <= m < e.1.len() ==> 0 <= #[trigger] e.1[m] < e.0.vout.len(),
                    cands@.map_values(|p: (&Vec<u8>, usize, i32)| (p.0@, p.1 as int, p.2)) == base
                        + entry_cands(e).take(k as int),
                decreases idx@.len() - k,
            {
                let n = idx[k];
                assert(e.1[k as int] == n as int);
                assert(tx@.vout[n as int] == tx.vout@[n as int]@);
                let ghost before = cands@.map_values(
                    |p: (&Vec<u8>, usize, i32)| (p.0@, p.1 as int, p.2),
                );
                cands.push((&tx.id, n, tx.vout[n].value));
                assert(cands@.map_values(|p: (&Vec<u8>, usize, i32)| (p.0@, p.1 as int, p.2))
                    =~= before.push((tx@.id, n as int, tx@.vout[n as int].value)));
                assert(entry_cands(e).take(k + 1) =~= entry_cands(e).take(k as int).push(
                    (e.0.id, e.1[k as int], e.0.vout[e.1[k as int]].value),
                ));
                k = k + 1;
            }
            assert(entry_cands(e).take(k as int) =~= entry_cands(e));
            assert(ev.take(i + 1).drop_last() =~= ev.take(i as int));
            i = i + 1;
        }
        assert(ev.take(i as int) =~= ev);
        let ghost all = cands@.map_values(|p: (&Vec<u8>, usize, i32)| (p.0@, p.1 as int, p.2));
        let mut unspent_outputs: Vec<(String, i32)> = Vec::new();
        let mut accumulated: i128 = 0;
        let mut j: usize = 0;
        let ghost mut taken: Seq<(Seq<u8>, int)> = seq![];
        assert(all.subrange(0, all.len() as int) =~= all);
        assert(taken + select(all, amount as int, 0).1 =~= select(all, amount as int, 0).1);
        assert(selection_view(taken) =~= Seq::<(Seq<char>, i32)>::empty());
        assert(pairs_view(unspent_outputs@) =~= Seq::<(Seq<char>, i32)>::empty());
        while j < cands.len() && accumulated < amount as i128
            invariant
                j <= cands@.len(),
                all == cands@.map_values(|p: (&Vec<u8>, usize, i32)| (p.0@, p.1 as int, p.2)),
                -(j as int) * 0x8000_0000 <= accumulated <= 0x8000_0000 + 0x8000_0000,
                select(all, amount as int, 0) == (
                    select(all.subrange(j as int, all.len() as int), amount as int, accumulated as int).0,
                    taken + select(
                        all.subrange(j as int, all.len() as int),
                        amount as int,
                        accumulated as int,
                    ).1,
                ),
                pairs_view(unspent_outputs@) == selection_view(taken),
            decreases cands@.len() - j,
        {
            let (id, index, value) = cands[j];
            let ghost rest = all.subrange(j as int, all.len() as int);
            assert(rest.drop_first() =~= all.subrange(j + 1, all.len() as int));
            assert(rest[0] == (id@, index as int, value));
            let key = crate::utils::hex_string(id);
            let ghost before = unspent_outputs@;
            unspent_outputs.push((key, index as i32));
            assert(-((j + 1) as int) * 0x8000_0000 == -(j as int) * 0x8000_0000 - 0x8000_0000);
            accumulated = accumulated + value as i128;
            proof {
                let x = (id@, index as int);
                let r = select(rest.drop_first(), amount as int, accumulated as int);
                assert(taken + (seq![x] + r.1) =~= taken.push(x) + r.1);
                assert(selection_view(taken.push(x)) =~= selection_view(taken).push(
                    (hex_of(x.0), x.1 as i32),
                ));
                assert(pairs_view(unspent_outputs@) =~= pairs_view(before).push(
                    (key@, index as i32),
                ));
                taken = taken.push(x);
            }
            j = j + 1;
        }
        proof {
            let rest = all.subrange(j as int, all.len() as int);
            if j == cands.len() {
                assert(rest.len() == 0);
            }
            assert(taken + Seq::<(Seq<u8>, int)>::empty() =~= taken);
        }
        Ok((accumulated, unspent_outputs))
    }
}

/// `t` is the transfer of `amount` from `from` to `to` that chain `c` allows.
pub open spec fn is_transfer_tx(
    t: TxModel,
    c: Seq<BlockModel>,
    from: Seq<char>,
    to: Seq<char>,
    amount: i32,
) -> bool {
    let (acc, sel) = spendable(c, from, amount as int);
    &&& t.vin == transfer_inputs(sel, from)
    &&& t.vout == transfer_outputs(from, to, amount, acc)
    &&& t.id == tx_id_of(t.vin, t.vout)
}

/// Builds the transaction that moves `amount` from `from` to `to`: it spends
/// the outputs that first-fit selection takes for `from`, pays `amount` to
/// `to` and returns the change to `from`.
pub fn new_utxo_transaction(from: &str, to: &str, amount: i32, bc: &Blockchain) -> (r: Result<
    Transaction,
    LedgerError,
>)
    requires
        bc.wf(),
        amount >= 0,
    ensures
        match chain_of(bc.db_view()) {
            None => r matches Err(e) && e == LedgerError::CorruptChain,
            Some(c) => if spendable(c, from@, amount as int).0 < amount {
                r matches Err(e) && e == LedgerError::InsufficientFunds
            } else {
                r matches Ok(t) && is_transfer_tx(t@, c, from@, to@, amount)
            },
        },
{
    let (acc, valid_outputs) = match bc.find_spendable_outputs(from, amount) {
        Ok(x) => x,
        Err(e) => return Err(e),
    };
    if acc < amount as i128 {
        return Err(LedgerError::InsufficientFunds);
    }
    let ghost c = chain_of(bc.db_view())->0;
    let ghost sel = spendable(c, from@, amount as int).1;
    proof {
        lemma_select_overshoot(candidates(entries_of(c, from@)), amount as int, 0);
    }
    let mut txs_inputs: Vec<TXInput> = Vec::new();
    let mut i: usize = 0;
    assert(sel.len() == selection_view(sel).len());
    assert(pairs_view(valid_outputs@).len() == valid_outputs@.len());
    while i < valid_outputs.len()
        invariant
            i <= valid_outputs@.len(),
            sel.len() == valid_outputs@.len(),
            pairs_view(valid_outputs@) == selection_view(sel),
            inputs_view(txs_inputs@) == transfer_inputs(sel, from@).take(i as int),
        decreases valid_outputs@.len() - i,
    {
        let ghost p = sel[i as int];
        assert(pairs_view(valid_outputs@)[i as int] == selection_view(sel)[i as int]);
        let txid_hex = &valid_outputs[i].0;
        proof {
            lemma_hex_round_trip(p.0);
        }
        let txid = string_hex(txid_hex);
        assert(txid@ == p.0);
        assert(valid_outputs@[i as int].1 == p.1 as i32);
        let ghost before = txs_inputs@;
        txs_inputs.push(TXInput { txid, vout: valid_outputs[i].1, script_sig: from.to_owned() });
        assert(inputs_view(txs_inputs@) =~= inputs_view(before).push(transfer_inputs(sel, from@)[i as int]));
        assert(transfer_inputs(sel, from@).take(i + 1) =~= transfer_inputs(sel, from@).take(i as int).push(
            transfer_inputs(sel, from@)[i as int],
        ));
        i = i + 1;
    }
    assert(transfer_inputs(sel, from@).take(i as int) =~= transfer_inputs(sel, from@));
    let mut txs_outputs: Vec<TXOutput> = Vec::new();
    txs_outputs.push(TXOutput { value: amount, script_pub_key: to.to_owned() });
    if acc > amount as i128 {
        txs_outputs.push(TXOutput { value: (acc - amount as i128) as i32, script_pub_key: from.to_owned() });
    }
    assert(outputs_view(txs_outputs@) =~= transfer_outputs(from@, to@, amount, acc as int));
    let mut tx = Transaction { id: Vec::new(), vin: txs_inputs, vout: txs_outputs };
    tx.set_id();
    Ok(tx)
}

impl Blockchain {
    /// Moves `amount` from `from` to `to`: builds the transfer and mines it,
    /// stamped `time_stamp`, into a new block on the tip.
    pub fn transfer(&mut self, from: &str, to: &str, amount: i32, time_stamp: i64) -> (r: Result<
        (),
        LedgerError,
    >)
        requires
            old(self).wf(),
            amount >= 0,
        ensures
            final(self).wf(),
            r is Err ==> final(self).db_view() == old(self).db_view() && final(self).tip_view()
                == old(self).tip_view(),
            match chain_of(old(self).db_view()) {
                None => r matches Err(e) && e == LedgerError::CorruptChain,
                Some(c) => if spendable(c, from@, amount as int).0 < amount {
                    r matches Err(e) && e == LedgerError::InsufficientFunds
                } else {
                    match r {
                        Ok(()) => exists|b: BlockModel|
                            {
                                &&& b.transactions.len() == 1
                                &&& is_transfer_tx(b.transactions[0], c, from@, to@, amount)
                                &&& mined_onto(b, time_stamp, b.transactions, old(self).tip_view())
                                &&& !old(self).db_view().contains_key(b.hash)
                                &&& final(self).tip_view() == b.hash
                                &&& appended(old(self).db_view(), b, #[trigger] final(self).db_view())
                                &&& chain_of(final(self).db_view()) == Some(seq![b] + c)
                            },
                        Err(e) => exists|t: TxModel|
                            #[trigger] is_transfer_tx(t, c, from@, to@, amount) && (e
                                == LedgerError::ProofOfWorkExhausted && no_valid_nonce(
                                unmined(time_stamp, seq![t], old(self).tip_view()),
                            ) || e == LedgerError::CorruptChain && exists|b: BlockModel|
                                #[trigger] mined_onto(b, time_stamp, seq![t], old(self).tip_view())
                                    && old(self).db_view().contains_key(b.hash)),
                    }
                },
            },
    {
        let tx = match new_utxo_transaction(from, to, amount, self) {
            Ok(t) => t,
            Err(e) => return Err(e),
        };
        let ghost t = tx@;
        let mut txs: Vec<Transaction> = Vec::new();
        txs.push(tx);
        assert(crate::block::txs_view(txs@) =~= seq![t]);
        self.mine_block(txs, time_stamp)
    }
}

/// No two transactions of `txs` share an id.
pub open spec fn ids_unique(txs: Seq<TxModel>) -> bool {
    forall|i: int, j: int| 0 <= i < j < txs.len() ==> #[trigger] txs[i].id != #[trigger] txs[j].id
}

/// Every output index of `txs` fits the `i32` of an input.
pub open spec fn indices_fit(txs: Seq<TxModel>) -> bool {
    forall|j: int| 0 <= j < txs.len() ==> #[trigger] txs[j].vout.len() <= i32::MAX
}

/// No output of `txs` locked to `addr` is among the pairs of `s`.
pub open spec fn no_hit(s: Set<(Seq<u8>, int)>, txs: Seq<TxModel>, addr: Seq<char>) -> bool {
    forall|j: int, i: int|
        0 <= j < txs.len() && 0 <= i < txs[j].vout.len() && #[trigger] s.contains((txs[j].id, i))
            ==> txs[j].vout[i].script_pub_key != addr
}

proof fn lemma_all_txs_prepend(b: BlockModel, c: Seq<BlockModel>)
    ensures
        all_txs(seq![b] + c) == b.transactions + all_txs(c),
    decreases c.len(),
{
    let s = seq![b] + c;
    assert(all_txs(s) == all_txs(s.drop_last()) + s.last().transactions);
    if c.len() == 0 {
        assert(s.drop_last() =~= Seq::<BlockModel>::empty());
        assert(s.last() == b);
        assert(all_txs(s.drop_last()) == Seq::<TxModel>::empty());
        assert(all_txs(c) == Seq::<TxModel>::empty());
        assert(Seq::<TxModel>::empty() + b.transactions =~= b.transactions);
        assert(b.transactions + Seq::<TxModel>::empty() =~= b.transactions);
    } else {
        assert(s.drop_last() =~= seq![b] + c.drop_last());
        assert(s.last() == c.last());
        lemma_all_txs_prepend(b, c.drop_last());
        assert(all_txs(c) == all_txs(c.drop_last()) + c.last().transactions);
        assert(b.transactions + all_txs(c) =~= b.transactions + all_txs(c.drop_last())
            + c.last().transactions);
    }
}

proof fn lemma_utxos_prepend(e: (TxModel, Seq<int>), es: Seq<(TxModel, Seq<int>)>)
    ensures
        utxos_of(seq![e] + es) == entry_outputs(e) + utxos_of(es),
    decreases es.len(),
{
    let s = seq![e] + es;
    assert(utxos_of(s) == utxos_of(s.drop_last()) + entry_outputs(s.last()));
    if es.len() == 0 {
        assert(s.drop_last() =~= Seq::<(TxModel, Seq<int>)>::empty());
        assert(s.last() == e);
        assert(utxos_of(s.drop_last()) == Seq::<OutputModel>::empty());
        assert(utxos_of(es) == Seq::<OutputModel>::empty());
        assert(entry_outputs(e) + Seq::<OutputModel>::empty() =~= entry_outputs(e));
        assert(Seq::<OutputModel>::empty() + entry_outputs(e) =~= entry_outputs(e));
    } else {
        assert(s.drop_last() =~= seq![e] + es.drop_last());
        assert(s.last() == es.last());
        lemma_utxos_prepend(e, es.drop_last());
        assert(utxos_of(es) == utxos_of(es.drop_last()) + entry_outputs(es.last()));
        assert(entry_outputs(e) + utxos_of(es) =~= entry_outputs(e) + utxos_of(es.drop_last())
            + entry_outputs(es.last()));
    }
}

proof fn lemma_sum_concat(x: Seq<OutputModel>, y: Seq<OutputModel>)
    ensures
        sum_values(x + y) == sum_values(x) + sum_values(y),
    decreases y.len(),
{
    if y.len() == 0 {
        assert(x + y =~= x);
    } else {
        assert((x + y).drop_last() =~= x + y.drop_last());
        lemma_sum_concat(x, y.drop_last());
    }
}

proof fn lemma_free_ignores(
    tx: TxModel,
    a: Seq<char>,
    s: Set<(Seq<u8>, int)>,
    x: Set<(Seq<u8>, int)>,
    k: nat,
)
    requires
        k <= tx.vout.len(),
        forall|i: int|
            0 <= i < tx.vout.len() && #[trigger] s.contains((tx.id, i)) ==> tx.vout[i].script_pub_key != a,
    ensures
        free_idx(tx, a, s.union(x), k) == free_idx(tx, a, x, k),
    decreases k,
{
    if k > 0 {
        lemma_free_ignores(tx, a, s, x, (k - 1) as nat);
        if s.contains((tx.id, k - 1)) {
            assert(tx.vout[k - 1].script_pub_key != a);
        }
    }
}

/// Spent pairs that touch no output of `addr` do not change the walk for
/// `addr`.
proof fn lemma_entries_ignores(txs: Seq<TxModel>, a: Seq<char>, s: Set<(Seq<u8>, int)>, x: Set<
    (Seq<u8>, int),
>)
    requires
        no_hit(s, txs, a),
    ensures
        unspent_entries(txs, a, s.union(x)) == unspent_entries(txs, a, x),
    decreases txs.len(),
{
    if txs.len() > 0 {
        let tx = txs[0];
        assert forall|i: int|
            0 <= i < tx.vout.len() && #[trigger] s.contains((tx.id, i)) implies tx.vout[i].script_pub_key
            != a by {
            assert(s.contains((txs[0].id, i)));
        }
        lemma_free_ignores(tx, a, s, x, tx.vout.len());
        let rest = txs.drop_first();
        assert(no_hit(s, rest, a)) by {
            assert forall|j: int, i: int|
                0 <= j < rest.len() && 0 <= i < rest[j].vout.len() && #[trigger] s.contains(
                    (rest[j].id, i),
                ) implies rest[j].vout[i].script_pub_key != a by {
                assert(rest[j] == txs[j + 1]);
            }
        }
        lemma_entries_ignores(rest, a, s, x.union(spent_by(tx)));
        assert(s.union(x).union(spent_by(tx)) =~= s.union(x.union(spent_by(tx))));
    }
}

proof fn lemma_candidate_members(es: Seq<(TxModel, Seq<int>)>, k: int)
    requires
        0 <= k < candidates(es).len(),
    ensures
        exists|n: int, m: int|
            0 <= n < es.len() && 0 <= m < es[n].1.len() && es[n].0.id == candidates(es)[k].0
                && es[n].1[m] == candidates(es)[k].1,
    decreases es.len(),
{
    let prev = candidates(es.drop_last());
    if k < prev.len() {
        lemma_candidate_members(es.drop_last(), k);
        let (n, m) = choose|n: int, m: int|
            0 <= n < es.drop_last().len() && 0 <= m < es.drop_last()[n].1.len()
                && es.drop_last()[n].0.id == prev[k].0 && es.drop_last()[n].1[m] == prev[k].1;
        assert(candidates(es)[k] == prev[k]);
        assert(es[n] == es.drop_last()[n]);
    } else {
        let n = es.len() - 1;
        let m = k - prev.len();
        assert(candidates(es)[k] == entry_cands(es.last())[m]);
        assert(es[n] == es.last());
    }
}

proof fn lemma_select_members(c: Seq<(Seq<u8>, int, i32)>, amount: int, acc: int, k: int)
    requires
        0 <= k < select(c, amount, acc).1.len(),
    ensures
        exists|i: int|
            0 <= i < c.len() && select(c, amount, acc).1[k] == (c[i].0, c[i].1),
    decreases c.len(),
{
    let r = select(c.drop_first(), amount, acc + c[0].2);
    if k > 0 {
        lemma_select_members(c.drop_first(), amount, acc + c[0].2, k - 1);
        let i = choose|i: int| 0 <= i < c.drop_first().len() && r.1[k - 1] == (
        c.drop_first()[i].0, c.drop_first()[i].1);
        assert(c[i + 1] == c.drop_first()[i]);
    } else {
        assert(select(c, amount, acc).1[0] == (c[0].0, c[0].1));
    }
}

/// A transfer to another address credits it with exactly the amount: on the
/// chain that the transfer's block extends, the receiver's balance grows by
/// `amount`. Stated for chains whose transaction ids are distinct and whose
/// output indices fit an input's `i32`.
pub proof fn lemma_transfer_credits_receiver(
    c: Seq<BlockModel>,
    b: BlockModel,
    from: Seq<char>,
    to: Seq<char>,
    amount: i32,
)
    requires
        from != to,
        spendable(c, from, amount as int).0 >= amount,
        b.transactions.len() == 1,
        is_transfer_tx(b.transactions[0], c, from, to, amount),
        ids_unique(all_txs(c)),
        indices_fit(all_txs(c)),
    ensures
        balance_of(seq![b] + c, to) == balance_of(c, to) + amount,
{
    let t = b.transactions[0];
    let txs = all_txs(c);
    let (acc, sel) = spendable(c, from, amount as int);
    let es = entries_of(c, from);
    let cands = candidates(es);
    lemma_all_txs_prepend(b, c);
    assert(b.transactions =~= seq![t]);
    let all2 = seq![t] + txs;
    assert(all2[0] == t);
    assert(all2.drop_first() =~= txs);
    let sb = spent_by(t);
    assert(no_hit(sb, txs, to)) by {
        assert forall|j: int, i: int|
            0 <= j < txs.len() && 0 <= i < txs[j].vout.len() && #[trigger] sb.contains((txs[j].id, i))
                implies txs[j].vout[i].script_pub_key != to by {
            if !is_coinbase_model(t) {
                let q = choose|q: int|
                    0 <= q < t.vin.len() && (txs[j].id, i) == (t.vin[q].txid, t.vin[q].vout as int);
                assert(t.vin[q] == transfer_inputs(sel, from)[q]);
                lemma_select_members(cands, amount as int, 0, q);
                let ci = choose|ci: int| 0 <= ci < cands.len() && sel[q] == (cands[ci].0, cands[ci].1);
                lemma_candidate_members(es, ci);
                let (n, m) = choose|n: int, m: int|
                    0 <= n < es.len() && 0 <= m < es[n].1.len() && es[n].0.id == cands[ci].0
                        && es[n].1[m] == cands[ci].1;
                lemma_entries_valid(txs, from, Set::empty(), n);
                let tj = choose|tj: int| 0 <= tj < txs.len() && txs[tj] == es[n].0;
                assert(0 <= es[n].1[m] < es[n].0.vout.len());
                assert(txs[tj].vout.len() <= i32::MAX);
                assert((cands[ci].1 as i32) as int == cands[ci].1);
                if tj != j {
                    if tj < j {
                        assert(txs[tj].id != txs[j].id);
                    } else {
                        assert(txs[j].id != txs[tj].id);
                    }
                }
            }
        }
    }
    lemma_entries_ignores(txs, to, sb, Set::empty());
    assert(Set::<(Seq<u8>, int)>::empty().union(sb) =~= sb.union(Set::empty()));
    let rest = unspent_entries(txs, to, Set::empty());
    let o1 = t.vout[0];
    assert(t.vout == transfer_outputs(from, to, amount, acc));
    assert(o1 == OutputModel { value: amount, script_pub_key: to });
    let e0 = Set::<(Seq<u8>, int)>::empty();
    assert(free_idx(t, to, e0, 0) =~= Seq::<int>::empty());
    assert(free_idx(t, to, e0, 1) =~= seq![0int]);
    if acc > amount {
        assert(t.vout.len() == 2);
        assert(t.vout[1].script_pub_key == from);
        assert(free_idx(t, to, e0, 2) =~= seq![0int]);
    } else {
        assert(t.vout.len() == 1);
    }
    let f = seq![0int];
    assert(free_idx(t, to, e0, t.vout.len()) == f);
    assert(unspent_entries(all2, to, e0) =~= seq![(t, f)] + rest);
    lemma_utxos_prepend((t, f), rest);
    assert(entry_outputs((t, f)) =~= seq![o1]);
    lemma_sum_concat(seq![o1], utxos_of(rest));
    assert(seq![o1].drop_last() =~= Seq::<OutputModel>::empty());
    assert(sum_values(seq![o1]) == sum_values(Seq::<OutputModel>::empty()) + o1.value);
}

/// A transfer creates no value: its outputs hold exactly the total of the
/// outputs that it spends.
pub proof fn lemma_transfer_conserves_value(
    t: TxModel,
    c: Seq<BlockModel>,
    from: Seq<char>,
    to: Seq<char>,
    amount: i32,
)
    requires
        amount >= 0,
        spendable(c, from, amount as int).0 >= amount,
        is_transfer_tx(t, c, from, to, amount),
    ensures
        sum_values(t.vout) == spendable(c, from, amount as int).0,
{
    let acc = spendable(c, from, amount as int).0;
    lemma_select_overshoot(candidates(entries_of(c, from)), amount as int, 0);
    let o1 = OutputModel { value: amount, script_pub_key: to };
    let e = Seq::<OutputModel>::empty();
    assert(seq![o1].drop_last() =~= e);
    assert(sum_values(seq![o1]) == sum_values(e) + amount);
    if acc > amount {
        let o2 = OutputModel { value: (acc - amount) as i32, script_pub_key: from };
        assert(t.vout =~= seq![o1, o2]);
        assert(seq![o1, o2].drop_last() =~= seq![o1]);
        assert(sum_values(seq![o1, o2]) == sum_values(seq![o1]) + o2.value);
    } else {
        assert(t.vout =~= seq![o1]);
    }
}

} // verus!
