//! Transactions: inputs that spend earlier outputs, outputs locked to an
//! address, and an id that is the digest of the rest.
use crate::codec::{
    enc_bytes, enc_i32, enc_len, enc_str, lemma_le_round_trip, lemma_parse_bytes, lemma_parse_len,
    lemma_parse_str, lemma_pow256_values, lemma_signed_casts, lemma_split_at, parse_bytes, parse_le,
    parse_str, pow256, push_bytes, push_le, push_str, read_bytes, read_num, read_string,
};
use crate::utils::{compute_sha256, sha256_of};
use vstd::prelude::*;
use vstd::utf8::*;

pub use crate::utxo::new_utxo_transaction;

verus! {

/// The value that a coinbase transaction mints.
pub const SUBSIDY: i32 = 10;

/// Spends output `vout` of transaction `txid`; `script_sig` is the address
/// that unlocks it.
#[derive(Clone, Debug)]
pub struct TXInput {
    pub txid: Vec<u8>,
    pub vout: i32,
    pub script_sig: String,
}

/// A value locked to the address `script_pub_key`.
#[derive(Clone, Debug)]
pub struct TXOutput {
    pub value: i32,
    pub script_pub_key: String,
}

#[derive(Clone, Debug)]
pub struct Transaction {
    pub id: Vec<u8>,
    pub vin: Vec<TXInput>,
    pub vout: Vec<TXOutput>,
}

pub ghost struct InputModel {
    pub txid: Seq<u8>,
    pub vout: i32,
    pub script_sig: Seq<char>,
}

pub ghost struct OutputModel {
    pub value: i32,
    pub script_pub_key: Seq<char>,
}

pub ghost struct TxModel {
    pub id: Seq<u8>,
    pub vin: Seq<InputModel>,
    pub vout: Seq<OutputModel>,
}

impl View for TXInput {
    type V = InputModel;

    open spec fn view(&self) -> InputModel {
        InputModel { txid: self.txid@, vout: self.vout, script_sig: self.script_sig@ }
    }
}

impl View for TXOutput {
    type V = OutputModel;

    open spec fn view(&self) -> OutputModel {
        OutputModel { value: self.value, script_pub_key: self.script_pub_key@ }
    }
}

pub open spec fn inputs_view(v: Seq<TXInput>) -> Seq<InputModel> {
    v.map_values(|i: TXInput| i@)
}

pub open spec fn outputs_view(v: Seq<TXOutput>) -> Seq<OutputModel> {
    v.map_values(|o: TXOutput| o@)
}

impl View for Transaction {
    type V = TxModel;

    open spec fn view(&self) -> TxModel {
        TxModel { id: self.id@, vin: inputs_view(self.vin@), vout: outputs_view(self.vout@) }
    }
}

/// A transaction is a coinbase when its one input refers to no transaction
/// and to output -1.
pub open spec fn is_coinbase_model(t: TxModel) -> bool {
    &&& t.vin.len() == 1
    &&& t.vin[0].txid.len() == 0
    &&& t.vin[0].vout == -1
}

pub open spec fn enc_input(m: InputModel) -> Seq<u8> {
    enc_bytes(m.txid) + enc_i32(m.vout) + enc_str(m.script_sig)
}

pub open spec fn enc_output(m: OutputModel) -> Seq<u8> {
    enc_i32(m.value) + enc_str(m.script_pub_key)
}

pub open spec fn enc_inputs(s: Seq<InputModel>) -> Seq<u8>
    decreases s.len(),
{
    if s.len() == 0 {
        seq![]
    } else {
        enc_inputs(s.drop_last()) + enc_input(s.last())
    }
}

pub open spec fn enc_outputs(s: Seq<OutputModel>) -> Seq<u8>
    decreases s.len(),
{
    if s.len() == 0 {
        seq![]
    } else {
        enc_outputs(s.drop_last()) + enc_output(s.last())
    }
}

/// A transaction: its id, then its inputs and its outputs, each list behind
/// its count.
pub open spec fn enc_tx(m: TxModel) -> Seq<u8> {
    enc_bytes(m.id) + enc_len(m.vin.len()) + enc_inputs(m.vin) + enc_len(m.vout.len())
        + enc_outputs(m.vout)
}

/// The id of a transaction with these inputs and outputs: the digest of its
/// encoding with an empty id.
pub open spec fn tx_id_of(vin: Seq<InputModel>, vout: Seq<OutputModel>) -> Seq<u8> {
    sha256_of(enc_tx(TxModel { id: seq![], vin, vout }))
}

/// Every length in an input fits the 64-bit length fields of the encoding.
pub open spec fn input_fits(m: InputModel) -> bool {
    &&& m.txid.len() < pow256(8)
    &&& encode_utf8(m.script_sig).len() < pow256(8)
}

pub open spec fn output_fits(m: OutputModel) -> bool {
    encode_utf8(m.script_pub_key).len() < pow256(8)
}

pub open spec fn tx_fits(m: TxModel) -> bool {
    &&& m.id.len() < pow256(8)
    &&& m.vin.len() < pow256(8)
    &&& m.vout.len() < pow256(8)
    &&& forall|i: int| 0 <= i < m.vin.len() ==> input_fits(#[trigger] m.vin[i])
    &&& forall|i: int| 0 <= i < m.vout.len() ==> output_fits(#[trigger] m.vout[i])
}

pub open spec fn parse_input(s: Seq<u8>, p: int) -> Option<(InputModel, int)> {
    match parse_bytes(s, p) {
        Some((txid, at1)) => match parse_le(s, at1, 4) {
            Some((v, at2)) => match parse_str(s, at2) {
                Some((sig, at3)) => Some(
                    (InputModel { txid, vout: (v as u32) as i32, script_sig: sig }, at3),
                ),
                None => None,
            },
            None => None,
        },
        None => None,
    }
}

pub open spec fn parse_output(s: Seq<u8>, p: int) -> Option<(OutputModel, int)> {
    match parse_le(s, p, 4) {
        Some((v, at1)) => match parse_str(s, at1) {
            Some((key, at2)) => Some(
                (OutputModel { value: (v as u32) as i32, script_pub_key: key }, at2),
            ),
            None => None,
        },
        None => None,
    }
}

/// `n` inputs, one after the other, from `p`.
pub open spec fn parse_inputs(s: Seq<u8>, p: int, n: nat) -> Option<(Seq<InputModel>, int)>
    decreases n,
{
    if n == 0 {
        Some((seq![], p))
    } else {
        match parse_inputs(s, p, (n - 1) as nat) {
            Some((l, q)) => match parse_input(s, q) {
                Some((x, r)) => Some((l.push(x), r)),
                None => None,
            },
            None => None,
        }
    }
}

pub open spec fn parse_outputs(s: Seq<u8>, p: int, n: nat) -> Option<(Seq<OutputModel>, int)>
    decreases n,
{
    if n == 0 {
        Some((seq![], p))
    } else {
        match parse_outputs(s, p, (n - 1) as nat) {
            Some((l, q)) => match parse_output(s, q) {
                Some((x, r)) => Some((l.push(x), r)),
                None => None,
            },
            None => None,
        }
    }
}

pub open spec fn parse_tx(s: Seq<u8>, p: int) -> Option<(TxModel, int)> {
    match parse_bytes(s, p) {
        Some((id, at1)) => match parse_le(s, at1, 8) {
            Some((ni, at2)) => match parse_inputs(s, at2, ni) {
                Some((vin, at3)) => match parse_le(s, at3, 8) {
                    Some((no, at4)) => match parse_outputs(s, at4, no) {
                        Some((vout, at5)) => Some((TxModel { id, vin, vout }, at5)),
                        None => None,
                    },
                    None => None,
                },
                None => None,
            },
            None => None,
        },
        None => None,
    }
}

pub proof fn lemma_parse_input(s: Seq<u8>, p: int, x: InputModel)
    requires
        input_fits(x),
        0 <= p,
        p + enc_input(x).len() <= s.len(),
        s.subrange(p, p + enc_input(x).len()) == enc_input(x),
    ensures
        parse_input(s, p) == Some((x, p + enc_input(x).len())),
{
    let a = enc_bytes(x.txid);
    let b = enc_i32(x.vout);
    let c = enc_str(x.script_sig);
    assert(enc_input(x) == (a + b) + c);
    lemma_split_at(s, p, a + b, c);
    lemma_split_at(s, p, a, b);
    lemma_parse_bytes(s, p, x.txid);
    lemma_pow256_values();
    lemma_le_round_trip((x.vout as u32) as nat, 4);
    lemma_parse_str(s, p + a.len() + b.len(), x.script_sig);
    lemma_signed_casts(x.vout, 0);
}

pub proof fn lemma_parse_output(s: Seq<u8>, p: int, x: OutputModel)
    requires
        output_fits(x),
        0 <= p,
        p + enc_output(x).len() <= s.len(),
        s.subrange(p, p + enc_output(x).len()) == enc_output(x),
    ensures
        parse_output(s, p) == Some((x, p + enc_output(x).len())),
{
    let a = enc_i32(x.value);
    let c = enc_str(x.script_pub_key);
    lemma_split_at(s, p, a, c);
    lemma_pow256_values();
    lemma_le_round_trip((x.value as u32) as nat, 4);
    lemma_parse_str(s, p + a.len(), x.script_pub_key);
    lemma_signed_casts(x.value, 0);
}

pub proof fn lemma_parse_inputs(s: Seq<u8>, p: int, l: Seq<InputModel>)
    requires
        forall|i: int| 0 <= i < l.len() ==> input_fits(#[trigger] l[i]),
        0 <= p,
        p + enc_inputs(l).len() <= s.len(),
        s.subrange(p, p + enc_inputs(l).len()) == enc_inputs(l),
    ensures
        parse_inputs(s, p, l.len()) == Some((l, p + enc_inputs(l).len())),
    decreases l.len(),
{
    if l.len() > 0 {
        let init = l.drop_last();
        lemma_split_at(s, p, enc_inputs(init), enc_input(l.last()));
        assert forall|i: int| 0 <= i < init.len() implies input_fits(#[trigger] init[i]) by {
            assert(init[i] == l[i]);
        }
        lemma_parse_inputs(s, p, init);
        lemma_parse_input(s, p + enc_inputs(init).len(), l.last());
        assert(init.push(l.last()) =~= l);
    }
}

pub proof fn lemma_parse_outputs(s: Seq<u8>, p: int, l: Seq<OutputModel>)
    requires
        forall|i: int| 0 <= i < l.len() ==> output_fits(#[trigger] l[i]),
        0 <= p,
        p + enc_outputs(l).len() <= s.len(),
        s.subrange(p, p + enc_outputs(l).len()) == enc_outputs(l),
    ensures
        parse_outputs(s, p, l.len()) == Some((l, p + enc_outputs(l).len())),
    decreases l.len(),
{
    if l.len() > 0 {
        let init = l.drop_last();
        lemma_split_at(s, p, enc_outputs(init), enc_output(l.last()));
        assert forall|i: int| 0 <= i < init.len() implies output_fits(#[trigger] init[i]) by {
            assert(init[i] == l[i]);
        }
        lemma_parse_outputs(s, p, init);
        lemma_parse_output(s, p + enc_outputs(init).len(), l.last());
        assert(init.push(l.last()) =~= l);
    }
}

/// A transaction whose lengths fit the format reads back from its encoding,
/// wherever that stands in a byte sequence.
pub proof fn lemma_parse_tx(s: Seq<u8>, p: int, x: TxModel)
    requires
        tx_fits(x),
        0 <= p,
        p + enc_tx(x).len() <= s.len(),
        s.subrange(p, p + enc_tx(x).len()) == enc_tx(x),
    ensures
        parse_tx(s, p) == Some((x, p + enc_tx(x).len())),
{
    let a = enc_bytes(x.id);
    let b = enc_len(x.vin.len());
    let c = enc_inputs(x.vin);
    let d = enc_len(x.vout.len());
    let e = enc_outputs(x.vout);
    assert(enc_tx(x) == (((a + b) + c) + d) + e);
    lemma_split_at(s, p, ((a + b) + c) + d, e);
    lemma_split_at(s, p, (a + b) + c, d);
    lemma_split_at(s, p, a + b, c);
    lemma_split_at(s, p, a, b);
    lemma_parse_bytes(s, p, x.id);
    lemma_le_round_trip(x.vin.len(), 8);
    lemma_le_round_trip(x.vout.len(), 8);
    lemma_parse_len(s, p + a.len(), x.vin.len());
    lemma_parse_inputs(s, p + a.len() + b.len(), x.vin);
    lemma_parse_len(s, p + a.len() + b.len() + c.len(), x.vout.len());
    lemma_parse_outputs(s, p + a.len() + b.len() + c.len() + d.len(), x.vout);
}

impl TXInput {
    /// Whether this input was unlocked by `unlocking_data`.
    pub fn can_unlock_output_with(&self, unlocking_data: &str) -> (r: bool)
        ensures
            r == (self@.script_sig == unlocking_data@),
    {
        self.script_sig == unlocking_data.to_owned()
    }

    pub fn duplicate(&self) -> (r: TXInput)
        ensures
            r@ == self@,
    {
        TXInput { txid: self.txid.clone(), vout: self.vout, script_sig: self.script_sig.clone() }
    }

    pub fn encode(&self, out: &mut Vec<u8>)
        ensures
            final(out)@ == old(out)@ + enc_input(self@),
            input_fits(self@),
    {
        push_bytes(out, self.txid.as_slice());
        push_le(out, (self.vout as u32) as u64, 4);
        push_str(out, self.script_sig.as_str());
        assert(final(out)@ =~= old(out)@ + enc_input(self@));
    }

    pub fn decode(b: &Vec<u8>, pos: usize) -> (r: Option<(TXInput, usize)>)
        ensures
            match r {
                Some((x, q)) => parse_input(b@, pos as int) == Some((x@, q as int)),
                None => parse_input(b@, pos as int) is None,
            },
    {
        let (txid, at1) = match read_bytes(b, pos) {
            Some(x) => x,
            None => return None,
        };
        let (v, at2) = match read_num(b, at1, 4) {
            Some(x) => x,
            None => return None,
        };
        let (sig, at3) = match read_string(b, at2) {
            Some(x) => x,
            None => return None,
        };
        Some((TXInput { txid, vout: (v as u32) as i32, script_sig: sig }, at3))
    }
}

impl TXOutput {
    /// Whether `unlocking_data` is the address this output is locked to.
    pub fn can_be_unlocked_with(&self, unlocking_data: &str) -> (r: bool)
        ensures
            r == (self@.script_pub_key == unlocking_data@),
    {
        self.script_pub_key == unlocking_data.to_owned()
    }

    pub fn duplicate(&self) -> (r: TXOutput)
        ensures
            r@ == self@,
    {
        TXOutput { value: self.value, script_pub_key: self.script_pub_key.clone() }
    }

    pub fn encode(&self, out: &mut Vec<u8>)
        ensures
            final(out)@ == old(out)@ + enc_output(self@),
            output_fits(self@),
    {
        push_le(out, (self.value as u32) as u64, 4);
        push_str(out, self.script_pub_key.as_str());
    }

    pub fn decode(b: &Vec<u8>, pos: usize) -> (r: Option<(TXOutput, usize)>)
        ensures
            match r {
                Some((x, q)) => parse_output(b@, pos as int) == Some((x@, q as int)),
                None => parse_output(b@, pos as int) is None,
            },
    {
        let (v, at1) = match read_num(b, pos, 4) {
            Some(x) => x,
            None => return None,
        };
        let (key, at2) = match read_string(b, at1) {
            Some(x) => x,
            None => return None,
        };
        Some((TXOutput { value: (v as u32) as i32, script_pub_key: key }, at2))
    }
}

/// Appends the encoding of a transaction with the given fields.
fn encode_fields(id: &Vec<u8>, vin: &Vec<TXInput>, vout: &Vec<TXOutput>, out: &mut Vec<u8>)
    ensures
        final(out)@ == old(out)@ + enc_tx(TxModel { id: id@, vin: inputs_view(vin@), vout: outputs_view(vout@) }),
        tx_fits(TxModel { id: id@, vin: inputs_view(vin@), vout: outputs_view(vout@) }),
{
    proof {
        lemma_pow256_values();
    }
    push_bytes(out, id.as_slice());
    push_le(out, vin.len() as u64, 8);
    let ghost mid = out@;
    let mut i: usize = 0;
    while i < vin.len()
        invariant
            i <= vin@.len(),
            out@ == mid + enc_inputs(inputs_view(vin@).take(i as int)),
            forall|j: int| 0 <= j < i ==> input_fits(#[trigger] inputs_view(vin@)[j]),
        decreases vin@.len() - i,
    {
        vin[i].encode(out);
        let ghost t = inputs_view(vin@).take(i + 1);
        assert(t.drop_last() =~= inputs_view(vin@).take(i as int));
        i = i + 1;
    }
    assert(inputs_view(vin@).take(i as int) =~= inputs_view(vin@));
    push_le(out, vout.len() as u64, 8);
    let ghost mid2 = out@;
    let mut k: usize = 0;
    while k < vout.len()
        invariant
            k <= vout@.len(),
            out@ == mid2 + enc_outputs(outputs_view(vout@).take(k as int)),
            forall|j: int| 0 <= j < k ==> output_fits(#[trigger] outputs_view(vout@)[j]),
        decreases vout@.len() - k,
    {
        vout[k].encode(out);
        let ghost t = outputs_view(vout@).take(k + 1);
        assert(t.drop_last() =~= outputs_view(vout@).take(k as int));
        k = k + 1;
    }
    assert(outputs_view(vout@).take(k as int) =~= outputs_view(vout@));
    let ghost m = TxModel { id: id@, vin: inputs_view(vin@), vout: outputs_view(vout@) };
    assert(final(out)@ =~= old(out)@ + enc_tx(m));
}

impl Transaction {
    pub fn duplicate(&self) -> (r: Transaction)
        ensures
            r@ == self@,
    {
        let mut vin: Vec<TXInput> = Vec::new();
        let mut i: usize = 0;
        while i < self.vin.len()
            invariant
                i <= self.vin@.len(),
                inputs_view(vin@) == inputs_view(self.vin@).take(i as int),
            decreases self.vin@.len() - i,
        {
            let ghost before = vin@;
            vin.push(self.vin[i].duplicate());
            assert(inputs_view(vin@) =~= inputs_view(before).push(self.vin@[i as int]@));
            assert(inputs_view(self.vin@).take(i + 1) =~= inputs_view(self.vin@).take(
                i as int,
            ).push(self.vin@[i as int]@));
            i = i + 1;
        }
        let mut vout: Vec<TXOutput> = Vec::new();
        let mut k: usize = 0;
        while k < self.vout.len()
            invariant
                k <= self.vout@.len(),
                outputs_view(vout@) == outputs_view(self.vout@).take(k as int),
            decreases self.vout@.len() - k,
        {
            let ghost before = vout@;
            vout.push(self.vout[k].duplicate());
            assert(outputs_view(vout@) =~= outputs_view(before).push(self.vout@[k as int]@));
            assert(outputs_view(self.vout@).take(k + 1) =~= outputs_view(self.vout@).take(
                k as int,
            ).push(self.vout@[k as int]@));
            k = k + 1;
        }
        assert(inputs_view(self.vin@).take(i as int) =~= inputs_view(self.vin@));
        assert(outputs_view(self.vout@).take(k as int) =~= outputs_view(self.vout@));
        Transaction { id: self.id.clone(), vin, vout }
    }

    /// Sets the id to the digest of the transaction's encoding with an empty id.
    pub(crate) fn set_id(&mut self)
        ensures
            final(self)@ == (TxModel { id: tx_id_of(old(self)@.vin, old(self)@.vout), ..old(self)@ }),
    {
        let mut encoded: Vec<u8> = Vec::new();
        let empty: Vec<u8> = Vec::new();
        encode_fields(&empty, &self.vin, &self.vout, &mut encoded);
        assert(encoded@ =~= enc_tx(TxModel { id: seq![], vin: self@.vin, vout: self@.vout }));
        self.id = compute_sha256(encoded.as_slice());
    }

    /// Whether this is a coinbase transaction.
    pub fn is_coinbase(&self) -> (r: bool)
        ensures
            r == is_coinbase_model(self@),
    {
        self.vin.len() == 1 && self.vin[0].txid.len() == 0 && self.vin[0].vout == -1
    }

    pub fn encode(&self, out: &mut Vec<u8>)
        ensures
            final(out)@ == old(out)@ + enc_tx(self@),
            tx_fits(self@),
    {
        encode_fields(&self.id, &self.vin, &self.vout, out);
    }

    pub fn decode(b: &Vec<u8>, pos: usize) -> (r: Option<(Transaction, usize)>)
        ensures
            match r {
                Some((x, q)) => parse_tx(b@, pos as int) == Some((x@, q as int)),
                None => parse_tx(b@, pos as int) is None,
            },
    {
        let (id, at1) = match read_bytes(b, pos) {
            Some(x) => x,
            None => return None,
        };
        let (ni, at2) = match read_num(b, at1, 8) {
            Some(x) => x,
            None => return None,
        };
        let mut vin: Vec<TXInput> = Vec::new();
        let mut p: usize = at2;
        let mut i: u64 = 0;
        while i < ni
            invariant
                i <= ni,
                parse_bytes(b@, pos as int) == Some((id@, at1 as int)),
                parse_le(b@, at1 as int, 8) == Some((ni as nat, at2 as int)),
                parse_inputs(b@, at2 as int, i as nat) == Some((inputs_view(vin@), p as int)),
            decreases ni - i,
        {
            match TXInput::decode(b, p) {
                Some((x, q)) => {
                    vin.push(x);
                    assert(inputs_view(vin@) =~= inputs_view(vin@).drop_last().push(x@));
                    p = q;
                },
                None => {
                    assert(parse_inputs(b@, at2 as int, (i + 1) as nat) is None);
                    proof {
                        lemma_parse_inputs_stops(b@, at2 as int, (i + 1) as nat, ni as nat);
                    }
                    return None;
                },
            }
            i = i + 1;
        }
        let at3 = p;
        let (no, at4) = match read_num(b, p, 8) {
            Some(x) => x,
            None => return None,
        };
        let mut vout: Vec<TXOutput> = Vec::new();
        let mut p: usize = at4;
        let mut k: u64 = 0;
        while k < no
            invariant
                k <= no,
                parse_bytes(b@, pos as int) == Some((id@, at1 as int)),
                parse_le(b@, at1 as int, 8) == Some((ni as nat, at2 as int)),
                parse_inputs(b@, at2 as int, ni as nat) == Some((inputs_view(vin@), at3 as int)),
                parse_le(b@, at3 as int, 8) == Some((no as nat, at4 as int)),
                parse_outputs(b@, at4 as int, k as nat) == Some((outputs_view(vout@), p as int)),
            decreases no - k,
        {
            match TXOutput::decode(b, p) {
                Some((x, q)) => {
                    vout.push(x);
                    assert(outputs_view(vout@) =~= outputs_view(vout@).drop_last().push(x@));
                    p = q;
                },
                None => {
                    proof {
                        lemma_parse_outputs_stops(b@, at4 as int, (k + 1) as nat, no as nat);
                    }
                    return None;
                },
            }
            k = k + 1;
        }
        Some((Transaction { id, vin, vout }, p))
    }
}

proof fn lemma_parse_inputs_stops(s: Seq<u8>, p: int, n: nat, m: nat)
    requires
        n <= m,
        parse_inputs(s, p, n) is None,
    ensures
        parse_inputs(s, p, m) is None,
    decreases m,
{
    if m > n {
        lemma_parse_inputs_stops(s, p, n, (m - 1) as nat);
    }
}

proof fn lemma_parse_outputs_stops(s: Seq<u8>, p: int, n: nat, m: nat)
    requires
        n <= m,
        parse_outputs(s, p, n) is None,
    ensures
        parse_outputs(s, p, m) is None,
    decreases m,
{
    if m > n {
        lemma_parse_outputs_stops(s, p, n, (m - 1) as nat);
    }
}

/// The text of a coinbase input: `data`, or a reward line for `to` when
/// `data` is empty.
pub open spec fn coinbase_memo(to: Seq<char>, data: Seq<char>) -> Seq<char> {
    if data.len() == 0 {
        "Reward to "@ + to
    } else {
        data
    }
}

/// A coinbase transaction: it mints `SUBSIDY` for `to` out of nothing.
pub fn new_coinbase_tx(to: &str, data: &str) -> (r: Transaction)
    ensures
        r@.vin == seq![InputModel { txid: seq![], vout: -1i32, script_sig: coinbase_memo(to@, data@) }],
        r@.vout == seq![OutputModel { value: SUBSIDY, script_pub_key: to@ }],
        r@.id == tx_id_of(r@.vin, r@.vout),
        is_coinbase_model(r@),
{
    let input_data = if data.is_empty() {
        let mut memo = String::from_str("Reward to ");
        memo.append(to);
        memo
    } else {
        data.to_owned()
    };
    let txin = TXInput { txid: Vec::new(), vout: -1, script_sig: input_data };
    let txout = TXOutput { value: SUBSIDY, script_pub_key: to.to_owned() };
    let mut vin: Vec<TXInput> = Vec::new();
    vin.push(txin);
    let mut vout: Vec<TXOutput> = Vec::new();
    vout.push(txout);
    let mut tx = Transaction { id: Vec::new(), vin, vout };
    assert(tx@.vin =~= seq![InputModel { txid: seq![], vout: -1i32, script_sig: coinbase_memo(to@, data@) }]);
    assert(tx@.vout =~= seq![OutputModel { value: SUBSIDY, script_pub_key: to@ }]);
    tx.set_id();
    tx
}

} // verus!
