use vstd::prelude::*;

use crate::chain::Chain;
use crate::digest::script_hash;
use crate::digest::script_hash_of;
use crate::types::BlockHash;
use crate::types::OutPoint;
use crate::types::ScriptHash;
use crate::types::TxData;
use crate::types::Txid;

verus! {

/// One confirmed-history entry as handed to clients: the containing block's
/// height, the transaction's position in that block, and its id.
#[derive(Clone, Copy, Debug)]
pub struct HistoryEntry {
    pub height: u64,
    pub pos: u64,
    pub txid: Txid,
}

/// One transaction of a block, with its id.
#[derive(Clone, Debug)]
pub struct BlockTx {
    pub txid: Txid,
    pub tx: TxData,
}

/// One stored history row, keyed (script hash, height, position); the row
/// also names the block it was written for, so that readers can filter rows
/// of replaced blocks by current chain membership.
#[derive(Clone, Copy, Debug)]
pub struct IndexRow {
    pub scripthash: ScriptHash,
    pub height: u64,
    pub pos: u64,
    pub txid: Txid,
    pub blockhash: BlockHash,
}

/// The mathematical shape of a stored row.
pub struct HistoryRowV {
    pub scripthash: Seq<u8>,
    pub height: int,
    pub pos: int,
    pub txid: Seq<u8>,
    pub blockhash: Seq<u8>,
}

/// The script hashes of a transaction's outputs, in output order.
#[derive(Clone, Debug)]
pub struct TxOutsRec {
    pub txid: Txid,
    pub out_hashes: Vec<ScriptHash>,
}

/// Why a block could not be indexed.
#[derive(Clone, Copy, Debug, PartialEq, Eq, Structural)]
pub enum IndexError {
    /// An input spends an outpoint that is not indexed at a lower position
    /// in this same chain: a consistency error.
    MissingPrevOut,
}

pub open spec fn row_v(r: IndexRow) -> HistoryRowV {
    HistoryRowV {
        scripthash: r.scripthash.bytes@,
        height: r.height as int,
        pos: r.pos as int,
        txid: r.txid.bytes@,
        blockhash: r.blockhash.bytes@,
    }
}

pub open spec fn rows_view(s: Seq<IndexRow>) -> Seq<HistoryRowV> {
    s.map_values(|r: IndexRow| row_v(r))
}

/// The script hashes of a transaction's outputs, as byte sequences.
pub open spec fn out_hashes_of(t: TxData) -> Seq<Seq<u8>> {
    t.outputs@.map_values(|o: crate::types::TxOut| script_hash_of(o.script@))
}

pub open spec fn hashes_view(s: Seq<ScriptHash>) -> Seq<Seq<u8>> {
    s.map_values(|h: ScriptHash| h.bytes@)
}

/// The resolution map of an indexed prefix: transaction id to the script
/// hashes of its outputs.  A later record for the same id shadows an earlier
/// one.
pub open spec fn txmap_view(s: Seq<TxOutsRec>) -> Map<Seq<u8>, Seq<Seq<u8>>>
    decreases s.len(),
{
    if s.len() == 0 {
        Map::empty()
    } else {
        txmap_view(s.drop_last()).insert(s.last().txid.bytes@, hashes_view(s.last().out_hashes@))
    }
}

/// A coinbase input: the null outpoint (all-zero txid, maximal output index).
pub open spec fn is_null_outpoint(op: OutPoint) -> bool {
    op.vout == 0xffffffffu32 && forall|i: int| 0 <= i < 32 ==> op.txid.bytes@[i] == 0u8
}

/// Whether every real (non-coinbase) input of the inputs from position `i`
/// on resolves in the map.
pub open spec fn inputs_resolvable(inputs: Seq<OutPoint>, m: Map<Seq<u8>, Seq<Seq<u8>>>) -> bool {
    forall|i: int|
        0 <= i < inputs.len() && !is_null_outpoint(#[trigger] inputs[i]) ==> m.contains_key(
            inputs[i].txid.bytes@,
        ) && inputs[i].vout < m[inputs[i].txid.bytes@].len()
}

/// Whether an earlier output of the same transaction already carries this
/// output's script hash (such duplicates are collapsed to one history row).
pub open spec fn dup_output(tx: TxData, o: int) -> bool {
    exists|j: int|
        0 <= j < o && script_hash_of((#[trigger] tx.outputs@[j]).script@) == script_hash_of(
            tx.outputs@[o].script@,
        )
}

/// The funding rows of one transaction from output `o` on: one row per
/// distinct output script hash, at the hash's first occurrence.
pub open spec fn funding_rows_from(
    height: int,
    bh: Seq<u8>,
    pos: int,
    t: BlockTx,
    o: int,
) -> Seq<HistoryRowV>
    decreases t.tx.outputs@.len() - o,
{
    if o < 0 || o >= t.tx.outputs@.len() {
        Seq::empty()
    } else {
        let rest = funding_rows_from(height, bh, pos, t, o + 1);
        if dup_output(t.tx, o) {
            rest
        } else {
            seq![
                HistoryRowV {
                    scripthash: script_hash_of(t.tx.outputs@[o].script@),
                    height,
                    pos,
                    txid: t.txid.bytes@,
                    blockhash: bh,
                },
            ] + rest
        }
    }
}

/// The funding rows of one transaction.
pub open spec fn funding_rows(height: int, bh: Seq<u8>, pos: int, t: BlockTx) -> Seq<HistoryRowV> {
    funding_rows_from(height, bh, pos, t, 0)
}

/// Every funding row carries the transaction's position and id and the hash
/// of one of its output scripts.
pub proof fn lemma_funding_rows_sound(height: int, bh: Seq<u8>, pos: int, t: BlockTx, o: int)
    requires
        0 <= o,
    ensures
        forall|n: int|
            0 <= n < funding_rows_from(height, bh, pos, t, o).len() ==> {
                let r = #[trigger] funding_rows_from(height, bh, pos, t, o)[n];
                &&& r.height == height
                &&& r.blockhash == bh
                &&& r.pos == pos
                &&& r.txid == t.txid.bytes@
                &&& exists|oo: int|
                    o <= oo < t.tx.outputs@.len() && r.scripthash == script_hash_of(
                        (#[trigger] t.tx.outputs@[oo]).script@,
                    )
            },
    decreases t.tx.outputs@.len() - o,
{
    if o < t.tx.outputs@.len() {
        lemma_funding_rows_sound(height, bh, pos, t, o + 1);
        let rest = funding_rows_from(height, bh, pos, t, o + 1);
        let all = funding_rows_from(height, bh, pos, t, o);
        assert forall|n: int| 0 <= n < all.len() implies {
            let r = #[trigger] all[n];
            &&& r.height == height
            &&& r.blockhash == bh
            &&& r.pos == pos
            &&& r.txid == t.txid.bytes@
            &&& exists|oo: int|
                o <= oo < t.tx.outputs@.len() && r.scripthash == script_hash_of(
                    (#[trigger] t.tx.outputs@[oo]).script@,
                )
        } by {
            if dup_output(t.tx, o) {
                assert(all[n] == rest[n]);
            } else {
                if n == 0 {
                    assert(all[0].scripthash == script_hash_of(t.tx.outputs@[o].script@));
                } else {
                    assert(all[n] == rest[n - 1]);
                }
            }
        }
    }
}

/// The spending rows of one transaction from input `i` on: one row per real
/// input, keyed by the hash of the script of the output it consumes.
pub open spec fn spending_rows_from(
    height: int,
    bh: Seq<u8>,
    pos: int,
    txid: Seq<u8>,
    inputs: Seq<OutPoint>,
    m: Map<Seq<u8>, Seq<Seq<u8>>>,
    i: int,
) -> Seq<HistoryRowV>
    decreases inputs.len() - i,
{
    if i < 0 || i >= inputs.len() {
        Seq::empty()
    } else {
        let rest = spending_rows_from(height, bh, pos, txid, inputs, m, i + 1);
        if is_null_outpoint(inputs[i]) {
            rest
        } else {
            seq![
                HistoryRowV {
                    scripthash: m[inputs[i].txid.bytes@][inputs[i].vout as int],
                    height,
                    pos,
                    txid,
                    blockhash: bh,
                },
            ] + rest
        }
    }
}

/// All rows of one transaction: funding rows, then spending rows.
pub open spec fn rows_for_tx(
    height: int,
    bh: Seq<u8>,
    pos: int,
    t: BlockTx,
    m: Map<Seq<u8>, Seq<Seq<u8>>>,
) -> Seq<HistoryRowV> {
    funding_rows(height, bh, pos, t) + spending_rows_from(
        height,
        bh,
        pos,
        t.txid.bytes@,
        t.tx.inputs@,
        m,
        0,
    )
}

/// The rows of a whole block from transaction `k` on.  Each transaction's
/// outputs enter the resolution map before the next transaction, so inputs
/// spending outputs created earlier in the same block resolve in-flight.
pub open spec fn block_rows_from(
    height: int,
    bh: Seq<u8>,
    txs: Seq<BlockTx>,
    m: Map<Seq<u8>, Seq<Seq<u8>>>,
    k: int,
) -> Seq<HistoryRowV>
    decreases txs.len() - k,
{
    if k < 0 || k >= txs.len() {
        Seq::empty()
    } else {
        rows_for_tx(height, bh, k, txs[k], m) + block_rows_from(
            height,
            bh,
            txs,
            m.insert(txs[k].txid.bytes@, out_hashes_of(txs[k].tx)),
            k + 1,
        )
    }
}

/// Whether every transaction of the block from `k` on resolves all its real
/// inputs, threading the in-flight map as `block_rows_from` does.
pub open spec fn block_resolvable_from(
    txs: Seq<BlockTx>,
    m: Map<Seq<u8>, Seq<Seq<u8>>>,
    k: int,
) -> bool
    decreases txs.len() - k,
{
    if k < 0 || k >= txs.len() {
        true
    } else {
        inputs_resolvable(txs[k].tx.inputs@, m) && block_resolvable_from(
            txs,
            m.insert(txs[k].txid.bytes@, out_hashes_of(txs[k].tx)),
            k + 1,
        )
    }
}

/// The in-flight resolution map when transaction `k` of a block is indexed:
/// the map before the block, with the outputs of the first `k` transactions
/// inserted.
pub open spec fn map_at(txs: Seq<BlockTx>, m: Map<Seq<u8>, Seq<Seq<u8>>>, k: int) -> Map<
    Seq<u8>,
    Seq<Seq<u8>>,
>
    decreases k,
{
    if k <= 0 {
        m
    } else {
        map_at(txs, m, k - 1).insert(txs[k - 1].txid.bytes@, out_hashes_of(txs[k - 1].tx))
    }
}

/// Law: every row the indexer emits for a block points at a transaction of
/// that block — the row's position is in range and the transaction there has
/// the row's id — and the row's script hash is either the hash of one of
/// that transaction's output scripts (a funding row) or the hash recorded,
/// for some real input of it, in the in-flight resolution map for the
/// consumed outpoint (a spending row).
pub proof fn lemma_block_rows_sound(
    height: int,
    bh: Seq<u8>,
    txs: Seq<BlockTx>,
    m0: Map<Seq<u8>, Seq<Seq<u8>>>,
    k: int,
)
    requires
        0 <= k,
    ensures
        forall|n: int|
            0 <= n < block_rows_from(height, bh, txs, map_at(txs, m0, k), k).len() ==> {
                let r = #[trigger] block_rows_from(height, bh, txs, map_at(txs, m0, k), k)[n];
                &&& r.height == height
                &&& r.blockhash == bh
                &&& k <= r.pos < txs.len()
                &&& r.txid == txs[r.pos].txid.bytes@
                &&& ((exists|o: int|
                    0 <= o < txs[r.pos].tx.outputs@.len() && r.scripthash == script_hash_of(
                        #[trigger] txs[r.pos].tx.outputs@[o].script@,
                    )) || (exists|i: int|
                    0 <= i < txs[r.pos].tx.inputs@.len() && !is_null_outpoint(
                        #[trigger] txs[r.pos].tx.inputs@[i],
                    ) && r.scripthash == map_at(txs, m0, r.pos)[txs[r.pos].tx.inputs@[i].txid.bytes@][txs[
                        r.pos
                    ].tx.inputs@[i].vout as int]))
            },
    decreases txs.len() - k,
{
    if k < txs.len() {
        let m = map_at(txs, m0, k);
        let here = rows_for_tx(height, bh, k, txs[k], m);
        let m2 = m.insert(txs[k].txid.bytes@, out_hashes_of(txs[k].tx));
        assert(m2 == map_at(txs, m0, k + 1));
        lemma_block_rows_sound(height, bh, txs, m0, k + 1);
        lemma_rows_for_tx_sound(height, bh, k, txs[k], m);
        let all = block_rows_from(height, bh, txs, m, k);
        assert forall|n: int| 0 <= n < all.len() implies {
            let r = #[trigger] all[n];
            &&& r.height == height
            &&& r.blockhash == bh
            &&& k <= r.pos < txs.len()
            &&& r.txid == txs[r.pos].txid.bytes@
            &&& ((exists|o: int|
                0 <= o < txs[r.pos].tx.outputs@.len() && r.scripthash == script_hash_of(
                    #[trigger] txs[r.pos].tx.outputs@[o].script@,
                )) || (exists|i: int|
                0 <= i < txs[r.pos].tx.inputs@.len() && !is_null_outpoint(
                    #[trigger] txs[r.pos].tx.inputs@[i],
                ) && r.scripthash == map_at(txs, m0, r.pos)[txs[r.pos].tx.inputs@[i].txid.bytes@][txs[
                    r.pos
                ].tx.inputs@[i].vout as int]))
        } by {
            if n < here.len() {
                assert(all[n] == here[n]);
            } else {
                assert(all[n] == block_rows_from(height, bh, txs, m2, k + 1)[n - here.len()]);
            }
        }
    }
}

/// The rows of one transaction all carry its position and id, and are each
/// a funding row or a spending row of it.
pub proof fn lemma_rows_for_tx_sound(
    height: int,
    bh: Seq<u8>,
    pos: int,
    t: BlockTx,
    m: Map<Seq<u8>, Seq<Seq<u8>>>,
)
    ensures
        forall|n: int|
            0 <= n < rows_for_tx(height, bh, pos, t, m).len() ==> {
                let r = #[trigger] rows_for_tx(height, bh, pos, t, m)[n];
                &&& r.height == height
                &&& r.blockhash == bh
                &&& r.pos == pos
                &&& r.txid == t.txid.bytes@
                &&& ((exists|o: int|
                    0 <= o < t.tx.outputs@.len() && r.scripthash == script_hash_of(
                        #[trigger] t.tx.outputs@[o].script@,
                    )) || (exists|i: int|
                    0 <= i < t.tx.inputs@.len() && !is_null_outpoint(#[trigger] t.tx.inputs@[i])
                        && r.scripthash == m[t.tx.inputs@[i].txid.bytes@][t.tx.inputs@[i].vout as int]))
            },
{
    let f = funding_rows(height, bh, pos, t);
    assert forall|n: int| 0 <= n < rows_for_tx(height, bh, pos, t, m).len() implies {
        let r = #[trigger] rows_for_tx(height, bh, pos, t, m)[n];
        &&& r.height == height
        &&& r.blockhash == bh
        &&& r.pos == pos
        &&& r.txid == t.txid.bytes@
        &&& ((exists|o: int|
            0 <= o < t.tx.outputs@.len() && r.scripthash == script_hash_of(
                #[trigger] t.tx.outputs@[o].script@,
            )) || (exists|i: int|
            0 <= i < t.tx.inputs@.len() && !is_null_outpoint(#[trigger] t.tx.inputs@[i])
                && r.scripthash == m[t.tx.inputs@[i].txid.bytes@][t.tx.inputs@[i].vout as int]))
    } by {
        if n < f.len() {
            lemma_funding_rows_sound(height, bh, pos, t, 0);
            assert(rows_for_tx(height, bh, pos, t, m)[n] == f[n]);
        } else {
            lemma_spending_rows_sound(height, bh, pos, t.txid.bytes@, t.tx.inputs@, m, 0);
            assert(rows_for_tx(height, bh, pos, t, m)[n] == spending_rows_from(
                height,
                bh,
                pos,
                t.txid.bytes@,
                t.tx.inputs@,
                m,
                0,
            )[n - f.len()]);
        }
    }
}

/// Every spending row names the map's hash for some real input.
pub proof fn lemma_spending_rows_sound(
    height: int,
    bh: Seq<u8>,
    pos: int,
    txid: Seq<u8>,
    inputs: Seq<OutPoint>,
    m: Map<Seq<u8>, Seq<Seq<u8>>>,
    i: int,
)
    requires
        0 <= i,
    ensures
        forall|n: int|
            0 <= n < spending_rows_from(height, bh, pos, txid, inputs, m, i).len() ==> {
                let r = #[trigger] spending_rows_from(height, bh, pos, txid, inputs, m, i)[n];
                &&& r.height == height
                &&& r.blockhash == bh
                &&& r.pos == pos
                &&& r.txid == txid
                &&& exists|j: int|
                    i <= j < inputs.len() && !is_null_outpoint(#[trigger] inputs[j])
                        && r.scripthash == m[inputs[j].txid.bytes@][inputs[j].vout as int]
            },
    decreases inputs.len() - i,
{
    if i < inputs.len() {
        lemma_spending_rows_sound(height, bh, pos, txid, inputs, m, i + 1);
        let rest = spending_rows_from(height, bh, pos, txid, inputs, m, i + 1);
        let all = spending_rows_from(height, bh, pos, txid, inputs, m, i);
        assert forall|n: int| 0 <= n < all.len() implies {
            let r = #[trigger] all[n];
            &&& r.height == height
            &&& r.blockhash == bh
            &&& r.pos == pos
            &&& r.txid == txid
            &&& exists|j: int|
                i <= j < inputs.len() && !is_null_outpoint(#[trigger] inputs[j]) && r.scripthash
                    == m[inputs[j].txid.bytes@][inputs[j].vout as int]
        } by {
            if is_null_outpoint(inputs[i]) {
                assert(all[n] == rest[n]);
            } else {
                if n == 0 {
                    assert(all[0].scripthash == m[inputs[i].txid.bytes@][inputs[i].vout as int]);
                } else {
                    assert(all[n] == rest[n - 1]);
                }
            }
        }
    }
}


/// Looks up a transaction's output script hashes in two stacked record
/// lists, the second shadowing the first, each scanned from its newest
/// record backwards.
fn lookup_out_hashes(a: &Vec<TxOutsRec>, b: &Vec<TxOutsRec>, txid: &Txid) -> (r: Option<
    Vec<ScriptHash>,
>)
    ensures
        r is Some <==> txmap_view(a@ + b@).contains_key(txid.bytes@),
        r matches Some(v) ==> hashes_view(v@) == txmap_view(a@ + b@)[txid.bytes@],
{
    proof {
        lemma_txmap_last_match(a@ + b@, txid.bytes@);
    }
    let ghost sfull = a@ + b@;
    let ghost tv = txid.bytes@;
    let mut j: usize = b.len();
    while j > 0
        invariant
            j <= b@.len(),
            sfull == a@ + b@,
            tv == txid.bytes@,
            forall|i: int| j <= i < b@.len() ==> (#[trigger] b@[i]).txid.bytes@ != tv,
        decreases j,
    {
        j = j - 1;
        if b[j].txid.same(txid) {
            proof {
                lemma_txmap_last_match(sfull, tv);
                let pidx = a@.len() + j;
                assert(sfull[pidx as int] == b@[j as int]);
                assert forall|x: int| pidx < x < sfull.len() implies (#[trigger] sfull[x]).txid.bytes@
                    != tv by {
                    assert(sfull[x] == b@[x - a@.len()]);
                }
                let lm = last_match(sfull, tv);
                assert(lm is Some);
                let li = lm->Some_0;
                assert(li == pidx);
                assert(txmap_view(sfull)[tv] == hashes_view(sfull[pidx as int].out_hashes@));
            }
            let v = copy_hashes(&b[j].out_hashes);
            return Some(v);
        }
    }
    let mut i: usize = a.len();
    while i > 0
        invariant
            i <= a@.len(),
            sfull == a@ + b@,
            tv == txid.bytes@,
            forall|x: int| i <= x < a@.len() ==> (#[trigger] a@[x]).txid.bytes@ != tv,
            forall|x: int| 0 <= x < b@.len() ==> (#[trigger] b@[x]).txid.bytes@ != tv,
        decreases i,
    {
        i = i - 1;
        if a[i].txid.same(txid) {
            proof {
                lemma_txmap_last_match(sfull, tv);
                assert(sfull[i as int] == a@[i as int]);
                assert forall|x: int| i < x < sfull.len() implies (#[trigger] sfull[x]).txid.bytes@
                    != tv by {
                    if x < a@.len() {
                        assert(sfull[x] == a@[x]);
                    } else {
                        assert(sfull[x] == b@[x - a@.len()]);
                    }
                }
                let lm = last_match(sfull, tv);
                assert(lm is Some);
                let li = lm->Some_0;
                assert(li == i as int);
                assert(txmap_view(sfull)[tv] == hashes_view(sfull[i as int].out_hashes@));
            }
            let v = copy_hashes(&a[i].out_hashes);
            return Some(v);
        }
    }
    proof {
        lemma_txmap_last_match(sfull, tv);
        assert forall|x: int| 0 <= x < sfull.len() implies (#[trigger] sfull[x]).txid.bytes@
            != tv by {
            if x < a@.len() {
                assert(sfull[x] == a@[x]);
            } else {
                assert(sfull[x] == b@[x - a@.len()]);
            }
        }
        let lm = last_match(sfull, tv);
        if lm is Some {
            assert(sfull[lm->Some_0].txid.bytes@ == tv);
            assert(false);
        }
    }
    None
}

/// Copies a list of script hashes.
fn copy_hashes(v: &Vec<ScriptHash>) -> (r: Vec<ScriptHash>)
    ensures
        r@ == v@,
{
    let mut out: Vec<ScriptHash> = Vec::new();
    let mut i: usize = 0;
    while i < v.len()
        invariant
            i <= v@.len(),
            out@ == v@.subrange(0, i as int),
        decreases v@.len() - i,
    {
        out.push(v[i]);
        proof {
            assert(out@ =~= v@.subrange(0, i + 1 as int));
        }
        i += 1;
    }
    proof {
        assert(out@ =~= v@);
    }
    out
}

/// The position of the newest record for an id, if any.
pub open spec fn last_match(s: Seq<TxOutsRec>, t: Seq<u8>) -> Option<int>
    decreases s.len(),
{
    if s.len() == 0 {
        None
    } else if s.last().txid.bytes@ == t {
        Some(s.len() - 1)
    } else {
        last_match(s.drop_last(), t)
    }
}

/// The record list's view answers lookups like a backward scan: the newest
/// record for an id wins, and absent ids are not in the map.
pub proof fn lemma_txmap_last_match(s: Seq<TxOutsRec>, t: Seq<u8>)
    ensures
        txmap_view(s).contains_key(t) <==> last_match(s, t) is Some,
        last_match(s, t) matches Some(i) ==> 0 <= i < s.len() && s[i].txid.bytes@ == t
            && txmap_view(s)[t] == hashes_view(s[i].out_hashes@) && (forall|x: int|
            i < x < s.len() ==> (#[trigger] s[x]).txid.bytes@ != t),
        last_match(s, t) is None ==> forall|x: int|
            0 <= x < s.len() ==> (#[trigger] s[x]).txid.bytes@ != t,
    decreases s.len(),
{
    if s.len() > 0 {
        let sub = s.drop_last();
        lemma_txmap_last_match(sub, t);
        assert(forall|x: int| 0 <= x < sub.len() ==> sub[x] == #[trigger] s[x]);
        if s.last().txid.bytes@ == t {
            assert(s[s.len() - 1].txid.bytes@ == t);
        } else {
            assert(txmap_view(s).contains_key(t) == txmap_view(sub).contains_key(t));
            let lm = last_match(sub, t);
            if lm is Some {
                let i = lm->Some_0;
                assert(s[i].txid.bytes@ == t);
                assert(txmap_view(s)[t] == txmap_view(sub)[t]);
                assert(forall|x: int| i < x < s.len() - 1 ==> (#[trigger] s[x]).txid.bytes@ != t);
            }
        }
    }
}

/// Detects a coinbase (null) input.
pub fn is_coinbase_input(op: &OutPoint) -> (r: bool)
    ensures
        r == is_null_outpoint(*op),
{
    if op.vout != 0xffffffffu32 {
        return false;
    }
    let mut i: usize = 0;
    while i < 32
        invariant
            i <= 32,
            op.vout == 0xffffffffu32,
            forall|j: int| 0 <= j < i ==> op.txid.bytes@[j] == 0u8,
        decreases 32 - i,
    {
        if op.txid.bytes[i] != 0 {
            return false;
        }
        i += 1;
    }
    true
}

/// The persistent script-hash history index: stored rows, per-height
/// metadata naming the block indexed at each height, the resolution records
/// of every indexed transaction, and the best chain.
pub struct Index {
    pub chain: Chain,
    pub rows: Vec<IndexRow>,
    pub meta: Vec<BlockHash>,
    pub txmap: Vec<TxOutsRec>,
}

impl Index {
    pub open spec fn wf(self) -> bool {
        self.chain.wf()
    }

    /// An index over a freshly seeded chain, with nothing indexed yet.
    pub fn new(chain: Chain) -> (r: Index)
        requires
            chain.wf(),
        ensures
            r.wf(),
            r.chain == chain,
            r.rows@.len() == 0,
            r.meta@.len() == 0,
            r.txmap@.len() == 0,
    {
        Index { chain, rows: Vec::new(), meta: Vec::new(), txmap: Vec::new() }
    }

    /// The best chain the index follows.
    pub fn chain(&self) -> (r: &Chain)
        ensures
            r == &self.chain,
    {
        &self.chain
    }

    /// The next height to index: everything below it is indexed.
    pub fn next_height(&self) -> (r: usize)
        ensures
            r == self.meta@.len(),
    {
        self.meta.len()
    }

    /// Forgets the per-height metadata from a height on, so that those
    /// heights are indexed again after a reorg.  Stored rows stay: readers
    /// filter them by current chain membership.
    pub fn truncate_heights(&mut self, height: usize)
        ensures
            final(self).meta@ == old(self).meta@.subrange(
                0,
                if height < old(self).meta@.len() {
                    height as int
                } else {
                    old(self).meta@.len() as int
                },
            ),
            final(self).chain == old(self).chain,
            final(self).rows == old(self).rows,
            final(self).txmap == old(self).txmap,
    {
        if height < self.meta.len() {
            self.meta.truncate(height);
        } else {
            proof {
                assert(self.meta@.subrange(0, self.meta@.len() as int) =~= self.meta@);
            }
        }
    }

    /// Indexes one block at the next height: emits a funding row for every
    /// output and a spending row for every real input, resolving consumed
    /// outpoints against previously indexed transactions and the block
    /// itself.  Fails, changing nothing, exactly when some real input does
    /// not resolve.
    pub fn index_block(&mut self, blockhash: BlockHash, txs: &Vec<BlockTx>) -> (r: Result<
        (),
        IndexError,
    >)
        requires
            old(self).wf(),
        ensures
            final(self).wf(),
            final(self).chain == old(self).chain,
            r is Ok <==> block_resolvable_from(txs@, txmap_view(old(self).txmap@), 0),
            r is Err ==> *final(self) == *old(self),
            r is Ok ==> ({
                let height = old(self).meta@.len() as int;
                &&& rows_view(final(self).rows@) == rows_view(old(self).rows@) + block_rows_from(
                    height,
                    blockhash.bytes@,
                    txs@,
                    txmap_view(old(self).txmap@),
                    0,
                )
                &&& txmap_view(final(self).txmap@) == map_at(
                    txs@,
                    txmap_view(old(self).txmap@),
                    txs@.len() as int,
                )
                &&& final(self).meta@ == old(self).meta@.push(blockhash)
            }),
    {
        let ghost m0 = txmap_view(self.txmap@);
        let ghost height = self.meta@.len() as int;
        let ghost all_rows = block_rows_from(height, blockhash.bytes@, txs@, m0, 0);
        let height_x = self.meta.len() as u64;
        let mut new_rows: Vec<IndexRow> = Vec::new();
        let mut new_recs: Vec<TxOutsRec> = Vec::new();
        let mut k: usize = 0;
        proof {
            assert(self.txmap@ + new_recs@ =~= self.txmap@);
            assert(map_at(txs@, m0, 0) == m0);
            assert(rows_view(new_rows@) =~= Seq::<HistoryRowV>::empty());
        }
        while k < txs.len()
            invariant
                *self == *old(self),
                self.wf(),
                height == self.meta@.len() as int,
                height_x as int == height,
                m0 == txmap_view(self.txmap@),
                all_rows == block_rows_from(height, blockhash.bytes@, txs@, m0, 0),
                k <= txs@.len(),
                new_recs@.len() == k,
                txmap_view(self.txmap@ + new_recs@) == map_at(txs@, m0, k as int),
                block_resolvable_from(txs@, m0, 0) == block_resolvable_from(
                    txs@,
                    map_at(txs@, m0, k as int),
                    k as int,
                ),
                rows_view(new_rows@) + block_rows_from(
                    height,
                    blockhash.bytes@,
                    txs@,
                    map_at(txs@, m0, k as int),
                    k as int,
                ) == all_rows,
            decreases txs@.len() - k,
        {
            let ghost mk = map_at(txs@, m0, k as int);
            let t = &txs[k];
            let pos_x = k as u64;
            // Output script hashes of this transaction.
            let mut oh: Vec<ScriptHash> = Vec::new();
            let mut o: usize = 0;
            while o < t.tx.outputs.len()
                invariant
                    o <= t.tx.outputs@.len(),
                    k < txs@.len(),
                    *t == txs@[k as int],
                    oh@.len() == o,
                    forall|x: int|
                        0 <= x < o ==> (#[trigger] oh@[x]).bytes@ == script_hash_of(
                            t.tx.outputs@[x].script@,
                        ),
                decreases t.tx.outputs@.len() - o,
            {
                let sh = script_hash(&t.tx.outputs[o].script);
                oh.push(sh);
                o += 1;
            }
            proof {
                assert(hashes_view(oh@) =~= out_hashes_of(txs@[k as int].tx));
            }
            // Funding rows: one per distinct output script hash.
            let ghost rows_before = new_rows@;
            let ghost fr_full = funding_rows(height, blockhash.bytes@, k as int, txs@[k as int]);
            let mut f: usize = 0;
            while f < oh.len()
                invariant
                    f <= oh@.len(),
                    oh@.len() == txs@[k as int].tx.outputs@.len(),
                    height_x as int == height,
                    pos_x as int == k as int,
                    k < txs@.len(),
                    *t == txs@[k as int],
                    fr_full == funding_rows(height, blockhash.bytes@, k as int, txs@[k as int]),
                    forall|x: int|
                        0 <= x < oh@.len() ==> (#[trigger] oh@[x]).bytes@ == script_hash_of(
                            txs@[k as int].tx.outputs@[x].script@,
                        ),
                    rows_before.len() <= new_rows@.len(),
                    forall|x: int| 0 <= x < rows_before.len() ==> #[trigger] new_rows@[x]
                        == rows_before[x],
                    rows_view(new_rows@) + funding_rows_from(
                        height,
                        blockhash.bytes@,
                        k as int,
                        txs@[k as int],
                        f as int,
                    ) == rows_view(rows_before) + fr_full,
                decreases oh@.len() - f,
            {
                let mut dup = false;
                let mut j: usize = 0;
                while j < f && !dup
                    invariant
                        j <= f,
                        f < oh@.len(),
                        k < txs@.len(),
                        oh@.len() == txs@[k as int].tx.outputs@.len(),
                        forall|x: int|
                            0 <= x < oh@.len() ==> (#[trigger] oh@[x]).bytes@ == script_hash_of(
                                txs@[k as int].tx.outputs@[x].script@,
                            ),
                        !dup ==> forall|y: int|
                            0 <= y < j ==> script_hash_of(
                                (#[trigger] txs@[k as int].tx.outputs@[y]).script@,
                            ) != script_hash_of(txs@[k as int].tx.outputs@[f as int].script@),
                        dup ==> dup_output(txs@[k as int].tx, f as int),
                    decreases f - j,
                {
                    if oh[j].same(&oh[f]) {
                        dup = true;
                        proof {
                            assert(script_hash_of(txs@[k as int].tx.outputs@[j as int].script@)
                                == script_hash_of(txs@[k as int].tx.outputs@[f as int].script@));
                        }
                    }
                    j += 1;
                }
                proof {
                    assert(dup == dup_output(txs@[k as int].tx, f as int));
                }
                let ghost rows_cur = new_rows@;
                if !dup {
                    new_rows.push(
                        IndexRow {
                            scripthash: oh[f],
                            height: height_x,
                            pos: pos_x,
                            txid: t.txid,
                            blockhash,
                        },
                    );
                    proof {
                        assert(forall|x: int|
                            0 <= x < rows_cur.len() ==> #[trigger] new_rows@[x] == rows_cur[x]);
                        let row = row_v(new_rows@.last());
                        assert(rows_view(new_rows@) =~= rows_view(rows_cur) + seq![row]);
                        assert(funding_rows_from(
                            height,
                            blockhash.bytes@,
                            k as int,
                            txs@[k as int],
                            f as int,
                        ) == seq![row] + funding_rows_from(
                            height,
                            blockhash.bytes@,
                            k as int,
                            txs@[k as int],
                            f + 1,
                        ));
                        assert((rows_view(rows_cur) + seq![row]) + funding_rows_from(
                            height,
                            blockhash.bytes@,
                            k as int,
                            txs@[k as int],
                            f + 1,
                        ) =~= rows_view(rows_cur) + (seq![row] + funding_rows_from(
                            height,
                            blockhash.bytes@,
                            k as int,
                            txs@[k as int],
                            f + 1,
                        )));
                    }
                } else {
                    proof {
                        assert(funding_rows_from(
                            height,
                            blockhash.bytes@,
                            k as int,
                            txs@[k as int],
                            f as int,
                        ) == funding_rows_from(
                            height,
                            blockhash.bytes@,
                            k as int,
                            txs@[k as int],
                            f + 1,
                        ));
                    }
                }
                proof {
                    assert forall|x: int|
                        0 <= x < rows_before.len() implies #[trigger] new_rows@[x]
                        == rows_before[x] by {
                        assert(rows_cur[x] == rows_before[x]);
                        if new_rows@.len() > rows_cur.len() {
                            assert(new_rows@[x] == rows_cur[x]);
                        }
                    }
                }
                f += 1;
            }
            proof {
                assert(funding_rows_from(
                    height,
                    blockhash.bytes@,
                    k as int,
                    txs@[k as int],
                    oh@.len() as int,
                ) =~= Seq::<HistoryRowV>::empty());
                assert(rows_view(new_rows@) + Seq::<HistoryRowV>::empty() =~= rows_view(
                    new_rows@,
                ));
                assert(rows_view(new_rows@) =~= rows_view(rows_before) + fr_full);
            }
            // Spending rows: the remaining inputs' rows complete the block's
            // row sequence.
            let ghost rows_mid = new_rows@;
            let ghost txid_v = txs@[k as int].txid.bytes@;
            let ghost inputs_v = txs@[k as int].tx.inputs@;
            let mut i: usize = 0;
            while i < t.tx.inputs.len()
                invariant
                    i <= inputs_v.len(),
                    inputs_v == txs@[k as int].tx.inputs@,
                    txid_v == txs@[k as int].txid.bytes@,
                    height_x as int == height,
                    pos_x as int == k as int,
                    k < txs@.len(),
                    *t == txs@[k as int],
                    *self == *old(self),
                    self.wf(),
                    height == self.meta@.len() as int,
                    m0 == txmap_view(self.txmap@),
                    new_recs@.len() == k,
                    txmap_view(self.txmap@ + new_recs@) == mk,
                    mk == map_at(txs@, m0, k as int),
                    block_resolvable_from(txs@, m0, 0) == block_resolvable_from(
                        txs@,
                        mk,
                        k as int,
                    ),
                    forall|x: int|
                        0 <= x < i && !is_null_outpoint(#[trigger] inputs_v[x])
                            ==> mk.contains_key(inputs_v[x].txid.bytes@) && inputs_v[x].vout
                            < mk[inputs_v[x].txid.bytes@].len(),
                    rows_view(new_rows@) + spending_rows_from(
                        height,
                        blockhash.bytes@,
                        k as int,
                        txid_v,
                        inputs_v,
                        mk,
                        i as int,
                    ) == rows_view(rows_mid) + spending_rows_from(
                        height,
                        blockhash.bytes@,
                        k as int,
                        txid_v,
                        inputs_v,
                        mk,
                        0,
                    ),
                decreases inputs_v.len() - i,
            {
                let op = &t.tx.inputs[i];
                if !is_coinbase_input(op) {
                    let looked = lookup_out_hashes(&self.txmap, &new_recs, &op.txid);
                    let resolved = match looked {
                        Some(hs) => {
                            if (op.vout as usize) < hs.len() {
                                let ghost rows_cur = new_rows@;
                                new_rows.push(
                                    IndexRow {
                                        scripthash: hs[op.vout as usize],
                                        height: height_x,
                                        pos: pos_x,
                                        txid: t.txid,
                                        blockhash,
                                    },
                                );
                                proof {
                                    assert(hashes_view(hs@)[op.vout as int] == hs@[op.vout as int].bytes@);
                                    assert(row_v(new_rows@.last()).scripthash == mk[inputs_v[i as int].txid.bytes@][inputs_v[i as int].vout as int]);
                                    assert(rows_view(new_rows@) =~= rows_view(rows_cur) + seq![
                                        row_v(new_rows@.last()),
                                    ]);
                                    assert(spending_rows_from(
                                        height,
                                        blockhash.bytes@,
                                        k as int,
                                        txid_v,
                                        inputs_v,
                                        mk,
                                        i as int,
                                    ) == seq![row_v(new_rows@.last())] + spending_rows_from(
                                        height,
                                        blockhash.bytes@,
                                        k as int,
                                        txid_v,
                                        inputs_v,
                                        mk,
                                        i + 1,
                                    ));
                                    assert((rows_view(rows_cur) + seq![row_v(new_rows@.last())])
                                        + spending_rows_from(
                                        height,
                                        blockhash.bytes@,
                                        k as int,
                                        txid_v,
                                        inputs_v,
                                        mk,
                                        i + 1,
                                    ) =~= rows_view(rows_cur) + (seq![row_v(new_rows@.last())]
                                        + spending_rows_from(
                                        height,
                                        blockhash.bytes@,
                                        k as int,
                                        txid_v,
                                        inputs_v,
                                        mk,
                                        i + 1,
                                    )));
                                }
                                true
                            } else {
                                false
                            }
                        },
                        None => false,
                    };
                    if !resolved {
                        proof {
                            assert(!inputs_resolvable(inputs_v, mk));
                            assert(!block_resolvable_from(txs@, mk, k as int));
                        }
                        return Err(IndexError::MissingPrevOut);
                    }
                }
                i += 1;
            }
            proof {
                assert(inputs_resolvable(inputs_v, mk));
                assert(rows_view(new_rows@) =~= rows_view(rows_before) + rows_for_tx(
                    height,
                    blockhash.bytes@,
                    k as int,
                    txs@[k as int],
                    mk,
                ));
            }
            let ghost recs_before = new_recs@;
            let ghost oh_v = oh@;
            new_recs.push(TxOutsRec { txid: t.txid, out_hashes: oh });
            proof {
                let s2 = self.txmap@ + new_recs@;
                assert(new_recs@.drop_last() =~= recs_before);
                assert(s2.drop_last() =~= self.txmap@ + recs_before);
                assert(txmap_view(s2.drop_last()) == mk);
                assert(s2.last() == new_recs@.last());
                assert(new_recs@.last().out_hashes@ == oh_v);
                assert(hashes_view(oh_v) == out_hashes_of(txs@[k as int].tx));
                assert(txmap_view(s2) == mk.insert(txs@[k as int].txid.bytes@, out_hashes_of(
                    txs@[k as int].tx,
                )));
                assert(txmap_view(s2) == map_at(txs@, m0, k + 1));
                assert(block_rows_from(height, blockhash.bytes@, txs@, mk, k as int)
                    == rows_for_tx(height, blockhash.bytes@, k as int, txs@[k as int], mk)
                    + block_rows_from(height, blockhash.bytes@, txs@, map_at(txs@, m0, k + 1), k + 1));
                assert((rows_view(rows_before) + rows_for_tx(
                    height,
                    blockhash.bytes@,
                    k as int,
                    txs@[k as int],
                    mk,
                )) + block_rows_from(height, blockhash.bytes@, txs@, map_at(txs@, m0, k + 1), k + 1)
                    =~= rows_view(rows_before) + (rows_for_tx(
                    height,
                    blockhash.bytes@,
                    k as int,
                    txs@[k as int],
                    mk,
                ) + block_rows_from(
                    height,
                    blockhash.bytes@,
                    txs@,
                    map_at(txs@, m0, k + 1),
                    k + 1,
                )));
                assert(block_resolvable_from(txs@, mk, k as int) == block_resolvable_from(
                    txs@,
                    map_at(txs@, m0, k + 1),
                    k + 1,
                ));
            }
            k += 1;
        }
        let ghost rows_final = new_rows@;
        let ghost recs_final = new_recs@;
        self.rows.append(&mut new_rows);
        self.txmap.append(&mut new_recs);
        self.meta.push(blockhash);
        proof {
            assert(block_resolvable_from(txs@, map_at(txs@, m0, k as int), k as int));
            assert(block_rows_from(
                height,
                blockhash.bytes@,
                txs@,
                map_at(txs@, m0, k as int),
                k as int,
            ) =~= Seq::<HistoryRowV>::empty());
            assert(rows_view(rows_final) + Seq::<HistoryRowV>::empty() =~= rows_view(rows_final));
            assert(self.rows@ == old(self).rows@ + rows_final);
            assert forall|x: int|
                0 <= x < self.rows@.len() implies rows_view(self.rows@)[x] == (rows_view(
                old(self).rows@,
            ) + rows_view(rows_final))[x] by {
                if x < old(self).rows@.len() {
                    assert(self.rows@[x] == old(self).rows@[x]);
                } else {
                    assert(self.rows@[x] == rows_final[x - old(self).rows@.len()]);
                }
            }
            assert(rows_view(self.rows@) =~= rows_view(old(self).rows@) + rows_view(rows_final));
            assert(self.txmap@ == old(self).txmap@ + recs_final);
            assert(txmap_view(self.txmap@) == map_at(txs@, m0, txs@.len() as int));
        }
        Ok(())
    }
}


/// Whether a stored row belongs to the current chain and the script hash:
/// its height is in the chain and the chain still names the block the row
/// was written for.
pub open spec fn row_matches(r: IndexRow, chain: Chain, sh: Seq<u8>) -> bool {
    &&& r.scripthash.bytes@ == sh
    &&& (r.height as int) < chain.headers@.len()
    &&& chain.headers@[r.height as int].hash.bytes@ == r.blockhash.bytes@
}

/// The history entries of the rows from position `i` on that match the
/// script hash and the current chain, in storage order.
pub open spec fn history_from(rows: Seq<IndexRow>, chain: Chain, sh: Seq<u8>, i: int) -> Seq<
    HistoryEntry,
>
    decreases rows.len() - i,
{
    if i < 0 || i >= rows.len() {
        Seq::empty()
    } else {
        let rest = history_from(rows, chain, sh, i + 1);
        if row_matches(rows[i], chain, sh) {
            seq![HistoryEntry { height: rows[i].height, pos: rows[i].pos, txid: rows[i].txid }]
                + rest
        } else {
            rest
        }
    }
}

/// The block hashes of the rows from position `i` on carrying the
/// transaction id and still in the current chain, in storage order.
pub open spec fn blockhashes_from(rows: Seq<IndexRow>, chain: Chain, txid: Seq<u8>, i: int) -> Seq<
    BlockHash,
>
    decreases rows.len() - i,
{
    if i < 0 || i >= rows.len() {
        Seq::empty()
    } else {
        let rest = blockhashes_from(rows, chain, txid, i + 1);
        if rows[i].txid.bytes@ == txid && (rows[i].height as int) < chain.headers@.len()
            && chain.headers@[rows[i].height as int].hash.bytes@ == rows[i].blockhash.bytes@ {
            seq![rows[i].blockhash] + rest
        } else {
            rest
        }
    }
}

impl Index {
    /// The confirmed history of a script hash: one entry per stored row
    /// whose height is in the current chain, sorted by (height, position).
    pub fn filter_by_scripthash(&self, sh: &ScriptHash) -> (r: Vec<HistoryEntry>)
        requires
            self.wf(),
        ensures
            r@.to_multiset() == history_from(self.rows@, self.chain, sh.bytes@, 0).to_multiset(),
            forall|i: int, j: int|
                0 <= i < j < r@.len() ==> crate::order::he_leq(#[trigger] r@[i], #[trigger] r@[j]),
    {
        let mut out: Vec<HistoryEntry> = Vec::new();
        let mut i: usize = 0;
        let ghost full = history_from(self.rows@, self.chain, sh.bytes@, 0);
        while i < self.rows.len()
            invariant
                i <= self.rows@.len(),
                self.wf(),
                full == history_from(self.rows@, self.chain, sh.bytes@, 0),
                out@ + history_from(self.rows@, self.chain, sh.bytes@, i as int) == full,
            decreases self.rows@.len() - i,
        {
            let row = &self.rows[i];
            let hlen = self.chain.headers.len();
            let mut keep = false;
            if row.scripthash.same(sh) && row.height < hlen as u64 {
                if let Some(bh) = self.chain.get_block_hash(row.height as usize) {
                    if bh.same(&row.blockhash) {
                        keep = true;
                    }
                }
            }
            proof {
                assert(keep == row_matches(self.rows@[i as int], self.chain, sh.bytes@));
            }
            if keep {
                out.push(
                    HistoryEntry { height: row.height, pos: row.pos, txid: row.txid },
                );
                proof {
                    assert(out@ + history_from(self.rows@, self.chain, sh.bytes@, i + 1)
                        =~= full);
                }
            } else {
                proof {
                    assert(out@ + history_from(self.rows@, self.chain, sh.bytes@, i + 1)
                        =~= full);
                }
            }
            i += 1;
        }
        proof {
            assert(history_from(self.rows@, self.chain, sh.bytes@, i as int)
                =~= Seq::<HistoryEntry>::empty());
            assert(out@ =~= full);
        }
        crate::order::sort_history(out)
    }

    /// The block hashes of current-chain blocks containing a transaction
    /// with this id (normally one; duplicate coinbases permit two).
    pub fn filter_by_txid(&self, txid: &Txid) -> (r: Vec<BlockHash>)
        requires
            self.wf(),
        ensures
            r@ == blockhashes_from(self.rows@, self.chain, txid.bytes@, 0),
    {
        let mut out: Vec<BlockHash> = Vec::new();
        let mut i: usize = 0;
        let ghost full = blockhashes_from(self.rows@, self.chain, txid.bytes@, 0);
        while i < self.rows.len()
            invariant
                i <= self.rows@.len(),
                self.wf(),
                full == blockhashes_from(self.rows@, self.chain, txid.bytes@, 0),
                out@ + blockhashes_from(self.rows@, self.chain, txid.bytes@, i as int) == full,
            decreases self.rows@.len() - i,
        {
            let row = &self.rows[i];
            let hlen = self.chain.headers.len();
            let mut keep = false;
            if row.txid.same(txid) && row.height < hlen as u64 {
                if let Some(bh) = self.chain.get_block_hash(row.height as usize) {
                    if bh.same(&row.blockhash) {
                        keep = true;
                    }
                }
            }
            proof {
                assert(keep == (self.rows@[i as int].txid.bytes@ == txid.bytes@ && (self.rows@[
                    i as int
                ].height as int) < self.chain.headers@.len() && self.chain.headers@[self.rows@[
                    i as int
                ].height as int].hash.bytes@ == self.rows@[i as int].blockhash.bytes@));
            }
            if keep {
                out.push(row.blockhash);
                proof {
                    assert(out@ + blockhashes_from(self.rows@, self.chain, txid.bytes@, i + 1)
                        =~= full);
                }
            } else {
                proof {
                    assert(out@ + blockhashes_from(self.rows@, self.chain, txid.bytes@, i + 1)
                        =~= full);
                }
            }
            i += 1;
        }
        proof {
            assert(blockhashes_from(self.rows@, self.chain, txid.bytes@, i as int)
                =~= Seq::<BlockHash>::empty());
            assert(out@ =~= full);
        }
        out
    }

    /// The outpoints whose recorded output script hashes to the given script
    /// hash: for each indexed transaction, each matching output index.
    pub fn funded_outpoints(&self, sh: &ScriptHash) -> (r: Vec<OutPoint>)
        ensures
            forall|x: int|
                0 <= x < r@.len() ==> op_funded(
                    self.txmap@,
                    sh.bytes@,
                    (#[trigger] r@[x]).txid.bytes@,
                    r@[x].vout as int,
                ),
            forall|rec: int, o: int|
                0 <= rec < self.txmap@.len() && 0 <= o < self.txmap@[rec].out_hashes@.len() && o
                    < 4294967296 && (#[trigger] self.txmap@[rec].out_hashes@[o]).bytes@
                    == sh.bytes@ ==> op_in_list(r@, self.txmap@[rec].txid.bytes@, o),
    {
        let mut out: Vec<OutPoint> = Vec::new();
        let mut rec: usize = 0;
        while rec < self.txmap.len()
            invariant
                rec <= self.txmap@.len(),
                forall|x: int|
                    0 <= x < out@.len() ==> op_funded(
                        self.txmap@,
                        sh.bytes@,
                        (#[trigger] out@[x]).txid.bytes@,
                        out@[x].vout as int,
                    ),
                forall|rr: int, oo: int|
                    0 <= rr < rec && 0 <= oo < self.txmap@[rr].out_hashes@.len() && oo
                        < 4294967296 && (#[trigger] self.txmap@[rr].out_hashes@[oo]).bytes@
                        == sh.bytes@ ==> op_in_list(out@, self.txmap@[rr].txid.bytes@, oo),
            decreases self.txmap@.len() - rec,
        {
            let hashes_len = self.txmap[rec].out_hashes.len();
            let mut o: usize = 0;
            while o < hashes_len
                invariant
                    rec < self.txmap@.len(),
                    hashes_len == self.txmap@[rec as int].out_hashes@.len(),
                    o <= hashes_len,
                    forall|x: int|
                        0 <= x < out@.len() ==> op_funded(
                            self.txmap@,
                            sh.bytes@,
                            (#[trigger] out@[x]).txid.bytes@,
                            out@[x].vout as int,
                        ),
                    forall|rr: int, oo: int|
                        0 <= rr < rec && 0 <= oo < self.txmap@[rr].out_hashes@.len() && oo
                            < 4294967296 && (#[trigger] self.txmap@[rr].out_hashes@[oo]).bytes@
                            == sh.bytes@ ==> op_in_list(out@, self.txmap@[rr].txid.bytes@, oo),
                    forall|oo: int|
                        0 <= oo < o && oo < 4294967296 && (
                        #[trigger] self.txmap@[rec as int].out_hashes@[oo]).bytes@ == sh.bytes@
                            ==> op_in_list(out@, self.txmap@[rec as int].txid.bytes@, oo),
                decreases hashes_len - o,
            {
                if self.txmap[rec].out_hashes[o].same(sh) && (o as u64) < 4294967296u64 {
                    let ghost out_before = out@;
                    out.push(OutPoint { txid: self.txmap[rec].txid, vout: o as u32 });
                    proof {
                        assert(forall|x: int|
                            0 <= x < out_before.len() ==> #[trigger] out@[x] == out_before[x]);
                        assert(out@[out_before.len() as int] == OutPoint {
                            txid: self.txmap@[rec as int].txid,
                            vout: o as u32,
                        });
                        assert(op_funded(
                            self.txmap@,
                            sh.bytes@,
                            out@[out_before.len() as int].txid.bytes@,
                            out@[out_before.len() as int].vout as int,
                        ));
                        assert(op_in_list(out@, self.txmap@[rec as int].txid.bytes@, o as int));
                        assert forall|rr: int, oo: int|
                            0 <= rr < rec && 0 <= oo < self.txmap@[rr].out_hashes@.len() && oo
                                < 4294967296 && (#[trigger] self.txmap@[rr].out_hashes@[oo]).bytes@
                                == sh.bytes@ implies op_in_list(
                            out@,
                            self.txmap@[rr].txid.bytes@,
                            oo,
                        ) by {
                            assert(op_in_list(out_before, self.txmap@[rr].txid.bytes@, oo));
                            let x = choose|x: int|
                                0 <= x < out_before.len() && (#[trigger] out_before[x]).txid.bytes@
                                    == self.txmap@[rr].txid.bytes@ && out_before[x].vout == oo;
                            assert(out@[x] == out_before[x]);
                        }
                        assert forall|oo: int|
                            0 <= oo < o + 1 && oo < 4294967296 && (
                            #[trigger] self.txmap@[rec as int].out_hashes@[oo]).bytes@ == sh.bytes@
                            implies op_in_list(
                            out@,
                            self.txmap@[rec as int].txid.bytes@,
                            oo,
                        ) by {
                            if oo < o {
                                assert(op_in_list(
                                    out_before,
                                    self.txmap@[rec as int].txid.bytes@,
                                    oo,
                                ));
                                let x = choose|x: int|
                                    0 <= x < out_before.len() && (
                                    #[trigger] out_before[x]).txid.bytes@ == self.txmap@[
                                        rec as int
                                    ].txid.bytes@ && out_before[x].vout == oo;
                                assert(out@[x] == out_before[x]);
                            }
                        }
                    }
                }
                o += 1;
            }
            rec += 1;
        }
        out
    }
}

/// Whether some indexed transaction record for id `t` marks output `o` as
/// paying the script hash.
pub open spec fn op_funded(txmap: Seq<TxOutsRec>, sh: Seq<u8>, t: Seq<u8>, o: int) -> bool {
    exists|rec: int|
        0 <= rec < txmap.len() && (#[trigger] txmap[rec]).txid.bytes@ == t && 0 <= o < txmap[
            rec
        ].out_hashes@.len() && txmap[rec].out_hashes@[o].bytes@ == sh
}

/// Whether the outpoint (t, o) occurs in the list.
pub open spec fn op_in_list(r: Seq<OutPoint>, t: Seq<u8>, o: int) -> bool {
    exists|x: int| 0 <= x < r.len() && (#[trigger] r[x]).txid.bytes@ == t && r[x].vout == o
}

} // verus!
