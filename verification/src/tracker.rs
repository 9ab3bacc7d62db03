use vstd::prelude::*;

use crate::cache::Cache;
use crate::chain::Chain;
use crate::chain::ChainError;
use crate::encode::BlockHeader;
use crate::index::HistoryEntry;
use crate::index::Index;
use crate::index::history_from;
use crate::mempool::Mempool;
use crate::order::MempoolHistItem;
use crate::order::mp_leq;
use crate::order::sort_mempool_items;
use crate::status::Status;
use crate::status::compute_status_hash;
use crate::status::status_digest;
use crate::types::BlockHash;
use crate::types::OutPoint;
use crate::types::ScriptHash;
use crate::types::Txid;

verus! {

/// One line of a script's history as served to clients: the transaction id,
/// the height (positive for confirmed, 0 or -1 for unconfirmed), and the fee
/// for unconfirmed entries.
#[derive(Clone, Copy, Debug)]
pub struct HistoryItem {
    pub txid: Txid,
    pub height: i64,
    pub fee: Option<u64>,
}

/// The tracker: the subscriptions' view of the chain, the history index,
/// the mempool mirror and the transaction cache.  The upstream connections
/// that feed it live outside the library and hand it plain values.
pub struct Tracker {
    pub index: Index,
    pub mempool: Mempool,
    pub cache: Cache,
}

impl Tracker {
    pub open spec fn wf(self) -> bool {
        &&& self.index.wf()
        &&& self.mempool.wf()
    }

    /// A tracker over a chain seeded with the network's genesis header.
    pub fn new(genesis: BlockHeader) -> (r: Tracker)
        ensures
            r.wf(),
            r.index.rows@.len() == 0,
            r.index.chain.headers@.len() == 1,
            r.index.chain.headers@[0].header == genesis,
            r.mempool.entries@.len() == 0,
    {
        let chain = Chain::new(genesis);
        Tracker { index: Index::new(chain), mempool: Mempool::new(), cache: Cache::new() }
    }

    /// The best chain.
    pub fn chain(&self) -> (r: &Chain)
        ensures
            r == &self.index.chain,
    {
        &self.index.chain
    }

    /// Starts a subscription for a script hash: fresh state whose status
    /// hash is the null value.
    pub fn subscribe(&self, scripthash: ScriptHash) -> (r: Status)
        ensures
            r.wf(),
            r.scripthash == scripthash,
            r.statushash is None,
            r.confirmed@.len() == 0,
            r.mempool@.len() == 0,
    {
        Status::new(scripthash)
    }

    /// Applies headers received from the peer to the chain, and on a reorg
    /// marks the replaced heights for re-indexing.
    pub fn sync_headers(&mut self, headers: &Vec<BlockHeader>) -> (r: Result<(), ChainError>)
        requires
            old(self).wf(),
        ensures
            final(self).wf(),
            final(self).mempool == old(self).mempool,
            final(self).cache == old(self).cache,
            final(self).index.rows == old(self).index.rows,
            final(self).index.txmap == old(self).index.txmap,
            r is Err ==> *final(self) == *old(self),
            headers@.len() == 0 ==> r is Ok && *final(self) == *old(self),
            headers@.len() > 0 ==> ({
                let anchor = crate::chain::find_hash_height(
                    old(self).index.chain.headers@,
                    headers@[0].prev_blockhash.bytes@,
                );
                &&& (r is Ok <==> anchor is Some && crate::chain::headers_linked(headers@))
                &&& (r is Ok ==> {
                    let a = anchor->Some_0;
                    &&& final(self).index.chain.headers@.len() == a + 1 + headers@.len()
                    &&& forall|i: int|
                        0 <= i <= a ==> final(self).index.chain.headers@[i] == old(
                            self,
                        ).index.chain.headers@[i]
                    &&& forall|k: int|
                        0 <= k < headers@.len() ==> (#[trigger] final(self).index.chain.headers@[
                            a + 1 + k
                        ]).header == headers@[k]
                    &&& final(self).index.meta@ == old(self).index.meta@.subrange(
                        0,
                        if a + 1 < old(self).index.meta@.len() {
                            a + 1
                        } else {
                            old(self).index.meta@.len() as int
                        },
                    )
                })
            }),
    {
        if headers.len() == 0 {
            return Ok(());
        }
        let anchor = match self.index.chain.get_block_height(&headers[0].prev_blockhash) {
            Some(a) => a,
            None => {
                proof {
                    crate::chain::lemma_find_hash_height(
                        self.index.chain.headers@,
                        headers@[0].prev_blockhash.bytes@,
                    );
                }
                return Err(ChainError::NotAnchored);
            },
        };
        let chain_len = self.index.chain.headers.len();
        proof {
            crate::chain::lemma_find_hash_height(
                self.index.chain.headers@,
                headers@[0].prev_blockhash.bytes@,
            );
            assert(anchor < chain_len);
        }
        let r = self.index.chain.update(headers);
        if r.is_ok() {
            // Heights above the anchor may have been replaced: forget their
            // metadata so they are indexed again.
            self.index.truncate_heights(anchor + 1);
        }
        r
    }

    /// An outpoint known to pay the script hash: an output the index
    /// recorded for an indexed transaction, or an output created by a
    /// mempool transaction.
    pub open spec fn op_pays(self, sh: Seq<u8>, op: OutPoint) -> bool {
        crate::index::op_funded(self.index.txmap@, sh, op.txid.bytes@, op.vout as int)
            || crate::mempool::outpoint_funded_by_mempool(self.mempool, sh, op)
    }

    /// A mempool entry touches the script hash: its transaction creates an
    /// output paying it, or consumes an outpoint known to pay it.
    pub open spec fn entry_touches(self, sh: Seq<u8>, e: crate::mempool::Entry) -> bool {
        crate::mempool::entry_funds(e, sh) || exists|i: int|
            0 <= i < e.tx.inputs@.len() && self.op_pays(sh, #[trigger] e.tx.inputs@[i])
    }

    /// An unconfirmed-history item describes some mempool entry touching the
    /// script hash, with the entry's effective height and fee.
    pub open spec fn touching_item(self, sh: Seq<u8>, item: MempoolHistItem) -> bool {
        exists|k: int|
            0 <= k < self.mempool.entries@.len() && self.entry_touches(
                sh,
                #[trigger] self.mempool.entries@[k],
            ) && item.txid.bytes@ == self.mempool.entries@[k].txid.bytes@ && item.height
                == crate::mempool::effective_height(self.mempool.entries@[k]) && item.fee
                == self.mempool.entries@[k].fee
    }

    /// A subscription freshly recomputed against this tracker: well-formed,
    /// same script hash, confirmed list exactly the index's current-chain
    /// history in canonical order, mempool list exactly the mirror's
    /// touching entries in canonical order.
    pub open spec fn status_refreshed(self, prev: Status, cur: Status) -> bool {
        &&& cur.wf()
        &&& cur.scripthash == prev.scripthash
        &&& cur.confirmed@.to_multiset() == history_from(
            self.index.rows@,
            self.index.chain,
            prev.scripthash.bytes@,
            0,
        ).to_multiset()
        &&& (forall|i: int, j: int|
            0 <= i < j < cur.confirmed@.len() ==> crate::order::he_leq(
                #[trigger] cur.confirmed@[i],
                #[trigger] cur.confirmed@[j],
            ))
        &&& (forall|i: int, j: int|
            0 <= i < j < cur.mempool@.len() ==> mp_leq(
                #[trigger] cur.mempool@[i],
                #[trigger] cur.mempool@[j],
            ))
        &&& (forall|x: int|
            0 <= x < cur.mempool@.len() ==> self.touching_item(
                prev.scripthash.bytes@,
                #[trigger] cur.mempool@[x],
            ))
        &&& (forall|k: int|
            0 <= k < self.mempool.entries@.len() && self.entry_touches(
                prev.scripthash.bytes@,
                #[trigger] self.mempool.entries@[k],
            ) ==> crate::mempool::item_in_list(
                cur.mempool@,
                self.mempool.entries@[k].txid.bytes@,
            ))
    }

    /// Recomputes a subscription's state from the index and the mempool
    /// mirror, and reports whether its status hash changed.  The confirmed
    /// list is exactly the index's current-chain history of the script hash
    /// in canonical order; the mempool list contains the entries touching
    /// the script, sorted by (effective height, transaction id); the status
    /// hash is the digest of the two lists.
    pub fn update_status(&self, status: &mut Status) -> (r: bool)
        requires
            self.wf(),
        ensures
            final(status).wf(),
            final(status).scripthash == old(status).scripthash,
            final(status).confirmed@.to_multiset() == history_from(
                self.index.rows@,
                self.index.chain,
                old(status).scripthash.bytes@,
                0,
            ).to_multiset(),
            forall|i: int, j: int|
                0 <= i < j < final(status).confirmed@.len() ==> crate::order::he_leq(
                    #[trigger] final(status).confirmed@[i],
                    #[trigger] final(status).confirmed@[j],
                ),
            forall|i: int, j: int|
                0 <= i < j < final(status).mempool@.len() ==> mp_leq(
                    #[trigger] final(status).mempool@[i],
                    #[trigger] final(status).mempool@[j],
                ),
            forall|x: int|
                0 <= x < final(status).mempool@.len() ==> self.touching_item(
                    old(status).scripthash.bytes@,
                    #[trigger] final(status).mempool@[x],
                ),
            forall|k: int|
                0 <= k < self.mempool.entries@.len() && self.entry_touches(
                    old(status).scripthash.bytes@,
                    #[trigger] self.mempool.entries@[k],
                ) ==> crate::mempool::item_in_list(
                    final(status).mempool@,
                    self.mempool.entries@[k].txid.bytes@,
                ),
            self.status_refreshed(*old(status), *final(status)),
            r == (old(status).statushash != final(status).statushash),
    {
        let sh = status.scripthash;
        let ghost shv = sh.bytes@;
        let confirmed = self.index.filter_by_scripthash(&sh);
        let mut ops = self.index.funded_outpoints(&sh);
        let ghost io_v = ops@;
        let mut mops = self.mempool.funded_outpoints(&sh);
        let ghost mo_v = mops@;
        ops.append(&mut mops);
        proof {
            assert(ops@ == io_v + mo_v);
            // Every listed outpoint is known to pay the script hash.
            assert forall|x: int| 0 <= x < ops@.len() implies self.op_pays(
                shv,
                #[trigger] ops@[x],
            ) by {
                if x < io_v.len() {
                    assert(ops@[x] == io_v[x]);
                } else {
                    assert(ops@[x] == mo_v[x - io_v.len()]);
                }
            }
            // Every outpoint known to pay the script hash is listed.
            assert forall|op: OutPoint| self.op_pays(shv, op) implies crate::index::op_in_list(
                ops@,
                op.txid.bytes@,
                op.vout as int,
            ) by {
                if crate::index::op_funded(self.index.txmap@, shv, op.txid.bytes@, op.vout as int) {
                    let rec = choose|rec: int|
                        0 <= rec < self.index.txmap@.len() && (
                        #[trigger] self.index.txmap@[rec]).txid.bytes@ == op.txid.bytes@ && (
                        op.vout as int) < self.index.txmap@[rec].out_hashes@.len()
                            && self.index.txmap@[rec].out_hashes@[op.vout as int].bytes@ == shv;
                    assert(crate::index::op_in_list(io_v, op.txid.bytes@, op.vout as int));
                    let x = choose|x: int|
                        0 <= x < io_v.len() && (#[trigger] io_v[x]).txid.bytes@ == op.txid.bytes@
                            && io_v[x].vout == op.vout as int;
                    assert(ops@[x] == io_v[x]);
                } else {
                    let kk = choose|kk: int, oo: int|
                        0 <= kk < self.mempool.entries@.len() && 0 <= oo < self.mempool.entries@[
                            kk
                        ].tx.outputs@.len() && op.txid.bytes@ == self.mempool.entries@[
                            kk
                        ].txid.bytes@ && op.vout == oo && crate::digest::script_hash_of(
                            (#[trigger] self.mempool.entries@[kk].tx.outputs@[oo]).script@,
                        ) == shv;
                    assert(crate::index::op_in_list(mo_v, op.txid.bytes@, op.vout as int));
                    let x = choose|x: int|
                        0 <= x < mo_v.len() && (#[trigger] mo_v[x]).txid.bytes@ == op.txid.bytes@
                            && mo_v[x].vout == op.vout as int;
                    assert(ops@[io_v.len() + x] == mo_v[x]);
                }
            }
        }
        let items = self.mempool.touching_items(&sh, &ops);
        proof {
            // Touching the listed outpoints is touching an outpoint known to
            // pay the script hash.
            assert forall|k: int|
                0 <= k < self.mempool.entries@.len() implies (crate::mempool::touches(
                #[trigger] self.mempool.entries@[k],
                shv,
                ops@,
            ) <==> self.entry_touches(shv, self.mempool.entries@[k])) by {
                let e = self.mempool.entries@[k];
                if crate::mempool::touches(e, shv, ops@) && !crate::mempool::entry_funds(e, shv) {
                    let x = choose|x: int|
                        0 <= x < ops@.len() && crate::mempool::entry_spends(e, #[trigger] ops@[x]);
                    let i = choose|i: int|
                        0 <= i < e.tx.inputs@.len() && crate::mempool::same_outpoint(
                            #[trigger] e.tx.inputs@[i],
                            ops@[x],
                        );
                    assert(self.op_pays(shv, ops@[x]));
                    assert(e.tx.inputs@[i].txid.bytes@ == ops@[x].txid.bytes@
                        && e.tx.inputs@[i].vout == ops@[x].vout);
                    if crate::index::op_funded(
                        self.index.txmap@,
                        shv,
                        ops@[x].txid.bytes@,
                        ops@[x].vout as int,
                    ) {
                        assert(crate::index::op_funded(
                            self.index.txmap@,
                            shv,
                            e.tx.inputs@[i].txid.bytes@,
                            e.tx.inputs@[i].vout as int,
                        ));
                    } else {
                        let kk = choose|kk: int, oo: int|
                            0 <= kk < self.mempool.entries@.len() && 0 <= oo
                                < self.mempool.entries@[kk].tx.outputs@.len() && ops@[x].txid.bytes@
                                == self.mempool.entries@[kk].txid.bytes@ && ops@[x].vout == oo
                                && crate::digest::script_hash_of(
                                (#[trigger] self.mempool.entries@[kk].tx.outputs@[oo]).script@,
                            ) == shv;
                        assert(crate::mempool::outpoint_funded_by_mempool(
                            self.mempool,
                            shv,
                            e.tx.inputs@[i],
                        ));
                    }
                    assert(self.op_pays(shv, e.tx.inputs@[i]));
                    assert(self.entry_touches(shv, e));
                }
                if self.entry_touches(shv, e) && !crate::mempool::entry_funds(e, shv) {
                    let i = choose|i: int|
                        0 <= i < e.tx.inputs@.len() && self.op_pays(shv, #[trigger] e.tx.inputs@[i]);
                    assert(crate::index::op_in_list(
                        ops@,
                        e.tx.inputs@[i].txid.bytes@,
                        e.tx.inputs@[i].vout as int,
                    ));
                    let x = choose|x: int|
                        0 <= x < ops@.len() && (#[trigger] ops@[x]).txid.bytes@ == e.tx.inputs@[
                            i
                        ].txid.bytes@ && ops@[x].vout == e.tx.inputs@[i].vout as int;
                    assert(crate::mempool::same_outpoint(e.tx.inputs@[i], ops@[x]));
                    assert(crate::mempool::entry_spends(e, ops@[x]));
                    assert(crate::mempool::touches(e, shv, ops@));
                }
            }
        }
        let sorted = sort_mempool_items(items);
        proof {
            broadcast use vstd::seq_lib::group_to_multiset_ensures;

            assert forall|i: int| 0 <= i < sorted@.len() implies -1 <= (
            #[trigger] sorted@[i]).height && self.touching_item(shv, sorted@[i]) by {
                assert(sorted@.contains(sorted@[i]));
                assert(sorted@.to_multiset().count(sorted@[i]) > 0);
                assert(items@.to_multiset().count(sorted@[i]) > 0);
                assert(items@.contains(sorted@[i]));
                let x = choose|x: int| 0 <= x < items@.len() && items@[x] == sorted@[i];
                assert(crate::mempool::item_matches(
                    self.mempool,
                    sh.bytes@,
                    ops@,
                    items@[x],
                ));
                let k = choose|k: int|
                    0 <= k < self.mempool.entries@.len() && crate::mempool::touches(
                        #[trigger] self.mempool.entries@[k],
                        shv,
                        ops@,
                    ) && items@[x].txid.bytes@ == self.mempool.entries@[k].txid.bytes@
                        && items@[x].height == crate::mempool::effective_height(
                        self.mempool.entries@[k],
                    ) && items@[x].fee == self.mempool.entries@[k].fee;
                assert(self.entry_touches(shv, self.mempool.entries@[k]));
            }
            assert forall|k: int|
                0 <= k < self.mempool.entries@.len() && self.entry_touches(
                    shv,
                    #[trigger] self.mempool.entries@[k],
                ) implies crate::mempool::item_in_list(
                sorted@,
                self.mempool.entries@[k].txid.bytes@,
            ) by {
                assert(crate::mempool::touches(self.mempool.entries@[k], shv, ops@));
                assert(crate::mempool::item_in_list(
                    items@,
                    self.mempool.entries@[k].txid.bytes@,
                ));
                let x = choose|x: int|
                    0 <= x < items@.len() && (#[trigger] items@[x]).txid.bytes@
                        == self.mempool.entries@[k].txid.bytes@;
                assert(items@.contains(items@[x]));
                assert(items@.to_multiset().count(items@[x]) > 0);
                assert(sorted@.to_multiset().count(items@[x]) > 0);
                assert(sorted@.contains(items@[x]));
                let y = choose|y: int| 0 <= y < sorted@.len() && sorted@[y] == items@[x];
                assert(sorted@[y].txid.bytes@ == self.mempool.entries@[k].txid.bytes@);
            }
        }
        let prev = status.statushash;
        let h = compute_status_hash(&confirmed, &sorted);
        let changed = !opt_hash_eq(&prev, &h);
        status.confirmed = confirmed;
        status.mempool = sorted;
        status.statushash = h;
        changed
    }

    /// A subscription's history as served to clients: the confirmed entries
    /// in canonical order, then the unconfirmed items.
    pub fn get_history(&self, status: &Status) -> (r: Vec<HistoryItem>)
        requires
            forall|i: int| 0 <= i < status.confirmed@.len() ==> (
            #[trigger] status.confirmed@[i]).height <= 0x7fffffffffffffff,
        ensures
            r@.len() == status.confirmed@.len() + status.mempool@.len(),
            forall|i: int|
                0 <= i < status.confirmed@.len() ==> (#[trigger] r@[i]) == (HistoryItem {
                    txid: status.confirmed@[i].txid,
                    height: status.confirmed@[i].height as i64,
                    fee: None,
                }),
            forall|j: int|
                0 <= j < status.mempool@.len() ==> (#[trigger] r@[
                    status.confirmed@.len() + j
                ]) == (HistoryItem {
                    txid: status.mempool@[j].txid,
                    height: status.mempool@[j].height,
                    fee: Some(status.mempool@[j].fee),
                }),
    {
        let mut out: Vec<HistoryItem> = Vec::new();
        let mut i: usize = 0;
        while i < status.confirmed.len()
            invariant
                i <= status.confirmed@.len(),
                forall|x: int| 0 <= x < status.confirmed@.len() ==> (
                #[trigger] status.confirmed@[x]).height <= 0x7fffffffffffffff,
                out@.len() == i,
                forall|x: int|
                    0 <= x < i ==> (#[trigger] out@[x]) == (HistoryItem {
                        txid: status.confirmed@[x].txid,
                        height: status.confirmed@[x].height as i64,
                        fee: None,
                    }),
            decreases status.confirmed@.len() - i,
        {
            let e = &status.confirmed[i];
            out.push(HistoryItem { txid: e.txid, height: e.height as i64, fee: None });
            i += 1;
        }
        let mut j: usize = 0;
        while j < status.mempool.len()
            invariant
                j <= status.mempool@.len(),
                out@.len() == status.confirmed@.len() + j,
                forall|x: int|
                    0 <= x < status.confirmed@.len() ==> (#[trigger] out@[x]) == (HistoryItem {
                        txid: status.confirmed@[x].txid,
                        height: status.confirmed@[x].height as i64,
                        fee: None,
                    }),
                forall|x: int|
                    0 <= x < j ==> (#[trigger] out@[status.confirmed@.len() + x]) == (HistoryItem {
                        txid: status.mempool@[x].txid,
                        height: status.mempool@[x].height,
                        fee: Some(status.mempool@[x].fee),
                    }),
            decreases status.mempool@.len() - j,
        {
            let m = &status.mempool[j];
            out.push(HistoryItem { txid: m.txid, height: m.height, fee: Some(m.fee) });
            j += 1;
        }
        out
    }

    /// The hash of a current-chain block containing this transaction, if the
    /// index knows one.
    pub fn get_blockhash_by_txid(&self, txid: &Txid) -> (r: Option<BlockHash>)
        requires
            self.wf(),
        ensures
            ({
                let bhs = crate::index::blockhashes_from(
                    self.index.rows@,
                    self.index.chain,
                    txid.bytes@,
                    0,
                );
                &&& (r is Some <==> bhs.len() > 0)
                &&& (r matches Some(b) ==> b == bhs[0])
            }),
    {
        let bhs = self.index.filter_by_txid(txid);
        if bhs.len() > 0 {
            Some(bhs[0])
        } else {
            None
        }
    }
}

/// Compares two optional 32-byte hashes for equality of their bytes.
pub fn opt_hash_eq(a: &Option<[u8; 32]>, b: &Option<[u8; 32]>) -> (r: bool)
    ensures
        r == (*a == *b),
{
    match (a, b) {
        (None, None) => true,
        (Some(x), Some(y)) => {
            let e = crate::types::bytes32_eq(x, y);
            proof {
                if e {
                    vstd::array::axiom_array_ext_equal(*x, *y);
                }
            }
            e
        },
        _ => false,
    }
}

} // verus!
