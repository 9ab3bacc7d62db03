use vstd::prelude::*;

use crate::types::BlockHash;
use crate::types::TxData;
use crate::types::Txid;

verus! {

/// A cached transaction: its raw bytes and the parsed parts the library
/// reads.
pub struct CachedTx {
    pub txid: Txid,
    pub raw: Vec<u8>,
    pub tx: TxData,
}

/// A cached block transaction-id list.
pub struct CachedTxids {
    pub blockhash: BlockHash,
    pub txids: Vec<Txid>,
}

/// Whether a cached transaction with the id is present.
pub open spec fn cache_has_tx(s: Seq<CachedTx>, t: Seq<u8>) -> bool {
    exists|i: int| 0 <= i < s.len() && (#[trigger] s[i]).txid.bytes@ == t
}

/// Whether a cached transaction-id list for the block hash is present.
pub open spec fn cache_has_txids(s: Seq<CachedTxids>, b: Seq<u8>) -> bool {
    exists|i: int| 0 <= i < s.len() && (#[trigger] s[i]).blockhash.bytes@ == b
}

/// Process-wide memoisation of recently touched transactions, and of the
/// transaction-id lists of recently touched blocks.  Entries are added when
/// first materialised and kept for the process lifetime; insertion is
/// if-absent, so an entry never changes once stored.
pub struct Cache {
    pub txs: Vec<CachedTx>,
    pub txids: Vec<CachedTxids>,
}

impl Cache {
    /// An empty cache.
    pub fn new() -> (r: Cache)
        ensures
            r.txs@.len() == 0,
            r.txids@.len() == 0,
    {
        Cache { txs: Vec::new(), txids: Vec::new() }
    }

    /// Stores a transaction unless its id is already present.
    pub fn add_tx(&mut self, entry: CachedTx)
        ensures
            old(self).cache_has_tx_spec(entry.txid.bytes@) ==> *final(self) == *old(self),
            !old(self).cache_has_tx_spec(entry.txid.bytes@) ==> final(self).txs@ == old(
                self,
            ).txs@.push(entry) && final(self).txids == old(self).txids,
    {
        let mut i: usize = 0;
        while i < self.txs.len()
            invariant
                i <= self.txs@.len(),
                *self == *old(self),
                forall|x: int|
                    0 <= x < i ==> (#[trigger] self.txs@[x]).txid.bytes@ != entry.txid.bytes@,
            decreases self.txs@.len() - i,
        {
            if self.txs[i].txid.same(&entry.txid) {
                return ;
            }
            i += 1;
        }
        proof {
            if self.cache_has_tx_spec(entry.txid.bytes@) {
                let x = choose|x: int|
                    0 <= x < self.txs@.len() && (#[trigger] self.txs@[x]).txid.bytes@
                        == entry.txid.bytes@;
                assert(false);
            }
        }
        self.txs.push(entry);
    }

    pub open spec fn cache_has_tx_spec(self, t: Seq<u8>) -> bool {
        cache_has_tx(self.txs@, t)
    }

    pub open spec fn cache_has_txids_spec(self, b: Seq<u8>) -> bool {
        cache_has_txids(self.txids@, b)
    }

    /// The cached transaction for an id, if present.
    pub fn get_tx(&self, txid: &Txid) -> (r: Option<&CachedTx>)
        ensures
            r is Some <==> self.cache_has_tx_spec(txid.bytes@),
            r matches Some(e) ==> exists|i: int|
                0 <= i < self.txs@.len() && *e == self.txs@[i] && e.txid.bytes@ == txid.bytes@,
    {
        let mut i: usize = 0;
        while i < self.txs.len()
            invariant
                i <= self.txs@.len(),
                forall|x: int|
                    0 <= x < i ==> (#[trigger] self.txs@[x]).txid.bytes@ != txid.bytes@,
            decreases self.txs@.len() - i,
        {
            if self.txs[i].txid.same(txid) {
                return Some(&self.txs[i]);
            }
            i += 1;
        }
        None
    }

    /// Stores a block's transaction-id list unless the block is already
    /// present.
    pub fn add_txids(&mut self, entry: CachedTxids)
        ensures
            old(self).cache_has_txids_spec(entry.blockhash.bytes@) ==> *final(self) == *old(self),
            !old(self).cache_has_txids_spec(entry.blockhash.bytes@) ==> final(self).txids@ == old(
                self,
            ).txids@.push(entry) && final(self).txs == old(self).txs,
    {
        let mut i: usize = 0;
        while i < self.txids.len()
            invariant
                i <= self.txids@.len(),
                *self == *old(self),
                forall|x: int|
                    0 <= x < i ==> (#[trigger] self.txids@[x]).blockhash.bytes@
                        != entry.blockhash.bytes@,
            decreases self.txids@.len() - i,
        {
            if self.txids[i].blockhash.same(&entry.blockhash) {
                return ;
            }
            i += 1;
        }
        proof {
            if self.cache_has_txids_spec(entry.blockhash.bytes@) {
                let x = choose|x: int|
                    0 <= x < self.txids@.len() && (#[trigger] self.txids@[x]).blockhash.bytes@
                        == entry.blockhash.bytes@;
                assert(false);
            }
        }
        self.txids.push(entry);
    }

    /// The cached transaction-id list for a block hash, if present.
    pub fn get_txids(&self, blockhash: &BlockHash) -> (r: Option<&CachedTxids>)
        ensures
            r is Some <==> self.cache_has_txids_spec(blockhash.bytes@),
            r matches Some(e) ==> exists|i: int|
                0 <= i < self.txids@.len() && *e == self.txids@[i] && e.blockhash.bytes@
                    == blockhash.bytes@,
    {
        let mut i: usize = 0;
        while i < self.txids.len()
            invariant
                i <= self.txids@.len(),
                forall|x: int|
                    0 <= x < i ==> (#[trigger] self.txids@[x]).blockhash.bytes@
                        != blockhash.bytes@,
            decreases self.txids@.len() - i,
        {
            if self.txids[i].blockhash.same(blockhash) {
                return Some(&self.txids[i]);
            }
            i += 1;
        }
        None
    }
}

} // verus!
