use vstd::prelude::*;

use crate::digest::script_hash;
use crate::digest::script_hash_of;
use crate::types::OutPoint;
use crate::types::ScriptHash;
use crate::types::TxData;
use crate::types::Txid;

verus! {

/// One mirrored mempool transaction: immutable snapshot fields taken when it
/// was first observed.
#[derive(Clone, Debug)]
pub struct Entry {
    pub txid: Txid,
    pub raw: Vec<u8>,
    pub tx: TxData,
    pub fee: u64,
    pub vsize: u64,
    pub has_unconfirmed_inputs: bool,
}

/// Whether two outpoints denote the same output.
pub open spec fn same_outpoint(a: OutPoint, b: OutPoint) -> bool {
    a.txid.bytes@ == b.txid.bytes@ && a.vout == b.vout
}

/// Whether an entry's transaction creates an output whose script hashes to
/// the given script hash.
pub open spec fn entry_funds(e: Entry, sh: Seq<u8>) -> bool {
    exists|o: int|
        0 <= o < e.tx.outputs@.len() && script_hash_of(#[trigger] e.tx.outputs@[o].script@) == sh
}

/// Whether an entry's transaction consumes the given outpoint.
pub open spec fn entry_spends(e: Entry, op: OutPoint) -> bool {
    exists|i: int| 0 <= i < e.tx.inputs@.len() && same_outpoint(#[trigger] e.tx.inputs@[i], op)
}

/// The live mirror of the node's mempool: the main map of entries, and the
/// two secondary indices by funding script hash and by spent outpoint.
pub struct Mempool {
    pub entries: Vec<Entry>,
    pub by_funding: Vec<(ScriptHash, Txid)>,
    pub by_spending: Vec<(OutPoint, Txid)>,
}

impl Mempool {
    /// Whether some entry carries this transaction id.
    pub open spec fn has_txid(self, txid: Seq<u8>) -> bool {
        exists|k: int|
            0 <= k < self.entries@.len() && (#[trigger] self.entries@[k]).txid.bytes@ == txid
    }

    /// Entries are keyed by distinct transaction ids.
    pub open spec fn unique_txids(self) -> bool {
        forall|k1: int, k2: int|
            0 <= k1 < k2 < self.entries@.len() ==> (#[trigger] self.entries@[k1]).txid.bytes@ != (
            #[trigger] self.entries@[k2]).txid.bytes@
    }

    /// The by_funding pair at `p` names an entry whose transaction has an
    /// output hashing to the pair's script hash.
    pub open spec fn funding_pair_ok(self, p: int) -> bool {
        exists|k: int|
            0 <= k < self.entries@.len() && (#[trigger] self.entries@[k]).txid.bytes@
                == self.by_funding@[p].1.bytes@ && entry_funds(
                self.entries@[k],
                self.by_funding@[p].0.bytes@,
            )
    }

    /// Every by_funding pair names an entry whose transaction has an output
    /// hashing to the pair's script hash.
    pub open spec fn funding_sound(self) -> bool {
        forall|p: int| 0 <= p < self.by_funding@.len() ==> #[trigger] self.funding_pair_ok(p)
    }

    /// The by_spending pair at `p` names an entry consuming the pair's
    /// outpoint.
    pub open spec fn spending_pair_ok(self, p: int) -> bool {
        exists|k: int|
            0 <= k < self.entries@.len() && (#[trigger] self.entries@[k]).txid.bytes@
                == self.by_spending@[p].1.bytes@ && entry_spends(
                self.entries@[k],
                self.by_spending@[p].0,
            )
    }

    /// Every by_spending pair names an entry consuming the pair's outpoint.
    pub open spec fn spending_sound(self) -> bool {
        forall|p: int| 0 <= p < self.by_spending@.len() ==> #[trigger] self.spending_pair_ok(p)
    }

    /// Output `o` of entry `k` is indexed in by_funding.
    pub open spec fn funding_output_ok(self, k: int, o: int) -> bool {
        exists|p: int|
            0 <= p < self.by_funding@.len() && (#[trigger] self.by_funding@[p]).0.bytes@
                == script_hash_of(self.entries@[k].tx.outputs@[o].script@)
                && self.by_funding@[p].1.bytes@ == self.entries@[k].txid.bytes@
    }

    /// Every output of every entry is indexed in by_funding.
    pub open spec fn funding_complete(self) -> bool {
        forall|k: int, o: int|
            0 <= k < self.entries@.len() && 0 <= o < self.entries@[k].tx.outputs@.len()
                ==> #[trigger] self.funding_output_ok(k, o)
    }

    /// Input `i` of entry `k` is indexed in by_spending.
    pub open spec fn spending_input_ok(self, k: int, i: int) -> bool {
        exists|p: int|
            0 <= p < self.by_spending@.len() && same_outpoint(
                (#[trigger] self.by_spending@[p]).0,
                self.entries@[k].tx.inputs@[i],
            ) && self.by_spending@[p].1.bytes@ == self.entries@[k].txid.bytes@
    }

    /// Every input of every entry is indexed in by_spending.
    pub open spec fn spending_complete(self) -> bool {
        forall|k: int, i: int|
            0 <= k < self.entries@.len() && 0 <= i < self.entries@[k].tx.inputs@.len()
                ==> #[trigger] self.spending_input_ok(k, i)
    }

        /// Funding pairs are distinct: an output script appears at most once per
    /// transaction.
    pub open spec fn funding_pairs_unique(self) -> bool {
        forall|p1: int, p2: int|
            0 <= p1 < p2 < self.by_funding@.len() ==> ((#[trigger] self.by_funding@[p1]).0.bytes@
                != (#[trigger] self.by_funding@[p2]).0.bytes@ || self.by_funding@[p1].1.bytes@
                != self.by_funding@[p2].1.bytes@)
    }

    /// Spending pairs are distinct: an outpoint appears at most once per
    /// transaction.
    pub open spec fn spending_pairs_unique(self) -> bool {
        forall|p1: int, p2: int|
            0 <= p1 < p2 < self.by_spending@.len() ==> (!same_outpoint(
                (#[trigger] self.by_spending@[p1]).0,
                (#[trigger] self.by_spending@[p2]).0,
            ) || self.by_spending@[p1].1.bytes@ != self.by_spending@[p2].1.bytes@)
    }

    /// The mirror invariant: entries are keyed by distinct transaction ids,
    /// and the secondary indices and the main map are mutually consistent —
    /// every by_funding pair names an entry whose transaction has an output
    /// hashing to the pair's script hash, every by_spending pair names an
    /// entry consuming the pair's outpoint, and conversely every output and
    /// input of every entry is indexed.
    pub open spec fn wf(self) -> bool {
        &&& self.unique_txids()
        &&& self.funding_sound()
        &&& self.spending_sound()
        &&& self.funding_complete()
        &&& self.spending_complete()
        &&& self.funding_pairs_unique()
        &&& self.spending_pairs_unique()
    }

        /// An empty mirror.
    pub fn new() -> (r: Mempool)
        ensures
            r.wf(),
            r.entries@.len() == 0,
    {
        Mempool { entries: Vec::new(), by_funding: Vec::new(), by_spending: Vec::new() }
    }

    /// The entry for a transaction id, if present.
    pub fn get(&self, txid: &Txid) -> (r: Option<&Entry>)
        ensures
            r is Some <==> self.has_txid(txid.bytes@),
            r matches Some(e) ==> exists|k: int|
                0 <= k < self.entries@.len() && *e == self.entries@[k as int] && e.txid.bytes@
                    == txid.bytes@,
    {
        let mut k: usize = 0;
        while k < self.entries.len()
            invariant
                k <= self.entries@.len(),
                forall|x: int|
                    0 <= x < k ==> (#[trigger] self.entries@[x]).txid.bytes@ != txid.bytes@,
            decreases self.entries@.len() - k,
        {
            if self.entries[k].txid.same(txid) {
                return Some(&self.entries[k]);
            }
            k += 1;
        }
        None
    }

    /// The indices of the entries whose transactions create an output paying
    /// the script hash, in ascending order.
    pub fn filter_by_funding(&self, sh: &ScriptHash) -> (r: Vec<usize>)
        ensures
            forall|x: int, y: int| 0 <= x < y < r@.len() ==> r@[x] < r@[y],
            forall|x: int|
                0 <= x < r@.len() ==> (#[trigger] r@[x]) < self.entries@.len() && entry_funds(
                    self.entries@[r@[x] as int],
                    sh.bytes@,
                ),
            forall|k: int|
                0 <= k < self.entries@.len() && entry_funds(#[trigger] self.entries@[k], sh.bytes@)
                    ==> r@.contains(k as usize),
    {
        let mut r: Vec<usize> = Vec::new();
        let mut k: usize = 0;
        while k < self.entries.len()
            invariant
                k <= self.entries@.len(),
                forall|x: int, y: int| 0 <= x < y < r@.len() ==> r@[x] < r@[y],
                forall|x: int| 0 <= x < r@.len() ==> (#[trigger] r@[x]) < k,
                forall|x: int|
                    0 <= x < r@.len() ==> entry_funds(
                        self.entries@[r@[x] as int],
                        sh.bytes@,
                    ),
                forall|j: int|
                    0 <= j < k && entry_funds(#[trigger] self.entries@[j], sh.bytes@)
                        ==> r@.contains(j as usize),
            decreases self.entries@.len() - k,
        {
            if entry_has_output_hash(&self.entries[k], sh) {
                let ghost r_before = r@;
                r.push(k);
                proof {
                    assert(r@[r_before.len() as int] == k as usize);
                    assert(r@.contains(k as usize));
                    assert(forall|j: int|
                        0 <= j < k && entry_funds(#[trigger] self.entries@[j], sh.bytes@)
                            ==> r_before.contains(j as usize));
                    assert forall|j: int|
                        0 <= j < k + 1 && entry_funds(
                            #[trigger] self.entries@[j],
                            sh.bytes@,
                        ) implies r@.contains(j as usize) by {
                        if j < k {
                            let x = choose|x: int|
                                0 <= x < r_before.len() && r_before[x] == j as usize;
                            assert(r@[x] == j as usize);
                        }
                    }
                }
            }
            k += 1;
        }
        r
    }

    /// The indices of the entries whose transactions consume the outpoint,
    /// in ascending order.
    pub fn filter_by_spending(&self, op: &OutPoint) -> (r: Vec<usize>)
        ensures
            forall|x: int, y: int| 0 <= x < y < r@.len() ==> r@[x] < r@[y],
            forall|x: int|
                0 <= x < r@.len() ==> (#[trigger] r@[x]) < self.entries@.len() && entry_spends(
                    self.entries@[r@[x] as int],
                    *op,
                ),
            forall|k: int|
                0 <= k < self.entries@.len() && entry_spends(#[trigger] self.entries@[k], *op)
                    ==> r@.contains(k as usize),
    {
        let mut r: Vec<usize> = Vec::new();
        let mut k: usize = 0;
        while k < self.entries.len()
            invariant
                k <= self.entries@.len(),
                forall|x: int, y: int| 0 <= x < y < r@.len() ==> r@[x] < r@[y],
                forall|x: int| 0 <= x < r@.len() ==> (#[trigger] r@[x]) < k,
                forall|x: int|
                    0 <= x < r@.len() ==> entry_spends(self.entries@[r@[x] as int], *op),
                forall|j: int|
                    0 <= j < k && entry_spends(#[trigger] self.entries@[j], *op) ==> r@.contains(
                        j as usize,
                    ),
            decreases self.entries@.len() - k,
        {
            if entry_has_input(&self.entries[k], op) {
                let ghost r_before = r@;
                r.push(k);
                proof {
                    assert(r@[r_before.len() as int] == k as usize);
                    assert(r@.contains(k as usize));
                    assert forall|j: int|
                        0 <= j < k + 1 && entry_spends(#[trigger] self.entries@[j], *op) implies r@
                        .contains(j as usize) by {
                        if j < k {
                            let x = choose|x: int|
                                0 <= x < r_before.len() && r_before[x] == j as usize;
                            assert(r@[x] == j as usize);
                        }
                    }
                }
            }
            k += 1;
        }
        r
    }

    /// Adds a freshly observed transaction to the mirror, indexing each of
    /// its distinct output script hashes and each of its distinct consumed
    /// outpoints once.
    pub fn add_entry(&mut self, e: Entry)
        requires
            old(self).wf(),
            !old(self).has_txid(e.txid.bytes@),
        ensures
            final(self).wf(),
            final(self).entries@ == old(self).entries@.push(e),
    {
        let ghost old_f = self.by_funding@;
        let ghost old_s = self.by_spending@;
        // The output script hashes, used for both pairing and duplicate
        // collapse.
        let mut oh: Vec<ScriptHash> = Vec::new();
        let mut o: usize = 0;
        while o < e.tx.outputs.len()
            invariant
                o <= e.tx.outputs@.len(),
                *self == *old(self),
                oh@.len() == o,
                forall|x: int|
                    0 <= x < o ==> (#[trigger] oh@[x]).bytes@ == script_hash_of(
                        e.tx.outputs@[x].script@,
                    ),
            decreases e.tx.outputs@.len() - o,
        {
            let sh = script_hash(&e.tx.outputs[o].script);
            oh.push(sh);
            o += 1;
        }
        let mut o: usize = 0;
        while o < oh.len()
            invariant
                o <= oh@.len(),
                oh@.len() == e.tx.outputs@.len(),
                forall|x: int|
                    0 <= x < oh@.len() ==> (#[trigger] oh@[x]).bytes@ == script_hash_of(
                        e.tx.outputs@[x].script@,
                    ),
                self.entries == old(self).entries,
                self.by_spending == old(self).by_spending,
                old_f.len() <= self.by_funding@.len(),
                forall|p: int| 0 <= p < old_f.len() ==> #[trigger] self.by_funding@[p] == old_f[p],
                forall|p: int|
                    old_f.len() <= p < self.by_funding@.len() ==> (
                    #[trigger] self.by_funding@[p]).1.bytes@ == e.txid.bytes@ && (exists|oo: int|
                        0 <= oo < o && self.by_funding@[p].0.bytes@ == script_hash_of(
                            (#[trigger] e.tx.outputs@[oo]).script@,
                        )),
                forall|oo: int|
                    0 <= oo < o ==> funding_pair_in(
                        self.by_funding@,
                        old_f.len() as int,
                        script_hash_of((#[trigger] e.tx.outputs@[oo]).script@),
                        e.txid.bytes@,
                    ),
                forall|p1: int, p2: int|
                    old_f.len() <= p1 < p2 < self.by_funding@.len() ==> (
                    #[trigger] self.by_funding@[p1]).0.bytes@ != (
                    #[trigger] self.by_funding@[p2]).0.bytes@,
            decreases oh@.len() - o,
        {
            let mut dup = false;
            let mut j: usize = 0;
            while j < o && !dup
                invariant
                    j <= o,
                    o < oh@.len(),
                    oh@.len() == e.tx.outputs@.len(),
                    forall|x: int|
                        0 <= x < oh@.len() ==> (#[trigger] oh@[x]).bytes@ == script_hash_of(
                            e.tx.outputs@[x].script@,
                        ),
                    !dup ==> forall|y: int|
                        0 <= y < j ==> script_hash_of((#[trigger] e.tx.outputs@[y]).script@)
                            != script_hash_of(e.tx.outputs@[o as int].script@),
                    dup ==> exists|y: int|
                        0 <= y < o && script_hash_of((#[trigger] e.tx.outputs@[y]).script@)
                            == script_hash_of(e.tx.outputs@[o as int].script@),
                decreases o - j,
            {
                if oh[j].same(&oh[o]) {
                    dup = true;
                    proof {
                        assert(script_hash_of(e.tx.outputs@[j as int].script@) == script_hash_of(
                            e.tx.outputs@[o as int].script@,
                        ));
                    }
                }
                j += 1;
            }
            let ghost fb = self.by_funding@;
            if !dup {
                self.by_funding.push((oh[o], e.txid));
                proof {
                    assert(forall|p: int|
                        0 <= p < fb.len() ==> #[trigger] self.by_funding@[p] == fb[p]);
                    assert(self.by_funding@.last().0.bytes@ == script_hash_of(
                        e.tx.outputs@[o as int].script@,
                    ) && self.by_funding@.last().1.bytes@ == e.txid.bytes@);
                    assert(funding_pair_in(
                        self.by_funding@,
                        old_f.len() as int,
                        script_hash_of(e.tx.outputs@[o as int].script@),
                        e.txid.bytes@,
                    ));
                    assert forall|oo: int|
                        0 <= oo < o + 1 implies funding_pair_in(
                        self.by_funding@,
                        old_f.len() as int,
                        script_hash_of((#[trigger] e.tx.outputs@[oo]).script@),
                        e.txid.bytes@,
                    ) by {
                        if oo < o {
                            let q = choose|q: int|
                                old_f.len() <= q < fb.len() && (#[trigger] fb[q]).0.bytes@
                                    == script_hash_of(e.tx.outputs@[oo].script@) && fb[q].1.bytes@
                                    == e.txid.bytes@;
                            assert(self.by_funding@[q] == fb[q]);
                        }
                    }
                    assert forall|p1: int, p2: int|
                        old_f.len() <= p1 < p2 < self.by_funding@.len() implies (
                    #[trigger] self.by_funding@[p1]).0.bytes@ != (
                    #[trigger] self.by_funding@[p2]).0.bytes@ by {
                        if p2 == self.by_funding@.len() - 1 {
                            assert(self.by_funding@[p1] == fb[p1]);
                            let oo = choose|oo: int|
                                0 <= oo < o && fb[p1].0.bytes@ == script_hash_of(
                                    (#[trigger] e.tx.outputs@[oo]).script@,
                                );
                            assert(script_hash_of(e.tx.outputs@[oo].script@) != script_hash_of(
                                e.tx.outputs@[o as int].script@,
                            ));
                        } else {
                            assert(self.by_funding@[p1] == fb[p1]);
                            assert(self.by_funding@[p2] == fb[p2]);
                        }
                    }
                }
            } else {
                proof {
                    let y = choose|y: int|
                        0 <= y < o && script_hash_of((#[trigger] e.tx.outputs@[y]).script@)
                            == script_hash_of(e.tx.outputs@[o as int].script@);
                    assert(funding_pair_in(
                        self.by_funding@,
                        old_f.len() as int,
                        script_hash_of(e.tx.outputs@[y].script@),
                        e.txid.bytes@,
                    ));
                }
            }
            o += 1;
        }
        // The consumed outpoints, duplicates collapsed.
        let mut i: usize = 0;
        while i < e.tx.inputs.len()
            invariant
                i <= e.tx.inputs@.len(),
                self.entries == old(self).entries,
                funding_appended(*old(self), *self, e),
                old_s.len() <= self.by_spending@.len(),
                forall|p: int| 0 <= p < old_s.len() ==> #[trigger] self.by_spending@[p] == old_s[p],
                forall|p: int|
                    old_s.len() <= p < self.by_spending@.len() ==> (
                    #[trigger] self.by_spending@[p]).1.bytes@ == e.txid.bytes@ && (exists|ii: int|
                        0 <= ii < i && same_outpoint(
                            self.by_spending@[p].0,
                            #[trigger] e.tx.inputs@[ii],
                        )),
                forall|ii: int|
                    0 <= ii < i ==> spending_pair_in(
                        self.by_spending@,
                        old_s.len() as int,
                        #[trigger] e.tx.inputs@[ii],
                        e.txid.bytes@,
                    ),
                forall|p1: int, p2: int|
                    old_s.len() <= p1 < p2 < self.by_spending@.len() ==> !same_outpoint(
                        (#[trigger] self.by_spending@[p1]).0,
                        (#[trigger] self.by_spending@[p2]).0,
                    ),
            decreases e.tx.inputs@.len() - i,
        {
            let mut dup = false;
            let mut j: usize = 0;
            while j < i && !dup
                invariant
                    j <= i,
                    i < e.tx.inputs@.len(),
                    !dup ==> forall|y: int|
                        0 <= y < j ==> !same_outpoint(
                            #[trigger] e.tx.inputs@[y],
                            e.tx.inputs@[i as int],
                        ),
                    dup ==> exists|y: int|
                        0 <= y < i && same_outpoint(
                            #[trigger] e.tx.inputs@[y],
                            e.tx.inputs@[i as int],
                        ),
                decreases i - j,
            {
                if e.tx.inputs[j].same(&e.tx.inputs[i]) {
                    dup = true;
                    proof {
                        assert(same_outpoint(e.tx.inputs@[j as int], e.tx.inputs@[i as int]));
                    }
                }
                j += 1;
            }
            let ghost sb = self.by_spending@;
            if !dup {
                self.by_spending.push((e.tx.inputs[i], e.txid));
                proof {
                    assert(forall|p: int|
                        0 <= p < sb.len() ==> #[trigger] self.by_spending@[p] == sb[p]);
                    assert(same_outpoint(self.by_spending@.last().0, e.tx.inputs@[i as int])
                        && self.by_spending@.last().1.bytes@ == e.txid.bytes@);
                    assert(spending_pair_in(
                        self.by_spending@,
                        old_s.len() as int,
                        e.tx.inputs@[i as int],
                        e.txid.bytes@,
                    ));
                    assert forall|ii: int|
                        0 <= ii < i + 1 implies spending_pair_in(
                        self.by_spending@,
                        old_s.len() as int,
                        #[trigger] e.tx.inputs@[ii],
                        e.txid.bytes@,
                    ) by {
                        if ii < i {
                            let q = choose|q: int|
                                old_s.len() <= q < sb.len() && same_outpoint(
                                    (#[trigger] sb[q]).0,
                                    e.tx.inputs@[ii],
                                ) && sb[q].1.bytes@ == e.txid.bytes@;
                            assert(self.by_spending@[q] == sb[q]);
                        }
                    }
                    assert forall|p1: int, p2: int|
                        old_s.len() <= p1 < p2 < self.by_spending@.len() implies !same_outpoint(
                        (#[trigger] self.by_spending@[p1]).0,
                        (#[trigger] self.by_spending@[p2]).0,
                    ) by {
                        if p2 == self.by_spending@.len() - 1 {
                            assert(self.by_spending@[p1] == sb[p1]);
                            let ii = choose|ii: int|
                                0 <= ii < i && same_outpoint(
                                    sb[p1].0,
                                    #[trigger] e.tx.inputs@[ii],
                                );
                            assert(!same_outpoint(e.tx.inputs@[ii], e.tx.inputs@[i as int]));
                        } else {
                            assert(self.by_spending@[p1] == sb[p1]);
                            assert(self.by_spending@[p2] == sb[p2]);
                        }
                    }
                }
            } else {
                proof {
                    let y = choose|y: int|
                        0 <= y < i && same_outpoint(
                            #[trigger] e.tx.inputs@[y],
                            e.tx.inputs@[i as int],
                        );
                    assert(spending_pair_in(
                        self.by_spending@,
                        old_s.len() as int,
                        e.tx.inputs@[y],
                        e.txid.bytes@,
                    ));
                    let q = choose|q: int|
                        old_s.len() <= q < self.by_spending@.len() && same_outpoint(
                            (#[trigger] self.by_spending@[q]).0,
                            e.tx.inputs@[y],
                        ) && self.by_spending@[q].1.bytes@ == e.txid.bytes@;
                    assert(same_outpoint(self.by_spending@[q].0, e.tx.inputs@[i as int]));
                }
            }
            i += 1;
        }
        self.entries.push(e);
        proof {
            lemma_add_preserves_wf(*old(self), *self, e);
        }
    }

    /// Removes the entry for a transaction id, erasing its by_funding and
    /// by_spending pairs; a no-op if the id is absent.
    pub fn remove_entry(&mut self, txid: &Txid) -> (r: bool)
        requires
            old(self).wf(),
        ensures
            final(self).wf(),
            r == old(self).has_txid(txid.bytes@),
            !r ==> *final(self) == *old(self),
            r ==> exists|k: int|
                0 <= k < old(self).entries@.len() && (#[trigger] old(self).entries@[k]).txid.bytes@
                    == txid.bytes@ && final(self).entries@ == old(self).entries@.remove(k),
            forall|t: Seq<u8>| final(self).has_txid(t) <==> old(self).has_txid(t) && t
                != txid.bytes@,
    {
        let mut k: usize = 0;
        let n = self.entries.len();
        while k < n
            invariant
                n == self.entries@.len(),
                k <= n,
                *self == *old(self),
                self.wf(),
                forall|x: int|
                    0 <= x < k ==> (#[trigger] self.entries@[x]).txid.bytes@ != txid.bytes@,
            decreases n - k,
        {
            if self.entries[k].txid.same(txid) {
                let ghost old_e = self.entries@;
                let ghost old_f = self.by_funding@;
                let ghost old_s = self.by_spending@;
                let _ = self.entries.remove(k);
                let mut nf: Vec<(ScriptHash, Txid)> = Vec::new();
                let mut p: usize = 0;
                while p < self.by_funding.len()
                    invariant
                        p <= self.by_funding@.len(),
                        self.by_funding@ == old_f,
                        forall|q1: int, q2: int|
                            0 <= q1 < q2 < old_f.len() ==> ((#[trigger] old_f[q1]).0.bytes@ != (
                            #[trigger] old_f[q2]).0.bytes@ || old_f[q1].1.bytes@
                                != old_f[q2].1.bytes@),
                        forall|x: int|
                            0 <= x < nf@.len() ==> old_f.contains(#[trigger] nf@[x])
                                && nf@[x].1.bytes@ != txid.bytes@,
                        forall|x: int|
                            0 <= x < nf@.len() ==> exists|q: int|
                                0 <= q < p && #[trigger] nf@[x] == old_f[q],
                        forall|x1: int, x2: int|
                            0 <= x1 < x2 < nf@.len() ==> ((#[trigger] nf@[x1]).0.bytes@ != (
                            #[trigger] nf@[x2]).0.bytes@ || nf@[x1].1.bytes@ != nf@[x2].1.bytes@),
                        forall|x: int|
                            0 <= x < p && (#[trigger] old_f[x]).1.bytes@ != txid.bytes@
                                ==> nf@.contains(old_f[x]),
                    decreases self.by_funding@.len() - p,
                {
                    if !self.by_funding[p].1.same(txid) {
                        let ghost nf_before = nf@;
                        nf.push(self.by_funding[p]);
                        proof {
                            assert(nf@[nf_before.len() as int] == old_f[p as int]);
                            assert(old_f.contains(old_f[p as int]));
                            assert forall|x1: int, x2: int|
                                0 <= x1 < x2 < nf@.len() implies ((#[trigger] nf@[x1]).0.bytes@
                                != (#[trigger] nf@[x2]).0.bytes@ || nf@[x1].1.bytes@
                                != nf@[x2].1.bytes@) by {
                                if x2 == nf_before.len() {
                                    assert(nf@[x1] == nf_before[x1]);
                                    let q = choose|q: int|
                                        0 <= q < p && #[trigger] nf_before[x1] == old_f[q];
                                    assert(old_f[q].0.bytes@ != old_f[p as int].0.bytes@ || old_f[
                                        q
                                    ].1.bytes@ != old_f[p as int].1.bytes@);
                                } else {
                                    assert(nf@[x1] == nf_before[x1]);
                                    assert(nf@[x2] == nf_before[x2]);
                                }
                            }
                            assert forall|x: int|
                                0 <= x < p + 1 && (#[trigger] old_f[x]).1.bytes@ != txid.bytes@
                                implies nf@.contains(old_f[x]) by {
                                if x < p {
                                    let y = choose|y: int|
                                        0 <= y < nf_before.len() && nf_before[y] == old_f[x];
                                    assert(nf@[y] == old_f[x]);
                                } else {
                                    assert(nf@[nf_before.len() as int] == old_f[x]);
                                }
                            }
                        }
                    }
                    p += 1;
                }
                self.by_funding = nf;
                let mut ns: Vec<(OutPoint, Txid)> = Vec::new();
                let mut q: usize = 0;
                while q < self.by_spending.len()
                    invariant
                        q <= self.by_spending@.len(),
                        self.by_spending@ == old_s,
                        forall|q1: int, q2: int|
                            0 <= q1 < q2 < old_s.len() ==> (!same_outpoint(
                                (#[trigger] old_s[q1]).0,
                                (#[trigger] old_s[q2]).0,
                            ) || old_s[q1].1.bytes@ != old_s[q2].1.bytes@),
                        forall|x: int|
                            0 <= x < ns@.len() ==> old_s.contains(#[trigger] ns@[x])
                                && ns@[x].1.bytes@ != txid.bytes@,
                        forall|x: int|
                            0 <= x < ns@.len() ==> exists|qq: int|
                                0 <= qq < q && #[trigger] ns@[x] == old_s[qq],
                        forall|x1: int, x2: int|
                            0 <= x1 < x2 < ns@.len() ==> (!same_outpoint(
                                (#[trigger] ns@[x1]).0,
                                (#[trigger] ns@[x2]).0,
                            ) || ns@[x1].1.bytes@ != ns@[x2].1.bytes@),
                        forall|x: int|
                            0 <= x < q && (#[trigger] old_s[x]).1.bytes@ != txid.bytes@
                                ==> ns@.contains(old_s[x]),
                    decreases self.by_spending@.len() - q,
                {
                    if !self.by_spending[q].1.same(txid) {
                        let ghost ns_before = ns@;
                        ns.push(self.by_spending[q]);
                        proof {
                            assert(ns@[ns_before.len() as int] == old_s[q as int]);
                            assert(old_s.contains(old_s[q as int]));
                            assert forall|x1: int, x2: int|
                                0 <= x1 < x2 < ns@.len() implies (!same_outpoint(
                                (#[trigger] ns@[x1]).0,
                                (#[trigger] ns@[x2]).0,
                            ) || ns@[x1].1.bytes@ != ns@[x2].1.bytes@) by {
                                if x2 == ns_before.len() {
                                    assert(ns@[x1] == ns_before[x1]);
                                    let qq = choose|qq: int|
                                        0 <= qq < q && #[trigger] ns_before[x1] == old_s[qq];
                                    assert(!same_outpoint(old_s[qq].0, old_s[q as int].0)
                                        || old_s[qq].1.bytes@ != old_s[q as int].1.bytes@);
                                } else {
                                    assert(ns@[x1] == ns_before[x1]);
                                    assert(ns@[x2] == ns_before[x2]);
                                }
                            }
                            assert forall|x: int|
                                0 <= x < q + 1 && (#[trigger] old_s[x]).1.bytes@ != txid.bytes@
                                implies ns@.contains(old_s[x]) by {
                                if x < q {
                                    let y = choose|y: int|
                                        0 <= y < ns_before.len() && ns_before[y] == old_s[x];
                                    assert(ns@[y] == old_s[x]);
                                } else {
                                    assert(ns@[ns_before.len() as int] == old_s[x]);
                                }
                            }
                        }
                    }
                    q += 1;
                }
                self.by_spending = ns;
                proof {
                    lemma_remove_preserves_wf(*old(self), *self, k as int, txid.bytes@);
                }
                return true;
            }
            k += 1;
        }
        proof {
            assert forall|t: Seq<u8>|
                final(self).has_txid(t) implies old(self).has_txid(t) && t != txid.bytes@ by {
                let x = choose|x: int|
                    0 <= x < self.entries@.len() && (#[trigger] self.entries@[x]).txid.bytes@ == t;
                assert(self.entries@[x].txid.bytes@ != txid.bytes@);
            }
        }
        false
    }

    /// Brings the mirror in line with the node: entries whose ids the node
    /// no longer reports are removed, and the freshly fetched entries are
    /// inserted (an id already present, or reported twice, is kept once).
    pub fn sync(&mut self, txids: &Vec<Txid>, fetched: Vec<Entry>)
        requires
            old(self).wf(),
        ensures
            final(self).wf(),
            forall|t: Seq<u8>|
                final(self).has_txid(t) <==> (old(self).has_txid(t) && txid_list_contains(
                    txids@,
                    t,
                )) || fetched_has(fetched@, t),
            forall|k: int|
                0 <= k < final(self).entries@.len() ==> old(self).entries@.contains(
                    #[trigger] final(self).entries@[k],
                ) || fetched@.contains(final(self).entries@[k]),
            forall|j: int|
                0 <= j < old(self).entries@.len() && txid_list_contains(
                    txids@,
                    (#[trigger] old(self).entries@[j]).txid.bytes@,
                ) ==> final(self).entries@.contains(old(self).entries@[j]),
    {
        let mut k: usize = 0;
        while k < self.entries.len()
            invariant
                k <= self.entries@.len(),
                self.wf(),
                forall|x: int|
                    0 <= x < k ==> txid_list_contains(
                        txids@,
                        (#[trigger] self.entries@[x]).txid.bytes@,
                    ),
                forall|t: Seq<u8>|
                    self.has_txid(t) ==> old(self).has_txid(t),
                forall|t: Seq<u8>|
                    old(self).has_txid(t) && txid_list_contains(txids@, t) ==> self.has_txid(t),
                forall|x: int|
                    0 <= x < self.entries@.len() ==> old(self).entries@.contains(
                        #[trigger] self.entries@[x],
                    ),
                forall|j: int|
                    0 <= j < old(self).entries@.len() && txid_list_contains(
                        txids@,
                        (#[trigger] old(self).entries@[j]).txid.bytes@,
                    ) ==> self.entries@.contains(old(self).entries@[j]),
            decreases self.entries@.len() - k,
        {
            if !txid_in_list(txids, &self.entries[k].txid) {
                let t = self.entries[k].txid;
                proof {
                    assert(self.entries@[k as int].txid.bytes@ == t.bytes@);
                }
                let ghost prev_self = *self;
                let removed = self.remove_entry(&t);
                proof {
                    let kk = choose|kk: int|
                        0 <= kk < prev_self.entries@.len() && (
                        #[trigger] prev_self.entries@[kk]).txid.bytes@ == t.bytes@
                            && self.entries@ == prev_self.entries@.remove(kk);
                    assert(forall|x: int|
                        0 <= x < self.entries@.len() ==> #[trigger] self.entries@[x] == if x < kk {
                            prev_self.entries@[x]
                        } else {
                            prev_self.entries@[x + 1]
                        });
                    assert forall|x: int|
                        0 <= x < k implies txid_list_contains(
                        txids@,
                        (#[trigger] self.entries@[x]).txid.bytes@,
                    ) by {
                        assert(self.has_txid(self.entries@[x].txid.bytes@));
                    }
                    assert forall|x: int|
                        0 <= x < self.entries@.len() implies old(self).entries@.contains(
                        #[trigger] self.entries@[x],
                    ) by {
                        let xx = if x < kk {
                            x
                        } else {
                            x + 1
                        };
                        assert(self.entries@[x] == prev_self.entries@[xx]);
                        assert(old(self).entries@.contains(prev_self.entries@[xx]));
                    }
                    assert forall|j: int|
                        0 <= j < old(self).entries@.len() && txid_list_contains(
                            txids@,
                            (#[trigger] old(self).entries@[j]).txid.bytes@,
                        ) implies self.entries@.contains(old(self).entries@[j]) by {
                        assert(prev_self.entries@.contains(old(self).entries@[j]));
                        let y = choose|y: int|
                            0 <= y < prev_self.entries@.len() && #[trigger] prev_self.entries@[y]
                                == old(self).entries@[j];
                        assert(prev_self.entries@[kk].txid.bytes@ == t.bytes@);
                        assert(y != kk);
                        let x2 = if y < kk {
                            y
                        } else {
                            y - 1
                        };
                        assert(self.entries@[x2] == prev_self.entries@[y]);
                    }
                }
            } else {
                k += 1;
            }
        }
        proof {
            assert forall|t: Seq<u8>|
                self.has_txid(t) implies old(self).has_txid(t) && txid_list_contains(
                txids@,
                t,
            ) by {
                let x = choose|x: int|
                    0 <= x < self.entries@.len() && (#[trigger] self.entries@[x]).txid.bytes@ == t;
                assert(txid_list_contains(txids@, self.entries@[x].txid.bytes@));
            }
        }
        let ghost mid = *self;
        proof {
            assert forall|t: Seq<u8>|
                mid.has_txid(t) <==> old(self).has_txid(t) && txid_list_contains(txids@, t) by {}
        }
        let mut rest = fetched;
        while rest.len() > 0
            invariant
                mid.wf(),
                self.wf(),
                rest@.len() <= fetched@.len(),
                rest@ == fetched@.take(rest@.len() as int),
                forall|t: Seq<u8>|
                    self.has_txid(t) <==> mid.has_txid(t) || fetched_has_from(
                        fetched@,
                        rest@.len() as int,
                        t,
                    ),
                forall|x: int|
                    0 <= x < self.entries@.len() ==> mid.entries@.contains(
                        #[trigger] self.entries@[x],
                    ) || fetched@.contains(self.entries@[x]),
                forall|j: int|
                    0 <= j < old(self).entries@.len() && txid_list_contains(
                        txids@,
                        (#[trigger] old(self).entries@[j]).txid.bytes@,
                    ) ==> self.entries@.contains(old(self).entries@[j]),
            decreases rest@.len(),
        {
            let ghost pre_rest = rest@;
            let popped = rest.pop();
            let e = match popped {
                Some(e) => e,
                None => {
                    proof {
                        assert(false);
                    }
                    return ;
                },
            };
            let ghost done = rest@.len() as int;
            proof {
                assert(pre_rest == fetched@.take(done + 1));
                assert(fetched@.take(done + 1)[done] == fetched@[done]);
                assert(e == fetched@[done]);
                assert(rest@ =~= fetched@.take(done));
            }
            let t = e.txid;
            if self.get(&t).is_none() {
                let ghost before = *self;
                self.add_entry(e);
                proof {
                    assert(self.entries@.last() == e);
                    assert(fetched@.contains(e));
                    assert forall|x: int|
                        0 <= x < self.entries@.len() implies mid.entries@.contains(
                        #[trigger] self.entries@[x],
                    ) || fetched@.contains(self.entries@[x]) by {
                        if x < self.entries@.len() - 1 {
                            assert(self.entries@[x] == before.entries@[x]);
                        }
                    }
                    assert forall|j: int|
                        0 <= j < old(self).entries@.len() && txid_list_contains(
                            txids@,
                            (#[trigger] old(self).entries@[j]).txid.bytes@,
                        ) implies self.entries@.contains(old(self).entries@[j]) by {
                        assert(before.entries@.contains(old(self).entries@[j]));
                        let y = choose|y: int|
                            0 <= y < before.entries@.len() && #[trigger] before.entries@[y] == old(
                                self,
                            ).entries@[j];
                        assert(self.entries@[y] == before.entries@[y]);
                    }
                    assert forall|tt: Seq<u8>|
                        self.has_txid(tt) implies mid.has_txid(tt) || fetched_has_from(
                        fetched@,
                        done,
                        tt,
                    ) by {
                        let x = choose|x: int|
                            0 <= x < self.entries@.len() && (#[trigger] self.entries@[x]).txid.bytes@
                                == tt;
                        if x < self.entries@.len() - 1 {
                            assert(self.entries@[x] == before.entries@[x]);
                            assert(before.has_txid(tt));
                        } else {
                            assert(fetched@[done].txid.bytes@ == tt);
                        }
                    }
                    assert forall|tt: Seq<u8>|
                        (mid.has_txid(tt) || fetched_has_from(
                            fetched@,
                            done,
                            tt,
                        )) implies self.has_txid(tt) by {
                        if mid.has_txid(tt) {
                            let x = choose|x: int|
                                0 <= x < before.entries@.len() && (
                                #[trigger] before.entries@[x]).txid.bytes@ == tt;
                            assert(self.entries@[x] == before.entries@[x]);
                        } else {
                            let x = choose|x: int|
                                done <= x < fetched@.len() && (#[trigger] fetched@[x]).txid.bytes@
                                    == tt;
                            if x == done {
                                assert(self.entries@[self.entries@.len() - 1].txid.bytes@ == tt);
                            } else {
                                assert(fetched_has_from(fetched@, done + 1, tt));
                                let y = choose|y: int|
                                    0 <= y < before.entries@.len() && (
                                    #[trigger] before.entries@[y]).txid.bytes@ == tt;
                                assert(self.entries@[y] == before.entries@[y]);
                            }
                        }
                    }
                }
            } else {
                proof {
                    assert(self.has_txid(t.bytes@));
                    assert forall|tt: Seq<u8>|
                        self.has_txid(tt) implies mid.has_txid(tt) || fetched_has_from(
                        fetched@,
                        done,
                        tt,
                    ) by {}
                    assert forall|tt: Seq<u8>|
                        (mid.has_txid(tt) || (exists|x: int|
                            done <= x < fetched@.len() && (#[trigger] fetched@[x]).txid.bytes@
                                == tt)) implies self.has_txid(tt) by {
                        if !mid.has_txid(tt) {
                            let x = choose|x: int|
                                done <= x < fetched@.len() && (#[trigger] fetched@[x]).txid.bytes@
                                    == tt;
                            if x == done {
                                assert(tt == t.bytes@);
                            }
                        }
                    }
                }
            }
        }
        proof {
            assert(rest@.len() == 0);
            assert forall|t: Seq<u8>|
                final(self).has_txid(t) <==> (old(self).has_txid(t) && txid_list_contains(
                txids@,
                t,
            )) || fetched_has(fetched@, t) by {
                assert(self.has_txid(t) <==> mid.has_txid(t) || fetched_has_from(fetched@, 0, t));
                assert(mid.has_txid(t) <==> old(self).has_txid(t) && txid_list_contains(
                    txids@,
                    t,
                ));
            }
            assert forall|k: int|
                0 <= k < final(self).entries@.len() implies old(self).entries@.contains(
                #[trigger] final(self).entries@[k],
            ) || fetched@.contains(final(self).entries@[k]) by {
                if mid.entries@.contains(self.entries@[k]) {
                    let y = choose|y: int|
                        0 <= y < mid.entries@.len() && #[trigger] mid.entries@[y]
                            == self.entries@[k];
                    assert(old(self).entries@.contains(mid.entries@[y]));
                }
            }
        }
    }
}

/// Whether a transaction id occurs in a list.
pub open spec fn txid_list_contains(s: Seq<Txid>, t: Seq<u8>) -> bool {
    exists|i: int| 0 <= i < s.len() && (#[trigger] s[i]).bytes@ == t
}

/// Whether a fetched entry at position `from` or later carries the
/// transaction id.
pub open spec fn fetched_has_from(s: Seq<Entry>, from: int, t: Seq<u8>) -> bool {
    exists|i: int| from <= i < s.len() && (#[trigger] s[i]).txid.bytes@ == t
}

/// Whether a fetched entry carries the transaction id.
pub open spec fn fetched_has(s: Seq<Entry>, t: Seq<u8>) -> bool {
    fetched_has_from(s, 0, t)
}

/// Whether a transaction id occurs in a list.
pub fn txid_in_list(s: &Vec<Txid>, t: &Txid) -> (r: bool)
    ensures
        r == txid_list_contains(s@, t.bytes@),
{
    let mut i: usize = 0;
    while i < s.len()
        invariant
            i <= s@.len(),
            forall|x: int| 0 <= x < i ==> (#[trigger] s@[x]).bytes@ != t.bytes@,
        decreases s@.len() - i,
    {
        if s[i].same(t) {
            return true;
        }
        i += 1;
    }
    false
}

/// A funding pair for the script hash and transaction id occurs at or after
/// position `from`.
pub open spec fn funding_pair_in(
    s: Seq<(ScriptHash, Txid)>,
    from: int,
    sh: Seq<u8>,
    t: Seq<u8>,
) -> bool {
    exists|p: int| from <= p < s.len() && (#[trigger] s[p]).0.bytes@ == sh && s[p].1.bytes@ == t
}

/// A spending pair for the outpoint and transaction id occurs at or after
/// position `from`.
pub open spec fn spending_pair_in(
    s: Seq<(OutPoint, Txid)>,
    from: int,
    op: OutPoint,
    t: Seq<u8>,
) -> bool {
    exists|p: int|
        from <= p < s.len() && same_outpoint((#[trigger] s[p]).0, op) && s[p].1.bytes@ == t
}

/// The by_funding shape after an append: old pairs kept; the new pairs carry
/// the entry's id, one per distinct output script hash, with no duplicates.
pub open spec fn funding_appended(pre: Mempool, post: Mempool, e: Entry) -> bool {
    &&& pre.by_funding@.len() <= post.by_funding@.len()
    &&& forall|p: int|
        0 <= p < pre.by_funding@.len() ==> #[trigger] post.by_funding@[p] == pre.by_funding@[p]
    &&& forall|p: int|
        pre.by_funding@.len() <= p < post.by_funding@.len() ==> (
        #[trigger] post.by_funding@[p]).1.bytes@ == e.txid.bytes@ && (exists|o: int|
            0 <= o < e.tx.outputs@.len() && post.by_funding@[p].0.bytes@ == script_hash_of(
                (#[trigger] e.tx.outputs@[o]).script@,
            ))
    &&& forall|o: int|
        0 <= o < e.tx.outputs@.len() ==> funding_pair_in(
            post.by_funding@,
            pre.by_funding@.len() as int,
            script_hash_of((#[trigger] e.tx.outputs@[o]).script@),
            e.txid.bytes@,
        )
    &&& forall|p1: int, p2: int|
        pre.by_funding@.len() <= p1 < p2 < post.by_funding@.len() ==> (
        #[trigger] post.by_funding@[p1]).0.bytes@ != (#[trigger] post.by_funding@[p2]).0.bytes@
}

/// The by_spending shape after an append: old pairs kept; the new pairs
/// carry the entry's id, one per distinct consumed outpoint, with no
/// duplicates.
pub open spec fn spending_appended(pre: Mempool, post: Mempool, e: Entry) -> bool {
    &&& pre.by_spending@.len() <= post.by_spending@.len()
    &&& forall|p: int|
        0 <= p < pre.by_spending@.len() ==> #[trigger] post.by_spending@[p] == pre.by_spending@[p]
    &&& forall|p: int|
        pre.by_spending@.len() <= p < post.by_spending@.len() ==> (
        #[trigger] post.by_spending@[p]).1.bytes@ == e.txid.bytes@ && (exists|i: int|
            0 <= i < e.tx.inputs@.len() && same_outpoint(
                post.by_spending@[p].0,
                #[trigger] e.tx.inputs@[i],
            ))
    &&& forall|i: int|
        0 <= i < e.tx.inputs@.len() ==> spending_pair_in(
            post.by_spending@,
            pre.by_spending@.len() as int,
            #[trigger] e.tx.inputs@[i],
            e.txid.bytes@,
        )
    &&& forall|p1: int, p2: int|
        pre.by_spending@.len() <= p1 < p2 < post.by_spending@.len() ==> !same_outpoint(
            (#[trigger] post.by_spending@[p1]).0,
            (#[trigger] post.by_spending@[p2]).0,
        )
}

proof fn lemma_add_unique(pre: Mempool, post: Mempool, e: Entry)
    requires
        pre.unique_txids(),
        !pre.has_txid(e.txid.bytes@),
        post.entries@ == pre.entries@.push(e),
    ensures
        post.unique_txids(),
{
    let es = post.entries@;
    let pe = pre.entries@;
    let n = pe.len() as int;
    assert forall|k1: int, k2: int|
        0 <= k1 < k2 < es.len() implies (#[trigger] es[k1]).txid.bytes@ != (
    #[trigger] es[k2]).txid.bytes@ by {
        assert(es[k1] == pe[k1]);
        if k2 == n {
            if pe[k1].txid.bytes@ == e.txid.bytes@ {
                assert(pre.has_txid(e.txid.bytes@));
            }
        } else {
            assert(es[k2] == pe[k2]);
        }
    }
}

proof fn lemma_add_funding_sound(pre: Mempool, post: Mempool, e: Entry)
    requires
        pre.funding_sound(),
        post.entries@ == pre.entries@.push(e),
        funding_appended(pre, post, e),
    ensures
        post.funding_sound(),
{
    let n = pre.entries@.len() as int;
    assert forall|p: int| 0 <= p < post.by_funding@.len() implies #[trigger] post.funding_pair_ok(
        p,
    ) by {
        if p < pre.by_funding@.len() {
            assert(pre.funding_pair_ok(p));
            let k = choose|k: int|
                0 <= k < pre.entries@.len() && (#[trigger] pre.entries@[k]).txid.bytes@
                    == pre.by_funding@[p].1.bytes@ && entry_funds(
                    pre.entries@[k],
                    pre.by_funding@[p].0.bytes@,
                );
            assert(post.entries@[k] == pre.entries@[k]);
            assert(post.by_funding@[p] == pre.by_funding@[p]);
            assert(0 <= k < post.entries@.len() && post.entries@[k].txid.bytes@
                == post.by_funding@[p].1.bytes@ && entry_funds(
                post.entries@[k],
                post.by_funding@[p].0.bytes@,
            ));
        } else {
            assert(post.entries@[n] == e);
            let oo = choose|oo: int|
                0 <= oo < e.tx.outputs@.len() && post.by_funding@[p].0.bytes@ == script_hash_of(
                    (#[trigger] e.tx.outputs@[oo]).script@,
                );
            assert(entry_funds(post.entries@[n], post.by_funding@[p].0.bytes@));
            assert(0 <= n < post.entries@.len() && post.entries@[n].txid.bytes@
                == post.by_funding@[p].1.bytes@);
        }
    }
}

proof fn lemma_add_spending_sound(pre: Mempool, post: Mempool, e: Entry)
    requires
        pre.spending_sound(),
        post.entries@ == pre.entries@.push(e),
        spending_appended(pre, post, e),
    ensures
        post.spending_sound(),
{
    let n = pre.entries@.len() as int;
    assert forall|p: int| 0 <= p < post.by_spending@.len() implies #[trigger] post.spending_pair_ok(
        p,
    ) by {
        if p < pre.by_spending@.len() {
            assert(pre.spending_pair_ok(p));
            let k = choose|k: int|
                0 <= k < pre.entries@.len() && (#[trigger] pre.entries@[k]).txid.bytes@
                    == pre.by_spending@[p].1.bytes@ && entry_spends(
                    pre.entries@[k],
                    pre.by_spending@[p].0,
                );
            assert(post.entries@[k] == pre.entries@[k]);
            assert(post.by_spending@[p] == pre.by_spending@[p]);
            assert(0 <= k < post.entries@.len() && post.entries@[k].txid.bytes@
                == post.by_spending@[p].1.bytes@ && entry_spends(
                post.entries@[k],
                post.by_spending@[p].0,
            ));
        } else {
            assert(post.entries@[n] == e);
            let ii = choose|ii: int|
                0 <= ii < e.tx.inputs@.len() && same_outpoint(
                    post.by_spending@[p].0,
                    #[trigger] e.tx.inputs@[ii],
                );
            assert(entry_spends(post.entries@[n], post.by_spending@[p].0));
            assert(0 <= n < post.entries@.len() && post.entries@[n].txid.bytes@
                == post.by_spending@[p].1.bytes@);
        }
    }
}

proof fn lemma_add_funding_complete(pre: Mempool, post: Mempool, e: Entry)
    requires
        pre.funding_complete(),
        post.entries@ == pre.entries@.push(e),
        funding_appended(pre, post, e),
    ensures
        post.funding_complete(),
{
    let n = pre.entries@.len() as int;
    assert forall|k: int, o2: int|
        0 <= k < post.entries@.len() && 0 <= o2 < post.entries@[k].tx.outputs@.len()
        implies #[trigger] post.funding_output_ok(k, o2) by {
        if k < n {
            assert(post.entries@[k] == pre.entries@[k]);
            assert(pre.funding_output_ok(k, o2));
            let p = choose|p: int|
                0 <= p < pre.by_funding@.len() && (#[trigger] pre.by_funding@[p]).0.bytes@
                    == script_hash_of(pre.entries@[k].tx.outputs@[o2].script@)
                    && pre.by_funding@[p].1.bytes@ == pre.entries@[k].txid.bytes@;
            assert(post.by_funding@[p] == pre.by_funding@[p]);
            assert(0 <= p < post.by_funding@.len() && post.by_funding@[p].0.bytes@
                == script_hash_of(post.entries@[k].tx.outputs@[o2].script@)
                && post.by_funding@[p].1.bytes@ == post.entries@[k].txid.bytes@);
        } else {
            assert(post.entries@[k] == e);
            assert(e.tx.outputs@[o2] == post.entries@[k].tx.outputs@[o2]);
            assert(funding_pair_in(
                post.by_funding@,
                pre.by_funding@.len() as int,
                script_hash_of(e.tx.outputs@[o2].script@),
                e.txid.bytes@,
            ));
            let p = choose|p: int|
                pre.by_funding@.len() <= p < post.by_funding@.len() && (
                #[trigger] post.by_funding@[p]).0.bytes@ == script_hash_of(
                    e.tx.outputs@[o2].script@,
                ) && post.by_funding@[p].1.bytes@ == e.txid.bytes@;
            assert(0 <= p < post.by_funding@.len() && post.by_funding@[p].0.bytes@
                == script_hash_of(post.entries@[k].tx.outputs@[o2].script@)
                && post.by_funding@[p].1.bytes@ == post.entries@[k].txid.bytes@);
        }
    }
}

proof fn lemma_add_spending_complete(pre: Mempool, post: Mempool, e: Entry)
    requires
        pre.spending_complete(),
        post.entries@ == pre.entries@.push(e),
        spending_appended(pre, post, e),
    ensures
        post.spending_complete(),
{
    let n = pre.entries@.len() as int;
    assert forall|k: int, i2: int|
        0 <= k < post.entries@.len() && 0 <= i2 < post.entries@[k].tx.inputs@.len()
        implies #[trigger] post.spending_input_ok(k, i2) by {
        if k < n {
            assert(post.entries@[k] == pre.entries@[k]);
            assert(pre.spending_input_ok(k, i2));
            let p = choose|p: int|
                0 <= p < pre.by_spending@.len() && same_outpoint(
                    (#[trigger] pre.by_spending@[p]).0,
                    pre.entries@[k].tx.inputs@[i2],
                ) && pre.by_spending@[p].1.bytes@ == pre.entries@[k].txid.bytes@;
            assert(post.by_spending@[p] == pre.by_spending@[p]);
            assert(0 <= p < post.by_spending@.len() && same_outpoint(
                post.by_spending@[p].0,
                post.entries@[k].tx.inputs@[i2],
            ) && post.by_spending@[p].1.bytes@ == post.entries@[k].txid.bytes@);
        } else {
            assert(post.entries@[k] == e);
            assert(e.tx.inputs@[i2] == post.entries@[k].tx.inputs@[i2]);
            assert(spending_pair_in(
                post.by_spending@,
                pre.by_spending@.len() as int,
                e.tx.inputs@[i2],
                e.txid.bytes@,
            ));
            let p = choose|p: int|
                pre.by_spending@.len() <= p < post.by_spending@.len() && same_outpoint(
                    (#[trigger] post.by_spending@[p]).0,
                    e.tx.inputs@[i2],
                ) && post.by_spending@[p].1.bytes@ == e.txid.bytes@;
            assert(0 <= p < post.by_spending@.len() && same_outpoint(
                post.by_spending@[p].0,
                post.entries@[k].tx.inputs@[i2],
            ) && post.by_spending@[p].1.bytes@ == post.entries@[k].txid.bytes@);
        }
    }
}

proof fn lemma_add_funding_unique(pre: Mempool, post: Mempool, e: Entry)
    requires
        pre.funding_pairs_unique(),
        pre.funding_sound(),
        !pre.has_txid(e.txid.bytes@),
        funding_appended(pre, post, e),
    ensures
        post.funding_pairs_unique(),
{
    assert forall|p1: int, p2: int|
        0 <= p1 < p2 < post.by_funding@.len() implies ((#[trigger] post.by_funding@[p1]).0.bytes@
        != (#[trigger] post.by_funding@[p2]).0.bytes@ || post.by_funding@[p1].1.bytes@
        != post.by_funding@[p2].1.bytes@) by {
        if p2 < pre.by_funding@.len() {
            assert(post.by_funding@[p1] == pre.by_funding@[p1]);
            assert(post.by_funding@[p2] == pre.by_funding@[p2]);
        } else if p1 < pre.by_funding@.len() {
            assert(post.by_funding@[p1] == pre.by_funding@[p1]);
            if post.by_funding@[p1].1.bytes@ == e.txid.bytes@ {
                assert(pre.funding_pair_ok(p1));
                let k = choose|k: int|
                    0 <= k < pre.entries@.len() && (#[trigger] pre.entries@[k]).txid.bytes@
                        == pre.by_funding@[p1].1.bytes@ && entry_funds(
                        pre.entries@[k],
                        pre.by_funding@[p1].0.bytes@,
                    );
                assert(pre.has_txid(e.txid.bytes@));
            }
        }
    }
}

proof fn lemma_add_spending_unique(pre: Mempool, post: Mempool, e: Entry)
    requires
        pre.spending_pairs_unique(),
        pre.spending_sound(),
        !pre.has_txid(e.txid.bytes@),
        spending_appended(pre, post, e),
    ensures
        post.spending_pairs_unique(),
{
    assert forall|p1: int, p2: int|
        0 <= p1 < p2 < post.by_spending@.len() implies (!same_outpoint(
        (#[trigger] post.by_spending@[p1]).0,
        (#[trigger] post.by_spending@[p2]).0,
    ) || post.by_spending@[p1].1.bytes@ != post.by_spending@[p2].1.bytes@) by {
        if p2 < pre.by_spending@.len() {
            assert(post.by_spending@[p1] == pre.by_spending@[p1]);
            assert(post.by_spending@[p2] == pre.by_spending@[p2]);
        } else if p1 < pre.by_spending@.len() {
            assert(post.by_spending@[p1] == pre.by_spending@[p1]);
            if post.by_spending@[p1].1.bytes@ == e.txid.bytes@ {
                assert(pre.spending_pair_ok(p1));
                let k = choose|k: int|
                    0 <= k < pre.entries@.len() && (#[trigger] pre.entries@[k]).txid.bytes@
                        == pre.by_spending@[p1].1.bytes@ && entry_spends(
                        pre.entries@[k],
                        pre.by_spending@[p1].0,
                    );
                assert(pre.has_txid(e.txid.bytes@));
            }
        }
    }
}

/// Appending one entry together with exactly its index pairs keeps the
/// mirror invariant.
proof fn lemma_add_preserves_wf(pre: Mempool, post: Mempool, e: Entry)
    requires
        pre.wf(),
        !pre.has_txid(e.txid.bytes@),
        post.entries@ == pre.entries@.push(e),
        funding_appended(pre, post, e),
        spending_appended(pre, post, e),
    ensures
        post.wf(),
{
    lemma_add_unique(pre, post, e);
    lemma_add_funding_sound(pre, post, e);
    lemma_add_spending_sound(pre, post, e);
    lemma_add_funding_complete(pre, post, e);
    lemma_add_spending_complete(pre, post, e);
    lemma_add_funding_unique(pre, post, e);
    lemma_add_spending_unique(pre, post, e);
}

/// The pair-list shape after a removal: pairs of the removed id dropped, all
/// others kept.
pub open spec fn funding_filtered(pre: Mempool, post: Mempool, t: Seq<u8>) -> bool {
    &&& forall|x: int|
        0 <= x < post.by_funding@.len() ==> pre.by_funding@.contains(#[trigger] post.by_funding@[x])
            && post.by_funding@[x].1.bytes@ != t
    &&& forall|x: int|
        0 <= x < pre.by_funding@.len() && (#[trigger] pre.by_funding@[x]).1.bytes@ != t
            ==> post.by_funding@.contains(pre.by_funding@[x])
    &&& post.funding_pairs_unique()
}

pub open spec fn spending_filtered(pre: Mempool, post: Mempool, t: Seq<u8>) -> bool {
    &&& forall|x: int|
        0 <= x < post.by_spending@.len() ==> pre.by_spending@.contains(
            #[trigger] post.by_spending@[x],
        ) && post.by_spending@[x].1.bytes@ != t
    &&& forall|x: int|
        0 <= x < pre.by_spending@.len() && (#[trigger] pre.by_spending@[x]).1.bytes@ != t
            ==> post.by_spending@.contains(pre.by_spending@[x])
    &&& post.spending_pairs_unique()
}

proof fn lemma_remove_unique(pre: Mempool, post: Mempool, k: int)
    requires
        pre.unique_txids(),
        0 <= k < pre.entries@.len(),
        post.entries@ == pre.entries@.remove(k),
    ensures
        post.unique_txids(),
{
    let es = post.entries@;
    let pe = pre.entries@;
    assert forall|k1: int, k2: int|
        0 <= k1 < k2 < es.len() implies (#[trigger] es[k1]).txid.bytes@ != (
    #[trigger] es[k2]).txid.bytes@ by {
        let j1 = if k1 < k {
            k1
        } else {
            k1 + 1
        };
        let j2 = if k2 < k {
            k2
        } else {
            k2 + 1
        };
        assert(es[k1] == pe[j1]);
        assert(es[k2] == pe[j2]);
        assert(pe[j1].txid.bytes@ != pe[j2].txid.bytes@);
    }
}

proof fn lemma_remove_has_txid(pre: Mempool, post: Mempool, k: int, t: Seq<u8>)
    requires
        pre.unique_txids(),
        0 <= k < pre.entries@.len(),
        pre.entries@[k].txid.bytes@ == t,
        post.entries@ == pre.entries@.remove(k),
    ensures
        forall|tt: Seq<u8>| post.has_txid(tt) <==> pre.has_txid(tt) && tt != t,
{
    let es = post.entries@;
    let pe = pre.entries@;
    assert forall|tt: Seq<u8>| post.has_txid(tt) implies pre.has_txid(tt) && tt != t by {
        let x = choose|x: int| 0 <= x < es.len() && (#[trigger] es[x]).txid.bytes@ == tt;
        let j = if x < k {
            x
        } else {
            x + 1
        };
        assert(es[x] == pe[j]);
        assert(pe[j].txid.bytes@ == tt);
        if j < k {
            assert(pe[j].txid.bytes@ != pe[k].txid.bytes@);
        } else {
            assert(pe[k].txid.bytes@ != pe[j].txid.bytes@);
        }
    }
    assert forall|tt: Seq<u8>| pre.has_txid(tt) && tt != t implies post.has_txid(tt) by {
        let j = choose|j: int| 0 <= j < pe.len() && (#[trigger] pe[j]).txid.bytes@ == tt;
        assert(j != k);
        let x = if j < k {
            j
        } else {
            j - 1
        };
        assert(es[x] == pe[j]);
    }
}

proof fn lemma_remove_funding_sound(pre: Mempool, post: Mempool, k: int, t: Seq<u8>)
    requires
        pre.unique_txids(),
        pre.funding_sound(),
        0 <= k < pre.entries@.len(),
        pre.entries@[k].txid.bytes@ == t,
        post.entries@ == pre.entries@.remove(k),
        funding_filtered(pre, post, t),
    ensures
        post.funding_sound(),
{
    assert forall|p: int| 0 <= p < post.by_funding@.len() implies #[trigger] post.funding_pair_ok(
        p,
    ) by {
        assert(pre.by_funding@.contains(post.by_funding@[p]));
        let q = choose|q: int|
            0 <= q < pre.by_funding@.len() && pre.by_funding@[q] == post.by_funding@[p];
        assert(pre.funding_pair_ok(q));
        let kk = choose|kk: int|
            0 <= kk < pre.entries@.len() && (#[trigger] pre.entries@[kk]).txid.bytes@
                == pre.by_funding@[q].1.bytes@ && entry_funds(
                pre.entries@[kk],
                pre.by_funding@[q].0.bytes@,
            );
        assert(kk != k);
        let x = if kk < k {
            kk
        } else {
            kk - 1
        };
        assert(post.entries@[x] == pre.entries@[kk]);
        assert(0 <= x < post.entries@.len() && post.entries@[x].txid.bytes@
            == post.by_funding@[p].1.bytes@ && entry_funds(
            post.entries@[x],
            post.by_funding@[p].0.bytes@,
        ));
    }
}

proof fn lemma_remove_spending_sound(pre: Mempool, post: Mempool, k: int, t: Seq<u8>)
    requires
        pre.unique_txids(),
        pre.spending_sound(),
        0 <= k < pre.entries@.len(),
        pre.entries@[k].txid.bytes@ == t,
        post.entries@ == pre.entries@.remove(k),
        spending_filtered(pre, post, t),
    ensures
        post.spending_sound(),
{
    assert forall|p: int| 0 <= p < post.by_spending@.len() implies #[trigger] post.spending_pair_ok(
        p,
    ) by {
        assert(pre.by_spending@.contains(post.by_spending@[p]));
        let q = choose|q: int|
            0 <= q < pre.by_spending@.len() && pre.by_spending@[q] == post.by_spending@[p];
        assert(pre.spending_pair_ok(q));
        let kk = choose|kk: int|
            0 <= kk < pre.entries@.len() && (#[trigger] pre.entries@[kk]).txid.bytes@
                == pre.by_spending@[q].1.bytes@ && entry_spends(
                pre.entries@[kk],
                pre.by_spending@[q].0,
            );
        assert(kk != k);
        let x = if kk < k {
            kk
        } else {
            kk - 1
        };
        assert(post.entries@[x] == pre.entries@[kk]);
        assert(0 <= x < post.entries@.len() && post.entries@[x].txid.bytes@
            == post.by_spending@[p].1.bytes@ && entry_spends(
            post.entries@[x],
            post.by_spending@[p].0,
        ));
    }
}

proof fn lemma_remove_funding_complete(pre: Mempool, post: Mempool, k: int, t: Seq<u8>)
    requires
        pre.unique_txids(),
        pre.funding_complete(),
        0 <= k < pre.entries@.len(),
        pre.entries@[k].txid.bytes@ == t,
        post.entries@ == pre.entries@.remove(k),
        funding_filtered(pre, post, t),
    ensures
        post.funding_complete(),
{
    assert forall|kk: int, o2: int|
        0 <= kk < post.entries@.len() && 0 <= o2 < post.entries@[kk].tx.outputs@.len()
        implies #[trigger] post.funding_output_ok(kk, o2) by {
        let j = if kk < k {
            kk
        } else {
            kk + 1
        };
        assert(post.entries@[kk] == pre.entries@[j]);
        assert(pre.funding_output_ok(j, o2));
        let q = choose|q: int|
            0 <= q < pre.by_funding@.len() && (#[trigger] pre.by_funding@[q]).0.bytes@
                == script_hash_of(pre.entries@[j].tx.outputs@[o2].script@)
                && pre.by_funding@[q].1.bytes@ == pre.entries@[j].txid.bytes@;
        assert(j != k);
        if j < k {
            assert(pre.entries@[j].txid.bytes@ != pre.entries@[k].txid.bytes@);
        } else {
            assert(pre.entries@[k].txid.bytes@ != pre.entries@[j].txid.bytes@);
        }
        assert(pre.by_funding@[q].1.bytes@ != t);
        assert(post.by_funding@.contains(pre.by_funding@[q]));
        let p = choose|p: int|
            0 <= p < post.by_funding@.len() && post.by_funding@[p] == pre.by_funding@[q];
        assert(0 <= p < post.by_funding@.len() && post.by_funding@[p].0.bytes@ == script_hash_of(
            post.entries@[kk].tx.outputs@[o2].script@,
        ) && post.by_funding@[p].1.bytes@ == post.entries@[kk].txid.bytes@);
    }
}

proof fn lemma_remove_spending_complete(pre: Mempool, post: Mempool, k: int, t: Seq<u8>)
    requires
        pre.unique_txids(),
        pre.spending_complete(),
        0 <= k < pre.entries@.len(),
        pre.entries@[k].txid.bytes@ == t,
        post.entries@ == pre.entries@.remove(k),
        spending_filtered(pre, post, t),
    ensures
        post.spending_complete(),
{
    assert forall|kk: int, i2: int|
        0 <= kk < post.entries@.len() && 0 <= i2 < post.entries@[kk].tx.inputs@.len()
        implies #[trigger] post.spending_input_ok(kk, i2) by {
        let j = if kk < k {
            kk
        } else {
            kk + 1
        };
        assert(post.entries@[kk] == pre.entries@[j]);
        assert(pre.spending_input_ok(j, i2));
        let q = choose|q: int|
            0 <= q < pre.by_spending@.len() && same_outpoint(
                (#[trigger] pre.by_spending@[q]).0,
                pre.entries@[j].tx.inputs@[i2],
            ) && pre.by_spending@[q].1.bytes@ == pre.entries@[j].txid.bytes@;
        assert(j != k);
        if j < k {
            assert(pre.entries@[j].txid.bytes@ != pre.entries@[k].txid.bytes@);
        } else {
            assert(pre.entries@[k].txid.bytes@ != pre.entries@[j].txid.bytes@);
        }
        assert(pre.by_spending@[q].1.bytes@ != t);
        assert(post.by_spending@.contains(pre.by_spending@[q]));
        let p = choose|p: int|
            0 <= p < post.by_spending@.len() && post.by_spending@[p] == pre.by_spending@[q];
        assert(0 <= p < post.by_spending@.len() && same_outpoint(
            post.by_spending@[p].0,
            post.entries@[kk].tx.inputs@[i2],
        ) && post.by_spending@[p].1.bytes@ == post.entries@[kk].txid.bytes@);
    }
}

/// Removing one entry and dropping exactly its index pairs keeps the mirror
/// invariant.
proof fn lemma_remove_preserves_wf(pre: Mempool, post: Mempool, k: int, t: Seq<u8>)
    requires
        pre.wf(),
        0 <= k < pre.entries@.len(),
        pre.entries@[k].txid.bytes@ == t,
        post.entries@ == pre.entries@.remove(k),
        funding_filtered(pre, post, t),
        spending_filtered(pre, post, t),
    ensures
        post.wf(),
        forall|tt: Seq<u8>| post.has_txid(tt) <==> pre.has_txid(tt) && tt != t,
{
    lemma_remove_unique(pre, post, k);
    lemma_remove_has_txid(pre, post, k, t);
    lemma_remove_funding_sound(pre, post, k, t);
    lemma_remove_spending_sound(pre, post, k, t);
    lemma_remove_funding_complete(pre, post, k, t);
    lemma_remove_spending_complete(pre, post, k, t);
}

/// Whether some output's script hashes to the given script hash.
fn entry_has_output_hash(e: &Entry, sh: &ScriptHash) -> (r: bool)
    ensures
        r == entry_funds(*e, sh.bytes@),
{
    let mut o: usize = 0;
    while o < e.tx.outputs.len()
        invariant
            o <= e.tx.outputs@.len(),
            forall|x: int|
                0 <= x < o ==> script_hash_of(#[trigger] e.tx.outputs@[x].script@) != sh.bytes@,
        decreases e.tx.outputs@.len() - o,
    {
        let h = script_hash(&e.tx.outputs[o].script);
        if h.same(sh) {
            return true;
        }
        o += 1;
    }
    false
}

/// Whether some input consumes the given outpoint.
fn entry_has_input(e: &Entry, op: &OutPoint) -> (r: bool)
    ensures
        r == entry_spends(*e, *op),
{
    let mut i: usize = 0;
    while i < e.tx.inputs.len()
        invariant
            i <= e.tx.inputs@.len(),
            forall|x: int| 0 <= x < i ==> !same_outpoint(#[trigger] e.tx.inputs@[x], *op),
        decreases e.tx.inputs@.len() - i,
    {
        if e.tx.inputs[i].same(op) {
            return true;
        }
        i += 1;
    }
    false
}




/// Whether an entry touches the script hash: its transaction creates an
/// output paying it, or consumes one of the given outpoints (the outpoints
/// known to pay the script hash).
pub open spec fn touches(e: Entry, sh: Seq<u8>, ops: Seq<OutPoint>) -> bool {
    entry_funds(e, sh) || exists|x: int| 0 <= x < ops.len() && entry_spends(e, #[trigger] ops[x])
}

/// Whether an item with the transaction id occurs in the list.
pub open spec fn item_in_list(r: Seq<crate::order::MempoolHistItem>, t: Seq<u8>) -> bool {
    exists|x: int| 0 <= x < r.len() && (#[trigger] r[x]).txid.bytes@ == t
}

/// The effective height of an unconfirmed transaction: 0 when every input
/// is confirmed, -1 otherwise.
pub open spec fn effective_height(e: Entry) -> int {
    if e.has_unconfirmed_inputs {
        -1
    } else {
        0
    }
}

/// Whether some mempool transaction creates the outpoint with an output
/// paying the script hash.
pub open spec fn outpoint_funded_by_mempool(mp: Mempool, sh: Seq<u8>, op: OutPoint) -> bool {
    exists|k: int, o: int|
        0 <= k < mp.entries@.len() && 0 <= o < mp.entries@[k].tx.outputs@.len() && op.txid.bytes@
            == mp.entries@[k].txid.bytes@ && op.vout == o && script_hash_of(
            (#[trigger] mp.entries@[k].tx.outputs@[o]).script@,
        ) == sh
}

/// Whether an unconfirmed-history item describes some entry touching the
/// script hash.
pub open spec fn item_matches(
    mp: Mempool,
    sh: Seq<u8>,
    ops: Seq<OutPoint>,
    item: crate::order::MempoolHistItem,
) -> bool {
    exists|k: int|
        0 <= k < mp.entries@.len() && touches(#[trigger] mp.entries@[k], sh, ops)
            && item.txid.bytes@ == mp.entries@[k].txid.bytes@ && item.height == effective_height(
            mp.entries@[k],
        ) && item.fee == mp.entries@[k].fee
}

impl Mempool {
    /// The outpoints created by mempool transactions whose output script
    /// hashes to the given script hash.
    pub fn funded_outpoints(&self, sh: &ScriptHash) -> (r: Vec<OutPoint>)
        ensures
            forall|x: int|
                0 <= x < r@.len() ==> outpoint_funded_by_mempool(*self, sh.bytes@, #[trigger] r@[x]),
            forall|k: int, o: int|
                0 <= k < self.entries@.len() && 0 <= o < self.entries@[k].tx.outputs@.len() && o
                    < 4294967296 && script_hash_of(
                    (#[trigger] self.entries@[k].tx.outputs@[o]).script@,
                ) == sh.bytes@ ==> crate::index::op_in_list(
                    r@,
                    self.entries@[k].txid.bytes@,
                    o,
                ),
    {
        let mut out: Vec<OutPoint> = Vec::new();
        let mut k: usize = 0;
        while k < self.entries.len()
            invariant
                k <= self.entries@.len(),
                forall|x: int|
                    0 <= x < out@.len() ==> outpoint_funded_by_mempool(
                        *self,
                        sh.bytes@,
                        #[trigger] out@[x],
                    ),
                forall|kk: int, o: int|
                    0 <= kk < k && 0 <= o < self.entries@[kk].tx.outputs@.len() && o < 4294967296
                        && script_hash_of((#[trigger] self.entries@[kk].tx.outputs@[o]).script@)
                        == sh.bytes@ ==> crate::index::op_in_list(
                        out@,
                        self.entries@[kk].txid.bytes@,
                        o,
                    ),
            decreases self.entries@.len() - k,
        {
            let outputs_len = self.entries[k].tx.outputs.len();
            let mut o: usize = 0;
            while o < outputs_len
                invariant
                    k < self.entries@.len(),
                    outputs_len == self.entries@[k as int].tx.outputs@.len(),
                    o <= outputs_len,
                    forall|x: int|
                        0 <= x < out@.len() ==> outpoint_funded_by_mempool(
                            *self,
                            sh.bytes@,
                            #[trigger] out@[x],
                        ),
                    forall|kk: int, oo: int|
                        0 <= kk < k && 0 <= oo < self.entries@[kk].tx.outputs@.len() && oo
                            < 4294967296 && script_hash_of(
                            (#[trigger] self.entries@[kk].tx.outputs@[oo]).script@,
                        ) == sh.bytes@ ==> crate::index::op_in_list(
                            out@,
                            self.entries@[kk].txid.bytes@,
                            oo,
                        ),
                    forall|oo: int|
                        0 <= oo < o && oo < 4294967296 && script_hash_of(
                            (#[trigger] self.entries@[k as int].tx.outputs@[oo]).script@,
                        ) == sh.bytes@ ==> crate::index::op_in_list(
                            out@,
                            self.entries@[k as int].txid.bytes@,
                            oo,
                        ),
                decreases outputs_len - o,
            {
                let h = script_hash(&self.entries[k].tx.outputs[o].script);
                if h.same(sh) && (o as u64) < 4294967296u64 {
                    let ghost out_before = out@;
                    out.push(OutPoint { txid: self.entries[k].txid, vout: o as u32 });
                    proof {
                        assert(forall|x: int|
                            0 <= x < out_before.len() ==> #[trigger] out@[x] == out_before[x]);
                        assert(out@[out_before.len() as int].txid.bytes@ == self.entries@[
                            k as int
                        ].txid.bytes@ && out@[out_before.len() as int].vout == o);
                        assert(outpoint_funded_by_mempool(
                            *self,
                            sh.bytes@,
                            out@[out_before.len() as int],
                        ));
                        assert forall|kk: int, oo: int|
                            0 <= kk < k && 0 <= oo < self.entries@[kk].tx.outputs@.len() && oo
                                < 4294967296 && script_hash_of(
                                (#[trigger] self.entries@[kk].tx.outputs@[oo]).script@,
                            ) == sh.bytes@ implies crate::index::op_in_list(
                            out@,
                            self.entries@[kk].txid.bytes@,
                            oo,
                        ) by {
                            assert(crate::index::op_in_list(
                                out_before,
                                self.entries@[kk].txid.bytes@,
                                oo,
                            ));
                            let x = choose|x: int|
                                0 <= x < out_before.len() && (#[trigger] out_before[x]).txid.bytes@
                                    == self.entries@[kk].txid.bytes@ && out_before[x].vout == oo;
                            assert(out@[x] == out_before[x]);
                        }
                        assert forall|oo: int|
                            0 <= oo < o + 1 && oo < 4294967296 && script_hash_of(
                                (#[trigger] self.entries@[k as int].tx.outputs@[oo]).script@,
                            ) == sh.bytes@ implies crate::index::op_in_list(
                            out@,
                            self.entries@[k as int].txid.bytes@,
                            oo,
                        ) by {
                            if oo < o {
                                assert(crate::index::op_in_list(
                                    out_before,
                                    self.entries@[k as int].txid.bytes@,
                                    oo,
                                ));
                                let x = choose|x: int|
                                    0 <= x < out_before.len() && (
                                    #[trigger] out_before[x]).txid.bytes@ == self.entries@[
                                        k as int
                                    ].txid.bytes@ && out_before[x].vout == oo;
                                assert(out@[x] == out_before[x]);
                            }
                        }
                    }
                }
                o += 1;
            }
            k += 1;
        }
        out
    }

    /// One unconfirmed-history item per entry touching the script hash
    /// (funding it, or spending one of the given outpoints), in entry order.
    pub fn touching_items(&self, sh: &ScriptHash, ops: &Vec<OutPoint>) -> (r: Vec<
        crate::order::MempoolHistItem,
    >)
        ensures
            forall|x: int|
                0 <= x < r@.len() ==> item_matches(*self, sh.bytes@, ops@, #[trigger] r@[x]),
            forall|k: int|
                0 <= k < self.entries@.len() && touches(#[trigger] self.entries@[k], sh.bytes@, ops@)
                    ==> item_in_list(r@, self.entries@[k].txid.bytes@),
    {
        let mut out: Vec<crate::order::MempoolHistItem> = Vec::new();
        let mut k: usize = 0;
        while k < self.entries.len()
            invariant
                k <= self.entries@.len(),
                forall|x: int|
                    0 <= x < out@.len() ==> item_matches(*self, sh.bytes@, ops@, #[trigger] out@[x]),
                forall|kk: int|
                    0 <= kk < k && touches(#[trigger] self.entries@[kk], sh.bytes@, ops@)
                        ==> item_in_list(out@, self.entries@[kk].txid.bytes@),
            decreases self.entries@.len() - k,
        {
            let e = &self.entries[k];
            let mut hit = entry_has_output_hash(e, sh);
            if !hit {
                let mut x: usize = 0;
                while x < ops.len() && !hit
                    invariant
                        x <= ops@.len(),
                        k < self.entries@.len(),
                        *e == self.entries@[k as int],
                        !hit ==> forall|y: int|
                            0 <= y < x ==> !entry_spends(self.entries@[k as int], #[trigger] ops@[y]),
                        hit ==> touches(self.entries@[k as int], sh.bytes@, ops@),
                    decreases ops@.len() - x,
                {
                    if entry_has_input(e, &ops[x]) {
                        hit = true;
                        proof {
                            assert(entry_spends(self.entries@[k as int], ops@[x as int]));
                        }
                    }
                    x += 1;
                }
            }
            proof {
                assert(hit == touches(self.entries@[k as int], sh.bytes@, ops@));
            }
            if hit {
                let height: i64 = if e.has_unconfirmed_inputs {
                    -1
                } else {
                    0
                };
                let ghost out_before = out@;
                out.push(
                    crate::order::MempoolHistItem { txid: e.txid, height, fee: e.fee },
                );
                proof {
                    assert(forall|x: int|
                        0 <= x < out_before.len() ==> #[trigger] out@[x] == out_before[x]);
                    assert(out@[out_before.len() as int].txid.bytes@ == self.entries@[
                        k as int
                    ].txid.bytes@);
                    assert(item_matches(*self, sh.bytes@, ops@, out@[out_before.len() as int]));
                    assert(item_in_list(out@, self.entries@[k as int].txid.bytes@));
                    assert forall|kk: int|
                        0 <= kk < k + 1 && touches(
                        #[trigger] self.entries@[kk],
                        sh.bytes@,
                        ops@,
                    ) implies item_in_list(out@, self.entries@[kk].txid.bytes@) by {
                        if kk < k {
                            assert(item_in_list(out_before, self.entries@[kk].txid.bytes@));
                            let x = choose|x: int|
                                0 <= x < out_before.len() && (#[trigger] out_before[x]).txid.bytes@
                                    == self.entries@[kk].txid.bytes@;
                            assert(out@[x] == out_before[x]);
                        }
                    }
                }
            }
            k += 1;
        }
        out
    }
}


/// A saturating addition on vsizes.
pub open spec fn sat_add(a: u64, b: u64) -> u64 {
    if a + b > 0xffffffffffffffffu64 {
        0xffffffffffffffffu64
    } else {
        (a + b) as u64
    }
}

/// The fee rate of an entry in satoshis per virtual byte (entries with no
/// virtual size carry no rate).
pub open spec fn rate_of(e: Entry) -> u64
    recommends
        e.vsize > 0,
{
    (e.fee as int / e.vsize as int) as u64
}

/// The saturating total virtual size of the entries from `i` on whose fee
/// rate is `rate`.
pub open spec fn rate_vsize_from(s: Seq<Entry>, rate: u64, i: int) -> u64
    decreases s.len() - i,
{
    if i < 0 || i >= s.len() {
        0u64
    } else {
        let rest = rate_vsize_from(s, rate, i + 1);
        if s[i].vsize > 0 && rate_of(s[i]) == rate {
            sat_add(s[i].vsize, rest)
        } else {
            rest
        }
    }
}

/// Whether a bucket for the rate is in the histogram.
pub open spec fn rate_in_histogram(r: Seq<(u64, u64)>, rate: u64) -> bool {
    exists|x: int| 0 <= x < r.len() && (#[trigger] r[x]).0 == rate
}

/// Whether some entry with a virtual size carries the fee rate.
pub open spec fn rate_present(mp: Mempool, rate: u64) -> bool {
    exists|k: int|
        0 <= k < mp.entries@.len() && (#[trigger] mp.entries@[k]).vsize > 0 && rate_of(
            mp.entries@[k],
        ) == rate
}

impl Mempool {
    /// The fee histogram: one bucket per fee rate present in the mempool,
    /// in descending rate order, each bucket carrying the saturating total
    /// virtual size of the entries at that rate.
    pub fn fee_histogram(&self) -> (r: Vec<(u64, u64)>)
        ensures
            forall|x: int, y: int| 0 <= x < y < r@.len() ==> (#[trigger] r@[x]).0 > (
            #[trigger] r@[y]).0,
            forall|x: int|
                0 <= x < r@.len() ==> (#[trigger] r@[x]).1 == rate_vsize_from(
                    self.entries@,
                    r@[x].0,
                    0,
                ) && rate_present(*self, r@[x].0),
            forall|k: int|
                0 <= k < self.entries@.len() && (#[trigger] self.entries@[k]).vsize > 0
                    ==> rate_in_histogram(r@, rate_of(self.entries@[k])),
    {
        // Distinct rates present.
        let mut rates: Vec<u64> = Vec::new();
        let mut k: usize = 0;
        while k < self.entries.len()
            invariant
                k <= self.entries@.len(),
                forall|x: int, y: int| 0 <= x < y < rates@.len() ==> (#[trigger] rates@[x]) != (
                #[trigger] rates@[y]),
                forall|x: int|
                    0 <= x < rates@.len() ==> #[trigger] rate_present(*self, rates@[x]),
                forall|kk: int|
                    0 <= kk < k && (#[trigger] self.entries@[kk]).vsize > 0 ==> rates@.contains(
                        rate_of(self.entries@[kk]),
                    ),
            decreases self.entries@.len() - k,
        {
            let e = &self.entries[k];
            if e.vsize > 0 {
                let rate = e.fee / e.vsize;
                let mut seen = false;
                let mut x: usize = 0;
                while x < rates.len() && !seen
                    invariant
                        x <= rates@.len(),
                        !seen ==> forall|y: int| 0 <= y < x ==> (#[trigger] rates@[y]) != rate,
                        seen ==> rates@.contains(rate),
                    decreases rates@.len() - x,
                {
                    if rates[x] == rate {
                        seen = true;
                        proof {
                            assert(rates@.contains(rate));
                        }
                    }
                    x += 1;
                }
                if !seen {
                    let ghost rates_before = rates@;
                    rates.push(rate);
                    proof {
                        assert(forall|y: int|
                            0 <= y < rates_before.len() ==> #[trigger] rates@[y]
                                == rates_before[y]);
                        assert(rates@[rates_before.len() as int] == rate);
                        assert(rates@.contains(rate));
                        assert(self.entries@[k as int].vsize > 0 && rate_of(
                            self.entries@[k as int],
                        ) == rate);
                        assert(rate_present(*self, rate));
                        assert forall|kk: int|
                            0 <= kk < k && (#[trigger] self.entries@[kk]).vsize > 0
                            implies rates@.contains(rate_of(self.entries@[kk])) by {
                            let y = choose|y: int|
                                0 <= y < rates_before.len() && rates_before[y] == rate_of(
                                    self.entries@[kk],
                                );
                            assert(rates@[y] == rate_of(self.entries@[kk]));
                        }
                    }
                }
            }
            k += 1;
        }
        // Sort rates in descending order.
        let mut src = rates;
        let mut sorted: Vec<u64> = Vec::new();
        while src.len() > 0
            invariant
                forall|x: int, y: int| 0 <= x < y < sorted@.len() ==> (#[trigger] sorted@[x]) > (
                #[trigger] sorted@[y]),
                forall|x: int, y: int| 0 <= x < y < src@.len() ==> (#[trigger] src@[x]) != (
                #[trigger] src@[y]),
                forall|i: int, j: int|
                    0 <= i < sorted@.len() && 0 <= j < src@.len() ==> (#[trigger] sorted@[i]) > (
                    #[trigger] src@[j]),
                forall|v: u64| sorted@.contains(v) || src@.contains(v) <==> rates@.contains(v),
            decreases src@.len(),
        {
            let mut mi: usize = 0;
            let mut x: usize = 1;
            while x < src.len()
                invariant
                    mi < x,
                    x <= src@.len(),
                    src@.len() > 0,
                    forall|y: int| 0 <= y < x ==> (#[trigger] src@[y]) <= src@[mi as int],
                decreases src@.len() - x,
            {
                if src[x] > src[mi] {
                    mi = x;
                }
                x += 1;
            }
            let ghost src_before = src@;
            let v = src.remove(mi);
            let ghost sorted_before = sorted@;
            sorted.push(v);
            proof {
                assert(v == src_before[mi as int]);
                assert(forall|j: int|
                    0 <= j < src@.len() ==> #[trigger] src@[j] == if j < mi {
                        src_before[j]
                    } else {
                        src_before[j + 1]
                    });
                assert(forall|y: int|
                    0 <= y < sorted_before.len() ==> #[trigger] sorted@[y] == sorted_before[y]);
                assert(sorted@[sorted_before.len() as int] == v);
                assert forall|i: int, j: int|
                    0 <= i < sorted@.len() && 0 <= j < src@.len() implies (#[trigger] sorted@[i])
                    > (#[trigger] src@[j]) by {
                    let jj = if j < mi {
                        j
                    } else {
                        j + 1
                    };
                    assert(src@[j] == src_before[jj]);
                    if i < sorted_before.len() {
                        assert(sorted@[i] == sorted_before[i]);
                    } else {
                        assert(sorted@[i] == v);
                        assert(src_before[jj] <= v);
                        assert(src_before[jj] != v);
                    }
                }
                assert forall|vv: u64|
                    sorted@.contains(vv) || src@.contains(vv) <==> rates@.contains(vv) by {
                    if sorted@.contains(vv) {
                        let y = choose|y: int| 0 <= y < sorted@.len() && sorted@[y] == vv;
                        if y < sorted_before.len() {
                            assert(sorted_before[y] == vv);
                        } else {
                            assert(src_before.contains(vv));
                        }
                    }
                    if src@.contains(vv) {
                        let y = choose|y: int| 0 <= y < src@.len() && src@[y] == vv;
                        let yy = if y < mi {
                            y
                        } else {
                            y + 1
                        };
                        assert(src_before[yy] == vv);
                        assert(src_before.contains(vv));
                    }
                    if rates@.contains(vv) {
                        if src_before.contains(vv) {
                            let y = choose|y: int|
                                0 <= y < src_before.len() && src_before[y] == vv;
                            if y == mi {
                                assert(sorted@[sorted_before.len() as int] == vv);
                                assert(sorted@.contains(vv));
                            } else {
                                let yy = if y < mi {
                                    y
                                } else {
                                    y - 1
                                };
                                assert(src@[yy] == vv);
                                assert(src@.contains(vv));
                            }
                        } else {
                            assert(sorted_before.contains(vv));
                            let y = choose|y: int|
                                0 <= y < sorted_before.len() && sorted_before[y] == vv;
                            assert(sorted@[y] == vv);
                            assert(sorted@.contains(vv));
                        }
                    }
                }
            }
        }
        // One bucket per rate, summing the matching entries.
        let mut out: Vec<(u64, u64)> = Vec::new();
        let mut b: usize = 0;
        while b < sorted.len()
            invariant
                b <= sorted@.len(),
                forall|x: int, y: int| 0 <= x < y < sorted@.len() ==> (#[trigger] sorted@[x]) > (
                #[trigger] sorted@[y]),
                forall|v: u64| sorted@.contains(v) <==> rates@.contains(v),
                forall|x: int|
                    0 <= x < rates@.len() ==> #[trigger] rate_present(*self, rates@[x]),
                forall|kk: int|
                    0 <= kk < self.entries@.len() && (#[trigger] self.entries@[kk]).vsize > 0
                        ==> rates@.contains(rate_of(self.entries@[kk])),
                out@.len() == b,
                forall|x: int| 0 <= x < b ==> (#[trigger] out@[x]).0 == sorted@[x],
                forall|x: int|
                    0 <= x < b ==> (#[trigger] out@[x]).1 == rate_vsize_from(
                        self.entries@,
                        sorted@[x],
                        0,
                    ),
            decreases sorted@.len() - b,
        {
            let rate = sorted[b];
            let mut total: u64 = 0;
            let mut k2: usize = self.entries.len();
            while k2 > 0
                invariant
                    k2 <= self.entries@.len(),
                    total == rate_vsize_from(self.entries@, rate, k2 as int),
                decreases k2,
            {
                k2 = k2 - 1;
                let e = &self.entries[k2];
                if e.vsize > 0 {
                    let r2 = e.fee / e.vsize;
                    if r2 == rate {
                        if total > u64::MAX - e.vsize {
                            total = u64::MAX;
                        } else {
                            total = total + e.vsize;
                        }
                    }
                }
            }
            out.push((rate, total));
            b += 1;
        }
        proof {
            assert forall|x: int|
                0 <= x < out@.len() implies (#[trigger] out@[x]).1 == rate_vsize_from(
                self.entries@,
                out@[x].0,
                0,
            ) && rate_present(*self, out@[x].0) by {
                assert(out@[x].0 == sorted@[x]);
                assert(sorted@.contains(sorted@[x]));
                assert(rates@.contains(sorted@[x]));
                let y = choose|y: int| 0 <= y < rates@.len() && rates@[y] == sorted@[x];
                assert(rate_present(*self, rates@[y]));
            }
            assert forall|kk: int|
                0 <= kk < self.entries@.len() && (#[trigger] self.entries@[kk]).vsize > 0
                implies rate_in_histogram(out@, rate_of(self.entries@[kk])) by {
                assert(rates@.contains(rate_of(self.entries@[kk])));
                assert(sorted@.contains(rate_of(self.entries@[kk])));
                let y = choose|y: int|
                    0 <= y < sorted@.len() && sorted@[y] == rate_of(self.entries@[kk]);
                assert(out@[y].0 == rate_of(self.entries@[kk]));
            }
        }
        out
    }
}

} // verus!
