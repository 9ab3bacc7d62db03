use vstd::prelude::*;

use crate::digest::rev_bytes;
use crate::digest::sha256;
use crate::digest::sha256_of;
use crate::encode::dec_bytes;
use crate::encode::hex_bytes;
use crate::encode::hex_encode;
use crate::encode::push_bytes32;
use crate::encode::push_decimal;
use crate::index::HistoryEntry;
use crate::order::MempoolHistItem;
use crate::types::ScriptHash;
use crate::types::Txid;

verus! {

/// The ASCII decimal text of a height; effective heights may be negative.
pub open spec fn height_dec(height: int) -> Seq<u8> {
    if height >= 0 {
        dec_bytes(height as nat)
    } else {
        seq![45u8] + dec_bytes((-height) as nat)
    }
}

/// The ASCII framing of one history element: the transaction id in display
/// (reversed) hexadecimal, a colon, the height in decimal, a colon.
pub open spec fn frame_entry(txid: Seq<u8>, height: int) -> Seq<u8> {
    hex_bytes(rev_bytes(txid)) + seq![58u8] + height_dec(height) + seq![58u8]
}

/// The concatenated frames of the confirmed history entries, in order.
pub open spec fn frames_confirmed(s: Seq<HistoryEntry>) -> Seq<u8>
    decreases s.len(),
{
    if s.len() == 0 {
        Seq::empty()
    } else {
        frames_confirmed(s.drop_last()) + frame_entry(
            s.last().txid.bytes@,
            s.last().height as int,
        )
    }
}

/// The concatenated frames of the unconfirmed history items, in order.
pub open spec fn frames_mempool(s: Seq<MempoolHistItem>) -> Seq<u8>
    decreases s.len(),
{
    if s.len() == 0 {
        Seq::empty()
    } else {
        frames_mempool(s.drop_last()) + frame_entry(
            s.last().txid.bytes@,
            s.last().height as int,
        )
    }
}

/// The status hash: the SHA-256 of the framed confirmed entries followed by
/// the framed mempool items; the null value when both lists are empty.  A
/// pure function of the two lists.
pub open spec fn status_digest(c: Seq<HistoryEntry>, m: Seq<MempoolHistItem>) -> Option<Seq<u8>> {
    if c.len() == 0 && m.len() == 0 {
        None
    } else {
        Some(sha256_of(frames_confirmed(c) + frames_mempool(m)))
    }
}

/// Law: the status hash is a deterministic pure function of the confirmed
/// list and the mempool list — equal lists always yield equal hashes.
pub proof fn lemma_status_hash_deterministic(
    c1: Seq<HistoryEntry>,
    m1: Seq<MempoolHistItem>,
    c2: Seq<HistoryEntry>,
    m2: Seq<MempoolHistItem>,
)
    requires
        c1 == c2,
        m1 == m2,
    ensures
        status_digest(c1, m1) == status_digest(c2, m2),
{
}

/// Appends a byte vector.
pub fn push_all(out: &mut Vec<u8>, v: &Vec<u8>)
    ensures
        final(out)@ == old(out)@ + v@,
{
    let mut i: usize = 0;
    while i < v.len()
        invariant
            i <= v@.len(),
            out@ == old(out)@ + v@.subrange(0, i as int),
        decreases v@.len() - i,
    {
        out.push(v[i]);
        proof {
            assert(out@ =~= old(out)@ + v@.subrange(0, i + 1 as int));
        }
        i += 1;
    }
    proof {
        assert(v@.subrange(0, v@.len() as int) =~= v@);
    }
}

/// Appends the frame of one confirmed history element.
fn push_frame_confirmed(out: &mut Vec<u8>, txid: &Txid, height: u64)
    ensures
        final(out)@ == old(out)@ + frame_entry(txid.bytes@, height as int),
{
    let rev = crate::digest::reverse32(&txid.bytes);
    let mut revv: Vec<u8> = Vec::new();
    push_bytes32(&mut revv, &rev);
    let hexv = hex_encode(&revv);
    push_all(out, &hexv);
    out.push(58);
    push_decimal(out, height);
    out.push(58);
    proof {
        assert(out@ =~= old(out)@ + frame_entry(txid.bytes@, height as int));
    }
}

/// Appends the frame of one history element.
fn push_frame(out: &mut Vec<u8>, txid: &Txid, height: i64)
    requires
        height > i64::MIN,
    ensures
        final(out)@ == old(out)@ + frame_entry(txid.bytes@, height as int),
{
    let rev = crate::digest::reverse32(&txid.bytes);
    let mut revv: Vec<u8> = Vec::new();
    push_bytes32(&mut revv, &rev);
    let hexv = hex_encode(&revv);
    push_all(out, &hexv);
    out.push(58);
    if height < 0 {
        out.push(45);
        push_decimal(out, (-height) as u64);
    } else {
        push_decimal(out, height as u64);
    }
    out.push(58);
    proof {
        assert(out@ =~= old(out)@ + frame_entry(txid.bytes@, height as int));
    }
}

/// Computes the status hash of a confirmed list and a mempool list: null
/// when both are empty, else the SHA-256 of their framed concatenation.
pub fn compute_status_hash(confirmed: &Vec<HistoryEntry>, mempool: &Vec<MempoolHistItem>) -> (r:
    Option<[u8; 32]>)
    requires
        forall|i: int| 0 <= i < mempool@.len() ==> -1 <= (#[trigger] mempool@[i]).height,
    ensures
        r is Some <==> status_digest(confirmed@, mempool@) is Some,
        r matches Some(h) ==> status_digest(confirmed@, mempool@) == Some(h@),
{
    if confirmed.len() == 0 && mempool.len() == 0 {
        return None;
    }
    let mut buf: Vec<u8> = Vec::new();
    let mut i: usize = 0;
    while i < confirmed.len()
        invariant
            i <= confirmed@.len(),
            buf@ == frames_confirmed(confirmed@.take(i as int)),
        decreases confirmed@.len() - i,
    {
        let e = &confirmed[i];
        push_frame_confirmed(&mut buf, &e.txid, e.height);
        proof {
            assert(confirmed@.take(i + 1).drop_last() =~= confirmed@.take(i as int));
            assert(confirmed@.take(i + 1).last() == confirmed@[i as int]);
        }
        i += 1;
    }
    proof {
        assert(confirmed@.take(confirmed@.len() as int) =~= confirmed@);
    }
    let mut j: usize = 0;
    while j < mempool.len()
        invariant
            j <= mempool@.len(),
            forall|x: int| 0 <= x < mempool@.len() ==> -1 <= (#[trigger] mempool@[x]).height,
            buf@ == frames_confirmed(confirmed@) + frames_mempool(mempool@.take(j as int)),
        decreases mempool@.len() - j,
    {
        let m = &mempool[j];
        push_frame(&mut buf, &m.txid, m.height);
        proof {
            assert(mempool@.take(j + 1).drop_last() =~= mempool@.take(j as int));
            assert(mempool@.take(j + 1).last() == mempool@[j as int]);
        }
        j += 1;
    }
    proof {
        assert(mempool@.take(mempool@.len() as int) =~= mempool@);
    }
    Some(sha256(&buf))
}

/// Per-subscription state: the script hash, the confirmed history known to
/// this subscription, the mempool items touching the script, and the status
/// hash of the two lists.
pub struct Status {
    pub scripthash: ScriptHash,
    pub confirmed: Vec<HistoryEntry>,
    pub mempool: Vec<MempoolHistItem>,
    pub statushash: Option<[u8; 32]>,
}

impl Status {
    /// The subscription invariant: the stored status hash is exactly the
    /// status digest of the two stored lists.
    pub open spec fn wf(self) -> bool {
        &&& (self.statushash is Some <==> status_digest(self.confirmed@, self.mempool@) is Some)
        &&& (self.statushash matches Some(h) ==> status_digest(self.confirmed@, self.mempool@)
            == Some(h@))
    }

    /// A fresh, empty subscription: its status hash is the null value.
    pub fn new(scripthash: ScriptHash) -> (r: Status)
        ensures
            r.wf(),
            r.scripthash == scripthash,
            r.confirmed@.len() == 0,
            r.mempool@.len() == 0,
            r.statushash is None,
    {
        Status { scripthash, confirmed: Vec::new(), mempool: Vec::new(), statushash: None }
    }

    /// The current status hash.
    pub fn statushash(&self) -> (r: Option<[u8; 32]>)
        ensures
            r == self.statushash,
    {
        self.statushash
    }
}

} // verus!
