use vstd::prelude::*;

use vstd::multiset::Multiset;

use crate::index::HistoryEntry;
use crate::types::Txid;
use crate::types::bytes32_lt;
use crate::types::bytes32_lt_spec;

verus! {

/// Lexicographic order is transitive.
pub proof fn lemma_bytes32_lt_trans(a: Seq<u8>, b: Seq<u8>, c: Seq<u8>)
    requires
        bytes32_lt_spec(a, b),
        bytes32_lt_spec(b, c),
    ensures
        bytes32_lt_spec(a, c),
{
    let i = choose|i: int|
        0 <= i < 32 && a[i] < b[i] && (forall|j: int| 0 <= j < i ==> a[j] == b[j]);
    let k = choose|k: int|
        0 <= k < 32 && b[k] < c[k] && (forall|j: int| 0 <= j < k ==> b[j] == c[j]);
    let w = if i <= k {
        i
    } else {
        k
    };
    assert(a[w] < c[w] && (forall|j: int| 0 <= j < w ==> a[j] == c[j]));
}

/// Two 32-byte values that neither orders below the other are equal.
pub proof fn lemma_bytes32_lt_connected(a: Seq<u8>, b: Seq<u8>)
    requires
        a.len() == 32,
        b.len() == 32,
        !bytes32_lt_spec(a, b),
        !bytes32_lt_spec(b, a),
    ensures
        a == b,
{
    lemma_bytes32_prefix_eq(a, b, 0);
    assert(a =~= b);
}

/// If two unordered 32-byte values agree below `i`, they agree from `i` on.
proof fn lemma_bytes32_prefix_eq(a: Seq<u8>, b: Seq<u8>, i: int)
    requires
        a.len() == 32,
        b.len() == 32,
        !bytes32_lt_spec(a, b),
        !bytes32_lt_spec(b, a),
        0 <= i <= 32,
        forall|j: int| 0 <= j < i ==> a[j] == b[j],
    ensures
        forall|j: int| 0 <= j < 32 ==> a[j] == b[j],
    decreases 32 - i,
{
    if i < 32 {
        if a[i] < b[i] {
            assert(bytes32_lt_spec(a, b));
        } else if b[i] < a[i] {
            assert(bytes32_lt_spec(b, a));
        }
        lemma_bytes32_prefix_eq(a, b, i + 1);
    }
}

/// The confirmed-history order: by height, then by position in the block.
pub open spec fn he_leq(a: HistoryEntry, b: HistoryEntry) -> bool {
    a.height < b.height || (a.height == b.height && a.pos <= b.pos)
}

/// Sorts confirmed history entries by (height, position): the result is a
/// permutation of the input in canonical order.
pub fn sort_history(v: Vec<HistoryEntry>) -> (r: Vec<HistoryEntry>)
    ensures
        r@.len() == v@.len(),
        r@.to_multiset() == v@.to_multiset(),
        forall|i: int, j: int| 0 <= i < j < r@.len() ==> he_leq(#[trigger] r@[i], #[trigger] r@[j]),
{
    broadcast use vstd::seq_lib::group_to_multiset_ensures;

    let mut src = v;
    let mut out: Vec<HistoryEntry> = Vec::new();
    while src.len() > 0
        invariant
            out@.len() + src@.len() == v@.len(),
            out@.to_multiset().add(src@.to_multiset()) == v@.to_multiset(),
            forall|i: int, j: int|
                0 <= i < j < out@.len() ==> he_leq(#[trigger] out@[i], #[trigger] out@[j]),
            forall|i: int, j: int|
                0 <= i < out@.len() && 0 <= j < src@.len() ==> he_leq(
                    #[trigger] out@[i],
                    #[trigger] src@[j],
                ),
        decreases src@.len(),
    {
        let mut mi: usize = 0;
        let mut k: usize = 1;
        while k < src.len()
            invariant
                mi < k,
                k <= src@.len(),
                src@.len() > 0,
                forall|x: int| 0 <= x < k ==> he_leq(src@[mi as int], #[trigger] src@[x]),
            decreases src@.len() - k,
        {
            let better = src[k].height < src[mi].height || (src[k].height == src[mi].height
                && src[k].pos < src[mi].pos);
            if better {
                mi = k;
            }
            k += 1;
        }
        let ghost src_before = src@;
        let e = src.remove(mi);
        proof {
            broadcast use vstd::seq_lib::group_to_multiset_ensures;

            assert(e == src_before[mi as int]);
            assert(src@ == src_before.remove(mi as int));
            assert(src_before.remove(mi as int).to_multiset() =~= src_before.to_multiset().remove(
                e,
            ));
            assert(src@.to_multiset() == src_before.to_multiset().remove(e));
            assert(out@.push(e).to_multiset() =~= out@.to_multiset().insert(e));
            assert(src_before.contains(e));
            assert(src_before.to_multiset().count(e) > 0);
            assert(out@.to_multiset().insert(e).add(src_before.to_multiset().remove(e))
                =~= out@.to_multiset().add(src_before.to_multiset()));
            assert(forall|j: int|
                0 <= j < src@.len() ==> #[trigger] src@[j] == if j < mi {
                    src_before[j]
                } else {
                    src_before[j + 1]
                });
        }
        out.push(e);
        proof {
            assert(forall|j: int| 0 <= j < src@.len() ==> he_leq(e, #[trigger] src@[j]));
        }
    }
    proof {
        broadcast use vstd::seq_lib::group_to_multiset_ensures;

        assert(src@.to_multiset() =~= Multiset::<HistoryEntry>::empty());
        assert(out@.to_multiset().add(Multiset::<HistoryEntry>::empty()) =~= out@.to_multiset());
    }
    out
}

/// An entry of a script's unconfirmed history: the transaction id, the
/// effective height (0 when every input is confirmed, -1 otherwise), and the
/// absolute fee in satoshis.
#[derive(Clone, Copy, Debug)]
pub struct MempoolHistItem {
    pub txid: Txid,
    pub height: i64,
    pub fee: u64,
}

/// The unconfirmed-history order: by effective height, then by transaction
/// id, byte-lexicographically.
pub open spec fn mp_leq(a: MempoolHistItem, b: MempoolHistItem) -> bool {
    a.height < b.height || (a.height == b.height && (a.txid.bytes@ == b.txid.bytes@
        || bytes32_lt_spec(a.txid.bytes@, b.txid.bytes@)))
}

/// `mp_leq` holds in at least one direction.
pub proof fn lemma_mp_leq_total(a: MempoolHistItem, b: MempoolHistItem)
    ensures
        mp_leq(a, b) || mp_leq(b, a),
{
    if a.height == b.height && !bytes32_lt_spec(a.txid.bytes@, b.txid.bytes@)
        && !bytes32_lt_spec(b.txid.bytes@, a.txid.bytes@) {
        lemma_bytes32_lt_connected(a.txid.bytes@, b.txid.bytes@);
    }
}

/// Sorts unconfirmed history items by (effective height, transaction id).
pub fn sort_mempool_items(v: Vec<MempoolHistItem>) -> (r: Vec<MempoolHistItem>)
    ensures
        r@.len() == v@.len(),
        r@.to_multiset() == v@.to_multiset(),
        forall|i: int, j: int| 0 <= i < j < r@.len() ==> mp_leq(#[trigger] r@[i], #[trigger] r@[j]),
{
    broadcast use vstd::seq_lib::group_to_multiset_ensures;

    let mut src = v;
    let mut out: Vec<MempoolHistItem> = Vec::new();
    while src.len() > 0
        invariant
            out@.len() + src@.len() == v@.len(),
            out@.to_multiset().add(src@.to_multiset()) == v@.to_multiset(),
            forall|i: int, j: int|
                0 <= i < j < out@.len() ==> mp_leq(#[trigger] out@[i], #[trigger] out@[j]),
            forall|i: int, j: int|
                0 <= i < out@.len() && 0 <= j < src@.len() ==> mp_leq(
                    #[trigger] out@[i],
                    #[trigger] src@[j],
                ),
        decreases src@.len(),
    {
        let mut mi: usize = 0;
        let mut k: usize = 1;
        while k < src.len()
            invariant
                mi < k,
                k <= src@.len(),
                src@.len() > 0,
                forall|x: int| 0 <= x < k ==> mp_leq(src@[mi as int], #[trigger] src@[x]),
            decreases src@.len() - k,
        {
            let better = src[k].height < src[mi].height || (src[k].height == src[mi].height
                && bytes32_lt(&src[k].txid.bytes, &src[mi].txid.bytes));
            proof {
                lemma_mp_leq_total(src@[k as int], src@[mi as int]);
                if mp_leq(src@[k as int], src@[mi as int]) && !mp_leq(
                    src@[mi as int],
                    src@[k as int],
                ) {
                    assert(better);
                }
                if better {
                    assert(mp_leq(src@[k as int], src@[mi as int]));
                    assert forall|x: int| 0 <= x < k + 1 implies mp_leq(
                        src@[k as int],
                        #[trigger] src@[x],
                    ) by {
                        if x < k {
                            lemma_mp_leq_trans(src@[k as int], src@[mi as int], src@[x]);
                        }
                    }
                }
            }
            if better {
                mi = k;
            }
            k += 1;
        }
        let ghost src_before = src@;
        let e = src.remove(mi);
        proof {
            broadcast use vstd::seq_lib::group_to_multiset_ensures;

            assert(e == src_before[mi as int]);
            assert(src@ == src_before.remove(mi as int));
            assert(src_before.remove(mi as int).to_multiset() =~= src_before.to_multiset().remove(
                e,
            ));
            assert(src@.to_multiset() == src_before.to_multiset().remove(e));
            assert(out@.push(e).to_multiset() =~= out@.to_multiset().insert(e));
            assert(src_before.contains(e));
            assert(src_before.to_multiset().count(e) > 0);
            assert(out@.to_multiset().insert(e).add(src_before.to_multiset().remove(e))
                =~= out@.to_multiset().add(src_before.to_multiset()));
            assert(forall|j: int|
                0 <= j < src@.len() ==> #[trigger] src@[j] == if j < mi {
                    src_before[j]
                } else {
                    src_before[j + 1]
                });
        }
        out.push(e);
        proof {
            assert(forall|j: int| 0 <= j < src@.len() ==> mp_leq(e, #[trigger] src@[j]));
        }
    }
    proof {
        broadcast use vstd::seq_lib::group_to_multiset_ensures;

        assert(src@.to_multiset() =~= Multiset::<MempoolHistItem>::empty());
        assert(out@.to_multiset().add(Multiset::<MempoolHistItem>::empty())
            =~= out@.to_multiset());
    }
    out
}

/// `mp_leq` is transitive.
pub proof fn lemma_mp_leq_trans(a: MempoolHistItem, b: MempoolHistItem, c: MempoolHistItem)
    requires
        mp_leq(a, b),
        mp_leq(b, c),
    ensures
        mp_leq(a, c),
{
    if a.height == b.height && b.height == c.height {
        if a.txid.bytes@ != b.txid.bytes@ && b.txid.bytes@ != c.txid.bytes@ {
            if a.txid.bytes@ != c.txid.bytes@ {
                lemma_bytes32_lt_trans(a.txid.bytes@, b.txid.bytes@, c.txid.bytes@);
            }
        }
    }
}

} // verus!
