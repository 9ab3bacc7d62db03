use vstd::prelude::*;

verus! {

/// A 32-byte digest identifying a Bitcoin output script: the reversed
/// double-SHA256 of the script bytes.  Primary key of the history index.
#[derive(Clone, Copy, Debug)]
pub struct ScriptHash {
    pub bytes: [u8; 32],
}

/// A transaction id: the 32-byte double-SHA256 of the transaction's
/// non-witness serialisation, in internal (unreversed) byte order.
#[derive(Clone, Copy, Debug)]
pub struct Txid {
    pub bytes: [u8; 32],
}

/// A block hash: the 32-byte double-SHA256 of the 80-byte block header,
/// in internal (unreversed) byte order.
#[derive(Clone, Copy, Debug)]
pub struct BlockHash {
    pub bytes: [u8; 32],
}

/// A reference to one output of one transaction.
#[derive(Clone, Copy, Debug)]
pub struct OutPoint {
    pub txid: Txid,
    pub vout: u32,
}

/// One transaction output: the locking script and the amount in satoshis.
#[derive(Clone, Debug)]
pub struct TxOut {
    pub script: Vec<u8>,
    pub value: u64,
}

/// The parts of a transaction the index and the mempool mirror read:
/// the spent outpoints and the created outputs.
#[derive(Clone, Debug)]
pub struct TxData {
    pub inputs: Vec<OutPoint>,
    pub outputs: Vec<TxOut>,
}

/// Compares two 32-byte values for equality.
pub fn bytes32_eq(a: &[u8; 32], b: &[u8; 32]) -> (r: bool)
    ensures
        r == (a@ == b@),
{
    let mut i: usize = 0;
    while i < 32
        invariant
            i <= 32,
            forall|j: int| 0 <= j < i ==> a@[j] == b@[j],
        decreases 32 - i,
    {
        if a[i] != b[i] {
            return false;
        }
        i += 1;
    }
    proof {
        assert(a@ =~= b@);
    }
    true
}

/// Lexicographic (big-endian) strict order on 32-byte values.
pub open spec fn bytes32_lt_spec(a: Seq<u8>, b: Seq<u8>) -> bool {
    exists|i: int|
        0 <= i < 32 && a[i] < b[i] && (forall|j: int| 0 <= j < i ==> a[j] == b[j])
}

/// Compares two 32-byte values lexicographically.
pub fn bytes32_lt(a: &[u8; 32], b: &[u8; 32]) -> (r: bool)
    ensures
        r == bytes32_lt_spec(a@, b@),
{
    let mut i: usize = 0;
    while i < 32
        invariant
            i <= 32,
            forall|j: int| 0 <= j < i ==> a@[j] == b@[j],
        decreases 32 - i,
    {
        if a[i] < b[i] {
            return true;
        }
        if a[i] > b[i] {
            proof {
                assert(forall|k: int| i <= k < 32 ==> !(a@[k] < b@[k] && (forall|j: int|
                    0 <= j < k ==> a@[j] == b@[j])));
            }
            return false;
        }
        i += 1;
    }
    false
}

impl ScriptHash {
    /// Equality on script hashes.
    pub fn same(&self, other: &ScriptHash) -> (r: bool)
        ensures
            r == (self.bytes@ == other.bytes@),
    {
        bytes32_eq(&self.bytes, &other.bytes)
    }
}

impl Txid {
    /// Equality on transaction ids.
    pub fn same(&self, other: &Txid) -> (r: bool)
        ensures
            r == (self.bytes@ == other.bytes@),
    {
        bytes32_eq(&self.bytes, &other.bytes)
    }
}

impl BlockHash {
    /// Equality on block hashes.
    pub fn same(&self, other: &BlockHash) -> (r: bool)
        ensures
            r == (self.bytes@ == other.bytes@),
    {
        bytes32_eq(&self.bytes, &other.bytes)
    }
}

impl OutPoint {
    /// Equality on outpoints.
    pub fn same(&self, other: &OutPoint) -> (r: bool)
        ensures
            r == (self.txid.bytes@ == other.txid.bytes@ && self.vout == other.vout),
    {
        self.txid.same(&other.txid) && self.vout == other.vout
    }
}

} // verus!
