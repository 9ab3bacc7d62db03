use vstd::prelude::*;

use crate::digest::sha256d_of;
use crate::digest::sha256d;
use crate::encode::BlockHeader;
use crate::encode::header_bytes;
use crate::encode::serialize_header;
use crate::types::BlockHash;

verus! {

/// One link of the best chain: a header together with its block hash.
#[derive(Clone, Copy, Debug)]
pub struct ChainEntry {
    pub header: BlockHeader,
    pub hash: BlockHash,
}

/// Why an incoming header sequence was rejected.
#[derive(Clone, Copy, Debug, PartialEq, Eq, Structural)]
pub enum ChainError {
    /// The first incoming header's parent hash is not in the current chain.
    NotAnchored,
    /// An incoming header's parent hash is not the hash of its predecessor.
    BrokenLink,
}

/// The block hash of a header: the double-SHA256 of its consensus encoding.
/// Opaque: the chain proofs treat it as an unanalysed function of the header.
#[verifier::opaque]
pub open spec fn block_hash_of(h: BlockHeader) -> Seq<u8> {
    sha256d_of(header_bytes(h))
}

/// Computes the block hash of a header.
pub fn compute_block_hash(h: &BlockHeader) -> (r: BlockHash)
    ensures
        r.bytes@ == block_hash_of(*h),
{
    let ser = serialize_header(h);
    proof {
        reveal(block_hash_of);
    }
    BlockHash { bytes: sha256d(&ser) }
}

/// Whether a header sequence is internally parent-linked: each header's
/// parent hash is the block hash of the one before it.
pub open spec fn headers_linked(hs: Seq<BlockHeader>) -> bool {
    forall|k: int|
        1 <= k < hs.len() ==> (#[trigger] hs[k].prev_blockhash).bytes@ == block_hash_of(hs[k - 1])
}

/// The height of the first entry carrying the given block hash, if any.
pub open spec fn find_hash_height(s: Seq<ChainEntry>, hb: Seq<u8>) -> Option<int>
    decreases s.len(),
{
    if s.len() == 0 {
        None
    } else if s[0].hash.bytes@ == hb {
        Some(0int)
    } else {
        match find_hash_height(s.drop_first(), hb) {
            Some(i) => Some(i + 1),
            None => None,
        }
    }
}

/// The height found is in range and correct, and nothing below it matches.
pub proof fn lemma_find_hash_height(s: Seq<ChainEntry>, hb: Seq<u8>)
    ensures
        find_hash_height(s, hb) matches Some(i) ==> 0 <= i < s.len() && s[i].hash.bytes@ == hb
            && (forall|j: int| 0 <= j < i ==> s[j].hash.bytes@ != hb),
        find_hash_height(s, hb) is None ==> forall|j: int|
            0 <= j < s.len() ==> s[j].hash.bytes@ != hb,
    decreases s.len(),
{
    if s.len() > 0 && s[0].hash.bytes@ != hb {
        let sub = s.drop_first();
        lemma_find_hash_height(sub, hb);
        let fh = find_hash_height(sub, hb);
        if fh is Some {
            let i = fh->Some_0;
            assert(find_hash_height(s, hb) == Some(i + 1));
            assert(s[i + 1] == sub[i]);
            assert forall|j: int| 0 <= j < i + 1 implies s[j].hash.bytes@ != hb by {
                if j > 0 {
                    assert(sub[j - 1] == s[j]);
                }
            }
        } else {
            assert forall|j: int| 0 <= j < s.len() implies s[j].hash.bytes@ != hb by {
                if j > 0 {
                    assert(sub[j - 1] == s[j]);
                }
            }
        }
    }
}

/// The locator heights for a chain of the given height, starting from an
/// offset below the tip: the offset grows 0, 1, 2, 4, 8, … (capped at the
/// tip), and the sequence ends with the genesis height.
pub open spec fn locator_heights_from(height: int, off: int) -> Seq<int>
    decreases height - off,
{
    if off < 0 || off >= height {
        seq![0int]
    } else {
        let next = if off == 0 {
            1int
        } else if 2 * off > height {
            height
        } else {
            2 * off
        };
        seq![height - off] + locator_heights_from(height, next)
    }
}

/// The current best chain: entry `i` has height `i`, the first entry is the
/// genesis block, and each entry's header names the previous entry's hash as
/// its parent.
pub struct Chain {
    pub headers: Vec<ChainEntry>,
}

impl Chain {
    /// The chain invariant: non-empty, every cached hash is the hash of its
    /// header, and the entries are parent-linked from genesis to tip.
    pub open spec fn wf(self) -> bool {
        &&& self.headers@.len() >= 1
        &&& forall|i: int|
            0 <= i < self.headers@.len() ==> (#[trigger] self.headers@[i]).hash.bytes@
                == block_hash_of(self.headers@[i].header)
        &&& forall|i: int|
            1 <= i < self.headers@.len() ==> (#[trigger] self.headers@[i]).header.prev_blockhash.bytes@
                == self.headers@[i - 1].hash.bytes@
    }

    /// The highest known height.
    pub open spec fn spec_height(self) -> int {
        self.headers@.len() - 1
    }

    /// Seeds a chain with its genesis header.
    pub fn new(genesis: BlockHeader) -> (r: Chain)
        ensures
            r.wf(),
            r.headers@.len() == 1,
            r.headers@[0].header == genesis,
    {
        let hash = compute_block_hash(&genesis);
        let mut headers: Vec<ChainEntry> = Vec::new();
        headers.push(ChainEntry { header: genesis, hash });
        Chain { headers }
    }

    /// The highest known height.
    pub fn height(&self) -> (r: usize)
        requires
            self.wf(),
        ensures
            r == self.spec_height(),
    {
        self.headers.len() - 1
    }

    /// The tip's block hash.
    pub fn tip(&self) -> (r: BlockHash)
        requires
            self.wf(),
        ensures
            r == self.headers@.last().hash,
    {
        self.headers[self.headers.len() - 1].hash
    }

    /// The header at a height, or absent above the tip.
    pub fn get_block_header(&self, height: usize) -> (r: Option<BlockHeader>)
        ensures
            r is Some <==> height < self.headers@.len(),
            r matches Some(h) ==> h == self.headers@[height as int].header,
    {
        if height < self.headers.len() {
            Some(self.headers[height].header)
        } else {
            None
        }
    }

    /// The block hash at a height, or absent above the tip.
    pub fn get_block_hash(&self, height: usize) -> (r: Option<BlockHash>)
        ensures
            r is Some <==> height < self.headers@.len(),
            r matches Some(h) ==> h == self.headers@[height as int].hash,
    {
        if height < self.headers.len() {
            Some(self.headers[height].hash)
        } else {
            None
        }
    }

    /// The height of a block hash in the chain, or absent.
    pub fn get_block_height(&self, hash: &BlockHash) -> (r: Option<usize>)
        ensures
            match r {
                Some(h) => find_hash_height(self.headers@, hash.bytes@) == Some(h as int),
                None => find_hash_height(self.headers@, hash.bytes@) is None,
            },
    {
        let mut i: usize = 0;
        while i < self.headers.len()
            invariant
                i <= self.headers@.len(),
                forall|j: int| 0 <= j < i ==> self.headers@[j].hash.bytes@ != hash.bytes@,
            decreases self.headers@.len() - i,
        {
            if self.headers[i].hash.same(hash) {
                proof {
                    lemma_find_first_hash(self.headers@, hash.bytes@, i as int);
                }
                return Some(i);
            }
            i += 1;
        }
        proof {
            lemma_find_hash_height(self.headers@, hash.bytes@);
            let fh = find_hash_height(self.headers@, hash.bytes@);
            if fh is Some {
                assert(self.headers@[fh->Some_0].hash.bytes@ == hash.bytes@);
                assert(false);
            }
        }
        None
    }

    /// A sparse list of block hashes from the tip backwards at exponentially
    /// growing offsets (0, 1, 2, 4, 8, …), terminating with genesis; sent to
    /// a peer to identify the most recent common ancestor.
    pub fn locator(&self) -> (r: Vec<BlockHash>)
        requires
            self.wf(),
        ensures
            ({
                let lh = locator_heights_from(self.spec_height(), 0);
                &&& r@.len() == lh.len()
                &&& forall|k: int| 0 <= k < lh.len() ==> 0 <= #[trigger] lh[k] <= self.spec_height()
                &&& forall|k: int|
                    0 <= k < lh.len() ==> (#[trigger] r@[k]) == self.headers@[lh[k]].hash
            }),
    {
        let height = self.headers.len() - 1;
        let ghost lh = locator_heights_from(height as int, 0);
        let mut result: Vec<BlockHash> = Vec::new();
        let ghost mut built: Seq<int> = Seq::empty();
        let mut off: usize = 0;
        while off < height
            invariant
                self.wf(),
                height == self.spec_height(),
                off <= height,
                lh == built + locator_heights_from(height as int, off as int),
                result@.len() == built.len(),
                forall|k: int| 0 <= k < built.len() ==> 0 <= #[trigger] built[k] <= height,
                forall|k: int|
                    0 <= k < built.len() ==> (#[trigger] result@[k])
                        == self.headers@[built[k]].hash,
            decreases height - off,
        {
            result.push(self.headers[height - off].hash);
            proof {
                let ghost prev_built = built;
                built = built.push(height - off);
                let next = if off == 0 {
                    1int
                } else if 2 * (off as int) > height {
                    height as int
                } else {
                    2 * (off as int)
                };
                assert(locator_heights_from(height as int, off as int) == seq![
                    height - off,
                ] + locator_heights_from(height as int, next));
                assert(lh =~= built + locator_heights_from(height as int, next));
                assert forall|k: int|
                    0 <= k < built.len() implies 0 <= #[trigger] built[k] <= height by {
                    if k < prev_built.len() {
                        assert(built[k] == prev_built[k]);
                    } else {
                        assert(built[k] == height - off);
                    }
                }
                assert forall|k: int|
                    0 <= k < built.len() implies (#[trigger] result@[k])
                    == self.headers@[built[k]].hash by {
                    if k < prev_built.len() {
                        assert(built[k] == prev_built[k]);
                        assert(result@[k] == self.headers@[built[k]].hash);
                    } else {
                        assert(built[k] == height - off);
                        assert(result@[k] == self.headers@[height - off].hash);
                    }
                }
            }
            off = if off == 0 {
                1
            } else if off > height / 2 {
                height
            } else {
                2 * off
            };
        }
        result.push(self.headers[0].hash);
        proof {
            assert(locator_heights_from(height as int, off as int) == seq![0int]);
            assert(lh =~= built.push(0int));
            assert forall|k: int| 0 <= k < lh.len() implies 0 <= #[trigger] lh[k] <= height by {
                if k < built.len() {
                    assert(lh[k] == built[k]);
                } else {
                    assert(lh[k] == 0);
                }
            }
            assert forall|k: int|
                0 <= k < lh.len() implies (#[trigger] result@[k]) == self.headers@[lh[k]].hash by {
                if k < built.len() {
                    assert(lh[k] == built[k]);
                    assert(result@[k] == self.headers@[built[k]].hash);
                } else {
                    assert(lh[k] == 0);
                }
            }
            assert(result@.len() == lh.len());
        }
        result
    }

    /// Applies an incoming header sequence.  If the first header's parent is
    /// the current tip the headers are appended; if it is an earlier chain
    /// entry the chain is truncated back to that entry first (a reorg).  A
    /// sequence whose first parent is unknown, or that is not internally
    /// parent-linked, is rejected and the chain is unchanged.
    pub fn update(&mut self, new_headers: &Vec<BlockHeader>) -> (r: Result<(), ChainError>)
        requires
            old(self).wf(),
        ensures
            final(self).wf(),
            r is Err ==> *final(self) == *old(self),
            new_headers@.len() == 0 ==> r is Ok && *final(self) == *old(self),
            new_headers@.len() > 0 ==> {
                let anchor = find_hash_height(
                    old(self).headers@,
                    new_headers@[0].prev_blockhash.bytes@,
                );
                &&& (r is Ok <==> anchor is Some && headers_linked(new_headers@))
                &&& (r is Ok ==> {
                    let a = anchor->Some_0;
                    &&& final(self).headers@.len() == a + 1 + new_headers@.len()
                    &&& forall|i: int|
                        0 <= i <= a ==> final(self).headers@[i] == old(self).headers@[i]
                    &&& forall|k: int|
                        0 <= k < new_headers@.len() ==> (#[trigger] final(self).headers@[
                            a + 1 + k
                        ]).header == new_headers@[k]
                })
            },
    {
        if new_headers.len() == 0 {
            return Ok(());
        }
        let anchor = match self.get_block_height(&new_headers[0].prev_blockhash) {
            Some(a) => a,
            None => {
                return Err(ChainError::NotAnchored);
            },
        };
        let chain_len = self.headers.len();
        proof {
            lemma_find_hash_height(self.headers@, new_headers@[0].prev_blockhash.bytes@);
            assert(anchor < chain_len);
        }
        // Validate and hash the incoming sequence before touching the chain.
        let mut entries: Vec<ChainEntry> = Vec::new();
        let mut k: usize = 0;
        while k < new_headers.len()
            invariant
                *self == *old(self),
                self.wf(),
                k <= new_headers@.len(),
                entries@.len() == k,
                forall|j: int| 0 <= j < k ==> (#[trigger] entries@[j]).header == new_headers@[j],
                forall|j: int|
                    0 <= j < k ==> (#[trigger] entries@[j]).hash.bytes@ == block_hash_of(
                        new_headers@[j],
                    ),
                forall|j: int|
                    1 <= j < k ==> (#[trigger] new_headers@[j].prev_blockhash).bytes@
                        == block_hash_of(new_headers@[j - 1]),
            decreases new_headers@.len() - k,
        {
            if k > 0 {
                let prev_hash = entries[k - 1].hash;
                if !new_headers[k].prev_blockhash.same(&prev_hash) {
                    return Err(ChainError::BrokenLink);
                }
            }
            let h = new_headers[k];
            let hash = compute_block_hash(&h);
            entries.push(ChainEntry { header: h, hash });
            k += 1;
        }
        let ghost entries_snap = entries@;
        let ghost olds = old(self).headers@;
        self.headers.truncate(anchor + 1);
        self.headers.append(&mut entries);
        proof {
            let s = self.headers@;
            assert(s == olds.subrange(0, anchor + 1) + entries_snap);
            assert(olds[anchor as int].hash.bytes@ == new_headers@[0].prev_blockhash.bytes@);
            assert(forall|i: int| 0 <= i <= anchor ==> #[trigger] s[i] == olds[i]);
            assert(forall|k: int|
                0 <= k < entries_snap.len() ==> #[trigger] s[anchor + 1 + k] == entries_snap[k]);
            assert forall|i: int| 0 <= i < s.len() implies (#[trigger] s[i]).hash.bytes@
                == block_hash_of(s[i].header) by {
                if i > anchor {
                    assert(s[i] == entries_snap[i - anchor - 1]);
                }
            }
            assert forall|i: int| 1 <= i < s.len() implies (#[trigger] s[i]).header.prev_blockhash.bytes@
                == s[i - 1].hash.bytes@ by {
                if i <= anchor {
                    assert(s[i] == olds[i]);
                    assert(s[i - 1] == olds[i - 1]);
                } else if i == anchor + 1 {
                    assert(s[i] == entries_snap[0]);
                    assert(s[i].header == new_headers@[0]);
                } else {
                    assert(s[i] == entries_snap[i - anchor - 1]);
                    assert(s[i - 1] == entries_snap[i - anchor - 2]);
                    assert(s[i].header == new_headers@[i - anchor - 1]);
                }
            }
            assert(headers_linked(new_headers@)) by {
                assert forall|k: int|
                    1 <= k < new_headers@.len() implies (#[trigger] new_headers@[k].prev_blockhash).bytes@
                    == block_hash_of(new_headers@[k - 1]) by {}
            }
        }
        Ok(())
    }
}

/// If position `i` holds the hash and nothing below does, the search finds `i`.
pub proof fn lemma_find_first_hash(s: Seq<ChainEntry>, hb: Seq<u8>, i: int)
    requires
        0 <= i < s.len(),
        s[i].hash.bytes@ == hb,
        forall|j: int| 0 <= j < i ==> s[j].hash.bytes@ != hb,
    ensures
        find_hash_height(s, hb) == Some(i),
    decreases s.len(),
{
    if i > 0 {
        lemma_find_first_hash(s.drop_first(), hb, i - 1);
    }
}

} // verus!
