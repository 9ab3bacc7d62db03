use vstd::prelude::*;

use crate::chain::Chain;
use crate::encode::header_bytes;
use crate::encode::hex_bytes;
use crate::encode::hex_decode;
use crate::encode::hex_encode;
use crate::encode::is_hex;
use crate::encode::serialize_header;
use crate::digest::rev_bytes;
use crate::merkle::create_merkle_branch;
use crate::merkle::fold_branch;
use crate::merkle::level_view;
use crate::merkle::merkle_root_of;
use crate::status::Status;
use crate::status::push_all;
use crate::tracker::HistoryItem;
use crate::tracker::Tracker;
use crate::types::BlockHash;
use crate::types::ScriptHash;
use crate::types::Txid;

verus! {

/// A protocol version offer: a single version, or an inclusive range.
pub enum VersionParam {
    Single(String),
    Range(String, String),
}

/// A parsed client request: one Electrum method with its parameters.
pub enum RpcRequest {
    Banner,
    DonationAddress,
    PeersSubscribe,
    Ping,
    Version { client_id: String, version: VersionParam },
    HeadersSubscribe,
    BlockHeader { height: u64 },
    BlockHeaders { start_height: u64, count: u64 },
    EstimateFee { nblocks: u16 },
    RelayFee,
    ScriptHashSubscribe { scripthash: ScriptHash },
    ScriptHashGetHistory { scripthash: ScriptHash },
    TransactionBroadcast { tx_hex: Vec<u8> },
    TransactionGet { txid: Txid, verbose: bool },
    TransactionGetMerkle { txid: Txid, height: u64 },
    FeeHistogram,
}

/// Why a request was answered with a protocol error (reported with code 1).
#[derive(Clone, Copy, Debug, PartialEq, Eq, Structural)]
pub enum RpcError {
    /// `server.version` offered anything but the single version 1.4.
    UnsupportedVersion,
    /// `blockchain.block.header(s)` named a height above the tip.
    NoHeaderAtHeight,
    /// `blockchain.scripthash.get_history` for a script hash that was never
    /// subscribed.
    NotSubscribed,
    /// `blockchain.transaction.broadcast` carried non-hexadecimal text.
    NonHexTransaction,
    /// `blockchain.transaction.broadcast` carried bytes that do not decode
    /// as a transaction.
    InvalidTransaction,
    /// `blockchain.transaction.get_merkle` named a transaction that is not
    /// in the named block.
    TransactionNotInBlock,
}

/// Work only an upstream connection can do; the caller performs it and, for
/// a fetch, finishes with the matching library function.
pub enum UpstreamAction {
    EstimateFee { nblocks: u16 },
    RelayFee,
    Broadcast { raw: Vec<u8> },
    FetchTransaction { txid: Txid, verbose: bool },
    FetchBlockTxids { blockhash: BlockHash, txid: Txid, height: u64 },
}

/// A successful method result.
pub enum RpcValue {
    Null,
    EmptyList,
    Banner(String),
    VersionInfo { server_id: String, protocol: String },
    HeaderHex(Vec<u8>),
    HeadersChunk { count: u64, hex: Vec<u8>, max: u64 },
    TipInfo { hex: Vec<u8>, height: u64 },
    StatusHash(Option<[u8; 32]>),
    History(Vec<HistoryItem>),
    MerkleProof { block_height: u64, pos: u64, merkle: Vec<Vec<u8>> },
    TxHex(Vec<u8>),
    FeeRate(u64),
    UnknownFee,
    Histogram(Vec<(u64, u64)>),
}

/// The outcome of dispatching one request: a finished response, or an action
/// for the upstream connection.
pub enum Outcome {
    Done(Result<RpcValue, RpcError>),
    Upstream(UpstreamAction),
}

/// Per-client Electrum protocol state: the last tip reported to it and its
/// subscriptions.
pub struct Client {
    pub tip: Option<BlockHash>,
    pub status: Vec<(ScriptHash, Status)>,
}

impl Client {
    pub open spec fn wf(self) -> bool {
        forall|i: int| 0 <= i < self.status@.len() ==> (#[trigger] self.status@[i]).1.wf()
    }

    /// A fresh client with no subscriptions and no reported tip.
    pub fn new() -> (r: Client)
        ensures
            r.wf(),
            r.tip is None,
            r.status@.len() == 0,
    {
        Client { tip: None, status: Vec::new() }
    }

    /// Whether the script hash is subscribed.
    pub open spec fn subscribed(self, sh: Seq<u8>) -> bool {
        exists|i: int| 0 <= i < self.status@.len() && (#[trigger] self.status@[i]).0.bytes@ == sh
    }
}

/// The lower-case hexadecimal encoding of one header's consensus bytes.
/// Opaque: the header-chunk proofs treat it as one atom per header.
#[verifier::opaque]
pub open spec fn header_hex(h: crate::encode::BlockHeader) -> Seq<u8> {
    hex_bytes(header_bytes(h))
}

/// The concatenated lower-case hexadecimal encodings of `n` consecutive
/// headers starting at `start`.  Opaque: callers reason about it one header
/// at a time.
#[verifier::opaque]
pub open spec fn headers_hex(chain: Chain, start: int, n: int) -> Seq<u8>
    decreases n,
{
    if n <= 0 {
        Seq::empty()
    } else {
        headers_hex(chain, start, n - 1) + header_hex(chain.headers@[start + n - 1].header)
    }
}

/// The raw bytes of a transaction decode as a well-formed transaction.
/// Stated only through the trusted wrapper below; a function of the bytes
/// alone.
pub uninterp spec fn tx_decode_ok(b: Seq<u8>) -> bool;

/// Relies on bitcoin::consensus::deserialize::<Transaction>: whether the
/// bytes are a complete consensus-encoded transaction depends on the bytes
/// alone.
#[verifier::external_body]
fn check_tx_decodes(b: &Vec<u8>) -> (r: bool)
    ensures
        r == tx_decode_ok(b@),
{
    bitcoin::consensus::deserialize::<bitcoin::Transaction>(b.as_slice()).is_ok()
}

/// The hexadecimal text of `c` consecutive headers starting at
/// `start_height`.
fn headers_chunk_hex(chain: &Chain, start_height: u64, c: u64, len: u64) -> (r: Vec<u8>)
    requires
        len == chain.headers@.len(),
        start_height + c <= len,
    ensures
        r@ == headers_hex(*chain, start_height as int, c as int),
{
    let mut hex: Vec<u8> = Vec::new();
    let mut i: u64 = 0;
    let len_usize = chain.headers.len();
    proof {
        assert(hex@ == headers_hex(*chain, start_height as int, 0)) by {
            reveal(headers_hex);
        }
    }
    while i < c
        invariant
            i <= c,
            len == chain.headers@.len(),
            len_usize == chain.headers@.len(),
            start_height + c <= len,
            hex@ == headers_hex(*chain, start_height as int, i as int),
        decreases c - i,
    {
        proof {
            assert(start_height + i < len);
            assert((start_height + i) as usize as int == start_height + i as int);
        }
        let h = match chain.get_block_header((start_height + i) as usize) {
            Some(h) => h,
            None => {
                proof {
                    assert(false);
                }
                return hex;
            },
        };
        append_header_hex(&mut hex, &h);
        proof {
            assert(headers_hex(*chain, start_height as int, i + 1) == headers_hex(
                *chain,
                start_height as int,
                i as int,
            ) + header_hex(chain.headers@[start_height + i as int].header)) by {
                reveal(headers_hex);
            }
        }
        i += 1;
    }
    hex
}

/// Appends the hexadecimal encoding of one header.
fn append_header_hex(out: &mut Vec<u8>, h: &crate::encode::BlockHeader)
    ensures
        final(out)@ == old(out)@ + header_hex(*h),
{
    let ser = serialize_header(h);
    let hh = hex_encode(&ser);
    push_all(out, &hh);
    proof {
        assert(hh@ == header_hex(*h)) by {
            reveal(header_hex);
        }
    }
}

/// The Electrum RPC handler: dispatches parsed requests against the tracker.
pub struct Rpc {
    pub tracker: Tracker,
}

impl Rpc {
    pub open spec fn wf(self) -> bool {
        self.tracker.wf()
    }

    pub fn new(tracker: Tracker) -> (r: Rpc)
        ensures
            r.tracker == tracker,
    {
        Rpc { tracker }
    }

    /// `server.version`: exactly the single version 1.4 is accepted; a
    /// different single version, or any range, is an error.
    pub fn version(&self, version: &VersionParam) -> (r: Result<RpcValue, RpcError>)
        ensures
            r is Ok <==> (version matches VersionParam::Single(v) && v@ == "1.4"@),
            r matches Ok(val) ==> val matches RpcValue::VersionInfo { server_id, protocol }
                && server_id@ == "electrs/0.1.0"@ && protocol@ == "1.4"@,
            r matches Err(e) ==> e == RpcError::UnsupportedVersion,
    {
        match version {
            VersionParam::Single(v) => {
                let proto: String = "1.4".to_owned();
                if v.eq(&proto) {
                    Ok(
                        RpcValue::VersionInfo {
                            server_id: "electrs/0.1.0".to_owned(),
                            protocol: proto,
                        },
                    )
                } else {
                    Err(RpcError::UnsupportedVersion)
                }
            },
            VersionParam::Range(_, _) => Err(RpcError::UnsupportedVersion),
        }
    }

    /// `blockchain.block.header`: the hexadecimal encoding of the header at
    /// the height, or an error above the tip.
    pub fn block_header(&self, height: u64) -> (r: Result<RpcValue, RpcError>)
        requires
            self.wf(),
        ensures
            r is Ok <==> height < self.tracker.index.chain.headers@.len(),
            r matches Ok(v) ==> v matches RpcValue::HeaderHex(h) && h@ == hex_bytes(
                header_bytes(self.tracker.index.chain.headers@[height as int].header),
            ),
            r matches Err(e) ==> e == RpcError::NoHeaderAtHeight,
    {
        let chain = &self.tracker.index.chain;
        let len = chain.headers.len();
        if height < len as u64 {
            match chain.get_block_header(height as usize) {
                Some(h) => {
                    let ser = serialize_header(&h);
                    Ok(RpcValue::HeaderHex(hex_encode(&ser)))
                },
                None => Err(RpcError::NoHeaderAtHeight),
            }
        } else {
            Err(RpcError::NoHeaderAtHeight)
        }
    }

    /// `blockchain.block.headers`: at most 2016 headers from `start_height`,
    /// truncated at the tip; the count returned is exactly
    /// min(min(count, 2016), available headers from `start_height`), zero
    /// when the start height is beyond the tip.
    #[verifier::rlimit(50)]
    pub fn block_headers(&self, start_height: u64, count: u64) -> (r: Result<RpcValue, RpcError>)
        requires
            self.wf(),
        ensures
            r matches Ok(v) && v matches RpcValue::HeadersChunk { count: c, hex, max } && ({
                let avail = if start_height < self.tracker.index.chain.headers@.len() {
                    self.tracker.index.chain.headers@.len() - start_height
                } else {
                    0int
                };
                let capped = if count > 2016 {
                    2016int
                } else {
                    count as int
                };
                &&& max == 2016
                &&& c == (if capped > avail {
                    avail
                } else {
                    capped
                })
                &&& hex@ == headers_hex(self.tracker.index.chain, start_height as int, c as int)
            }),
    {
        let chain = &self.tracker.index.chain;
        let len = chain.headers.len() as u64;
        let avail = if start_height < len {
            len - start_height
        } else {
            0
        };
        let capped = if count > 2016 {
            2016u64
        } else {
            count
        };
        let c = if capped > avail {
            avail
        } else {
            capped
        };
        let hex = if c == 0 {
            let empty: Vec<u8> = Vec::new();
            proof {
                assert(empty@ == headers_hex(self.tracker.index.chain, start_height as int, 0))
                    by {
                    reveal(headers_hex);
                }
            }
            empty
        } else {
            headers_chunk_hex(chain, start_height, c, len)
        };
        Ok(RpcValue::HeadersChunk { count: c, hex, max: 2016 })
    }

    /// `blockchain.headers.subscribe`: records the tip in the client and
    /// returns the serialised tip header and its height.
    pub fn headers_subscribe(&self, client: &mut Client) -> (r: RpcValue)
        requires
            self.wf(),
            old(client).wf(),
        ensures
            final(client).wf(),
            final(client).tip == Some(self.tracker.index.chain.headers@.last().hash),
            final(client).status == old(client).status,
            r matches RpcValue::TipInfo { hex, height } && hex@ == hex_bytes(
                header_bytes(self.tracker.index.chain.headers@.last().header),
            ) && height == self.tracker.index.chain.headers@.len() - 1,
    {
        let chain = &self.tracker.index.chain;
        let tip = chain.tip();
        client.tip = Some(tip);
        let height = chain.height();
        let h = match chain.get_block_header(height) {
            Some(h) => h,
            None => {
                proof {
                    assert(false);
                }
                return RpcValue::Null;
            },
        };
        let ser = serialize_header(&h);
        RpcValue::TipInfo { hex: hex_encode(&ser), height: height as u64 }
    }

    /// `blockchain.scripthash.subscribe`: inserts a fresh subscription if
    /// the script hash is new (a no-op otherwise) and returns the
    /// subscription's current status hash — the null value for a fresh one.
    pub fn scripthash_subscribe(&self, client: &mut Client, scripthash: &ScriptHash) -> (r:
        RpcValue)
        requires
            old(client).wf(),
        ensures
            final(client).wf(),
            final(client).subscribed(scripthash.bytes@),
            final(client).tip == old(client).tip,
            old(client).subscribed(scripthash.bytes@) ==> *final(client) == *old(client),
            r matches RpcValue::StatusHash(h) && exists|i: int|
                0 <= i < final(client).status@.len() && (#[trigger] final(client).status@[i]).0.bytes@
                    == scripthash.bytes@ && final(client).status@[i].1.statushash == h,
            !old(client).subscribed(scripthash.bytes@) ==> ({
                &&& r == RpcValue::StatusHash(Option::<[u8; 32]>::None)
                &&& final(client).status@.len() == old(client).status@.len() + 1
                &&& forall|x: int|
                    0 <= x < old(client).status@.len() ==> #[trigger] final(client).status@[x]
                        == old(client).status@[x]
                &&& final(client).status@.last().0 == *scripthash
                &&& final(client).status@.last().1.statushash is None
                &&& final(client).status@.last().1.confirmed@.len() == 0
                &&& final(client).status@.last().1.mempool@.len() == 0
            }),
    {
        let mut i: usize = 0;
        while i < client.status.len()
            invariant
                i <= client.status@.len(),
                *client == *old(client),
                client.wf(),
                forall|x: int|
                    0 <= x < i ==> (#[trigger] client.status@[x]).0.bytes@ != scripthash.bytes@,
            decreases client.status@.len() - i,
        {
            if client.status[i].0.same(scripthash) {
                let h = client.status[i].1.statushash();
                proof {
                    assert(client.status@[i as int].0.bytes@ == scripthash.bytes@
                        && client.status@[i as int].1.statushash == h);
                }
                return RpcValue::StatusHash(h);
            }
            i += 1;
        }
        proof {
            if old(client).subscribed(scripthash.bytes@) {
                let x = choose|x: int|
                    0 <= x < client.status@.len() && (#[trigger] client.status@[x]).0.bytes@
                        == scripthash.bytes@;
                assert(false);
            }
        }
        let ghost before = client.status@;
        let st = self.tracker.subscribe(*scripthash);
        let h = st.statushash();
        client.status.push((*scripthash, st));
        proof {
            assert(forall|x: int|
                0 <= x < before.len() ==> #[trigger] client.status@[x] == before[x]);
            assert(client.status@.last().0.bytes@ == scripthash.bytes@);
            assert(client.status@[before.len() as int].0.bytes@ == scripthash.bytes@
                && client.status@[before.len() as int].1.statushash == h);
        }
        RpcValue::StatusHash(h)
    }

    /// `blockchain.scripthash.get_history`: the subscription's history, or
    /// an error when the script hash was never subscribed.
    pub fn scripthash_get_history(&self, client: &Client, scripthash: &ScriptHash) -> (r: Result<
        RpcValue,
        RpcError,
    >)
        requires
            forall|i: int, x: int|
                0 <= i < client.status@.len() && 0 <= x < (#[trigger] client.status@[i]).1.confirmed@.len()
                    ==> (#[trigger] client.status@[i].1.confirmed@[x]).height
                    <= 0x7fffffffffffffff,
        ensures
            r is Ok <==> client.subscribed(scripthash.bytes@),
            r matches Err(e) ==> e == RpcError::NotSubscribed,
            r matches Ok(v) ==> (v matches RpcValue::History(items) && exists|i: int|
                0 <= i < client.status@.len() && (#[trigger] client.status@[i]).0.bytes@
                    == scripthash.bytes@ && history_of_status(client.status@[i].1, items@)),
    {
        let mut i: usize = 0;
        while i < client.status.len()
            invariant
                i <= client.status@.len(),
                forall|ii: int, x: int|
                    0 <= ii < client.status@.len() && 0 <= x < (#[trigger] client.status@[ii]).1.confirmed@.len()
                        ==> (#[trigger] client.status@[ii].1.confirmed@[x]).height
                        <= 0x7fffffffffffffff,
                forall|x: int|
                    0 <= x < i ==> (#[trigger] client.status@[x]).0.bytes@ != scripthash.bytes@,
            decreases client.status@.len() - i,
        {
            if client.status[i].0.same(scripthash) {
                let items = self.tracker.get_history(&client.status[i].1);
                proof {
                    assert(history_of_status(client.status@[i as int].1, items@));
                }
                return Ok(RpcValue::History(items));
            }
            i += 1;
        }
        proof {
            if client.subscribed(scripthash.bytes@) {
                let x = choose|x: int|
                    0 <= x < client.status@.len() && (#[trigger] client.status@[x]).0.bytes@
                        == scripthash.bytes@;
                assert(false);
            }
        }
        Err(RpcError::NotSubscribed)
    }

    /// `blockchain.transaction.broadcast`: decodes the hexadecimal text,
    /// rejects text that is not hexadecimal or does not decode as a
    /// transaction, and otherwise hands the raw bytes to the upstream node.
    pub fn transaction_broadcast(&self, tx_hex: &Vec<u8>) -> (r: Outcome)
        ensures
            !is_hex(tx_hex@) ==> r == Outcome::Done(
                Result::<RpcValue, RpcError>::Err(RpcError::NonHexTransaction),
            ),
            is_hex(tx_hex@) && !tx_decode_ok(crate::encode::hex_decoded(tx_hex@)) ==> r
                == Outcome::Done(Result::<RpcValue, RpcError>::Err(RpcError::InvalidTransaction)),
            is_hex(tx_hex@) && tx_decode_ok(crate::encode::hex_decoded(tx_hex@)) ==> (r matches
                Outcome::Upstream(a) && (a matches UpstreamAction::Broadcast { raw } && raw@
                == crate::encode::hex_decoded(tx_hex@))),
    {
        let raw = match hex_decode(tx_hex) {
            Some(raw) => raw,
            None => {
                return Outcome::Done(Err(RpcError::NonHexTransaction));
            },
        };
        if !check_tx_decodes(&raw) {
            return Outcome::Done(Err(RpcError::InvalidTransaction));
        }
        Outcome::Upstream(UpstreamAction::Broadcast { raw })
    }

    /// `blockchain.transaction.get`: verbose requests always go upstream; a
    /// non-verbose request is served from the cache when the transaction is
    /// there, and goes upstream on a miss.
    pub fn transaction_get(&self, txid: &Txid, verbose: bool) -> (r: Outcome)
        ensures
            verbose ==> r == Outcome::Upstream(
                UpstreamAction::FetchTransaction { txid: *txid, verbose: true },
            ),
            !verbose && !self.tracker.cache.cache_has_tx_spec(txid.bytes@) ==> r
                == Outcome::Upstream(
                UpstreamAction::FetchTransaction { txid: *txid, verbose: false },
            ),
            !verbose && self.tracker.cache.cache_has_tx_spec(txid.bytes@) ==> (r matches
                Outcome::Done(v) && (v matches Ok(h) && (h matches RpcValue::TxHex(hx)
                && exists|i: int|
                    0 <= i < self.tracker.cache.txs@.len() && (
                    #[trigger] self.tracker.cache.txs@[i]).txid.bytes@ == txid.bytes@ && hx@
                        == hex_bytes(self.tracker.cache.txs@[i].raw@)))),
    {
        if verbose {
            return Outcome::Upstream(UpstreamAction::FetchTransaction { txid: *txid, verbose: true });
        }
        match self.tracker.cache.get_tx(txid) {
            Some(entry) => Outcome::Done(Ok(RpcValue::TxHex(hex_encode(&entry.raw)))),
            None => Outcome::Upstream(
                UpstreamAction::FetchTransaction { txid: *txid, verbose: false },
            ),
        }
    }

    /// `blockchain.transaction.get_merkle`: served from the cached block
    /// transaction-id list when present, else the list is fetched upstream
    /// and finished with `finish_get_merkle`.
    pub fn transaction_get_merkle(&self, txid: &Txid, height: u64) -> (r: Result<Outcome, RpcError>)
        requires
            self.wf(),
        ensures
            r is Ok <==> height < self.tracker.index.chain.headers@.len(),
            r matches Err(e) ==> e == RpcError::NoHeaderAtHeight,
            height < self.tracker.index.chain.headers@.len()
                && !self.tracker.cache.cache_has_txids_spec(
                self.tracker.index.chain.headers@[height as int].hash.bytes@,
            ) ==> r == Result::<Outcome, RpcError>::Ok(
                Outcome::Upstream(
                    UpstreamAction::FetchBlockTxids {
                        blockhash: self.tracker.index.chain.headers@[height as int].hash,
                        txid: *txid,
                        height,
                    },
                ),
            ),
            height < self.tracker.index.chain.headers@.len()
                && self.tracker.cache.cache_has_txids_spec(
                self.tracker.index.chain.headers@[height as int].hash.bytes@,
            ) ==> (r matches Ok(oc) && (oc matches Outcome::Done(res) && exists|i: int|
                0 <= i < self.tracker.cache.txids@.len() && (
                #[trigger] self.tracker.cache.txids@[i]).blockhash.bytes@
                    == self.tracker.index.chain.headers@[height as int].hash.bytes@
                    && merkle_answer_ok(self.tracker.cache.txids@[i].txids@, *txid, height, res))),
    {
        let chain = &self.tracker.index.chain;
        let len = chain.headers.len();
        if height >= len as u64 {
            return Err(RpcError::NoHeaderAtHeight);
        }
        let blockhash = match chain.get_block_hash(height as usize) {
            Some(b) => b,
            None => {
                proof {
                    assert(false);
                }
                return Err(RpcError::NoHeaderAtHeight);
            },
        };
        match self.tracker.cache.get_txids(&blockhash) {
            Some(entry) => {
                let txids = copy_txids(&entry.txids);
                let res = finish_get_merkle(txid, height, &txids);
                proof {
                    let i = choose|i: int|
                        0 <= i < self.tracker.cache.txids@.len() && (
                        #[trigger] self.tracker.cache.txids@[i]) == *entry
                            && entry.blockhash.bytes@ == blockhash.bytes@;
                    assert(txids@ == self.tracker.cache.txids@[i].txids@);
                    assert(merkle_answer_ok(self.tracker.cache.txids@[i].txids@, *txid, height, res));
                }
                Ok(Outcome::Done(res))
            },
            None => Ok(
                Outcome::Upstream(UpstreamAction::FetchBlockTxids { blockhash, txid: *txid, height }),
            ),
        }
    }
}

/// The served history of one subscription: its confirmed entries in order,
/// then its mempool items, mapped to history lines as `Tracker::get_history`
/// states.
pub open spec fn history_of_status(st: Status, items: Seq<HistoryItem>) -> bool {
    &&& items.len() == st.confirmed@.len() + st.mempool@.len()
    &&& forall|x: int|
        0 <= x < st.confirmed@.len() ==> (#[trigger] items[x]) == (HistoryItem {
            txid: st.confirmed@[x].txid,
            height: st.confirmed@[x].height as i64,
            fee: None,
        })
    &&& forall|x: int|
        0 <= x < st.mempool@.len() ==> (#[trigger] items[st.confirmed@.len() + x]) == (
        HistoryItem {
            txid: st.mempool@[x].txid,
            height: st.mempool@[x].height,
            fee: Some(st.mempool@[x].fee),
        })
}

/// The shape of a finished `get_merkle` answer for a block's transaction-id
/// list: success exactly when the transaction is in the list, the reported
/// position holds the transaction, and the reported path folds to the
/// Merkle root.
pub open spec fn merkle_answer_ok(
    txids: Seq<Txid>,
    txid: Txid,
    height: u64,
    res: Result<RpcValue, RpcError>,
) -> bool {
    &&& (res is Ok <==> exists|x: int|
        0 <= x < txids.len() && (#[trigger] txids[x]).bytes@ == txid.bytes@)
    &&& (res matches Err(e) ==> e == RpcError::TransactionNotInBlock)
    &&& (res matches Ok(v) ==> v matches RpcValue::MerkleProof { block_height, pos, merkle } && ({
        &&& block_height == height
        &&& 0 <= pos < txids.len()
        &&& txids[pos as int].bytes@ == txid.bytes@
        &&& merkle_proof_ok(txids, txid.bytes@, pos as int, merkle@)
    }))
}

/// Copies a transaction-id list.
fn copy_txids(v: &Vec<Txid>) -> (r: Vec<Txid>)
    ensures
        r@ == v@,
{
    let mut out: Vec<Txid> = Vec::new();
    let mut i: usize = 0;
    while i < v.len()
        invariant
            i <= v@.len(),
            out@ == v@.subrange(0, i as int),
        decreases v@.len() - i,
    {
        out.push(v[i]);
        proof {
            assert(out@ =~= v@.subrange(0, i + 1 as int));
        }
        i += 1;
    }
    proof {
        assert(out@ =~= v@);
    }
    out
}

/// The leaves of a block's Merkle tree: the transaction ids as 32-byte
/// nodes in block order.
pub open spec fn leaves_of(txids: Seq<Txid>) -> Seq<[u8; 32]> {
    txids.map_values(|t: Txid| t.bytes)
}

/// The hexadecimal node list is an authentication path: some branch encodes
/// to it, node for node, and folding that branch from the transaction id
/// reproduces the Merkle root of the block's transaction ids.
pub open spec fn merkle_proof_ok(
    txids: Seq<Txid>,
    txid_b: Seq<u8>,
    pos: int,
    merkle: Seq<Vec<u8>>,
) -> bool {
    &&& merkle.len() == crate::merkle::tree_depth(txids.len() as int)
    &&& exists|branch: Seq<[u8; 32]>|
        merkle.len() == branch.len() && (forall|x: int|
            0 <= x < branch.len() ==> (#[trigger] merkle[x])@ == hex_bytes(rev_bytes(branch[x]@)))
            && fold_branch(txid_b, level_view(branch), pos) == merkle_root_of(
            level_view(leaves_of(txids)),
        )
}

/// Builds the `get_merkle` answer from a block's transaction-id list: the
/// transaction's position and its authentication path, each node in display
/// (reversed) hexadecimal.  Folding the path from the transaction id
/// reproduces the block's Merkle root; a transaction that is not in the
/// list is an error.
pub fn finish_get_merkle(txid: &Txid, height: u64, txids: &Vec<Txid>) -> (r: Result<
    RpcValue,
    RpcError,
>)
    ensures
        r is Ok <==> exists|i: int|
            0 <= i < txids@.len() && (#[trigger] txids@[i]).bytes@ == txid.bytes@,
        r matches Err(e) ==> e == RpcError::TransactionNotInBlock,
        r matches Ok(v) ==> v matches RpcValue::MerkleProof { block_height, pos, merkle } && ({
            &&& block_height == height
            &&& 0 <= pos < txids@.len()
            &&& txids@[pos as int].bytes@ == txid.bytes@
            &&& merkle_proof_ok(txids@, txid.bytes@, pos as int, merkle@)
        }),
{
    let mut pos: usize = 0;
    let n = txids.len();
    while pos < n
        invariant
            n == txids@.len(),
            pos <= n,
            forall|x: int| 0 <= x < pos ==> (#[trigger] txids@[x]).bytes@ != txid.bytes@,
        decreases n - pos,
    {
        if txids[pos].same(txid) {
            let mut leaves: Vec<[u8; 32]> = Vec::new();
            let mut i: usize = 0;
            while i < n
                invariant
                    n == txids@.len(),
                    i <= n,
                    leaves@.len() == i,
                    forall|x: int| 0 <= x < i ==> #[trigger] leaves@[x] == txids@[x].bytes,
                decreases n - i,
            {
                leaves.push(txids[i].bytes);
                i += 1;
            }
            proof {
                assert(leaves@ =~= leaves_of(txids@));
            }
            let branch = create_merkle_branch(&leaves, pos);
            let mut merkle: Vec<Vec<u8>> = Vec::new();
            let mut b: usize = 0;
            while b < branch.len()
                invariant
                    b <= branch@.len(),
                    merkle@.len() == b,
                    forall|x: int|
                        0 <= x < b ==> (#[trigger] merkle@[x])@ == hex_bytes(
                            rev_bytes(branch@[x]@),
                        ),
                decreases branch@.len() - b,
            {
                let rev = crate::digest::reverse32(&branch[b]);
                let mut revv: Vec<u8> = Vec::new();
                crate::encode::push_bytes32(&mut revv, &rev);
                merkle.push(hex_encode(&revv));
                b += 1;
            }
            proof {
                assert(leaves@[pos as int]@ == txid.bytes@);
                let br = branch@;
                assert(merkle@.len() == br.len());
                assert(forall|x: int|
                    0 <= x < br.len() ==> (#[trigger] merkle@[x])@ == hex_bytes(
                        rev_bytes(br[x]@),
                    ));
                assert(fold_branch(txid.bytes@, level_view(br), pos as int) == merkle_root_of(
                    level_view(leaves_of(txids@)),
                ));
                assert(merkle_proof_ok(txids@, txid.bytes@, pos as int, merkle@));
            }
            return Ok(RpcValue::MerkleProof { block_height: height, pos: pos as u64, merkle });
        }
        pos += 1;
    }
    Err(RpcError::TransactionNotInBlock)
}

/// Maps the node's fee-rate estimate to a result: the rate when the node
/// has one, and the distinguished unknown-fee marker when it does not.
pub fn finish_estimate_fee(sat_per_kb: Option<u64>) -> (r: RpcValue)
    ensures
        sat_per_kb matches Some(s) ==> r == RpcValue::FeeRate(s),
        sat_per_kb is None ==> r == RpcValue::UnknownFee,
{
    match sat_per_kb {
        Some(s) => RpcValue::FeeRate(s),
        None => RpcValue::UnknownFee,
    }
}

impl Rpc {
    /// Dispatches one parsed request: a pure function of the tracker and
    /// client state, except that subscriptions record state in the client.
    pub fn handle_request(&self, client: &mut Client, req: &RpcRequest) -> (r: Outcome)
        requires
            self.wf(),
            old(client).wf(),
            forall|i: int, x: int|
                0 <= i < old(client).status@.len() && 0 <= x
                    < (#[trigger] old(client).status@[i]).1.confirmed@.len()
                    ==> (#[trigger] old(client).status@[i].1.confirmed@[x]).height
                    <= 0x7fffffffffffffff,
        ensures
            final(client).wf(),
            req matches RpcRequest::Ping ==> r == Outcome::Done(
                Result::<RpcValue, RpcError>::Ok(RpcValue::Null),
            ) && *final(client) == *old(client),
            req matches RpcRequest::Version { client_id, version } ==> ({
                &&& (r matches Outcome::Done(res) && (res is Ok <==> (
                version matches VersionParam::Single(v) && v@ == "1.4"@)))
                &&& *final(client) == *old(client)
            }),
            req matches RpcRequest::BlockHeaders { start_height, count } ==> (r matches
                Outcome::Done(res) && res is Ok && *final(client) == *old(client)),
            req matches RpcRequest::ScriptHashSubscribe { scripthash }
                ==> final(client).subscribed(scripthash.bytes@),
    {
        match req {
            RpcRequest::Banner => {
                let b: String = "Welcome to the Electrum Rust Server!".to_owned();
                Outcome::Done(Ok(RpcValue::Banner(b)))
            },
            RpcRequest::DonationAddress => Outcome::Done(Ok(RpcValue::Null)),
            RpcRequest::PeersSubscribe => Outcome::Done(Ok(RpcValue::EmptyList)),
            RpcRequest::Ping => Outcome::Done(Ok(RpcValue::Null)),
            RpcRequest::Version { client_id, version } => Outcome::Done(self.version(version)),
            RpcRequest::HeadersSubscribe => Outcome::Done(Ok(self.headers_subscribe(client))),
            RpcRequest::BlockHeader { height } => Outcome::Done(self.block_header(*height)),
            RpcRequest::BlockHeaders { start_height, count } => Outcome::Done(
                self.block_headers(*start_height, *count),
            ),
            RpcRequest::EstimateFee { nblocks } => Outcome::Upstream(
                UpstreamAction::EstimateFee { nblocks: *nblocks },
            ),
            RpcRequest::RelayFee => Outcome::Upstream(UpstreamAction::RelayFee),
            RpcRequest::ScriptHashSubscribe { scripthash } => Outcome::Done(
                Ok(self.scripthash_subscribe(client, scripthash)),
            ),
            RpcRequest::ScriptHashGetHistory { scripthash } => Outcome::Done(
                self.scripthash_get_history(client, scripthash),
            ),
            RpcRequest::TransactionBroadcast { tx_hex } => self.transaction_broadcast(tx_hex),
            RpcRequest::TransactionGet { txid, verbose } => self.transaction_get(txid, *verbose),
            RpcRequest::TransactionGetMerkle { txid, height } => {
                match self.transaction_get_merkle(txid, *height) {
                    Ok(outcome) => outcome,
                    Err(e) => Outcome::Done(Err(e)),
                }
            },
            RpcRequest::FeeHistogram => Outcome::Done(
                Ok(RpcValue::Histogram(self.tracker.mempool.fee_histogram())),
            ),
        }
    }
}

/// A status notification is sound: it reports a subscription's stored
/// status hash, and that hash differs from the hash the subscription held
/// before the update.
pub open spec fn note_ok(
    olds: Seq<(ScriptHash, Status)>,
    news: Seq<(ScriptHash, Status)>,
    n: Notification,
) -> bool {
    n matches Notification::Status { scripthash, statushash } ==> exists|ii: int|
        0 <= ii < news.len() && ii < olds.len() && (#[trigger] news[ii]).0 == scripthash
            && news[ii].1.statushash == statushash && olds[ii].1.statushash != statushash
}

/// A sound notification stays sound when the refreshed list grows.
proof fn lemma_note_ok_extend(
    olds: Seq<(ScriptHash, Status)>,
    before: Seq<(ScriptHash, Status)>,
    after: Seq<(ScriptHash, Status)>,
    n: Notification,
)
    requires
        before.len() <= after.len(),
        forall|i: int| 0 <= i < before.len() ==> #[trigger] after[i] == before[i],
        note_ok(olds, before, n),
    ensures
        note_ok(olds, after, n),
{
    match n {
        Notification::Status { scripthash, statushash } => {
            let ii = choose|ii: int|
                0 <= ii < before.len() && ii < olds.len() && (#[trigger] before[ii]).0
                    == scripthash && before[ii].1.statushash == statushash && olds[
                    ii
                ].1.statushash != statushash;
            assert(after[ii] == before[ii]);
        },
        _ => {},
    }
}

/// Whether a notification of this status hash for this script hash is in
/// the list.
pub open spec fn status_note_in(r: Seq<Notification>, sh: ScriptHash, h: Option<[u8; 32]>) -> bool {
    exists|x: int|
        0 <= x < r.len() && #[trigger] r[x] == (Notification::Status {
            scripthash: sh,
            statushash: h,
        })
}

/// Whether a notification of the chain's tip (its header hex and height) is
/// in the list.
pub open spec fn tip_note_in(r: Seq<Notification>, chain: Chain) -> bool {
    exists|x: int|
        0 <= x < r.len() && ((#[trigger] r[x]) matches Notification::Tip { hex, height } && hex@
            == hex_bytes(header_bytes(chain.headers@.last().header)) && height
            == chain.headers@.len() - 1)
}

/// A server-initiated notification.
pub enum Notification {
    /// The status hash of a subscribed script hash changed.
    Status { scripthash: ScriptHash, statushash: Option<[u8; 32]> },
    /// The chain tip changed.
    Tip { hex: Vec<u8>, height: u64 },
}

impl Rpc {
    /// Re-evaluates every subscription of a client against the tracker and
    /// the client's recorded tip: every subscription is recomputed in place,
    /// one status notification is returned for each subscription whose hash
    /// changed (and only for those), and a tip notification is returned when
    /// the recorded tip moved.
    pub fn update_client(&self, client: &mut Client) -> (r: Vec<Notification>)
        requires
            self.wf(),
            old(client).wf(),
        ensures
            final(client).wf(),
            final(client).status@.len() == old(client).status@.len(),
            forall|i: int|
                0 <= i < final(client).status@.len() ==> (#[trigger] final(client).status@[i]).0
                    == old(client).status@[i].0,
            forall|i: int|
                0 <= i < final(client).status@.len() ==> self.tracker.status_refreshed(
                    old(client).status@[i].1,
                    (#[trigger] final(client).status@[i]).1,
                ),
            forall|x: int|
                0 <= x < r@.len() ==> #[trigger] note_ok(
                    old(client).status@,
                    final(client).status@,
                    r@[x],
                ),
            forall|i: int|
                0 <= i < final(client).status@.len() && old(client).status@[i].1.statushash != (
                #[trigger] final(client).status@[i]).1.statushash ==> status_note_in(
                    r@,
                    final(client).status@[i].0,
                    final(client).status@[i].1.statushash,
                ),
            old(client).tip is None ==> final(client).tip is None,
            (old(client).tip matches Some(t) && t.bytes@
                == self.tracker.index.chain.headers@.last().hash.bytes@) ==> final(client).tip
                == old(client).tip,
            (old(client).tip matches Some(t) && t.bytes@
                != self.tracker.index.chain.headers@.last().hash.bytes@) ==> (final(client).tip
                == Some(self.tracker.index.chain.headers@.last().hash) && tip_note_in(
                r@,
                self.tracker.index.chain,
            )),
    {
        let mut notifications: Vec<Notification> = Vec::new();
        let mut done: Vec<(ScriptHash, Status)> = Vec::new();
        while client.status.len() > 0
            invariant
                self.wf(),
                client.wf(),
                forall|x: int| 0 <= x < done@.len() ==> (#[trigger] done@[x]).1.wf(),
                done@.len() + client.status@.len() == old(client).status@.len(),
                client.tip == old(client).tip,
                forall|x: int|
                    0 <= x < done@.len() ==> (#[trigger] done@[x]).0 == old(client).status@[x].0,
                forall|x: int|
                    0 <= x < done@.len() ==> self.tracker.status_refreshed(
                        old(client).status@[x].1,
                        (#[trigger] done@[x]).1,
                    ),
                forall|x: int|
                    0 <= x < done@.len() && old(client).status@[x].1.statushash != (
                    #[trigger] done@[x]).1.statushash ==> status_note_in(
                        notifications@,
                        done@[x].0,
                        done@[x].1.statushash,
                    ),
                forall|x: int|
                    0 <= x < client.status@.len() ==> (#[trigger] client.status@[x]) == old(
                        client,
                    ).status@[done@.len() + x],
                forall|x: int|
                    0 <= x < notifications@.len() ==> #[trigger] note_ok(
                        old(client).status@,
                        done@,
                        notifications@[x],
                    ),
            decreases client.status@.len(),
        {
            let pair = client.status.remove(0);
            let sh = pair.0;
            let ghost prev_hash = pair.1.statushash;
            let mut status = pair.1;
            let changed = self.tracker.update_status(&mut status);
            let h = status.statushash();
            let ghost done_before = done@;
            done.push((sh, status));
            proof {
                assert(forall|x: int|
                    0 <= x < done_before.len() ==> #[trigger] done@[x] == done_before[x]);
                assert(done@[done_before.len() as int].0 == sh);
                assert(done@[done_before.len() as int].1.statushash == h);
                assert(done@[done_before.len() as int].1.wf());
                assert(sh == old(client).status@[done_before.len() as int].0);
                assert(self.tracker.status_refreshed(
                    old(client).status@[done_before.len() as int].1,
                    done@[done_before.len() as int].1,
                ));
                assert forall|x: int|
                    0 <= x < client.status@.len() implies (#[trigger] client.status@[x]) == old(
                    client,
                ).status@[done@.len() + x] by {}
            }
            proof {
                assert forall|x: int|
                    0 <= x < notifications@.len() implies #[trigger] note_ok(
                    old(client).status@,
                    done@,
                    notifications@[x],
                ) by {
                    lemma_note_ok_extend(
                        old(client).status@,
                        done_before,
                        done@,
                        notifications@[x],
                    );
                }
            }
            if changed {
                let ghost notes_before = notifications@;
                notifications.push(Notification::Status { scripthash: sh, statushash: h });
                proof {
                    assert(forall|x: int|
                        0 <= x < notes_before.len() ==> #[trigger] notifications@[x]
                            == notes_before[x]);
                    assert(notifications@.last() == Notification::Status {
                        scripthash: sh,
                        statushash: h,
                    });
                    assert(old(client).status@[done_before.len() as int].1.statushash
                        == prev_hash);
                    assert(note_ok(old(client).status@, done@, notifications@.last()));
                    assert(status_note_in(notifications@, sh, h));
                    assert forall|x: int|
                        0 <= x < done@.len() && old(client).status@[x].1.statushash != (
                        #[trigger] done@[x]).1.statushash implies status_note_in(
                        notifications@,
                        done@[x].0,
                        done@[x].1.statushash,
                    ) by {
                        if x < done_before.len() {
                            assert(status_note_in(
                                notes_before,
                                done_before[x].0,
                                done_before[x].1.statushash,
                            ));
                            let y = choose|y: int|
                                0 <= y < notes_before.len() && #[trigger] notes_before[y] == (
                                Notification::Status {
                                    scripthash: done_before[x].0,
                                    statushash: done_before[x].1.statushash,
                                });
                            assert(notifications@[y] == notes_before[y]);
                        }
                    }
                }
            } else {
                proof {
                    assert(prev_hash == h);
                }
            }
        }
        client.status = done;
        if let Some(old_tip) = client.tip {
            let chain = &self.tracker.index.chain;
            let new_tip = chain.tip();
            if !old_tip.same(&new_tip) {
                client.tip = Some(new_tip);
                let height = chain.height();
                let hdr = match chain.get_block_header(height) {
                    Some(hdr) => hdr,
                    None => {
                        proof {
                            assert(false);
                        }
                        return notifications;
                    },
                };
                let ser = serialize_header(&hdr);
                let ghost notes_before = notifications@;
                notifications.push(
                    Notification::Tip { hex: hex_encode(&ser), height: height as u64 },
                );
                proof {
                    assert(forall|x: int|
                        0 <= x < notes_before.len() ==> #[trigger] notifications@[x]
                            == notes_before[x]);
                    assert(note_ok(
                        old(client).status@,
                        client.status@,
                        notifications@.last(),
                    ));
                    assert(tip_note_in(notifications@, self.tracker.index.chain));
                    assert forall|x: int|
                        0 <= x < client.status@.len() && old(client).status@[x].1.statushash != (
                        #[trigger] client.status@[x]).1.statushash implies status_note_in(
                        notifications@,
                        client.status@[x].0,
                        client.status@[x].1.statushash,
                    ) by {
                        assert(status_note_in(
                            notes_before,
                            client.status@[x].0,
                            client.status@[x].1.statushash,
                        ));
                        let y = choose|y: int|
                            0 <= y < notes_before.len() && #[trigger] notes_before[y] == (
                            Notification::Status {
                                scripthash: client.status@[x].0,
                                statushash: client.status@[x].1.statushash,
                            });
                        assert(notifications@[y] == notes_before[y]);
                    }
                }
            }
        }
        notifications
    }
}

} // verus!
