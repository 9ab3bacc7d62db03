use electrs::cache::CachedTx;
use electrs::chain::compute_block_hash;
use electrs::electrum::Client;
use electrs::electrum::Outcome;
use electrs::electrum::Rpc;
use electrs::electrum::RpcError;
use electrs::electrum::RpcValue;
use electrs::electrum::UpstreamAction;
use electrs::electrum::VersionParam;
use electrs::encode::BlockHeader;
use electrs::encode::hex_encode;
use electrs::encode::serialize_header;
use electrs::digest::script_hash;
use electrs::index::BlockTx;
use electrs::mempool::Entry;
use electrs::status::compute_status_hash;
use electrs::tracker::Tracker;
use electrs::types::BlockHash;
use electrs::types::OutPoint;
use electrs::types::ScriptHash;
use electrs::types::TxData;
use electrs::types::TxOut;
use electrs::types::Txid;

fn sha256d_ref(data: &[u8]) -> [u8; 32] {
    <bitcoin::hashes::sha256d::Hash as bitcoin::hashes::Hash>::to_byte_array(
        <bitcoin::hashes::sha256d::Hash as bitcoin::hashes::Hash>::hash(data),
    )
}

fn sha256_ref(data: &[u8]) -> [u8; 32] {
    <bitcoin::hashes::sha256::Hash as bitcoin::hashes::Hash>::to_byte_array(
        <bitcoin::hashes::sha256::Hash as bitcoin::hashes::Hash>::hash(data),
    )
}

fn bytes32(seed: u8) -> [u8; 32] {
    let mut b = [0u8; 32];
    let mut i = 0usize;
    while i < 32 {
        b[i] = seed.wrapping_add(i as u8);
        i += 1;
    }
    b
}

fn genesis() -> BlockHeader {
    BlockHeader {
        version: 1,
        prev_blockhash: BlockHash { bytes: [0u8; 32] },
        merkle_root: [0u8; 32],
        time: 1_296_688_602,
        bits: 0x207fffff,
        nonce: 2,
    }
}

fn child_of(parent: &BlockHeader, nonce: u32) -> BlockHeader {
    BlockHeader {
        version: 0x20000000,
        prev_blockhash: compute_block_hash(parent),
        merkle_root: bytes32(nonce as u8),
        time: 1_700_000_000 + nonce,
        bits: 0x207fffff,
        nonce,
    }
}

fn coinbase_tx(seed: u8) -> BlockTx {
    BlockTx {
        txid: Txid { bytes: bytes32(seed) },
        tx: TxData {
            inputs: vec![OutPoint { txid: Txid { bytes: [0u8; 32] }, vout: 0xffffffff }],
            outputs: vec![TxOut { script: vec![0x51], value: 50_0000_0000 }],
        },
    }
}

fn paying_tx(seed: u8, script: &[u8], value: u64) -> BlockTx {
    BlockTx {
        txid: Txid { bytes: bytes32(seed) },
        tx: TxData {
            inputs: vec![OutPoint { txid: Txid { bytes: [0u8; 32] }, vout: 0xffffffff }],
            outputs: vec![TxOut { script: script.to_vec(), value }],
        },
    }
}

/// The display hexadecimal of a transaction id: its bytes reversed.
fn txid_display_hex(txid: &Txid) -> String {
    let mut rev = txid.bytes;
    rev.reverse();
    let mut s = String::new();
    for b in rev.iter() {
        s.push_str(&format!("{:02x}", b));
    }
    s
}

#[test]
fn version_negotiation() {
    let rpc = Rpc::new(Tracker::new(genesis()));
    let ok = rpc.version(&VersionParam::Single("1.4".to_owned()));
    match ok {
        Ok(RpcValue::VersionInfo { server_id, protocol }) => {
            assert_eq!(server_id, "electrs/0.1.0");
            assert_eq!(protocol, "1.4");
        }
        _ => panic!("single 1.4 must be accepted"),
    }
    assert!(matches!(
        rpc.version(&VersionParam::Single("1.5".to_owned())),
        Err(RpcError::UnsupportedVersion)
    ));
    assert!(matches!(
        rpc.version(&VersionParam::Range("1.1".to_owned(), "1.4".to_owned())),
        Err(RpcError::UnsupportedVersion)
    ));
}

#[test]
fn headers_chunk_is_truncated_and_capped() {
    let g = genesis();
    let mut tracker = Tracker::new(g);
    let mut prev = g;
    let mut batch: Vec<BlockHeader> = Vec::new();
    for k in 1..=2100u32 {
        let h = child_of(&prev, k);
        batch.push(h);
        prev = h;
    }
    tracker.sync_headers(&batch).expect("anchored");
    let rpc = Rpc::new(tracker);

    // Truncated: start + count goes past the tip.
    match rpc.block_headers(2095, 50) {
        Ok(RpcValue::HeadersChunk { count, hex, max }) => {
            assert_eq!(count, 6);
            assert_eq!(max, 2016);
            assert_eq!(hex.len(), 6 * 160);
        }
        _ => panic!("chunk expected"),
    }
    // Capped at 2016.
    match rpc.block_headers(0, 5000) {
        Ok(RpcValue::HeadersChunk { count, hex, max }) => {
            assert_eq!(count, 2016);
            assert_eq!(max, 2016);
            assert_eq!(hex.len(), 2016 * 160);
        }
        _ => panic!("chunk expected"),
    }
    // A start height beyond the tip truncates the count to zero.
    match rpc.block_headers(2101, 1) {
        Ok(RpcValue::HeadersChunk { count, hex, max }) => {
            assert_eq!(count, 0);
            assert!(hex.is_empty());
            assert_eq!(max, 2016);
        }
        _ => panic!("empty chunk expected"),
    }
    assert!(matches!(rpc.block_header(2101), Err(RpcError::NoHeaderAtHeight)));
}

#[test]
fn fresh_start_serves_genesis_tip() {
    let g = genesis();
    let tracker = Tracker::new(g);
    let rpc = Rpc::new(tracker);
    let mut client = Client::new();
    let tip = rpc.headers_subscribe(&mut client);
    match tip {
        RpcValue::TipInfo { hex, height } => {
            assert_eq!(height, 0);
            assert_eq!(hex, hex_encode(&serialize_header(&g)));
        }
        _ => panic!("tip info expected"),
    }
}

#[test]
fn subscribe_then_confirm_notifies_expected_hash() {
    let g = genesis();
    let mut tracker = Tracker::new(g);
    let script: Vec<u8> = vec![0x00, 0x14, 0xaa, 0xbb];
    let sh: ScriptHash = script_hash(&script);

    // Index the genesis block first; nothing pays the script yet.
    let bh0 = tracker.chain().get_block_hash(0).unwrap();
    tracker.index.index_block(bh0, &vec![coinbase_tx(10)]).unwrap();

    let rpc = Rpc::new(tracker);
    let mut client = Client::new();
    let first = rpc.scripthash_subscribe(&mut client, &sh);
    match first {
        RpcValue::StatusHash(h) => assert!(h.is_none(), "fresh status hash is null"),
        _ => panic!("status hash expected"),
    }

    // Mine a block paying the script at height 1, position 1.
    let mut rpc = rpc;
    let h1 = child_of(&g, 1);
    rpc.tracker.sync_headers(&vec![h1]).unwrap();
    let bh1 = rpc.tracker.chain().get_block_hash(1).unwrap();
    let funding = BlockTx {
        txid: Txid { bytes: bytes32(42) },
        tx: TxData {
            inputs: vec![OutPoint { txid: Txid { bytes: bytes32(10) }, vout: 0 }],
            outputs: vec![TxOut { script: script.clone(), value: 7 }],
        },
    };
    rpc.tracker.index.index_block(bh1, &vec![coinbase_tx(11), funding]).unwrap();

    let notifications = rpc.update_client(&mut client);
    assert_eq!(notifications.len(), 1);
    let got = match &notifications[0] {
        electrs::electrum::Notification::Status { scripthash, statushash } => {
            assert_eq!(scripthash.bytes, sh.bytes);
            statushash.expect("hash must be set after a confirmation")
        }
        _ => panic!("status notification expected"),
    };
    let framed = format!("{}:1:", txid_display_hex(&Txid { bytes: bytes32(42) }));
    let expected = sha256_ref(framed.as_bytes());
    assert_eq!(got, expected);
}

#[test]
fn two_clients_get_identical_status() {
    let g = genesis();
    let mut tracker = Tracker::new(g);
    let script: Vec<u8> = vec![0x51, 0x52];
    let sh = script_hash(&script);
    let bh0 = tracker.chain().get_block_hash(0).unwrap();
    tracker.index.index_block(bh0, &vec![coinbase_tx(10)]).unwrap();
    let h1 = child_of(&g, 1);
    tracker.sync_headers(&vec![h1]).unwrap();
    let bh1 = tracker.chain().get_block_hash(1).unwrap();
    tracker
        .index
        .index_block(bh1, &vec![coinbase_tx(11), paying_tx(55, &script, 9)])
        .unwrap();

    let rpc = Rpc::new(tracker);
    let mut a = Client::new();
    let mut b = Client::new();
    rpc.scripthash_subscribe(&mut a, &sh);
    rpc.scripthash_subscribe(&mut b, &sh);
    let na = rpc.update_client(&mut a);
    let nb = rpc.update_client(&mut b);
    let ha = match &na[0] {
        electrs::electrum::Notification::Status { statushash, .. } => statushash.unwrap(),
        _ => panic!(),
    };
    let hb = match &nb[0] {
        electrs::electrum::Notification::Status { statushash, .. } => statushash.unwrap(),
        _ => panic!(),
    };
    assert_eq!(ha, hb);
}

#[test]
fn reorg_replaces_history() {
    let g = genesis();
    let mut tracker = Tracker::new(g);
    let script: Vec<u8> = vec![0x53];
    let sh = script_hash(&script);
    let h1 = child_of(&g, 1);
    let h2 = child_of(&h1, 2);
    tracker.sync_headers(&vec![h1, h2]).unwrap();
    let bh0 = tracker.chain().get_block_hash(0).unwrap();
    let bh1 = tracker.chain().get_block_hash(1).unwrap();
    let bh2 = tracker.chain().get_block_hash(2).unwrap();
    tracker.index.index_block(bh0, &vec![coinbase_tx(10)]).unwrap();
    tracker.index.index_block(bh1, &vec![coinbase_tx(11)]).unwrap();
    tracker
        .index
        .index_block(bh2, &vec![coinbase_tx(12), paying_tx(77, &script, 3)])
        .unwrap();
    assert_eq!(tracker.index.filter_by_scripthash(&sh).len(), 1);

    // Replace heights 1 and 2; the new branch does not pay the script.
    let h1b = child_of(&g, 21);
    let h2b = child_of(&h1b, 22);
    tracker.sync_headers(&vec![h1b, h2b]).unwrap();
    assert_eq!(tracker.index.next_height(), 1, "replaced heights are forgotten");
    let nb1 = tracker.chain().get_block_hash(1).unwrap();
    let nb2 = tracker.chain().get_block_hash(2).unwrap();
    tracker.index.index_block(nb1, &vec![coinbase_tx(31)]).unwrap();
    tracker.index.index_block(nb2, &vec![coinbase_tx(32)]).unwrap();

    // The stale rows are filtered out by chain membership.
    assert_eq!(tracker.index.filter_by_scripthash(&sh).len(), 0);
    let surviving = script_hash(&vec![0x51]);
    assert!(tracker.index.filter_by_scripthash(&surviving).len() >= 1);
}

fn mem_entry(seed: u8, script: &[u8], fee: u64, vsize: u64, unconf: bool) -> Entry {
    Entry {
        txid: Txid { bytes: bytes32(seed) },
        raw: vec![seed],
        tx: TxData {
            inputs: vec![OutPoint { txid: Txid { bytes: bytes32(200) }, vout: 0 }],
            outputs: vec![TxOut { script: script.to_vec(), value: 1 }],
        },
        fee,
        vsize,
        has_unconfirmed_inputs: unconf,
    }
}

#[test]
fn mempool_sync_and_histogram() {
    let mut tracker = Tracker::new(genesis());
    let script: Vec<u8> = vec![0x54];
    let t1 = mem_entry(1, &script, 100, 10, false);
    let t2 = mem_entry(2, &script, 50, 10, false);
    let t3 = mem_entry(3, &script, 30, 3, false);
    let txids = vec![t1.txid, t2.txid, t3.txid];
    tracker.mempool.sync(&txids, vec![t1, t2, t3]);
    assert_eq!(tracker.mempool.entries.len(), 3);

    // Rates 10, 5, 10: two buckets, descending, sizes summed.
    let histogram = tracker.mempool.fee_histogram();
    assert_eq!(histogram, vec![(10, 13), (5, 10)]);

    // The node dropped one transaction: the mirror follows.
    let keep = vec![Txid { bytes: bytes32(1) }, Txid { bytes: bytes32(3) }];
    tracker.mempool.sync(&keep, vec![]);
    assert_eq!(tracker.mempool.entries.len(), 2);
    assert!(tracker.mempool.get(&Txid { bytes: bytes32(2) }).is_none());
    assert!(tracker.mempool.get(&Txid { bytes: bytes32(1) }).is_some());
}

#[test]
fn unconfirmed_chain_appears_with_negative_height() {
    let g = genesis();
    let mut tracker = Tracker::new(g);
    let script: Vec<u8> = vec![0x55, 0x66];
    let sh = script_hash(&script);

    // t1 pays the script; t2 spends t1's unconfirmed output.
    let t1 = Entry {
        txid: Txid { bytes: bytes32(1) },
        raw: vec![1],
        tx: TxData {
            inputs: vec![OutPoint { txid: Txid { bytes: bytes32(201) }, vout: 0 }],
            outputs: vec![TxOut { script: script.clone(), value: 5 }],
        },
        fee: 10,
        vsize: 100,
        has_unconfirmed_inputs: false,
    };
    let t2 = Entry {
        txid: Txid { bytes: bytes32(2) },
        raw: vec![2],
        tx: TxData {
            inputs: vec![OutPoint { txid: Txid { bytes: bytes32(1) }, vout: 0 }],
            outputs: vec![TxOut { script: vec![0x6a], value: 4 }],
        },
        fee: 11,
        vsize: 110,
        has_unconfirmed_inputs: true,
    };
    let txids = vec![t1.txid, t2.txid];
    tracker.mempool.sync(&txids, vec![t1, t2]);

    let mut status = tracker.subscribe(sh);
    let changed = tracker.update_status(&mut status);
    assert!(changed);
    assert!(status.statushash.is_some());
    let history = tracker.get_history(&status);
    assert_eq!(history.len(), 2);
    // Sorted by effective height: the chained spend (-1) before the payer (0).
    assert_eq!(history[0].height, -1);
    assert_eq!(history[0].txid.bytes, bytes32(2));
    assert_eq!(history[0].fee, Some(11));
    assert_eq!(history[1].height, 0);
    assert_eq!(history[1].txid.bytes, bytes32(1));
    assert_eq!(history[1].fee, Some(10));

    // Recomputing without any change reports no change.
    let changed_again = tracker.update_status(&mut status);
    assert!(!changed_again);
}

#[test]
fn empty_status_hash_is_null() {
    let confirmed = Vec::new();
    let mempool = Vec::new();
    assert!(compute_status_hash(&confirmed, &mempool).is_none());
}

#[test]
fn transaction_get_uses_cache_then_upstream() {
    let mut tracker = Tracker::new(genesis());
    let txid = Txid { bytes: bytes32(9) };
    let raw: Vec<u8> = vec![0xca, 0xfe];
    tracker.cache.add_tx(CachedTx {
        txid,
        raw: raw.clone(),
        tx: TxData { inputs: vec![], outputs: vec![] },
    });
    let rpc = Rpc::new(tracker);
    match rpc.transaction_get(&txid, false) {
        Outcome::Done(Ok(RpcValue::TxHex(hex))) => {
            assert_eq!(hex, hex_encode(&raw));
        }
        _ => panic!("cache hit must answer directly"),
    }
    let missing = Txid { bytes: bytes32(77) };
    match rpc.transaction_get(&missing, false) {
        Outcome::Upstream(UpstreamAction::FetchTransaction { txid: t, verbose }) => {
            assert_eq!(t.bytes, missing.bytes);
            assert!(!verbose);
        }
        _ => panic!("cache miss must go upstream"),
    }
}

#[test]
fn broadcast_validates_hex_and_decoding() {
    let rpc = Rpc::new(Tracker::new(genesis()));
    let junk: Vec<u8> = "zz".bytes().collect();
    assert!(matches!(
        rpc.transaction_broadcast(&junk),
        Outcome::Done(Err(RpcError::NonHexTransaction))
    ));
    let hex_but_bad: Vec<u8> = "00".bytes().collect();
    assert!(matches!(
        rpc.transaction_broadcast(&hex_but_bad),
        Outcome::Done(Err(RpcError::InvalidTransaction))
    ));
    // A real transaction round-trips to an upstream broadcast action.
    let tx = bitcoin::Transaction {
        version: bitcoin::transaction::Version::ONE,
        lock_time: bitcoin::absolute::LockTime::ZERO,
        input: vec![bitcoin::TxIn {
            previous_output: bitcoin::OutPoint {
                txid: <bitcoin::Txid as bitcoin::hashes::Hash>::from_byte_array(bytes32(1)),
                vout: 0,
            },
            script_sig: bitcoin::ScriptBuf::new(),
            sequence: bitcoin::Sequence::MAX,
            witness: bitcoin::Witness::new(),
        }],
        output: vec![bitcoin::TxOut {
            value: bitcoin::Amount::from_sat(1000),
            script_pubkey: bitcoin::ScriptBuf::new(),
        }],
    };
    let raw = bitcoin::consensus::encode::serialize(&tx);
    let tx_hex = hex_encode(&raw);
    match rpc.transaction_broadcast(&tx_hex) {
        Outcome::Upstream(UpstreamAction::Broadcast { raw: sent }) => assert_eq!(sent, raw),
        _ => panic!("valid transaction must go upstream"),
    }
}

#[test]
fn merkle_proof_round_trips_through_dispatcher() {
    let mut tracker = Tracker::new(genesis());
    let txids: Vec<Txid> = (0u8..5).map(|k| Txid { bytes: bytes32(k * 7 + 1) }).collect();
    let bh0 = tracker.chain().get_block_hash(0).unwrap();
    tracker.cache.add_txids(electrs::cache::CachedTxids { blockhash: bh0, txids: txids.clone() });
    let rpc = Rpc::new(tracker);
    let wanted = txids[3];
    match rpc.transaction_get_merkle(&wanted, 0) {
        Ok(Outcome::Done(Ok(RpcValue::MerkleProof { block_height, pos, merkle }))) => {
            assert_eq!(block_height, 0);
            assert_eq!(pos, 3);
            // Fold the reported path and compare with the reference root.
            let leaves: Vec<[u8; 32]> = txids.iter().map(|t| t.bytes).collect();
            let root = electrs::merkle::merkle_root(&leaves);
            let mut branch: Vec<[u8; 32]> = Vec::new();
            for node_hex in merkle.iter() {
                let bytes = electrs::encode::hex_decode(node_hex).unwrap();
                let mut node = [0u8; 32];
                node.copy_from_slice(&bytes);
                node.reverse();
                branch.push(node);
            }
            let folded =
                electrs::merkle::fold_merkle_branch(&wanted.bytes, &branch, pos as usize);
            assert_eq!(folded, root);
        }
        _ => panic!("merkle proof expected"),
    }
    // A transaction that is not in the block is an error.
    let absent = Txid { bytes: bytes32(250) };
    assert!(matches!(
        rpc.transaction_get_merkle(&absent, 0),
        Ok(Outcome::Done(Err(RpcError::TransactionNotInBlock)))
    ));
}

#[test]
fn duplicate_outputs_collapse_to_one_entry() {
    let g = genesis();
    let mut tracker = Tracker::new(g);
    let script: Vec<u8> = vec![0x57, 0x58];
    let sh = script_hash(&script);
    let bh0 = tracker.chain().get_block_hash(0).unwrap();
    // One transaction paying the same script in two outputs.
    let twice = BlockTx {
        txid: Txid { bytes: bytes32(42) },
        tx: TxData {
            inputs: vec![OutPoint { txid: Txid { bytes: [0u8; 32] }, vout: 0xffffffff }],
            outputs: vec![
                TxOut { script: script.clone(), value: 1 },
                TxOut { script: script.clone(), value: 2 },
            ],
        },
    };
    tracker.index.index_block(bh0, &vec![twice]).unwrap();
    let entries = tracker.index.filter_by_scripthash(&sh);
    assert_eq!(entries.len(), 1, "duplicate outputs collapse to one history row");
    // The status hash frames the transaction once.
    let mut status = tracker.subscribe(sh);
    tracker.update_status(&mut status);
    let framed = format!("{}:0:", txid_display_hex(&Txid { bytes: bytes32(42) }));
    let expected = sha256_ref(framed.as_bytes());
    assert_eq!(status.statushash.unwrap(), expected);
}

#[test]
fn mempool_collapses_duplicate_pairs()  {
    let mut tracker = Tracker::new(genesis());
    let script: Vec<u8> = vec![0x59];
    let op = OutPoint { txid: Txid { bytes: bytes32(210) }, vout: 1 };
    // Two outputs with the same script, and the same outpoint spent twice.
    let e = Entry {
        txid: Txid { bytes: bytes32(5) },
        raw: vec![5],
        tx: TxData {
            inputs: vec![op, op],
            outputs: vec![
                TxOut { script: script.clone(), value: 1 },
                TxOut { script: script.clone(), value: 2 },
            ],
        },
        fee: 9,
        vsize: 90,
        has_unconfirmed_inputs: false,
    };
    let txids = vec![e.txid];
    tracker.mempool.sync(&txids, vec![e]);
    assert_eq!(tracker.mempool.by_funding.len(), 1, "one funding pair per script per tx");
    assert_eq!(tracker.mempool.by_spending.len(), 1, "one spending pair per outpoint per tx");
    let sh = script_hash(&script);
    assert_eq!(tracker.mempool.filter_by_funding(&sh).len(), 1);
}
