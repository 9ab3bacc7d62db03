use electrs::chain::Chain;
use electrs::digest::script_hash;
use electrs::digest::sha256;
use electrs::digest::sha256d;
use electrs::encode::BlockHeader;
use electrs::encode::deserialize_header;
use electrs::encode::hex_decode;
use electrs::encode::hex_encode;
use electrs::encode::serialize_header;
use electrs::merkle::create_merkle_branch;
use electrs::merkle::fold_merkle_branch;
use electrs::merkle::merkle_root;
use electrs::types::BlockHash;

fn sha256d_ref(data: &[u8]) -> [u8; 32] {
    <bitcoin::hashes::sha256d::Hash as bitcoin::hashes::Hash>::to_byte_array(
        <bitcoin::hashes::sha256d::Hash as bitcoin::hashes::Hash>::hash(data),
    )
}

fn sha256_ref(data: &[u8]) -> [u8; 32] {
    <bitcoin::hashes::sha256::Hash as bitcoin::hashes::Hash>::to_byte_array(
        <bitcoin::hashes::sha256::Hash as bitcoin::hashes::Hash>::hash(data),
    )
}

fn bytes32(seed: u8) -> [u8; 32] {
    let mut b = [0u8; 32];
    let mut i = 0usize;
    while i < 32 {
        b[i] = seed.wrapping_add(i as u8);
        i += 1;
    }
    b
}

fn sample_header() -> BlockHeader {
    BlockHeader {
        version: 0x20000000,
        prev_blockhash: BlockHash { bytes: bytes32(7) },
        merkle_root: bytes32(99),
        time: 1_700_000_000,
        bits: 0x1d00ffff,
        nonce: 0xdeadbeef,
    }
}

#[test]
fn header_round_trip() {
    let h = sample_header();
    let ser = serialize_header(&h);
    assert_eq!(ser.len(), 80);
    let back = deserialize_header(&ser).expect("80 bytes must deserialize");
    assert_eq!(serialize_header(&back), ser);
    assert_eq!(back.version, h.version);
    assert_eq!(back.prev_blockhash.bytes, h.prev_blockhash.bytes);
    assert_eq!(back.merkle_root, h.merkle_root);
    assert_eq!(back.time, h.time);
    assert_eq!(back.bits, h.bits);
    assert_eq!(back.nonce, h.nonce);
}

#[test]
fn header_rejects_wrong_length() {
    let h = sample_header();
    let mut ser = serialize_header(&h);
    ser.push(0);
    assert!(deserialize_header(&ser).is_none());
    ser.truncate(79);
    assert!(deserialize_header(&ser).is_none());
}

#[test]
fn header_encoding_matches_consensus() {
    let h = sample_header();
    let ours = serialize_header(&h);
    let theirs = bitcoin::consensus::encode::serialize(&bitcoin::block::Header {
        version: bitcoin::block::Version::from_consensus(h.version as i32),
        prev_blockhash: <bitcoin::BlockHash as bitcoin::hashes::Hash>::from_byte_array(h.prev_blockhash.bytes),
        merkle_root: <bitcoin::TxMerkleNode as bitcoin::hashes::Hash>::from_byte_array(h.merkle_root),
        time: h.time,
        bits: bitcoin::CompactTarget::from_consensus(h.bits),
        nonce: h.nonce,
    });
    assert_eq!(ours, theirs);
}

#[test]
fn hex_round_trip() {
    let data: Vec<u8> = vec![0x00, 0x0f, 0xf0, 0xab, 0x7c, 0xff];
    let hex = hex_encode(&data);
    assert_eq!(String::from_utf8(hex.clone()).unwrap(), "000ff0ab7cff");
    let back = hex_decode(&hex).expect("well-formed hex");
    assert_eq!(back, data);
    let upper: Vec<u8> = "000FF0AB7CFF".bytes().collect();
    assert_eq!(hex_decode(&upper).expect("upper-case hex"), data);
    let odd: Vec<u8> = "abc".bytes().collect();
    assert!(hex_decode(&odd).is_none());
    let junk: Vec<u8> = "zz".bytes().collect();
    assert!(hex_decode(&junk).is_none());
}

#[test]
fn sha256_known_vector() {
    let empty: Vec<u8> = Vec::new();
    let digest = sha256(&empty);
    let hex = hex_encode(&digest.to_vec());
    assert_eq!(
        String::from_utf8(hex).unwrap(),
        "e3b0c44298fc1c149afbf4c8996fb92427ae41e4649b934ca495991b7852b855"
    );
}

#[test]
fn sha256d_matches_reference() {
    let data: Vec<u8> = vec![1, 2, 3, 4, 5];
    let ours = sha256d(&data);
    let theirs = sha256d_ref(&data);
    assert_eq!(ours, theirs);
}

#[test]
fn script_hash_is_stable_and_reversed() {
    let script: Vec<u8> = vec![0x76, 0xa9, 0x14, 0x11, 0x22, 0x33];
    let a = script_hash(&script);
    let b = script_hash(&script);
    assert_eq!(a.bytes, b.bytes);
    let digest = sha256d_ref(&script);
    let mut reversed = digest;
    reversed.reverse();
    assert_eq!(a.bytes, reversed);
}

#[test]
fn merkle_branch_folds_to_root() {
    for n in 1usize..=7 {
        let mut leaves: Vec<[u8; 32]> = Vec::new();
        for k in 0..n {
            leaves.push(bytes32((k * 11 + 1) as u8));
        }
        let root = merkle_root(&leaves);
        for pos in 0..n {
            let branch = create_merkle_branch(&leaves, pos);
            let folded = fold_merkle_branch(&leaves[pos], &branch, pos);
            assert_eq!(folded, root, "leaf {} of {}", pos, n);
        }
    }
}

#[test]
fn merkle_root_matches_reference() {
    for n in 1usize..=6 {
        let mut leaves: Vec<[u8; 32]> = Vec::new();
        for k in 0..n {
            leaves.push(bytes32((k * 17 + 3) as u8));
        }
        let ours = merkle_root(&leaves);
        let theirs: Option<bitcoin::TxMerkleNode> = bitcoin::merkle_tree::calculate_root(
            leaves.iter().map(|b| <bitcoin::TxMerkleNode as bitcoin::hashes::Hash>::from_byte_array(*b)),
        );
        assert_eq!(ours, <bitcoin::TxMerkleNode as bitcoin::hashes::Hash>::to_byte_array(theirs.unwrap()), "width {}", n);
    }
}

fn child_of(parent: &BlockHeader, nonce: u32) -> BlockHeader {
    let hash = electrs::chain::compute_block_hash(parent);
    BlockHeader {
        version: 0x20000000,
        prev_blockhash: hash,
        merkle_root: bytes32(nonce as u8),
        time: 1_700_000_000 + nonce,
        bits: 0x207fffff,
        nonce,
    }
}

#[test]
fn chain_appends_and_reorgs() {
    let genesis = sample_header();
    let mut chain = Chain::new(genesis);
    assert_eq!(chain.height(), 0);

    let h1 = child_of(&genesis, 1);
    let h2 = child_of(&h1, 2);
    chain.update(&vec![h1, h2]).expect("anchored headers");
    assert_eq!(chain.height(), 2);
    assert_eq!(chain.tip().bytes, electrs::chain::compute_block_hash(&h2).bytes);

    // A reorg of depth one: a different block at height 2, plus one more.
    let h2b = child_of(&h1, 22);
    let h3b = child_of(&h2b, 33);
    chain.update(&vec![h2b, h3b]).expect("reorg anchored at height 1");
    assert_eq!(chain.height(), 3);
    assert_eq!(chain.tip().bytes, electrs::chain::compute_block_hash(&h3b).bytes);

    // Unanchored headers are rejected and change nothing.
    let orphan = BlockHeader {
        version: 1,
        prev_blockhash: BlockHash { bytes: bytes32(200) },
        merkle_root: bytes32(0),
        time: 0,
        bits: 0,
        nonce: 0,
    };
    assert!(chain.update(&vec![orphan]).is_err());
    assert_eq!(chain.height(), 3);
}

#[test]
fn chain_lookups_and_locator() {
    let genesis = sample_header();
    let mut chain = Chain::new(genesis);
    let mut prev = genesis;
    let mut headers = Vec::new();
    for k in 1..=9u32 {
        let h = child_of(&prev, k);
        headers.push(h);
        prev = h;
    }
    chain.update(&headers).expect("anchored");
    assert_eq!(chain.height(), 9);
    let tip = chain.tip();
    assert_eq!(chain.get_block_height(&tip), Some(9));
    assert_eq!(chain.get_block_hash(9).unwrap().bytes, tip.bytes);
    assert!(chain.get_block_hash(10).is_none());
    assert!(chain.get_block_header(10).is_none());

    // Offsets 0, 1, 2, 4, 8 below the tip, then genesis.
    let locator = chain.locator();
    let heights: Vec<usize> = vec![9, 8, 7, 5, 1, 0];
    assert_eq!(locator.len(), heights.len());
    for (l, h) in locator.iter().zip(heights.iter()) {
        assert_eq!(l.bytes, chain.get_block_hash(*h).unwrap().bytes);
    }
}
