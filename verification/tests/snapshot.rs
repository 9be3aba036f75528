//! End-to-end tests of the snapshot core: the codec, the manifest, the
//! chunkers, and the consumer-side chunk check.

use tiny_keccak::Hasher;

use chainsnap::block::{chunk_blocks, chunk_blocks_with, BlockData};
use chainsnap::chunk::verify_chunk;
use chainsnap::error::{Error, TrieError};
use chainsnap::hash::{to_hex, H256};
use chainsnap::manifest::ManifestData;
use chainsnap::rlp::{DecoderError, Item};
use chainsnap::state::{chunk_state, AccountEntry, AccountReader, StoragePair};

fn h(n: u8) -> H256 {
    let mut bytes = vec![0u8; 32];
    bytes[31] = n;
    H256::from_vec(bytes)
}

fn keccak(data: &[u8]) -> Vec<u8> {
    let mut state = tiny_keccak::Keccak::v256();
    state.update(data);
    let mut out = [0u8; 32];
    state.finalize(&mut out);
    out.to_vec()
}

fn hex(data: &[u8]) -> String {
    let mut s = String::new();
    for b in data {
        s.push_str(&format!("{:02x}", b));
    }
    s
}

fn empty_code_hash_bytes() -> Vec<u8> {
    chainsnap::state::empty_code_hash_exec().bytes
}

#[test]
fn codec_round_trip() {
    let value = Item::List(vec![
        Item::Bytes(vec![]),
        Item::Bytes(vec![0x05]),
        Item::Bytes(vec![0x80]),
        Item::Bytes(vec![7u8; 60]),
        Item::List(vec![Item::Bytes(vec![1, 2, 3]), Item::List(vec![])]),
    ]);
    let encoded = value.encode();
    let decoded = Item::decode(&encoded).unwrap();
    assert_eq!(encoded, decoded.encode());

    let single = Item::Bytes(vec![0x07]);
    assert_eq!(single.encode(), vec![0x07]);
    let decoded_single = Item::decode(&vec![0x07]).unwrap();
    assert_eq!(decoded_single.encode(), vec![0x07]);
}

#[test]
fn codec_rejects_malformed() {
    // announced length passes the end of the input
    assert_eq!(Item::decode(&vec![0x83, 1, 2]), Err(DecoderError::ShortInput));
    // a single byte below 0x80 must stand for itself
    assert_eq!(Item::decode(&vec![0x81, 0x05]), Err(DecoderError::NonCanonical));
    // long form used for a short string
    assert_eq!(
        Item::decode(&vec![0xb8, 0x01, 0x99]),
        Err(DecoderError::NonCanonical)
    );
    // bytes after the outermost value
    assert_eq!(Item::decode(&vec![0x05, 0x06]), Err(DecoderError::TrailingBytes));
    // empty input
    assert_eq!(Item::decode(&vec![]), Err(DecoderError::ShortInput));
}

#[test]
fn codec_rejects_deep_nesting() {
    let mut item = Item::Bytes(vec![1]);
    let mut depth = 0;
    while depth < 70 {
        item = Item::List(vec![item]);
        depth += 1;
    }
    let encoded = item.encode();
    assert_eq!(Item::decode(&encoded), Err(DecoderError::TooDeep));
}

#[test]
fn manifest_round_trip() {
    let manifest = ManifestData {
        state_hashes: vec![h(1)],
        block_hashes: vec![h(2), h(3)],
        state_root: h(4),
    };
    let raw = ManifestData {
        state_hashes: vec![h(1)],
        block_hashes: vec![h(2), h(3)],
        state_root: h(4),
    }
    .to_rlp();
    let restored = ManifestData::from_rlp(&raw).unwrap();
    assert_eq!(restored.state_hashes.len(), 1);
    assert_eq!(restored.block_hashes.len(), 2);
    assert_eq!(restored.state_hashes[0].bytes, manifest.state_hashes[0].bytes);
    assert_eq!(restored.block_hashes[0].bytes, manifest.block_hashes[0].bytes);
    assert_eq!(restored.block_hashes[1].bytes, manifest.block_hashes[1].bytes);
    assert_eq!(restored.state_root.bytes, manifest.state_root.bytes);
}

#[test]
fn manifest_rejects_wrong_shape() {
    let not_a_list = Item::Bytes(vec![1, 2, 3]).encode();
    assert_eq!(
        ManifestData::from_rlp(&not_a_list),
        Err(DecoderError::UnexpectedShape)
    );
    let two_items = Item::List(vec![Item::List(vec![]), Item::List(vec![])]).encode();
    assert_eq!(
        ManifestData::from_rlp(&two_items),
        Err(DecoderError::UnexpectedShape)
    );
}

fn thin_rlp(nonce: Vec<u8>, balance: Vec<u8>, root: &H256, code_hash: Vec<u8>) -> Vec<u8> {
    Item::List(vec![
        Item::Bytes(nonce),
        Item::Bytes(balance),
        Item::Bytes(root.bytes.clone()),
        Item::Bytes(code_hash),
    ])
    .encode()
}

#[test]
fn single_account_state_chunk() {
    // nonce and balance zero encode as empty canonical integers
    let entry = AccountEntry {
        key: h(9),
        thin_rlp: thin_rlp(vec![], vec![], &h(5), empty_code_hash_bytes()),
        storage: vec![],
        code: None,
    };
    let (hashes, files) = chunk_state(&vec![entry]).unwrap();
    assert_eq!(hashes.len(), 1);
    assert_eq!(files.len(), 1);

    // the file name is the lowercase hexadecimal of the digest of the
    // compressed bytes
    let digest = keccak(&files[0].data);
    assert_eq!(files[0].hash.bytes, digest);
    assert_eq!(String::from_utf8(files[0].name.clone()).unwrap(), hex(&digest));

    // the chunk holds one pair: the account key beside the fat form with
    // no code and an empty storage list
    let raw = verify_chunk(&files[0].data, &files[0].hash).unwrap();
    let chunk_item = Item::decode(&raw).unwrap();
    match chunk_item {
        Item::List(pairs) => {
            assert_eq!(pairs.len(), 1);
            match &pairs[0] {
                Item::Bytes(pair_bytes) => {
                    let pair = Item::decode(pair_bytes).unwrap();
                    match pair {
                        Item::List(kv) => {
                            assert_eq!(kv.len(), 2);
                            assert_eq!(kv[0], Item::Bytes(h(9).bytes));
                            let fat_bytes = match &kv[1] {
                                Item::Bytes(b) => b.clone(),
                                _ => panic!("fat form must be a byte string"),
                            };
                            let fat = Item::decode(&fat_bytes).unwrap();
                            let expected = Item::List(vec![
                                Item::Bytes(vec![]),
                                Item::Bytes(vec![]),
                                Item::Bytes(h(5).bytes),
                                Item::List(vec![
                                    Item::Bytes(vec![0u8]),
                                    Item::Bytes(vec![]),
                                ]),
                                Item::Bytes(Item::List(vec![]).encode()),
                            ]);
                            assert_eq!(fat, expected);
                        },
                        _ => panic!("pair must be a list"),
                    }
                },
                _ => panic!("pair must be wrapped as a byte string"),
            }
        },
        _ => panic!("chunk must be a list"),
    }
}

#[test]
fn account_with_code_inlines_it() {
    let code = vec![0x60, 0x60, 0x60];
    let code_hash = keccak(&code);
    let entry = AccountEntry {
        key: h(9),
        thin_rlp: thin_rlp(vec![1], vec![2], &h(5), code_hash),
        storage: vec![StoragePair { key: vec![0x11], value: vec![0x22] }],
        code: Some(code.clone()),
    };
    let (_, files) = chunk_state(&vec![entry]).unwrap();
    assert_eq!(files.len(), 1);
    let raw = verify_chunk(&files[0].data, &files[0].hash).unwrap();
    // the fat form holds the inlined code behind a true flag
    let hay = raw.windows(code.len()).any(|w| w == &code[..]);
    assert!(hay);
}

#[test]
fn account_missing_code_fails() {
    let code_hash = keccak(&[0x01]);
    let entry = AccountEntry {
        key: h(9),
        thin_rlp: thin_rlp(vec![1], vec![2], &h(5), code_hash),
        storage: vec![],
        code: None,
    };
    assert_eq!(
        chunk_state(&vec![entry]).unwrap_err(),
        Error::Trie(TrieError::IncompleteDatabase)
    );
}

#[test]
fn thin_account_rejects_leading_zero() {
    let bad = thin_rlp(vec![0, 1], vec![], &h(5), empty_code_hash_bytes());
    assert_eq!(
        AccountReader::from_thin_rlp(&bad).unwrap_err(),
        DecoderError::UnexpectedShape
    );
}

#[test]
fn compression_shrinks_repetitive_payloads() {
    let entry = AccountEntry {
        key: h(9),
        thin_rlp: thin_rlp(vec![], vec![], &h(5), empty_code_hash_bytes()),
        storage: vec![StoragePair { key: vec![0x11], value: vec![7u8; 10000] }],
        code: None,
    };
    let (_, files) = chunk_state(&vec![entry]).unwrap();
    assert_eq!(files.len(), 1);
    assert!(files[0].data.len() < 10000);
    let raw = verify_chunk(&files[0].data, &files[0].hash).unwrap();
    assert!(raw.len() > 10000);
}

#[test]
fn verify_chunk_rejects_wrong_hash() {
    let data = vec![1u8, 2, 3];
    assert_eq!(
        verify_chunk(&data, &h(1)).unwrap_err(),
        Error::ChunkHashMismatch
    );
    // right hash, but bytes no compressor produced
    let digest = H256::from_vec(keccak(&data));
    assert_eq!(verify_chunk(&data, &digest).unwrap_err(), Error::BadCompression);
}

fn block(n: u8, parent: &H256, number: u64) -> BlockData {
    BlockData {
        hash: h(n),
        parent_hash: H256::from_vec(parent.bytes.clone()),
        number,
        abridged_rlp: vec![n; 10],
        receipts_rlp: vec![n; 10],
    }
}

#[test]
fn chunk_blocks_empty_chain() {
    let blocks: Vec<BlockData> = vec![];
    let (hashes, files) = chunk_blocks(&blocks, &h(0), &h(0)).unwrap();
    assert_eq!(hashes.len(), 0);
    assert_eq!(files.len(), 0);
}

#[test]
fn chunk_blocks_single_block() {
    let genesis = h(0);
    let blocks = vec![block(1, &genesis, 1)];
    let (hashes, files) = chunk_blocks(&blocks, &h(1), &genesis).unwrap();
    assert_eq!(hashes.len(), 1);
    assert_eq!(files.len(), 1);
    let raw = verify_chunk(&files[0].data, &files[0].hash).unwrap();
    match Item::decode(&raw).unwrap() {
        Item::List(items) => {
            // parent hash of the chunk is the genesis, its number one,
            // and it holds the single pair
            assert_eq!(items.len(), 3);
            assert_eq!(items[0], Item::Bytes(genesis.bytes.clone()));
            assert_eq!(items[1], Item::Bytes(vec![1u8]));
        },
        _ => panic!("chunk must be a list"),
    }
}

#[test]
fn chunk_blocks_split_chain() {
    let genesis = h(0);
    let blocks = vec![
        block(1, &genesis, 1),
        block(2, &h(1), 2),
        block(3, &h(2), 3),
    ];
    // each encoded pair takes 24 bytes: two pairs fit a 50-byte chunk,
    // three do not, so the chain splits into the two higher blocks and
    // then the first block alone
    let (hashes, files) = chunk_blocks_with(&blocks, &h(3), &genesis, 50).unwrap();
    assert_eq!(hashes.len(), 2);
    assert_eq!(files.len(), 2);

    let first = verify_chunk(&files[0].data, &files[0].hash).unwrap();
    match Item::decode(&first).unwrap() {
        Item::List(items) => {
            assert_eq!(items.len(), 4);
            // the chunk flushed first holds the pairs of blocks two and
            // three, in ascending order; its head names its first block:
            // parent is block one, number is two
            assert_eq!(items[0], Item::Bytes(h(1).bytes));
            assert_eq!(items[1], Item::Bytes(vec![2u8]));
            match &items[2] {
                Item::Bytes(pair_bytes) => {
                    let pair = Item::decode(pair_bytes).unwrap();
                    assert_eq!(
                        pair,
                        Item::List(vec![
                            Item::Bytes(vec![2u8; 10]),
                            Item::Bytes(vec![2u8; 10]),
                        ])
                    );
                },
                _ => panic!("pair must be wrapped as a byte string"),
            }
        },
        _ => panic!("chunk must be a list"),
    }

    let second = verify_chunk(&files[1].data, &files[1].hash).unwrap();
    match Item::decode(&second).unwrap() {
        Item::List(items) => {
            assert_eq!(items.len(), 3);
            assert_eq!(items[0], Item::Bytes(genesis.bytes.clone()));
            assert_eq!(items[1], Item::Bytes(vec![1u8]));
            match &items[2] {
                Item::Bytes(pair_bytes) => {
                    let pair = Item::decode(pair_bytes).unwrap();
                    assert_eq!(
                        pair,
                        Item::List(vec![
                            Item::Bytes(vec![1u8; 10]),
                            Item::Bytes(vec![1u8; 10]),
                        ])
                    );
                },
                _ => panic!("pair must be wrapped as a byte string"),
            }
        },
        _ => panic!("chunk must be a list"),
    }
}

#[test]
fn chunk_blocks_missing_block() {
    let genesis = h(0);
    let blocks = vec![block(2, &h(1), 2), block(5, &h(4), 5)];
    assert_eq!(
        chunk_blocks(&blocks, &h(2), &genesis).unwrap_err(),
        Error::BlockNotFound
    );
}

#[test]
fn chunk_blocks_cyclic_chain() {
    let genesis = h(0);
    let mut a = block(1, &h(2), 1);
    a.number = 5;
    let b = block(2, &h(1), 6);
    let blocks = vec![a, b];
    assert_eq!(
        chunk_blocks(&blocks, &h(1), &genesis).unwrap_err(),
        Error::ChainCorrupt
    );
}

#[test]
fn state_chunks_split_on_size() {
    // two accounts whose pairs pass a small preferred size go to their
    // own chunks; with the real bound they share one
    let entry = |n: u8| AccountEntry {
        key: h(n),
        thin_rlp: thin_rlp(vec![n], vec![], &h(5), empty_code_hash_bytes()),
        storage: vec![],
        code: None,
    };
    let (hashes, files) = chunk_state(&vec![entry(1), entry(2)]).unwrap();
    assert_eq!(hashes.len(), 1);
    assert_eq!(files.len(), 1);
    for (i, f) in files.iter().enumerate() {
        assert_eq!(hashes[i].bytes, f.hash.bytes);
    }
}

#[test]
fn manifest_binds_chunkers_output() {
    let entry = AccountEntry {
        key: h(9),
        thin_rlp: thin_rlp(vec![], vec![], &h(5), empty_code_hash_bytes()),
        storage: vec![],
        code: None,
    };
    let (state_hashes, _) = chunk_state(&vec![entry]).unwrap();
    let genesis = h(0);
    let blocks = vec![block(1, &genesis, 1)];
    let (block_hashes, _) = chunk_blocks(&blocks, &h(1), &genesis).unwrap();
    let manifest = ManifestData { state_hashes, block_hashes, state_root: h(5) };
    let raw = manifest.to_rlp();
    let restored = ManifestData::from_rlp(&raw).unwrap();
    assert_eq!(restored.state_hashes.len(), 1);
    assert_eq!(restored.block_hashes.len(), 1);
    assert_eq!(restored.state_root.bytes, h(5).bytes);
}

#[test]
fn hex_spelling_is_lowercase_pairs() {
    let bytes = vec![0x00u8, 0x0f, 0xa0, 0xff];
    assert_eq!(String::from_utf8(to_hex(&bytes)).unwrap(), "000fa0ff");
}
