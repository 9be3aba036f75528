//! The state chunker: turns the walked account trie into chunks.  Each
//! account's thin on-chain form is decoded, expanded to the fat snapshot
//! form with its storage and code inlined, and the encoded pairs are packed
//! into chunks under the preferred size.
//!
//! The trie walk itself belongs to the database collaborator: the caller
//! hands each account's storage pairs, in the trie's own order, and the
//! code bytes the database holds for its code hash.

use vstd::prelude::*;
use crate::chunk::{ChunkFile, PREFERRED_CHUNK_SIZE, SNAPPY_BUFFER_SIZE};
use crate::error::{Error, TrieError};
use crate::hash::H256;
use crate::rlp::{copy_range, dec_full, enc, models_of, DecoderError, Item, ItemM};

verus! {

broadcast use vstd::std_specs::vec::group_vec_axioms;

/// One slot of an account's storage trie.
#[derive(Debug)]
pub struct StoragePair {
    /// The storage key, as the trie yields it.
    pub key: Vec<u8>,
    /// The stored value.
    pub value: Vec<u8>,
}

/// One account as the trie walk yields it: its key, its thin encoding,
/// the full contents of its storage trie in trie order, and the code the
/// database holds under its code hash, if any.
#[derive(Debug)]
pub struct AccountEntry {
    /// The account key: the hash of the address.
    pub key: H256,
    /// The on-chain thin account encoding.
    pub thin_rlp: Vec<u8>,
    /// All `(key, value)` pairs of the account's storage trie, in order.
    pub storage: Vec<StoragePair>,
    /// The account's bytecode, when the database holds it.
    pub code: Option<Vec<u8>>,
}

/// A canonical unsigned integer as bytes: big-endian, no leading zero, at
/// most 32 bytes.
pub open spec fn canonical_u256(b: Seq<u8>) -> bool {
    b.len() <= 32 && (b.len() > 0 ==> b[0] != 0)
}

/// The digest of empty code: an account whose code hash equals it has no
/// code to inline.
pub open spec fn empty_code_hash() -> Seq<u8> {
    seq![
        0xc5u8, 0xd2u8, 0x46u8, 0x01u8, 0x86u8, 0xf7u8, 0x23u8, 0x3cu8,
        0x92u8, 0x7eu8, 0x7du8, 0xb2u8, 0xdcu8, 0xc7u8, 0x03u8, 0xc0u8,
        0xe5u8, 0x00u8, 0xb6u8, 0x53u8, 0xcau8, 0x82u8, 0x27u8, 0x3bu8,
        0x7bu8, 0xfau8, 0xd8u8, 0x04u8, 0x5du8, 0x85u8, 0xa4u8, 0x70u8,
    ]
}

/// The digest of empty code as a value.
pub fn empty_code_hash_exec() -> (r: H256)
    ensures
        r@ == empty_code_hash(),
        r.wf(),
{
    let mut bytes: Vec<u8> = Vec::new();
    bytes.push(0xc5u8); bytes.push(0xd2u8); bytes.push(0x46u8); bytes.push(0x01u8);
    bytes.push(0x86u8); bytes.push(0xf7u8); bytes.push(0x23u8); bytes.push(0x3cu8);
    bytes.push(0x92u8); bytes.push(0x7eu8); bytes.push(0x7du8); bytes.push(0xb2u8);
    bytes.push(0xdcu8); bytes.push(0xc7u8); bytes.push(0x03u8); bytes.push(0xc0u8);
    bytes.push(0xe5u8); bytes.push(0x00u8); bytes.push(0xb6u8); bytes.push(0x53u8);
    bytes.push(0xcau8); bytes.push(0x82u8); bytes.push(0x27u8); bytes.push(0x3bu8);
    bytes.push(0x7bu8); bytes.push(0xfau8); bytes.push(0xd8u8); bytes.push(0x04u8);
    bytes.push(0x5du8); bytes.push(0x85u8); bytes.push(0xa4u8); bytes.push(0x70u8);
    proof {
        assert(bytes@ =~= empty_code_hash());
    }
    H256::from_vec(bytes)
}

/// Reads the thin four-tuple out of a decoded value, holding the integer
/// fields to their canonical form and the hash fields to 32 bytes.
pub open spec fn thin_from_item(x: ItemM) -> Result<
    (Seq<u8>, Seq<u8>, Seq<u8>, Seq<u8>),
    DecoderError,
> {
    match x {
        ItemM::List(s) => {
            if s.len() != 4 {
                Err(DecoderError::UnexpectedShape)
            } else {
                match (s[0], s[1], s[2], s[3]) {
                    (ItemM::Bytes(n), ItemM::Bytes(b), ItemM::Bytes(r), ItemM::Bytes(c)) => {
                        if canonical_u256(n) && canonical_u256(b) && r.len() == 32 && c.len()
                            == 32 {
                            Ok((n, b, r, c))
                        } else {
                            Err(DecoderError::UnexpectedShape)
                        }
                    },
                    _ => Err(DecoderError::UnexpectedShape),
                }
            }
        },
        ItemM::Bytes(_) => Err(DecoderError::UnexpectedShape),
    }
}

/// An account read back from its thin encoding, for expanding into the
/// fat snapshot form.
#[derive(Debug)]
pub struct AccountReader {
    /// The account nonce, canonical big-endian bytes.
    pub nonce: Vec<u8>,
    /// The account balance, canonical big-endian bytes.
    pub balance: Vec<u8>,
    /// Root of the account's storage trie.
    pub storage_root: H256,
    /// Digest of the account's code.
    pub code_hash: H256,
}

impl AccountReader {
    /// The reader holds a well-formed thin account.
    pub open spec fn wf(&self) -> bool {
        &&& canonical_u256(self.nonce@)
        &&& canonical_u256(self.balance@)
        &&& self.storage_root@.len() == 32
        &&& self.code_hash@.len() == 32
    }

    /// Deserializes an account from its thin encoding, accepting exactly
    /// the canonical four-tuple form.
    pub fn from_thin_rlp(rlp: &Vec<u8>) -> (r: Result<AccountReader, DecoderError>)
        ensures
            match r {
                Ok(a) => a.wf() && (match dec_full(rlp@) {
                    Ok(x) => thin_from_item(x) == Ok::<
                        (Seq<u8>, Seq<u8>, Seq<u8>, Seq<u8>),
                        DecoderError,
                    >((a.nonce@, a.balance@, a.storage_root@, a.code_hash@)),
                    Err(_) => false,
                }),
                Err(e) => (match dec_full(rlp@) {
                    Ok(x) => thin_from_item(x) == Err::<
                        (Seq<u8>, Seq<u8>, Seq<u8>, Seq<u8>),
                        DecoderError,
                    >(e),
                    Err(e2) => e == e2,
                }),
            },
    {
        let item = match Item::decode(rlp) {
            Ok(it) => it,
            Err(e) => {
                return Err(e);
            },
        };
        match &item {
            Item::Bytes(_) => Err(DecoderError::UnexpectedShape),
            Item::List(parts) => {
                if parts.len() != 4 {
                    proof {
                        crate::manifest::lemma_models_len(parts@);
                    }
                    return Err(DecoderError::UnexpectedShape);
                }
                proof {
                    crate::manifest::lemma_models_index(parts@, 0);
                    crate::manifest::lemma_models_index(parts@, 1);
                    crate::manifest::lemma_models_index(parts@, 2);
                    crate::manifest::lemma_models_index(parts@, 3);
                }
                let nonce = match &parts[0] {
                    Item::Bytes(b) => {
                        if b.len() > 32 || (b.len() > 0 && b[0] == 0) {
                            return Err(DecoderError::UnexpectedShape);
                        }
                        copy_range(b, 0, b.len())
                    },
                    Item::List(_) => {
                        return Err(DecoderError::UnexpectedShape);
                    },
                };
                let balance = match &parts[1] {
                    Item::Bytes(b) => {
                        if b.len() > 32 || (b.len() > 0 && b[0] == 0) {
                            return Err(DecoderError::UnexpectedShape);
                        }
                        copy_range(b, 0, b.len())
                    },
                    Item::List(_) => {
                        return Err(DecoderError::UnexpectedShape);
                    },
                };
                let storage_root = match &parts[2] {
                    Item::Bytes(b) => {
                        if b.len() != 32 {
                            return Err(DecoderError::UnexpectedShape);
                        }
                        H256::from_vec(copy_range(b, 0, 32))
                    },
                    Item::List(_) => {
                        return Err(DecoderError::UnexpectedShape);
                    },
                };
                let code_hash = match &parts[3] {
                    Item::Bytes(b) => {
                        if b.len() != 32 {
                            return Err(DecoderError::UnexpectedShape);
                        }
                        H256::from_vec(copy_range(b, 0, 32))
                    },
                    Item::List(_) => {
                        return Err(DecoderError::UnexpectedShape);
                    },
                };
                proof {
                    assert(item.model() == ItemM::List(models_of(parts@)));
                    assert(nonce@ =~= parts@[0]->Bytes_0@);
                    assert(balance@ =~= parts@[1]->Bytes_0@);
                    assert(storage_root@ =~= parts@[2]->Bytes_0@);
                    assert(code_hash@ =~= parts@[3]->Bytes_0@);
                }
                Ok(AccountReader { nonce, balance, storage_root, code_hash })
            },
        }
    }
}

/// The byte-string views of a storage list.
pub open spec fn storage_view(s: Seq<StoragePair>) -> Seq<(Seq<u8>, Seq<u8>)> {
    Seq::new(s.len(), |i: int| (s[i].key@, s[i].value@))
}

/// An account's storage as a codec value: a list of two-item lists.
pub open spec fn storage_item(pairs: Seq<(Seq<u8>, Seq<u8>)>) -> ItemM {
    ItemM::List(
        Seq::new(
            pairs.len(),
            |i: int| ItemM::List(seq![ItemM::Bytes(pairs[i].0), ItemM::Bytes(pairs[i].1)]),
        ),
    )
}

/// The fat snapshot form of an account as a codec value: the thin fields,
/// the code block `(has_code, code)`, and the encoded storage list.
pub open spec fn fat_item(
    nonce: Seq<u8>,
    balance: Seq<u8>,
    root: Seq<u8>,
    has_code: bool,
    code: Seq<u8>,
    storage: Seq<(Seq<u8>, Seq<u8>)>,
) -> ItemM {
    ItemM::List(
        seq![
            ItemM::Bytes(nonce),
            ItemM::Bytes(balance),
            ItemM::Bytes(root),
            ItemM::List(
                seq![
                    ItemM::Bytes(seq![if has_code { 1u8 } else { 0u8 }]),
                    ItemM::Bytes(code),
                ],
            ),
            ItemM::Bytes(enc(storage_item(storage))),
        ],
    )
}

/// Copies a byte vector.
pub(crate) fn dup_bytes(v: &Vec<u8>) -> (r: Vec<u8>)
    ensures
        r@ == v@,
{
    let r = copy_range(v, 0, v.len());
    proof {
        assert(v@.subrange(0, v@.len() as int) =~= v@);
    }
    r
}

/// Turns an account's storage into its codec value.
#[verifier::loop_isolation(false)]
fn storage_to_item(storage: &Vec<StoragePair>) -> (r: Item)
    ensures
        r.model() == storage_item(storage_view(storage@)),
{
    let mut items: Vec<Item> = Vec::new();
    let mut i: usize = 0;
    while i < storage.len()
        invariant
            i <= storage@.len(),
            items@.len() == i,
            models_of(items@) =~= Seq::new(
                i as nat,
                |j: int| ItemM::List(
                    seq![
                        ItemM::Bytes(storage@[j].key@),
                        ItemM::Bytes(storage@[j].value@),
                    ],
                ),
            ),
        decreases storage@.len() - i,
    {
        let k = dup_bytes(&storage[i].key);
        let v = dup_bytes(&storage[i].value);
        let mut kv: Vec<Item> = Vec::new();
        kv.push(Item::Bytes(k));
        kv.push(Item::Bytes(v));
        proof {
            crate::rlp::lemma_models_push(Seq::<Item>::empty(), kv@[0]);
            crate::rlp::lemma_models_push(kv@.subrange(0, 1), kv@[1]);
            assert(Seq::<Item>::empty().push(kv@[0]) =~= kv@.subrange(0, 1));
            assert(kv@.subrange(0, 1).push(kv@[1]) =~= kv@);
            assert(models_of(Seq::<Item>::empty()) =~= Seq::<ItemM>::empty());
            assert(models_of(kv@) =~= seq![
                ItemM::Bytes(storage@[i as int].key@),
                ItemM::Bytes(storage@[i as int].value@),
            ]);
        }
        let ghost prev = items@;
        items.push(Item::List(kv));
        proof {
            crate::rlp::lemma_models_push(prev, Item::List(kv));
            assert(models_of(items@) =~= Seq::new(
                (i + 1) as nat,
                |j: int| ItemM::List(
                    seq![
                        ItemM::Bytes(storage@[j].key@),
                        ItemM::Bytes(storage@[j].value@),
                    ],
                ),
            ));
        }
        i = i + 1;
    }
    proof {
        assert(models_of(items@) =~= Seq::new(
            storage@.len(),
            |j: int| ItemM::List(
                seq![
                    ItemM::Bytes(storage_view(storage@)[j].0),
                    ItemM::Bytes(storage_view(storage@)[j].1),
                ],
            ),
        ));
    }
    Item::List(items)
}

impl AccountReader {
    /// Expands the account into the fat snapshot encoding: the thin
    /// fields, the inlined code (present exactly when the code hash is
    /// not the empty-code digest), and the whole storage in trie order.
    /// Fails only when the account has code and the database gave none.
    pub fn to_fat_rlp(&self, storage: &Vec<StoragePair>, code: &Option<Vec<u8>>) -> (r: Result<
        Vec<u8>,
        Error,
    >)
        ensures
            r matches Ok(bytes) ==> ({
                let has = self.code_hash@ != empty_code_hash();
                bytes@ == enc(
                    fat_item(
                        self.nonce@,
                        self.balance@,
                        self.storage_root@,
                        has,
                        if has {
                            code->0@
                        } else {
                            Seq::<u8>::empty()
                        },
                        storage_view(storage@),
                    ),
                )
            }),
            r matches Err(e) ==> e == Error::Trie(TrieError::IncompleteDatabase)
                && self.code_hash@ != empty_code_hash() && code is None,
            r is Ok ==> self.code_hash@ == empty_code_hash() || code is Some,
            self.code_hash@ == empty_code_hash() || code is Some ==> r is Ok,
    {
        let pairs_rlp = storage_to_item(storage).encode();
        let empty_hash = empty_code_hash_exec();
        let has_code = !self.code_hash.same(&empty_hash);
        let mut code_block: Vec<Item> = Vec::new();
        if has_code {
            match code {
                Some(bytes) => {
                    let mut flag: Vec<u8> = Vec::new();
                    flag.push(1u8);
                    code_block.push(Item::Bytes(flag));
                    code_block.push(Item::Bytes(dup_bytes(bytes)));
                },
                None => {
                    return Err(Error::Trie(TrieError::IncompleteDatabase));
                },
            }
        } else {
            let mut flag: Vec<u8> = Vec::new();
            flag.push(0u8);
            code_block.push(Item::Bytes(flag));
            code_block.push(Item::Bytes(Vec::new()));
        }
        proof {
            crate::rlp::lemma_models_push(Seq::<Item>::empty(), code_block@[0]);
            crate::rlp::lemma_models_push(code_block@.subrange(0, 1), code_block@[1]);
            assert(Seq::<Item>::empty().push(code_block@[0]) =~= code_block@.subrange(0, 1));
            assert(code_block@.subrange(0, 1).push(code_block@[1]) =~= code_block@);
            assert(models_of(Seq::<Item>::empty()) =~= Seq::<ItemM>::empty());
            if has_code {
                assert(code_block@[0].model() == ItemM::Bytes(seq![1u8])) by {
                    assert(code_block@[0]->Bytes_0@ =~= seq![1u8]);
                }
                assert(code_block@[1].model() == ItemM::Bytes(code->0@));
            } else {
                assert(code_block@[0].model() == ItemM::Bytes(seq![0u8])) by {
                    assert(code_block@[0]->Bytes_0@ =~= seq![0u8]);
                }
                assert(code_block@[1].model() == ItemM::Bytes(Seq::<u8>::empty())) by {
                    assert(code_block@[1]->Bytes_0@ =~= Seq::<u8>::empty());
                }
            }
            let has = self.code_hash@ != empty_code_hash();
            assert(models_of(code_block@) =~= seq![
                ItemM::Bytes(seq![if has { 1u8 } else { 0u8 }]),
                ItemM::Bytes(
                    if has {
                        code->0@
                    } else {
                        Seq::<u8>::empty()
                    },
                ),
            ]);
        }
        let mut fields: Vec<Item> = Vec::new();
        fields.push(Item::Bytes(dup_bytes(&self.nonce)));
        fields.push(Item::Bytes(dup_bytes(&self.balance)));
        fields.push(Item::Bytes(self.storage_root.duplicate().bytes));
        fields.push(Item::List(code_block));
        fields.push(Item::Bytes(pairs_rlp));
        proof {
            let f = fields@;
            assert(Seq::<Item>::empty().push(f[0]) =~= f.subrange(0, 1));
            assert(f.subrange(0, 1).push(f[1]) =~= f.subrange(0, 2));
            assert(f.subrange(0, 2).push(f[2]) =~= f.subrange(0, 3));
            assert(f.subrange(0, 3).push(f[3]) =~= f.subrange(0, 4));
            assert(f.subrange(0, 4).push(f[4]) =~= f);
            crate::rlp::lemma_models_push(Seq::<Item>::empty(), f[0]);
            crate::rlp::lemma_models_push(f.subrange(0, 1), f[1]);
            crate::rlp::lemma_models_push(f.subrange(0, 2), f[2]);
            crate::rlp::lemma_models_push(f.subrange(0, 3), f[3]);
            crate::rlp::lemma_models_push(f.subrange(0, 4), f[4]);
            assert(models_of(Seq::<Item>::empty()) =~= Seq::<ItemM>::empty());
            let has = self.code_hash@ != empty_code_hash();
            assert(models_of(f) =~= seq![
                ItemM::Bytes(self.nonce@),
                ItemM::Bytes(self.balance@),
                ItemM::Bytes(self.storage_root@),
                ItemM::List(
                    seq![
                        ItemM::Bytes(seq![if has { 1u8 } else { 0u8 }]),
                        ItemM::Bytes(
                            if has {
                                code->0@
                            } else {
                                Seq::<u8>::empty()
                            },
                        ),
                    ],
                ),
                ItemM::Bytes(enc(storage_item(storage_view(storage@)))),
            ]);
        }
        Ok(Item::List(fields).encode())
    }
}

/// A `(account key, fat encoding)` pair as a codec value.
pub open spec fn pair_item(p: (Seq<u8>, Seq<u8>)) -> ItemM {
    ItemM::List(seq![ItemM::Bytes(p.0), ItemM::Bytes(p.1)])
}

/// The bytes one pair occupies in a chunk.
pub open spec fn pair_size(p: (Seq<u8>, Seq<u8>)) -> nat {
    enc(pair_item(p)).len()
}

/// The bytes a run of pairs occupies in a chunk.
pub open spec fn group_size(g: Seq<(Seq<u8>, Seq<u8>)>) -> nat
    decreases g,
{
    if g.len() == 0 {
        0
    } else {
        group_size(g.drop_last()) + pair_size(g.last())
    }
}

/// A state chunk's payload as a codec value: a list whose elements are
/// the encoded pairs, each wrapped as a byte string.
pub open spec fn state_chunk_item(g: Seq<(Seq<u8>, Seq<u8>)>) -> ItemM {
    ItemM::List(Seq::new(g.len(), |i: int| ItemM::Bytes(enc(pair_item(g[i])))))
}

/// One packing step: flush the pending run first when the next pair
/// would reach or pass the preferred size, then take the pair.
pub open spec fn spec_push(
    done: Seq<Seq<(Seq<u8>, Seq<u8>)>>,
    pending: Seq<(Seq<u8>, Seq<u8>)>,
    p: (Seq<u8>, Seq<u8>),
    pref: nat,
) -> (Seq<Seq<(Seq<u8>, Seq<u8>)>>, Seq<(Seq<u8>, Seq<u8>)>) {
    if group_size(pending) + pair_size(p) >= pref {
        (done.push(pending), seq![p])
    } else {
        (done, pending.push(p))
    }
}

/// Packs pairs in order, one `spec_push` step each.
pub open spec fn fold_pairs(ps: Seq<(Seq<u8>, Seq<u8>)>, pref: nat) -> (
    Seq<Seq<(Seq<u8>, Seq<u8>)>>,
    Seq<(Seq<u8>, Seq<u8>)>,
)
    decreases ps,
{
    if ps.len() == 0 {
        (Seq::empty(), Seq::empty())
    } else {
        let prev = fold_pairs(ps.drop_last(), pref);
        spec_push(prev.0, prev.1, ps.last(), pref)
    }
}

/// The chunks the state chunker produces for a run of pairs: the packed
/// groups, with the residue flushed last.
pub open spec fn group_pairs(ps: Seq<(Seq<u8>, Seq<u8>)>, pref: nat) -> Seq<
    Seq<(Seq<u8>, Seq<u8>)>,
> {
    let folded = fold_pairs(ps, pref);
    if folded.1.len() > 0 {
        folded.0.push(folded.1)
    } else {
        folded.0
    }
}

/// State trie chunker: accumulates encoded pairs and flushes them as
/// chunks under the preferred size.
pub struct StateChunker {
    /// Hashes of the chunks produced so far, in production order.
    pub hashes: Vec<H256>,
    /// The chunks produced so far, ready to persist.
    pub chunks: Vec<ChunkFile>,
    /// Encoded pairs waiting for the next flush.
    rlps: Vec<Vec<u8>>,
    /// Total bytes of the waiting pairs.
    cur_size: usize,
    /// The reusable compression buffer.
    snappy_buffer: Vec<u8>,
    /// The pairs inside each flushed chunk.
    done_pairs: Ghost<Seq<Seq<(Seq<u8>, Seq<u8>)>>>,
    /// The pairs waiting for the next flush.
    pending_pairs: Ghost<Seq<(Seq<u8>, Seq<u8>)>>,
}

impl StateChunker {
    /// The chunker's bookkeeping matches its ghost pairs.
    pub closed spec fn wf(&self) -> bool {
        &&& self.rlps@.len() == self.pending_pairs@.len()
        &&& forall|i: int| 0 <= i < self.rlps@.len() ==> (#[trigger] self.rlps@[i])@ == enc(
            pair_item(self.pending_pairs@[i]),
        )
        &&& self.cur_size as nat == group_size(self.pending_pairs@)
        &&& group_size(self.pending_pairs@) < PREFERRED_CHUNK_SIZE as nat
            || self.pending_pairs@.len() == 1
        &&& self.chunks@.len() == self.done_pairs@.len()
        &&& self.hashes@.len() == self.done_pairs@.len()
        &&& forall|i: int| 0 <= i < self.done_pairs@.len() ==> {
            &&& (#[trigger] self.chunks@[i]).wf()
            &&& self.chunks@[i].data@ == crate::compress::snappy_of(
                enc(state_chunk_item(self.done_pairs@[i])),
            )
            &&& self.hashes@[i]@ == self.chunks@[i].hash@
        }
    }

    /// The pairs inside each flushed chunk.
    pub closed spec fn done(&self) -> Seq<Seq<(Seq<u8>, Seq<u8>)>> {
        self.done_pairs@
    }

    /// The pairs waiting for the next flush.
    pub closed spec fn pending(&self) -> Seq<(Seq<u8>, Seq<u8>)> {
        self.pending_pairs@
    }

    /// A fresh chunker with an empty buffer.
    pub fn new() -> (r: StateChunker)
        ensures
            r.wf(),
            r.done() == Seq::<Seq<(Seq<u8>, Seq<u8>)>>::empty(),
            r.pending() == Seq::<(Seq<u8>, Seq<u8>)>::empty(),
    {
        let mut snappy_buffer: Vec<u8> = Vec::new();
        snappy_buffer.resize(SNAPPY_BUFFER_SIZE, 0u8);
        StateChunker {
            hashes: Vec::new(),
            chunks: Vec::new(),
            rlps: Vec::new(),
            cur_size: 0,
            snappy_buffer,
            done_pairs: Ghost(Seq::empty()),
            pending_pairs: Ghost(Seq::empty()),
        }
    }

    /// Flushes the waiting pairs as one chunk, appending its hash to the
    /// list.  Fails only when the compressor cannot take the payload.
    #[verifier::loop_isolation(false)]
    pub fn write_chunk(&mut self) -> (r: Result<(), Error>)
        requires
            old(self).wf(),
        ensures
            final(self).wf(),
            r is Ok ==> final(self).done() == old(self).done().push(old(self).pending())
                && final(self).pending() == Seq::<(Seq<u8>, Seq<u8>)>::empty(),
            r matches Err(e) ==> e == Error::InvariantViolation
                && crate::compress::spec_max_compressed_len(
                enc(state_chunk_item(old(self).pending())).len(),
            ) > crate::compress::MAX_COMPRESS_INPUT as nat && final(self).done() == old(
                self,
            ).done() && final(self).pending() == old(self).pending(),
    {
        let mut items: Vec<Item> = Vec::new();
        let mut i: usize = 0;
        while i < self.rlps.len()
            invariant
                i <= self.rlps@.len(),
                items@.len() == i,
                models_of(items@) =~= Seq::new(
                    i as nat,
                    |j: int| ItemM::Bytes(enc(pair_item(self.pending_pairs@[j]))),
                ),
            decreases self.rlps@.len() - i,
        {
            let ghost prev = items@;
            items.push(Item::Bytes(dup_bytes(&self.rlps[i])));
            proof {
                crate::rlp::lemma_models_push(prev, items@.last());
                assert(models_of(items@) =~= Seq::new(
                    (i + 1) as nat,
                    |j: int| ItemM::Bytes(enc(pair_item(self.pending_pairs@[j]))),
                ));
            }
            i = i + 1;
        }
        let raw_data = Item::List(items).encode();
        proof {
            assert(raw_data@ == enc(state_chunk_item(self.pending_pairs@))) by {
                assert(models_of(items@) =~= Seq::new(
                    self.pending_pairs@.len(),
                    |j: int| ItemM::Bytes(enc(pair_item(self.pending_pairs@[j]))),
                ));
            }
        }
        let file = match crate::chunk::write_chunk(&raw_data, &mut self.snappy_buffer) {
            Ok(f) => f,
            Err(e) => {
                return Err(e);
            },
        };
        self.hashes.push(file.hash.duplicate());
        self.chunks.push(file);
        self.rlps = Vec::new();
        self.cur_size = 0;
        let ghost new_done = self.done_pairs@.push(self.pending_pairs@);
        self.done_pairs = Ghost(new_done);
        self.pending_pairs = Ghost(Seq::empty());
        Ok(())
    }

    /// Takes one `(account key, fat encoding)` pair, flushing first when
    /// the pair would reach or pass the preferred chunk size.
    pub fn push(&mut self, account_key: Vec<u8>, fat_rlp: Vec<u8>) -> (r: Result<(), Error>)
        requires
            old(self).wf(),
        ensures
            final(self).wf(),
            r is Ok ==> (final(self).done(), final(self).pending()) == spec_push(
                old(self).done(),
                old(self).pending(),
                (account_key@, fat_rlp@),
                PREFERRED_CHUNK_SIZE as nat,
            ),
            r matches Err(e) ==> e == Error::InvariantViolation && group_size(old(self).pending())
                + pair_size((account_key@, fat_rlp@)) >= PREFERRED_CHUNK_SIZE as nat
                && crate::compress::spec_max_compressed_len(
                enc(state_chunk_item(old(self).pending())).len(),
            ) > crate::compress::MAX_COMPRESS_INPUT as nat && final(self).done() == old(
                self,
            ).done() && final(self).pending() == old(self).pending(),
    {
        let ghost p = (account_key@, fat_rlp@);
        let mut kv: Vec<Item> = Vec::new();
        kv.push(Item::Bytes(account_key));
        kv.push(Item::Bytes(fat_rlp));
        proof {
            crate::rlp::lemma_models_push(Seq::<Item>::empty(), kv@[0]);
            crate::rlp::lemma_models_push(kv@.subrange(0, 1), kv@[1]);
            assert(Seq::<Item>::empty().push(kv@[0]) =~= kv@.subrange(0, 1));
            assert(kv@.subrange(0, 1).push(kv@[1]) =~= kv@);
            assert(models_of(Seq::<Item>::empty()) =~= Seq::<ItemM>::empty());
            assert(models_of(kv@) =~= seq![ItemM::Bytes(p.0), ItemM::Bytes(p.1)]);
        }
        let pair = Item::List(kv).encode();
        proof {
            assert(pair@.len() == pair_size(p));
        }
        if self.cur_size >= PREFERRED_CHUNK_SIZE || pair.len()
            >= PREFERRED_CHUNK_SIZE - self.cur_size {
            match self.write_chunk() {
                Ok(()) => {},
                Err(e) => {
                    return Err(e);
                },
            }
            proof {
                assert(group_size(self.pending_pairs@) == 0);
            }
        }
        let ghost before = self.pending_pairs@;
        self.cur_size = self.cur_size + pair.len();
        self.rlps.push(pair);
        let ghost new_pending = before.push(p);
        self.pending_pairs = Ghost(new_pending);
        proof {
            assert(new_pending.drop_last() =~= before);
            assert(group_size(new_pending) == group_size(before) + pair_size(p));
        }
        Ok(())
    }
}

/// What one walked account contributes: its key paired with its fat
/// encoding, or the first error met producing it.
pub open spec fn entry_pair(a: AccountEntry) -> Result<(Seq<u8>, Seq<u8>), Error> {
    match dec_full(a.thin_rlp@) {
        Err(e) => Err(Error::Decoder(e)),
        Ok(x) => match thin_from_item(x) {
            Err(e) => Err(Error::Decoder(e)),
            Ok((nonce, balance, root, code_hash)) => {
                let has = code_hash != empty_code_hash();
                if has && a.code is None {
                    Err(Error::Trie(TrieError::IncompleteDatabase))
                } else {
                    Ok(
                        (
                            a.key@,
                            enc(
                                fat_item(
                                    nonce,
                                    balance,
                                    root,
                                    has,
                                    if has {
                                        a.code->0@
                                    } else {
                                        Seq::<u8>::empty()
                                    },
                                    storage_view(a.storage@),
                                ),
                            ),
                        ),
                    )
                }
            },
        },
    }
}

/// The pairs a walked account list contributes, or the first error.
pub open spec fn state_pairs(accounts: Seq<AccountEntry>) -> Result<
    Seq<(Seq<u8>, Seq<u8>)>,
    Error,
>
    decreases accounts,
{
    if accounts.len() == 0 {
        Ok(Seq::empty())
    } else {
        match state_pairs(accounts.drop_last()) {
            Err(e) => Err(e),
            Ok(ps) => match entry_pair(accounts.last()) {
                Err(e) => Err(e),
                Ok(p) => Ok(ps.push(p)),
            },
        }
    }
}

/// Walks the given accounts, creating chunks and returning the list of
/// chunk hashes beside the chunks themselves, in production order.
#[verifier::loop_isolation(false)]
#[verifier::rlimit(100)]
pub fn chunk_state(accounts: &Vec<AccountEntry>) -> (r: Result<(Vec<H256>, Vec<ChunkFile>), Error>)
    ensures
        r matches Ok(out) ==> (match state_pairs(accounts@) {
            Ok(ps) => {
                let groups = group_pairs(ps, PREFERRED_CHUNK_SIZE as nat);
                &&& out.0@.len() == groups.len()
                &&& out.1@.len() == groups.len()
                &&& forall|i: int| 0 <= i < groups.len() ==> {
                    &&& (#[trigger] out.1@[i]).wf()
                    &&& out.1@[i].data@ == crate::compress::snappy_of(
                        enc(state_chunk_item(groups[i])),
                    )
                    &&& out.0@[i]@ == out.1@[i].hash@
                }
            },
            Err(_) => false,
        }),
        r matches Err(e) ==> (state_pairs(accounts@) matches Err(e2) && e == e2) || e
            == Error::InvariantViolation,
        state_pairs(accounts@) matches Ok(ps) && (forall|k: int| 0 <= k < group_pairs(
            ps,
            PREFERRED_CHUNK_SIZE as nat,
        ).len() ==> crate::compress::spec_max_compressed_len(
            enc(state_chunk_item(#[trigger] group_pairs(ps, PREFERRED_CHUNK_SIZE as nat)[k])).len(),
        ) <= crate::compress::MAX_COMPRESS_INPUT as nat) ==> r is Ok,
        accounts@.len() == 0 ==> (r matches Ok(out) && out.0@.len() == 0 && out.1@.len() == 0),
{
    let mut chunker = StateChunker::new();
    let mut i: usize = 0;
    proof {
        assert(accounts@.subrange(0, 0) =~= Seq::<AccountEntry>::empty());
    }
    while i < accounts.len()
        invariant
            i <= accounts@.len(),
            chunker.wf(),
            state_pairs(accounts@.subrange(0, i as int)) matches Ok(ps) && fold_pairs(
                ps,
                PREFERRED_CHUNK_SIZE as nat,
            ) == (chunker.done(), chunker.pending()),
        decreases accounts@.len() - i,
    {
        let ghost prefix = accounts@.subrange(0, i as int);
        let ghost ps_pre = state_pairs(prefix)->Ok_0;
        let account = &accounts[i];
        let reader = match AccountReader::from_thin_rlp(&account.thin_rlp) {
            Ok(a) => a,
            Err(e) => {
                proof {
                    lemma_state_pairs_err(accounts@, i as int);
                }
                return Err(Error::Decoder(e));
            },
        };
        let fat_rlp = match reader.to_fat_rlp(&account.storage, &account.code) {
            Ok(bytes) => bytes,
            Err(e) => {
                proof {
                    lemma_state_pairs_err(accounts@, i as int);
                }
                return Err(e);
            },
        };
        let key_bytes = account.key.duplicate().bytes;
        let ghost p = (key_bytes@, fat_rlp@);
        proof {
            assert(entry_pair(accounts@[i as int]) == Ok::<(Seq<u8>, Seq<u8>), Error>(p));
        }
        match chunker.push(key_bytes, fat_rlp) {
            Ok(()) => {},
            Err(e) => {
                proof {
                    let pref = PREFERRED_CHUNK_SIZE as nat;
                    match state_pairs(accounts@) {
                        Err(_) => {},
                        Ok(ps) => {
                        lemma_state_pairs_prefix(accounts@, i as int);
                        assert(accounts@.subrange(0, i as int) =~= accounts@.take(i as int));
                        assert(ps_pre == ps.take(i as int));
                        lemma_state_pairs_prefix(accounts@, i as int + 1);
                        assert(ps.take(i as int + 1).drop_last() =~= ps.take(i as int));
                        assert(ps.take(i as int + 1) =~= ps.take(i as int).push(p)) by {
                            let cur = accounts@.subrange(0, (i + 1) as int);
                            assert(cur =~= accounts@.take(i as int + 1));
                            assert(cur.drop_last() =~= accounts@.subrange(0, i as int));
                            assert(cur.last() == accounts@[i as int]);
                        }
                        assert(ps.take(i as int).len() == i as int);
                        assert(ps.take(i as int + 1)[i as int] == ps[i as int]);
                        assert(ps[i as int] == p);
                        assert(fold_pairs(ps.take(i as int + 1), pref).0
                            == chunker.done().push(chunker.pending()));
                        lemma_fold_prefix(ps, i as int + 1, pref);
                        let at = chunker.done().len() as int;
                        assert(fold_pairs(ps.take(i as int + 1), pref).0[at]
                            == chunker.pending());
                        assert(group_pairs(ps, pref)[at] == chunker.pending());
                        },
                    }
                }
                return Err(e);
            },
        }
        proof {
            let cur = accounts@.subrange(0, (i + 1) as int);
            assert(cur.drop_last() =~= prefix);
            assert(cur.last() == accounts@[i as int]);
            assert(state_pairs(cur) == Ok::<Seq<(Seq<u8>, Seq<u8>)>, Error>(ps_pre.push(p)));
            assert(ps_pre.push(p).drop_last() =~= ps_pre);
        }
        i = i + 1;
    }
    proof {
        assert(accounts@.subrange(0, accounts@.len() as int) =~= accounts@);
    }
    if chunker.cur_size != 0 {
        proof {
            lemma_group_size_zero(chunker.pending());
        }
        match chunker.write_chunk() {
            Ok(()) => {},
            Err(e) => {
                proof {
                    let pref = PREFERRED_CHUNK_SIZE as nat;
                    match state_pairs(accounts@) {
                        Err(_) => {},
                        Ok(ps) => {
                            assert(group_pairs(ps, pref)
                                == chunker.done().push(chunker.pending()));
                            let at = chunker.done().len() as int;
                            assert(group_pairs(ps, pref)[at] == chunker.pending());
                        },
                    }
                }
                return Err(e);
            },
        }
    } else {
        proof {
            lemma_group_size_zero(chunker.pending());
        }
    }
    Ok((chunker.hashes, chunker.chunks))
}

/// A run of pairs takes no room exactly when it is empty.
pub proof fn lemma_group_size_zero(g: Seq<(Seq<u8>, Seq<u8>)>)
    ensures
        (group_size(g) == 0) == (g.len() == 0),
    decreases g,
{
    if g.len() > 0 {
        crate::rlp::lemma_enc_len(pair_item(g.last()));
        lemma_group_size_zero(g.drop_last());
    }
}

/// An error at one account makes the whole pair list fail, provided every
/// earlier account succeeded.
proof fn lemma_state_pairs_err(accounts: Seq<AccountEntry>, bad: int)
    requires
        0 <= bad < accounts.len(),
        entry_pair(accounts[bad]) is Err,
        state_pairs(accounts.subrange(0, bad)) is Ok,
    ensures
        state_pairs(accounts) matches Err(e) && entry_pair(accounts[bad]) == Err::<
            (Seq<u8>, Seq<u8>),
            Error,
        >(e),
    decreases accounts.len(),
{
    if bad == accounts.len() - 1 {
        assert(accounts.subrange(0, bad) =~= accounts.drop_last());
    } else {
        assert(accounts.drop_last().subrange(0, bad) =~= accounts.subrange(0, bad));
        assert(accounts.drop_last()[bad] == accounts[bad]);
        lemma_state_pairs_err(accounts.drop_last(), bad);
    }
}

/// When the whole account list yields pairs, every prefix yields the
/// matching prefix of them.
proof fn lemma_state_pairs_prefix(accounts: Seq<AccountEntry>, i: int)
    requires
        0 <= i <= accounts.len(),
        state_pairs(accounts) is Ok,
    ensures
        state_pairs(accounts)->Ok_0.len() == accounts.len(),
        state_pairs(accounts.take(i)) == Ok::<Seq<(Seq<u8>, Seq<u8>)>, Error>(
            state_pairs(accounts)->Ok_0.take(i),
        ),
    decreases accounts.len(),
{
    let full = state_pairs(accounts)->Ok_0;
    if accounts.len() == 0 {
        assert(accounts.take(i) =~= accounts);
        assert(full.take(i) =~= full);
    } else {
        lemma_state_pairs_prefix(accounts.drop_last(), if i <= accounts.len() - 1 {
            i
        } else {
            i - 1
        });
        if i == accounts.len() {
            assert(accounts.take(i) =~= accounts);
            assert(full.take(i) =~= full);
        } else {
            assert(accounts.drop_last().take(i) =~= accounts.take(i));
            assert(state_pairs(accounts.drop_last())->Ok_0.take(i) =~= full.take(i)) by {
                assert(state_pairs(accounts.drop_last())->Ok_0 =~= full.drop_last());
            }
        }
    }
}

/// Every chunk the fold has flushed over a prefix of the pairs is one of
/// the chunks of the whole run, at the same place.
proof fn lemma_fold_prefix(ps: Seq<(Seq<u8>, Seq<u8>)>, i: int, pref: nat)
    requires
        0 <= i <= ps.len(),
    ensures
        fold_pairs(ps.take(i), pref).0.len() <= group_pairs(ps, pref).len(),
        forall|k: int| 0 <= k < fold_pairs(ps.take(i), pref).0.len() ==> #[trigger] fold_pairs(
            ps.take(i),
            pref,
        ).0[k] == group_pairs(ps, pref)[k],
    decreases ps.len() - i,
{
    if i == ps.len() {
        assert(ps.take(i) =~= ps);
        let folded = fold_pairs(ps, pref);
        if folded.1.len() > 0 {
            assert(forall|k: int| 0 <= k < folded.0.len() ==> folded.0.push(folded.1)[k]
                == folded.0[k]);
        }
    } else {
        lemma_fold_prefix(ps, i + 1, pref);
        assert(ps.take(i + 1).drop_last() =~= ps.take(i));
        assert(ps.take(i + 1).last() == ps[i]);
        let part = fold_pairs(ps.take(i), pref);
        if group_size(part.1) + pair_size(ps[i]) >= pref {
            assert(fold_pairs(ps.take(i + 1), pref).0 == part.0.push(part.1));
            assert(forall|k: int| 0 <= k < part.0.len() ==> part.0.push(part.1)[k]
                == part.0[k]);
        }
    }
}

/// The pairs inside all chunks, chunk by chunk in production order.
pub open spec fn flatten_groups(gs: Seq<Seq<(Seq<u8>, Seq<u8>)>>) -> Seq<(Seq<u8>, Seq<u8>)>
    decreases gs,
{
    if gs.len() == 0 {
        Seq::empty()
    } else {
        flatten_groups(gs.drop_last()) + gs.last()
    }
}

/// Law: the chunks of a state snapshot hold exactly the walked pairs, in
/// the walked order — every account key once, none added, none lost.
pub proof fn lemma_state_chunks_cover(ps: Seq<(Seq<u8>, Seq<u8>)>, pref: nat)
    ensures
        flatten_groups(group_pairs(ps, pref)) == ps,
{
    lemma_fold_pairs_cover(ps, pref);
    let folded = fold_pairs(ps, pref);
    if folded.1.len() > 0 {
        assert(group_pairs(ps, pref).drop_last() =~= folded.0);
        assert(group_pairs(ps, pref).last() == folded.1);
    } else {
        assert(folded.1 =~= Seq::<(Seq<u8>, Seq<u8>)>::empty());
        assert(flatten_groups(folded.0) + folded.1 =~= flatten_groups(folded.0));
    }
}

/// The fold keeps every pair: flushed groups plus the pending run hold
/// the input, in order.
proof fn lemma_fold_pairs_cover(ps: Seq<(Seq<u8>, Seq<u8>)>, pref: nat)
    ensures
        flatten_groups(fold_pairs(ps, pref).0) + fold_pairs(ps, pref).1 == ps,
    decreases ps,
{
    if ps.len() == 0 {
        assert(flatten_groups(fold_pairs(ps, pref).0) + fold_pairs(ps, pref).1 =~= ps);
    } else {
        lemma_fold_pairs_cover(ps.drop_last(), pref);
        let prev = fold_pairs(ps.drop_last(), pref);
        let p = ps.last();
        if group_size(prev.1) + pair_size(p) >= pref {
            assert(prev.0.push(prev.1).drop_last() =~= prev.0);
            assert(flatten_groups(prev.0.push(prev.1)) + seq![p]
                =~= (flatten_groups(prev.0) + prev.1).push(p));
            assert((flatten_groups(prev.0) + prev.1).push(p) =~= ps);
        } else {
            assert(flatten_groups(prev.0) + prev.1.push(p)
                =~= (flatten_groups(prev.0) + prev.1).push(p));
            assert((flatten_groups(prev.0) + prev.1).push(p) =~= ps);
        }
    }
}

/// Law: no chunk's pairs take the preferred size or more, unless the
/// chunk holds exactly one oversize pair.
pub proof fn lemma_state_chunk_sizes(ps: Seq<(Seq<u8>, Seq<u8>)>, pref: nat, k: int)
    requires
        pref > 0,
        0 <= k < group_pairs(ps, pref).len(),
    ensures
        group_size(group_pairs(ps, pref)[k]) < pref || group_pairs(ps, pref)[k].len() == 1,
{
    lemma_fold_pairs_sizes(ps, pref);
    let folded = fold_pairs(ps, pref);
    if folded.1.len() > 0 {
        if k < folded.0.len() {
            assert(group_pairs(ps, pref)[k] == folded.0[k]);
        } else {
            assert(group_pairs(ps, pref)[k] == folded.1);
        }
    }
}

/// Size bounds the fold maintains: every flushed group is under the
/// preferred size or a single pair, and so is the pending run.
proof fn lemma_fold_pairs_sizes(ps: Seq<(Seq<u8>, Seq<u8>)>, pref: nat)
    requires
        pref > 0,
    ensures
        forall|k: int| 0 <= k < fold_pairs(ps, pref).0.len() ==> group_size(
            #[trigger] fold_pairs(ps, pref).0[k],
        ) < pref || fold_pairs(ps, pref).0[k].len() == 1,
        group_size(fold_pairs(ps, pref).1) < pref || fold_pairs(ps, pref).1.len() == 1,
    decreases ps,
{
    if ps.len() == 0 {
    } else {
        lemma_fold_pairs_sizes(ps.drop_last(), pref);
        let prev = fold_pairs(ps.drop_last(), pref);
        let p = ps.last();
        if group_size(prev.1) + pair_size(p) >= pref {
            assert(seq![p].drop_last() =~= Seq::<(Seq<u8>, Seq<u8>)>::empty());
            assert(group_size(Seq::<(Seq<u8>, Seq<u8>)>::empty()) == 0);
            assert(seq![p].last() == p);
            assert(group_size(seq![p]) == pair_size(p));
            assert(forall|k: int| 0 <= k < prev.0.push(prev.1).len() ==> prev.0.push(prev.1)[k]
                == (if k < prev.0.len() { prev.0[k] } else { prev.1 }));
        } else {
            assert(prev.1.push(p).drop_last() =~= prev.1);
            assert(group_size(prev.1.push(p)) == group_size(prev.1) + pair_size(p));
        }
    }
}

} // verus!
