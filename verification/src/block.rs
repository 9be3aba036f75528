//! The block chunker: walks the chain backward from the best block to the
//! genesis, packing `(abridged block, receipts)` pairs into chunks bounded
//! by the preferred size, each chunk holding a run of consecutive blocks
//! in ascending order.
//!
//! Reading blocks belongs to the chain-reader collaborator: the caller
//! hands the blocks it knows, each with its hash, parent hash, number,
//! abridged encoding and receipts; the walk looks them up by hash.

use std::collections::VecDeque;

use vstd::prelude::*;
use crate::chunk::{ChunkFile, PREFERRED_CHUNK_SIZE, SNAPPY_BUFFER_SIZE};
use crate::error::Error;
use crate::hash::H256;
use crate::rlp::{be_bytes, be_bytes_exec, enc, models_of, Item, ItemM};
use crate::state::dup_bytes;

verus! {

broadcast use vstd::std_specs::vec::group_vec_axioms;

/// One block as the chain reader yields it.
#[derive(Debug)]
pub struct BlockData {
    /// The block's own hash.
    pub hash: H256,
    /// The parent block's hash.
    pub parent_hash: H256,
    /// The block number: the genesis is zero.
    pub number: u64,
    /// The abridged encoding of the block.
    pub abridged_rlp: Vec<u8>,
    /// The encoded receipts of the block.
    pub receipts_rlp: Vec<u8>,
}

/// The encoded `(abridged, receipts)` pair of a block.
pub open spec fn block_pair_enc(b: BlockData) -> Seq<u8> {
    enc(ItemM::List(seq![ItemM::Bytes(b.abridged_rlp@), ItemM::Bytes(b.receipts_rlp@)]))
}

/// The first position at or after `i` whose block has hash `h`.
pub open spec fn find_from(blocks: Seq<BlockData>, h: Seq<u8>, i: int) -> Option<int>
    decreases blocks.len() - i,
{
    if i < 0 || i >= blocks.len() {
        None
    } else if blocks[i].hash@ == h {
        Some(i)
    } else {
        find_from(blocks, h, i + 1)
    }
}

/// The chain walk: from `cur` backward along parent hashes until the
/// genesis, at most `fuel` steps, yielding the blocks in walk order
/// (highest first).
pub open spec fn walk(blocks: Seq<BlockData>, cur: Seq<u8>, genesis: Seq<u8>, fuel: nat)
    -> Result<Seq<BlockData>, Error>
    decreases fuel,
{
    if cur == genesis {
        Ok(Seq::empty())
    } else if fuel == 0 {
        Err(Error::ChainCorrupt)
    } else {
        match find_from(blocks, cur, 0) {
            None => Err(Error::BlockNotFound),
            Some(i) => match walk(blocks, blocks[i].parent_hash@, genesis, (fuel - 1) as nat) {
                Err(e) => Err(e),
                Ok(rest) => Ok(seq![blocks[i]] + rest),
            },
        }
    }
}

/// Total bytes of a run of encoded pairs.
pub open spec fn sum_lens(s: Seq<Seq<u8>>) -> nat
    decreases s,
{
    if s.len() == 0 {
        0
    } else {
        sum_lens(s.drop_last()) + s.last().len()
    }
}

/// One block chunk before compression: where it attaches, the number it
/// was labelled with, and its encoded pairs in ascending block order.
pub struct ChunkPlan {
    /// The parent hash written at the chunk's head.
    pub parent: Seq<u8>,
    /// The number written at the chunk's head.
    pub number: nat,
    /// The encoded pairs, ascending by block number.
    pub pairs: Seq<Seq<u8>>,
}

/// One packing step of the backward walk: flush the pending run first
/// when the next pair would pass the preferred size, labelling the chunk
/// with its own first block: that block's parent is the current block
/// itself, and its number one above the current one.  Then put the
/// current pair in front of the pending run.
pub open spec fn spec_push_block(
    done: Seq<ChunkPlan>,
    pending: Seq<Seq<u8>>,
    b: BlockData,
    pref: nat,
) -> (Seq<ChunkPlan>, Seq<Seq<u8>>) {
    let p = block_pair_enc(b);
    if sum_lens(pending) + p.len() > pref {
        (
            done.push(
                ChunkPlan { parent: b.hash@, number: b.number as nat + 1, pairs: pending },
            ),
            seq![p],
        )
    } else {
        (done, seq![p] + pending)
    }
}

/// Packs the walked blocks in walk order, one step each.
pub open spec fn fold_blocks(recs: Seq<BlockData>, pref: nat) -> (Seq<ChunkPlan>, Seq<Seq<u8>>)
    decreases recs,
{
    if recs.len() == 0 {
        (Seq::empty(), Seq::empty())
    } else {
        let prev = fold_blocks(recs.drop_last(), pref);
        spec_push_block(prev.0, prev.1, recs.last(), pref)
    }
}

/// The chunks the block chunker produces for a walk: the packed chunks,
/// with the residue flushed last under the genesis label and number one.
pub open spec fn groups_blocks(recs: Seq<BlockData>, genesis: Seq<u8>, pref: nat) -> Seq<
    ChunkPlan,
> {
    let folded = fold_blocks(recs, pref);
    if sum_lens(folded.1) != 0 {
        folded.0.push(ChunkPlan { parent: genesis, number: 1, pairs: folded.1 })
    } else {
        folded.0
    }
}

/// A block chunk's payload as a codec value: the parent hash, the number,
/// then the encoded pairs, each wrapped as a byte string.
pub open spec fn block_chunk_item(plan: ChunkPlan) -> ItemM {
    ItemM::List(
        seq![ItemM::Bytes(plan.parent), ItemM::Bytes(be_bytes(plan.number))] + Seq::new(
            plan.pairs.len(),
            |i: int| ItemM::Bytes(plan.pairs[i]),
        ),
    )
}

/// Used to build block chunks.
pub struct BlockChunker {
    /// Encoded `(abridged, receipts)` pairs waiting for the next flush,
    /// ascending by block number.
    rlps: VecDeque<Vec<u8>>,
    /// Hashes of the chunks produced so far, in flush order.
    pub hashes: Vec<H256>,
    /// The chunks produced so far, ready to persist.
    pub chunks: Vec<ChunkFile>,
    /// The reusable compression buffer.
    snappy_buffer: Vec<u8>,
    /// The plans of the chunks flushed so far.
    done_plans: Ghost<Seq<ChunkPlan>>,
}

impl BlockChunker {
    /// The pairs waiting for the next flush, in chunk order.
    pub closed spec fn pending(&self) -> Seq<Seq<u8>> {
        Seq::new(self.rlps@.len(), |i: int| self.rlps@[i]@)
    }

    /// The plans of the chunks flushed so far.
    pub closed spec fn done(&self) -> Seq<ChunkPlan> {
        self.done_plans@
    }

    /// The chunker's artifacts match its plans.
    pub closed spec fn wf(&self) -> bool {
        &&& self.chunks@.len() == self.done_plans@.len()
        &&& self.hashes@.len() == self.done_plans@.len()
        &&& forall|i: int| 0 <= i < self.done_plans@.len() ==> {
            &&& (#[trigger] self.chunks@[i]).wf()
            &&& self.chunks@[i].data@ == crate::compress::snappy_of(
                enc(block_chunk_item(self.done_plans@[i])),
            )
            &&& self.hashes@[i]@ == self.chunks@[i].hash@
        }
    }

    /// A fresh chunker with an empty buffer.
    pub fn new() -> (r: BlockChunker)
        ensures
            r.wf(),
            r.done() == Seq::<ChunkPlan>::empty(),
            r.pending() == Seq::<Seq<u8>>::empty(),
    {
        let mut snappy_buffer: Vec<u8> = Vec::new();
        snappy_buffer.resize(SNAPPY_BUFFER_SIZE, 0u8);
        let r = BlockChunker {
            rlps: VecDeque::new(),
            hashes: Vec::new(),
            chunks: Vec::new(),
            snappy_buffer,
            done_plans: Ghost(Seq::empty()),
        };
        proof {
            assert(r.pending() =~= Seq::<Seq<u8>>::empty());
        }
        r
    }

    /// Writes out the waiting pairs as one chunk headed by the given
    /// parent hash and number.  Fails only when the compressor cannot
    /// take the payload.
    #[verifier::loop_isolation(false)]
    fn write_chunk(&mut self, parent_hash: &H256, number: u64) -> (r: Result<(), Error>)
        requires
            old(self).wf(),
        ensures
            final(self).wf(),
            r is Ok ==> ({
                let plan = ChunkPlan {
                    parent: parent_hash@,
                    number: number as nat,
                    pairs: old(self).pending(),
                };
                &&& final(self).done() == old(self).done().push(plan)
                &&& final(self).pending() == Seq::<Seq<u8>>::empty()
                &&& final(self).chunks@.len() == old(self).chunks@.len() + 1
                &&& final(self).hashes@.len() == old(self).hashes@.len() + 1
                &&& forall|i: int| 0 <= i < old(self).chunks@.len() ==> final(self).chunks@[i]
                    == old(self).chunks@[i]
                &&& forall|i: int| 0 <= i < old(self).hashes@.len() ==> final(self).hashes@[i]
                    == old(self).hashes@[i]
                &&& final(self).chunks@.last().wf()
                &&& final(self).chunks@.last().data@ == crate::compress::snappy_of(
                    enc(block_chunk_item(plan)),
                )
                &&& final(self).hashes@.last()@ == final(self).chunks@.last().hash@
            }),
            r matches Err(e) ==> e == Error::InvariantViolation
                && crate::compress::spec_max_compressed_len(
                enc(
                    block_chunk_item(
                        ChunkPlan {
                            parent: parent_hash@,
                            number: number as nat,
                            pairs: old(self).pending(),
                        },
                    ),
                ).len(),
            ) > crate::compress::MAX_COMPRESS_INPUT as nat && final(self).done() == old(
                self,
            ).done() && final(self).pending() == old(self).pending(),
    {
        let ghost plan = ChunkPlan {
            parent: parent_hash@,
            number: number as nat,
            pairs: old(self).pending(),
        };
        let mut items: Vec<Item> = Vec::new();
        items.push(Item::Bytes(parent_hash.duplicate().bytes));
        items.push(Item::Bytes(be_bytes_exec(number)));
        proof {
            crate::rlp::lemma_models_push(Seq::<Item>::empty(), items@[0]);
            crate::rlp::lemma_models_push(items@.subrange(0, 1), items@[1]);
            assert(Seq::<Item>::empty().push(items@[0]) =~= items@.subrange(0, 1));
            assert(items@.subrange(0, 1).push(items@[1]) =~= items@);
            assert(models_of(Seq::<Item>::empty()) =~= Seq::<ItemM>::empty());
            assert(models_of(items@) =~= seq![
                ItemM::Bytes(plan.parent),
                ItemM::Bytes(be_bytes(plan.number)),
            ]);
        }
        let mut i: usize = 0;
        while i < self.rlps.len()
            invariant
                i <= self.rlps@.len(),
                items@.len() == i + 2,
                models_of(items@) =~= seq![
                    ItemM::Bytes(plan.parent),
                    ItemM::Bytes(be_bytes(plan.number)),
                ] + Seq::new(i as nat, |j: int| ItemM::Bytes(plan.pairs[j])),
            decreases self.rlps@.len() - i,
        {
            let ghost prev = items@;
            items.push(Item::Bytes(dup_bytes(&self.rlps[i])));
            proof {
                crate::rlp::lemma_models_push(prev, items@.last());
                assert(models_of(items@) =~= seq![
                    ItemM::Bytes(plan.parent),
                    ItemM::Bytes(be_bytes(plan.number)),
                ] + Seq::new((i + 1) as nat, |j: int| ItemM::Bytes(plan.pairs[j])));
            }
            i = i + 1;
        }
        let raw_data = Item::List(items).encode();
        proof {
            assert(Seq::new(plan.pairs.len(), |j: int| ItemM::Bytes(plan.pairs[j])) =~= Seq::new(
                self.rlps@.len() as nat,
                |j: int| ItemM::Bytes(plan.pairs[j]),
            ));
            assert(raw_data@ == enc(block_chunk_item(plan)));
        }
        let file = match crate::chunk::write_chunk(&raw_data, &mut self.snappy_buffer) {
            Ok(f) => f,
            Err(e) => {
                return Err(e);
            },
        };
        self.hashes.push(file.hash.duplicate());
        self.chunks.push(file);
        self.rlps.clear();
        let ghost new_done = self.done_plans@.push(plan);
        self.done_plans = Ghost(new_done);
        proof {
            assert(final(self).pending() =~= Seq::<Seq<u8>>::empty());
        }
        Ok(())
    }
}

impl BlockChunker {
    /// Puts one encoded pair at the front of the waiting run, so that
    /// chunks come out in ascending block order.
    fn push_front_pair(&mut self, pair: Vec<u8>)
        requires
            old(self).wf(),
        ensures
            final(self).wf(),
            final(self).done() == old(self).done(),
            final(self).pending() == seq![pair@] + old(self).pending(),
    {
        let ghost pre = self.pending();
        self.rlps.push_front(pair);
        proof {
            assert(final(self).pending() =~= seq![pair@] + pre);
        }
    }
}

/// The position of the block with hash `h`, if the reader knows one.
fn find_block(blocks: &Vec<BlockData>, h: &H256) -> (r: Option<usize>)
    ensures
        match r {
            Some(i) => find_from(blocks@, h@, 0) == Some(i as int) && i < blocks@.len()
                && blocks@[i as int].hash@ == h@,
            None => find_from(blocks@, h@, 0) is None,
        },
{
    let mut i: usize = 0;
    while i < blocks.len()
        invariant
            i <= blocks@.len(),
            find_from(blocks@, h@, 0) == find_from(blocks@, h@, i as int),
        decreases blocks@.len() - i,
    {
        if blocks[i].hash.same(h) {
            return Some(i);
        }
        i = i + 1;
    }
    None
}

/// Create all block chunks for the chain from the best block down to the
/// genesis, against an explicit preferred chunk size.  Returns the chunk
/// hashes in flush order beside the chunks themselves.
#[verifier::loop_isolation(false)]
#[verifier::rlimit(100)]
pub fn chunk_blocks_with(
    blocks: &Vec<BlockData>,
    best_block_hash: &H256,
    genesis_hash: &H256,
    preferred_size: usize,
) -> (r: Result<(Vec<H256>, Vec<ChunkFile>), Error>)
    requires
        preferred_size > 0,
        forall|i: int| 0 <= i < blocks@.len() ==> (#[trigger] blocks@[i]).number < u64::MAX,
    ensures
        r matches Ok(out) ==> (match walk(blocks@, best_block_hash@, genesis_hash@, blocks@.len()) {
            Ok(recs) => {
                let groups = groups_blocks(recs, genesis_hash@, preferred_size as nat);
                &&& out.0@.len() == groups.len()
                &&& out.1@.len() == groups.len()
                &&& forall|i: int| 0 <= i < groups.len() ==> {
                    &&& (#[trigger] out.1@[i]).wf()
                    &&& out.1@[i].data@ == crate::compress::snappy_of(
                        enc(block_chunk_item(groups[i])),
                    )
                    &&& out.0@[i]@ == out.1@[i].hash@
                }
            },
            Err(_) => false,
        }),
        r matches Err(e) ==> (walk(blocks@, best_block_hash@, genesis_hash@, blocks@.len())
            matches Err(e2) && e == e2) || e == Error::InvariantViolation,
        walk(blocks@, best_block_hash@, genesis_hash@, blocks@.len()) matches Ok(recs) && (
        forall|k: int| 0 <= k < groups_blocks(recs, genesis_hash@, preferred_size as nat).len()
            ==> crate::compress::spec_max_compressed_len(
            enc(
                block_chunk_item(
                    #[trigger] groups_blocks(recs, genesis_hash@, preferred_size as nat)[k],
                ),
            ).len(),
        ) <= crate::compress::MAX_COMPRESS_INPUT as nat) ==> r is Ok,
        best_block_hash@ == genesis_hash@ ==> (r matches Ok(out) && out.0@.len() == 0
            && out.1@.len() == 0),
{
    let mut chunker = BlockChunker::new();
    let mut current_hash = best_block_hash.duplicate();
    let mut fuel = blocks.len();
    let mut loaded_size: usize = 0;
    let ghost mut processed = Seq::<BlockData>::empty();
    let ghost full = walk(blocks@, best_block_hash@, genesis_hash@, blocks@.len());
    while !current_hash.same(genesis_hash)
        invariant
            fuel <= blocks@.len(),
            chunker.wf(),
            (chunker.done(), chunker.pending()) == fold_blocks(
                processed,
                preferred_size as nat,
            ),
            loaded_size as nat == sum_lens(chunker.pending()),
            sum_lens(chunker.pending()) <= preferred_size || chunker.pending().len() == 1,
            (match walk(blocks@, current_hash@, genesis_hash@, fuel as nat) {
                Ok(rest) => full == Ok::<Seq<BlockData>, Error>(processed + rest),
                Err(e) => full == Err::<Seq<BlockData>, Error>(e),
            }),
        decreases fuel,
    {
        if fuel == 0 {
            return Err(Error::ChainCorrupt);
        }
        let idx = match find_block(blocks, &current_hash) {
            Some(i) => i,
            None => {
                return Err(Error::BlockNotFound);
            },
        };
        let ghost b = blocks@[idx as int];
        let ghost fuel_pre = fuel as nat;
        fuel = fuel - 1;
        let mut kv: Vec<Item> = Vec::new();
        kv.push(Item::Bytes(dup_bytes(&blocks[idx].abridged_rlp)));
        kv.push(Item::Bytes(dup_bytes(&blocks[idx].receipts_rlp)));
        proof {
            crate::rlp::lemma_models_push(Seq::<Item>::empty(), kv@[0]);
            crate::rlp::lemma_models_push(kv@.subrange(0, 1), kv@[1]);
            assert(Seq::<Item>::empty().push(kv@[0]) =~= kv@.subrange(0, 1));
            assert(kv@.subrange(0, 1).push(kv@[1]) =~= kv@);
            assert(models_of(Seq::<Item>::empty()) =~= Seq::<ItemM>::empty());
            assert(models_of(kv@) =~= seq![
                ItemM::Bytes(b.abridged_rlp@),
                ItemM::Bytes(b.receipts_rlp@),
            ]);
        }
        let pair = Item::List(kv).encode();
        proof {
            assert(pair@ == block_pair_enc(b));
        }
        let ghost done_pre = chunker.done();
        let ghost pending_pre = chunker.pending();
        if pair.len() > preferred_size || loaded_size > preferred_size - pair.len() {
            match chunker.write_chunk(&blocks[idx].hash, blocks[idx].number + 1) {
                Ok(()) => {},
                Err(e) => {
                    proof {
                        let pref = preferred_size as nat;
                        let plan = ChunkPlan {
                            parent: b.hash@,
                            number: b.number as nat + 1,
                            pairs: pending_pre,
                        };
                        match walk(blocks@, best_block_hash@, genesis_hash@, blocks@.len()) {
                            Err(_) => {},
                            Ok(recs) => {
                                match walk(blocks@, current_hash@, genesis_hash@, fuel_pre) {
                                    Err(_) => {},
                                    Ok(rest) => {
                                        let j = processed.len() as int;
                                        assert(rest == seq![b] + (walk(
                                            blocks@,
                                            b.parent_hash@,
                                            genesis_hash@,
                                            (fuel_pre - 1) as nat,
                                        ))->Ok_0);
                                        assert(recs =~= processed + rest);
                                        assert(recs.take(j) =~= processed);
                                        assert(recs[j] == b);
                                        assert(recs.take(j + 1).drop_last() =~= processed);
                                        assert(recs.take(j + 1).last() == b);
                                        assert(fold_blocks(recs.take(j + 1), pref).0
                                            == chunker.done().push(plan));
                                        lemma_fold_blocks_prefix(
                                            recs,
                                            j + 1,
                                            genesis_hash@,
                                            pref,
                                        );
                                        let at = chunker.done().len() as int;
                                        assert(chunker.done().push(plan)[at] == plan);
                                        assert(fold_blocks(recs.take(j + 1), pref).0[at]
                                            == plan);
                                        assert(groups_blocks(recs, genesis_hash@, pref)[at]
                                            == plan);
                                    },
                                }
                            },
                        }
                    }
                    return Err(e);
                },
            }
            loaded_size = pair.len();
        } else {
            loaded_size = loaded_size + pair.len();
        }
        let ghost pending_mid = chunker.pending();
        chunker.push_front_pair(pair);
        proof {
            assert(chunker.pending() =~= seq![block_pair_enc(b)] + pending_mid);
            assert((seq![block_pair_enc(b)] + pending_mid).drop_first() =~= pending_mid);
            lemma_sum_lens_cons(block_pair_enc(b), pending_mid);
            let stepped = spec_push_block(done_pre, pending_pre, b, preferred_size as nat);
            assert(chunker.pending() =~= stepped.1);
            assert(chunker.done() == stepped.0);
            let processed_pre = processed;
            processed = processed.push(b);
            assert(processed.drop_last() =~= processed_pre);
            assert(processed.last() == b);
            assert((chunker.done(), chunker.pending()) == fold_blocks(
                processed,
                preferred_size as nat,
            ));
        }
        current_hash = blocks[idx].parent_hash.duplicate();
        proof {
            assert(walk(blocks@, b.hash@, genesis_hash@, fuel_pre) == (match walk(
                blocks@,
                b.parent_hash@,
                genesis_hash@,
                (fuel_pre - 1) as nat,
            ) {
                Err(e) => Err::<Seq<BlockData>, Error>(e),
                Ok(rest) => Ok::<Seq<BlockData>, Error>(seq![b] + rest),
            }));
            assert(forall|rest: Seq<BlockData>|
                processed.drop_last() + (seq![b] + rest) =~= processed + rest);
        }
    }
    proof {
        assert(walk(blocks@, current_hash@, genesis_hash@, fuel as nat) == Ok::<
            Seq<BlockData>,
            Error,
        >(Seq::empty()));
        assert(processed + Seq::<BlockData>::empty() =~= processed);
        lemma_fold_blocks_pending_pos(processed, preferred_size as nat);
        lemma_sum_lens_zero(chunker.pending());
    }
    if loaded_size != 0 {
        match chunker.write_chunk(genesis_hash, 1) {
            Ok(()) => {},
            Err(e) => {
                proof {
                    let pref = preferred_size as nat;
                    match walk(blocks@, best_block_hash@, genesis_hash@, blocks@.len()) {
                        Err(_) => {},
                        Ok(recs) => {
                            let plan = ChunkPlan {
                                parent: genesis_hash@,
                                number: 1,
                                pairs: chunker.pending(),
                            };
                            assert(recs =~= processed);
                            assert(groups_blocks(recs, genesis_hash@, pref)
                                == chunker.done().push(plan));
                            let at = chunker.done().len() as int;
                            assert(chunker.done().push(plan)[at] == plan);
                            assert(groups_blocks(recs, genesis_hash@, pref)[at] == plan);
                        },
                    }
                }
                return Err(e);
            },
        }
    }
    Ok((chunker.hashes, chunker.chunks))
}

/// Create and write out all block chunks, returning the hashes of the
/// block chunks created, in flush order, beside the chunks themselves.
pub fn chunk_blocks(
    blocks: &Vec<BlockData>,
    best_block_hash: &H256,
    genesis_hash: &H256,
) -> (r: Result<(Vec<H256>, Vec<ChunkFile>), Error>)
    requires
        forall|i: int| 0 <= i < blocks@.len() ==> (#[trigger] blocks@[i]).number < u64::MAX,
    ensures
        r matches Ok(out) ==> (match walk(blocks@, best_block_hash@, genesis_hash@, blocks@.len()) {
            Ok(recs) => {
                let groups = groups_blocks(recs, genesis_hash@, PREFERRED_CHUNK_SIZE as nat);
                &&& out.0@.len() == groups.len()
                &&& out.1@.len() == groups.len()
                &&& forall|i: int| 0 <= i < groups.len() ==> {
                    &&& (#[trigger] out.1@[i]).wf()
                    &&& out.1@[i].data@ == crate::compress::snappy_of(
                        enc(block_chunk_item(groups[i])),
                    )
                    &&& out.0@[i]@ == out.1@[i].hash@
                }
            },
            Err(_) => false,
        }),
        r matches Err(e) ==> (walk(blocks@, best_block_hash@, genesis_hash@, blocks@.len())
            matches Err(e2) && e == e2) || e == Error::InvariantViolation,
        walk(blocks@, best_block_hash@, genesis_hash@, blocks@.len()) matches Ok(recs) && (
        forall|k: int| 0 <= k < groups_blocks(
            recs,
            genesis_hash@,
            PREFERRED_CHUNK_SIZE as nat,
        ).len() ==> crate::compress::spec_max_compressed_len(
            enc(
                block_chunk_item(
                    #[trigger] groups_blocks(recs, genesis_hash@, PREFERRED_CHUNK_SIZE as nat)[k],
                ),
            ).len(),
        ) <= crate::compress::MAX_COMPRESS_INPUT as nat) ==> r is Ok,
        best_block_hash@ == genesis_hash@ ==> (r matches Ok(out) && out.0@.len() == 0
            && out.1@.len() == 0),
{
    chunk_blocks_with(blocks, best_block_hash, genesis_hash, PREFERRED_CHUNK_SIZE)
}

/// Prepending a pair adds its length to the run's total.
proof fn lemma_sum_lens_cons(p: Seq<u8>, rest: Seq<Seq<u8>>)
    ensures
        sum_lens(seq![p] + rest) == p.len() + sum_lens(rest),
    decreases rest,
{
    let whole = seq![p] + rest;
    if rest.len() == 0 {
        assert(whole =~= seq![p]);
        assert(whole.drop_last() =~= Seq::<Seq<u8>>::empty());
        assert(sum_lens(Seq::<Seq<u8>>::empty()) == 0);
        assert(whole.last() == p);
        assert(rest =~= Seq::<Seq<u8>>::empty());
    } else {
        assert(whole.drop_last() =~= seq![p] + rest.drop_last());
        assert(whole.last() == rest.last());
        lemma_sum_lens_cons(p, rest.drop_last());
    }
}

/// Every pair the fold leaves pending holds at least one byte.
proof fn lemma_fold_blocks_pending_pos(recs: Seq<BlockData>, pref: nat)
    ensures
        forall|i: int| 0 <= i < fold_blocks(recs, pref).1.len() ==> (#[trigger] fold_blocks(
            recs,
            pref,
        ).1[i]).len() > 0,
    decreases recs,
{
    if recs.len() > 0 {
        lemma_fold_blocks_pending_pos(recs.drop_last(), pref);
        crate::rlp::lemma_enc_len(
            ItemM::List(
                seq![
                    ItemM::Bytes(recs.last().abridged_rlp@),
                    ItemM::Bytes(recs.last().receipts_rlp@),
                ],
            ),
        );
        let prev = fold_blocks(recs.drop_last(), pref);
        let p = block_pair_enc(recs.last());
        if sum_lens(prev.1) + p.len() > pref {
            assert(seq![p][0] == p);
        } else {
            assert(forall|i: int| 0 <= i < (seq![p] + prev.1).len() ==> (seq![p] + prev.1)[i]
                == (if i == 0 { p } else { prev.1[i - 1] }));
        }
    }
}

/// The encoded pairs of a walk, in walk order (highest block first).
pub open spec fn pairs_of(recs: Seq<BlockData>) -> Seq<Seq<u8>> {
    Seq::new(recs.len(), |i: int| block_pair_enc(recs[i]))
}

/// The pairs of a run of chunks read from the last chunk back to the
/// first: ascending block order, since the chunk flushed first holds the
/// highest blocks.
pub open spec fn rev_flatten(gs: Seq<ChunkPlan>) -> Seq<Seq<u8>>
    decreases gs,
{
    if gs.len() == 0 {
        Seq::empty()
    } else {
        gs.last().pairs + rev_flatten(gs.drop_last())
    }
}

/// The fold loses no pair: the pending run before the flushed chunks,
/// last chunk first, is the walk reversed.
proof fn lemma_fold_blocks_cover(recs: Seq<BlockData>, pref: nat)
    ensures
        fold_blocks(recs, pref).1 + rev_flatten(fold_blocks(recs, pref).0) == pairs_of(
            recs,
        ).reverse(),
    decreases recs,
{
    if recs.len() == 0 {
        assert(fold_blocks(recs, pref).1 + rev_flatten(fold_blocks(recs, pref).0) =~= pairs_of(
            recs,
        ).reverse());
    } else {
        lemma_fold_blocks_cover(recs.drop_last(), pref);
        let prev = fold_blocks(recs.drop_last(), pref);
        let b = recs.last();
        let p = block_pair_enc(b);
        assert(pairs_of(recs).reverse() =~= seq![p] + pairs_of(recs.drop_last()).reverse());
        if sum_lens(prev.1) + p.len() > pref {
            let plan = ChunkPlan { parent: b.hash@, number: b.number as nat + 1, pairs: prev.1 };
            assert(prev.0.push(plan).drop_last() =~= prev.0);
            assert(prev.0.push(plan).last() == plan);
            assert(seq![p] + (prev.1 + rev_flatten(prev.0)) =~= seq![p] + rev_flatten(
                prev.0.push(plan),
            ));
        } else {
            assert((seq![p] + prev.1) + rev_flatten(prev.0) =~= seq![p] + (prev.1 + rev_flatten(
                prev.0,
            )));
        }
    }
}

/// Law: reading the block chunks from the last flushed back to the first
/// and concatenating their pairs gives the walked pairs in ascending
/// block order — every walked block exactly once, none lost, none added.
/// The hash list of `chunk_blocks` is in flush order, so this reading is
/// its reverse.
pub proof fn lemma_block_chunks_cover(recs: Seq<BlockData>, genesis: Seq<u8>, pref: nat)
    ensures
        rev_flatten(groups_blocks(recs, genesis, pref)) == pairs_of(recs).reverse(),
{
    lemma_fold_blocks_cover(recs, pref);
    let folded = fold_blocks(recs, pref);
    if sum_lens(folded.1) != 0 {
        let plan = ChunkPlan { parent: genesis, number: 1, pairs: folded.1 };
        assert(folded.0.push(plan).drop_last() =~= folded.0);
        assert(folded.0.push(plan).last() == plan);
    } else {
        lemma_fold_blocks_pending_pos(recs, pref);
        lemma_sum_lens_zero(folded.1);
        assert(folded.1 =~= Seq::<Seq<u8>>::empty());
        assert(Seq::<Seq<u8>>::empty() + rev_flatten(folded.0) =~= rev_flatten(folded.0));
    }
}

/// Law: the walked blocks link hash to parent hash, each block's parent
/// the next walked block, and the last walked block's parent the
/// genesis: the chunks cover `(genesis, best]` with no gap.
pub proof fn lemma_walk_links(blocks: Seq<BlockData>, cur: Seq<u8>, genesis: Seq<u8>, fuel: nat)
    ensures
        walk(blocks, cur, genesis, fuel) matches Ok(recs) ==> {
            &&& (recs.len() == 0) == (cur == genesis)
            &&& recs.len() > 0 ==> recs[0].hash@ == cur
            &&& forall|i: int| 0 <= i < recs.len() - 1 ==> (#[trigger] recs[i]).parent_hash@
                == recs[i + 1].hash@
            &&& recs.len() > 0 ==> recs.last().parent_hash@ == genesis
        },
    decreases fuel,
{
    if cur != genesis && fuel > 0 {
        match find_from(blocks, cur, 0) {
            None => {},
            Some(i) => {
                lemma_find_from_hash(blocks, cur, 0);
                lemma_walk_links(blocks, blocks[i].parent_hash@, genesis, (fuel - 1) as nat);
                match walk(blocks, blocks[i].parent_hash@, genesis, (fuel - 1) as nat) {
                    Err(_) => {},
                    Ok(rest) => {
                        let recs = seq![blocks[i]] + rest;
                        assert(recs[0] == blocks[i]);
                        assert(forall|j: int| 1 <= j < recs.len() ==> recs[j] == rest[j - 1]);
                        if rest.len() > 0 {
                            assert(recs.last() == rest.last());
                        }
                    },
                }
            },
        }
    }
}

/// What `find_from` returns carries the hash it was asked for.
proof fn lemma_find_from_hash(blocks: Seq<BlockData>, h: Seq<u8>, i: int)
    ensures
        find_from(blocks, h, i) matches Some(j) ==> 0 <= j < blocks.len() && blocks[j].hash@ == h,
    decreases blocks.len() - i,
{
    if 0 <= i < blocks.len() && blocks[i].hash@ != h {
        lemma_find_from_hash(blocks, h, i + 1);
    }
}

/// Law: a chain with exactly one block above the genesis gives exactly
/// one chunk, attached at the genesis with number one, holding that one
/// block's pair — provided the pair fits the preferred size, since an
/// oversize pair forces an empty chunk out first.
pub proof fn lemma_single_block_chunk(recs: Seq<BlockData>, genesis: Seq<u8>, pref: nat)
    requires
        recs.len() == 1,
        block_pair_enc(recs[0]).len() <= pref,
    ensures
        groups_blocks(recs, genesis, pref) == seq![
            ChunkPlan { parent: genesis, number: 1, pairs: seq![block_pair_enc(recs[0])] },
        ],
{
    let p = block_pair_enc(recs[0]);
    assert(recs.drop_last() =~= Seq::<BlockData>::empty());
    assert(fold_blocks(Seq::<BlockData>::empty(), pref)
        == (Seq::<ChunkPlan>::empty(), Seq::<Seq<u8>>::empty()));
    assert(sum_lens(Seq::<Seq<u8>>::empty()) == 0);
    assert(recs.last() == recs[0]);
    assert(seq![p] + Seq::<Seq<u8>>::empty() =~= seq![p]);
    let folded = fold_blocks(recs, pref);
    assert(folded.1 == seq![p]);
    assert(seq![p].drop_last() =~= Seq::<Seq<u8>>::empty());
    assert(seq![p].last() == p);
    crate::rlp::lemma_enc_len(
        ItemM::List(
            seq![
                ItemM::Bytes(recs[0].abridged_rlp@),
                ItemM::Bytes(recs[0].receipts_rlp@),
            ],
        ),
    );
    assert(sum_lens(seq![p]) == p.len());
    assert(Seq::<ChunkPlan>::empty().push(
        ChunkPlan { parent: genesis, number: 1, pairs: seq![p] },
    ) =~= seq![ChunkPlan { parent: genesis, number: 1, pairs: seq![p] }]);
}

/// Law: no block chunk's pairs pass the preferred size, unless the chunk
/// holds at most one oversize pair.
pub proof fn lemma_block_chunk_sizes(recs: Seq<BlockData>, genesis: Seq<u8>, pref: nat, k: int)
    requires
        0 <= k < groups_blocks(recs, genesis, pref).len(),
    ensures
        sum_lens(groups_blocks(recs, genesis, pref)[k].pairs) <= pref || groups_blocks(
            recs,
            genesis,
            pref,
        )[k].pairs.len() == 1,
{
    lemma_fold_blocks_sizes(recs, pref);
    let folded = fold_blocks(recs, pref);
    if sum_lens(folded.1) != 0 {
        if k < folded.0.len() {
            assert(groups_blocks(recs, genesis, pref)[k] == folded.0[k]);
        } else {
            assert(groups_blocks(recs, genesis, pref)[k] == ChunkPlan {
                parent: genesis,
                number: 1,
                pairs: folded.1,
            });
        }
    }
}

/// Size bounds the fold maintains: every flushed chunk's pairs stay at
/// or under the preferred size or are a single pair, and so does the
/// pending run.
proof fn lemma_fold_blocks_sizes(recs: Seq<BlockData>, pref: nat)
    ensures
        forall|k: int| 0 <= k < fold_blocks(recs, pref).0.len() ==> sum_lens(
            (#[trigger] fold_blocks(recs, pref).0[k]).pairs,
        ) <= pref || fold_blocks(recs, pref).0[k].pairs.len() == 1,
        sum_lens(fold_blocks(recs, pref).1) <= pref || fold_blocks(recs, pref).1.len() == 1,
    decreases recs,
{
    if recs.len() > 0 {
        lemma_fold_blocks_sizes(recs.drop_last(), pref);
        let prev = fold_blocks(recs.drop_last(), pref);
        let p = block_pair_enc(recs.last());
        if sum_lens(prev.1) + p.len() > pref {
            assert(seq![p].drop_last() =~= Seq::<Seq<u8>>::empty());
            assert(sum_lens(Seq::<Seq<u8>>::empty()) == 0);
            assert(seq![p].last() == p);
            let plan = ChunkPlan {
                parent: recs.last().hash@,
                number: recs.last().number as nat + 1,
                pairs: prev.1,
            };
            assert(forall|k: int| 0 <= k < prev.0.push(plan).len() ==> prev.0.push(plan)[k]
                == (if k < prev.0.len() { prev.0[k] } else { plan }));
        } else {
            lemma_sum_lens_cons(p, prev.1);
        }
    }
}

/// Every chunk the fold has flushed over a prefix of the walk is one of
/// the chunks of the whole walk, at the same place.
proof fn lemma_fold_blocks_prefix(recs: Seq<BlockData>, i: int, genesis: Seq<u8>, pref: nat)
    requires
        0 <= i <= recs.len(),
    ensures
        fold_blocks(recs.take(i), pref).0.len() <= groups_blocks(recs, genesis, pref).len(),
        forall|k: int| 0 <= k < fold_blocks(recs.take(i), pref).0.len() ==> #[trigger] fold_blocks(
            recs.take(i),
            pref,
        ).0[k] == groups_blocks(recs, genesis, pref)[k],
    decreases recs.len() - i,
{
    if i == recs.len() {
        assert(recs.take(i) =~= recs);
        let folded = fold_blocks(recs, pref);
        if sum_lens(folded.1) != 0 {
            let plan = ChunkPlan { parent: genesis, number: 1, pairs: folded.1 };
            assert(forall|k: int| 0 <= k < folded.0.len() ==> folded.0.push(plan)[k]
                == folded.0[k]);
        }
    } else {
        lemma_fold_blocks_prefix(recs, i + 1, genesis, pref);
        assert(recs.take(i + 1).drop_last() =~= recs.take(i));
        assert(recs.take(i + 1).last() == recs[i]);
        let part = fold_blocks(recs.take(i), pref);
        let p = block_pair_enc(recs[i]);
        if sum_lens(part.1) + p.len() > pref {
            let plan = ChunkPlan {
                parent: recs[i].hash@,
                number: recs[i].number as nat + 1,
                pairs: part.1,
            };
            assert(fold_blocks(recs.take(i + 1), pref).0 == part.0.push(plan));
            assert(forall|k: int| 0 <= k < part.0.len() ==> part.0.push(plan)[k] == part.0[k]);
        }
    }
}

/// A run of encodings takes no room exactly when it is empty.
proof fn lemma_sum_lens_zero(s: Seq<Seq<u8>>)
    requires
        forall|i: int| 0 <= i < s.len() ==> (#[trigger] s[i]).len() > 0,
    ensures
        (sum_lens(s) == 0) == (s.len() == 0),
    decreases s,
{
    if s.len() > 0 {
        lemma_sum_lens_zero(s.drop_last());
    }
}

} // verus!