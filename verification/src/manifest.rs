//! The manifest: the small artifact binding the ordered state-chunk hashes,
//! the ordered block-chunk hashes, and the expected post-restoration state
//! root.  Hash order is application order on restoration.

use vstd::prelude::*;
use crate::hash::H256;
use crate::rlp::{copy_range, dec_full, enc, DecoderError, Item, ItemM};

verus! {

broadcast use vstd::std_specs::vec::group_vec_axioms;

/// Manifest data.
#[derive(Debug, PartialEq)]
pub struct ManifestData {
    /// List of state chunk hashes, in application order.
    pub state_hashes: Vec<H256>,
    /// List of block chunk hashes, in application order.
    pub block_hashes: Vec<H256>,
    /// The final, expected state root.
    pub state_root: H256,
}

/// The byte strings of a list of hashes.
pub open spec fn hashes_view(hs: Seq<H256>) -> Seq<Seq<u8>> {
    Seq::new(hs.len(), |i: int| hs[i]@)
}

/// A list of hash byte strings as a codec value.
pub open spec fn hashes_item(hs: Seq<Seq<u8>>) -> ItemM {
    ItemM::List(Seq::new(hs.len(), |i: int| ItemM::Bytes(hs[i])))
}

/// The manifest triple as a codec value.
pub open spec fn manifest_item(sh: Seq<Seq<u8>>, bh: Seq<Seq<u8>>, root: Seq<u8>) -> ItemM {
    ItemM::List(seq![hashes_item(sh), hashes_item(bh), ItemM::Bytes(root)])
}

/// The encoded manifest.
pub open spec fn manifest_enc(sh: Seq<Seq<u8>>, bh: Seq<Seq<u8>>, root: Seq<u8>) -> Seq<u8> {
    enc(manifest_item(sh, bh, root))
}

/// All byte strings in a list are 32 bytes long.
pub open spec fn all_hashes_wf(hs: Seq<Seq<u8>>) -> bool {
    forall|i: int| 0 <= i < hs.len() ==> (#[trigger] hs[i]).len() == 32
}

impl ManifestData {
    /// Every hash inside is 32 bytes.
    pub open spec fn wf(&self) -> bool {
        &&& all_hashes_wf(hashes_view(self.state_hashes@))
        &&& all_hashes_wf(hashes_view(self.block_hashes@))
        &&& self.state_root@.len() == 32
    }

    /// The triple of byte strings this manifest stands for.
    pub open spec fn model(&self) -> (Seq<Seq<u8>>, Seq<Seq<u8>>, Seq<u8>) {
        (hashes_view(self.state_hashes@), hashes_view(self.block_hashes@), self.state_root@)
    }
}

/// Reads the hashes of a decoded list value back out, rejecting any shape
/// but a list of 32-byte strings.
pub open spec fn hashes_from_item(x: ItemM) -> Result<Seq<Seq<u8>>, DecoderError> {
    match x {
        ItemM::Bytes(_) => Err(DecoderError::UnexpectedShape),
        ItemM::List(s) => hashes_from_items(s),
    }
}

/// Reads 32-byte strings out of a sequence of codec values.
pub open spec fn hashes_from_items(s: Seq<ItemM>) -> Result<Seq<Seq<u8>>, DecoderError>
    decreases s,
{
    if s.len() == 0 {
        Ok(Seq::empty())
    } else {
        match (hashes_from_items(s.drop_last()), s.last()) {
            (Ok(r), ItemM::Bytes(b)) => {
                if b.len() == 32 {
                    Ok(r.push(b))
                } else {
                    Err(DecoderError::UnexpectedShape)
                }
            },
            _ => Err(DecoderError::UnexpectedShape),
        }
    }
}

/// Reads the manifest triple back out of a decoded value, rejecting any
/// shape but a three-item list of two hash lists and a root hash.
pub open spec fn manifest_from_item(x: ItemM) -> Result<
    (Seq<Seq<u8>>, Seq<Seq<u8>>, Seq<u8>),
    DecoderError,
> {
    match x {
        ItemM::List(s) => {
            if s.len() != 3 {
                Err(DecoderError::UnexpectedShape)
            } else {
                match (hashes_from_item(s[0]), hashes_from_item(s[1]), s[2]) {
                    (Ok(sh), Ok(bh), ItemM::Bytes(root)) => {
                        if root.len() == 32 {
                            Ok((sh, bh, root))
                        } else {
                            Err(DecoderError::UnexpectedShape)
                        }
                    },
                    _ => Err(DecoderError::UnexpectedShape),
                }
            }
        },
        ItemM::Bytes(_) => Err(DecoderError::UnexpectedShape),
    }
}

/// Turns a list of hashes into the codec value of their byte strings.
#[verifier::loop_isolation(false)]
fn hashes_to_item(hs: &Vec<H256>) -> (r: Item)
    ensures
        r.model() == hashes_item(hashes_view(hs@)),
{
    let mut items: Vec<Item> = Vec::new();
    let mut i: usize = 0;
    while i < hs.len()
        invariant
            i <= hs@.len(),
            items@.len() == i,
            crate::rlp::models_of(items@) =~= Seq::new(
                i as nat,
                |j: int| ItemM::Bytes(hs@[j]@),
            ),
        decreases hs@.len() - i,
    {
        let h = hs[i].duplicate();
        let ghost prev = items@;
        items.push(Item::Bytes(h.bytes));
        proof {
            crate::rlp::lemma_models_push(prev, Item::Bytes(h.bytes));
            assert(crate::rlp::models_of(items@)
                == crate::rlp::models_of(prev).push(Item::Bytes(h.bytes).model()));
            assert(Item::Bytes(h.bytes).model() == ItemM::Bytes(hs@[i as int]@));
            assert(crate::rlp::models_of(items@) =~= Seq::new(
                (i + 1) as nat,
                |j: int| ItemM::Bytes(hs@[j]@),
            ));
        }
        i = i + 1;
    }
    proof {
        assert(crate::rlp::models_of(items@) =~= Seq::new(
            hs@.len(),
            |j: int| ItemM::Bytes(hashes_view(hs@)[j]),
        ));
    }
    Item::List(items)
}

/// Reads a list of 32-byte strings out of a decoded value.
#[verifier::loop_isolation(false)]
fn hashes_from_item_exec(x: &Item) -> (r: Result<Vec<H256>, DecoderError>)
    ensures
        match r {
            Ok(hs) => hashes_from_item(x.model()) == Ok::<Seq<Seq<u8>>, DecoderError>(
                hashes_view(hs@),
            ) && all_hashes_wf(hashes_view(hs@)),
            Err(e) => hashes_from_item(x.model()) == Err::<Seq<Seq<u8>>, DecoderError>(e),
        },
{
    match x {
        Item::Bytes(_) => Err(DecoderError::UnexpectedShape),
        Item::List(items) => {
            let mut hs: Vec<H256> = Vec::new();
            let mut i: usize = 0;
            proof {
                assert(items@.subrange(0, 0) =~= Seq::<Item>::empty());
                assert(crate::rlp::models_of(Seq::<Item>::empty()) =~= Seq::<ItemM>::empty());
                assert(hashes_view(hs@) =~= Seq::<Seq<u8>>::empty());
            }
            while i < items.len()
                invariant
                    i <= items@.len(),
                    hs@.len() == i,
                    hashes_from_items(crate::rlp::models_of(items@.subrange(0, i as int)))
                        == Ok::<Seq<Seq<u8>>, DecoderError>(hashes_view(hs@)),
                    all_hashes_wf(hashes_view(hs@)),
                decreases items@.len() - i,
            {
                match &items[i] {
                    Item::Bytes(b) => {
                        if b.len() != 32 {
                            proof {
                                assert(items@[i as int].model() == ItemM::Bytes(b@));
                                lemma_hashes_from_items_shape(items@, i as int);
                                assert(x.model() == ItemM::List(crate::rlp::models_of(items@)));
                            }
                            return Err(DecoderError::UnexpectedShape);
                        }
                        let bytes = copy_range(b, 0, 32);
                        proof {
                            assert(b@.subrange(0, 32) =~= b@);
                        }
                        let ghost hs_pre = hs@;
                        hs.push(H256::from_vec(bytes));
                        proof {
                            let pre = items@.subrange(0, i as int);
                            let cur = items@.subrange(0, (i + 1) as int);
                            assert(cur =~= pre.push(items@[i as int]));
                            crate::rlp::lemma_models_push(pre, items@[i as int]);
                            let ms_pre = crate::rlp::models_of(pre);
                            let ms_cur = crate::rlp::models_of(cur);
                            assert(ms_cur == ms_pre.push(items@[i as int].model()));
                            assert(items@[i as int].model() == ItemM::Bytes(b@));
                            assert(ms_cur.drop_last() =~= ms_pre);
                            assert(ms_cur.last() == ItemM::Bytes(b@));
                            assert(ms_cur.len() > 0);
                            assert(hashes_from_items(ms_cur) == Ok::<Seq<Seq<u8>>, DecoderError>(
                                hashes_view(hs_pre).push(b@),
                            ));
                            assert(hashes_view(hs@) =~= hashes_view(hs_pre).push(b@));
                        }
                    },
                    Item::List(_) => {
                        proof {
                            lemma_hashes_from_items_shape(items@, i as int);
                            assert(x.model() == ItemM::List(crate::rlp::models_of(items@)));
                        }
                        return Err(DecoderError::UnexpectedShape);
                    },
                }
                i = i + 1;
            }
            proof {
                assert(items@.subrange(0, items@.len() as int) =~= items@);
                assert(x.model() == ItemM::List(crate::rlp::models_of(items@)));
            }
            Ok(hs)
        },
    }
}

/// If a prefix of the values parses as hashes and the next value is not a
/// 32-byte string, the whole run is rejected.
proof fn lemma_hashes_from_items_shape(items: Seq<Item>, bad: int)
    requires
        0 <= bad < items.len(),
        !(items[bad].model() matches ItemM::Bytes(b) && b.len() == 32),
    ensures
        hashes_from_items(crate::rlp::models_of(items)) == Err::<Seq<Seq<u8>>, DecoderError>(
            DecoderError::UnexpectedShape,
        ),
    decreases items.len(),
{
    let ms = crate::rlp::models_of(items);
    if items.len() == 0 {
    } else if bad == items.len() - 1 {
        assert(ms.last() == items.last().model());
        match hashes_from_items(ms.drop_last()) {
            Ok(_) => {},
            Err(_) => {
                lemma_hashes_from_items_err(items.drop_last());
            },
        }
    } else {
        crate::rlp::lemma_models_push(items.drop_last(), items.last());
        assert(items.drop_last().push(items.last()) =~= items);
        lemma_hashes_from_items_shape(items.drop_last(), bad);
        assert(ms.drop_last() =~= crate::rlp::models_of(items.drop_last()));
    }
}

/// A rejected run of values stays rejected with one more value after it.
proof fn lemma_hashes_from_items_err(items: Seq<Item>)
    ensures
        hashes_from_items(crate::rlp::models_of(items)) matches Err(e)
            ==> e == DecoderError::UnexpectedShape,
    decreases items.len(),
{
    if items.len() > 0 {
        lemma_hashes_from_items_err(items.drop_last());
        assert(crate::rlp::models_of(items).drop_last()
            =~= crate::rlp::models_of(items.drop_last()));
    }
}

impl ManifestData {
    /// Encodes the manifest: a three-item list of the state-chunk hashes,
    /// the block-chunk hashes, and the state root.
    pub fn to_rlp(self) -> (r: Vec<u8>)
        ensures
            r@ == manifest_enc(
                hashes_view(self.state_hashes@),
                hashes_view(self.block_hashes@),
                self.state_root@,
            ),
    {
        let sh = hashes_to_item(&self.state_hashes);
        let bh = hashes_to_item(&self.block_hashes);
        let mut outer: Vec<Item> = Vec::new();
        outer.push(sh);
        outer.push(bh);
        outer.push(Item::Bytes(self.state_root.bytes));
        proof {
            let o = outer@;
            assert(Seq::<Item>::empty().push(o[0]) =~= o.subrange(0, 1));
            assert(o.subrange(0, 1).push(o[1]) =~= o.subrange(0, 2));
            assert(o.subrange(0, 2).push(o[2]) =~= o);
            crate::rlp::lemma_models_push(Seq::<Item>::empty(), o[0]);
            crate::rlp::lemma_models_push(o.subrange(0, 1), o[1]);
            crate::rlp::lemma_models_push(o.subrange(0, 2), o[2]);
            assert(crate::rlp::models_of(Seq::<Item>::empty()) =~= Seq::<ItemM>::empty());
            assert(crate::rlp::models_of(o) =~= seq![
                hashes_item(hashes_view(self.state_hashes@)),
                hashes_item(hashes_view(self.block_hashes@)),
                ItemM::Bytes(self.state_root@),
            ]);
        }
        let item = Item::List(outer);
        item.encode()
    }

    /// Restores manifest data from raw bytes: accepts exactly the
    /// encodings `to_rlp` produces.
    pub fn from_rlp(raw: &Vec<u8>) -> (r: Result<ManifestData, DecoderError>)
        ensures
            match r {
                Ok(m) => m.wf() && (match dec_full(raw@) {
                    Ok(x) => manifest_from_item(x) == Ok::<
                        (Seq<Seq<u8>>, Seq<Seq<u8>>, Seq<u8>),
                        DecoderError,
                    >(m.model()),
                    Err(_) => false,
                }),
                Err(e) => (match dec_full(raw@) {
                    Ok(x) => manifest_from_item(x) == Err::<
                        (Seq<Seq<u8>>, Seq<Seq<u8>>, Seq<u8>),
                        DecoderError,
                    >(e),
                    Err(e2) => e == e2,
                }),
            },
    {
        let item = match Item::decode(raw) {
            Ok(it) => it,
            Err(e) => {
                return Err(e);
            },
        };
        match &item {
            Item::Bytes(_) => Err(DecoderError::UnexpectedShape),
            Item::List(parts) => {
                if parts.len() != 3 {
                    proof {
                        assert(crate::rlp::models_of(parts@).len() == parts@.len()) by {
                            lemma_models_len(parts@);
                        }
                    }
                    return Err(DecoderError::UnexpectedShape);
                }
                proof {
                    lemma_models_len(parts@);
                    assert(crate::rlp::models_of(parts@)[0] == parts@[0].model()
                        && crate::rlp::models_of(parts@)[1] == parts@[1].model()
                        && crate::rlp::models_of(parts@)[2] == parts@[2].model()) by {
                        lemma_models_index(parts@, 0);
                        lemma_models_index(parts@, 1);
                        lemma_models_index(parts@, 2);
                    }
                }
                let state_hashes = match hashes_from_item_exec(&parts[0]) {
                    Ok(hs) => hs,
                    Err(e) => {
                        return Err(e);
                    },
                };
                let block_hashes = match hashes_from_item_exec(&parts[1]) {
                    Ok(hs) => hs,
                    Err(e) => {
                        return Err(e);
                    },
                };
                match &parts[2] {
                    Item::Bytes(root) => {
                        if root.len() != 32 {
                            return Err(DecoderError::UnexpectedShape);
                        }
                        let bytes = copy_range(root, 0, 32);
                        proof {
                            assert(item.model() == ItemM::List(crate::rlp::models_of(parts@)));
                            assert(parts@[2].model() == ItemM::Bytes(root@));
                            assert(bytes@ =~= root@);
                        }
                        Ok(ManifestData {
                            state_hashes,
                            block_hashes,
                            state_root: H256::from_vec(bytes),
                        })
                    },
                    Item::List(_) => Err(DecoderError::UnexpectedShape),
                }
            },
        }
    }
}

/// A sequence of byte-string values has depth zero.
proof fn lemma_depth_of_seq_bytes(s: Seq<ItemM>)
    requires
        forall|i: int| 0 <= i < s.len() ==> (#[trigger] s[i]) matches ItemM::Bytes(_),
    ensures
        crate::rlp::depth_of_seq(s) == 0,
    decreases s,
{
    if s.len() > 0 {
        assert(s[0] matches ItemM::Bytes(_));
        assert(crate::rlp::depth_of(s[0]) == 0);
        lemma_depth_of_seq_bytes(s.drop_first());
    }
}

/// Reading hashes back out of the value a hash list builds returns the
/// hashes.
proof fn lemma_hashes_item_round(hs: Seq<Seq<u8>>)
    requires
        all_hashes_wf(hs),
    ensures
        hashes_from_item(hashes_item(hs)) == Ok::<Seq<Seq<u8>>, DecoderError>(hs),
    decreases hs,
{
    let items = Seq::new(hs.len(), |i: int| ItemM::Bytes(hs[i]));
    if hs.len() == 0 {
        assert(items =~= Seq::<ItemM>::empty());
        assert(hs =~= Seq::<Seq<u8>>::empty());
    } else {
        lemma_hashes_item_round(hs.drop_last());
        let pre = Seq::new(hs.drop_last().len(), |i: int| ItemM::Bytes(hs.drop_last()[i]));
        assert(items.drop_last() =~= pre);
        assert(items.last() == ItemM::Bytes(hs.last()));
        assert(hs.drop_last().push(hs.last()) =~= hs);
    }
}

/// Round-trip law: the encoded manifest decodes, and reading the decoded
/// value back gives exactly the manifest triple that was encoded.  With
/// the contracts of `to_rlp`, `decode` and `from_rlp`, restoring an
/// encoded manifest returns the manifest itself.
pub proof fn lemma_manifest_round_trip(sh: Seq<Seq<u8>>, bh: Seq<Seq<u8>>, root: Seq<u8>)
    requires
        all_hashes_wf(sh),
        all_hashes_wf(bh),
        root.len() == 32,
        manifest_enc(sh, bh, root).len() < 0x10000000000000000,
    ensures
        dec_full(manifest_enc(sh, bh, root)) == Ok::<ItemM, DecoderError>(
            manifest_item(sh, bh, root),
        ),
        manifest_from_item(manifest_item(sh, bh, root)) == Ok::<
            (Seq<Seq<u8>>, Seq<Seq<u8>>, Seq<u8>),
            DecoderError,
        >((sh, bh, root)),
{
    let x = manifest_item(sh, bh, root);
    let parts = seq![hashes_item(sh), hashes_item(bh), ItemM::Bytes(root)];
    assert(crate::rlp::depth_of(x) <= 64) by {
        lemma_depth_of_seq_bytes(Seq::new(sh.len(), |i: int| ItemM::Bytes(sh[i])));
        lemma_depth_of_seq_bytes(Seq::new(bh.len(), |i: int| ItemM::Bytes(bh[i])));
        let p3 = seq![ItemM::Bytes(root)];
        let p2 = seq![hashes_item(bh), ItemM::Bytes(root)];
        assert(p3.drop_first() =~= Seq::<ItemM>::empty());
        assert(crate::rlp::depth_of_seq(Seq::<ItemM>::empty()) == 0);
        assert(p3[0] == ItemM::Bytes(root));
        assert(crate::rlp::depth_of(p3[0]) == 0);
        assert(crate::rlp::depth_of_seq(p3) == 0);
        assert(p2.drop_first() =~= p3);
        assert(p2[0] == hashes_item(bh));
        assert(crate::rlp::depth_of(p2[0]) == 1);
        assert(crate::rlp::depth_of_seq(p2) == 1);
        assert(parts.drop_first() =~= p2);
        assert(parts[0] == hashes_item(sh));
        assert(crate::rlp::depth_of(parts[0]) == 1);
        assert(crate::rlp::depth_of_seq(parts) == 1);
    }
    crate::rlp::lemma_round_trip(x);
    lemma_hashes_item_round(sh);
    lemma_hashes_item_round(bh);
}

/// A sequence of values has as many models as values.
pub proof fn lemma_models_len(s: Seq<Item>)
    ensures
        crate::rlp::models_of(s).len() == s.len(),
    decreases s,
{
    if s.len() > 0 {
        lemma_models_len(s.drop_last());
    }
}

/// The model of the value at a position is at the same position among the
/// models.
pub proof fn lemma_models_index(s: Seq<Item>, i: int)
    requires
        0 <= i < s.len(),
    ensures
        crate::rlp::models_of(s).len() == s.len(),
        crate::rlp::models_of(s)[i] == s[i].model(),
    decreases s,
{
    lemma_models_len(s);
    if i == s.len() - 1 {
    } else {
        lemma_models_index(s.drop_last(), i);
    }
}

} // verus!
