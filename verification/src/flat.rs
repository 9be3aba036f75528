//! Flat traces: the nested call tree a transaction produces, flattened to
//! a vector ordered by position, each entry carrying the path to its
//! place in the tree, together with the codec form of the flat shapes.

use vstd::prelude::*;
use crate::rlp::{be_bytes, dec_full, enc, models_of, Item, ItemM};
use crate::state::dup_bytes;

verus! {

broadcast use vstd::std_specs::vec::group_vec_axioms;

/// A 20-byte account address.
#[derive(Debug, PartialEq, Clone)]
pub struct Address {
    /// The address bytes, exactly 20 of them.
    pub bytes: Vec<u8>,
}

impl View for Address {
    type V = Seq<u8>;

    open spec fn view(&self) -> Seq<u8> {
        self.bytes@
    }
}

impl Address {
    /// Well-formed: exactly 20 bytes.
    pub open spec fn wf(&self) -> bool {
        self.bytes@.len() == 20
    }

    /// The address whose numeric value is `v`: zero bytes, then the
    /// big-endian value.
    pub fn from_low_u64(v: u64) -> (r: Address)
        ensures
            r@ == Seq::new((20 - be_bytes(v as nat).len()) as nat, |i: int| 0u8) + be_bytes(
                v as nat,
            ),
            r.wf(),
    {
        proof {
            crate::rlp::lemma_pow256_8();
            crate::rlp::lemma_be_bytes_len(v as nat, 8);
        }
        let tail = crate::rlp::be_bytes_exec(v);
        let mut bytes: Vec<u8> = Vec::new();
        let zeros = 20 - tail.len();
        let mut i: usize = 0;
        while i < zeros
            invariant
                i <= zeros,
                bytes@ == Seq::new(i as nat, |j: int| 0u8),
            decreases zeros - i,
        {
            bytes.push(0u8);
            proof {
                assert(bytes@ =~= Seq::new((i + 1) as nat, |j: int| 0u8));
            }
            i = i + 1;
        }
        crate::rlp::push_all(&mut bytes, &tail);
        Address { bytes }
    }

    /// An independent copy.
    pub fn duplicate(&self) -> (r: Address)
        ensures
            r@ == self@,
    {
        Address { bytes: dup_bytes(&self.bytes) }
    }
}

/// An unsigned 256-bit quantity, as its canonical big-endian bytes:
/// no leading zero, empty for zero.
#[derive(Debug, PartialEq, Clone)]
pub struct U256 {
    /// The canonical big-endian bytes.
    pub bytes: Vec<u8>,
}

impl View for U256 {
    type V = Seq<u8>;

    open spec fn view(&self) -> Seq<u8> {
        self.bytes@
    }
}

impl U256 {
    /// Well-formed: canonical and within 32 bytes.
    pub open spec fn wf(&self) -> bool {
        crate::state::canonical_u256(self.bytes@)
    }

    /// The quantity with the given small value.
    pub fn from_u64(v: u64) -> (r: U256)
        ensures
            r@ == be_bytes(v as nat),
            r.wf(),
    {
        proof {
            crate::rlp::lemma_pow256_8();
            crate::rlp::lemma_be_bytes_len(v as nat, 8);
            if v > 0 {
                crate::rlp::lemma_be_bytes_first(v as nat);
            }
        }
        U256 { bytes: crate::rlp::be_bytes_exec(v) }
    }

    /// An independent copy.
    pub fn duplicate(&self) -> (r: U256)
        ensures
            r@ == self@,
    {
        U256 { bytes: dup_bytes(&self.bytes) }
    }
}

/// A message call.
#[derive(Debug, PartialEq, Clone)]
pub struct Call {
    /// The caller.
    pub from: Address,
    /// The callee.
    pub to: Address,
    /// The value moved.
    pub value: U256,
    /// The gas attached.
    pub gas: U256,
    /// The input bytes.
    pub input: Vec<u8>,
}

/// A contract creation.
#[derive(Debug, PartialEq, Clone)]
pub struct Create {
    /// The creator.
    pub from: Address,
    /// The value endowed.
    pub value: U256,
    /// The gas attached.
    pub gas: U256,
    /// The initialisation bytes.
    pub init: Vec<u8>,
}

/// What a trace entry did.
#[derive(Debug, PartialEq, Clone)]
pub enum Action {
    /// A message call.
    Call(Call),
    /// A contract creation.
    Create(Create),
}

/// What a call returned.
#[derive(Debug, PartialEq, Clone)]
pub struct CallResult {
    /// The gas spent.
    pub gas_used: U256,
    /// The output bytes.
    pub output: Vec<u8>,
}

/// What a creation produced.
#[derive(Debug, PartialEq, Clone)]
pub struct CreateResult {
    /// The gas spent.
    pub gas_used: U256,
    /// The code stored.
    pub code: Vec<u8>,
    /// The address created.
    pub address: Address,
}

/// How a trace entry ended.
#[derive(Debug, PartialEq, Clone)]
pub enum Res {
    /// A call that returned.
    Call(CallResult),
    /// A creation that completed.
    Create(CreateResult),
    /// A call that failed.
    FailedCall,
    /// A creation that failed.
    FailedCreate,
}

/// One node of the nested trace tree.
#[derive(Debug, PartialEq)]
pub struct Trace {
    /// Call depth within the transaction.
    pub depth: usize,
    /// What this node did.
    pub action: Action,
    /// The nodes it spawned, in order.
    pub subs: Vec<Trace>,
    /// How it ended.
    pub result: Res,
}

/// All traces produced by the transactions of a block, still nested.
#[derive(Debug, PartialEq)]
pub struct BlockTraces(pub Vec<Trace>);

/// Trace localized in the vector of traces produced by a single
/// transaction: its action and result, how many nodes it spawned, and
/// the path of child indexes leading to it.
#[derive(Debug, PartialEq, Clone)]
pub struct FlatTrace {
    /// What this entry did.
    pub action: Action,
    /// How it ended.
    pub result: Res,
    /// Number of subtraces.
    pub subtraces: usize,
    /// Exact location of the entry: index in the root, then in each
    /// nested call in turn.
    pub trace_address: Vec<usize>,
}

/// The model of an action: its fields as byte strings.
pub enum ActionM {
    /// A call: from, to, value, gas, input.
    Call(Seq<u8>, Seq<u8>, Seq<u8>, Seq<u8>, Seq<u8>),
    /// A creation: from, value, gas, init.
    Create(Seq<u8>, Seq<u8>, Seq<u8>, Seq<u8>),
}

/// The model of a result.
pub enum ResM {
    /// A call that returned: gas used and output.
    Call(Seq<u8>, Seq<u8>),
    /// A creation that completed: gas used, code, address.
    Create(Seq<u8>, Seq<u8>, Seq<u8>),
    /// A call that failed.
    FailedCall,
    /// A creation that failed.
    FailedCreate,
}

/// The model of an action value.
pub open spec fn action_m(a: Action) -> ActionM {
    match a {
        Action::Call(c) => ActionM::Call(c.from@, c.to@, c.value@, c.gas@, c.input@),
        Action::Create(c) => ActionM::Create(c.from@, c.value@, c.gas@, c.init@),
    }
}

/// The model of a result value.
pub open spec fn res_m(r: Res) -> ResM {
    match r {
        Res::Call(c) => ResM::Call(c.gas_used@, c.output@),
        Res::Create(c) => ResM::Create(c.gas_used@, c.code@, c.address@),
        Res::FailedCall => ResM::FailedCall,
        Res::FailedCreate => ResM::FailedCreate,
    }
}

/// One flattened entry: location, spawn count, action, result.
pub struct FlatM {
    /// The path of child indexes leading to the entry.
    pub trace_address: Seq<usize>,
    /// How many nodes the entry spawned.
    pub subtraces: nat,
    /// What it did.
    pub action: ActionM,
    /// How it ended.
    pub result: ResM,
}

/// The flattening of one trace node at a location: the node itself,
/// then its children depth-first, each child's path one index longer.
pub open spec fn flat_entries(address: Seq<usize>, t: Trace) -> Seq<FlatM>
    decreases t, 0int,
{
    seq![
        FlatM {
            trace_address: address,
            subtraces: t.subs@.len() as nat,
            action: action_m(t.action),
            result: res_m(t.result),
        },
    ] + flat_children(address, t.subs@, 0)
}

/// The flattening of a node's children from index `i` on.
pub open spec fn flat_children(address: Seq<usize>, subs: Seq<Trace>, i: int) -> Seq<FlatM>
    decreases subs, subs.len() - i,
{
    if i < 0 || i >= subs.len() {
        Seq::empty()
    } else {
        flat_entries(address.push(i as usize), subs[i]) + flat_children(address, subs, i + 1)
    }
}

/// The model of a flat entry.
pub open spec fn flat_m(f: FlatTrace) -> FlatM {
    FlatM {
        trace_address: f.trace_address@,
        subtraces: f.subtraces as nat,
        action: action_m(f.action),
        result: res_m(f.result),
    }
}

/// The models of a run of flat entries.
pub open spec fn flats_m(s: Seq<FlatTrace>) -> Seq<FlatM> {
    Seq::new(s.len(), |i: int| flat_m(s[i]))
}

/// Copies a path vector.
fn dup_usizes(v: &Vec<usize>) -> (r: Vec<usize>)
    ensures
        r@ == v@,
{
    let mut r: Vec<usize> = Vec::new();
    let mut i: usize = 0;
    while i < v.len()
        invariant
            i <= v@.len(),
            r@ == v@.subrange(0, i as int),
        decreases v@.len() - i,
    {
        r.push(v[i]);
        proof {
            assert(v@.subrange(0, (i + 1) as int)
                =~= v@.subrange(0, i as int).push(v@[i as int]));
        }
        i = i + 1;
    }
    proof {
        assert(v@.subrange(0, v@.len() as int) =~= v@);
    }
    r
}

/// Copies an action.
fn dup_action(a: &Action) -> (r: Action)
    ensures
        action_m(r) == action_m(*a),
{
    match a {
        Action::Call(c) => Action::Call(
            Call {
                from: c.from.duplicate(),
                to: c.to.duplicate(),
                value: c.value.duplicate(),
                gas: c.gas.duplicate(),
                input: dup_bytes(&c.input),
            },
        ),
        Action::Create(c) => Action::Create(
            Create {
                from: c.from.duplicate(),
                value: c.value.duplicate(),
                gas: c.gas.duplicate(),
                init: dup_bytes(&c.init),
            },
        ),
    }
}

/// Copies a result.
fn dup_res(r0: &Res) -> (r: Res)
    ensures
        res_m(r) == res_m(*r0),
{
    match r0 {
        Res::Call(c) => Res::Call(
            CallResult { gas_used: c.gas_used.duplicate(), output: dup_bytes(&c.output) },
        ),
        Res::Create(c) => Res::Create(
            CreateResult {
                gas_used: c.gas_used.duplicate(),
                code: dup_bytes(&c.code),
                address: c.address.duplicate(),
            },
        ),
        Res::FailedCall => Res::FailedCall,
        Res::FailedCreate => Res::FailedCreate,
    }
}

/// Helper function flattening the nested tree structure to a vector of
/// ordered traces: the node first, then its children depth-first, each
/// entry carrying its path and its spawn count.
#[verifier::loop_isolation(false)]
pub fn flatten(address: &Vec<usize>, trace: &Trace) -> (r: Vec<FlatTrace>)
    ensures
        flats_m(r@) == flat_entries(address@, *trace),
    decreases trace, 0int,
{
    let subtraces = trace.subs.len();
    let mut result: Vec<FlatTrace> = Vec::new();
    result.push(
        FlatTrace {
            action: dup_action(&trace.action),
            result: dup_res(&trace.result),
            subtraces,
            trace_address: dup_usizes(address),
        },
    );
    let mut i: usize = 0;
    proof {
        assert(flats_m(result@) =~= seq![
            FlatM {
                trace_address: address@,
                subtraces: trace.subs@.len() as nat,
                action: action_m(trace.action),
                result: res_m(trace.result),
            },
        ] + flat_children(address@, trace.subs@, i as int).take(0));
    }
    while i < trace.subs.len()
        invariant
            i <= trace.subs@.len(),
            flats_m(result@) == seq![
                FlatM {
                    trace_address: address@,
                    subtraces: trace.subs@.len() as nat,
                    action: action_m(trace.action),
                    result: res_m(trace.result),
                },
            ] + flat_children_upto(address@, trace.subs@, i as int),
        decreases trace.subs@.len() - i,
    {
        let mut child_address = dup_usizes(address);
        child_address.push(i);
        proof {
            assert(decreases_to!(*trace => trace.subs));
            assert(decreases_to!(trace.subs => trace.subs@));
            assert(decreases_to!(trace.subs@ => trace.subs@[i as int]));
        }
        let mut child = flatten(&child_address, &trace.subs[i]);
        let ghost result_pre = result@;
        let ghost child_view = child@;
        result.append(&mut child);
        proof {
            lemma_flat_children_upto_step(address@, trace.subs@, i as int);
            assert(flats_m(result@) =~= flats_m(result_pre) + flats_m(child_view));
        }
        i = i + 1;
    }
    proof {
        lemma_flat_children_upto_all(address@, trace.subs@, i as int);
    }
    result
}

/// The flattening of the children before index `i`.
pub open spec fn flat_children_upto(address: Seq<usize>, subs: Seq<Trace>, i: int) -> Seq<FlatM>
    decreases i,
{
    if i <= 0 {
        Seq::empty()
    } else {
        flat_children_upto(address, subs, i - 1) + (if i - 1 < subs.len() {
            flat_entries(address.push((i - 1) as usize), subs[i - 1])
        } else {
            Seq::empty()
        })
    }
}

/// Taking one more child appends its flattening.
proof fn lemma_flat_children_upto_step(address: Seq<usize>, subs: Seq<Trace>, i: int)
    requires
        0 <= i < subs.len(),
    ensures
        flat_children_upto(address, subs, i + 1) == flat_children_upto(address, subs, i)
            + flat_entries(address.push(i as usize), subs[i]),
{
}

/// All children taken, the prefix flattening is the full one.
proof fn lemma_flat_children_upto_all(address: Seq<usize>, subs: Seq<Trace>, i: int)
    requires
        i >= subs.len(),
    ensures
        flat_children_upto(address, subs, i) == flat_children(address, subs, 0),
    decreases i,
{
    lemma_flat_children_split(address, subs, 0, i);
}

/// The children from position `k` on are the prefix flattening beyond
/// `k`, read the other way around.
proof fn lemma_flat_children_split(address: Seq<usize>, subs: Seq<Trace>, k: int, i: int)
    requires
        0 <= k <= i,
        i >= subs.len(),
    ensures
        flat_children_upto(address, subs, i) == flat_children_upto(address, subs, k)
            + flat_children(address, subs, k),
    decreases i - k,
{
    if k >= subs.len() {
        assert(flat_children(address, subs, k) =~= Seq::<FlatM>::empty());
        lemma_flat_children_upto_frozen(address, subs, k, i);
        assert(flat_children_upto(address, subs, k) + flat_children(address, subs, k)
            =~= flat_children_upto(address, subs, k));
    } else {
        lemma_flat_children_split(address, subs, k + 1, i);
        lemma_flat_children_upto_step(address, subs, k);
        assert(flat_children(address, subs, k) == flat_entries(address.push(k as usize), subs[k])
            + flat_children(address, subs, k + 1));
        assert((flat_children_upto(address, subs, k) + flat_entries(
            address.push(k as usize),
            subs[k],
        )) + flat_children(address, subs, k + 1) =~= flat_children_upto(address, subs, k) + (
        flat_entries(address.push(k as usize), subs[k]) + flat_children(address, subs, k + 1)));
    }
}

/// Beyond the child count the prefix flattening stops growing.
proof fn lemma_flat_children_upto_frozen(address: Seq<usize>, subs: Seq<Trace>, k: int, i: int)
    requires
        subs.len() <= k <= i,
    ensures
        flat_children_upto(address, subs, i) == flat_children_upto(address, subs, k),
    decreases i - k,
{
    if k < i {
        lemma_flat_children_upto_frozen(address, subs, k, i - 1);
        assert(flat_children_upto(address, subs, i) =~= flat_children_upto(
            address,
            subs,
            i - 1,
        ));
    }
}

/// Represents all traces produced by a single transaction.
#[derive(Debug, PartialEq, Clone)]
pub struct FlatTransactionTraces(pub Vec<FlatTrace>);

/// Represents all traces produced by the transactions in a single block.
#[derive(Debug, PartialEq, Clone)]
pub struct FlatBlockTraces(pub Vec<FlatTransactionTraces>);

impl FlatBlockTraces {
    /// Flattens the nested trace tree of a whole block: one flat run per
    /// transaction, each in depth-first order with paths from the root.
    pub fn from_block(block_traces: &BlockTraces) -> (r: FlatBlockTraces)
        ensures
            r.0@.len() == block_traces.0@.len(),
            forall|i: int| 0 <= i < r.0@.len() ==> flats_m((#[trigger] r.0@[i]).0@)
                == flat_entries(Seq::<usize>::empty(), block_traces.0@[i]),
    {
        let mut txs: Vec<FlatTransactionTraces> = Vec::new();
        let mut i: usize = 0;
        let empty_address: Vec<usize> = Vec::new();
        while i < block_traces.0.len()
            invariant
                i <= block_traces.0@.len(),
                txs@.len() == i,
                empty_address@ == Seq::<usize>::empty(),
                forall|j: int| 0 <= j < i ==> flats_m((#[trigger] txs@[j]).0@) == flat_entries(
                    Seq::<usize>::empty(),
                    block_traces.0@[j],
                ),
            decreases block_traces.0@.len() - i,
        {
            let flat = flatten(&empty_address, &block_traces.0[i]);
            txs.push(FlatTransactionTraces(flat));
            i = i + 1;
        }
        FlatBlockTraces(txs)
    }
}

/// An unsigned number as a codec value: canonical big-endian bytes.
pub open spec fn uint_item(n: nat) -> ItemM {
    ItemM::Bytes(be_bytes(n))
}

/// An action as a codec value: a tag, then the fields.
pub open spec fn action_item(a: ActionM) -> ItemM {
    match a {
        ActionM::Call(from, to, value, gas, input) => ItemM::List(
            seq![
                uint_item(0),
                ItemM::Bytes(from),
                ItemM::Bytes(to),
                ItemM::Bytes(value),
                ItemM::Bytes(gas),
                ItemM::Bytes(input),
            ],
        ),
        ActionM::Create(from, value, gas, init) => ItemM::List(
            seq![
                uint_item(1),
                ItemM::Bytes(from),
                ItemM::Bytes(value),
                ItemM::Bytes(gas),
                ItemM::Bytes(init),
            ],
        ),
    }
}

/// A result as a codec value: a tag, then the fields.
pub open spec fn res_item(r: ResM) -> ItemM {
    match r {
        ResM::Call(gas_used, output) => ItemM::List(
            seq![uint_item(0), ItemM::Bytes(gas_used), ItemM::Bytes(output)],
        ),
        ResM::Create(gas_used, code, address) => ItemM::List(
            seq![uint_item(1), ItemM::Bytes(gas_used), ItemM::Bytes(code), ItemM::Bytes(address)],
        ),
        ResM::FailedCall => ItemM::List(seq![uint_item(2)]),
        ResM::FailedCreate => ItemM::List(seq![uint_item(3)]),
    }
}

/// A flat entry as a codec value: action, result, spawn count, path.
pub open spec fn flat_item(f: FlatM) -> ItemM {
    ItemM::List(
        seq![
            action_item(f.action),
            res_item(f.result),
            uint_item(f.subtraces),
            ItemM::List(
                Seq::new(f.trace_address.len(), |i: int| uint_item(f.trace_address[i] as nat)),
            ),
        ],
    )
}

/// A transaction's flat run as a codec value.
pub open spec fn tx_item(s: Seq<FlatM>) -> ItemM {
    ItemM::List(Seq::new(s.len(), |i: int| flat_item(s[i])))
}

/// A block's flat runs as a codec value.
pub open spec fn block_traces_item(b: Seq<Seq<FlatM>>) -> ItemM {
    ItemM::List(Seq::new(b.len(), |i: int| tx_item(b[i])))
}

/// The models of a block's flat runs.
pub open spec fn block_m(t: FlatBlockTraces) -> Seq<Seq<FlatM>> {
    Seq::new(t.0@.len(), |i: int| flats_m(t.0@[i].0@))
}

/// The number as a codec value.
fn build_uint(n: usize) -> (r: Item)
    ensures
        r.model() == uint_item(n as nat),
{
    proof {
        crate::rlp::lemma_pow256_8();
        crate::rlp::lemma_be_bytes_len(n as nat, 8);
    }
    Item::Bytes(crate::rlp::be_bytes_exec(n as u64))
}

/// The action as a codec value.
fn build_action(a: &Action) -> (r: Item)
    ensures
        r.model() == action_item(action_m(*a)),
{
    let mut items: Vec<Item> = Vec::new();
    match a {
        Action::Call(c) => {
            let i0 = build_uint(0);
            let i1 = Item::Bytes(dup_bytes(&c.from.bytes));
            let i2 = Item::Bytes(dup_bytes(&c.to.bytes));
            let i3 = Item::Bytes(dup_bytes(&c.value.bytes));
            let i4 = Item::Bytes(dup_bytes(&c.gas.bytes));
            let i5 = Item::Bytes(dup_bytes(&c.input));
            items.push(i0);
            items.push(i1);
            items.push(i2);
            items.push(i3);
            items.push(i4);
            items.push(i5);
            proof {
                lemma_models_six(items@);
                assert(items@ =~= seq![i0, i1, i2, i3, i4, i5]);
                assert(models_of(items@) =~= seq![
                    uint_item(0),
                    ItemM::Bytes(c.from@),
                    ItemM::Bytes(c.to@),
                    ItemM::Bytes(c.value@),
                    ItemM::Bytes(c.gas@),
                    ItemM::Bytes(c.input@),
                ]);
            }
        },
        Action::Create(c) => {
            let i0 = build_uint(1);
            let i1 = Item::Bytes(dup_bytes(&c.from.bytes));
            let i2 = Item::Bytes(dup_bytes(&c.value.bytes));
            let i3 = Item::Bytes(dup_bytes(&c.gas.bytes));
            let i4 = Item::Bytes(dup_bytes(&c.init));
            items.push(i0);
            items.push(i1);
            items.push(i2);
            items.push(i3);
            items.push(i4);
            proof {
                lemma_models_six(items@);
                assert(items@ =~= seq![i0, i1, i2, i3, i4]);
                assert(models_of(items@) =~= seq![
                    uint_item(1),
                    ItemM::Bytes(c.from@),
                    ItemM::Bytes(c.value@),
                    ItemM::Bytes(c.gas@),
                    ItemM::Bytes(c.init@),
                ]);
            }
        },
    }
    Item::List(items)
}

/// The result as a codec value.
fn build_res(r0: &Res) -> (r: Item)
    ensures
        r.model() == res_item(res_m(*r0)),
{
    let mut items: Vec<Item> = Vec::new();
    match r0 {
        Res::Call(c) => {
            let i0 = build_uint(0);
            let i1 = Item::Bytes(dup_bytes(&c.gas_used.bytes));
            let i2 = Item::Bytes(dup_bytes(&c.output));
            items.push(i0);
            items.push(i1);
            items.push(i2);
            proof {
                lemma_models_six(items@);
                assert(items@ =~= seq![i0, i1, i2]);
                assert(models_of(items@) =~= seq![
                    uint_item(0),
                    ItemM::Bytes(c.gas_used@),
                    ItemM::Bytes(c.output@),
                ]);
            }
        },
        Res::Create(c) => {
            let i0 = build_uint(1);
            let i1 = Item::Bytes(dup_bytes(&c.gas_used.bytes));
            let i2 = Item::Bytes(dup_bytes(&c.code));
            let i3 = Item::Bytes(dup_bytes(&c.address.bytes));
            items.push(i0);
            items.push(i1);
            items.push(i2);
            items.push(i3);
            proof {
                lemma_models_six(items@);
                assert(items@ =~= seq![i0, i1, i2, i3]);
                assert(models_of(items@) =~= seq![
                    uint_item(1),
                    ItemM::Bytes(c.gas_used@),
                    ItemM::Bytes(c.code@),
                    ItemM::Bytes(c.address@),
                ]);
            }
        },
        Res::FailedCall => {
            let i0 = build_uint(2);
            items.push(i0);
            proof {
                lemma_models_six(items@);
                assert(items@ =~= seq![i0]);
                assert(models_of(items@) =~= seq![uint_item(2)]);
            }
        },
        Res::FailedCreate => {
            let i0 = build_uint(3);
            items.push(i0);
            proof {
                lemma_models_six(items@);
                assert(items@ =~= seq![i0]);
                assert(models_of(items@) =~= seq![uint_item(3)]);
            }
        },
    }
    Item::List(items)
}

/// The models of up to six pushed values, element by element.
proof fn lemma_models_six(s: Seq<Item>)
    ensures
        models_of(s).len() == s.len(),
        forall|i: int| 0 <= i < s.len() ==> models_of(s)[i] == (#[trigger] s[i]).model(),
    decreases s,
{
    crate::manifest::lemma_models_len(s);
    if s.len() > 0 {
        lemma_models_six(s.drop_last());
        assert(forall|i: int| 0 <= i < s.len() - 1 ==> s.drop_last()[i] == s[i]);
    }
}

/// The flat entry as a codec value.
#[verifier::loop_isolation(false)]
fn build_flat(f: &FlatTrace) -> (r: Item)
    ensures
        r.model() == flat_item(flat_m(*f)),
{
    let mut path: Vec<Item> = Vec::new();
    let mut i: usize = 0;
    while i < f.trace_address.len()
        invariant
            i <= f.trace_address@.len(),
            path@.len() == i,
            models_of(path@) =~= Seq::new(
                i as nat,
                |j: int| uint_item(f.trace_address@[j] as nat),
            ),
        decreases f.trace_address@.len() - i,
    {
        let ghost prev = path@;
        path.push(build_uint(f.trace_address[i]));
        proof {
            crate::rlp::lemma_models_push(prev, path@.last());
            assert(models_of(path@) =~= Seq::new(
                (i + 1) as nat,
                |j: int| uint_item(f.trace_address@[j] as nat),
            ));
        }
        i = i + 1;
    }
    let mut items: Vec<Item> = Vec::new();
    let i0 = build_action(&f.action);
    let i1 = build_res(&f.result);
    let i2 = build_uint(f.subtraces);
    let ghost path_view = path@;
    let i3 = Item::List(path);
    items.push(i0);
    items.push(i1);
    items.push(i2);
    items.push(i3);
    proof {
        lemma_models_six(items@);
        assert(items@ =~= seq![i0, i1, i2, i3]);
        assert(i3.model() == ItemM::List(models_of(path_view)));
        assert(models_of(items@) =~= seq![
            action_item(action_m(f.action)),
            res_item(res_m(f.result)),
            uint_item(f.subtraces as nat),
            ItemM::List(
                Seq::new(
                    f.trace_address@.len(),
                    |j: int| uint_item(f.trace_address@[j] as nat),
                ),
            ),
        ]);
    }
    Item::List(items)
}

impl FlatBlockTraces {
    /// Encodes the block's flat runs into their canonical byte form.
    #[verifier::loop_isolation(false)]
    pub fn to_rlp(&self) -> (r: Vec<u8>)
        ensures
            r@ == enc(block_traces_item(block_m(*self))),
    {
        let mut txs: Vec<Item> = Vec::new();
        let mut i: usize = 0;
        while i < self.0.len()
            invariant
                i <= self.0@.len(),
                txs@.len() == i,
                models_of(txs@) =~= Seq::new(i as nat, |j: int| tx_item(flats_m(self.0@[j].0@))),
            decreases self.0@.len() - i,
        {
            let tx = &self.0[i];
            let mut flats: Vec<Item> = Vec::new();
            let mut k: usize = 0;
            while k < tx.0.len()
                invariant
                    k <= tx.0@.len(),
                    flats@.len() == k,
                    models_of(flats@) =~= Seq::new(
                        k as nat,
                        |j: int| flat_item(flat_m(tx.0@[j])),
                    ),
                decreases tx.0@.len() - k,
            {
                let ghost prev = flats@;
                flats.push(build_flat(&tx.0[k]));
                proof {
                    crate::rlp::lemma_models_push(prev, flats@.last());
                    assert(models_of(flats@) =~= Seq::new(
                        (k + 1) as nat,
                        |j: int| flat_item(flat_m(tx.0@[j])),
                    ));
                }
                k = k + 1;
            }
            let ghost prev_txs = txs@;
            txs.push(Item::List(flats));
            proof {
                crate::rlp::lemma_models_push(prev_txs, txs@.last());
                assert(models_of(flats@) =~= Seq::new(
                    flats_m(self.0@[i as int].0@).len(),
                    |j: int| flat_item(flats_m(self.0@[i as int].0@)[j]),
                ));
                assert(models_of(txs@) =~= Seq::new(
                    (i + 1) as nat,
                    |j: int| tx_item(flats_m(self.0@[j].0@)),
                ));
            }
            i = i + 1;
        }
        proof {
            assert(models_of(txs@) =~= Seq::new(
                block_m(*self).len(),
                |j: int| tx_item(block_m(*self)[j]),
            ));
        }
        Item::List(txs).encode()
    }
}

/// Reads a number back out of a decoded value: the canonical big-endian
/// form within the machine's range, and nothing else.
pub open spec fn uint_from_item(x: ItemM) -> Result<nat, crate::rlp::DecoderError> {
    match x {
        ItemM::List(_) => Err(crate::rlp::DecoderError::UnexpectedShape),
        ItemM::Bytes(b) => {
            if b.len() > 8 {
                Err(crate::rlp::DecoderError::UnexpectedShape)
            } else if b.len() > 0 && b[0] == 0 {
                Err(crate::rlp::DecoderError::NonCanonical)
            } else if crate::rlp::be_val(b) > usize::MAX as nat {
                Err(crate::rlp::DecoderError::UnexpectedShape)
            } else {
                Ok(crate::rlp::be_val(b))
            }
        },
    }
}

/// Reads a byte string out of a decoded value.
pub open spec fn bytes_from_item(x: ItemM) -> Result<Seq<u8>, crate::rlp::DecoderError> {
    match x {
        ItemM::List(_) => Err(crate::rlp::DecoderError::UnexpectedShape),
        ItemM::Bytes(b) => Ok(b),
    }
}

/// Reads an address out of a decoded value: exactly twenty bytes.
pub open spec fn address_from_item(x: ItemM) -> Result<Seq<u8>, crate::rlp::DecoderError> {
    match bytes_from_item(x) {
        Err(e) => Err(e),
        Ok(b) => if b.len() == 20 {
            Ok(b)
        } else {
            Err(crate::rlp::DecoderError::UnexpectedShape)
        },
    }
}

/// Reads a quantity out of a decoded value: canonical, within 32 bytes.
pub open spec fn u256_from_item(x: ItemM) -> Result<Seq<u8>, crate::rlp::DecoderError> {
    match bytes_from_item(x) {
        Err(e) => Err(e),
        Ok(b) => if b.len() > 32 {
            Err(crate::rlp::DecoderError::UnexpectedShape)
        } else if b.len() > 0 && b[0] == 0 {
            Err(crate::rlp::DecoderError::NonCanonical)
        } else {
            Ok(b)
        },
    }
}

/// Reads an action back out of a decoded value.
pub open spec fn action_from_item(x: ItemM) -> Result<ActionM, crate::rlp::DecoderError> {
    match x {
        ItemM::Bytes(_) => Err(crate::rlp::DecoderError::UnexpectedShape),
        ItemM::List(s) => {
            if s.len() == 0 {
                Err(crate::rlp::DecoderError::UnexpectedShape)
            } else {
                match uint_from_item(s[0]) {
                    Err(e) => Err(e),
                    Ok(tag) => {
                        if tag == 0 {
                            if s.len() != 6 {
                                Err(crate::rlp::DecoderError::UnexpectedShape)
                            } else {
                                match (
                                    address_from_item(s[1]),
                                    address_from_item(s[2]),
                                    u256_from_item(s[3]),
                                    u256_from_item(s[4]),
                                    bytes_from_item(s[5]),
                                ) {
                                    (Ok(from), Ok(to), Ok(value), Ok(gas), Ok(input)) => Ok(
                                        ActionM::Call(from, to, value, gas, input),
                                    ),
                                    (Err(e), _, _, _, _) => Err(e),
                                    (_, Err(e), _, _, _) => Err(e),
                                    (_, _, Err(e), _, _) => Err(e),
                                    (_, _, _, Err(e), _) => Err(e),
                                    (_, _, _, _, Err(e)) => Err(e),
                                }
                            }
                        } else if tag == 1 {
                            if s.len() != 5 {
                                Err(crate::rlp::DecoderError::UnexpectedShape)
                            } else {
                                match (
                                    address_from_item(s[1]),
                                    u256_from_item(s[2]),
                                    u256_from_item(s[3]),
                                    bytes_from_item(s[4]),
                                ) {
                                    (Ok(from), Ok(value), Ok(gas), Ok(init)) => Ok(
                                        ActionM::Create(from, value, gas, init),
                                    ),
                                    (Err(e), _, _, _) => Err(e),
                                    (_, Err(e), _, _) => Err(e),
                                    (_, _, Err(e), _) => Err(e),
                                    (_, _, _, Err(e)) => Err(e),
                                }
                            }
                        } else {
                            Err(crate::rlp::DecoderError::UnexpectedShape)
                        }
                    },
                }
            }
        },
    }
}

/// Reads a result back out of a decoded value.
pub open spec fn res_from_item(x: ItemM) -> Result<ResM, crate::rlp::DecoderError> {
    match x {
        ItemM::Bytes(_) => Err(crate::rlp::DecoderError::UnexpectedShape),
        ItemM::List(s) => {
            if s.len() == 0 {
                Err(crate::rlp::DecoderError::UnexpectedShape)
            } else {
                match uint_from_item(s[0]) {
                    Err(e) => Err(e),
                    Ok(tag) => {
                        if tag == 0 {
                            if s.len() != 3 {
                                Err(crate::rlp::DecoderError::UnexpectedShape)
                            } else {
                                match (u256_from_item(s[1]), bytes_from_item(s[2])) {
                                    (Ok(gas_used), Ok(output)) => Ok(
                                        ResM::Call(gas_used, output),
                                    ),
                                    (Err(e), _) => Err(e),
                                    (_, Err(e)) => Err(e),
                                }
                            }
                        } else if tag == 1 {
                            if s.len() != 4 {
                                Err(crate::rlp::DecoderError::UnexpectedShape)
                            } else {
                                match (
                                    u256_from_item(s[1]),
                                    bytes_from_item(s[2]),
                                    address_from_item(s[3]),
                                ) {
                                    (Ok(gas_used), Ok(code), Ok(address)) => Ok(
                                        ResM::Create(gas_used, code, address),
                                    ),
                                    (Err(e), _, _) => Err(e),
                                    (_, Err(e), _) => Err(e),
                                    (_, _, Err(e)) => Err(e),
                                }
                            }
                        } else if tag == 2 {
                            if s.len() != 1 {
                                Err(crate::rlp::DecoderError::UnexpectedShape)
                            } else {
                                Ok(ResM::FailedCall)
                            }
                        } else if tag == 3 {
                            if s.len() != 1 {
                                Err(crate::rlp::DecoderError::UnexpectedShape)
                            } else {
                                Ok(ResM::FailedCreate)
                            }
                        } else {
                            Err(crate::rlp::DecoderError::UnexpectedShape)
                        }
                    },
                }
            }
        },
    }
}

/// Reads a run of numbers out of a run of values, the first failure
/// winning.
pub open spec fn uints_from_items(s: Seq<ItemM>) -> Result<Seq<usize>, crate::rlp::DecoderError>
    decreases s,
{
    if s.len() == 0 {
        Ok(Seq::empty())
    } else {
        match uints_from_items(s.drop_last()) {
            Err(e) => Err(e),
            Ok(r) => match uint_from_item(s.last()) {
                Err(e) => Err(e),
                Ok(v) => Ok(r.push(v as usize)),
            },
        }
    }
}

/// Reads one flat entry back out of a decoded value.
pub open spec fn flat_from_item(x: ItemM) -> Result<FlatM, crate::rlp::DecoderError> {
    match x {
        ItemM::Bytes(_) => Err(crate::rlp::DecoderError::UnexpectedShape),
        ItemM::List(s) => {
            if s.len() != 4 {
                Err(crate::rlp::DecoderError::UnexpectedShape)
            } else {
                match action_from_item(s[0]) {
                    Err(e) => Err(e),
                    Ok(action) => match res_from_item(s[1]) {
                        Err(e) => Err(e),
                        Ok(result) => match uint_from_item(s[2]) {
                            Err(e) => Err(e),
                            Ok(subtraces) => match s[3] {
                                ItemM::Bytes(_) => Err(
                                    crate::rlp::DecoderError::UnexpectedShape,
                                ),
                                ItemM::List(addr_items) => match uints_from_items(addr_items) {
                                    Err(e) => Err(e),
                                    Ok(trace_address) => Ok(
                                        FlatM { trace_address, subtraces, action, result },
                                    ),
                                },
                            },
                        },
                    },
                }
            }
        },
    }
}

/// Reads a run of flat entries, the first failure winning.
pub open spec fn flats_from_items(s: Seq<ItemM>) -> Result<Seq<FlatM>, crate::rlp::DecoderError>
    decreases s,
{
    if s.len() == 0 {
        Ok(Seq::empty())
    } else {
        match flats_from_items(s.drop_last()) {
            Err(e) => Err(e),
            Ok(r) => match flat_from_item(s.last()) {
                Err(e) => Err(e),
                Ok(f) => Ok(r.push(f)),
            },
        }
    }
}

/// Reads a transaction's flat run back out of a decoded value.
pub open spec fn tx_from_item(x: ItemM) -> Result<Seq<FlatM>, crate::rlp::DecoderError> {
    match x {
        ItemM::Bytes(_) => Err(crate::rlp::DecoderError::UnexpectedShape),
        ItemM::List(s) => flats_from_items(s),
    }
}

/// Reads the runs of a whole block, the first failure winning.
pub open spec fn txs_from_items(s: Seq<ItemM>) -> Result<
    Seq<Seq<FlatM>>,
    crate::rlp::DecoderError,
>
    decreases s,
{
    if s.len() == 0 {
        Ok(Seq::empty())
    } else {
        match txs_from_items(s.drop_last()) {
            Err(e) => Err(e),
            Ok(r) => match tx_from_item(s.last()) {
                Err(e) => Err(e),
                Ok(t) => Ok(r.push(t)),
            },
        }
    }
}

/// Reads a block's flat runs back out of a decoded value.
pub open spec fn block_from_item(x: ItemM) -> Result<Seq<Seq<FlatM>>, crate::rlp::DecoderError> {
    match x {
        ItemM::Bytes(_) => Err(crate::rlp::DecoderError::UnexpectedShape),
        ItemM::List(s) => txs_from_items(s),
    }
}

/// Reads a number back out of a decoded value, accepting exactly the
/// canonical form within the machine's range.
fn parse_uint(x: &Item) -> (r: Result<usize, crate::rlp::DecoderError>)
    ensures
        r matches Ok(v) ==> x.model() == uint_item(v as nat),
        match r {
            Ok(v) => uint_from_item(x.model()) == Ok::<nat, crate::rlp::DecoderError>(v as nat),
            Err(e) => uint_from_item(x.model()) == Err::<nat, crate::rlp::DecoderError>(e),
        },
{
    match x {
        Item::List(_) => Err(crate::rlp::DecoderError::UnexpectedShape),
        Item::Bytes(b) => {
            if b.len() > 8 {
                return Err(crate::rlp::DecoderError::UnexpectedShape);
            }
            if b.len() > 0 && b[0] == 0 {
                return Err(crate::rlp::DecoderError::NonCanonical);
            }
            let wide = crate::rlp::read_be(b, 0, b.len());
            proof {
                assert(b@.subrange(0, b@.len() as int) =~= b@);
            }
            if wide > (usize::MAX as u64) {
                return Err(crate::rlp::DecoderError::UnexpectedShape);
            }
            let v = wide as usize;
            proof {
                crate::rlp::lemma_be_bytes_be_val(b@);
                assert(be_bytes(v as nat) == b@);
            }
            Ok(v)
        },
    }
}

/// Reads a byte string out of a decoded value.
fn parse_bytes(x: &Item) -> (r: Result<Vec<u8>, crate::rlp::DecoderError>)
    ensures
        r matches Ok(v) ==> x.model() == ItemM::Bytes(v@),
        match r {
            Ok(v) => bytes_from_item(x.model()) == Ok::<Seq<u8>, crate::rlp::DecoderError>(v@),
            Err(e) => bytes_from_item(x.model()) == Err::<Seq<u8>, crate::rlp::DecoderError>(e),
        },
{
    match x {
        Item::List(_) => Err(crate::rlp::DecoderError::UnexpectedShape),
        Item::Bytes(b) => Ok(dup_bytes(b)),
    }
}

/// Reads an address out of a decoded value: exactly 20 bytes.
fn parse_address(x: &Item) -> (r: Result<Address, crate::rlp::DecoderError>)
    ensures
        r matches Ok(v) ==> x.model() == ItemM::Bytes(v@) && v.wf(),
        match r {
            Ok(v) => address_from_item(x.model()) == Ok::<Seq<u8>, crate::rlp::DecoderError>(v@),
            Err(e) => address_from_item(x.model()) == Err::<Seq<u8>, crate::rlp::DecoderError>(
                e,
            ),
        },
{
    match parse_bytes(x) {
        Ok(bytes) => {
            if bytes.len() != 20 {
                return Err(crate::rlp::DecoderError::UnexpectedShape);
            }
            Ok(Address { bytes })
        },
        Err(e) => Err(e),
    }
}

/// Reads a quantity out of a decoded value: canonical, within 32 bytes.
fn parse_u256(x: &Item) -> (r: Result<U256, crate::rlp::DecoderError>)
    ensures
        r matches Ok(v) ==> x.model() == ItemM::Bytes(v@) && v.wf(),
        match r {
            Ok(v) => u256_from_item(x.model()) == Ok::<Seq<u8>, crate::rlp::DecoderError>(v@),
            Err(e) => u256_from_item(x.model()) == Err::<Seq<u8>, crate::rlp::DecoderError>(e),
        },
{
    match parse_bytes(x) {
        Ok(bytes) => {
            if bytes.len() > 32 {
                return Err(crate::rlp::DecoderError::UnexpectedShape);
            }
            if bytes.len() > 0 && bytes[0] == 0 {
                return Err(crate::rlp::DecoderError::NonCanonical);
            }
            Ok(U256 { bytes })
        },
        Err(e) => Err(e),
    }
}

/// Reads an action back out of a decoded value.
fn parse_action(x: &Item) -> (r: Result<Action, crate::rlp::DecoderError>)
    ensures
        r matches Ok(a) ==> x.model() == action_item(action_m(a)),
        match r {
            Ok(a) => action_from_item(x.model()) == Ok::<ActionM, crate::rlp::DecoderError>(
                action_m(a),
            ),
            Err(e) => action_from_item(x.model()) == Err::<ActionM, crate::rlp::DecoderError>(
                e,
            ),
        },
{
    match x {
        Item::Bytes(_) => Err(crate::rlp::DecoderError::UnexpectedShape),
        Item::List(parts) => {
            if parts.len() == 0 {
                return Err(crate::rlp::DecoderError::UnexpectedShape);
            }
            proof {
                crate::manifest::lemma_models_len(parts@);
                crate::manifest::lemma_models_index(parts@, 0);
            }
            let tag = match parse_uint(&parts[0]) {
                Ok(t) => t,
                Err(e) => {
                    return Err(e);
                },
            };
            if tag == 0 {
                if parts.len() != 6 {
                    return Err(crate::rlp::DecoderError::UnexpectedShape);
                }
                proof {
                    crate::manifest::lemma_models_index(parts@, 1);
                    crate::manifest::lemma_models_index(parts@, 2);
                    crate::manifest::lemma_models_index(parts@, 3);
                    crate::manifest::lemma_models_index(parts@, 4);
                    crate::manifest::lemma_models_index(parts@, 5);
                }
                let from = match parse_address(&parts[1]) {
                    Ok(v) => v,
                    Err(e) => {
                        return Err(e);
                    },
                };
                let to = match parse_address(&parts[2]) {
                    Ok(v) => v,
                    Err(e) => {
                        return Err(e);
                    },
                };
                let value = match parse_u256(&parts[3]) {
                    Ok(v) => v,
                    Err(e) => {
                        return Err(e);
                    },
                };
                let gas = match parse_u256(&parts[4]) {
                    Ok(v) => v,
                    Err(e) => {
                        return Err(e);
                    },
                };
                let input = match parse_bytes(&parts[5]) {
                    Ok(v) => v,
                    Err(e) => {
                        return Err(e);
                    },
                };
                let a = Action::Call(Call { from, to, value, gas, input });
                proof {
                    assert(x.model() == ItemM::List(models_of(parts@)));
                    assert(models_of(parts@) =~= seq![
                        parts@[0].model(), parts@[1].model(), parts@[2].model(),
                        parts@[3].model(), parts@[4].model(), parts@[5].model(),
                    ]);
                }
                Ok(a)
            } else if tag == 1 {
                if parts.len() != 5 {
                    return Err(crate::rlp::DecoderError::UnexpectedShape);
                }
                proof {
                    crate::manifest::lemma_models_index(parts@, 1);
                    crate::manifest::lemma_models_index(parts@, 2);
                    crate::manifest::lemma_models_index(parts@, 3);
                    crate::manifest::lemma_models_index(parts@, 4);
                }
                let from = match parse_address(&parts[1]) {
                    Ok(v) => v,
                    Err(e) => {
                        return Err(e);
                    },
                };
                let value = match parse_u256(&parts[2]) {
                    Ok(v) => v,
                    Err(e) => {
                        return Err(e);
                    },
                };
                let gas = match parse_u256(&parts[3]) {
                    Ok(v) => v,
                    Err(e) => {
                        return Err(e);
                    },
                };
                let init = match parse_bytes(&parts[4]) {
                    Ok(v) => v,
                    Err(e) => {
                        return Err(e);
                    },
                };
                let a = Action::Create(Create { from, value, gas, init });
                proof {
                    assert(x.model() == ItemM::List(models_of(parts@)));
                    assert(models_of(parts@) =~= seq![
                        parts@[0].model(), parts@[1].model(), parts@[2].model(),
                        parts@[3].model(), parts@[4].model(),
                    ]);
                }
                Ok(a)
            } else {
                Err(crate::rlp::DecoderError::UnexpectedShape)
            }
        },
    }
}

/// Reads a result back out of a decoded value.
fn parse_res(x: &Item) -> (r: Result<Res, crate::rlp::DecoderError>)
    ensures
        r matches Ok(v) ==> x.model() == res_item(res_m(v)),
        match r {
            Ok(v) => res_from_item(x.model()) == Ok::<ResM, crate::rlp::DecoderError>(res_m(v)),
            Err(e) => res_from_item(x.model()) == Err::<ResM, crate::rlp::DecoderError>(e),
        },
{
    match x {
        Item::Bytes(_) => Err(crate::rlp::DecoderError::UnexpectedShape),
        Item::List(parts) => {
            if parts.len() == 0 {
                return Err(crate::rlp::DecoderError::UnexpectedShape);
            }
            proof {
                crate::manifest::lemma_models_len(parts@);
                crate::manifest::lemma_models_index(parts@, 0);
            }
            let tag = match parse_uint(&parts[0]) {
                Ok(t) => t,
                Err(e) => {
                    return Err(e);
                },
            };
            if tag == 0 {
                if parts.len() != 3 {
                    return Err(crate::rlp::DecoderError::UnexpectedShape);
                }
                proof {
                    crate::manifest::lemma_models_index(parts@, 1);
                    crate::manifest::lemma_models_index(parts@, 2);
                }
                let gas_used = match parse_u256(&parts[1]) {
                    Ok(v) => v,
                    Err(e) => {
                        return Err(e);
                    },
                };
                let output = match parse_bytes(&parts[2]) {
                    Ok(v) => v,
                    Err(e) => {
                        return Err(e);
                    },
                };
                let v = Res::Call(CallResult { gas_used, output });
                proof {
                    assert(x.model() == ItemM::List(models_of(parts@)));
                    assert(models_of(parts@) =~= seq![
                        parts@[0].model(), parts@[1].model(), parts@[2].model(),
                    ]);
                }
                Ok(v)
            } else if tag == 1 {
                if parts.len() != 4 {
                    return Err(crate::rlp::DecoderError::UnexpectedShape);
                }
                proof {
                    crate::manifest::lemma_models_index(parts@, 1);
                    crate::manifest::lemma_models_index(parts@, 2);
                    crate::manifest::lemma_models_index(parts@, 3);
                }
                let gas_used = match parse_u256(&parts[1]) {
                    Ok(v) => v,
                    Err(e) => {
                        return Err(e);
                    },
                };
                let code = match parse_bytes(&parts[2]) {
                    Ok(v) => v,
                    Err(e) => {
                        return Err(e);
                    },
                };
                let address = match parse_address(&parts[3]) {
                    Ok(v) => v,
                    Err(e) => {
                        return Err(e);
                    },
                };
                let v = Res::Create(CreateResult { gas_used, code, address });
                proof {
                    assert(x.model() == ItemM::List(models_of(parts@)));
                    assert(models_of(parts@) =~= seq![
                        parts@[0].model(), parts@[1].model(), parts@[2].model(),
                        parts@[3].model(),
                    ]);
                }
                Ok(v)
            } else if tag == 2 {
                if parts.len() != 1 {
                    return Err(crate::rlp::DecoderError::UnexpectedShape);
                }
                proof {
                    assert(x.model() == ItemM::List(models_of(parts@)));
                    assert(models_of(parts@) =~= seq![parts@[0].model()]);
                }
                Ok(Res::FailedCall)
            } else if tag == 3 {
                if parts.len() != 1 {
                    return Err(crate::rlp::DecoderError::UnexpectedShape);
                }
                proof {
                    assert(x.model() == ItemM::List(models_of(parts@)));
                    assert(models_of(parts@) =~= seq![parts@[0].model()]);
                }
                Ok(Res::FailedCreate)
            } else {
                Err(crate::rlp::DecoderError::UnexpectedShape)
            }
        },
    }
}

/// A failing number, after a run of good ones, fails the whole run with
/// its own error.
proof fn lemma_uints_from_items_err(s: Seq<ItemM>, bad: int)
    requires
        0 <= bad < s.len(),
        uints_from_items(s.subrange(0, bad)) is Ok,
        uint_from_item(s[bad]) is Err,
    ensures
        uints_from_items(s) == Err::<Seq<usize>, crate::rlp::DecoderError>(
            uint_from_item(s[bad])->Err_0,
        ),
    decreases s.len(),
{
    if bad == s.len() - 1 {
        assert(s.subrange(0, bad) =~= s.drop_last());
    } else {
        assert(s.drop_last().subrange(0, bad) =~= s.subrange(0, bad));
        lemma_uints_from_items_err(s.drop_last(), bad);
    }
}

/// Reads one flat entry back out of a decoded value.
#[verifier::loop_isolation(false)]
fn parse_flat(x: &Item) -> (r: Result<FlatTrace, crate::rlp::DecoderError>)
    ensures
        r matches Ok(f) ==> x.model() == flat_item(flat_m(f)),
        match r {
            Ok(f) => flat_from_item(x.model()) == Ok::<FlatM, crate::rlp::DecoderError>(
                flat_m(f),
            ),
            Err(e) => flat_from_item(x.model()) == Err::<FlatM, crate::rlp::DecoderError>(e),
        },
{
    match x {
        Item::Bytes(_) => Err(crate::rlp::DecoderError::UnexpectedShape),
        Item::List(parts) => {
            if parts.len() != 4 {
                proof {
                    crate::manifest::lemma_models_len(parts@);
                }
                return Err(crate::rlp::DecoderError::UnexpectedShape);
            }
            proof {
                crate::manifest::lemma_models_len(parts@);
                crate::manifest::lemma_models_index(parts@, 0);
                crate::manifest::lemma_models_index(parts@, 1);
                crate::manifest::lemma_models_index(parts@, 2);
                crate::manifest::lemma_models_index(parts@, 3);
            }
            let action = match parse_action(&parts[0]) {
                Ok(a) => a,
                Err(e) => {
                    return Err(e);
                },
            };
            let result = match parse_res(&parts[1]) {
                Ok(v) => v,
                Err(e) => {
                    return Err(e);
                },
            };
            let subtraces = match parse_uint(&parts[2]) {
                Ok(v) => v,
                Err(e) => {
                    return Err(e);
                },
            };
            let trace_address: Vec<usize>;
            match &parts[3] {
                Item::Bytes(_) => {
                    return Err(crate::rlp::DecoderError::UnexpectedShape);
                },
                Item::List(addr_items) => {
                    let mut addr: Vec<usize> = Vec::new();
                    let mut i: usize = 0;
                    proof {
                        crate::manifest::lemma_models_len(addr_items@);
                        assert(models_of(addr_items@).subrange(0, 0) =~= Seq::<ItemM>::empty());
                        assert(addr@ =~= Seq::<usize>::empty());
                    }
                    while i < addr_items.len()
                        invariant
                            i <= addr_items@.len(),
                            addr@.len() == i,
                            forall|j: int| 0 <= j < i ==> models_of(addr_items@)[j]
                                == uint_item(#[trigger] addr@[j] as nat),
                            models_of(addr_items@).len() == addr_items@.len(),
                            uints_from_items(models_of(addr_items@).subrange(0, i as int))
                                == Ok::<Seq<usize>, crate::rlp::DecoderError>(addr@),
                        decreases addr_items@.len() - i,
                    {
                        proof {
                            crate::manifest::lemma_models_index(addr_items@, i as int);
                        }
                        match parse_uint(&addr_items[i]) {
                            Ok(v) => {
                                addr.push(v);
                                proof {
                                    let ms = models_of(addr_items@);
                                    assert(ms.subrange(0, i as int + 1).drop_last()
                                        =~= ms.subrange(0, i as int));
                                    assert(ms.subrange(0, i as int + 1).last()
                                        == ms[i as int]);
                                    assert(addr@.drop_last().push(addr@.last()) =~= addr@);
                                    assert(uints_from_items(ms.subrange(0, i as int + 1))
                                        == Ok::<Seq<usize>, crate::rlp::DecoderError>(addr@));
                                }
                            },
                            Err(e) => {
                                proof {
                                    let ms = models_of(addr_items@);
                                    lemma_uints_from_items_err(ms, i as int);
                                    assert(x.model() == ItemM::List(models_of(parts@)));
                                    assert(models_of(parts@) =~= seq![
                                        parts@[0].model(), parts@[1].model(),
                                        parts@[2].model(), parts@[3].model(),
                                    ]);
                                }
                                return Err(e);
                            },
                        }
                        i = i + 1;
                    }
                    proof {
                        assert(models_of(addr_items@).subrange(
                            0,
                            addr_items@.len() as int,
                        ) =~= models_of(addr_items@));
                    }
                    trace_address = addr;
                },
            }
            let f = FlatTrace { action, result, subtraces, trace_address };
            proof {
                assert(x.model() == ItemM::List(models_of(parts@)));
                assert(parts@[3].model() == ItemM::List(models_of(parts@[3]->List_0@)));
                assert(models_of(parts@[3]->List_0@) =~= Seq::new(
                    f.trace_address@.len(),
                    |j: int| uint_item(f.trace_address@[j] as nat),
                ));
                assert(models_of(parts@) =~= seq![
                    parts@[0].model(), parts@[1].model(), parts@[2].model(), parts@[3].model(),
                ]);
            }
            Ok(f)
        },
    }
}

/// A failing entry, after a run of good ones, fails the whole run with
/// its own error.
proof fn lemma_flats_from_items_err(s: Seq<ItemM>, bad: int)
    requires
        0 <= bad < s.len(),
        flats_from_items(s.subrange(0, bad)) is Ok,
        flat_from_item(s[bad]) is Err,
    ensures
        flats_from_items(s) == Err::<Seq<FlatM>, crate::rlp::DecoderError>(
            flat_from_item(s[bad])->Err_0,
        ),
    decreases s.len(),
{
    if bad == s.len() - 1 {
        assert(s.subrange(0, bad) =~= s.drop_last());
    } else {
        assert(s.drop_last().subrange(0, bad) =~= s.subrange(0, bad));
        lemma_flats_from_items_err(s.drop_last(), bad);
    }
}

/// A failing run, after good ones, fails the whole block with its own
/// error.
proof fn lemma_txs_from_items_err(s: Seq<ItemM>, bad: int)
    requires
        0 <= bad < s.len(),
        txs_from_items(s.subrange(0, bad)) is Ok,
        tx_from_item(s[bad]) is Err,
    ensures
        txs_from_items(s) == Err::<Seq<Seq<FlatM>>, crate::rlp::DecoderError>(
            tx_from_item(s[bad])->Err_0,
        ),
    decreases s.len(),
{
    if bad == s.len() - 1 {
        assert(s.subrange(0, bad) =~= s.drop_last());
    } else {
        assert(s.drop_last().subrange(0, bad) =~= s.subrange(0, bad));
        lemma_txs_from_items_err(s.drop_last(), bad);
    }
}

/// A well-formed action model: addresses of twenty bytes, quantities in
/// canonical form.
pub open spec fn action_m_wf(a: ActionM) -> bool {
    match a {
        ActionM::Call(from, to, value, gas, _) => from.len() == 20 && to.len() == 20
            && crate::state::canonical_u256(value) && crate::state::canonical_u256(gas),
        ActionM::Create(from, value, gas, _) => from.len() == 20 && crate::state::canonical_u256(
            value,
        ) && crate::state::canonical_u256(gas),
    }
}

/// A well-formed result model.
pub open spec fn res_m_wf(r: ResM) -> bool {
    match r {
        ResM::Call(gas_used, _) => crate::state::canonical_u256(gas_used),
        ResM::Create(gas_used, _, address) => crate::state::canonical_u256(gas_used)
            && address.len() == 20,
        ResM::FailedCall => true,
        ResM::FailedCreate => true,
    }
}

/// A well-formed flat entry: its pieces well-formed and its spawn count
/// within the machine's range.
pub open spec fn flat_m_wf(f: FlatM) -> bool {
    action_m_wf(f.action) && res_m_wf(f.result) && f.subtraces <= usize::MAX as nat
}

/// Well-formed runs throughout a block.
pub open spec fn block_m_wf(b: Seq<Seq<FlatM>>) -> bool {
    forall|i: int, j: int| 0 <= i < b.len() && 0 <= j < b[i].len() ==> flat_m_wf(
        #[trigger] b[i][j],
    )
}

/// A number within the machine's range reads back from its codec value.
proof fn lemma_uint_item_round(v: nat)
    requires
        v <= usize::MAX as nat,
    ensures
        uint_from_item(uint_item(v)) == Ok::<nat, crate::rlp::DecoderError>(v),
        crate::rlp::depth_of(uint_item(v)) == 0,
{
    crate::rlp::lemma_pow256_8();
    crate::rlp::lemma_be_bytes_len(v, 8);
    if v > 0 {
        crate::rlp::lemma_be_bytes_first(v);
    }
    crate::rlp::lemma_be_val_be_bytes(v);
}

/// A well-formed action reads back from its codec value.
proof fn lemma_action_item_round(a: ActionM)
    requires
        action_m_wf(a),
    ensures
        action_from_item(action_item(a)) == Ok::<ActionM, crate::rlp::DecoderError>(a),
        crate::rlp::depth_of(action_item(a)) == 1,
{
    lemma_uint_item_round(0);
    lemma_uint_item_round(1);
    match a {
        ActionM::Call(from, to, value, gas, input) => {
            let s = seq![
                uint_item(0), ItemM::Bytes(from), ItemM::Bytes(to), ItemM::Bytes(value),
                ItemM::Bytes(gas), ItemM::Bytes(input),
            ];
            assert(forall|i: int| 0 <= i < s.len() ==> (#[trigger] s[i]) matches ItemM::Bytes(
                _,
            ));
            lemma_depth_of_seq_bytes_local(s);
        },
        ActionM::Create(from, value, gas, init) => {
            let s = seq![
                uint_item(1), ItemM::Bytes(from), ItemM::Bytes(value), ItemM::Bytes(gas),
                ItemM::Bytes(init),
            ];
            assert(forall|i: int| 0 <= i < s.len() ==> (#[trigger] s[i]) matches ItemM::Bytes(
                _,
            ));
            lemma_depth_of_seq_bytes_local(s);
        },
    }
}

/// A sequence of byte-string values has depth zero.
proof fn lemma_depth_of_seq_bytes_local(s: Seq<ItemM>)
    requires
        forall|i: int| 0 <= i < s.len() ==> (#[trigger] s[i]) matches ItemM::Bytes(_),
    ensures
        crate::rlp::depth_of_seq(s) == 0,
    decreases s,
{
    if s.len() > 0 {
        assert(s[0] matches ItemM::Bytes(_));
        assert(crate::rlp::depth_of(s[0]) == 0);
        lemma_depth_of_seq_bytes_local(s.drop_first());
    }
}

/// A well-formed result reads back from its codec value.
proof fn lemma_res_item_round(r: ResM)
    requires
        res_m_wf(r),
    ensures
        res_from_item(res_item(r)) == Ok::<ResM, crate::rlp::DecoderError>(r),
        crate::rlp::depth_of(res_item(r)) == 1,
{
    lemma_uint_item_round(0);
    lemma_uint_item_round(1);
    lemma_uint_item_round(2);
    lemma_uint_item_round(3);
    match r {
        ResM::Call(gas_used, output) => {
            let s = seq![uint_item(0), ItemM::Bytes(gas_used), ItemM::Bytes(output)];
            assert(forall|i: int| 0 <= i < s.len() ==> (#[trigger] s[i]) matches ItemM::Bytes(
                _,
            ));
            lemma_depth_of_seq_bytes_local(s);
        },
        ResM::Create(gas_used, code, address) => {
            let s = seq![
                uint_item(1), ItemM::Bytes(gas_used), ItemM::Bytes(code), ItemM::Bytes(address),
            ];
            assert(forall|i: int| 0 <= i < s.len() ==> (#[trigger] s[i]) matches ItemM::Bytes(
                _,
            ));
            lemma_depth_of_seq_bytes_local(s);
        },
        ResM::FailedCall => {
            let s = seq![uint_item(2)];
            assert(forall|i: int| 0 <= i < s.len() ==> (#[trigger] s[i]) matches ItemM::Bytes(
                _,
            ));
            lemma_depth_of_seq_bytes_local(s);
        },
        ResM::FailedCreate => {
            let s = seq![uint_item(3)];
            assert(forall|i: int| 0 <= i < s.len() ==> (#[trigger] s[i]) matches ItemM::Bytes(
                _,
            ));
            lemma_depth_of_seq_bytes_local(s);
        },
    }
}

/// A path reads back from its codec values.
proof fn lemma_uints_items_round(addr: Seq<usize>)
    ensures
        uints_from_items(Seq::new(addr.len(), |i: int| uint_item(addr[i] as nat)))
            == Ok::<Seq<usize>, crate::rlp::DecoderError>(addr),
    decreases addr,
{
    let items = Seq::new(addr.len(), |i: int| uint_item(addr[i] as nat));
    if addr.len() == 0 {
        assert(items =~= Seq::<ItemM>::empty());
        assert(addr =~= Seq::<usize>::empty());
    } else {
        lemma_uints_items_round(addr.drop_last());
        assert(items.drop_last() =~= Seq::new(
            addr.drop_last().len(),
            |i: int| uint_item(addr.drop_last()[i] as nat),
        ));
        lemma_uint_item_round(addr.last() as nat);
        assert(items.last() == uint_item(addr.last() as nat));
        assert(addr.drop_last().push(addr.last()) =~= addr);
    }
}

/// A well-formed flat entry reads back from its codec value.
proof fn lemma_flat_item_round(f: FlatM)
    requires
        flat_m_wf(f),
    ensures
        flat_from_item(flat_item(f)) == Ok::<FlatM, crate::rlp::DecoderError>(f),
        crate::rlp::depth_of(flat_item(f)) <= 2,
{
    lemma_action_item_round(f.action);
    lemma_res_item_round(f.result);
    lemma_uint_item_round(f.subtraces);
    lemma_uints_items_round(f.trace_address);
    let addr_items = Seq::new(
        f.trace_address.len(),
        |i: int| uint_item(f.trace_address[i] as nat),
    );
    assert(forall|i: int| 0 <= i < addr_items.len() ==> (#[trigger] addr_items[i])
        matches ItemM::Bytes(_)) by {
        assert(forall|i: int| 0 <= i < addr_items.len() ==> addr_items[i] == uint_item(
            #[trigger] f.trace_address[i] as nat,
        ));
    }
    lemma_depth_of_seq_bytes_local(addr_items);
    let s = seq![
        action_item(f.action),
        res_item(f.result),
        uint_item(f.subtraces),
        ItemM::List(addr_items),
    ];
    assert(forall|i: int| 0 <= i < s.len() ==> crate::rlp::depth_of(#[trigger] s[i]) <= 1);
    crate::rlp::lemma_depth_of_seq_bound(s, 1);
    assert(s[0] == action_item(f.action));
    assert(s[1] == res_item(f.result));
    assert(s[2] == uint_item(f.subtraces));
    assert(s[3] == ItemM::List(addr_items));
    assert((f.subtraces as usize) as nat == f.subtraces);
    assert((FlatM {
        trace_address: f.trace_address,
        subtraces: f.subtraces,
        action: f.action,
        result: f.result,
    }) == f);
}

/// A well-formed run reads back from its codec values.
proof fn lemma_flats_items_round(s: Seq<FlatM>)
    requires
        forall|j: int| 0 <= j < s.len() ==> flat_m_wf(#[trigger] s[j]),
    ensures
        flats_from_items(Seq::new(s.len(), |i: int| flat_item(s[i]))) == Ok::<
            Seq<FlatM>,
            crate::rlp::DecoderError,
        >(s),
        crate::rlp::depth_of(tx_item(s)) <= 3,
    decreases s,
{
    let items = Seq::new(s.len(), |i: int| flat_item(s[i]));
    if s.len() == 0 {
        assert(items =~= Seq::<ItemM>::empty());
        assert(s =~= Seq::<FlatM>::empty());
        crate::rlp::lemma_depth_of_seq_bound(items, 2);
    } else {
        lemma_flats_items_round(s.drop_last());
        assert(items.drop_last() =~= Seq::new(
            s.drop_last().len(),
            |i: int| flat_item(s.drop_last()[i]),
        ));
        lemma_flat_item_round(s.last());
        assert(items.last() == flat_item(s.last()));
        assert(s.drop_last().push(s.last()) =~= s);
        assert(forall|i: int| 0 <= i < items.len() ==> crate::rlp::depth_of(
            #[trigger] items[i],
        ) <= 2) by {
            assert(forall|i: int| 0 <= i < items.len() ==> items[i] == flat_item(
                #[trigger] s[i],
            ));
            assert(forall|i: int| 0 <= i < s.len() ==> crate::rlp::depth_of(flat_item(
                #[trigger] s[i],
            )) <= 2) by {
                assert forall|i: int| 0 <= i < s.len() implies crate::rlp::depth_of(flat_item(
                    #[trigger] s[i],
                )) <= 2 by {
                    lemma_flat_item_round(s[i]);
                }
            }
        }
        crate::rlp::lemma_depth_of_seq_bound(items, 2);
    }
}

/// Round-trip law: the codec value a block's well-formed flat runs build
/// reads back as exactly those runs, and its nesting stays within the
/// decoder's bound; with the contracts of `to_rlp`, the codec round-trip
/// law and `from_rlp`, decoding an encoded block of traces returns the
/// block itself.
pub proof fn lemma_traces_round_trip(b: Seq<Seq<FlatM>>)
    requires
        block_m_wf(b),
    ensures
        block_from_item(block_traces_item(b)) == Ok::<
            Seq<Seq<FlatM>>,
            crate::rlp::DecoderError,
        >(b),
        crate::rlp::depth_of(block_traces_item(b)) <= 4,
    decreases b,
{
    let items = Seq::new(b.len(), |i: int| tx_item(b[i]));
    if b.len() == 0 {
        assert(items =~= Seq::<ItemM>::empty());
        assert(b =~= Seq::<Seq<FlatM>>::empty());
        crate::rlp::lemma_depth_of_seq_bound(items, 3);
    } else {
        assert(block_m_wf(b.drop_last())) by {
            assert(forall|i: int, j: int| 0 <= i < b.drop_last().len() && 0 <= j
                < b.drop_last()[i].len() ==> flat_m_wf(#[trigger] b.drop_last()[i][j])) by {
                assert(forall|i: int| 0 <= i < b.drop_last().len() ==> b.drop_last()[i]
                    == #[trigger] b[i]);
            }
        }
        lemma_traces_round_trip(b.drop_last());
        assert(items.drop_last() =~= Seq::new(
            b.drop_last().len(),
            |i: int| tx_item(b.drop_last()[i]),
        ));
        assert(forall|j: int| 0 <= j < b.last().len() ==> flat_m_wf(#[trigger] b.last()[j]));
        lemma_flats_items_round(b.last());
        assert(items.last() == tx_item(b.last()));
        assert(b.drop_last().push(b.last()) =~= b);
        assert(forall|i: int| 0 <= i < items.len() ==> crate::rlp::depth_of(
            #[trigger] items[i],
        ) <= 3) by {
            assert forall|i: int| 0 <= i < items.len() implies crate::rlp::depth_of(
                #[trigger] items[i],
            ) <= 3 by {
                assert(items[i] == tx_item(b[i]));
                assert(forall|j: int| 0 <= j < b[i].len() ==> flat_m_wf(#[trigger] b[i][j]));
                lemma_flats_items_round(b[i]);
            }
        }
        crate::rlp::lemma_depth_of_seq_bound(items, 3);
    }
}

impl FlatBlockTraces {
    /// Restores a block's flat runs from raw bytes: accepts exactly the
    /// canonical encodings of flat runs, and reads back precisely what
    /// the decoded value spells.
    #[verifier::loop_isolation(false)]
    #[verifier::rlimit(50)]
    pub fn from_rlp(raw: &Vec<u8>) -> (r: Result<FlatBlockTraces, crate::rlp::DecoderError>)
        ensures
            r matches Ok(t) ==> dec_full(raw@) == Ok::<ItemM, crate::rlp::DecoderError>(
                block_traces_item(block_m(t)),
            ),
            match r {
                Ok(t) => (match dec_full(raw@) {
                    Ok(x) => block_from_item(x) == Ok::<
                        Seq<Seq<FlatM>>,
                        crate::rlp::DecoderError,
                    >(block_m(t)),
                    Err(_) => false,
                }),
                Err(e) => (match dec_full(raw@) {
                    Ok(x) => block_from_item(x) == Err::<
                        Seq<Seq<FlatM>>,
                        crate::rlp::DecoderError,
                    >(e),
                    Err(e2) => e == e2,
                }),
            },
    {
        let item = match Item::decode(raw) {
            Ok(it) => it,
            Err(e) => {
                return Err(e);
            },
        };
        match &item {
            Item::Bytes(_) => Err(crate::rlp::DecoderError::UnexpectedShape),
            Item::List(tx_items) => {
                let mut txs: Vec<FlatTransactionTraces> = Vec::new();
                let mut i: usize = 0;
                let ghost mut txs_m: Seq<Seq<FlatM>> = Seq::empty();
                proof {
                    crate::manifest::lemma_models_len(tx_items@);
                    assert(models_of(tx_items@).subrange(0, 0) =~= Seq::<ItemM>::empty());
                }
                while i < tx_items.len()
                    invariant
                        i <= tx_items@.len(),
                        txs@.len() == i,
                        txs_m.len() == i,
                        models_of(tx_items@).len() == tx_items@.len(),
                        forall|j: int| 0 <= j < i ==> models_of(tx_items@)[j] == tx_item(
                            flats_m((#[trigger] txs@[j]).0@),
                        ),
                        forall|j: int| 0 <= j < i ==> txs_m[j] == flats_m(
                            (#[trigger] txs@[j]).0@,
                        ),
                        txs_from_items(models_of(tx_items@).subrange(0, i as int)) == Ok::<
                            Seq<Seq<FlatM>>,
                            crate::rlp::DecoderError,
                        >(txs_m),
                    decreases tx_items@.len() - i,
                {
                    proof {
                        crate::manifest::lemma_models_len(tx_items@);
                        crate::manifest::lemma_models_index(tx_items@, i as int);
                    }
                    match &tx_items[i] {
                        Item::Bytes(_) => {
                            proof {
                                lemma_txs_from_items_err(models_of(tx_items@), i as int);
                            }
                            return Err(crate::rlp::DecoderError::UnexpectedShape);
                        },
                        Item::List(flat_items) => {
                            let mut flats: Vec<FlatTrace> = Vec::new();
                            let mut k: usize = 0;
                            proof {
                                crate::manifest::lemma_models_len(flat_items@);
                                assert(models_of(flat_items@).subrange(0, 0)
                                    =~= Seq::<ItemM>::empty());
                                assert(flats_m(flats@) =~= Seq::<FlatM>::empty());
                            }
                            while k < flat_items.len()
                                invariant
                                    k <= flat_items@.len(),
                                    flats@.len() == k,
                                    models_of(flat_items@).len() == flat_items@.len(),
                                    forall|j: int| 0 <= j < k ==> models_of(flat_items@)[j]
                                        == flat_item(flat_m(#[trigger] flats@[j])),
                                    flats_from_items(
                                        models_of(flat_items@).subrange(0, k as int),
                                    ) == Ok::<Seq<FlatM>, crate::rlp::DecoderError>(
                                        flats_m(flats@),
                                    ),
                                decreases flat_items@.len() - k,
                            {
                                proof {
                                    crate::manifest::lemma_models_index(flat_items@, k as int);
                                }
                                match parse_flat(&flat_items[k]) {
                                    Ok(f) => {
                                        let ghost flats_pre = flats@;
                                        let ghost fm = flat_m(f);
                                        flats.push(f);
                                        proof {
                                            let ms = models_of(flat_items@);
                                            assert(ms.subrange(0, k as int + 1).drop_last()
                                                =~= ms.subrange(0, k as int));
                                            assert(ms.subrange(0, k as int + 1).last()
                                                == ms[k as int]);
                                            assert(flats_m(flats@) =~= flats_m(
                                                flats_pre,
                                            ).push(fm));
                                        }
                                    },
                                    Err(e) => {
                                        proof {
                                            let ms = models_of(flat_items@);
                                            lemma_flats_from_items_err(ms, k as int);
                                            assert(tx_items@[i as int].model()
                                                == ItemM::List(ms));
                                            lemma_txs_from_items_err(
                                                models_of(tx_items@),
                                                i as int,
                                            );
                                        }
                                        return Err(e);
                                    },
                                }
                                k = k + 1;
                            }
                            proof {
                                let ms = models_of(flat_items@);
                                assert(ms.subrange(0, flat_items@.len() as int) =~= ms);
                                assert(tx_items@[i as int].model() == ItemM::List(ms));
                                assert(ms =~= Seq::new(
                                    flats_m(flats@).len(),
                                    |j: int| flat_item(flats_m(flats@)[j]),
                                ));
                                let tms = models_of(tx_items@);
                                assert(tms.subrange(0, i as int + 1).drop_last()
                                    =~= tms.subrange(0, i as int));
                                assert(tms.subrange(0, i as int + 1).last() == tms[i as int]);
                                txs_m = txs_m.push(flats_m(flats@));
                            }
                            txs.push(FlatTransactionTraces(flats));
                        },
                    }
                    i = i + 1;
                }
                let t = FlatBlockTraces(txs);
                proof {
                    crate::manifest::lemma_models_len(tx_items@);
                    assert(item.model() == ItemM::List(models_of(tx_items@)));
                    assert(models_of(tx_items@) =~= Seq::new(
                        block_m(t).len(),
                        |j: int| tx_item(block_m(t)[j]),
                    ));
                    assert(models_of(tx_items@).subrange(0, tx_items@.len() as int)
                        =~= models_of(tx_items@));
                    assert(txs_m =~= block_m(t));
                }
                Ok(t)
            },
        }
    }
}

} // verus!
