//! Length-prefixed recursive codec.
//!
//! A value is either a byte string or a list of values.  The encoding is
//! deterministic: a single byte below `0x80` stands for itself; a short byte
//! string carries a one-byte header holding its length; a long byte string
//! carries the big-endian length after the header byte; lists are encoded the
//! same way around the concatenation of their elements' encodings.  The
//! decoder accepts exactly the canonical form and rejects everything else.

use vstd::prelude::*;

verus! {

broadcast use vstd::std_specs::vec::group_vec_axioms;

/// A codec value: a byte string or a list of values.
#[derive(Debug, PartialEq)]
pub enum Item {
    Bytes(Vec<u8>),
    List(Vec<Item>),
}

/// The mathematical model of a codec value.
#[verifier::ext_equal]
pub enum ItemM {
    Bytes(Seq<u8>),
    List(Seq<ItemM>),
}

impl Item {
    /// The model of this value.
    pub open spec fn model(self) -> ItemM
        decreases self,
    {
        match self {
            Item::Bytes(b) => ItemM::Bytes(b@),
            Item::List(v) => ItemM::List(models_of(v@)),
        }
    }
}

/// The models of a sequence of values.
pub open spec fn models_of(s: Seq<Item>) -> Seq<ItemM>
    decreases s,
{
    if s.len() == 0 {
        Seq::empty()
    } else {
        models_of(s.drop_last()).push(s.last().model())
    }
}

/// The big-endian bytes of `n`, with no leading zero: empty for zero.
pub open spec fn be_bytes(n: nat) -> Seq<u8>
    decreases n,
{
    if n == 0 {
        Seq::empty()
    } else {
        be_bytes(n / 256).push((n % 256) as u8)
    }
}

/// The value of a big-endian byte string.
pub open spec fn be_val(s: Seq<u8>) -> nat
    decreases s,
{
    if s.len() == 0 {
        0
    } else {
        (be_val(s.drop_last()) * 256 + s.last()) as nat
    }
}

/// The encoding of one value.
pub open spec fn enc(x: ItemM) -> Seq<u8>
    decreases x,
{
    match x {
        ItemM::Bytes(b) => {
            if b.len() == 1 && b[0] < 0x80 {
                b
            } else if b.len() <= 55 {
                seq![(0x80 + b.len()) as u8] + b
            } else {
                seq![(0xb7 + be_bytes(b.len()).len()) as u8] + be_bytes(b.len()) + b
            }
        },
        ItemM::List(s) => {
            let p = enc_seq(s);
            if p.len() <= 55 {
                seq![(0xc0 + p.len()) as u8] + p
            } else {
                seq![(0xf7 + be_bytes(p.len()).len()) as u8] + be_bytes(p.len()) + p
            }
        },
    }
}

/// The concatenation of the encodings of a sequence of values.
pub open spec fn enc_seq(s: Seq<ItemM>) -> Seq<u8>
    decreases s,
{
    if s.len() == 0 {
        Seq::empty()
    } else {
        enc(s[0]) + enc_seq(s.drop_first())
    }
}

/// Why the decoder rejected an input.
#[derive(Clone, Copy, Debug, PartialEq, Eq, Structural)]
pub enum DecoderError {
    /// The input ended before the announced length.
    ShortInput,
    /// The input is not the canonical encoding of any value.
    NonCanonical,
    /// The input nests lists deeper than the decoder's bound.
    TooDeep,
    /// Bytes follow the outermost value.
    TrailingBytes,
    /// The input decoded, but not to the shape the caller reads.
    UnexpectedShape,
}

/// Nesting depth of a value: zero for a byte string.
pub open spec fn depth_of(x: ItemM) -> nat
    decreases x,
{
    match x {
        ItemM::Bytes(_) => 0,
        ItemM::List(s) => 1 + depth_of_seq(s),
    }
}

/// Largest nesting depth among a sequence of values.
pub open spec fn depth_of_seq(s: Seq<ItemM>) -> nat
    decreases s,
{
    if s.len() == 0 {
        0
    } else if depth_of(s[0]) >= depth_of_seq(s.drop_first()) {
        depth_of(s[0])
    } else {
        depth_of_seq(s.drop_first())
    }
}

/// The decoder, as a function: reads one value from the front of `buf`,
/// returning the value and the count of bytes it occupies.  `depth` bounds
/// the list nesting that will be followed.
pub open spec fn dec_item(buf: Seq<u8>, depth: nat) -> Result<(ItemM, nat), DecoderError>
    decreases depth, buf.len(), 0int,
{
    if buf.len() == 0 {
        Err(DecoderError::ShortInput)
    } else {
        let b = buf[0];
        if b < 0x80 {
            Ok((ItemM::Bytes(seq![b]), 1))
        } else if b <= 0xb7 {
            let l = (b - 0x80) as nat;
            if buf.len() < 1 + l {
                Err(DecoderError::ShortInput)
            } else {
                let data = buf.subrange(1, (1 + l) as int);
                if l == 1 && data[0] < 0x80 {
                    Err(DecoderError::NonCanonical)
                } else {
                    Ok((ItemM::Bytes(data), 1 + l))
                }
            }
        } else if b <= 0xbf {
            let ll = (b - 0xb7) as nat;
            if buf.len() < 1 + ll {
                Err(DecoderError::ShortInput)
            } else {
                let lenb = buf.subrange(1, (1 + ll) as int);
                if lenb[0] == 0 {
                    Err(DecoderError::NonCanonical)
                } else {
                    let l = be_val(lenb);
                    if l <= 55 {
                        Err(DecoderError::NonCanonical)
                    } else if buf.len() < 1 + ll + l {
                        Err(DecoderError::ShortInput)
                    } else {
                        Ok((ItemM::Bytes(buf.subrange((1 + ll) as int, (1 + ll + l) as int)), 1 + ll + l))
                    }
                }
            }
        } else if b <= 0xf7 {
            let l = (b - 0xc0) as nat;
            if buf.len() < 1 + l {
                Err(DecoderError::ShortInput)
            } else if depth == 0 {
                Err(DecoderError::TooDeep)
            } else {
                match dec_items(buf.subrange(1, (1 + l) as int), (depth - 1) as nat) {
                    Ok(items) => Ok((ItemM::List(items), 1 + l)),
                    Err(e) => Err(e),
                }
            }
        } else {
            let ll = (b - 0xf7) as nat;
            if buf.len() < 1 + ll {
                Err(DecoderError::ShortInput)
            } else {
                let lenb = buf.subrange(1, (1 + ll) as int);
                if lenb[0] == 0 {
                    Err(DecoderError::NonCanonical)
                } else {
                    let l = be_val(lenb);
                    if l <= 55 {
                        Err(DecoderError::NonCanonical)
                    } else if buf.len() < 1 + ll + l {
                        Err(DecoderError::ShortInput)
                    } else if depth == 0 {
                        Err(DecoderError::TooDeep)
                    } else {
                        match dec_items(buf.subrange((1 + ll) as int, (1 + ll + l) as int), (depth - 1) as nat) {
                            Ok(items) => Ok((ItemM::List(items), 1 + ll + l)),
                            Err(e) => Err(e),
                        }
                    }
                }
            }
        }
    }
}

/// Decodes a whole byte string as a run of values, each directly after the
/// one before, with nothing left over.
pub open spec fn dec_items(buf: Seq<u8>, depth: nat) -> Result<Seq<ItemM>, DecoderError>
    decreases depth, buf.len(), 1int,
{
    if buf.len() == 0 {
        Ok(Seq::empty())
    } else {
        match dec_item(buf, depth) {
            Err(e) => Err(e),
            Ok((x, n)) => {
                if n < 1 || n > buf.len() {
                    Err(DecoderError::ShortInput)
                } else {
                    match dec_items(buf.subrange(n as int, buf.len() as int), depth) {
                        Err(e) => Err(e),
                        Ok(s) => Ok(seq![x] + s),
                    }
                }
            },
        }
    }
}

/// The list nesting the decoder will follow.  The snapshot formats nest a
/// handful of levels; deeper input is rejected rather than recursed into.
pub const MAX_DEPTH: u64 = 64;

/// Decodes a whole input as exactly one value, rejecting trailing bytes.
pub open spec fn dec_full(buf: Seq<u8>) -> Result<ItemM, DecoderError> {
    match dec_item(buf, MAX_DEPTH as nat) {
        Err(e) => Err(e),
        Ok((x, n)) => {
            if n == buf.len() {
                Ok(x)
            } else {
                Err(DecoderError::TrailingBytes)
            }
        },
    }
}

/// 256 to the power `k`.
pub open spec fn pow256(k: nat) -> nat
    decreases k,
{
    if k == 0 {
        1
    } else {
        256 * pow256((k - 1) as nat)
    }
}

/// Reading back the big-endian bytes of `n` gives `n`.
pub proof fn lemma_be_val_be_bytes(n: nat)
    ensures
        be_val(be_bytes(n)) == n,
    decreases n,
{
    if n > 0 {
        lemma_be_val_be_bytes(n / 256);
        assert(be_bytes(n).drop_last() =~= be_bytes(n / 256));
        assert(n == (n / 256) * 256 + n % 256) by (nonlinear_arith);
    }
}

/// The big-endian bytes of a positive number start with a non-zero byte.
pub proof fn lemma_be_bytes_first(n: nat)
    requires
        n > 0,
    ensures
        be_bytes(n).len() >= 1,
        be_bytes(n)[0] != 0,
    decreases n,
{
    if n < 256 {
        assert(n / 256 == 0) by (nonlinear_arith)
            requires n < 256;
        assert(n % 256 == n) by (nonlinear_arith)
            requires n < 256;
        assert(be_bytes((n / 256) as nat) =~= Seq::<u8>::empty());
        assert(be_bytes(n) =~= seq![(n % 256) as u8]);
        assert(be_bytes(n)[0] == n);
    } else {
        assert(n / 256 >= 1) by (nonlinear_arith)
            requires n >= 256;
        lemma_be_bytes_first(n / 256);
        assert(be_bytes(n)[0] == be_bytes(n / 256)[0]);
    }
}

/// A number below `pow256(k)` takes at most `k` big-endian bytes.
pub proof fn lemma_be_bytes_len(n: nat, k: nat)
    requires
        n < pow256(k),
    ensures
        be_bytes(n).len() <= k,
    decreases k,
{
    if n > 0 {
        assert(k > 0);
        assert(n / 256 < pow256((k - 1) as nat)) by (nonlinear_arith)
            requires n < 256 * pow256((k - 1) as nat);
        lemma_be_bytes_len(n / 256, (k - 1) as nat);
    }
}

/// Any value a 64-bit machine can hold is below `pow256(8)`.
pub proof fn lemma_pow256_8()
    ensures
        pow256(8) == 0x10000000000000000,
{
    reveal_with_fuel(pow256, 9);
}

/// A canonical big-endian byte string is the byte string of its value.
pub proof fn lemma_be_bytes_be_val(s: Seq<u8>)
    requires
        s.len() > 0 ==> s[0] != 0,
    ensures
        be_bytes(be_val(s)) == s,
    decreases s,
{
    if s.len() > 0 {
        let v = be_val(s.drop_last());
        let last = s.last();
        if s.len() == 1 {
            assert(s.drop_last() =~= Seq::<u8>::empty());
            assert(be_val(s) == last);
            if last != 0 {
                assert((last as nat) / 256 == 0 && (last as nat) % 256 == last as nat)
                    by (nonlinear_arith)
                    requires last < 256;
                assert(be_bytes((last as nat) / 256) =~= Seq::<u8>::empty());
                assert(be_bytes(last as nat) =~= s);
            } else {
                assert(false);
            }
        } else {
            assert(s.drop_last()[0] == s[0]);
            lemma_be_bytes_be_val(s.drop_last());
            assert(be_val(s) == v * 256 + last as nat);
            assert((v * 256 + last as nat) / 256 == v && (v * 256 + last as nat) % 256 == last as nat)
                by (nonlinear_arith)
                requires last < 256;
            assert(be_val(s) > 0) by {
                if v == 0 {
                    assert(be_bytes(0nat).len() == 0);
                    assert(s.drop_last().len() > 0);
                    assert(false);
                } else {
                    assert(v * 256 >= 256) by (nonlinear_arith)
                        requires v >= 1;
                }
            }
            assert(be_bytes(be_val(s)) == be_bytes(v).push(last));
            assert(be_bytes(v).push(last) =~= s);
        }
    } else {
        assert(be_bytes(0) =~= s);
    }
}

/// A big-endian byte string denotes a value below `pow256` of its length.
pub proof fn lemma_be_val_bound(s: Seq<u8>)
    ensures
        be_val(s) < pow256(s.len()),
    decreases s,
{
    if s.len() > 0 {
        lemma_be_val_bound(s.drop_last());
        let v = be_val(s.drop_last());
        let p = pow256((s.len() - 1) as nat);
        assert(v * 256 + s.last() < 256 * p) by (nonlinear_arith)
            requires v < p, s.last() < 256;
    }
}

/// Every encoding holds at least one byte.
pub proof fn lemma_enc_len(x: ItemM)
    ensures
        enc(x).len() >= 1,
{
    match x {
        ItemM::Bytes(_) => {},
        ItemM::List(_) => {},
    }
}

/// Decoding the encoding of a value, whatever follows it, yields exactly
/// that value and consumes exactly its encoding.
pub proof fn lemma_dec_enc(x: ItemM, rest: Seq<u8>, depth: nat)
    requires
        depth_of(x) <= depth,
        enc(x).len() < 0x10000000000000000,
    ensures
        dec_item(enc(x) + rest, depth) == Ok::<(ItemM, nat), DecoderError>((x, enc(x).len())),
    decreases x,
{
    let e = enc(x) + rest;
    lemma_pow256_8();
    match x {
        ItemM::Bytes(b) => {
            if b.len() == 1 && b[0] < 0x80 {
                assert(e[0] == b[0]);
                assert(seq![e[0]] =~= b);
            } else if b.len() <= 55 {
                let hdr = (0x80 + b.len()) as u8;
                assert(e[0] == hdr);
                assert(0x80 <= hdr <= 0xb7);
                let l = (hdr - 0x80) as nat;
                assert(l == b.len());
                assert(e.subrange(1, (1 + l) as int) =~= b);
            } else {
                let lb = be_bytes(b.len());
                lemma_be_bytes_first(b.len());
                lemma_be_bytes_len(b.len(), 8);
                let ll = lb.len();
                let hdr = (0xb7 + ll) as u8;
                assert(e[0] == hdr);
                assert(0xb8 <= hdr <= 0xbf);
                assert((hdr - 0xb7) as nat == ll);
                assert(e.subrange(1, (1 + ll) as int) =~= lb);
                lemma_be_val_be_bytes(b.len());
                assert(be_val(lb) == b.len());
                assert(e.subrange((1 + ll) as int, (1 + ll + b.len()) as int) =~= b);
            }
        },
        ItemM::List(s) => {
            let p = enc_seq(s);
            assert(depth >= 1);
            if p.len() <= 55 {
                let hdr = (0xc0 + p.len()) as u8;
                assert(e[0] == hdr);
                assert(0xc0 <= hdr <= 0xf7);
                let l = (hdr - 0xc0) as nat;
                assert(l == p.len());
                assert(e.subrange(1, (1 + l) as int) =~= p);
                lemma_dec_enc_seq(s, (depth - 1) as nat);
            } else {
                let lb = be_bytes(p.len());
                lemma_be_bytes_first(p.len());
                lemma_be_bytes_len(p.len(), 8);
                let ll = lb.len();
                let hdr = (0xf7 + ll) as u8;
                assert(e[0] == hdr);
                assert(0xf8 <= hdr);
                assert((hdr - 0xf7) as nat == ll);
                assert(e.subrange(1, (1 + ll) as int) =~= lb);
                lemma_be_val_be_bytes(p.len());
                assert(e.subrange((1 + ll) as int, (1 + ll + p.len()) as int) =~= p);
                lemma_dec_enc_seq(s, (depth - 1) as nat);
            }
        },
    }
}

/// Decoding the concatenated encodings of a sequence of values yields
/// exactly those values.
pub proof fn lemma_dec_enc_seq(s: Seq<ItemM>, depth: nat)
    requires
        depth_of_seq(s) <= depth,
        enc_seq(s).len() < 0x10000000000000000,
    ensures
        dec_items(enc_seq(s), depth) == Ok::<Seq<ItemM>, DecoderError>(s),
    decreases s,
{
    if s.len() == 0 {
        assert(s =~= Seq::<ItemM>::empty());
    } else {
        let x = s[0];
        let s2 = s.drop_first();
        let buf = enc_seq(s);
        lemma_enc_len(x);
        lemma_dec_enc(x, enc_seq(s2), depth);
        let n = enc(x).len();
        assert(buf.subrange(n as int, buf.len() as int) =~= enc_seq(s2));
        lemma_dec_enc_seq(s2, depth);
        assert(seq![x] + s2 =~= s);
    }
}

/// What the decoder accepts is the canonical encoding of what it returns:
/// a successful decode consumes exactly the encoding of its result.
pub proof fn lemma_dec_sound(buf: Seq<u8>, depth: nat)
    ensures
        dec_item(buf, depth) matches Ok((x, n)) ==> {
            &&& 1 <= n <= buf.len()
            &&& enc(x) == buf.subrange(0, n as int)
            &&& depth_of(x) <= depth
        },
    decreases depth, buf.len(), 0int,
{
    if buf.len() == 0 {
        return;
    }
    let b = buf[0];
    if b < 0x80 {
        let x = ItemM::Bytes(seq![b]);
        assert(enc(x) =~= buf.subrange(0, 1));
    } else if b <= 0xb7 {
        let l = (b - 0x80) as nat;
        if buf.len() >= 1 + l {
            let data = buf.subrange(1, (1 + l) as int);
            if !(l == 1 && data[0] < 0x80) {
                let x = ItemM::Bytes(data);
                if data.len() == 1 && data[0] < 0x80 {
                    assert(false);
                }
                assert(enc(x) =~= buf.subrange(0, (1 + l) as int));
            }
        }
    } else if b <= 0xbf {
        let ll = (b - 0xb7) as nat;
        if buf.len() >= 1 + ll {
            let lenb = buf.subrange(1, (1 + ll) as int);
            if lenb[0] != 0 {
                let l = be_val(lenb);
                if l > 55 && buf.len() >= 1 + ll + l {
                    let data = buf.subrange((1 + ll) as int, (1 + ll + l) as int);
                    let x = ItemM::Bytes(data);
                    lemma_be_bytes_be_val(lenb);
                    assert(be_bytes(data.len()) == lenb);
                    assert(enc(x) =~= buf.subrange(0, (1 + ll + l) as int));
                }
            }
        }
    } else if b <= 0xf7 {
        let l = (b - 0xc0) as nat;
        if buf.len() >= 1 + l && depth > 0 {
            let payload = buf.subrange(1, (1 + l) as int);
            lemma_dec_items_sound(payload, (depth - 1) as nat);
            match dec_items(payload, (depth - 1) as nat) {
                Ok(items) => {
                    let x = ItemM::List(items);
                    assert(enc_seq(items) == payload);
                    assert(enc(x) =~= buf.subrange(0, (1 + l) as int));
                },
                Err(_) => {},
            }
        }
    } else {
        let ll = (b - 0xf7) as nat;
        if buf.len() >= 1 + ll {
            let lenb = buf.subrange(1, (1 + ll) as int);
            if lenb[0] != 0 {
                let l = be_val(lenb);
                if l > 55 && buf.len() >= 1 + ll + l && depth > 0 {
                    let payload = buf.subrange((1 + ll) as int, (1 + ll + l) as int);
                    lemma_dec_items_sound(payload, (depth - 1) as nat);
                    match dec_items(payload, (depth - 1) as nat) {
                        Ok(items) => {
                            let x = ItemM::List(items);
                            assert(enc_seq(items) == payload);
                            lemma_be_bytes_be_val(lenb);
                            assert(be_bytes(enc_seq(items).len()) == lenb);
                            assert(enc(x) =~= buf.subrange(0, (1 + ll + l) as int));
                        },
                        Err(_) => {},
                    }
                }
            }
        }
    }
}

/// A successful run decode re-encodes to exactly the input.
pub proof fn lemma_dec_items_sound(buf: Seq<u8>, depth: nat)
    ensures
        dec_items(buf, depth) matches Ok(s) ==> {
            &&& enc_seq(s) == buf
            &&& depth_of_seq(s) <= depth
        },
    decreases depth, buf.len(), 1int,
{
    if buf.len() == 0 {
        assert(enc_seq(Seq::<ItemM>::empty()) =~= buf);
    } else {
        lemma_dec_sound(buf, depth);
        match dec_item(buf, depth) {
            Ok((x, n)) => {
                if 1 <= n <= buf.len() {
                    let tail = buf.subrange(n as int, buf.len() as int);
                    lemma_dec_items_sound(tail, depth);
                    match dec_items(tail, depth) {
                        Ok(s2) => {
                            let s = seq![x] + s2;
                            assert(s[0] == x);
                            assert(s.drop_first() =~= s2);
                            assert(enc_seq(s) =~= buf);
                        },
                        Err(_) => {},
                    }
                }
            },
            Err(_) => {},
        }
    }
}

/// A sequence of values each within a depth bound stays within it.
pub proof fn lemma_depth_of_seq_bound(s: Seq<ItemM>, d: nat)
    requires
        forall|i: int| 0 <= i < s.len() ==> depth_of(#[trigger] s[i]) <= d,
    ensures
        depth_of_seq(s) <= d,
    decreases s,
{
    if s.len() > 0 {
        lemma_depth_of_seq_bound(s.drop_first(), d);
    }
}

/// Round-trip law: decoding the encoding of any value of bounded depth
/// yields exactly that value.
pub proof fn lemma_round_trip(x: ItemM)
    requires
        depth_of(x) <= MAX_DEPTH,
        enc(x).len() < 0x10000000000000000,
    ensures
        dec_full(enc(x)) == Ok::<ItemM, DecoderError>(x),
{
    lemma_dec_enc(x, Seq::<u8>::empty(), MAX_DEPTH as nat);
    assert(enc(x) + Seq::<u8>::empty() =~= enc(x));
}

/// `pow256` grows with its argument.
pub proof fn lemma_pow256_mono(a: nat, b: nat)
    requires
        a <= b,
    ensures
        pow256(a) <= pow256(b),
    decreases b,
{
    if a < b {
        lemma_pow256_mono(a, (b - 1) as nat);
        assert(pow256(b) == 256 * pow256((b - 1) as nat));
    }
}

/// The models of a sequence grow by one model per appended value.
pub proof fn lemma_models_push(s: Seq<Item>, it: Item)
    ensures
        models_of(s.push(it)) == models_of(s).push(it.model()),
{
    assert(s.push(it).drop_last() =~= s);
    assert(s.push(it).last() == it);
}

/// Appending a value appends its encoding.
pub proof fn lemma_enc_seq_push(s: Seq<ItemM>, m: ItemM)
    ensures
        enc_seq(s.push(m)) == enc_seq(s) + enc(m),
    decreases s,
{
    if s.len() == 0 {
        let single = s.push(m);
        assert(single[0] == m);
        assert(single.drop_first() =~= Seq::<ItemM>::empty());
        assert(enc_seq(Seq::<ItemM>::empty()) =~= Seq::<u8>::empty());
        assert(enc_seq(single) == enc(m) + enc_seq(single.drop_first()));
        assert(enc_seq(s) =~= Seq::<u8>::empty());
        assert(enc_seq(s.push(m)) =~= enc_seq(s) + enc(m));
    } else {
        assert(s.push(m)[0] == s[0]);
        assert(s.push(m).drop_first() =~= s.drop_first().push(m));
        lemma_enc_seq_push(s.drop_first(), m);
        assert(enc(s[0]) + (enc_seq(s.drop_first()) + enc(m))
            =~= (enc(s[0]) + enc_seq(s.drop_first())) + enc(m));
    }
}

/// Appends a copy of every byte of `src` to `out`.
pub(crate) fn push_all(out: &mut Vec<u8>, src: &Vec<u8>)
    ensures
        final(out)@ == old(out)@ + src@,
{
    let mut i: usize = 0;
    while i < src.len()
        invariant
            i <= src@.len(),
            out@ == old(out)@ + src@.subrange(0, i as int),
        decreases src@.len() - i,
    {
        out.push(src[i]);
        proof {
            assert(src@.subrange(0, (i + 1) as int)
                =~= src@.subrange(0, i as int).push(src@[i as int]));
            assert(old(out)@ + src@.subrange(0, (i + 1) as int)
                =~= (old(out)@ + src@.subrange(0, i as int)).push(src@[i as int]));
        }
        i = i + 1;
    }
    proof {
        assert(src@.subrange(0, src@.len() as int) =~= src@);
    }
}

/// Copies the bytes of `buf` between `from` and `to` into a fresh vector.
pub(crate) fn copy_range(buf: &Vec<u8>, from: usize, to: usize) -> (r: Vec<u8>)
    requires
        from <= to <= buf@.len(),
    ensures
        r@ == buf@.subrange(from as int, to as int),
{
    let mut r: Vec<u8> = Vec::new();
    let mut i: usize = from;
    while i < to
        invariant
            from <= i <= to <= buf@.len(),
            r@ == buf@.subrange(from as int, i as int),
        decreases to - i,
    {
        r.push(buf[i]);
        proof {
            assert(buf@.subrange(from as int, (i + 1) as int)
                =~= buf@.subrange(from as int, i as int).push(buf@[i as int]));
        }
        i = i + 1;
    }
    r
}

/// The big-endian bytes of `v`, shortest form.
pub(crate) fn be_bytes_exec(v: u64) -> (r: Vec<u8>)
    ensures
        r@ == be_bytes(v as nat),
    decreases v,
{
    if v == 0 {
        let r: Vec<u8> = Vec::new();
        proof {
            assert(r@ =~= be_bytes(0));
        }
        r
    } else {
        let mut r = be_bytes_exec(v / 256);
        r.push((v % 256) as u8);
        r
    }
}

impl Item {
    /// Encodes this value into its canonical byte form.
    pub fn encode(&self) -> (r: Vec<u8>)
        ensures
            r@ == enc(self.model()),
    {
        let mut out: Vec<u8> = Vec::new();
        encode_into(self, &mut out);
        proof {
            assert(Seq::<u8>::empty() + enc(self.model()) =~= enc(self.model()));
        }
        out
    }
}

/// Appends the encoding of `item` to `out`.
#[verifier::loop_isolation(false)]
fn encode_into(item: &Item, out: &mut Vec<u8>)
    ensures
        final(out)@ == old(out)@ + enc(item.model()),
    decreases item,
{
    match item {
        Item::Bytes(b) => {
            if b.len() == 1 && b[0] < 0x80 {
                out.push(b[0]);
                proof {
                    assert(enc(item.model()) =~= b@);
                    assert(out@ =~= old(out)@ + b@);
                }
            } else if b.len() <= 55 {
                out.push(0x80u8 + (b.len() as u8));
                push_all(out, b);
                proof {
                    assert(out@ =~= old(out)@ + enc(item.model()));
                }
            } else {
                proof {
                    lemma_pow256_8();
                    lemma_be_bytes_len(b@.len(), 8);
                }
                let lb = be_bytes_exec(b.len() as u64);
                out.push(0xb7u8 + (lb.len() as u8));
                push_all(out, &lb);
                push_all(out, b);
                proof {
                    assert(out@ =~= old(out)@ + enc(item.model()));
                }
            }
        },
        Item::List(items) => {
            let mut payload: Vec<u8> = Vec::new();
            let n = items.len();
            let mut idx: usize = 0;
            while idx < n
                invariant
                    idx <= n,
                    n == items@.len(),
                    payload@ == enc_seq(models_of(items@.subrange(0, idx as int))),
                decreases n - idx,
            {
                proof {
                    assert(*item == Item::List(*items));
                    assert(decreases_to!(*item => *items));
                    assert(decreases_to!(*items => items@));
                    assert(decreases_to!(items@ => items@[idx as int]));
                }
                encode_into(&items[idx], &mut payload);
                proof {
                    let pre = items@.subrange(0, idx as int);
                    assert(items@.subrange(0, (idx + 1) as int) =~= pre.push(items@[idx as int]));
                    lemma_models_push(pre, items@[idx as int]);
                    lemma_enc_seq_push(models_of(pre), items@[idx as int].model());
                }
                idx = idx + 1;
            }
            proof {
                assert(items@.subrange(0, n as int) =~= items@);
            }
            if payload.len() <= 55 {
                out.push(0xc0u8 + (payload.len() as u8));
                push_all(out, &payload);
                proof {
                    assert(out@ =~= old(out)@ + enc(item.model()));
                }
            } else {
                proof {
                    lemma_pow256_8();
                    lemma_be_bytes_len(payload@.len(), 8);
                }
                let lb = be_bytes_exec(payload.len() as u64);
                out.push(0xf7u8 + (lb.len() as u8));
                push_all(out, &lb);
                push_all(out, &payload);
                proof {
                    assert(out@ =~= old(out)@ + enc(item.model()));
                }
            }
        },
    }
}

/// Reads `count` big-endian bytes starting at `start` as a number.
#[verifier::loop_isolation(false)]
pub(crate) fn read_be(buf: &Vec<u8>, start: usize, count: usize) -> (v: u64)
    requires
        count <= 8,
        start + count <= buf@.len(),
    ensures
        v as nat == be_val(buf@.subrange(start as int, (start + count) as int)),
{
    let mut v: u64 = 0;
    let mut i: usize = 0;
    proof {
        vstd::std_specs::vec::axiom_spec_len(buf);
        lemma_pow256_8();
        assert(buf@.subrange(start as int, start as int) =~= Seq::<u8>::empty());
    }
    while i < count
        invariant
            i <= count <= 8,
            start + count <= buf@.len(),
            v as nat == be_val(buf@.subrange(start as int, (start + i) as int)),
            (v as nat) < pow256(i as nat),
        decreases count - i,
    {
        proof {
            lemma_pow256_8();
            lemma_pow256_mono((i + 1) as nat, 8);
            assert((v as nat) * 256 + 255 < 256 * pow256(i as nat)) by (nonlinear_arith)
                requires (v as nat) < pow256(i as nat);
            assert(256 * pow256(i as nat) == pow256((i + 1) as nat));
        }
        let b = buf[start + i];
        let v2 = v * 256 + (b as u64);
        proof {
            let pre = buf@.subrange(start as int, (start + i) as int);
            let cur = buf@.subrange(start as int, (start + i + 1) as int);
            assert(cur.drop_last() =~= pre);
            assert(cur.last() == b);
            assert((v2 as nat) < pow256((i + 1) as nat)) by (nonlinear_arith)
                requires
                    (v as nat) < pow256(i as nat),
                    v2 == (v as nat) * 256 + b,
                    b < 256,
                    256 * pow256(i as nat) == pow256((i + 1) as nat);
        }
        v = v2;
        i = i + 1;
    }
    v
}

/// Decodes one value out of `buf[pos..limit]`, returning it with the
/// position just after its encoding.
#[verifier::loop_isolation(false)]
fn decode_at(buf: &Vec<u8>, pos: usize, limit: usize, depth: u64) -> (r: Result<
    (Item, usize),
    DecoderError,
>)
    requires
        pos <= limit <= buf@.len(),
    ensures
        match r {
            Ok((it, end)) => pos < end <= limit && dec_item(
                buf@.subrange(pos as int, limit as int),
                depth as nat,
            ) == Ok::<(ItemM, nat), DecoderError>((it.model(), (end - pos) as nat)),
            Err(e) => dec_item(buf@.subrange(pos as int, limit as int), depth as nat)
                == Err::<(ItemM, nat), DecoderError>(e),
        },
    decreases depth, limit - pos, 0int,
{
    proof {
        vstd::std_specs::vec::axiom_spec_len(buf);
    }
    let ghost s = buf@.subrange(pos as int, limit as int);
    if pos == limit {
        return Err(DecoderError::ShortInput);
    }
    let b = buf[pos];
    proof {
        assert(s[0] == b);
    }
    if b < 0x80 {
        let mut v: Vec<u8> = Vec::new();
        v.push(b);
        proof {
            assert(v@ =~= seq![b]);
        }
        Ok((Item::Bytes(v), pos + 1))
    } else if b <= 0xb7 {
        let l = (b - 0x80) as usize;
        if limit - pos < 1 + l {
            return Err(DecoderError::ShortInput);
        }
        let data = copy_range(buf, pos + 1, pos + 1 + l);
        proof {
            assert(data@ =~= s.subrange(1, (1 + l) as int));
        }
        if l == 1 && data[0] < 0x80 {
            return Err(DecoderError::NonCanonical);
        }
        Ok((Item::Bytes(data), pos + 1 + l))
    } else if b <= 0xbf {
        let ll = (b - 0xb7) as usize;
        if limit - pos < 1 + ll {
            return Err(DecoderError::ShortInput);
        }
        let ghost lenb = s.subrange(1, (1 + ll) as int);
        proof {
            assert(lenb[0] == buf@[(pos + 1) as int]);
        }
        if buf[pos + 1] == 0 {
            return Err(DecoderError::NonCanonical);
        }
        let l64 = read_be(buf, pos + 1, ll);
        proof {
            assert(buf@.subrange((pos + 1) as int, (pos + 1 + ll) as int) =~= lenb);
        }
        if l64 <= 55 {
            return Err(DecoderError::NonCanonical);
        }
        let avail = (limit - pos - 1 - ll) as u64;
        if avail < l64 {
            proof {
                assert(s.len() < 1 + ll + be_val(lenb));
            }
            return Err(DecoderError::ShortInput);
        }
        let l = l64 as usize;
        let data = copy_range(buf, pos + 1 + ll, pos + 1 + ll + l);
        proof {
            assert(data@ =~= s.subrange((1 + ll) as int, (1 + ll + l) as int));
        }
        Ok((Item::Bytes(data), pos + 1 + ll + l))
    } else if b <= 0xf7 {
        let l = (b - 0xc0) as usize;
        if limit - pos < 1 + l {
            return Err(DecoderError::ShortInput);
        }
        if depth == 0 {
            return Err(DecoderError::TooDeep);
        }
        proof {
            assert(buf@.subrange((pos + 1) as int, (pos + 1 + l) as int)
                =~= s.subrange(1, (1 + l) as int));
        }
        match decode_list_payload(buf, pos + 1, pos + 1 + l, depth - 1) {
            Ok(items) => Ok((Item::List(items), pos + 1 + l)),
            Err(e) => Err(e),
        }
    } else {
        let ll = (b - 0xf7) as usize;
        if limit - pos < 1 + ll {
            return Err(DecoderError::ShortInput);
        }
        let ghost lenb = s.subrange(1, (1 + ll) as int);
        proof {
            assert(lenb[0] == buf@[(pos + 1) as int]);
        }
        if buf[pos + 1] == 0 {
            return Err(DecoderError::NonCanonical);
        }
        let l64 = read_be(buf, pos + 1, ll);
        proof {
            assert(buf@.subrange((pos + 1) as int, (pos + 1 + ll) as int) =~= lenb);
        }
        if l64 <= 55 {
            return Err(DecoderError::NonCanonical);
        }
        let avail = (limit - pos - 1 - ll) as u64;
        if avail < l64 {
            proof {
                assert(s.len() < 1 + ll + be_val(lenb));
            }
            return Err(DecoderError::ShortInput);
        }
        if depth == 0 {
            return Err(DecoderError::TooDeep);
        }
        let l = l64 as usize;
        proof {
            assert(buf@.subrange((pos + 1 + ll) as int, (pos + 1 + ll + l) as int)
                =~= s.subrange((1 + ll) as int, (1 + ll + l) as int));
        }
        match decode_list_payload(buf, pos + 1 + ll, pos + 1 + ll + l, depth - 1) {
            Ok(items) => Ok((Item::List(items), pos + 1 + ll + l)),
            Err(e) => Err(e),
        }
    }
}

/// Decodes the run of values that fills `buf[start..end]` exactly.
#[verifier::loop_isolation(false)]
fn decode_list_payload(buf: &Vec<u8>, start: usize, end: usize, depth: u64) -> (r: Result<
    Vec<Item>,
    DecoderError,
>)
    requires
        start <= end <= buf@.len(),
    ensures
        match r {
            Ok(items) => dec_items(buf@.subrange(start as int, end as int), depth as nat)
                == Ok::<Seq<ItemM>, DecoderError>(models_of(items@)),
            Err(e) => dec_items(buf@.subrange(start as int, end as int), depth as nat)
                == Err::<Seq<ItemM>, DecoderError>(e),
        },
    decreases depth, end - start, 1int,
{
    let ghost whole = buf@.subrange(start as int, end as int);
    let mut items: Vec<Item> = Vec::new();
    let mut q = start;
    proof {
        assert(models_of(items@) =~= Seq::<ItemM>::empty());
    }
    while q < end
        invariant
            start <= q <= end,
            ({
                let rr = dec_items(buf@.subrange(q as int, end as int), depth as nat);
                let tot = dec_items(whole, depth as nat);
                match rr {
                    Ok(rest) => tot == Ok::<Seq<ItemM>, DecoderError>(
                        models_of(items@) + rest,
                    ),
                    Err(e) => tot == Err::<Seq<ItemM>, DecoderError>(e),
                }
            }),
        decreases end - q,
    {
        let ghost seg = buf@.subrange(q as int, end as int);
        match decode_at(buf, q, end, depth) {
            Err(e) => {
                return Err(e);
            },
            Ok((it, q2)) => {
                proof {
                    let n = (q2 - q) as nat;
                    assert(seg.subrange(n as int, seg.len() as int)
                        =~= buf@.subrange(q2 as int, end as int));
                    lemma_models_push(items@, it);
                    assert forall|rest2: Seq<ItemM>|
                        models_of(items@) + (seq![it.model()] + rest2)
                            =~= models_of(items@.push(it)) + rest2 by {
                    }
                }
                items.push(it);
                q = q2;
            },
        }
    }
    proof {
        assert(buf@.subrange(q as int, end as int).len() == 0);
        assert(dec_items(buf@.subrange(q as int, end as int), depth as nat)
            == Ok::<Seq<ItemM>, DecoderError>(Seq::<ItemM>::empty()));
        assert(models_of(items@) + Seq::<ItemM>::empty() =~= models_of(items@));
    }
    Ok(items)
}

impl Item {
    /// Decodes a whole input as exactly one value: the inverse of `encode`
    /// on canonical inputs, rejecting everything else.
    pub fn decode(buf: &Vec<u8>) -> (r: Result<Item, DecoderError>)
        ensures
            match r {
                Ok(it) => dec_full(buf@) == Ok::<ItemM, DecoderError>(it.model()),
                Err(e) => dec_full(buf@) == Err::<ItemM, DecoderError>(e),
            },
    {
        proof {
            vstd::std_specs::vec::axiom_spec_len(buf);
            assert(buf@.subrange(0, buf@.len() as int) =~= buf@);
        }
        match decode_at(buf, 0, buf.len(), MAX_DEPTH) {
            Ok((it, end)) => {
                if end == buf.len() {
                    Ok(it)
                } else {
                    Err(DecoderError::TrailingBytes)
                }
            },
            Err(e) => Err(e),
        }
    }
}

} // verus!
